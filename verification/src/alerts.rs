//! Texts and plans the guard derives from its state: firewall set elements,
//! memory notes sent to the memory service, the per-cycle schedule, file
//! integrity alerts and the status report.

use vstd::prelude::*;
use crate::guard::{
    IpEntry, key_pos, find_key, lemma_key_pos, pairs_view, BAN_THRESHOLD, DECAY_INTERVAL_SECS,
};
use crate::strs::{dec, dec_chars, from_chars, push_all, push_str_chars, to_chars};

verus! {

/// The version the guard reports in its notes.
pub open spec fn guard_version() -> Seq<char> {
    "3.0.0"@
}

/// A timeout as the firewall reads it: whole hours if at least one, else seconds.
pub open spec fn timeout_text(t: u64) -> Seq<char> {
    if t / 3600 > 0 {
        dec((t / 3600) as nat) + "h"@
    } else {
        dec(t as nat) + "s"@
    }
}

/// The set element that bans `ip` for `t` seconds.
pub open spec fn ban_element_spec(ip: Seq<char>, t: u64) -> Seq<char> {
    "{ "@ + ip + " timeout "@ + timeout_text(t) + " }"@
}

/// The set element that names `ip`.
pub open spec fn unban_element_spec(ip: Seq<char>) -> Seq<char> {
    "{ "@ + ip + " }"@
}

/// Set element banning `ip` for `timeout_secs`.
pub fn ban_element(ip: &str, timeout_secs: u64) -> (r: String)
    ensures
        r@ == ban_element_spec(ip@, timeout_secs),
{
    let mut v: Vec<char> = Vec::new();
    push_str_chars(&mut v, "{ ");
    push_str_chars(&mut v, ip);
    push_str_chars(&mut v, " timeout ");
    let hours = timeout_secs / 3600;
    if hours > 0 {
        let d = dec_chars(hours);
        push_all(&mut v, &d);
        push_str_chars(&mut v, "h");
    } else {
        let d = dec_chars(timeout_secs);
        push_all(&mut v, &d);
        push_str_chars(&mut v, "s");
    }
    push_str_chars(&mut v, " }");
    assert(v@ =~= ban_element_spec(ip@, timeout_secs));
    from_chars(&v)
}

/// Set element naming `ip`, for removal.
pub fn unban_element(ip: &str) -> (r: String)
    ensures
        r@ == unban_element_spec(ip@),
{
    let mut v: Vec<char> = Vec::new();
    push_str_chars(&mut v, "{ ");
    push_str_chars(&mut v, ip);
    push_str_chars(&mut v, " }");
    assert(v@ =~= unban_element_spec(ip@));
    from_chars(&v)
}

/// One character of note content inside a JSON string: backslashes and
/// quotes are escaped, newlines become spaces, carriage returns vanish.
pub open spec fn escape_char(c: char) -> Seq<char> {
    if c == '\\' {
        seq!['\\', '\\']
    } else if c == '"' {
        seq!['\\', '"']
    } else if c == '\n' {
        seq![' ']
    } else if c == '\r' {
        Seq::empty()
    } else {
        seq![c]
    }
}

/// Note content escaped for a JSON string.
pub open spec fn escape_content(s: Seq<char>) -> Seq<char>
    decreases s.len(),
{
    if s.len() == 0 {
        Seq::empty()
    } else {
        escape_content(s.drop_last()) + escape_char(s.last())
    }
}

/// Labels as a JSON list body: each quoted, separated by commas.
pub open spec fn quoted_labels(labels: Seq<Seq<char>>) -> Seq<char>
    decreases labels.len(),
{
    if labels.len() == 0 {
        Seq::empty()
    } else if labels.len() == 1 {
        "\""@ + labels[0] + "\""@
    } else {
        quoted_labels(labels.drop_last()) + ","@ + "\""@ + labels.last() + "\""@
    }
}

/// The request body that stores a note with labels in the memory service.
pub open spec fn note_body_spec(content: Seq<char>, labels: Seq<Seq<char>>) -> Seq<char> {
    "{\"content\":\""@ + escape_content(content) + "\",\"labels\":["@ + quoted_labels(labels)
        + "]}"@
}

/// Builds the request body for a memory note.
pub fn note_body(content: &str, labels: &Vec<&str>) -> (r: String)
    ensures
        r@ == note_body_spec(content@, labels@.map_values(|l: &str| l@)),
{
    let cc = to_chars(content);
    let mut esc: Vec<char> = Vec::new();
    let mut i: usize = 0;
    while i < cc.len()
        invariant
            i <= cc@.len(),
            cc@ == content@,
            esc@ == escape_content(cc@.take(i as int)),
        decreases cc.len() - i,
    {
        let c = cc[i];
        assert(cc@.take(i + 1).drop_last() =~= cc@.take(i as int));
        if c == '\\' {
            esc.push('\\');
            esc.push('\\');
        } else if c == '"' {
            esc.push('\\');
            esc.push('"');
        } else if c == '\n' {
            esc.push(' ');
        } else if c == '\r' {
        } else {
            esc.push(c);
        }
        assert(esc@ =~= escape_content(cc@.take(i + 1)));
        i += 1;
    }
    assert(cc@.take(cc@.len() as int) =~= cc@);
    let ghost ls = labels@.map_values(|l: &str| l@);
    let mut q: Vec<char> = Vec::new();
    let mut k: usize = 0;
    while k < labels.len()
        invariant
            k <= labels@.len(),
            ls == labels@.map_values(|l: &str| l@),
            q@ == quoted_labels(ls.take(k as int)),
        decreases labels.len() - k,
    {
        assert(ls.take(k + 1).drop_last() =~= ls.take(k as int));
        assert(ls[k as int] == labels@[k as int]@);
        if k > 0 {
            push_str_chars(&mut q, ",");
        }
        push_str_chars(&mut q, "\"");
        push_str_chars(&mut q, labels[k]);
        push_str_chars(&mut q, "\"");
        proof {
            if k == 0 {
                assert(q@ =~= quoted_labels(ls.take(1)));
            } else {
                assert(q@ =~= quoted_labels(ls.take(k + 1)));
            }
        }
        k += 1;
    }
    assert(ls.take(ls.len() as int) =~= ls);
    let mut v: Vec<char> = Vec::new();
    push_str_chars(&mut v, "{\"content\":\"");
    push_all(&mut v, &esc);
    push_str_chars(&mut v, "\",\"labels\":[");
    push_all(&mut v, &q);
    push_str_chars(&mut v, "]}");
    assert(v@ =~= note_body_spec(content@, ls));
    from_chars(&v)
}

/// What a banned address did, as the ban note names it.
pub open spec fn attack_type_spec(e: IpEntry) -> Seq<char> {
    if e.honeypot_hits > 0 {
        "honeypot"@
    } else if e.web_attacks > 0 && e.ssh_fails > 0 {
        "ssh+web"@
    } else if e.web_attacks > 0 {
        "web-attack"@
    } else {
        "ssh-bruteforce"@
    }
}

/// The kind of attack behind a ban.
pub fn attack_type(e: &IpEntry) -> (r: &'static str)
    ensures
        r@ == attack_type_spec(*e),
{
    if e.honeypot_hits > 0 {
        "honeypot"
    } else if e.web_attacks > 0 && e.ssh_fails > 0 {
        "ssh+web"
    } else if e.web_attacks > 0 {
        "web-attack"
    } else {
        "ssh-bruteforce"
    }
}

/// The text of the note that records a ban.
pub open spec fn ban_note_spec(ip: Seq<char>, e: IpEntry, timeout: u64) -> Seq<char> {
    "Security ban: IP "@ + ip + " | type="@ + attack_type_spec(e) + " | score="@ + dec(
        e.score as nat,
    ) + " | ssh_fails="@ + dec(e.ssh_fails as nat) + " | web_attacks="@ + dec(
        e.web_attacks as nat,
    ) + " | honeypot="@ + dec(e.honeypot_hits as nat) + " | duration="@ + dec(
        (timeout / 3600) as nat,
    ) + "h | source=epicode-guard-v"@ + guard_version()
}

/// The labels of a ban note.
pub open spec fn ban_note_labels_spec(e: IpEntry) -> Seq<Seq<char>> {
    seq!["security"@, "auto-banned"@, attack_type_spec(e), "guard-memory"@]
}

/// The note (text and labels) that records a ban of `ip`.
pub fn ban_note(ip: &str, e: &IpEntry, timeout: u64) -> (r: (String, Vec<&'static str>))
    ensures
        r.0@ == ban_note_spec(ip@, *e, timeout),
        r.1@.map_values(|l: &str| l@) == ban_note_labels_spec(*e),
{
    let kind = attack_type(e);
    let mut v: Vec<char> = Vec::new();
    push_str_chars(&mut v, "Security ban: IP ");
    push_str_chars(&mut v, ip);
    push_str_chars(&mut v, " | type=");
    push_str_chars(&mut v, kind);
    push_str_chars(&mut v, " | score=");
    push_all(&mut v, &dec_chars(e.score as u64));
    push_str_chars(&mut v, " | ssh_fails=");
    push_all(&mut v, &dec_chars(e.ssh_fails as u64));
    push_str_chars(&mut v, " | web_attacks=");
    push_all(&mut v, &dec_chars(e.web_attacks as u64));
    push_str_chars(&mut v, " | honeypot=");
    push_all(&mut v, &dec_chars(e.honeypot_hits as u64));
    push_str_chars(&mut v, " | duration=");
    push_all(&mut v, &dec_chars(timeout / 3600));
    push_str_chars(&mut v, "h | source=epicode-guard-v");
    push_str_chars(&mut v, "3.0.0");
    assert(v@ =~= ban_note_spec(ip@, *e, timeout));
    let labels = vec!["security", "auto-banned", kind, "guard-memory"];
    assert(labels@.map_values(|l: &str| l@) =~= ban_note_labels_spec(*e));
    (from_chars(&v), labels)
}

/// The text of the note that records a honeypot capture.
pub open spec fn honeypot_note_spec(ip: Seq<char>, port: u16) -> Seq<char> {
    "Honeypot capture: IP "@ + ip + " connected to decoy port "@ + dec(port as nat)
        + " | instant ban | source=epicode-guard-v"@ + guard_version()
}

/// The labels of a honeypot note.
pub open spec fn honeypot_note_labels_spec() -> Seq<Seq<char>> {
    seq!["security"@, "honeypot"@, "decoy"@, "guard-memory"@]
}

/// The note (text and labels) that records a honeypot capture of `ip` on `port`.
pub fn honeypot_note(ip: &str, port: u16) -> (r: (String, Vec<&'static str>))
    ensures
        r.0@ == honeypot_note_spec(ip@, port),
        r.1@.map_values(|l: &str| l@) == honeypot_note_labels_spec(),
{
    let mut v: Vec<char> = Vec::new();
    push_str_chars(&mut v, "Honeypot capture: IP ");
    push_str_chars(&mut v, ip);
    push_str_chars(&mut v, " connected to decoy port ");
    push_all(&mut v, &dec_chars(port as u64));
    push_str_chars(&mut v, " | instant ban | source=epicode-guard-v");
    push_str_chars(&mut v, "3.0.0");
    assert(v@ =~= honeypot_note_spec(ip@, port));
    let labels = vec!["security", "honeypot", "decoy", "guard-memory"];
    assert(labels@.map_values(|l: &str| l@) =~= honeypot_note_labels_spec());
    (from_chars(&v), labels)
}

/// What one daemon cycle does besides reading logs.
pub struct CyclePlan {
    pub check_files: bool,
    pub check_ports: bool,
    pub check_floods: bool,
    pub log_stats: bool,
}

/// The periodic tasks of cycle number `cycle` (cycles are ten seconds apart):
/// files every five minutes, ports every thirty cycles, floods every minute,
/// statistics every ten minutes after the first cycle.
pub fn cycle_plan(cycle: u64) -> (r: CyclePlan)
    ensures
        r.check_files == (cycle % 30 == 0),
        r.check_ports == (cycle % 30 == 0),
        r.check_floods == (cycle % 6 == 0),
        r.log_stats == (cycle % 60 == 0 && cycle > 0),
{
    CyclePlan {
        check_files: cycle % 30 == 0,
        check_ports: cycle % 30 == 0,
        check_floods: cycle % 6 == 0,
        log_stats: cycle % 60 == 0 && cycle > 0,
    }
}

/// Whether scores are due to decay: more than the decay interval since the last decay.
pub fn decay_due(now: i64, last_decay: i64) -> (r: bool)
    ensures
        r == (now - last_decay > DECAY_INTERVAL_SECS),
{
    (now as i128) - (last_decay as i128) > 300
}


/// `s` with key `k` set to `v`: replaced where present, appended otherwise.
pub open spec fn upsert<V>(s: Seq<(Seq<char>, V)>, k: Seq<char>, v: V) -> Seq<(Seq<char>, V)> {
    let p = key_pos(s, k);
    if p < s.len() {
        s.update(p, (k, v))
    } else {
        s.push((k, v))
    }
}

/// View of an observed (path, current hash) list.
pub open spec fn observed_view(v: Seq<(String, Option<String>)>) -> Seq<(Seq<char>, Option<Seq<char>>)> {
    v.map_values(
        |p: (String, Option<String>)|
            (
                p.0@,
                match p.1 {
                    Some(h) => Some(h@),
                    None => None,
                },
            ),
    )
}

/// The integrity check over observed hashes: on the first run (no stored
/// hashes) every hash becomes the baseline; later a changed hash raises an
/// alert and replaces the stored one, a new file is added silently, and a
/// missing file is skipped. Returns the stored hashes and the alerts.
pub open spec fn integrity_fold(
    hashes: Seq<(Seq<char>, Seq<char>)>,
    obs: Seq<(Seq<char>, Option<Seq<char>>)>,
    first_run: bool,
) -> (Seq<(Seq<char>, Seq<char>)>, Seq<Seq<char>>)
    decreases obs.len(),
{
    if obs.len() == 0 {
        (hashes, Seq::empty())
    } else {
        let (h0, a0) = integrity_fold(hashes, obs.drop_last(), first_run);
        let (path, cur) = obs.last();
        match cur {
            None => (h0, a0),
            Some(c) => if first_run {
                (upsert(h0, path, c), a0)
            } else {
                let p = key_pos(h0, path);
                if p < h0.len() {
                    if h0[p].1 != c {
                        (upsert(h0, path, c), a0.push(path))
                    } else {
                        (h0, a0)
                    }
                } else {
                    (upsert(h0, path, c), a0)
                }
            },
        }
    }
}

/// View of stored (path, hash) pairs.
pub open spec fn hashes_view(v: Seq<(String, String)>) -> Seq<(Seq<char>, Seq<char>)> {
    v.map_values(|p: (String, String)| (p.0@, p.1@))
}

/// Compares observed file hashes with the stored ones, updating them, and
/// returns the paths whose content changed.
pub fn check_file_integrity(
    hashes: &mut Vec<(String, String)>,
    observed: &Vec<(String, Option<String>)>,
) -> (alerts: Vec<String>)
    ensures
        ({
            let (h, a) = integrity_fold(
                hashes_view(old(hashes)@),
                observed_view(observed@),
                old(hashes)@.len() == 0,
            );
            hashes_view(final(hashes)@) == h && alerts@.map_values(|s: String| s@) == a
        }),
{
    let first_run = hashes.len() == 0;
    let ghost obs = observed_view(observed@);
    let ghost h_start = hashes_view(hashes@);
    let mut alerts: Vec<String> = Vec::new();
    let mut i: usize = 0;
    while i < observed.len()
        invariant
            i <= observed@.len(),
            obs == observed_view(observed@),
            first_run == (h_start.len() == 0),
            h_start == hashes_view(old(hashes)@),
            ({
                let (h, a) = integrity_fold(h_start, obs.take(i as int), first_run);
                hashes_view(hashes@) == h && alerts@.map_values(|s: String| s@) == a
            }),
        decreases observed.len() - i,
    {
        assert(obs.take(i + 1).drop_last() =~= obs.take(i as int));
        assert(obs.take(i + 1).last() == obs[i as int]);
        let path = observed[i].0.as_str();
        assert(obs[i as int].0 == path@);
        match &observed[i].1 {
            None => {
            },
            Some(cur) => {
                assert(obs[i as int].1 == Some(cur@));
                let p = find_key(hashes, path);
                proof {
                    lemma_key_pos(pairs_view(hashes@), path@);
                    assert(pairs_view(hashes@).len() == hashes_view(hashes@).len());
                    assert forall|j: int| 0 <= j < hashes@.len() implies pairs_view(hashes@)[j].0
                        == hashes_view(hashes@)[j].0 by {
                    }
                    assert(key_pos(pairs_view(hashes@), path@) == key_pos(hashes_view(hashes@), path@)) by {
                        crate::guard::lemma_key_pos_is(
                            hashes_view(hashes@),
                            path@,
                            key_pos(pairs_view(hashes@), path@),
                        );
                    }
                }
                let ghost hv = hashes_view(hashes@);
                if first_run {
                    if p < hashes.len() {
                        hashes[p].1 = cur.clone();
                        assert(hashes_view(hashes@) =~= upsert(hv, path@, cur@));
                    } else {
                        hashes.push((path.to_owned(), cur.clone()));
                        assert(hashes_view(hashes@) =~= upsert(hv, path@, cur@));
                    }
                } else if p < hashes.len() {
                    let changed = !crate::strs::str_eq(hashes[p].1.as_str(), cur.as_str());
                    if changed {
                        hashes[p].1 = cur.clone();
                        assert(hashes_view(hashes@) =~= upsert(hv, path@, cur@));
                        alerts.push(path.to_owned());
                    }
                } else {
                    hashes.push((path.to_owned(), cur.clone()));
                    assert(hashes_view(hashes@) =~= upsert(hv, path@, cur@));
                }
            },
        }
        i += 1;
    }
    assert(obs.take(obs.len() as int) =~= obs);
    alerts
}

/// Index of the first entry whose score is below `k`, or the length.
pub open spec fn first_below(s: Seq<(Seq<char>, IpEntry)>, k: u32) -> int
    decreases s.len(),
{
    if s.len() == 0 {
        0
    } else if s[0].1.score < k {
        0
    } else {
        1 + first_below(s.drop_first(), k)
    }
}

proof fn lemma_first_below_is(s: Seq<(Seq<char>, IpEntry)>, k: u32, i: int)
    requires
        0 <= i <= s.len(),
        forall|j: int| 0 <= j < i ==> s[j].1.score >= k,
        i == s.len() || s[i].1.score < k,
    ensures
        first_below(s, k) == i,
    decreases s.len(),
{
    if s.len() > 0 && i > 0 {
        assert forall|j: int| 0 <= j < i - 1 implies s.drop_first()[j].1.score >= k by {
            assert(s.drop_first()[j] == s[j + 1]);
        }
        lemma_first_below_is(s.drop_first(), k, i - 1);
    }
}

/// Stable insertion by descending score: after every entry scoring at least as much.
pub open spec fn insert_by_score(s: Seq<(Seq<char>, IpEntry)>, x: (Seq<char>, IpEntry)) -> Seq<
    (Seq<char>, IpEntry),
> {
    s.insert(first_below(s, x.1.score), x)
}

/// Stable sort by descending score.
pub open spec fn sort_by_score(s: Seq<(Seq<char>, IpEntry)>) -> Seq<(Seq<char>, IpEntry)>
    decreases s.len(),
{
    if s.len() == 0 {
        Seq::empty()
    } else {
        insert_by_score(sort_by_score(s.drop_last()), s.last())
    }
}

/// Entries under a ban that runs past `now`.
pub open spec fn active_ban(p: (Seq<char>, IpEntry), now: i64) -> bool {
    p.1.banned_until > now
}

/// Unbanned entries with a score above three.
pub open spec fn suspect(p: (Seq<char>, IpEntry)) -> bool {
    p.1.banned_until == 0 && p.1.score > 3
}

/// The at most `limit` highest-scoring entries that `keep` selects, ties in
/// table order.
pub open spec fn top_by_score(
    s: Seq<(Seq<char>, IpEntry)>,
    keep: spec_fn((Seq<char>, IpEntry)) -> bool,
    limit: nat,
) -> Seq<(Seq<char>, IpEntry)> {
    let sorted = sort_by_score(s.filter(keep));
    if sorted.len() <= limit {
        sorted
    } else {
        sorted.take(limit as int)
    }
}

fn top_entries(ips: &Vec<(String, IpEntry)>, now: i64, active: bool, limit: usize) -> (r: Vec<
    (String, IpEntry),
>)
    ensures
        pairs_view(r@) == top_by_score(
            pairs_view(ips@),
            if active {
                |p: (Seq<char>, IpEntry)| active_ban(p, now)
            } else {
                |p: (Seq<char>, IpEntry)| suspect(p)
            },
            limit as nat,
        ),
{
    let ghost s = pairs_view(ips@);
    let ghost keep = if active {
        |p: (Seq<char>, IpEntry)| active_ban(p, now)
    } else {
        |p: (Seq<char>, IpEntry)| suspect(p)
    };
    let mut r: Vec<(String, IpEntry)> = Vec::new();
    let mut i: usize = 0;
    while i < ips.len()
        invariant
            i <= ips@.len(),
            s == pairs_view(ips@),
            keep == (if active {
                |p: (Seq<char>, IpEntry)| active_ban(p, now)
            } else {
                |p: (Seq<char>, IpEntry)| suspect(p)
            }),
            pairs_view(r@) == sort_by_score(s.take(i as int).filter(keep)),
        decreases ips.len() - i,
    {
        let ghost pre = s.take(i as int);
        let ghost post = s.take(i + 1);
        assert(post.drop_last() =~= pre);
        assert(post.last() == s[i as int]);
        let e = ips[i].1;
        assert(s[i as int] == (ips@[i as int].0@, e));
        let take = if active {
            e.banned_until > now
        } else {
            e.banned_until == 0 && e.score > 3
        };
        assert(take == keep(s[i as int]));
        assert(post =~= pre.push(s[i as int]));
        proof {
            pre.lemma_filter_push(s[i as int], keep);
        }
        if take {
            let ghost rv = pairs_view(r@);
            let mut j: usize = 0;
            while j < r.len() && r[j].1.score >= e.score
                invariant
                    j <= r@.len(),
                    rv == pairs_view(r@),
                    forall|m: int| 0 <= m < j ==> rv[m].1.score >= e.score,
                decreases r.len() - j,
            {
                j += 1;
            }
            proof {
                lemma_first_below_is(rv, e.score, j as int);
            }
            r.insert(j, (ips[i].0.clone(), e));
            assert(pairs_view(r@) =~= rv.insert(j as int, s[i as int]));
            let ghost pf = pre.filter(keep);
            assert(pf.push(s[i as int]).drop_last() =~= pf);
            assert(sort_by_score(pf.push(s[i as int])) == insert_by_score(sort_by_score(pf), s[i as int]));
        }
        i += 1;
    }
    assert(s.take(ips@.len() as int) =~= s);
    if r.len() > limit {
        r.truncate(limit);
        assert(pairs_view(r@) =~= top_by_score(s, keep, limit as nat));
    }
    r
}

/// The active bans for the status report: at most twenty, highest score first.
pub fn top_active_bans(ips: &Vec<(String, IpEntry)>, now: i64) -> (r: Vec<(String, IpEntry)>)
    ensures
        pairs_view(r@) == top_by_score(
            pairs_view(ips@),
            |p: (Seq<char>, IpEntry)| active_ban(p, now),
            20,
        ),
{
    top_entries(ips, now, true, 20)
}

/// The suspicious unbanned addresses for the status report: at most ten,
/// highest score first.
pub fn top_suspects(ips: &Vec<(String, IpEntry)>) -> (r: Vec<(String, IpEntry)>)
    ensures
        pairs_view(r@) == top_by_score(pairs_view(ips@), |p: (Seq<char>, IpEntry)| suspect(p), 10),
{
    top_entries(ips, 0, false, 10)
}

} // verus!
