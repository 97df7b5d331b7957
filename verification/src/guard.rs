//! The intrusion guard: per-address threat scores fed by SSH failures, web
//! attacks, scans, floods and honeypot hits; score decay; and bans with a
//! duration that depends on what an address did.
//!
//! The daemon's I/O (reading logs, firewall commands, the state file) lives
//! outside this module; here is every decision it takes.

use vstd::prelude::*;
use crate::strs::{starts_with, starts_with_seq, str_eq, to_chars};

verus! {

pub const SSH_MAX_FAIL: u32 = 5;
pub const SSH_FAIL_SCORE: u32 = 3;
pub const WEB_ATTACK_SCORE: u32 = 5;
pub const WEB_SCAN_SCORE: u32 = 1;
pub const HONEYPOT_SCORE: u32 = 100;
pub const FLOOD_SCORE: u32 = 5;
pub const FLOOD_THRESHOLD: usize = 30;
pub const BAN_THRESHOLD: u32 = 10;
pub const BAN_TIMEOUT_SECS: u64 = 86400;
pub const DECAY_INTERVAL_SECS: u64 = 300;
pub const DECAY_AMOUNT: u32 = 2;
pub const CHECK_INTERVAL_SECS: u64 = 10;
pub const FILE_CHECK_INTERVAL_SECS: u64 = 300;

/// The longest ban, a week.
pub const MAX_BAN_SECS: u64 = 604800;

/// Latest timestamp at which a ban of the longest duration still fits in an `i64`.
pub const LATEST_NOW: i64 = 9223372036854170807;

/// What the guard knows about one address.
#[derive(Clone, Copy, Debug)]
pub struct IpEntry {
    pub score: u32,
    pub last_fail: i64,
    pub banned_until: i64,
    pub ssh_fails: u32,
    pub web_attacks: u32,
    pub web_scans: u32,
    pub honeypot_hits: u32,
}

/// The entry of an address seen for the first time.
pub open spec fn fresh_entry() -> IpEntry {
    IpEntry {
        score: 0,
        last_fail: 0,
        banned_until: 0,
        ssh_fails: 0,
        web_attacks: 0,
        web_scans: 0,
        honeypot_hits: 0,
    }
}

impl Default for IpEntry {
    fn default() -> (r: IpEntry)
        ensures
            r == fresh_entry(),
    {
        IpEntry {
            score: 0,
            last_fail: 0,
            banned_until: 0,
            ssh_fails: 0,
            web_attacks: 0,
            web_scans: 0,
            honeypot_hits: 0,
        }
    }
}

/// The kind of event an address is recorded for.
#[derive(Clone, Copy, Debug, PartialEq, Eq, Structural)]
pub enum Category {
    Ssh,
    WebAttack,
    WebScan,
    Honeypot,
    Flood,
    Other,
}

/// The category named by a string; unknown names count for nothing.
pub open spec fn category_spec(c: Seq<char>) -> Category {
    if c == "ssh"@ {
        Category::Ssh
    } else if c == "web_attack"@ {
        Category::WebAttack
    } else if c == "web_scan"@ {
        Category::WebScan
    } else if c == "honeypot"@ {
        Category::Honeypot
    } else if c == "flood"@ {
        Category::Flood
    } else {
        Category::Other
    }
}

/// Reads a category name.
pub fn category_of(c: &str) -> (r: Category)
    ensures
        r == category_spec(c@),
{
    if str_eq(c, "ssh") {
        Category::Ssh
    } else if str_eq(c, "web_attack") {
        Category::WebAttack
    } else if str_eq(c, "web_scan") {
        Category::WebScan
    } else if str_eq(c, "honeypot") {
        Category::Honeypot
    } else if str_eq(c, "flood") {
        Category::Flood
    } else {
        Category::Other
    }
}

/// Local, private-range and unspecified addresses are never scored.
pub open spec fn whitelisted(ip: Seq<char>) -> bool {
    ||| ip == "127.0.0.1"@
    ||| ip == "::1"@
    ||| ip == "0.0.0.0"@
    ||| ip == "::"@
    ||| starts_with_seq(ip, "10."@)
    ||| starts_with_seq(ip, "172.16."@)
    ||| starts_with_seq(ip, "192.168."@)
}

/// Whether `ip` is exempt from scoring.
pub fn is_whitelisted(ip: &str) -> (r: bool)
    ensures
        r == whitelisted(ip@),
{
    let v = to_chars(ip);
    let p10 = to_chars("10.");
    let p172 = to_chars("172.16.");
    let p192 = to_chars("192.168.");
    str_eq(ip, "127.0.0.1") || str_eq(ip, "::1") || str_eq(ip, "0.0.0.0") || str_eq(ip, "::")
        || starts_with(&v, &p10) || starts_with(&v, &p172) || starts_with(&v, &p192)
}

/// An entry after one recorded event.
pub open spec fn bump_entry(e: IpEntry, score: u32, cat: Category, now: i64) -> IpEntry {
    IpEntry {
        score: (e.score + score) as u32,
        last_fail: now,
        banned_until: e.banned_until,
        ssh_fails: if cat == Category::Ssh {
            (e.ssh_fails + 1) as u32
        } else {
            e.ssh_fails
        },
        web_attacks: if cat == Category::WebAttack {
            (e.web_attacks + 1) as u32
        } else {
            e.web_attacks
        },
        web_scans: if cat == Category::WebScan || cat == Category::Flood {
            (e.web_scans + 1) as u32
        } else {
            e.web_scans
        },
        honeypot_hits: if cat == Category::Honeypot {
            (e.honeypot_hits + 1) as u32
        } else {
            e.honeypot_hits
        },
    }
}

/// The counters that [`bump_entry`] raises do not overflow.
pub open spec fn bump_fits(e: IpEntry, score: u32, cat: Category) -> bool {
    &&& e.score + score <= u32::MAX
    &&& cat == Category::Ssh ==> e.ssh_fails < u32::MAX
    &&& cat == Category::WebAttack ==> e.web_attacks < u32::MAX
    &&& (cat == Category::WebScan || cat == Category::Flood) ==> e.web_scans < u32::MAX
    &&& cat == Category::Honeypot ==> e.honeypot_hits < u32::MAX
}

fn bump(e: IpEntry, score: u32, cat: Category, now: i64) -> (r: IpEntry)
    requires
        bump_fits(e, score, cat),
    ensures
        r == bump_entry(e, score, cat, now),
{
    IpEntry {
        score: e.score + score,
        last_fail: now,
        banned_until: e.banned_until,
        ssh_fails: if cat == Category::Ssh {
            e.ssh_fails + 1
        } else {
            e.ssh_fails
        },
        web_attacks: if cat == Category::WebAttack {
            e.web_attacks + 1
        } else {
            e.web_attacks
        },
        web_scans: if cat == Category::WebScan || cat == Category::Flood {
            e.web_scans + 1
        } else {
            e.web_scans
        },
        honeypot_hits: if cat == Category::Honeypot {
            e.honeypot_hits + 1
        } else {
            e.honeypot_hits
        },
    }
}

/// Position of the first pair whose key is `k`, or the length if none.
pub open spec fn key_pos<V>(s: Seq<(Seq<char>, V)>, k: Seq<char>) -> int
    decreases s.len(),
{
    if s.len() == 0 {
        0
    } else if s[0].0 == k {
        0
    } else {
        1 + key_pos(s.drop_first(), k)
    }
}

/// Whether some pair has key `k`.
pub open spec fn has_key<V>(s: Seq<(Seq<char>, V)>, k: Seq<char>) -> bool {
    exists|i: int| 0 <= i < s.len() && s[i].0 == k
}

/// No key occurs twice.
pub open spec fn distinct_keys<V>(s: Seq<(Seq<char>, V)>) -> bool {
    forall|i: int, j: int| 0 <= i < j < s.len() ==> s[i].0 != s[j].0
}

pub proof fn lemma_key_pos<V>(s: Seq<(Seq<char>, V)>, k: Seq<char>)
    ensures
        0 <= key_pos(s, k) <= s.len(),
        key_pos(s, k) < s.len() ==> s[key_pos(s, k)].0 == k,
        forall|j: int| 0 <= j < key_pos(s, k) ==> s[j].0 != k,
        key_pos(s, k) == s.len() <==> !has_key(s, k),
    decreases s.len(),
{
    if s.len() > 0 && s[0].0 != k {
        lemma_key_pos(s.drop_first(), k);
        assert forall|j: int| 0 <= j < key_pos(s, k) implies s[j].0 != k by {
            if j > 0 {
                assert(s[j] == s.drop_first()[j - 1]);
            }
        }
        if has_key(s, k) {
            let i = choose|i: int| 0 <= i < s.len() && s[i].0 == k;
            assert(s.drop_first()[i - 1].0 == k);
        }
        if has_key(s.drop_first(), k) {
            let i = choose|i: int| 0 <= i < s.drop_first().len() && s.drop_first()[i].0 == k;
            assert(s[i + 1].0 == k);
        }
    }
}

pub proof fn lemma_key_pos_is<V>(s: Seq<(Seq<char>, V)>, k: Seq<char>, i: int)
    requires
        0 <= i <= s.len(),
        forall|j: int| 0 <= j < i ==> s[j].0 != k,
        i == s.len() || s[i].0 == k,
    ensures
        key_pos(s, k) == i,
    decreases s.len(),
{
    if s.len() > 0 && i > 0 {
        assert forall|j: int| 0 <= j < i - 1 implies s.drop_first()[j].0 != k by {
            assert(s.drop_first()[j] == s[j + 1]);
        }
        lemma_key_pos_is(s.drop_first(), k, i - 1);
    }
}

/// View of a vector of string-keyed pairs.
pub open spec fn pairs_view<V>(v: Seq<(String, V)>) -> Seq<(Seq<char>, V)> {
    v.map_values(|p: (String, V)| (p.0@, p.1))
}

/// Position of the first pair with key `k`.
pub fn find_key<V>(v: &Vec<(String, V)>, k: &str) -> (r: usize)
    ensures
        r as int == key_pos(pairs_view(v@), k@),
{
    let mut i: usize = 0;
    while i < v.len() && !str_eq(v[i].0.as_str(), k)
        invariant
            i <= v@.len(),
            forall|j: int| 0 <= j < i ==> pairs_view(v@)[j].0 != k@,
        decreases v.len() - i,
    {
        i += 1;
    }
    proof {
        lemma_key_pos_is(pairs_view(v@), k@, i as int);
    }
    i
}

/// The address table after one event for `ip`.
pub open spec fn record_entries(
    s: Seq<(Seq<char>, IpEntry)>,
    ip: Seq<char>,
    score: u32,
    cat: Category,
    now: i64,
) -> Seq<(Seq<char>, IpEntry)> {
    let p = key_pos(s, ip);
    if p < s.len() {
        s.update(p, (ip, bump_entry(s[p].1, score, cat, now)))
    } else {
        s.push((ip, bump_entry(fresh_entry(), score, cat, now)))
    }
}

/// The entry the table holds for `ip`, or a fresh one.
pub open spec fn entry_or_fresh(s: Seq<(Seq<char>, IpEntry)>, ip: Seq<char>) -> IpEntry {
    let p = key_pos(s, ip);
    if p < s.len() {
        s[p].1
    } else {
        fresh_entry()
    }
}


/// Applies `f` to every entry, keeping the key; entries mapped to `None`
/// are dropped. Order is preserved.
pub open spec fn map_entries<K>(
    s: Seq<(K, IpEntry)>,
    f: spec_fn(IpEntry) -> Option<IpEntry>,
) -> Seq<(K, IpEntry)>
    decreases s.len(),
{
    if s.len() == 0 {
        Seq::empty()
    } else {
        let rest = map_entries(s.drop_last(), f);
        match f(s.last().1) {
            Some(e) => rest.push((s.last().0, e)),
            None => rest,
        }
    }
}

pub proof fn lemma_map_entries_step<K>(
    s: Seq<(K, IpEntry)>,
    f: spec_fn(IpEntry) -> Option<IpEntry>,
    i: int,
)
    requires
        0 <= i < s.len(),
    ensures
        map_entries(s.take(i + 1), f) == match f(s[i].1) {
            Some(e) => map_entries(s.take(i), f).push((s[i].0, e)),
            None => map_entries(s.take(i), f),
        },
{
    assert(s.take(i + 1).drop_last() =~= s.take(i));
    assert(s.take(i + 1).last() == s[i]);
}

/// Every entry of the result comes from an entry of `s` with the same key,
/// and every entry of `s` that `f` keeps is in the result.
pub proof fn lemma_map_entries_members<K>(
    s: Seq<(K, IpEntry)>,
    f: spec_fn(IpEntry) -> Option<IpEntry>,
)
    ensures
        map_entries(s, f).len() <= s.len(),
        forall|i: int|
            0 <= i < map_entries(s, f).len() ==> exists|j: int|
                0 <= j < s.len() && s[j].0 == #[trigger] map_entries(s, f)[i].0 && f(s[j].1)
                    == Some(map_entries(s, f)[i].1),
        forall|j: int|
            0 <= j < s.len() && #[trigger] f(s[j].1) is Some ==> exists|i: int|
                0 <= i < map_entries(s, f).len() && map_entries(s, f)[i] == (
                    s[j].0,
                    f(s[j].1).unwrap(),
                ),
    decreases s.len(),
{
    if s.len() > 0 {
        let r0 = map_entries(s.drop_last(), f);
        lemma_map_entries_members(s.drop_last(), f);
        let r = map_entries(s, f);
        assert forall|i: int| 0 <= i < r.len() implies exists|j: int|
            0 <= j < s.len() && s[j].0 == #[trigger] r[i].0 && f(s[j].1) == Some(r[i].1) by {
            if i < r0.len() {
                assert(r[i] == r0[i]);
                let j = choose|j: int|
                    0 <= j < s.drop_last().len() && s.drop_last()[j].0 == r0[i].0 && f(
                        s.drop_last()[j].1,
                    ) == Some(r0[i].1);
                assert(s[j] == s.drop_last()[j]);
            } else {
                assert(s[s.len() - 1].0 == r[i].0);
            }
        }
        assert forall|j: int| 0 <= j < s.len() && #[trigger] f(s[j].1) is Some implies exists|i: int|
            0 <= i < r.len() && r[i] == (s[j].0, f(s[j].1).unwrap()) by {
            if j < s.len() - 1 {
                assert(s[j] == s.drop_last()[j]);
                assert(f(s.drop_last()[j].1) is Some);
                let i = choose|i: int|
                    0 <= i < r0.len() && r0[i] == (
                        s.drop_last()[j].0,
                        f(s.drop_last()[j].1).unwrap(),
                    );
                assert(r[i] == r0[i]);
            } else {
                assert(r[r.len() - 1] == (s[j].0, f(s[j].1).unwrap()));
            }
        }
    }
}

/// [`map_entries`] keeps keys distinct.
pub proof fn lemma_map_entries_distinct(
    s: Seq<(Seq<char>, IpEntry)>,
    f: spec_fn(IpEntry) -> Option<IpEntry>,
)
    requires
        distinct_keys(s),
    ensures
        distinct_keys(map_entries(s, f)),
    decreases s.len(),
{
    if s.len() > 0 {
        let r0 = map_entries(s.drop_last(), f);
        assert(distinct_keys(s.drop_last()));
        lemma_map_entries_distinct(s.drop_last(), f);
        lemma_map_entries_members(s.drop_last(), f);
        let r = map_entries(s, f);
        assert forall|a: int, b: int| 0 <= a < b < r.len() implies r[a].0 != r[b].0 by {
            if b < r0.len() {
                assert(r[a] == r0[a] && r[b] == r0[b]);
            } else {
                assert(r[a] == r0[a]);
                let j = choose|j: int|
                    0 <= j < s.drop_last().len() && s.drop_last()[j].0 == r0[a].0 && f(
                        s.drop_last()[j].1,
                    ) == Some(r0[a].1);
                assert(s[j].0 == r[a].0);
                assert(r[b].0 == s[s.len() - 1].0);
            }
        }
    }
}

/// Recording an event keeps keys distinct.
pub proof fn lemma_record_distinct(
    s: Seq<(Seq<char>, IpEntry)>,
    ip: Seq<char>,
    score: u32,
    cat: Category,
    now: i64,
)
    requires
        distinct_keys(s),
    ensures
        distinct_keys(record_entries(s, ip, score, cat, now)),
{
    lemma_key_pos(s, ip);
    let r = record_entries(s, ip, score, cat, now);
    let p = key_pos(s, ip);
    assert forall|a: int, b: int| 0 <= a < b < r.len() implies r[a].0 != r[b].0 by {
        if p < s.len() {
            assert(r[a].0 == s[a].0 && r[b].0 == s[b].0);
        } else if b == s.len() {
            assert(r[a] == s[a]);
        } else {
            assert(r[a] == s[a] && r[b] == s[b]);
        }
    }
}

/// How long an address that crossed the threshold stays banned: a week for
/// SSH brute force or honeypot contact, two days for web attacks, else a day.
pub open spec fn ban_timeout(e: IpEntry) -> u64 {
    if e.ssh_fails >= SSH_MAX_FAIL || e.honeypot_hits > 0 {
        (BAN_TIMEOUT_SECS * 7) as u64
    } else if e.web_attacks > 0 {
        (BAN_TIMEOUT_SECS * 2) as u64
    } else {
        BAN_TIMEOUT_SECS
    }
}

/// Whether the entry is currently under a ban.
pub open spec fn is_banned(e: IpEntry) -> bool {
    e.banned_until > 0
}

/// An unbanned entry at or over the threshold is banned now.
pub open spec fn due_for_ban(e: IpEntry) -> bool {
    !is_banned(e) && e.score >= BAN_THRESHOLD
}

/// Score decay for one entry: idle unbanned addresses lose points and are
/// forgotten once their score is spent.
pub open spec fn decay_step(e: IpEntry, now: i64) -> Option<IpEntry> {
    if is_banned(e) {
        Some(e)
    } else if now - e.last_fail > DECAY_INTERVAL_SECS {
        if e.score > DECAY_AMOUNT {
            Some(IpEntry { score: (e.score - DECAY_AMOUNT) as u32, ..e })
        } else {
            None
        }
    } else {
        Some(e)
    }
}

/// One entry through a ban round: expired bans are dropped, addresses over
/// the threshold are banned until `now` plus their timeout.
pub open spec fn ban_step(e: IpEntry, now: i64) -> Option<IpEntry> {
    if is_banned(e) {
        if now > e.banned_until {
            None
        } else {
            Some(e)
        }
    } else if e.score >= BAN_THRESHOLD {
        Some(IpEntry { banned_until: (now + ban_timeout(e)) as i64, ..e })
    } else {
        Some(e)
    }
}

/// The bans a ban round issues: address, duration, and the banned entry.
pub open spec fn ban_notices(s: Seq<(Seq<char>, IpEntry)>, now: i64) -> Seq<
    (Seq<char>, u64, IpEntry),
>
    decreases s.len(),
{
    if s.len() == 0 {
        Seq::empty()
    } else {
        let rest = ban_notices(s.drop_last(), now);
        let (k, e) = s.last();
        if due_for_ban(e) {
            rest.push((k, ban_timeout(e), ban_step(e, now).unwrap()))
        } else {
            rest
        }
    }
}

/// Entries kept when bans are re-applied at start-up: expired bans are dropped.
pub open spec fn reapply_step(e: IpEntry, now: i64) -> Option<IpEntry> {
    if e.banned_until > 0 && e.banned_until <= now {
        None
    } else {
        Some(e)
    }
}

/// The bans to re-install at start-up: address and remaining seconds.
pub open spec fn reapply_list(s: Seq<(Seq<char>, IpEntry)>, now: i64) -> Seq<(Seq<char>, u64)>
    decreases s.len(),
{
    if s.len() == 0 {
        Seq::empty()
    } else {
        let rest = reapply_list(s.drop_last(), now);
        let (k, e) = s.last();
        if e.banned_until > now {
            rest.push((k, (e.banned_until - now) as u64))
        } else {
            rest
        }
    }
}

/// The table after decay at `now`.
pub open spec fn decayed(s: Seq<(Seq<char>, IpEntry)>, now: i64) -> Seq<(Seq<char>, IpEntry)> {
    map_entries(s, |e: IpEntry| decay_step(e, now))
}

/// The table after a ban round at `now`.
pub open spec fn after_ban_round(s: Seq<(Seq<char>, IpEntry)>, now: i64) -> Seq<(Seq<char>, IpEntry)> {
    map_entries(s, |e: IpEntry| ban_step(e, now))
}

/// The table after re-applying bans at `now`.
pub open spec fn after_reapply(s: Seq<(Seq<char>, IpEntry)>, now: i64) -> Seq<(Seq<char>, IpEntry)> {
    map_entries(s, |e: IpEntry| reapply_step(e, now))
}

/// A ban issued by a ban round.
#[derive(Debug)]
pub struct BanNotice {
    pub ip: String,
    pub timeout_secs: u64,
    pub entry: IpEntry,
}

/// View of a list of ban notices.
pub open spec fn notices_view(v: Seq<BanNotice>) -> Seq<(Seq<char>, u64, IpEntry)> {
    v.map_values(|n: BanNotice| (n.ip@, n.timeout_secs, n.entry))
}

fn decay_one(e: IpEntry, now: i64) -> (r: Option<IpEntry>)
    ensures
        r == decay_step(e, now),
{
    if e.banned_until > 0 {
        Some(e)
    } else if (now as i128) - (e.last_fail as i128) > 300 {
        if e.score > 2 {
            Some(IpEntry { score: e.score - 2, ..e })
        } else {
            None
        }
    } else {
        Some(e)
    }
}

fn timeout_of(e: IpEntry) -> (r: u64)
    ensures
        r == ban_timeout(e),
{
    if e.ssh_fails >= 5 || e.honeypot_hits > 0 {
        604800
    } else if e.web_attacks > 0 {
        172800
    } else {
        86400
    }
}

/// The whole guard state, as persisted between runs.
#[derive(Debug)]
pub struct GuardState {
    pub ssh_offset: u64,
    pub web_offset: u64,
    pub ips: Vec<(String, IpEntry)>,
    pub file_hashes: Vec<(String, String)>,
    pub last_decay: i64,
    pub last_file_check: i64,
    pub total_bans: u64,
    pub total_attacks: u64,
    pub total_honeypot: u64,
    pub start_time: i64,
    pub last_ports: Vec<u16>,
}

impl GuardState {
    /// The address table as a sequence of (address, entry).
    pub open spec fn entries(&self) -> Seq<(Seq<char>, IpEntry)> {
        pairs_view(self.ips@)
    }

    /// The fields other than the address table and the three totals.
    pub open spec fn same_books(&self, other: &GuardState) -> bool {
        &&& self.ssh_offset == other.ssh_offset
        &&& self.web_offset == other.web_offset
        &&& self.file_hashes@ == other.file_hashes@
        &&& self.last_decay == other.last_decay
        &&& self.last_file_check == other.last_file_check
        &&& self.start_time == other.start_time
        &&& self.last_ports@ == other.last_ports@
    }

    /// A state with nothing recorded, started at `start_time`.
    pub fn new(start_time: i64) -> (r: GuardState)
        ensures
            r.entries().len() == 0,
            r.file_hashes@.len() == 0,
            r.last_ports@.len() == 0,
            r.ssh_offset == 0 && r.web_offset == 0,
            r.last_decay == 0 && r.last_file_check == 0,
            r.total_bans == 0 && r.total_attacks == 0 && r.total_honeypot == 0,
            r.start_time == start_time,
    {
        GuardState {
            ssh_offset: 0,
            web_offset: 0,
            ips: Vec::new(),
            file_hashes: Vec::new(),
            last_decay: 0,
            last_file_check: 0,
            total_bans: 0,
            total_attacks: 0,
            total_honeypot: 0,
            start_time,
            last_ports: Vec::new(),
        }
    }

    /// Recording `score` for `ip` under `cat` overflows no counter.
    pub open spec fn record_fits(&self, ip: Seq<char>, score: u32, cat: Category) -> bool {
        whitelisted(ip) || (bump_fits(entry_or_fresh(self.entries(), ip), score, cat) && (score
            > 0 ==> self.total_attacks < u64::MAX))
    }

    /// Whether [`GuardState::record`] may be called with these arguments.
    pub fn can_record(&self, ip: &str, score: u32, category: &str) -> (r: bool)
        ensures
            r == self.record_fits(ip@, score, category_spec(category@)),
    {
        if is_whitelisted(ip) {
            return true;
        }
        let cat = category_of(category);
        let p = find_key(&self.ips, ip);
        proof {
            lemma_key_pos(self.entries(), ip@);
        }
        let e = if p < self.ips.len() {
            self.ips[p].1
        } else {
            IpEntry::default()
        };
        let fits = e.score as u64 + score as u64 <= 4294967295
            && (cat != Category::Ssh || e.ssh_fails < 4294967295)
            && (cat != Category::WebAttack || e.web_attacks < 4294967295)
            && (!(cat == Category::WebScan || cat == Category::Flood) || e.web_scans < 4294967295)
            && (cat != Category::Honeypot || e.honeypot_hits < 4294967295);
        fits && (score == 0 || self.total_attacks < 18446744073709551615)
    }

    /// Adds `score` to `ip` for an event of `category` at `now`; whitelisted
    /// addresses are ignored.
    pub fn record(&mut self, ip: &str, score: u32, category: &str, now: i64)
        requires
            old(self).record_fits(ip@, score, category_spec(category@)),
        ensures
            whitelisted(ip@) ==> *final(self) == *old(self),
            !whitelisted(ip@) ==> final(self).entries() == record_entries(
                old(self).entries(),
                ip@,
                score,
                category_spec(category@),
                now,
            ),
            !whitelisted(ip@) ==> final(self).total_attacks == old(self).total_attacks + if score
                > 0 {
                1int
            } else {
                0int
            },
            final(self).same_books(old(self)),
            final(self).total_bans == old(self).total_bans,
            final(self).total_honeypot == old(self).total_honeypot,
    {
        if is_whitelisted(ip) {
            return ;
        }
        let cat = category_of(category);
        let p = find_key(&self.ips, ip);
        proof {
            lemma_key_pos(self.entries(), ip@);
        }
        if p < self.ips.len() {
            let e = self.ips[p].1;
            let ne = bump(e, score, cat, now);
            self.ips[p].1 = ne;
            assert(self.entries() =~= record_entries(
                old(self).entries(),
                ip@,
                score,
                cat,
                now,
            ));
        } else {
            let ne = bump(IpEntry::default(), score, cat, now);
            self.ips.push((ip.to_owned(), ne));
            assert(self.entries() =~= record_entries(
                old(self).entries(),
                ip@,
                score,
                cat,
                now,
            ));
        }
        if score > 0 {
            self.total_attacks = self.total_attacks + 1;
        }
    }

    /// Lets idle scores decay at `now`.
    pub fn decay(&mut self, now: i64)
        ensures
            final(self).entries() == decayed(old(self).entries(), now),
            final(self).same_books(old(self)),
            final(self).total_bans == old(self).total_bans,
            final(self).total_attacks == old(self).total_attacks,
            final(self).total_honeypot == old(self).total_honeypot,
    {
        let ghost f = |e: IpEntry| decay_step(e, now);
        let mut out: Vec<(String, IpEntry)> = Vec::new();
        let mut i: usize = 0;
        while i < self.ips.len()
            invariant
                i <= self.ips@.len(),
                self.ips@ == old(self).ips@,
                f == (|e: IpEntry| decay_step(e, now)),
                pairs_view(out@) == map_entries(self.entries().take(i as int), f),
            decreases self.ips.len() - i,
        {
            proof {
                lemma_map_entries_step(self.entries(), f, i as int);
            }
            let e = self.ips[i].1;
            assert(self.entries()[i as int] == (self.ips@[i as int].0@, e));
            assert(f(e) == f(self.entries()[i as int].1));
            match decay_one(e, now) {
                Some(ne) => {
                    let k = self.ips[i].0.clone();
                    out.push((k, ne));
                    assert(pairs_view(out@) =~= map_entries(self.entries().take(i + 1), f));
                },
                None => {
                    assert(pairs_view(out@) =~= map_entries(self.entries().take(i + 1), f));
                },
            }
            i += 1;
        }
        assert(self.entries().take(i as int) =~= self.entries());
        self.ips = out;
    }

    /// One ban round at `now`: drops expired bans, bans every address over the
    /// threshold, and returns the bans issued.
    pub fn process_bans(&mut self, now: i64) -> (notices: Vec<BanNotice>)
        requires
            now <= LATEST_NOW,
            old(self).total_bans + old(self).ips@.len() <= u64::MAX,
        ensures
            final(self).entries() == after_ban_round(old(self).entries(), now),
            notices_view(notices@) == ban_notices(old(self).entries(), now),
            final(self).total_bans == old(self).total_bans + notices@.len(),
            final(self).same_books(old(self)),
            final(self).total_attacks == old(self).total_attacks,
            final(self).total_honeypot == old(self).total_honeypot,
    {
        let ghost f = |e: IpEntry| ban_step(e, now);
        let mut out: Vec<(String, IpEntry)> = Vec::new();
        let mut notices: Vec<BanNotice> = Vec::new();
        let mut i: usize = 0;
        while i < self.ips.len()
            invariant
                i <= self.ips@.len(),
                now <= LATEST_NOW,
                self.ips@ == old(self).ips@,
                f == (|e: IpEntry| ban_step(e, now)),
                self.total_bans == old(self).total_bans + notices@.len(),
                old(self).total_bans + old(self).ips@.len() <= u64::MAX,
                notices@.len() <= i,
                self.same_books(old(self)),
                self.total_attacks == old(self).total_attacks,
                self.total_honeypot == old(self).total_honeypot,
                pairs_view(out@) == map_entries(self.entries().take(i as int), f),
                notices_view(notices@) == ban_notices(self.entries().take(i as int), now),
            decreases self.ips.len() - i,
        {
            proof {
                lemma_map_entries_step(self.entries(), f, i as int);
                assert(self.entries().take(i + 1).drop_last() =~= self.entries().take(i as int));
            }
            let e = self.ips[i].1;
            assert(self.entries()[i as int] == (self.ips@[i as int].0@, e));
            assert(f(e) == f(self.entries()[i as int].1));
            if e.banned_until > 0 {
                if now > e.banned_until {
                    assert(pairs_view(out@) =~= map_entries(self.entries().take(i + 1), f));
                } else {
                    let k = self.ips[i].0.clone();
                    out.push((k, e));
                    assert(pairs_view(out@) =~= map_entries(self.entries().take(i + 1), f));
                }
            } else if e.score >= 10 {
                let t = timeout_of(e);
                let ne = IpEntry { banned_until: now + t as i64, ..e };
                let k = self.ips[i].0.clone();
                let k2 = self.ips[i].0.clone();
                out.push((k, ne));
                notices.push(BanNotice { ip: k2, timeout_secs: t, entry: ne });
                self.total_bans = self.total_bans + 1;
                assert(pairs_view(out@) =~= map_entries(self.entries().take(i + 1), f));
                assert(notices_view(notices@) =~= ban_notices(self.entries().take(i + 1), now));
            } else {
                let k = self.ips[i].0.clone();
                out.push((k, e));
                assert(pairs_view(out@) =~= map_entries(self.entries().take(i + 1), f));
            }
            i += 1;
        }
        assert(self.entries().take(i as int) =~= self.entries());
        self.ips = out;
        notices
    }

    /// At start-up: lists the bans still running (with the seconds left) and
    /// drops expired ones; also returns how many were dropped.
    pub fn reapply_bans(&mut self, now: i64) -> (r: (Vec<(String, u64)>, u64))
        ensures
            final(self).entries() == after_reapply(old(self).entries(), now),
            pairs_view(r.0@) == reapply_list(old(self).entries(), now),
            r.1 == old(self).entries().len() - final(self).entries().len(),
            final(self).same_books(old(self)),
            final(self).total_bans == old(self).total_bans,
            final(self).total_attacks == old(self).total_attacks,
            final(self).total_honeypot == old(self).total_honeypot,
    {
        let ghost f = |e: IpEntry| reapply_step(e, now);
        let mut out: Vec<(String, IpEntry)> = Vec::new();
        let mut again: Vec<(String, u64)> = Vec::new();
        let mut expired: u64 = 0;
        let mut i: usize = 0;
        while i < self.ips.len()
            invariant
                i <= self.ips@.len(),
                self.ips@ == old(self).ips@,
                f == (|e: IpEntry| reapply_step(e, now)),
                pairs_view(out@) == map_entries(self.entries().take(i as int), f),
                pairs_view(again@) == reapply_list(self.entries().take(i as int), now),
                expired + out@.len() == i,
            decreases self.ips.len() - i,
        {
            proof {
                lemma_map_entries_step(self.entries(), f, i as int);
                assert(self.entries().take(i + 1).drop_last() =~= self.entries().take(i as int));
            }
            let e = self.ips[i].1;
            assert(self.entries()[i as int] == (self.ips@[i as int].0@, e));
            assert(f(e) == f(self.entries()[i as int].1));
            if e.banned_until > now {
                let k = self.ips[i].0.clone();
                again.push((k, (e.banned_until as i128 - now as i128) as u64));
                assert(pairs_view(again@) =~= reapply_list(self.entries().take(i + 1), now));
            } else {
                assert(pairs_view(again@) =~= reapply_list(self.entries().take(i + 1), now));
            }
            if e.banned_until > 0 && e.banned_until <= now {
                expired = expired + 1;
                assert(pairs_view(out@) =~= map_entries(self.entries().take(i + 1), f));
            } else {
                let k = self.ips[i].0.clone();
                out.push((k, e));
                assert(pairs_view(out@) =~= map_entries(self.entries().take(i + 1), f));
            }
            i += 1;
        }
        assert(self.entries().take(i as int) =~= self.entries());
        self.ips = out;
        (again, expired)
    }


    /// Makes sure `ip` has an entry, adding a fresh one if needed.
    pub fn ensure_entry(&mut self, ip: &str)
        ensures
            final(self).entries() == if has_key(old(self).entries(), ip@) {
                old(self).entries()
            } else {
                old(self).entries().push((ip@, fresh_entry()))
            },
            final(self).same_books(old(self)),
            final(self).total_bans == old(self).total_bans,
            final(self).total_attacks == old(self).total_attacks,
            final(self).total_honeypot == old(self).total_honeypot,
    {
        let p = find_key(&self.ips, ip);
        proof {
            lemma_key_pos(self.entries(), ip@);
        }
        if p == self.ips.len() {
            self.ips.push((ip.to_owned(), IpEntry::default()));
            assert(self.entries() =~= old(self).entries().push((ip@, fresh_entry())));
        }
    }

    /// A honeypot connection from `ip`: a heavy score and one more honeypot hit.
    pub fn record_honeypot(&mut self, ip: &str, now: i64)
        requires
            old(self).record_fits(ip@, HONEYPOT_SCORE, Category::Honeypot),
            old(self).total_honeypot < u64::MAX,
        ensures
            whitelisted(ip@) ==> final(self).entries() == old(self).entries(),
            !whitelisted(ip@) ==> final(self).entries() == record_entries(
                old(self).entries(),
                ip@,
                HONEYPOT_SCORE,
                Category::Honeypot,
                now,
            ),
            final(self).total_honeypot == old(self).total_honeypot + 1,
            !whitelisted(ip@) ==> final(self).total_attacks == old(self).total_attacks + 1,
            whitelisted(ip@) ==> final(self).total_attacks == old(self).total_attacks,
            final(self).same_books(old(self)),
            final(self).total_bans == old(self).total_bans,
    {
        proof {
            reveal_strlit("ssh");
            reveal_strlit("web_attack");
            reveal_strlit("web_scan");
            reveal_strlit("honeypot");
            reveal_strlit("flood");
            assert("honeypot"@[0] != "web_scan"@[0]);
        }
        self.record(ip, 100, "honeypot", now);
        self.total_honeypot = self.total_honeypot + 1;
    }

    /// A connection flood from `ip`: the address gets an entry, and unless it
    /// is already banned the flood is scored.
    pub fn record_flood(&mut self, ip: &str, now: i64)
        requires
            old(self).record_fits(ip@, FLOOD_SCORE, Category::Flood),
        ensures
            ({
                let s1 = if has_key(old(self).entries(), ip@) {
                    old(self).entries()
                } else {
                    old(self).entries().push((ip@, fresh_entry()))
                };
                final(self).entries() == if entry_or_fresh(old(self).entries(), ip@).banned_until
                    == 0 && !whitelisted(ip@) {
                    record_entries(s1, ip@, FLOOD_SCORE, Category::Flood, now)
                } else {
                    s1
                }
            }),
            final(self).same_books(old(self)),
            final(self).total_bans == old(self).total_bans,
            final(self).total_honeypot == old(self).total_honeypot,
    {
        let ghost s0 = self.entries();
        proof {
            lemma_key_pos(s0, ip@);
            reveal_strlit("ssh");
            reveal_strlit("web_attack");
            reveal_strlit("web_scan");
            reveal_strlit("honeypot");
            reveal_strlit("flood");
            assert("flood"@[0] != "web_scan"@[0]);
            assert("flood"@[0] != "honeypot"@[0]);
        }
        self.ensure_entry(ip);
        let p = find_key(&self.ips, ip);
        proof {
            lemma_key_pos(self.entries(), ip@);
            if has_key(s0, ip@) {
                assert(self.entries() == s0);
            } else {
                lemma_key_pos_is(self.entries(), ip@, s0.len() as int);
                assert(key_pos(s0, ip@) == s0.len());
            }
            assert(self.entries()[p as int].1 == entry_or_fresh(s0, ip@));
            assert(entry_or_fresh(self.entries(), ip@) == entry_or_fresh(s0, ip@));
            assert(key_pos(self.entries(), ip@) == p);
        }
        if self.ips[p].1.banned_until == 0 {
            self.record(ip, 5, "flood", now);
        }
    }

    /// Bans `ip` by hand for a day, at the threshold score.
    pub fn manual_ban(&mut self, ip: &str, now: i64)
        requires
            now <= LATEST_NOW,
            old(self).total_bans < u64::MAX,
        ensures
            ({
                let s = old(self).entries();
                let p = key_pos(s, ip@);
                let e = IpEntry {
                    banned_until: (now + BAN_TIMEOUT_SECS) as i64,
                    score: BAN_THRESHOLD,
                    ..entry_or_fresh(s, ip@)
                };
                final(self).entries() == if p < s.len() {
                    s.update(p, (ip@, e))
                } else {
                    s.push((ip@, e))
                }
            }),
            final(self).total_bans == old(self).total_bans + 1,
            final(self).same_books(old(self)),
            final(self).total_attacks == old(self).total_attacks,
            final(self).total_honeypot == old(self).total_honeypot,
    {
        let p = find_key(&self.ips, ip);
        proof {
            lemma_key_pos(self.entries(), ip@);
        }
        if p < self.ips.len() {
            let e = self.ips[p].1;
            self.ips[p].1 = IpEntry { banned_until: now + 86400, score: 10, ..e };
        } else {
            let e = IpEntry::default();
            self.ips.push((ip.to_owned(), IpEntry { banned_until: now + 86400, score: 10, ..e }));
        }
        proof {
            let s = old(self).entries();
            let e = IpEntry {
                banned_until: (now + BAN_TIMEOUT_SECS) as i64,
                score: BAN_THRESHOLD,
                ..entry_or_fresh(s, ip@)
            };
            if key_pos(s, ip@) < s.len() {
                assert(self.entries() =~= s.update(key_pos(s, ip@), (ip@, e)));
            } else {
                assert(self.entries() =~= s.push((ip@, e)));
            }
        }
        self.total_bans = self.total_bans + 1;
    }

    /// Forgets `ip` entirely.
    pub fn manual_unban(&mut self, ip: &str)
        ensures
            ({
                let s = old(self).entries();
                let p = key_pos(s, ip@);
                final(self).entries() == if p < s.len() {
                    s.remove(p)
                } else {
                    s
                }
            }),
            final(self).same_books(old(self)),
            final(self).total_bans == old(self).total_bans,
            final(self).total_attacks == old(self).total_attacks,
            final(self).total_honeypot == old(self).total_honeypot,
    {
        let p = find_key(&self.ips, ip);
        proof {
            lemma_key_pos(self.entries(), ip@);
        }
        if p < self.ips.len() {
            let _gone = self.ips.remove(p);
            assert(self.entries() =~= old(self).entries().remove(p as int));
        }
    }

}


/// Every operation on the address table keeps addresses distinct: recording
/// an event, decay, a ban round and re-applying bans.
pub proof fn law_addresses_stay_distinct(
    s: Seq<(Seq<char>, IpEntry)>,
    ip: Seq<char>,
    score: u32,
    cat: Category,
    now: i64,
)
    requires
        distinct_keys(s),
    ensures
        distinct_keys(record_entries(s, ip, score, cat, now)),
        distinct_keys(decayed(s, now)),
        distinct_keys(after_ban_round(s, now)),
        distinct_keys(after_reapply(s, now)),
{
    lemma_record_distinct(s, ip, score, cat, now);
    lemma_map_entries_distinct(s, |e: IpEntry| decay_step(e, now));
    lemma_map_entries_distinct(s, |e: IpEntry| ban_step(e, now));
    lemma_map_entries_distinct(s, |e: IpEntry| reapply_step(e, now));
}

/// Recording an event for a tracked or new address adds exactly its score
/// to that address and stamps the time of the event.
pub proof fn law_record_adds_score(
    s: Seq<(Seq<char>, IpEntry)>,
    ip: Seq<char>,
    score: u32,
    cat: Category,
    now: i64,
)
    requires
        bump_fits(entry_or_fresh(s, ip), score, cat),
    ensures
        entry_or_fresh(record_entries(s, ip, score, cat, now), ip).score == entry_or_fresh(s, ip).score
            + score,
        entry_or_fresh(record_entries(s, ip, score, cat, now), ip).last_fail == now,
        entry_or_fresh(record_entries(s, ip, score, cat, now), ip).banned_until == entry_or_fresh(
            s,
            ip,
        ).banned_until,
{
    lemma_key_pos(s, ip);
    let r = record_entries(s, ip, score, cat, now);
    let p = key_pos(s, ip);
    if p < s.len() {
        assert forall|j: int| 0 <= j < p implies r[j].0 != ip by {
            assert(r[j] == s[j]);
        }
        lemma_key_pos_is(r, ip, p);
    } else {
        assert forall|j: int| 0 <= j < s.len() implies r[j].0 != ip by {
            assert(r[j] == s[j]);
        }
        lemma_key_pos_is(r, ip, s.len() as int);
    }
}

/// After a ban round no address is left over the threshold without a ban,
/// and no expired ban is left in the table.
pub proof fn law_ban_round_settles(s: Seq<(Seq<char>, IpEntry)>, now: i64)
    requires
        0 <= now <= LATEST_NOW,
    ensures
        forall|i: int|
            0 <= i < after_ban_round(s, now).len() ==> {
                let e = #[trigger] after_ban_round(s, now)[i].1;
                &&& !due_for_ban(e)
                &&& !(is_banned(e) && now > e.banned_until)
            },
{
    let f = |e: IpEntry| ban_step(e, now);
    lemma_map_entries_members(s, f);
    assert forall|i: int| 0 <= i < map_entries(s, f).len() implies {
        let e = #[trigger] map_entries(s, f)[i].1;
        &&& !due_for_ban(e)
        &&& !(is_banned(e) && now > e.banned_until)
    } by {
        let r = map_entries(s, f);
        let j = choose|j: int| 0 <= j < s.len() && s[j].0 == r[i].0 && f(s[j].1) == Some(r[i].1);
        assert(ban_timeout(s[j].1) > 0);
    }
}

/// Decay never lifts or shortens a ban, never raises a score, and leaves
/// banned addresses untouched.
#[verifier::rlimit(40)]
pub proof fn law_decay_only_lowers(s: Seq<(Seq<char>, IpEntry)>, now: i64)
    ensures
        forall|i: int|
            0 <= i < decayed(s, now).len() ==> exists|j: int|
                0 <= j < s.len() && s[j].0 == (#[trigger] decayed(s, now)[i]).0 && decayed(s, now)[i].1.score
                    <= s[j].1.score && decayed(s, now)[i].1.banned_until
                    == s[j].1.banned_until,
        forall|j: int|
            0 <= j < s.len() && is_banned(#[trigger] s[j].1) ==> exists|i: int|
                0 <= i < decayed(s, now).len() && decayed(s, now)[i] == s[j],
{
    let f = |e: IpEntry| decay_step(e, now);
    let r = map_entries(s, f);
    assert(decayed(s, now) == r);
    lemma_map_entries_members(s, f);
    assert forall|i: int| 0 <= i < map_entries(s, f).len() implies exists|j: int|
        0 <= j < s.len() && s[j].0 == (#[trigger] map_entries(s, f)[i]).0 && map_entries(s, f)[i].1.score
            <= s[j].1.score && map_entries(s, f)[i].1.banned_until == s[j].1.banned_until by {
        let r = map_entries(s, f);
        let j = choose|j: int| 0 <= j < s.len() && s[j].0 == r[i].0 && f(s[j].1) == Some(r[i].1);
        assert(s[j].0 == r[i].0);
    }
    assert forall|j: int| 0 <= j < s.len() && is_banned(#[trigger] s[j].1) implies exists|i: int|
        0 <= i < map_entries(s, f).len() && map_entries(s, f)[i] == s[j] by {
        assert(f(s[j].1) is Some);
        let i = choose|i: int|
            0 <= i < map_entries(s, f).len() && map_entries(s, f)[i] == (s[j].0, f(s[j].1).unwrap());
        assert(map_entries(s, f)[i] == s[j]);
    }
}

/// After re-applying bans at start-up no expired ban is left.
pub proof fn law_reapply_clears_expired(s: Seq<(Seq<char>, IpEntry)>, now: i64)
    ensures
        forall|i: int|
            0 <= i < after_reapply(s, now).len() ==> !(0 < (
            #[trigger] after_reapply(s, now)[i]).1.banned_until <= now),
{
    let f = |e: IpEntry| reapply_step(e, now);
    lemma_map_entries_members(s, f);
    assert forall|i: int| 0 <= i < map_entries(s, f).len() implies !(0 < (
    #[trigger] map_entries(s, f)[i]).1.banned_until <= now) by {
        let r = map_entries(s, f);
        let j = choose|j: int| 0 <= j < s.len() && s[j].0 == r[i].0 && f(s[j].1) == Some(r[i].1);
    }
}

/// Every ban a ban round issues is for an unbanned address with a score of
/// at least 10, lasts a week when the address brute-forced SSH or touched
/// a honeypot, two days when it attacked the web server and a day
/// otherwise, and runs from `now`.
pub proof fn law_ban_durations(s: Seq<(Seq<char>, IpEntry)>, now: i64)
    requires
        0 <= now <= LATEST_NOW,
    ensures
        forall|i: int|
            0 <= i < ban_notices(s, now).len() ==> {
                let n = #[trigger] ban_notices(s, now)[i];
                &&& (n.2.ssh_fails >= 5 || n.2.honeypot_hits > 0 ==> n.1 == 604800)
                &&& (n.2.ssh_fails < 5 && n.2.honeypot_hits == 0 && n.2.web_attacks > 0 ==> n.1 == 172800)
                &&& (n.2.ssh_fails < 5 && n.2.honeypot_hits == 0 && n.2.web_attacks == 0 ==> n.1 == 86400)
                &&& n.2.banned_until == now + n.1
                &&& n.2.score >= 10
            },
    decreases s.len(),
{
    if s.len() > 0 {
        law_ban_durations(s.drop_last(), now);
        let rest = ban_notices(s.drop_last(), now);
        let e = s.last().1;
        if due_for_ban(e) {
            assert forall|i: int| 0 <= i < ban_notices(s, now).len() implies {
                let n = #[trigger] ban_notices(s, now)[i];
                &&& (n.2.ssh_fails >= 5 || n.2.honeypot_hits > 0 ==> n.1 == 604800)
                &&& (n.2.ssh_fails < 5 && n.2.honeypot_hits == 0 && n.2.web_attacks > 0 ==> n.1 == 172800)
                &&& (n.2.ssh_fails < 5 && n.2.honeypot_hits == 0 && n.2.web_attacks == 0 ==> n.1 == 86400)
                &&& n.2.banned_until == now + n.1
                &&& n.2.score >= 10
            } by {
                if i < rest.len() {
                    assert(ban_notices(s, now)[i] == rest[i]);
                }
            }
        }
    }
}

/// In a ban round an address that is due for a ban stays in the table,
/// banned from `now` for the length its threats call for (a week after any
/// honeypot contact), with everything else about it unchanged.
pub proof fn law_banned_entry_durations(now: i64)
    requires
        0 <= now <= LATEST_NOW,
    ensures
        forall|e: IpEntry|
            #![trigger ban_step(e, now)]
            due_for_ban(e) ==> {
                let b = ban_step(e, now).unwrap();
                &&& ban_step(e, now) is Some
                &&& b == IpEntry { banned_until: b.banned_until, ..e }
                &&& (e.ssh_fails >= 5 || e.honeypot_hits > 0 ==> b.banned_until == now + 604800)
                &&& (e.ssh_fails < 5 && e.honeypot_hits == 0 && e.web_attacks > 0 ==> b.banned_until == now
                    + 172800)
                &&& (e.ssh_fails < 5 && e.honeypot_hits == 0 && e.web_attacks == 0 ==> b.banned_until
                    == now + 86400)
            },
{
}

/// A ban round bans every address that is not under a ban and has a score
/// of at least 10: each gets a notice.
pub proof fn law_due_addresses_are_banned(s: Seq<(Seq<char>, IpEntry)>, now: i64)
    ensures
        forall|j: int|
            0 <= j < s.len() && (#[trigger] s[j]).1.banned_until <= 0 && s[j].1.score >= 10 ==> exists|i: int|
                0 <= i < ban_notices(s, now).len() && ban_notices(s, now)[i].0 == s[j].0,
    decreases s.len(),
{
    if s.len() > 0 {
        let p = s.drop_last();
        law_due_addresses_are_banned(p, now);
        let rest = ban_notices(p, now);
        assert forall|j: int|
            0 <= j < s.len() && (#[trigger] s[j]).1.banned_until <= 0 && s[j].1.score >= 10 implies exists|i: int|
                0 <= i < ban_notices(s, now).len() && ban_notices(s, now)[i].0 == s[j].0 by {
            if j < p.len() {
                assert(p[j] == s[j]);
                let i = choose|i: int| 0 <= i < rest.len() && rest[i].0 == p[j].0;
                assert(ban_notices(s, now)[i] == rest[i]);
            } else {
                assert(ban_notices(s, now)[rest.len() as int].0 == s[j].0);
            }
        }
    }
}

} // verus!
