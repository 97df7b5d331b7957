//! Reading the guard's inputs: SSH and web server log lines, socket
//! listings, firewall listings and the honeypot port setting.
//!
//! Where the daemon also requires a token to be a syntactically valid IP
//! address, that check is made by its caller; these functions return the
//! candidate addresses.

use vstd::prelude::*;
use crate::guard::{whitelisted, is_whitelisted, Category};
use crate::strs::{
    contains, contains_seq, occurs_at, find_char_from, first_char_from, from_chars, last_occurrence, lines,
    lines_of, parse_u16, parse_u16_spec, rfind, slice_chars, split_chars, split_on,
    split_whitespace, starts_with, strings_view, starts_with_seq, to_chars, to_lowercase, trim, trim_seq,
    trim_start, trim_start_seq, unicode_lowercase, words, lemma_split_on_nonempty,
};

verus! {

/// Substrings whose presence in a request path marks an attack.
pub open spec fn attack_patterns() -> Seq<Seq<char>> {
    seq![
        "union select"@, "or 1=1"@, "' or "@, "\" or "@, "; drop "@, "information_schema"@,
        "sleep("@, "benchmark("@, "<script"@, "javascript:"@, "onerror="@, "onload="@,
        "alert("@, "document.cookie"@, "../"@, "..%2f"@, "..%5c"@, "/etc/passwd"@,
        "/proc/self"@, "/etc/shadow"@, ".env"@, ".git/"@, ".git/config"@, "wp-admin"@,
        "wp-login"@, "phpmyadmin"@, "wp-config"@, ".ds_store"@, "backup.sql"@, ".htaccess"@,
        "/debug"@, "/console"@, "/actuator"@, "/phpinfo"@, "/server-status"@, "/.svn"@,
        "/.hg"@, ";ls"@, ";cat "@, ";id"@, ";whoami"@, ";uname"@, "%0d%0a"@, "$("@, "`id`"@,
        "eval("@, "base64_decode"@, "file_get_contents"@, "/bin/sh"@, "/bin/bash"@,
        "/usr/bin/"@, "cmd.exe"@, "powershell"@, "config.json"@, "docker.env"@, ".env.dev"@,
        ".env.backup"@, ".env.old"@, ".env.bak"@, ".env.local"@, ".env.production"@,
    ]
}

fn attack_pattern_list() -> (r: Vec<&'static str>)
    ensures
        r@.map_values(|p: &str| p@) == attack_patterns(),
{
    let v = vec![
        "union select", "or 1=1", "' or ", "\" or ", "; drop ", "information_schema",
        "sleep(", "benchmark(", "<script", "javascript:", "onerror=", "onload=",
        "alert(", "document.cookie", "../", "..%2f", "..%5c", "/etc/passwd",
        "/proc/self", "/etc/shadow", ".env", ".git/", ".git/config", "wp-admin",
        "wp-login", "phpmyadmin", "wp-config", ".ds_store", "backup.sql", ".htaccess",
        "/debug", "/console", "/actuator", "/phpinfo", "/server-status", "/.svn",
        "/.hg", ";ls", ";cat ", ";id", ";whoami", ";uname", "%0d%0a", "$(", "`id`",
        "eval(", "base64_decode", "file_get_contents", "/bin/sh", "/bin/bash",
        "/usr/bin/", "cmd.exe", "powershell", "config.json", "docker.env", ".env.dev",
        ".env.backup", ".env.old", ".env.bak", ".env.local", ".env.production",
    ];
    assert(v@.map_values(|p: &str| p@) =~= attack_patterns());
    v
}

/// A request path is an attack when its lowercase form contains an attack pattern.
pub open spec fn attack_request(path: Seq<char>) -> bool {
    exists|i: int|
        0 <= i < attack_patterns().len() && contains_seq(
            unicode_lowercase(path),
            #[trigger] attack_patterns()[i],
        )
}

/// Whether a request path looks like an attack.
pub fn is_attack_request(path: &str) -> (r: bool)
    ensures
        r == attack_request(path@),
{
    let lower = to_lowercase(path);
    let lc = to_chars(lower.as_str());
    let pats = attack_pattern_list();
    let mut i: usize = 0;
    while i < pats.len()
        invariant
            i <= pats@.len(),
            pats@.map_values(|p: &str| p@) == attack_patterns(),
            lc@ == unicode_lowercase(path@),
            forall|j: int| 0 <= j < i ==> !contains_seq(lc@, #[trigger] attack_patterns()[j]),
        decreases pats.len() - i,
    {
        let pc = to_chars(pats[i]);
        assert(pc@ == attack_patterns()[i as int]);
        if contains(&lc, &pc) {
            return true;
        }
        i += 1;
    }
    false
}

/// How a web request counts: as an attack, as a scan (a 403 or 404), or not at all.
pub open spec fn web_event_spec(path: Seq<char>, status: u16) -> Option<(u32, Category)> {
    if attack_request(path) {
        Some((5u32, Category::WebAttack))
    } else if status == 404 || status == 403 {
        Some((1u32, Category::WebScan))
    } else {
        None
    }
}

/// The score and category a web request is recorded with, if any.
pub fn web_event(path: &str, status: u16) -> (r: Option<(u32, Category)>)
    ensures
        r == web_event_spec(path@, status),
{
    if is_attack_request(path) {
        Some((5, Category::WebAttack))
    } else if status == 404 || status == 403 {
        Some((1, Category::WebScan))
    } else {
        None
    }
}

/// A line of the SSH log reports a failed login.
pub open spec fn ssh_failure_line(line: Seq<char>) -> bool {
    ||| contains_seq(line, "Failed password"@)
    ||| contains_seq(line, "Invalid user"@)
    ||| contains_seq(line, "authentication failure"@)
}

/// The source address of a failed SSH login: the word after the last
/// `" from "`, unless whitelisted.
pub open spec fn ssh_source(line: Seq<char>) -> Option<Seq<char>> {
    if !ssh_failure_line(line) {
        None
    } else {
        match last_occurrence(line, " from "@) {
            None => None,
            Some(p) => {
                let rest = line.subrange(p + " from "@.len(), line.len() as int);
                let ip = rest.subrange(0, first_char_from(rest, ' ', 0));
                if whitelisted(ip) {
                    None
                } else {
                    Some(ip)
                }
            },
        }
    }
}

/// The address a failed SSH login came from, if the line reports one.
pub fn ssh_failure_source(line: &str) -> (r: Option<String>)
    ensures
        r matches Some(ip) ==> ssh_source(line@) == Some(ip@),
        r is None ==> ssh_source(line@) is None,
{
    let lc = to_chars(line);
    let m1 = to_chars("Failed password");
    let m2 = to_chars("Invalid user");
    let m3 = to_chars("authentication failure");
    if !contains(&lc, &m1) && !contains(&lc, &m2) && !contains(&lc, &m3) {
        return None;
    }
    let from = to_chars(" from ");
    let p = match rfind(&lc, &from) {
        Some(p) => p,
        None => {
            return None;
        },
    };
    assert(occurs_at(lc@, from@, p as int));
    assert(p + from@.len() <= lc@.len());
    assert(lc@.len() == lc.len());
    assert(from@.len() == from.len());
    let rest = slice_chars(&lc, p + from.len(), lc.len());
    proof {
        lemma_first_char_from_bound(rest@, ' ', 0);
    }
    let end = find_char_from(&rest, ' ', 0);
    let ip = slice_chars(&rest, 0, end);
    let s = from_chars(&ip);
    if is_whitelisted(s.as_str()) {
        None
    } else {
        Some(s)
    }
}

/// The fields of an access-log line: first word, request path, status.
pub open spec fn nginx_fields(line: Seq<char>) -> Option<(Seq<char>, Seq<char>, u16)> {
    let ip = split_on(line, ' ')[0];
    let q1 = first_char_from(line, '"', 0);
    if q1 >= line.len() {
        None
    } else {
        let rest = line.subrange(q1 + 1, line.len() as int);
        let q2 = first_char_from(rest, '"', 0);
        if q2 >= rest.len() {
            None
        } else {
            let request = rest.subrange(0, q2);
            let after = rest.subrange(q2 + 1, rest.len() as int);
            match parse_u16_spec(split_on(trim_start_seq(after), ' ')[0]) {
                None => None,
                Some(status) => {
                    let parts = split_on(request, ' ');
                    let path = if parts.len() >= 2 {
                        parts[1]
                    } else {
                        request
                    };
                    Some((ip, path, status))
                },
            }
        }
    }
}

proof fn lemma_first_char_from_bound(s: Seq<char>, c: char, from: int)
    requires
        0 <= from <= s.len(),
    ensures
        from <= first_char_from(s, c, from) <= s.len(),
        first_char_from(s, c, from) < s.len() ==> s[first_char_from(s, c, from)] == c,
    decreases s.len() - from,
{
    if from < s.len() && s[from] != c {
        lemma_first_char_from_bound(s, c, from + 1);
    }
}

/// Splits an access-log line into client, request path and status code.
pub fn split_nginx_line(line: &str) -> (r: Option<(String, String, u16)>)
    ensures
        r matches Some(t) ==> nginx_fields(line@) == Some((t.0@, t.1@, t.2)),
        r is None ==> nginx_fields(line@) is None,
{
    let lc = to_chars(line);
    let pieces = split_chars(&lc, ' ');
    proof {
        lemma_split_on_nonempty(lc@, ' ');
        lemma_first_char_from_bound(lc@, '"', 0);
    }
    let q1 = find_char_from(&lc, '"', 0);
    if q1 >= lc.len() {
        return None;
    }
    let rest = slice_chars(&lc, q1 + 1, lc.len());
    proof {
        lemma_first_char_from_bound(rest@, '"', 0);
    }
    let q2 = find_char_from(&rest, '"', 0);
    if q2 >= rest.len() {
        return None;
    }
    let request = slice_chars(&rest, 0, q2);
    let after = slice_chars(&rest, q2 + 1, rest.len());
    let after_t = trim_start(&after);
    let after_pieces = split_chars(&after_t, ' ');
    proof {
        lemma_split_on_nonempty(after_t@, ' ');
    }
    assert(after_pieces@[0]@ == split_on(after_t@, ' ')[0]);
    let status = match parse_u16(&after_pieces[0]) {
        Some(s) => s,
        None => {
            return None;
        },
    };
    let parts = split_chars(&request, ' ');
    let path = if parts.len() >= 2 {
        assert(parts@[1]@ == split_on(request@, ' ')[1]);
        from_chars(&parts[1])
    } else {
        from_chars(&request)
    };
    assert(pieces@[0]@ == split_on(lc@, ' ')[0]);
    let ip = from_chars(&pieces[0]);
    Some((ip, path, status))
}


/// Keeps the `Some` results of `f` over `s`, in order.
pub open spec fn collect_some<T>(s: Seq<Seq<char>>, f: spec_fn(Seq<char>) -> Option<T>) -> Seq<T>
    decreases s.len(),
{
    if s.len() == 0 {
        Seq::empty()
    } else {
        let rest = collect_some(s.drop_last(), f);
        match f(s.last()) {
            Some(x) => rest.push(x),
            None => rest,
        }
    }
}

/// Concatenates the results of `f` over `s`.
pub open spec fn collect_all<T>(s: Seq<Seq<char>>, f: spec_fn(Seq<char>) -> Seq<T>) -> Seq<T>
    decreases s.len(),
{
    if s.len() == 0 {
        Seq::empty()
    } else {
        collect_all(s.drop_last(), f) + f(s.last())
    }
}

proof fn lemma_take_last<T>(s: Seq<T>, i: int)
    requires
        0 <= i < s.len(),
    ensures
        s.take(i + 1).drop_last() == s.take(i),
        s.take(i + 1).last() == s[i],
{
    assert(s.take(i + 1).drop_last() =~= s.take(i));
}

/// All lines but the first (a header), or none.
pub open spec fn body_lines(output: Seq<char>) -> Seq<Seq<char>> {
    let ls = lines_of(output);
    if ls.len() == 0 {
        ls
    } else {
        ls.drop_first()
    }
}

/// Ports that are always expected to listen: SSH, HTTP, HTTPS and the API.
pub open spec fn expected_port(p: u16) -> bool {
    p == 22 || p == 80 || p == 443 || p == 9111
}

/// An unexpected port reported by one line of a socket listing: the fifth
/// space-separated field is the local address, its part after the last `':'`
/// the port.
pub open spec fn port_alert(line: Seq<char>, honeypot: Seq<u16>) -> Option<u16> {
    let parts = split_on(line, ' ');
    if parts.len() < 5 {
        None
    } else {
        let local = parts[4];
        match parse_u16_spec(split_on(local, ':').last()) {
            None => None,
            Some(port) => if expected_port(port) || honeypot.contains(port) || starts_with_seq(
                local,
                "127.0.0.1"@,
            ) || starts_with_seq(local, "[::1]"@) {
                None
            } else {
                Some(port)
            },
        }
    }
}

/// Unexpected listening ports in a socket listing (header line skipped).
pub open spec fn unexpected_ports_spec(output: Seq<char>, honeypot: Seq<u16>) -> Seq<u16> {
    collect_some(body_lines(output), |l: Seq<char>| port_alert(l, honeypot))
}

fn port_alert_exec(line: &[char], honeypot: &[u16]) -> (r: Option<u16>)
    ensures
        r == port_alert(line@, honeypot@),
{
    let parts = split_chars(line, ' ');
    if parts.len() < 5 {
        return None;
    }
    let local = &parts[4];
    assert(local@ == split_on(line@, ' ')[4]);
    let lp = split_chars(local, ':');
    proof {
        lemma_split_on_nonempty(local@, ':');
    }
    let last = &lp[lp.len() - 1];
    assert(last@ == split_on(local@, ':').last());
    let port = match parse_u16(last) {
        Some(p) => p,
        None => {
            return None;
        },
    };
    let mut in_hp = false;
    let mut k: usize = 0;
    while k < honeypot.len()
        invariant
            k <= honeypot@.len(),
            in_hp == exists|j: int| 0 <= j < k && honeypot@[j] == port,
        decreases honeypot.len() - k,
    {
        if honeypot[k] == port {
            in_hp = true;
        }
        k += 1;
    }
    assert(in_hp == honeypot@.contains(port));
    let l127 = to_chars("127.0.0.1");
    let l6 = to_chars("[::1]");
    if port == 22 || port == 80 || port == 443 || port == 9111 || in_hp || starts_with(local, &l127)
        || starts_with(local, &l6) {
        None
    } else {
        Some(port)
    }
}

/// Ports listening on a public address that are neither expected nor
/// honeypots, from the output of a socket listing.
pub fn unexpected_ports(output: &str, honeypot: &[u16]) -> (r: Vec<u16>)
    ensures
        r@ == unexpected_ports_spec(output@, honeypot@),
{
    let oc = to_chars(output);
    let ls = lines(&oc);
    let mut r: Vec<u16> = Vec::new();
    if ls.len() == 0 {
        return r;
    }
    let ghost body = body_lines(output@);
    let ghost f = |l: Seq<char>| port_alert(l, honeypot@);
    assert(body =~= ls@.map_values(|v: Vec<char>| v@).drop_first());
    let mut i: usize = 1;
    while i < ls.len()
        invariant
            1 <= i <= ls@.len(),
            body.len() == ls@.len() - 1,
            forall|j: int| 0 <= j < body.len() ==> body[j] == #[trigger] ls@[j + 1]@,
            f == (|l: Seq<char>| port_alert(l, honeypot@)),
            r@ == collect_some(body.take(i - 1), f),
        decreases ls.len() - i,
    {
        proof {
            lemma_take_last(body, i - 1);
        }
        assert(body[i - 1] == ls@[i as int]@);
        match port_alert_exec(&ls[i], honeypot) {
            Some(p) => {
                r.push(p);
            },
            None => {},
        }
        i += 1;
    }
    assert(body.take(body.len() as int) =~= body);
    r
}

/// The remote host of one line of a connection listing: the fifth word is
/// the peer, its part before the last `':'` the host; whitelisted hosts are
/// skipped.
pub open spec fn peer_host(line: Seq<char>) -> Option<Seq<char>> {
    let parts = words(line);
    if parts.len() < 5 {
        None
    } else {
        match last_occurrence(parts[4], seq![':']) {
            None => None,
            Some(c) => {
                let ip = parts[4].subrange(0, c);
                if whitelisted(ip) {
                    None
                } else {
                    Some(ip)
                }
            },
        }
    }
}

/// Remote hosts of all connections in a listing (header line skipped).
pub open spec fn peer_hosts_spec(output: Seq<char>) -> Seq<Seq<char>> {
    collect_some(body_lines(output), |l: Seq<char>| peer_host(l))
}

fn peer_host_exec(line: &[char]) -> (r: Option<String>)
    ensures
        r matches Some(h) ==> peer_host(line@) == Some(h@),
        r is None ==> peer_host(line@) is None,
{
    let parts = split_whitespace(line);
    if parts.len() < 5 {
        return None;
    }
    let peer = &parts[4];
    assert(peer@ == words(line@)[4]);
    let mut colon: Vec<char> = Vec::new();
    colon.push(':');
    assert(colon@ =~= seq![':']);
    match rfind(peer, &colon) {
        None => None,
        Some(c) => {
            assert(occurs_at(peer@, colon@, c as int));
            let ip = slice_chars(peer, 0, c);
            let s = from_chars(&ip);
            if is_whitelisted(s.as_str()) {
                None
            } else {
                Some(s)
            }
        },
    }
}

/// The remote host of every connection in a connection listing.
pub fn peer_hosts(output: &str) -> (r: Vec<String>)
    ensures
        r@.map_values(|s: String| s@) == peer_hosts_spec(output@),
{
    let oc = to_chars(output);
    let ls = lines(&oc);
    let mut r: Vec<String> = Vec::new();
    if ls.len() == 0 {
        assert(r@.map_values(|s: String| s@) =~= peer_hosts_spec(output@));
        return r;
    }
    let ghost body = body_lines(output@);
    let ghost f = |l: Seq<char>| peer_host(l);
    assert(body =~= ls@.map_values(|v: Vec<char>| v@).drop_first());
    let mut i: usize = 1;
    while i < ls.len()
        invariant
            1 <= i <= ls@.len(),
            body.len() == ls@.len() - 1,
            forall|j: int| 0 <= j < body.len() ==> body[j] == #[trigger] ls@[j + 1]@,
            f == (|l: Seq<char>| peer_host(l)),
            r@.map_values(|s: String| s@) == collect_some(body.take(i - 1), f),
        decreases ls.len() - i,
    {
        proof {
            lemma_take_last(body, i - 1);
        }
        assert(body[i - 1] == ls@[i as int]@);
        match peer_host_exec(&ls[i]) {
            Some(h) => {
                r.push(h);
                assert(r@.map_values(|s: String| s@) =~= collect_some(body.take(i as int), f));
            },
            None => {},
        }
        i += 1;
    }
    assert(body.take(body.len() as int) =~= body);
    r
}

/// How many times `h` occurs in `s`.
pub open spec fn count_of(s: Seq<Seq<char>>, h: Seq<char>) -> nat
    decreases s.len(),
{
    if s.len() == 0 {
        0
    } else {
        count_of(s.drop_last(), h) + if s.last() == h {
            1nat
        } else {
            0nat
        }
    }
}

proof fn lemma_count_of_bound(s: Seq<Seq<char>>, h: Seq<char>)
    ensures
        count_of(s, h) <= s.len(),
        count_of(s, h) > 0 ==> s.contains(h),
    decreases s.len(),
{
    if s.len() > 0 {
        lemma_count_of_bound(s.drop_last(), h);
        if count_of(s.drop_last(), h) > 0 {
            let i = choose|i: int| 0 <= i < s.drop_last().len() && s.drop_last()[i] == h;
            assert(s[i] == h);
        }
    }
}

/// Hosts with more than `threshold` connections, each with its count; each
/// host once, in the order of first appearance.
pub fn count_floods(hosts: &Vec<String>, threshold: usize) -> (r: Vec<(String, usize)>)
    ensures
        crate::guard::distinct_keys(crate::guard::pairs_view(r@)),
        forall|i: int|
            0 <= i < r@.len() ==> {
                &&& (#[trigger] r@[i]).1 == count_of(hosts@.map_values(|s: String| s@), r@[i].0@)
                &&& r@[i].1 > threshold
            },
        forall|h: Seq<char>|
            count_of(hosts@.map_values(|s: String| s@), h) > threshold ==> crate::guard::has_key(
                crate::guard::pairs_view(r@),
                h,
            ),
{
    let ghost hs = hosts@.map_values(|s: String| s@);
    let mut counts: Vec<(String, usize)> = Vec::new();
    let mut i: usize = 0;
    while i < hosts.len()
        invariant
            i <= hosts@.len(),
            hs == hosts@.map_values(|s: String| s@),
            crate::guard::distinct_keys(crate::guard::pairs_view(counts@)),
            forall|j: int|
                0 <= j < counts@.len() ==> (#[trigger] counts@[j]).1 == count_of(
                    hs.take(i as int),
                    counts@[j].0@,
                ),
            forall|h: Seq<char>|
                count_of(hs.take(i as int), h) > 0 ==> crate::guard::has_key(
                    crate::guard::pairs_view(counts@),
                    h,
                ),
        decreases hosts.len() - i,
    {
        let ghost pre = hs.take(i as int);
        let ghost post = hs.take(i + 1);
        proof {
            lemma_take_last(hs, i as int);
        }
        let h = hosts[i].as_str();
        assert(hs[i as int] == h@);
        let ghost old_counts = counts@;
        let p = crate::guard::find_key(&counts, h);
        proof {
            crate::guard::lemma_key_pos(crate::guard::pairs_view(counts@), h@);
            lemma_count_of_bound(pre, h@);
        }
        if p < counts.len() {
            let c = counts[p].1;
            assert(c == count_of(pre, h@));
            assert(c <= i);
            counts[p].1 = c + 1;
            assert forall|j: int| 0 <= j < counts@.len() implies (#[trigger] counts@[j]).0 == old_counts[j].0 by {
                if j == p {
                } else {
                    assert(counts@[j] == old_counts[j]);
                }
            }
            assert forall|a: int, b: int|
                0 <= a < b < counts@.len() implies crate::guard::pairs_view(counts@)[a].0
                != crate::guard::pairs_view(counts@)[b].0 by {
                assert(crate::guard::pairs_view(counts@)[a].0 == crate::guard::pairs_view(old_counts)[a].0);
                assert(crate::guard::pairs_view(counts@)[b].0 == crate::guard::pairs_view(old_counts)[b].0);
            }
            assert forall|hh: Seq<char>| count_of(post, hh) > 0 implies crate::guard::has_key(
                crate::guard::pairs_view(counts@),
                hh,
            ) by {
                if hh != h@ {
                    assert(count_of(pre, hh) > 0);
                    assert(crate::guard::has_key(crate::guard::pairs_view(old_counts), hh));
                    let j = choose|j: int|
                        0 <= j < crate::guard::pairs_view(old_counts).len()
                            && crate::guard::pairs_view(old_counts)[j].0 == hh;
                    assert(counts@[j].0 == old_counts[j].0);
                    assert(crate::guard::pairs_view(counts@)[j].0 == hh);
                } else {
                    assert(counts@[p as int].0 == old_counts[p as int].0);
                    assert(crate::guard::pairs_view(counts@)[p as int].0 == hh);
                }
            }
        } else {
            counts.push((hosts[i].clone(), 1));
            assert(count_of(pre, h@) == 0) by {
                if count_of(pre, h@) > 0 {
                    assert(crate::guard::has_key(crate::guard::pairs_view(old_counts), h@));
                }
            }
            assert forall|a: int, b: int|
                0 <= a < b < counts@.len() implies crate::guard::pairs_view(counts@)[a].0
                != crate::guard::pairs_view(counts@)[b].0 by {
                assert(crate::guard::pairs_view(counts@)[a].0 == crate::guard::pairs_view(old_counts)[a].0);
                if b < old_counts.len() {
                    assert(crate::guard::pairs_view(counts@)[b].0 == crate::guard::pairs_view(old_counts)[b].0);
                }
            }
            assert forall|hh: Seq<char>| count_of(post, hh) > 0 implies crate::guard::has_key(
                crate::guard::pairs_view(counts@),
                hh,
            ) by {
                if hh != h@ {
                    assert(count_of(pre, hh) > 0);
                    assert(crate::guard::has_key(crate::guard::pairs_view(old_counts), hh));
                    let j = choose|j: int|
                        0 <= j < crate::guard::pairs_view(old_counts).len()
                            && crate::guard::pairs_view(old_counts)[j].0 == hh;
                    assert(counts@[j] == old_counts[j]);
                    assert(crate::guard::pairs_view(counts@)[j].0 == hh);
                } else {
                    assert(crate::guard::pairs_view(counts@)[old_counts.len() as int].0 == hh);
                }
            }
        }
        assert forall|j: int| 0 <= j < counts@.len() implies (#[trigger] counts@[j]).1 == count_of(
            post,
            counts@[j].0@,
        ) by {
            if j < old_counts.len() && j != p {
                assert(counts@[j] == old_counts[j]);
                assert(counts@[j].0@ != h@) by {
                    if j < p {
                        assert(crate::guard::pairs_view(old_counts)[j].0 != h@);
                    } else {
                        assert(crate::guard::pairs_view(old_counts)[p as int].0 == h@);
                        assert(crate::guard::pairs_view(old_counts)[j].0 != crate::guard::pairs_view(old_counts)[p as int].0);
                    }
                }
            }
        }
        i += 1;
    }
    assert(hs.take(hosts@.len() as int) =~= hs);
    let mut r: Vec<(String, usize)> = Vec::new();
    let mut k: usize = 0;
    let ghost mut src: Seq<int> = Seq::empty();
    while k < counts.len()
        invariant
            k <= counts@.len(),
            hs == hosts@.map_values(|s: String| s@),
            crate::guard::distinct_keys(crate::guard::pairs_view(counts@)),
            forall|j: int|
                0 <= j < counts@.len() ==> (#[trigger] counts@[j]).1 == count_of(hs, counts@[j].0@),
            forall|h: Seq<char>|
                count_of(hs, h) > 0 ==> crate::guard::has_key(crate::guard::pairs_view(counts@), h),
            src.len() == r@.len(),
            forall|a: int| 0 <= a < src.len() ==> 0 <= #[trigger] src[a] < k,
            forall|a: int, b: int| 0 <= a < b < src.len() ==> #[trigger] src[a] < #[trigger] src[b],
            forall|a: int|
                0 <= a < r@.len() ==> (#[trigger] r@[a]).0@ == counts@[src[a]].0@ && r@[a].1
                    == counts@[src[a]].1,
            forall|a: int| 0 <= a < r@.len() ==> (#[trigger] r@[a]).1 > threshold,
            forall|b: int|
                0 <= b < k && (#[trigger] counts@[b]).1 > threshold ==> crate::guard::has_key(
                    crate::guard::pairs_view(r@),
                    counts@[b].0@,
                ),
        decreases counts.len() - k,
    {
        if counts[k].1 > threshold {
            let ghost old_r = r@;
            r.push((counts[k].0.clone(), counts[k].1));
            proof {
                src = src.push(k as int);
            }
            assert forall|b: int|
                0 <= b < k + 1 && (#[trigger] counts@[b]).1 > threshold implies crate::guard::has_key(
                crate::guard::pairs_view(r@),
                counts@[b].0@,
            ) by {
                if b < k {
                    let j = choose|j: int|
                        0 <= j < crate::guard::pairs_view(old_r).len()
                            && crate::guard::pairs_view(old_r)[j].0 == counts@[b].0@;
                    assert(crate::guard::pairs_view(r@)[j].0 == counts@[b].0@);
                } else {
                    assert(crate::guard::pairs_view(r@)[old_r.len() as int].0 == counts@[b].0@);
                }
            }
            assert forall|a: int|
                0 <= a < r@.len() implies (#[trigger] r@[a]).0@ == counts@[src[a]].0@ && r@[a].1
                == counts@[src[a]].1 by {
                if a < old_r.len() {
                    assert(r@[a] == old_r[a]);
                }
            }
        }
        k += 1;
    }
    assert forall|a: int, b: int| 0 <= a < b < r@.len() implies crate::guard::pairs_view(r@)[a].0
        != crate::guard::pairs_view(r@)[b].0 by {
        assert(r@[a].0@ == counts@[src[a]].0@);
        assert(r@[b].0@ == counts@[src[b]].0@);
        assert(src[a] < src[b]);
        assert(crate::guard::pairs_view(counts@)[src[a]].0 != crate::guard::pairs_view(counts@)[src[b]].0);
    }
    assert forall|i: int| 0 <= i < r@.len() implies {
        &&& (#[trigger] r@[i]).1 == count_of(hosts@.map_values(|s: String| s@), r@[i].0@)
        &&& r@[i].1 > threshold
    } by {
        assert(counts@[src[i]].1 == count_of(hs, counts@[src[i]].0@));
    }
    assert forall|h: Seq<char>| count_of(hosts@.map_values(|s: String| s@), h) > threshold implies crate::guard::has_key(
        crate::guard::pairs_view(r@),
        h,
    ) by {
        assert(crate::guard::has_key(crate::guard::pairs_view(counts@), h));
        let b = choose|b: int| 0 <= b < crate::guard::pairs_view(counts@).len() && crate::guard::pairs_view(counts@)[b].0 == h;
        assert(counts@[b].1 > threshold);
    }
    r
}


/// The honeypot ports named by a comma-separated setting; pieces that are
/// not port numbers (after trimming) are skipped.
pub open spec fn honeypot_ports_spec(setting: Seq<char>) -> Seq<u16> {
    collect_some(split_on(setting, ','), |p: Seq<char>| parse_u16_spec(trim_seq(p)))
}

/// Reads the honeypot port list from its setting.
pub fn honeypot_ports(setting: &str) -> (r: Vec<u16>)
    ensures
        r@ == honeypot_ports_spec(setting@),
{
    let sc = to_chars(setting);
    let pieces = split_chars(&sc, ',');
    let ghost ps = split_on(setting@, ',');
    let ghost f = |p: Seq<char>| parse_u16_spec(trim_seq(p));
    let mut r: Vec<u16> = Vec::new();
    let mut i: usize = 0;
    while i < pieces.len()
        invariant
            i <= pieces@.len(),
            pieces@.map_values(|v: Vec<char>| v@) == ps,
            f == (|p: Seq<char>| parse_u16_spec(trim_seq(p))),
            r@ == collect_some(ps.take(i as int), f),
        decreases pieces.len() - i,
    {
        proof {
            lemma_take_last(ps, i as int);
        }
        assert(ps[i as int] == pieces@[i as int]@);
        let t = trim(&pieces[i]);
        match parse_u16(&t) {
            Some(p) => {
                r.push(p);
            },
            None => {},
        }
        i += 1;
    }
    assert(ps.take(ps.len() as int) =~= ps);
    r
}

/// A rule of the older firewall front-end that dropped one source address.
pub open spec fn legacy_drop_rule(line: Seq<char>) -> Option<Seq<char>> {
    let t = trim_seq(line);
    if contains_seq(t, "rule family=\"ipv4\" source address=\""@) && crate::strs::ends_with_seq(
        t,
        "\" drop"@,
    ) {
        Some(t)
    } else {
        None
    }
}

/// The digest that a checksum listing reports: its first word, if any.
pub open spec fn digest_field(output: Seq<char>) -> Option<Seq<char>> {
    let ws = words(output);
    if ws.len() == 0 {
        None
    } else {
        Some(ws[0])
    }
}

/// Reads the digest out of the output of a checksum tool (`<digest>  <path>`).
pub fn digest_of(output: &str) -> (r: Option<String>)
    ensures
        match r {
            Some(d) => digest_field(output@) == Some(d@),
            None => digest_field(output@) is None,
        },
{
    let oc = to_chars(output);
    let ws = split_whitespace(&oc);
    if ws.len() == 0 {
        None
    } else {
        assert(ws@.map_values(|v: Vec<char>| v@)[0] == ws@[0]@);
        Some(from_chars(&ws[0]))
    }
}

/// The drop rules to remove from a rule listing, trimmed.
pub open spec fn legacy_drop_rules_spec(output: Seq<char>) -> Seq<Seq<char>> {
    collect_some(lines_of(output), |l: Seq<char>| legacy_drop_rule(l))
}

/// Finds the legacy per-address drop rules in a rule listing.
pub fn legacy_drop_rules(output: &str) -> (r: Vec<String>)
    ensures
        r@.map_values(|s: String| s@) == legacy_drop_rules_spec(output@),
{
    let oc = to_chars(output);
    let ls = lines(&oc);
    let ghost all = lines_of(output@);
    let ghost f = |l: Seq<char>| legacy_drop_rule(l);
    let pat = to_chars("rule family=\"ipv4\" source address=\"");
    let suffix = to_chars("\" drop");
    let mut r: Vec<String> = Vec::new();
    let mut i: usize = 0;
    while i < ls.len()
        invariant
            i <= ls@.len(),
            ls@.map_values(|v: Vec<char>| v@) == all,
            pat@ == "rule family=\"ipv4\" source address=\""@,
            suffix@ == "\" drop"@,
            f == (|l: Seq<char>| legacy_drop_rule(l)),
            r@.map_values(|s: String| s@) == collect_some(all.take(i as int), f),
        decreases ls.len() - i,
    {
        proof {
            lemma_take_last(all, i as int);
        }
        assert(all[i as int] == ls@[i as int]@);
        let t = trim(&ls[i]);
        if contains(&t, &pat) && crate::strs::ends_with(&t, &suffix) {
            r.push(from_chars(&t));
            assert(r@.map_values(|s: String| s@) =~= collect_some(all.take(i + 1), f));
        }
        i += 1;
    }
    assert(all.take(all.len() as int) =~= all);
    r
}

/// `s` without any trailing `c` (`str::trim_end_matches`).
pub open spec fn strip_trailing(s: Seq<char>, c: char) -> Seq<char>
    decreases s.len(),
{
    if s.len() > 0 && s.last() == c {
        strip_trailing(s.drop_last(), c)
    } else {
        s
    }
}

fn strip_trailing_exec(s: &[char], c: char) -> (r: Vec<char>)
    ensures
        r@ == strip_trailing(s@, c),
{
    let mut j = s.len();
    assert(s@.subrange(0, j as int) =~= s@);
    while j > 0 && s[j - 1] == c
        invariant
            j <= s@.len(),
            strip_trailing(s@.subrange(0, j as int), c) == strip_trailing(s@, c),
        decreases j,
    {
        assert(s@.subrange(0, j as int).drop_last() =~= s@.subrange(0, j - 1));
        j -= 1;
    }
    proof {
        if j > 0 {
            assert(s@.subrange(0, j as int).last() == s@[j - 1]);
        }
    }
    slice_chars(s, 0, j)
}

/// The address token of one comma-separated piece of a firewall set listing.
pub open spec fn set_piece_token(part: Seq<char>) -> Seq<char> {
    let w = words(part);
    let first = if w.len() > 0 {
        w[0]
    } else {
        Seq::empty()
    };
    trim_seq(strip_trailing(first, '{'))
}

/// The address tokens on one line of a firewall set listing: only lines that
/// start the element list or carry a timeout are read; whitelisted tokens
/// are skipped.
pub open spec fn set_line_tokens(line: Seq<char>) -> Seq<Seq<char>> {
    let t = trim_seq(line);
    if starts_with_seq(t, "elements = {"@) || contains_seq(t, "timeout"@) {
        collect_some(
            split_on(t, ','),
            |p: Seq<char>|
                if whitelisted(set_piece_token(p)) {
                    None
                } else {
                    Some(set_piece_token(p))
                },
        )
    } else {
        Seq::empty()
    }
}

/// All address tokens of a firewall set listing, in order.
pub open spec fn banned_set_tokens_spec(output: Seq<char>) -> Seq<Seq<char>> {
    collect_all(lines_of(output), |l: Seq<char>| set_line_tokens(l))
}

fn set_line_tokens_exec(line: &[char]) -> (r: Vec<String>)
    ensures
        r@.map_values(|s: String| s@) == set_line_tokens(line@),
{
    let t = trim(line);
    let p1 = to_chars("elements = {");
    let p2 = to_chars("timeout");
    let mut r: Vec<String> = Vec::new();
    if !(starts_with(&t, &p1) || contains(&t, &p2)) {
        assert(r@.map_values(|s: String| s@) =~= set_line_tokens(line@));
        return r;
    }
    let parts = split_chars(&t, ',');
    let ghost ps = split_on(t@, ',');
    let ghost f = |p: Seq<char>|
        if whitelisted(set_piece_token(p)) {
            None
        } else {
            Some(set_piece_token(p))
        };
    let mut i: usize = 0;
    while i < parts.len()
        invariant
            i <= parts@.len(),
            parts@.map_values(|v: Vec<char>| v@) == ps,
            f == (|p: Seq<char>|
                if whitelisted(set_piece_token(p)) {
                    None
                } else {
                    Some(set_piece_token(p))
                }),
            r@.map_values(|s: String| s@) == collect_some(ps.take(i as int), f),
        decreases parts.len() - i,
    {
        proof {
            lemma_take_last(ps, i as int);
        }
        assert(ps[i as int] == parts@[i as int]@);
        let ws = split_whitespace(&parts[i]);
        let first: Vec<char> = if ws.len() > 0 {
            assert(ws@[0]@ == words(parts@[i as int]@)[0]);
            slice_chars(&ws[0], 0, ws[0].len())
        } else {
            Vec::new()
        };
        assert(first@ =~= (if words(parts@[i as int]@).len() > 0 {
            words(parts@[i as int]@)[0]
        } else {
            Seq::<char>::empty()
        }));
        let stripped = strip_trailing_exec(&first, '{');
        let tok = trim(&stripped);
        let s = from_chars(&tok);
        if !is_whitelisted(s.as_str()) {
            r.push(s);
            assert(r@.map_values(|s: String| s@) =~= collect_some(ps.take(i + 1), f));
        }
        i += 1;
    }
    assert(ps.take(ps.len() as int) =~= ps);
    r
}

/// Candidate addresses in a firewall set listing, in order of appearance.
pub fn banned_set_tokens(output: &str) -> (r: Vec<String>)
    ensures
        r@.map_values(|s: String| s@) == banned_set_tokens_spec(output@),
{
    let oc = to_chars(output);
    let ls = lines(&oc);
    let ghost all = lines_of(output@);
    let ghost f = |l: Seq<char>| set_line_tokens(l);
    let mut r: Vec<String> = Vec::new();
    let mut i: usize = 0;
    assert(r@.map_values(|s: String| s@) =~= collect_all(all.take(0), f));
    while i < ls.len()
        invariant
            i <= ls@.len(),
            ls@.map_values(|v: Vec<char>| v@) == all,
            f == (|l: Seq<char>| set_line_tokens(l)),
            r@.map_values(|s: String| s@) == collect_all(all.take(i as int), f),
        decreases ls.len() - i,
    {
        proof {
            lemma_take_last(all, i as int);
        }
        assert(all[i as int] == ls@[i as int]@);
        let mut toks = set_line_tokens_exec(&ls[i]);
        let ghost before = r@;
        r.append(&mut toks);
        assert(r@.map_values(|s: String| s@) =~= collect_all(all.take(i + 1), f));
        i += 1;
    }
    assert(all.take(all.len() as int) =~= all);
    r
}


/// Lexicographic order of strings by code point (the order of `str`).
pub open spec fn lex_lt(a: Seq<char>, b: Seq<char>) -> bool
    decreases a.len(),
{
    if a.len() == 0 {
        b.len() > 0
    } else if b.len() == 0 {
        false
    } else if a[0] != b[0] {
        (a[0] as u32) < (b[0] as u32)
    } else {
        lex_lt(a.drop_first(), b.drop_first())
    }
}

proof fn lemma_lex_irreflexive(a: Seq<char>)
    ensures
        !lex_lt(a, a),
    decreases a.len(),
{
    if a.len() > 0 {
        lemma_lex_irreflexive(a.drop_first());
    }
}

proof fn lemma_lex_total(a: Seq<char>, b: Seq<char>)
    ensures
        a != b ==> lex_lt(a, b) || lex_lt(b, a),
        !(lex_lt(a, b) && lex_lt(b, a)),
    decreases a.len(),
{
    if a.len() > 0 && b.len() > 0 {
        lemma_lex_total(a.drop_first(), b.drop_first());
        if a != b && a[0] == b[0] {
            assert(a.drop_first() != b.drop_first()) by {
                if a.drop_first() == b.drop_first() {
                    assert(a =~= b) by {
                        assert forall|i: int| 0 <= i < a.len() implies a[i] == b[i] by {
                            if i > 0 {
                                assert(a[i] == a.drop_first()[i - 1]);
                                assert(b[i] == b.drop_first()[i - 1]);
                            }
                        }
                    }
                }
            }
        }
        if a[0] != b[0] {
            vstd::utf8::char_u32_cast(a[0], a[0] as u32);
            vstd::utf8::char_u32_cast(b[0], b[0] as u32);
            assert((a[0] as u32) != (b[0] as u32));
        }
    } else if a.len() == 0 && b.len() == 0 {
        assert(a =~= b);
    }
}

proof fn lemma_lex_transitive(a: Seq<char>, b: Seq<char>, c: Seq<char>)
    requires
        lex_lt(a, b),
        lex_lt(b, c),
    ensures
        lex_lt(a, c),
    decreases a.len(),
{
    if a.len() > 0 && b.len() > 0 && c.len() > 0 {
        if a[0] == b[0] && b[0] == c[0] {
            lemma_lex_transitive(a.drop_first(), b.drop_first(), c.drop_first());
        }
    }
}

/// Whether `a` comes strictly before `b`.
pub fn lex_less(a: &[char], b: &[char]) -> (r: bool)
    ensures
        r == lex_lt(a@, b@),
{
    let mut i: usize = 0;
    assert(a@.subrange(0, a@.len() as int) =~= a@);
    assert(b@.subrange(0, b@.len() as int) =~= b@);
    while i < a.len() && i < b.len() && a[i] == b[i]
        invariant
            i <= a@.len(),
            i <= b@.len(),
            lex_lt(a@.subrange(i as int, a@.len() as int), b@.subrange(i as int, b@.len() as int))
                == lex_lt(a@, b@),
        decreases a.len() - i,
    {
        assert(a@.subrange(i as int, a@.len() as int).drop_first() =~= a@.subrange(
            i + 1,
            a@.len() as int,
        ));
        assert(b@.subrange(i as int, b@.len() as int).drop_first() =~= b@.subrange(
            i + 1,
            b@.len() as int,
        ));
        i += 1;
    }
    proof {
        if i < a@.len() {
            assert(a@.subrange(i as int, a@.len() as int)[0] == a@[i as int]);
        }
        if i < b@.len() {
            assert(b@.subrange(i as int, b@.len() as int)[0] == b@[i as int]);
        }
    }
    if i == a.len() {
        i < b.len()
    } else if i == b.len() {
        false
    } else {
        (a[i] as u32) < (b[i] as u32)
    }
}

/// Strictly increasing in lexicographic order.
pub open spec fn strictly_sorted(s: Seq<Seq<char>>) -> bool {
    forall|a: int, b: int| 0 <= a < b < s.len() ==> lex_lt(#[trigger] s[a], #[trigger] s[b])
}

/// The distinct strings of `v`, sorted (`sort` then `dedup`).
pub fn sort_dedup(v: &Vec<String>) -> (r: Vec<String>)
    ensures
        strictly_sorted(strings_view(r@)),
        forall|x: Seq<char>|
            strings_view(r@).contains(x) <==> strings_view(v@).contains(x),
{
    let ghost vs = strings_view(v@);
    let mut r: Vec<String> = Vec::new();
    let mut i: usize = 0;
    while i < v.len()
        invariant
            i <= v@.len(),
            vs == strings_view(v@),
            strictly_sorted(strings_view(r@)),
            forall|x: Seq<char>|
                strings_view(r@).contains(x) <==> vs.take(i as int).contains(x),
        decreases v.len() - i,
    {
        let ghost rs = strings_view(r@);
        let ghost pre = vs.take(i as int);
        let ghost post = vs.take(i + 1);
        let x = to_chars(v[i].as_str());
        assert(x@ == vs[i as int]);
        let mut j: usize = 0;
        while j < r.len() && lex_less(&to_chars(r[j].as_str()), &x)
            invariant
                j <= r@.len(),
                rs == strings_view(r@),
                forall|a: int| 0 <= a < j ==> lex_lt(#[trigger] rs[a], x@),
            decreases r.len() - j,
        {
            j += 1;
        }
        let dup = j < r.len() && str_eq_chars(r[j].as_str(), &x);
        if !dup {
            r.insert(j, v[i].clone());
            let ghost rs2 = strings_view(r@);
            assert(rs2 =~= rs.insert(j as int, x@));
            assert forall|a: int, b: int| 0 <= a < b < rs2.len() implies lex_lt(
                #[trigger] rs2[a],
                #[trigger] rs2[b],
            ) by {
                if j < rs.len() {
                    lemma_lex_total(rs[j as int], x@);
                }
                if b < j {
                    assert(rs2[a] == rs[a] && rs2[b] == rs[b]);
                } else if b == j {
                    assert(rs2[a] == rs[a]);
                } else if a == j {
                    assert(rs2[b] == rs[b - 1]);
                    if b - 1 > j {
                        lemma_lex_transitive(x@, rs[j as int], rs[b - 1]);
                    }
                } else if a < j {
                    assert(rs2[a] == rs[a] && rs2[b] == rs[b - 1]);
                } else {
                    assert(rs2[a] == rs[a - 1] && rs2[b] == rs[b - 1]);
                }
            }
            assert forall|y: Seq<char>| rs2.contains(y) <==> post.contains(y) by {
                assert(post =~= pre.push(x@));
                if rs2.contains(y) {
                    let k = choose|k: int| 0 <= k < rs2.len() && rs2[k] == y;
                    if k < j {
                        assert(rs[k] == y);
                        assert(rs.contains(y));
                    } else if k > j {
                        assert(rs[k - 1] == y);
                        assert(rs.contains(y));
                    } else {
                        assert(y == x@);
                        assert(post[pre.len() as int] == y);
                    }
                    if rs.contains(y) {
                        assert(pre.contains(y));
                        let q = choose|q: int| 0 <= q < pre.len() && pre[q] == y;
                        assert(post[q] == y);
                    }
                }
                if post.contains(y) && y != x@ {
                    let k = choose|k: int| 0 <= k < post.len() && post[k] == y;
                    assert(pre[k] == y);
                    assert(rs.contains(y));
                    let m = choose|m: int| 0 <= m < rs.len() && rs[m] == y;
                    if m < j {
                        assert(rs2[m] == y);
                    } else {
                        assert(rs2[m + 1] == y);
                    }
                }
                if y == x@ {
                    assert(rs2[j as int] == y);
                }
            }
        } else {
            assert forall|y: Seq<char>| rs.contains(y) <==> post.contains(y) by {
                assert(post =~= pre.push(x@));
                if y == x@ {
                    assert(rs[j as int] == y);
                }
                if post.contains(y) && y != x@ {
                    let k = choose|k: int| 0 <= k < post.len() && post[k] == y;
                    assert(pre[k] == y);
                }
                if rs.contains(y) {
                    assert(pre.contains(y));
                    let k = choose|k: int| 0 <= k < pre.len() && pre[k] == y;
                    assert(post[k] == y);
                }
            }
        }
        i += 1;
    }
    assert(vs.take(v@.len() as int) =~= vs);
    r
}

fn str_eq_chars(a: &str, b: &[char]) -> (r: bool)
    ensures
        r == (a@ == b@),
{
    let ac = to_chars(a);
    if ac.len() != b.len() {
        return false;
    }
    let mut i: usize = 0;
    while i < ac.len()
        invariant
            ac@ == a@,
            ac@.len() == b@.len(),
            i <= ac@.len(),
            forall|k: int| 0 <= k < i ==> ac@[k] == b@[k],
        decreases ac.len() - i,
    {
        if ac[i] != b[i] {
            return false;
        }
        i += 1;
    }
    assert(ac@ =~= b@);
    true
}

/// How web requests count: a request whose path carries an attack pattern
/// is an attack worth 5 whatever its status; any other request answered
/// 403 or 404 is a scan worth 1; everything else does not count.
pub proof fn law_web_event_classes(path: Seq<char>, status: u16)
    ensures
        attack_request(path) ==> web_event_spec(path, status) == Some((5u32, Category::WebAttack)),
        !attack_request(path) && (status == 403 || status == 404) ==> web_event_spec(path, status)
            == Some((1u32, Category::WebScan)),
        !attack_request(path) && status != 403 && status != 404 ==> web_event_spec(path, status)
            is None,
{
}

/// A status code changes how a request counts only between scans and
/// nothing: 403 and 404 count alike, and an attack counts alike under
/// every status.
pub proof fn law_web_event_status(path: Seq<char>, s1: u16, s2: u16)
    ensures
        web_event_spec(path, 403) == web_event_spec(path, 404),
        attack_request(path) ==> web_event_spec(path, s1) == web_event_spec(path, s2),
        web_event_spec(path, 403) is Some,
{
}

} // verus!
