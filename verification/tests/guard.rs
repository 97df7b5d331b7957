use epicode::alerts::{
    attack_type, ban_element, ban_note, check_file_integrity, cycle_plan, decay_due,
    honeypot_note, note_body, top_active_bans, top_suspects, unban_element,
};
use epicode::guard::{is_whitelisted, GuardState, IpEntry};
use epicode::logscan::{
    banned_set_tokens, count_floods, digest_of, honeypot_ports, is_attack_request, legacy_drop_rules,
    peer_hosts, sort_dedup, split_nginx_line, ssh_failure_source, unexpected_ports, web_event,
};

fn entry_of(state: &GuardState, ip: &str) -> Option<IpEntry> {
    state.ips.iter().find(|(k, _)| k == ip).map(|(_, e)| *e)
}

#[test]
fn whitelist_covers_local_and_private_ranges() {
    assert!(is_whitelisted("127.0.0.1"));
    assert!(is_whitelisted("::1"));
    assert!(is_whitelisted("10.1.2.3"));
    assert!(is_whitelisted("192.168.0.9"));
    assert!(is_whitelisted("172.16.5.5"));
    assert!(!is_whitelisted("172.17.0.1"));
    assert!(!is_whitelisted("8.8.8.8"));
}

#[test]
fn recording_accumulates_scores_per_category() {
    let mut s = GuardState::new(1000);
    s.record("1.2.3.4", 3, "ssh", 10);
    s.record("1.2.3.4", 5, "web_attack", 20);
    s.record("1.2.3.4", 1, "web_scan", 30);
    s.record("1.2.3.4", 5, "flood", 40);
    s.record("1.2.3.4", 0, "other", 50);
    let e = entry_of(&s, "1.2.3.4").unwrap();
    assert_eq!(e.score, 14);
    assert_eq!(e.ssh_fails, 1);
    assert_eq!(e.web_attacks, 1);
    assert_eq!(e.web_scans, 2);
    assert_eq!(e.last_fail, 50);
    assert_eq!(s.total_attacks, 4);
    s.record("127.0.0.1", 100, "honeypot", 60);
    assert!(entry_of(&s, "127.0.0.1").is_none());
}

#[test]
fn ban_round_bans_by_threat_and_cleans_expired() {
    let mut s = GuardState::new(0);
    for _ in 0..5 {
        s.record("1.1.1.1", 3, "ssh", 100);
    }
    s.record("2.2.2.2", 5, "web_attack", 100);
    s.record("2.2.2.2", 5, "web_attack", 100);
    s.record("3.3.3.3", 9, "web_scan", 100);
    let notices = s.process_bans(200);
    assert_eq!(notices.len(), 2);
    let ssh = notices.iter().find(|n| n.ip == "1.1.1.1").unwrap();
    assert_eq!(ssh.timeout_secs, 604800);
    let web = notices.iter().find(|n| n.ip == "2.2.2.2").unwrap();
    assert_eq!(web.timeout_secs, 172800);
    assert_eq!(entry_of(&s, "1.1.1.1").unwrap().banned_until, 200 + 604800);
    assert_eq!(entry_of(&s, "3.3.3.3").unwrap().banned_until, 0);
    assert_eq!(s.total_bans, 2);
    // Banned entries are not banned again, and expire after their time.
    assert!(s.process_bans(300).is_empty());
    s.process_bans(200 + 172800 + 1);
    assert!(entry_of(&s, "2.2.2.2").is_none());
    assert!(entry_of(&s, "1.1.1.1").is_some());
}

#[test]
fn decay_lowers_idle_scores_and_forgets_small_ones() {
    let mut s = GuardState::new(0);
    s.record("4.4.4.4", 7, "web_scan", 0);
    s.record("5.5.5.5", 2, "web_scan", 0);
    s.record("6.6.6.6", 7, "web_scan", 250);
    s.decay(301);
    assert_eq!(entry_of(&s, "4.4.4.4").unwrap().score, 5);
    assert!(entry_of(&s, "5.5.5.5").is_none());
    assert_eq!(entry_of(&s, "6.6.6.6").unwrap().score, 7);
    assert!(decay_due(301, 0));
    assert!(!decay_due(300, 0));
}

#[test]
fn reapplying_bans_reports_remaining_time() {
    let mut s = GuardState::new(0);
    s.manual_ban("7.7.7.7", 1000);
    s.manual_ban("8.8.4.4", 0);
    assert_eq!(s.total_bans, 2);
    assert_eq!(entry_of(&s, "7.7.7.7").unwrap().score, 10);
    let (active, expired) = s.reapply_bans(86400 + 500);
    assert_eq!(active, vec![("7.7.7.7".to_string(), 500)]);
    assert_eq!(expired, 1);
    assert!(entry_of(&s, "8.8.4.4").is_none());
    s.manual_unban("7.7.7.7");
    assert!(s.ips.is_empty());
}

#[test]
fn honeypot_and_flood_events() {
    let mut s = GuardState::new(0);
    s.record_honeypot("9.9.9.9", 5);
    let e = entry_of(&s, "9.9.9.9").unwrap();
    assert_eq!(e.score, 100);
    assert_eq!(e.honeypot_hits, 1);
    assert_eq!(s.total_honeypot, 1);
    s.record_flood("9.9.9.8", 5);
    assert_eq!(entry_of(&s, "9.9.9.8").unwrap().score, 5);
}

#[test]
fn attack_requests_are_recognised() {
    assert!(is_attack_request("/index.php?id=1 UNION SELECT"));
    assert!(is_attack_request("/../../etc/passwd"));
    assert!(is_attack_request("/.env"));
    assert!(!is_attack_request("/api/v1/memories"));
    assert_eq!(web_event("/wp-login.php", 200).unwrap().0, 5);
    assert_eq!(web_event("/missing", 404).unwrap().0, 1);
    assert!(web_event("/ok", 200).is_none());
}

#[test]
fn ssh_failures_name_their_source() {
    assert_eq!(
        ssh_failure_source("sshd[1]: Failed password for root from 203.0.113.5 port 22 ssh2"),
        Some("203.0.113.5".to_string())
    );
    assert_eq!(
        ssh_failure_source("sshd[1]: Invalid user bob from 198.51.100.7"),
        Some("198.51.100.7".to_string())
    );
    assert_eq!(ssh_failure_source("sshd[1]: Accepted password for root from 203.0.113.5"), None);
}

#[test]
fn nginx_lines_split_into_ip_path_status() {
    let line = r#"203.0.113.9 - - [01/Jan/2026:00:00:00 +0000] "GET /admin HTTP/1.1" 404 12 "-" "curl""#;
    assert_eq!(
        split_nginx_line(line),
        Some(("203.0.113.9".to_string(), "/admin".to_string(), 404))
    );
    assert_eq!(split_nginx_line("garbage"), None);
}

#[test]
fn listening_ports_outside_the_expected_set() {
    let out = "State Recv-Q Send-Q Local Address:Port Peer\n\
LISTEN 0 128 0.0.0.0:22 x\n";
    let _ = unexpected_ports(out, &[]);
    assert_eq!(honeypot_ports("2222, 3306,x,"), vec![2222, 3306]);
    assert!(honeypot_ports("").is_empty());
}

#[test]
fn connection_floods_are_counted() {
    let hosts: Vec<String> = (0..31).map(|_| "5.6.7.8".to_string()).collect();
    let floods = count_floods(&hosts, 30);
    assert_eq!(floods, vec![("5.6.7.8".to_string(), 31)]);
    assert!(count_floods(&hosts[..30].to_vec(), 30).is_empty());
    let out = "State Recv-Q Send-Q Local Peer\nESTAB 0 0 10.0.0.1:443 5.6.7.8:5555\n";
    assert_eq!(peer_hosts(out), vec!["5.6.7.8".to_string()]);
}

#[test]
fn legacy_rules_and_banned_sets() {
    let rules = "rule family=\"ipv4\" source address=\"1.2.3.4\" drop\nother\n";
    assert_eq!(
        legacy_drop_rules(rules),
        vec!["rule family=\"ipv4\" source address=\"1.2.3.4\" drop".to_string()]
    );
    let set = "table inet t {\n  set ban {\n    elements = { 9.9.9.9 timeout 1h expires 59m, 8.8.8.8 timeout 2h }\n  }\n}\n";
    let tokens = banned_set_tokens(set);
    // The first word of each comma-separated piece is taken; on the line
    // that opens the element list that word is `elements`.
    assert!(tokens.contains(&"elements".to_string()));
    assert!(tokens.contains(&"8.8.8.8".to_string()));
    assert!(!tokens.contains(&"9.9.9.9".to_string()));
    assert_eq!(
        sort_dedup(&vec!["b".to_string(), "a".to_string(), "b".to_string()]),
        vec!["a".to_string(), "b".to_string()]
    );
}

#[test]
fn firewall_elements() {
    assert_eq!(ban_element("1.2.3.4", 86400), "{ 1.2.3.4 timeout 24h }");
    assert_eq!(ban_element("1.2.3.4", 500), "{ 1.2.3.4 timeout 500s }");
    assert_eq!(unban_element("1.2.3.4"), "{ 1.2.3.4 }");
}

#[test]
fn memory_notes() {
    let mut e = IpEntry::default();
    e.score = 15;
    e.ssh_fails = 5;
    assert_eq!(attack_type(&e), "ssh-bruteforce");
    let (text, labels) = ban_note("1.2.3.4", &e, 604800);
    assert_eq!(
        text,
        "Security ban: IP 1.2.3.4 | type=ssh-bruteforce | score=15 | ssh_fails=5 | web_attacks=0 | honeypot=0 | duration=168h | source=epicode-guard-v3.0.0"
    );
    assert_eq!(labels, vec!["security", "auto-banned", "ssh-bruteforce", "guard-memory"]);
    let (text, labels) = honeypot_note("1.2.3.4", 0);
    assert_eq!(
        text,
        "Honeypot capture: IP 1.2.3.4 connected to decoy port 0 | instant ban | source=epicode-guard-v3.0.0"
    );
    assert_eq!(labels[1], "honeypot");
    assert_eq!(
        note_body("a \"q\"\nb\\", &vec!["x", "y"]),
        r#"{"content":"a \"q\" b\\","labels":["x","y"]}"#
    );
}

#[test]
fn cycle_schedule() {
    let p = cycle_plan(0);
    assert!(p.check_files && p.check_ports && p.check_floods && !p.log_stats);
    let p = cycle_plan(60);
    assert!(p.log_stats);
    let p = cycle_plan(7);
    assert!(!p.check_files && !p.check_floods);
}

#[test]
fn file_integrity_baseline_then_alerts() {
    let mut hashes: Vec<(String, String)> = Vec::new();
    let obs = vec![
        ("/etc/a".to_string(), Some("h1".to_string())),
        ("/etc/b".to_string(), None),
    ];
    assert!(check_file_integrity(&mut hashes, &obs).is_empty());
    assert_eq!(hashes, vec![("/etc/a".to_string(), "h1".to_string())]);
    let obs2 = vec![
        ("/etc/a".to_string(), Some("h2".to_string())),
        ("/etc/b".to_string(), Some("hb".to_string())),
    ];
    assert_eq!(check_file_integrity(&mut hashes, &obs2), vec!["/etc/a".to_string()]);
    assert_eq!(hashes.len(), 2);
    assert_eq!(hashes[0].1, "h2");
}

#[test]
fn status_listings() {
    let mut s = GuardState::new(0);
    s.record("1.0.0.1", 4, "web_scan", 0);
    s.record("1.0.0.2", 9, "web_scan", 0);
    s.record("1.0.0.3", 2, "web_scan", 0);
    let sus = top_suspects(&s.ips);
    assert_eq!(sus.len(), 2);
    assert_eq!(sus[0].0, "1.0.0.2");
    s.manual_ban("1.0.0.9", 0);
    let bans = top_active_bans(&s.ips, 10);
    assert_eq!(bans.len(), 1);
    assert_eq!(bans[0].0, "1.0.0.9");
}

#[test]
fn checksum_output_gives_its_first_word() {
    assert_eq!(
        digest_of("ab12cd  /etc/passwd\n").as_deref(),
        Some("ab12cd")
    );
    assert_eq!(digest_of("  \tx y").as_deref(), Some("x"));
    assert_eq!(digest_of(""), None);
    assert_eq!(digest_of(" \n\t "), None);
}
