use epicode::security::{
    constant_time_eq, constant_time_eq_bytes, skips_security, SecurityConfig, SecurityGuard,
    SecurityResult,
};

fn test_guard() -> SecurityGuard {
    SecurityGuard::new(SecurityConfig {
        enabled: true,
        api_keys: vec!["test-key-123".to_string()],
        admin_key: None,
        rate_limit_per_minute: 5,
        max_content_length: 100,
        max_query_length: 50,
        max_labels: 5,
        audit_log_size: 50,
        tenant_quotas: Vec::new(),
        max_tenants: 100,
    })
}

#[test]
fn authenticate_valid_key() {
    let guard = test_guard();
    let result = guard.authenticate("test-key-123");
    assert!(result.is_ok());
}

#[test]
fn authenticate_invalid_key() {
    let guard = test_guard();
    let result = guard.authenticate("wrong-key");
    assert_eq!(result.unwrap_err(), SecurityResult::DeniedAuth);
}

#[test]
fn rate_limit_allows_within_limit() {
    let mut guard = test_guard();
    for _ in 0..5 {
        assert!(guard.check_rate_limit("client1").is_ok());
    }
}

#[test]
fn rate_limit_blocks_over_limit() {
    let mut guard = test_guard();
    for _ in 0..5 {
        guard.check_rate_limit("client1").ok();
    }
    let result = guard.check_rate_limit("client1");
    assert_eq!(result.unwrap_err(), SecurityResult::DeniedRateLimit);
}

#[test]
fn rate_limit_independent_clients() {
    let mut guard = test_guard();
    for _ in 0..5 {
        guard.check_rate_limit("client1").ok();
    }
    assert!(guard.check_rate_limit("client2").is_ok());
}

#[test]
fn validate_content_ok() {
    let guard = test_guard();
    assert!(guard.validate_content("hello world").is_ok());
}

#[test]
fn validate_content_empty() {
    let guard = test_guard();
    assert_eq!(
        guard.validate_content("").unwrap_err(),
        SecurityResult::DeniedValidation
    );
}

#[test]
fn validate_content_too_long() {
    let guard = test_guard();
    let long = "x".repeat(101);
    assert_eq!(
        guard.validate_content(&long).unwrap_err(),
        SecurityResult::DeniedValidation
    );
}

#[test]
fn validate_query_too_long() {
    let guard = test_guard();
    let long = "q".repeat(51);
    assert_eq!(
        guard.validate_query(&long).unwrap_err(),
        SecurityResult::DeniedValidation
    );
}

#[test]
fn validate_labels_too_many() {
    let guard = test_guard();
    let labels: Vec<String> = (0..6).map(|i| format!("label{i}")).collect();
    assert_eq!(
        guard.validate_labels(&labels).unwrap_err(),
        SecurityResult::DeniedValidation
    );
}

#[test]
fn constitution_blocks_delete() {
    let guard = test_guard();
    assert_eq!(
        guard.check_constitution_delete().unwrap_err(),
        SecurityResult::DeniedConstitution
    );
}

#[test]
fn constitution_blocks_blend() {
    let guard = test_guard();
    assert_eq!(
        guard.check_constitution_blend().unwrap_err(),
        SecurityResult::DeniedConstitution
    );
}

#[test]
fn full_check_ok() {
    let mut guard = test_guard();
    let result = guard.full_check("test-key-123", "test");
    assert!(result.is_ok());
}

#[test]
fn full_check_bad_key() {
    let mut guard = test_guard();
    let result = guard.full_check("bad-key", "test");
    assert!(result.is_err());
}

#[test]
fn audit_log_entries() {
    let mut guard = test_guard();
    guard.audit("create", "client1", SecurityResult::Allowed, "ok");
    guard.audit(
        "delete",
        "client1",
        SecurityResult::DeniedConstitution,
        "forbidden",
    );
    let log = guard.audit_log(10);
    assert_eq!(log.len(), 2);
    assert_eq!(log[0].action, "delete");
    assert_eq!(log[1].action, "create");
}

#[test]
fn stats_counters() {
    let mut guard = test_guard();
    guard.audit("test", "c1", SecurityResult::Allowed, "ok");
    guard.audit("test", "c1", SecurityResult::DeniedAuth, "bad key");
    let stats = guard.stats();
    assert_eq!(stats.total_requests, 2);
    assert_eq!(stats.total_denied, 1);
}

#[test]
fn disabled_security_allows_all() {
    let guard = SecurityGuard::new(SecurityConfig {
        enabled: false,
        api_keys: vec![],
        admin_key: None,
        rate_limit_per_minute: 0,
        max_content_length: 0,
        max_query_length: 0,
        max_labels: 0,
        audit_log_size: 10,
        tenant_quotas: Vec::new(),
        max_tenants: 100,
    });
    assert!(guard.authenticate("anything").is_ok());
}

#[test]
fn mask_key_hides_middle() {
    let masked = SecurityGuard::mask_key("abcdefghijklmnop");
    assert_eq!(masked, "abc****op");
}

#[test]
fn mask_key_handles_multibyte_without_panic() {
    let masked = SecurityGuard::mask_key("🔑secure-key-🔐");
    assert!(masked.contains("****"));
}

#[test]
fn check_admin_with_dedicated_admin_key() {
    let guard = SecurityGuard::new(SecurityConfig {
        enabled: true,
        api_keys: vec!["regular-key".to_string()],
        admin_key: Some("admin-secret".to_string()),
        rate_limit_per_minute: 5,
        max_content_length: 100,
        max_query_length: 50,
        max_labels: 5,
        audit_log_size: 50,
        tenant_quotas: Vec::new(),
        max_tenants: 100,
    });
    assert!(!guard.check_admin("regular-key"));
    assert!(guard.check_admin("admin-secret"));
    assert!(!guard.check_admin("wrong"));
}

#[test]
fn check_admin_single_tenant_falls_back_to_api_key() {
    let guard = SecurityGuard::new(SecurityConfig {
        enabled: true,
        api_keys: vec!["regular-key".to_string()],
        admin_key: None,
        rate_limit_per_minute: 5,
        max_content_length: 100,
        max_query_length: 50,
        max_labels: 5,
        audit_log_size: 50,
        tenant_quotas: Vec::new(),
        max_tenants: 100,
    });
    assert!(guard.check_admin("regular-key"));
    assert!(!guard.check_admin("other"));
}

#[test]
fn constant_time_eq_matches_identical_strings() {
    assert!(constant_time_eq("secret", "secret"));
    assert!(!constant_time_eq("secret", "secre7"));
    assert!(!constant_time_eq("short", "longer-string"));
}

#[test]
fn constant_time_eq_bytes_handles_slices() {
    assert!(constant_time_eq_bytes(&[1, 2, 3], &[1, 2, 3]));
    assert!(!constant_time_eq_bytes(&[1, 2, 3], &[1, 2, 4]));
    assert!(!constant_time_eq_bytes(&[1, 2], &[1, 2, 3]));
}

// ---- further cases ----

#[test]
fn authenticated_client_is_masked_key() {
    let guard = test_guard();
    assert_eq!(guard.authenticate("test-key-123").unwrap(), "tes****23");
}

#[test]
fn disabled_security_client_is_anonymous() {
    let guard = SecurityGuard::new(SecurityConfig {
        enabled: false,
        api_keys: vec!["k".to_string()],
        admin_key: None,
        rate_limit_per_minute: 1,
        max_content_length: 1,
        max_query_length: 1,
        max_labels: 1,
        audit_log_size: 1,
        tenant_quotas: Vec::new(),
        max_tenants: 1,
    });
    assert_eq!(guard.authenticate("zzz").unwrap(), "anonymous");
    assert!(guard.check_admin("anything"));
}

#[test]
fn short_keys_are_fully_masked() {
    assert_eq!(SecurityGuard::mask_key("abc"), "***");
    assert_eq!(SecurityGuard::mask_key("12345678"), "********");
    assert_eq!(SecurityGuard::mask_key(""), "");
}

#[test]
fn tenant_is_text_before_first_colon() {
    assert_eq!(SecurityGuard::extract_tenant_id("acme:key:1"), "acme");
    assert_eq!(SecurityGuard::extract_tenant_id("nokey"), "nokey");
    assert_eq!(SecurityGuard::extract_tenant_id(":x"), "");
}

#[test]
fn hash_key_is_fnv1a_in_hex() {
    // FNV-1a of the empty input is the offset basis.
    assert_eq!(SecurityGuard::hash_key(""), "rl:cbf29ce484222325");
    assert_eq!(SecurityGuard::hash_key("a"), "rl:af63dc4c8601ec8c");
}

#[test]
fn rate_window_restarts_after_a_minute() {
    let mut guard = test_guard();
    for i in 0..5u64 {
        assert!(guard.check_rate_limit_at("c", 1_000_000_000 + i).is_ok());
    }
    assert_eq!(
        guard.check_rate_limit_at("c", 2_000_000_000),
        Err(SecurityResult::DeniedRateLimit)
    );
    assert_eq!(
        guard.check_rate_limit_at("c", 60_999_999_999),
        Err(SecurityResult::DeniedRateLimit)
    );
    assert!(guard.check_rate_limit_at("c", 61_000_000_000).is_ok());
}

#[test]
fn rate_limit_refuses_new_clients_when_full() {
    let mut guard = SecurityGuard::new(SecurityConfig {
        enabled: true,
        api_keys: vec![],
        admin_key: None,
        rate_limit_per_minute: 10,
        max_content_length: 10,
        max_query_length: 10,
        max_labels: 1,
        audit_log_size: 5,
        tenant_quotas: Vec::new(),
        max_tenants: 2,
    });
    assert!(guard.check_rate_limit_at("a", 0).is_ok());
    assert!(guard.check_rate_limit_at("b", 0).is_ok());
    assert_eq!(
        guard.check_rate_limit_at("c", 0),
        Err(SecurityResult::DeniedRateLimit)
    );
    assert!(guard.check_rate_limit_at("a", 1).is_ok());
}

#[test]
fn tenant_quota_denies_at_quota() {
    let mut guard = SecurityGuard::new(SecurityConfig {
        enabled: true,
        api_keys: vec![],
        admin_key: None,
        rate_limit_per_minute: 10,
        max_content_length: 10,
        max_query_length: 10,
        max_labels: 1,
        audit_log_size: 5,
        tenant_quotas: vec![("acme".to_string(), 3)],
        max_tenants: 2,
    });
    assert!(guard.check_tenant_quota("acme", 2).is_ok());
    assert_eq!(
        guard.check_tenant_quota("acme", 3),
        Err(SecurityResult::DeniedQuota)
    );
    assert!(guard.check_tenant_quota("other", 1_000).is_ok());
    assert_eq!(guard.stats().denied_quota, 1);
}

#[test]
fn audit_log_keeps_only_newest() {
    let mut guard = SecurityGuard::new(SecurityConfig {
        enabled: true,
        api_keys: vec![],
        admin_key: None,
        rate_limit_per_minute: 10,
        max_content_length: 10,
        max_query_length: 10,
        max_labels: 1,
        audit_log_size: 2,
        tenant_quotas: Vec::new(),
        max_tenants: 2,
    });
    guard.audit_at("a1", "c", SecurityResult::Allowed, "", 1);
    guard.audit_at("a2", "c", SecurityResult::DeniedRateLimit, "", 2);
    guard.audit_at("a3", "c", SecurityResult::DeniedValidation, "", 3);
    let log = guard.audit_log(10);
    assert_eq!(log.len(), 2);
    assert_eq!(log[0].action, "a3");
    assert_eq!(log[1].action, "a2");
    let stats = guard.stats();
    assert_eq!(stats.total_requests, 3);
    assert_eq!(stats.total_denied, 2);
    assert_eq!(stats.denied_rate_limit, 1);
    assert_eq!(stats.denied_validation, 1);
    assert_eq!(stats.audit_entries, 2);
    assert_eq!(guard.audit_log(1).len(), 1);
}

#[test]
fn labels_must_be_short_plain_and_non_blank() {
    let guard = test_guard();
    assert!(guard
        .validate_labels(&["rust".to_string(), "my label_1.0-x".to_string()])
        .is_ok());
    assert!(guard.validate_labels(&["  ".to_string()]).is_err());
    assert!(guard.validate_labels(&["bad/label".to_string()]).is_err());
    assert!(guard.validate_labels(&["x".repeat(65)]).is_err());
    assert!(guard.validate_labels(&["x".repeat(64)]).is_ok());
}

#[test]
fn blank_query_is_refused() {
    let guard = test_guard();
    assert!(guard.validate_query(" \t ").is_err());
    assert!(guard.validate_query("q".repeat(50).as_str()).is_ok());
}

#[test]
fn constitution_create_needs_content() {
    let guard = test_guard();
    assert!(guard.check_constitution_create(true).is_ok());
    assert_eq!(
        guard.check_constitution_create(false),
        Err(SecurityResult::DeniedValidation)
    );
}

#[test]
fn full_check_audits_the_outcome() {
    let mut guard = test_guard();
    let denied = guard.full_check("nope", "read");
    assert_eq!(
        denied,
        Err((SecurityResult::DeniedAuth, "authentication failed".to_string()))
    );
    let ok = guard.full_check_at("test-key-123", "read", 10, 99);
    assert_eq!(ok, Ok("tes****23".to_string()));
    let log = guard.audit_log(5);
    assert_eq!(log[0].detail, "passed");
    assert_eq!(log[0].timestamp, 99);
    assert_eq!(log[1].client, "****");
    assert_eq!(log[1].result, SecurityResult::DeniedAuth);
}

#[test]
fn full_check_reports_rate_limit() {
    let mut guard = test_guard();
    for i in 0..5u64 {
        assert!(guard.full_check_at("test-key-123", "w", i, 0).is_ok());
    }
    assert_eq!(
        guard.full_check_at("test-key-123", "w", 6, 0),
        Err((SecurityResult::DeniedRateLimit, "rate limit exceeded".to_string()))
    );
}

#[test]
fn settings_need_a_key_unless_insecure_is_allowed() {
    assert_eq!(
        SecurityConfig::try_from_env(None, None, None).err().unwrap(),
        "EPICODE_API_KEY (or TETRAMEM_API_KEY) must be set. Generate one with: openssl rand -base64 32"
    );
    let insecure = SecurityConfig::try_from_env(Some(""), Some("TRUE"), Some("")).unwrap();
    assert!(!insecure.enabled);
    assert!(insecure.api_keys.is_empty());
    assert!(insecure.admin_key.is_none());
    let secure = SecurityConfig::try_from_env(Some("k1"), None, Some("adm")).unwrap();
    assert!(secure.enabled);
    assert_eq!(secure.api_keys, vec!["k1".to_string()]);
    assert_eq!(secure.admin_key.as_deref(), Some("adm"));
    assert_eq!(secure.rate_limit_per_minute, 120);
    assert_eq!(secure.audit_log_size, 200);
    assert!(SecurityConfig::try_from_env(None, Some("yes"), None).is_err());
    assert!(SecurityConfig::try_from_env(None, Some("1"), None).is_ok());
}

#[test]
fn dashboard_and_health_skip_checks() {
    assert!(skips_security("/"));
    assert!(skips_security("/dashboard"));
    assert!(skips_security("/health/deep"));
    assert!(!skips_security("/search"));
    assert!(!skips_security("/dashboard/x"));
}

#[test]
fn guard_from_settings_starts_empty() {
    assert!(SecurityGuard::try_from_env(None, Some("no"), None).is_err());
    let guard = SecurityGuard::try_from_env(Some("k9"), None, None).unwrap();
    assert!(guard.config.enabled);
    assert_eq!(guard.config.api_keys, vec!["k9".to_string()]);
    let stats = guard.stats();
    assert_eq!(stats.total_requests, 0);
    assert_eq!(stats.total_denied, 0);
    assert!(guard.audit_log(10).is_empty());
}

#[test]
fn full_check_logs_and_counts_each_request() {
    let mut guard = test_guard();
    let before = guard.stats();
    let ok = guard.full_check("test-key-123", "search");
    assert_eq!(ok, Ok("tes****23".to_string()));
    let after = guard.stats();
    assert_eq!(after.total_requests, before.total_requests + 1);
    assert_eq!(after.total_denied, before.total_denied);
    let last = &guard.audit_log(1)[0];
    assert_eq!(last.action, "search");
    assert_eq!(last.client, "tes****23");
    assert_eq!(last.result, SecurityResult::Allowed);

    let denied = guard.full_check("bad-key", "search");
    assert_eq!(
        denied,
        Err((SecurityResult::DeniedAuth, "authentication failed".to_string()))
    );
    let stats = guard.stats();
    assert_eq!(stats.total_requests, before.total_requests + 2);
    assert_eq!(stats.total_denied, before.total_denied + 1);
    assert_eq!(guard.audit_log(1)[0].result, SecurityResult::DeniedAuth);
}
