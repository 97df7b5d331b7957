use base64::Engine;
use sha2::Digest;
use epicode::accounts::{
    api_key_from_uuid, generate_api_key, generate_invite_code, hash_password, is_valid_user_id, legacy_hash_with_salt,
    owner_ids,
    verify_password, EngineAccess, PersonaState, UserManager, UserPlan,
};

fn manager() -> UserManager {
    UserManager::new(
        Vec::new(),
        "CURRENTCODE".to_string(),
        Vec::new(),
        vec!["P1".to_string(), "P2".to_string()],
        owner_ids(None),
    )
}

fn is_key_shaped(k: &str) -> bool {
    k.len() == 35
        && k.starts_with("tm-")
        && k[3..].chars().all(|c| c.is_ascii_digit() || ('a'..='f').contains(&c))
}

#[test]
fn plan_quotas() {
    assert_eq!(UserPlan::Free.max_memories(), 1000);
    assert_eq!(UserPlan::Pro.max_memories(), 10000);
    assert_eq!(UserPlan::Enterprise.max_memories(), 100000);
    assert_eq!(UserPlan::Pro.max_embedding_dims(), 1024);
    assert_eq!(UserPlan::from_request(Some("pro")), UserPlan::Pro);
    assert_eq!(UserPlan::from_request(Some("enterprise")), UserPlan::Enterprise);
    assert_eq!(UserPlan::from_request(Some("PRO")), UserPlan::Free);
    assert_eq!(UserPlan::from_request(None), UserPlan::Free);
}

#[test]
fn register_and_login() {
    let mut m = manager();
    let info = m.register("alice", "key-a", UserPlan::Pro, "secret1").unwrap();
    assert_eq!(info.user_id, "alice");
    assert_eq!(info.max_memories, 10000);
    assert_eq!(info.memories_used, 0);
    assert!(info.parent.is_none());
    assert!(m.login("alice", "secret1").is_ok());
    assert_eq!(m.login("alice", "wrong-pw").unwrap_err(), "invalid password");
    assert_eq!(m.login("bob", "secret1").unwrap_err(), "user not found");
    assert_eq!(m.authenticate("key-a").unwrap().user_id, "alice");
    assert!(m.authenticate("key-b").is_none());
    assert_eq!(m.find_user_by_api_key("key-a"), "alice");
    assert_eq!(m.find_user_by_api_key(""), "");
    assert_eq!(m.total_users(), 1);
}

#[test]
fn register_refusals() {
    let mut m = manager();
    assert_eq!(
        m.register("a", "k", UserPlan::Free, "12345").unwrap_err(),
        "password must be at least 6 characters"
    );
    assert_eq!(
        m.register("a", "k", UserPlan::Free, &"x".repeat(129)).unwrap_err(),
        "password must be under 128 characters"
    );
    m.register("a", "k", UserPlan::Free, "123456").unwrap();
    assert_eq!(
        m.register("a", "k2", UserPlan::Free, "123456").unwrap_err(),
        "user already exists"
    );
    assert_eq!(
        m.register("b", "k", UserPlan::Free, "123456").unwrap_err(),
        "api key already in use"
    );
}

#[test]
fn passwords_hash_and_verify() {
    let h = hash_password("correct horse");
    assert!(h.starts_with("$argon2id"));
    assert!(verify_password("correct horse", &h));
    assert!(!verify_password("wrong horse", &h));
    assert!(!verify_password("x", ""));
    assert!(!verify_password("x", "$argon2id$garbage"));
    // A legacy hash: base64(salt) ":" base64(sha256(salt ++ password)).
    let salt = [7u8; 32];
    let mut data = salt.to_vec();
    data.extend_from_slice(b"pw");
    let b64 = base64::engine::general_purpose::STANDARD;
    let stored = format!("{}:{}", b64.encode(salt), b64.encode(sha2::Sha256::digest(&data)));
    assert!(verify_password("pw", &stored));
    assert!(!verify_password("pw2", &stored));
    assert!(!verify_password("pw", "no-colon"));
}

#[test]
fn set_plan_and_password() {
    let mut m = manager();
    m.register("a", "k", UserPlan::Free, "123456").unwrap();
    m.set_plan("a", UserPlan::Enterprise).unwrap();
    assert_eq!(m.user_stats("a").unwrap().max_memories, 100000);
    assert_eq!(m.set_plan("z", UserPlan::Pro).unwrap_err(), "user not found");
    m.set_password("a", "newpass").unwrap();
    assert!(m.login("a", "newpass").is_ok());
    assert_eq!(
        m.set_password("a", "abc").unwrap_err(),
        "password must be at least 6 characters"
    );
}

#[test]
fn subaccounts_share_the_main_quota() {
    let mut m = manager();
    m.register("main", "k-main", UserPlan::Free, "123456").unwrap();
    m.set_plan("main", UserPlan::Free).unwrap();
    let sub = m.create_subaccount("main", "helper", "abcdef").unwrap();
    assert_eq!(sub.parent.as_deref(), Some("main"));
    assert_eq!(sub.max_memories, 0);
    assert!(is_key_shaped(&sub.api_key));
    assert_eq!(m.user_stats("main").unwrap().sub_accounts, vec!["helper".to_string()]);
    let listed = m.list_subaccounts("main");
    assert_eq!(listed.len(), 1);
    assert_eq!(listed[0].user_id, "helper");
    // Usage of the main account and its sub-account counts together.
    for _ in 0..999 {
        m.increment_memory_count("main");
    }
    assert!(m.check_memory_limit("helper").is_ok());
    assert!(m.check_and_increment_memory("helper").is_ok());
    assert_eq!(
        m.check_and_increment_memory("helper").unwrap_err(),
        "memory limit reached (1000/1000, shared across account)"
    );
    assert_eq!(
        m.check_memory_limit("main").unwrap_err(),
        "memory limit reached (1000/1000, shared across account)"
    );
    m.decrement_memory_count("main", 5000);
    assert_eq!(m.user_stats("main").unwrap().memories_used, 0);
    assert!(m.check_memory_limit("nobody").is_ok());
    assert_eq!(m.check_and_increment_memory("nobody").unwrap_err(), "user not found");
}

#[test]
fn subaccount_refusals() {
    let mut m = manager();
    m.register("main", "k-main", UserPlan::Free, "123456").unwrap();
    assert_eq!(
        m.create_subaccount("main", "", "abcdef").unwrap_err(),
        "user_id must be 1-64 characters"
    );
    assert_eq!(
        m.create_subaccount("main", "Admin", "abcdef").unwrap_err(),
        "this username is reserved"
    );
    assert_eq!(
        m.create_subaccount("main", "SunOrMe", "abcdef").unwrap_err(),
        "this username is reserved"
    );
    assert_eq!(
        m.create_subaccount("main", "bad id", "abcdef").unwrap_err(),
        "user_id: only a-z A-Z 0-9 - _ allowed"
    );
    assert_eq!(
        m.create_subaccount("nobody", "s1", "abcdef").unwrap_err(),
        "parent user not found"
    );
    m.create_subaccount("main", "s1", "abcdef").unwrap();
    assert_eq!(
        m.create_subaccount("main", "s1", "abcdef").unwrap_err(),
        "user already exists"
    );
    assert_eq!(
        m.create_subaccount("s1", "s2", "abcdef").unwrap_err(),
        "sub-accounts cannot create their own sub-accounts"
    );
    for i in 2..=10 {
        m.create_subaccount("main", &format!("s{i}"), "abcdef").unwrap();
    }
    assert_eq!(
        m.create_subaccount("main", "s11", "abcdef").unwrap_err(),
        "maximum 10 sub-accounts per main account"
    );
}

#[test]
fn revoke_and_delete() {
    let mut m = manager();
    m.register("main", "k-main", UserPlan::Free, "123456").unwrap();
    m.register("other", "k-other", UserPlan::Free, "123456").unwrap();
    m.create_subaccount("main", "s1", "abcdef").unwrap();
    assert_eq!(m.revoke_subaccount("other", "s1").unwrap_err(), "not your sub-account");
    assert_eq!(m.revoke_subaccount("main", "zz").unwrap_err(), "sub-account not found");
    m.revoke_subaccount("main", "s1").unwrap();
    assert!(m.user_stats("s1").is_none());
    assert!(m.user_stats("main").unwrap().sub_accounts.is_empty());
    assert_eq!(m.delete_user("sunorme").unwrap_err(), "cannot delete admin");
    assert_eq!(m.delete_user("ghost").unwrap_err(), "user not found");
    m.delete_user("other").unwrap();
    assert_eq!(m.total_users(), 1);
}

#[test]
fn api_key_reset() {
    let mut m = manager();
    m.register("a", "old-key", UserPlan::Free, "123456").unwrap();
    let k = m.reset_api_key("a").unwrap();
    assert!(is_key_shaped(&k));
    assert_eq!(m.user_stats("a").unwrap().api_key, k);
    assert!(m.authenticate("old-key").is_none());
    assert_eq!(m.reset_api_key("b").unwrap_err(), "user not found");
    assert!(is_key_shaped(&generate_api_key()));
}

#[test]
fn invite_codes_are_single_use() {
    let mut m = manager();
    assert_eq!(m.all_invite_codes(), vec!["CURRENTCODE", "P1", "P2"]);
    m.use_invite_code("P1").unwrap();
    assert_eq!(
        m.use_invite_code("P1").unwrap_err(),
        "invalid or expired invite code"
    );
    m.use_invite_code("CURRENTCODE").unwrap();
    assert_ne!(m.invite_code, "CURRENTCODE");
    assert_eq!(m.invite_code.len(), 32);
    assert_eq!(m.used_codes, vec!["P1".to_string(), "CURRENTCODE".to_string()]);
    m.refund_invite_code("P1");
    assert_eq!(m.pending_codes, vec!["P2".to_string(), "P1".to_string()]);
    assert_eq!(m.used_codes, vec!["CURRENTCODE".to_string()]);
    assert_eq!(m.current_invite_code(), "P2");
    let batch = m.generate_batch_codes(3);
    assert_eq!(batch.len(), 3);
    assert_eq!(m.pending_codes.len(), 5);
    let alphabet = "ABCDEFGHJKLMNPQRSTUVWXYZabcdefghjkmnpqrstuvwxyz23456789";
    let code = generate_invite_code();
    assert_eq!(code.len(), 32);
    assert!(code.chars().all(|c| alphabet.contains(c)));
}

#[test]
fn empty_stored_invite_is_replaced() {
    let m = UserManager::new(Vec::new(), String::new(), vec!["old".to_string()], Vec::new(), Vec::new());
    assert_eq!(m.invite_code.len(), 32);
    assert!(m.used_codes.is_empty());
}

#[test]
fn owners_and_reserved_ids() {
    assert_eq!(owner_ids(None), vec!["sunorme".to_string()]);
    assert_eq!(
        owner_ids(Some(" Alice , ,BOB")),
        vec!["alice".to_string(), "bob".to_string()]
    );
    let m = manager();
    assert!(m.is_privileged_id("SUNORME"));
    assert!(!m.is_privileged_id("alice"));
    assert!(m.is_reserved_id("root"));
    assert!(m.is_reserved_id("ADMIN"));
    assert!(!m.is_reserved_id("administrator"));
}

#[test]
fn user_id_validation() {
    assert!(is_valid_user_id("user-1_A"));
    assert!(!is_valid_user_id(""));
    assert!(!is_valid_user_id("../etc"));
    assert!(!is_valid_user_id(&"a".repeat(65)));
    assert!(is_valid_user_id(&"a".repeat(64)));
}

#[test]
fn engine_access_single_flight() {
    let mut m = manager();
    m.register("u1", "k", UserPlan::Free, "123456").unwrap();
    assert_eq!(m.begin_engine_access("bad id").unwrap_err(), "invalid user_id");
    assert_eq!(m.engine_trigger_gate("u1"), Ok(EngineAccess::Load));
    assert_eq!(m.engine_trigger_gate("ghost"), Err(PersonaState::Degraded));
    assert_eq!(m.begin_engine_access("u1"), Ok(EngineAccess::Load));
    assert!(m.is_loading("u1"));
    assert_eq!(m.begin_engine_access("u1").unwrap_err(), "PERSONA_WARMING_UP");
    assert_eq!(m.engine_trigger_gate("u1"), Err(PersonaState::WarmingUp));
    assert_eq!(
        m.begin_engine_access_strict("u1").unwrap_err(),
        "PERSONA_WARMING_UP"
    );
    assert!(m.finish_engine_load("u1", 7, 1_000));
    assert!(!m.is_loading("u1"));
    assert_eq!(m.user_stats("u1").unwrap().memories_used, 7);
    assert_eq!(m.get_persona_state("u1"), PersonaState::Ready);
    assert_eq!(m.begin_engine_access("u1"), Ok(EngineAccess::UseLoaded));
    assert_eq!(m.active_users(), 1);
    assert!(!m.is_loop_started("u1"));
    m.mark_loop_started("u1");
    assert!(m.is_loop_started("u1"));
    m.set_has_primary_executor("u1", true);
    assert!(m.has_primary_executor("u1"));
    assert!(!m.has_primary_executor("ghost"));
    assert_eq!(m.get_persona_state("ghost"), PersonaState::Unknown);
}

#[test]
fn loading_marks() {
    let mut m = manager();
    assert!(m.try_mark_loading("x"));
    assert!(!m.try_mark_loading("x"));
    m.mark_loading("x");
    assert_eq!(m.loading_users.len(), 1);
    m.clear_loading("x");
    assert!(!m.is_loading("x"));
}

#[test]
fn idle_engines_are_evicted() {
    let mut m = manager();
    m.finish_engine_load("a", 0, 0);
    m.finish_engine_load("b", 0, 3_000_000);
    m.touch_at("a", 10_000);
    // At 3 700 s "a" has been idle for 3 690 s, "b" for 700 s.
    let evicted = m.evict_idle_with_at(3600, 3_700_000);
    assert_eq!(evicted, vec!["a".to_string()]);
    assert_eq!(m.active_users(), 1);
    assert!(m.evict_idle_with_at(3600, 3_700_000).is_empty());
}

#[test]
fn legacy_hash_with_a_given_salt() {
    let salt = [7u8; 32];
    let h = legacy_hash_with_salt("secret", &salt);
    let mut data = salt.to_vec();
    data.extend_from_slice("secret".as_bytes());
    let digest = sha2::Sha256::digest(&data);
    let b64 = base64::engine::general_purpose::STANDARD;
    assert_eq!(h, format!("{}:{}", b64.encode(salt), b64.encode(digest)));
    assert!(verify_password("secret", &h));
    assert!(!verify_password("other", &h));
}

#[test]
fn api_keys_carry_the_uuid_without_hyphens() {
    assert_eq!(
        api_key_from_uuid("123e4567-e89b-42d3-a456-426614174000"),
        "tm-123e4567e89b42d3a456426614174000"
    );
    for _ in 0..20 {
        let k: Vec<char> = generate_api_key().chars().collect();
        assert_eq!(k.len(), 35);
        assert_eq!(k[15], '4');
        assert!(matches!(k[19], '8' | '9' | 'a' | 'b'));
    }
}
