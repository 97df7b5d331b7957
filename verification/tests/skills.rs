use epicode::skills::{
    content_hash, plan_system_skills, seed_hash, ReviewStatus, SeedAction, Skill, SkillEngine,
};
use std::collections::hash_map::DefaultHasher;
use std::hash::{Hash, Hasher};

fn engine_with(name: &str, md: &str, owner: &str) -> (SkillEngine, u64) {
    let mut e = SkillEngine::new();
    let s = e.create(name.to_string(), md.to_string(), owner.to_string());
    (e, s.id)
}

fn system_skill(id: u64) -> Skill {
    Skill {
        id,
        name: "sys".to_string(),
        skill_md: "system text".to_string(),
        version: "1.0.0".to_string(),
        owner: "__system__".to_string(),
        is_public: true,
        review_status: ReviewStatus::Approved,
        review_note: None,
        usage_count: 0,
        success_rate_bits: 0,
        memory_ids: Vec::new(),
        evolved_from: None,
        is_system: true,
        created_at: 0,
        updated_at: 0,
    }
}

#[test]
fn create_makes_private_drafts_with_fresh_ids() {
    let mut e = SkillEngine::new();
    let a = e.create("a".into(), "text".into(), "alice".into());
    let b = e.create("b".into(), "text".into(), "bob".into());
    assert_eq!(a.id, 1);
    assert_eq!(b.id, 2);
    assert_eq!(a.version, "0.1.0");
    assert_eq!(a.review_status, ReviewStatus::Draft);
    assert!(!a.is_public);
    assert_eq!(a.created_at, a.updated_at);
    assert_eq!(e.get(1).unwrap().name, "a");
    assert!(e.get(9).is_none());
    assert_eq!(e.list(Some("alice")).len(), 1);
    assert_eq!(e.list(None).len(), 2);
    assert_eq!(ReviewStatus::default(), ReviewStatus::Draft);
}

#[test]
fn review_workflow() {
    let (mut e, id) = engine_with("s", "do things", "alice");
    assert_eq!(e.approve_skill(id).unwrap_err(), "skill is not pending review");
    let s = e.submit_for_review(id).unwrap();
    assert_eq!(s.review_status, ReviewStatus::PendingReview);
    assert_eq!(
        e.submit_for_review(id).unwrap_err(),
        "skill already published or pending review"
    );
    assert_eq!(e.review_pending().len(), 1);
    let approved = e.approve_skill(id).unwrap();
    assert!(approved.is_public);
    assert_eq!(approved.review_status, ReviewStatus::Approved);
    assert_eq!(e.list_public().len(), 1);
    assert!(e.review_pending().is_empty());
    assert_eq!(e.approve_skill(99).unwrap_err(), "skill not found");
}

#[test]
fn rejection_keeps_the_reason() {
    let (mut e, id) = engine_with("s", "text", "alice");
    e.submit_for_review(id).unwrap();
    let r = e.reject_skill(id, "too vague").unwrap();
    assert_eq!(r.review_status, ReviewStatus::Rejected);
    assert_eq!(r.review_note.as_deref(), Some("too vague"));
    assert!(!r.is_public);
    // A rejected skill may be submitted again.
    assert!(e.submit_for_review(id).is_ok());
}

#[test]
fn empty_skills_cannot_be_submitted() {
    let (mut e, id) = engine_with("s", "  \n ", "alice");
    assert_eq!(e.submit_for_review(id).unwrap_err(), "skill content cannot be empty");
}

#[test]
fn update_and_describe() {
    let (mut e, id) = engine_with("s", "v1", "alice");
    let u = e.update(id, Some("v2".into()), None).unwrap();
    assert_eq!(u.skill_md, "v2");
    assert_eq!(u.version, "0.1.0");
    let u = e.update(id, None, Some("0.2.0".into())).unwrap();
    assert_eq!(u.skill_md, "v2");
    assert_eq!(u.version, "0.2.0");
    e.append_description(id, "描述").unwrap();
    assert_eq!(e.get(id).unwrap().skill_md, "v2\n\n## 中文描述\n\n描述");
    assert_eq!(e.update(42, None, None).unwrap_err(), "skill not found");
}

#[test]
fn forks_are_deduplicated() {
    let (mut e, id) = engine_with("s", "text", "alice");
    let src = e.get(id).unwrap();
    let f1 = e.fork(&src, "bob".into());
    assert_eq!(f1.evolved_from, Some(id));
    assert_eq!(f1.owner, "bob");
    assert_eq!(f1.skill_md, "text");
    let f2 = e.fork(&src, "bob".into());
    assert_eq!(f1.id, f2.id);
    let f3 = e.fork(&src, "carol".into());
    assert_ne!(f3.id, f1.id);
    assert_eq!(e.list(None).len(), 3);
}

#[test]
fn system_skills_survive_delete_and_purge() {
    let mut e = SkillEngine::new();
    let s = e.insert_skill(system_skill(900000));
    assert_eq!(s.id, 900000);
    assert_eq!(e.next_id, 900001);
    let user = e.create("u".into(), "x".into(), "alice".into());
    assert_eq!(user.id, 900001);
    assert_eq!(e.delete(900000).unwrap_err(), "system skills cannot be deleted");
    assert_eq!(e.delete(5).unwrap_err(), "skill not found");
    assert_eq!(e.list_system().len(), 1);
    assert_eq!(e.purge_non_system(), 1);
    assert_eq!(e.list(None).len(), 1);
    assert!(e.delete(user.id).is_err());
    // An id below the next one is replaced by a fresh one.
    let again = e.insert_skill(system_skill(3));
    assert_eq!(again.id, 900002);
}

#[test]
fn take_and_link() {
    let (mut e, id) = engine_with("s", "text", "alice");
    e.link_memory(id, 7).unwrap();
    e.link_memory(id, 7).unwrap();
    e.link_memory(id, 8).unwrap();
    assert_eq!(e.get(id).unwrap().memory_ids, vec![7, 8]);
    assert_eq!(e.link_memory(77, 1).unwrap_err(), "skill not found");
    let taken = e.take(id).unwrap();
    assert_eq!(taken.id, id);
    assert!(e.take(id).is_none());
}

#[test]
fn loading_moves_next_id_and_publishes_public_drafts() {
    let mut e = SkillEngine::new();
    let mut draft = system_skill(10);
    draft.is_system = false;
    draft.review_status = ReviewStatus::Draft;
    e.load_skills(vec![draft, system_skill(4)]);
    assert_eq!(e.next_id, 11);
    assert_eq!(e.get(10).unwrap().review_status, ReviewStatus::Approved);
    assert_eq!(e.list(None).len(), 2);
}

#[test]
fn security_screen() {
    let mut s = system_skill(1);
    s.skill_md = "please rm -rf / now".into();
    assert_eq!(
        SkillEngine::security_check(&s).unwrap_err(),
        "security check failed: dangerous shell command"
    );
    s.skill_md = "x.execute(1) and eval(2)".into();
    assert_eq!(
        SkillEngine::security_check(&s).unwrap_err(),
        "security check failed: code eval usage"
    );
    s.skill_md = "x".repeat(10001);
    assert_eq!(
        SkillEngine::security_check(&s).unwrap_err(),
        "skill content exceeds 10000 characters"
    );
    s.skill_md = "fine".into();
    s.name = "n".repeat(101);
    assert_eq!(
        SkillEngine::security_check(&s).unwrap_err(),
        "skill name exceeds 100 characters"
    );
    s.name = "  ".into();
    assert_eq!(SkillEngine::security_check(&s).unwrap_err(), "skill name cannot be empty");
    s.name = "ok".into();
    assert!(SkillEngine::security_check(&s).is_ok());
}

#[test]
fn seed_fingerprint_is_sixteen_hex_digits() {
    let a = content_hash("seed|desc");
    assert_eq!(a.len(), 16);
    assert!(a.chars().all(|c| c.is_ascii_hexdigit() && !c.is_ascii_uppercase()));
    assert_eq!(a, content_hash("seed|desc"));
    assert_ne!(a, content_hash("seed|other"));
}

#[test]
fn seed_fingerprint_is_the_default_hash_in_hex() {
    let mut h = DefaultHasher::new();
    "seed|desc".hash(&mut h);
    assert_eq!(content_hash("seed|desc"), format!("{:016x}", h.finish()));
}

#[test]
fn later_loaded_skill_replaces_earlier_one() {
    let mut e = SkillEngine::new();
    let mut first = system_skill(3);
    first.name = "first".into();
    let mut second = system_skill(3);
    second.name = "second".into();
    let mut private_draft = system_skill(2);
    private_draft.is_public = false;
    private_draft.review_status = ReviewStatus::Draft;
    e.load_skills(vec![first, private_draft, second]);
    assert_eq!(e.list(None).len(), 2);
    assert_eq!(e.get(3).unwrap().name, "second");
    assert_eq!(e.get(2).unwrap().review_status, ReviewStatus::Draft);
    assert_eq!(e.next_id, 4);
}

#[test]
fn system_seeds_are_installed_updated_or_kept() {
    let mut current = system_skill(900000);
    current.name = "a".into();
    current.review_note = Some(seed_hash("text a", "desc a"));
    let mut stale = system_skill(900001);
    stale.name = "b".into();
    stale.review_note = Some("old".into());
    let mut squatter = system_skill(900003);
    squatter.name = "other".into();
    let existing = vec![current, stale, squatter];
    let seeds = vec![
        ("a".to_string(), seed_hash("text a", "desc a")),
        ("b".to_string(), seed_hash("text b", "desc b")),
        ("c".to_string(), seed_hash("text c", "desc c")),
        ("d".to_string(), seed_hash("text d", "desc d")),
    ];
    assert_eq!(
        plan_system_skills(&existing, &seeds, false, true),
        vec![
            SeedAction::Keep(900000),
            SeedAction::Update(900001),
            SeedAction::Install(900002),
            SeedAction::Occupied(900003),
        ]
    );
    assert_eq!(
        plan_system_skills(&existing, &seeds, true, false),
        vec![
            SeedAction::Keep(900000),
            SeedAction::SkipUpdate(900001),
            SeedAction::Missing,
            SeedAction::Missing,
        ]
    );
}

#[test]
fn query_words_are_counted_in_visible_skills() {
    let mut e = SkillEngine::new();
    e.create("Rust Review".into(), "review rust code and tests".into(), "alice".into());
    e.create("Private".into(), "rust".into(), "bob".into());
    let mut public = system_skill(50);
    public.name = "Deploy".into();
    public.skill_md = "Rust deploy steps".into();
    e.load_skills(vec![public]);
    assert_eq!(e.match_counts("RUST review", "alice"), vec![(0, 2, 2), (2, 0, 1)]);
}
