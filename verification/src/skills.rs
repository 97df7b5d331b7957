//! Skills: user-authored instructions with a review workflow (draft,
//! pending review, approved and published, or rejected), forking, memory
//! links and a content security screen.

use vstd::prelude::*;
use std::hash::Hash;
use std::hash::Hasher;
use std::collections::hash_map::DefaultHasher;
use vstd::std_specs::hash::DefaultHasherAdditionalSpecFns;
use crate::accounts::opt_chars;
use crate::hashing::{hex16, push_hex16};
use crate::strs::{
    contains, contains_seq, from_chars, push_str_chars, split_whitespace, str_eq, strings_view, to_chars,
    to_lowercase, trim, trim_seq, unicode_lowercase, words,
};

verus! {

broadcast use vstd::utf8::group_utf8_lib;

/// Where a skill stands in review.
#[derive(Clone, Copy, Debug, PartialEq, Eq, Structural)]
pub enum ReviewStatus {
    Draft,
    PendingReview,
    Approved,
    Rejected,
}

impl Default for ReviewStatus {
    fn default() -> (r: ReviewStatus)
        ensures
            r == ReviewStatus::Draft,
    {
        ReviewStatus::Draft
    }
}

/// A skill. Its success rate, a float, is carried as its IEEE-754 bits.
#[derive(Debug)]
pub struct Skill {
    pub id: u64,
    pub name: String,
    pub skill_md: String,
    pub version: String,
    pub owner: String,
    pub is_public: bool,
    pub review_status: ReviewStatus,
    pub review_note: Option<String>,
    pub usage_count: u64,
    pub success_rate_bits: u64,
    pub memory_ids: Vec<u64>,
    pub evolved_from: Option<u64>,
    pub is_system: bool,
    pub created_at: i64,
    pub updated_at: i64,
}

/// Whether two skills hold the same values.
pub open spec fn same_skill(a: Skill, b: Skill) -> bool {
    &&& a.id == b.id
    &&& a.name@ == b.name@
    &&& a.skill_md@ == b.skill_md@
    &&& a.version@ == b.version@
    &&& a.owner@ == b.owner@
    &&& a.is_public == b.is_public
    &&& a.review_status == b.review_status
    &&& opt_chars(a.review_note) == opt_chars(b.review_note)
    &&& a.usage_count == b.usage_count
    &&& a.success_rate_bits == b.success_rate_bits
    &&& a.memory_ids@ == b.memory_ids@
    &&& a.evolved_from == b.evolved_from
    &&& a.is_system == b.is_system
    &&& a.created_at == b.created_at
    &&& a.updated_at == b.updated_at
}

/// Whether two sequences of skills hold the same values, in order.
pub open spec fn same_skills(a: Seq<Skill>, b: Seq<Skill>) -> bool {
    a.len() == b.len() && forall|i: int| 0 <= i < a.len() ==> same_skill(#[trigger] a[i], b[i])
}

impl Clone for Skill {
    fn clone(&self) -> (r: Self)
        ensures
            same_skill(r, *self),
    {
        Skill {
            id: self.id,
            name: self.name.clone(),
            skill_md: self.skill_md.clone(),
            version: self.version.clone(),
            owner: self.owner.clone(),
            is_public: self.is_public,
            review_status: self.review_status,
            review_note: match &self.review_note {
                Some(n) => Some(n.clone()),
                None => None,
            },
            usage_count: self.usage_count,
            success_rate_bits: self.success_rate_bits,
            memory_ids: self.memory_ids.clone(),
            evolved_from: self.evolved_from,
            is_system: self.is_system,
            created_at: self.created_at,
            updated_at: self.updated_at,
        }
    }
}

/// The skills of `s` that satisfy `keep`, in order.
pub open spec fn skills_where(s: Seq<Skill>, keep: spec_fn(Skill) -> bool) -> Seq<Skill>
    decreases s.len(),
{
    if s.len() == 0 {
        s
    } else {
        let rest = skills_where(s.drop_last(), keep);
        if keep(s.last()) {
            rest.push(s.last())
        } else {
            rest
        }
    }
}

/// Position of the skill `id`, or the number of skills if none.
/// A skill as it is taken in from storage: a public draft counts as
/// approved.
pub open spec fn as_loaded(s: Skill) -> Skill {
    if s.is_public && s.review_status == ReviewStatus::Draft {
        Skill { review_status: ReviewStatus::Approved, ..s }
    } else {
        s
    }
}

/// `s` with `x` stored under its id: it replaces the skill with that id,
/// or is appended.
pub open spec fn put_spec(s: Seq<Skill>, x: Skill) -> Seq<Skill> {
    let p = skill_pos(s, x.id);
    if p < s.len() {
        s.update(p, x)
    } else {
        s.push(x)
    }
}

/// The skills after taking in `loaded` in order, each as [`as_loaded`]
/// gives it: a later skill replaces an earlier one with the same id.
pub open spec fn load_fold(s: Seq<Skill>, loaded: Seq<Skill>) -> Seq<Skill>
    decreases loaded.len(),
{
    if loaded.len() == 0 {
        s
    } else {
        put_spec(load_fold(s, loaded.drop_last()), as_loaded(loaded.last()))
    }
}

/// The next id after taking in `loaded`: the larger of `n` and one past
/// every loaded id.
pub open spec fn next_after(n: u64, loaded: Seq<Skill>) -> int
    decreases loaded.len(),
{
    if loaded.len() == 0 {
        n as int
    } else {
        let m = next_after(n, loaded.drop_last());
        if loaded.last().id >= m {
            loaded.last().id + 1
        } else {
            m
        }
    }
}

/// Skills that agree field by field sit at the same positions by id.
proof fn lemma_skill_pos_same(a: Seq<Skill>, b: Seq<Skill>, id: u64)
    requires
        same_skills(a, b),
    ensures
        skill_pos(a, id) == skill_pos(b, id),
    decreases a.len(),
{
    if a.len() > 0 {
        assert(same_skill(a[0], b[0]));
        assert(same_skills(a.drop_first(), b.drop_first())) by {
            assert forall|i: int| 0 <= i < a.drop_first().len() implies same_skill(
                #[trigger] a.drop_first()[i],
                b.drop_first()[i],
            ) by {
                assert(same_skill(a[i + 1], b[i + 1]));
            }
        }
        lemma_skill_pos_same(a.drop_first(), b.drop_first(), id);
    }
}

/// Storing agreeing skills into agreeing sequences gives agreeing sequences.
proof fn lemma_put_same(a: Seq<Skill>, b: Seq<Skill>, x: Skill, y: Skill)
    requires
        same_skills(a, b),
        same_skill(x, y),
    ensures
        same_skills(put_spec(a, x), put_spec(b, y)),
{
    lemma_skill_pos_same(a, b, x.id);
    assert(a.len() == b.len());
    assert(x.id == y.id);
    let p = skill_pos(a, x.id);
    assert(skill_pos(b, y.id) == p);
    lemma_skill_pos_is_bounded(a, x.id);
    let ra = put_spec(a, x);
    let rb = put_spec(b, y);
    if p < a.len() {
        assert(ra == a.update(p, x) && rb == b.update(p, y));
    } else {
        assert(ra == a.push(x) && rb == b.push(y));
    }
    assert(ra.len() == rb.len());
    assert forall|i: int| 0 <= i < ra.len() implies same_skill(#[trigger] ra[i], rb[i]) by {
        if i < a.len() && i != p {
            assert(same_skill(a[i], b[i]));
        }
    }
}

pub open spec fn skill_pos(s: Seq<Skill>, id: u64) -> int
    decreases s.len(),
{
    if s.len() == 0 {
        0
    } else if s[0].id == id {
        0
    } else {
        1 + skill_pos(s.drop_first(), id)
    }
}

proof fn lemma_skill_pos_is(s: Seq<Skill>, id: u64, i: int)
    requires
        0 <= i <= s.len(),
        forall|j: int| 0 <= j < i ==> s[j].id != id,
        i == s.len() || s[i].id == id,
    ensures
        skill_pos(s, id) == i,
    decreases s.len(),
{
    if s.len() > 0 && i > 0 {
        assert forall|j: int| 0 <= j < i - 1 implies s.drop_first()[j].id != id by {
            assert(s.drop_first()[j] == s[j + 1]);
        }
        lemma_skill_pos_is(s.drop_first(), id, i - 1);
    }
}

fn find_skill(skills: &Vec<Skill>, id: u64) -> (r: usize)
    ensures
        r as int == skill_pos(skills@, id),
        r <= skills@.len(),
        r < skills@.len() ==> skills@[r as int].id == id,
        r == skills@.len() ==> forall|j: int| 0 <= j < skills@.len() ==> skills@[j].id != id,
{
    let mut i: usize = 0;
    while i < skills.len()
        invariant
            i <= skills@.len(),
            forall|j: int| 0 <= j < i ==> skills@[j].id != id,
        decreases skills.len() - i,
    {
        if skills[i].id == id {
            proof {
                lemma_skill_pos_is(skills@, id, i as int);
            }
            return i;
        }
        i += 1;
    }
    proof {
        lemma_skill_pos_is(skills@, id, i as int);
    }
    i
}

/// Copies of the skills of `skills` that `keep` accepts.
fn collect_where(skills: &Vec<Skill>, Ghost(keep): Ghost<spec_fn(Skill) -> bool>, test: impl Fn(&Skill) -> bool) -> (r: Vec<Skill>)
    requires
        forall|s: &Skill| #[trigger] test.requires((s,)),
        forall|s: &Skill, b: bool| test.ensures((s,), b) ==> b == keep(*s),
    ensures
        same_skills(r@, skills_where(skills@, keep)),
{
    let mut out: Vec<Skill> = Vec::new();
    let mut i: usize = 0;
    while i < skills.len()
        invariant
            i <= skills@.len(),
            forall|s: &Skill| #[trigger] test.requires((s,)),
            forall|s: &Skill, b: bool| test.ensures((s,), b) ==> b == keep(*s),
            same_skills(out@, skills_where(skills@.take(i as int), keep)),
        decreases skills.len() - i,
    {
        proof {
            assert(skills@.take(i + 1).drop_last() =~= skills@.take(i as int));
            assert(skills@.take(i + 1).last() == skills@[i as int]);
        }
        if test(&skills[i]) {
            let c = skills[i].clone();
            out.push(c);
        }
        i += 1;
    }
    assert(skills@.take(skills@.len() as int) =~= skills@);
    out
}

// ---------------------------------------------------------------------------
// Security screen
// ---------------------------------------------------------------------------

/// Dangerous pattern `i` and why it is refused.
pub open spec fn danger(i: int) -> (Seq<char>, Seq<char>) {
    if i == 0 {
        ("rm -rf"@, "dangerous shell command"@)
    } else if i == 1 {
        ("DROP TABLE"@, "SQL drop statement"@)
    } else if i == 2 {
        ("DELETE FROM"@, "SQL delete statement"@)
    } else if i == 3 {
        ("eval("@, "code eval usage"@)
    } else if i == 4 {
        ("exec("@, "code exec usage"@)
    } else if i == 5 {
        ("system("@, "system command execution"@)
    } else if i == 6 {
        ("__import__"@, "Python import exploit"@)
    } else if i == 7 {
        ("Process("@, "process spawn"@)
    } else {
        (".execute("@, "command execution"@)
    }
}

pub const DANGER_COUNT: usize = 9;

fn danger_at(i: usize) -> (r: (&'static str, &'static str))
    requires
        i < DANGER_COUNT,
    ensures
        (r.0@, r.1@) == danger(i as int),
{
    if i == 0 {
        ("rm -rf", "dangerous shell command")
    } else if i == 1 {
        ("DROP TABLE", "SQL drop statement")
    } else if i == 2 {
        ("DELETE FROM", "SQL delete statement")
    } else if i == 3 {
        ("eval(", "code eval usage")
    } else if i == 4 {
        ("exec(", "code exec usage")
    } else if i == 5 {
        ("system(", "system command execution")
    } else if i == 6 {
        ("__import__", "Python import exploit")
    } else if i == 7 {
        ("Process(", "process spawn")
    } else {
        (".execute(", "command execution")
    }
}

/// Index of the first dangerous pattern in `md`, or the pattern count.
pub open spec fn first_danger(md: Seq<char>, from: int) -> int
    decreases DANGER_COUNT - from,
{
    if from >= DANGER_COUNT {
        DANGER_COUNT as int
    } else if contains_seq(md, danger(from).0) {
        from
    } else {
        first_danger(md, from + 1)
    }
}

/// Why a skill fails the security screen, if it does: a dangerous
/// pattern in its text (the first in the list), text over 10000 bytes,
/// a name over 100 bytes, or a blank name.
pub open spec fn security_refusal(s: Skill) -> Option<Seq<char>> {
    let d = first_danger(s.skill_md@, 0);
    if d < DANGER_COUNT {
        Some("security check failed: "@ + danger(d).1)
    } else if vstd::utf8::encode_utf8(s.skill_md@).len() > 10000 {
        Some("skill content exceeds 10000 characters"@)
    } else if vstd::utf8::encode_utf8(s.name@).len() > 100 {
        Some("skill name exceeds 100 characters"@)
    } else if trim_seq(s.name@).len() == 0 {
        Some("skill name cannot be empty"@)
    } else {
        None
    }
}

// ---------------------------------------------------------------------------
// The engine
// ---------------------------------------------------------------------------

/// Every skill of the registry, keyed by id.
pub struct SkillEngine {
    /// The skills, in insertion order, ids distinct.
    pub skills: Vec<Skill>,
    /// The id the next new skill gets; above every id in use.
    pub next_id: u64,
}

/// The text appended to a skill when a description is added.
pub open spec fn description_section(d: Seq<char>) -> Seq<char> {
    "\n\n## 中文描述\n\n"@ + d
}

/// Whether `s` is the skill made by `create`.
pub open spec fn fresh_skill(s: Skill, id: u64, name: Seq<char>, md: Seq<char>, owner: Seq<char>) -> bool {
    &&& s.id == id
    &&& s.name@ == name
    &&& s.skill_md@ == md
    &&& s.version@ == "0.1.0"@
    &&& s.owner@ == owner
    &&& !s.is_public
    &&& s.review_status == ReviewStatus::Draft
    &&& s.review_note is None
    &&& s.usage_count == 0
    &&& s.success_rate_bits == 0
    &&& s.memory_ids@.len() == 0
    &&& s.evolved_from is None
    &&& !s.is_system
    &&& s.created_at == s.updated_at
}

impl SkillEngine {
    /// Ids are distinct and below `next_id`.
    pub open spec fn wf(&self) -> bool {
        &&& forall|i: int, j: int|
            0 <= i < j < self.skills@.len() ==> self.skills@[i].id != self.skills@[j].id
        &&& forall|i: int| 0 <= i < self.skills@.len() ==> #[trigger] self.skills@[i].id < self.next_id
    }

    /// An empty registry whose first id is 1.
    pub fn new() -> (r: SkillEngine)
        ensures
            r.wf(),
            r.skills@.len() == 0,
            r.next_id == 1,
    {
        SkillEngine { skills: Vec::new(), next_id: 1 }
    }

    fn alloc_id(&mut self) -> (id: u64)
        requires
            old(self).next_id < u64::MAX,
        ensures
            id == old(self).next_id,
            final(self).next_id == old(self).next_id + 1,
            final(self).skills == old(self).skills,
    {
        let id = self.next_id;
        self.next_id = id + 1;
        id
    }

    /// Stores `s` under its id, replacing a skill with the same id.
    fn put(&mut self, s: Skill)
        requires
            old(self).wf(),
            s.id < old(self).next_id,
        ensures
            final(self).wf(),
            final(self).next_id == old(self).next_id,
            ({
                let p = skill_pos(old(self).skills@, s.id);
                final(self).skills@ == if p < old(self).skills@.len() {
                    old(self).skills@.update(p, s)
                } else {
                    old(self).skills@.push(s)
                }
            }),
    {
        let p = find_skill(&self.skills, s.id);
        if p < self.skills.len() {
            self.skills.set(p, s);
        } else {
            self.skills.push(s);
        }
    }

    /// Takes in stored skills: each is stored under its id (a later one
    /// replaces an earlier one with the same id), the next id moves past
    /// every id seen, and public drafts count as approved.
    pub fn load_skills(&mut self, loaded: Vec<Skill>)
        requires
            old(self).wf(),
            forall|i: int| 0 <= i < loaded@.len() ==> #[trigger] loaded@[i].id < u64::MAX,
        ensures
            final(self).wf(),
            same_skills(final(self).skills@, load_fold(old(self).skills@, loaded@)),
            final(self).next_id == next_after(old(self).next_id, loaded@),
            final(self).next_id >= old(self).next_id,
            forall|i: int| 0 <= i < loaded@.len() ==> #[trigger] loaded@[i].id < final(self).next_id,
            forall|i: int|
                0 <= i < loaded@.len() ==> skill_pos(final(self).skills@, #[trigger] loaded@[i].id)
                    < final(self).skills@.len(),
    {
        let mut i: usize = 0;
        while i < loaded.len()
            invariant
                self.wf(),
                self.next_id >= old(self).next_id,
                i <= loaded@.len(),
                same_skills(self.skills@, load_fold(old(self).skills@, loaded@.take(i as int))),
                self.next_id == next_after(old(self).next_id, loaded@.take(i as int)),
                forall|k: int| 0 <= k < loaded@.len() ==> #[trigger] loaded@[k].id < u64::MAX,
                forall|k: int| 0 <= k < i ==> #[trigger] loaded@[k].id < self.next_id,
                forall|k: int|
                    0 <= k < i ==> skill_pos(self.skills@, #[trigger] loaded@[k].id) < self.skills@.len(),
            decreases loaded.len() - i,
        {
            let mut s = loaded[i].clone();
            assert(s.id == loaded@[i as int].id);
            if s.id >= self.next_id {
                self.next_id = s.id + 1;
            }
            if s.is_public && s.review_status == ReviewStatus::Draft {
                s.review_status = ReviewStatus::Approved;
            }
            let ghost before = self.skills@;
            proof {
                let t = loaded@.take(i as int + 1);
                assert(t.drop_last() =~= loaded@.take(i as int));
                assert(t.last() == loaded@[i as int]);
                assert(same_skill(s, as_loaded(loaded@[i as int])));
                lemma_put_same(before, load_fold(old(self).skills@, loaded@.take(i as int)), s, as_loaded(loaded@[i as int]));
            }
            self.put(s);
            proof {
                assert forall|k: int| 0 <= k <= i implies skill_pos(self.skills@, #[trigger] loaded@[k].id)
                    < self.skills@.len() by {
                    if k < i {
                        lemma_put_keeps(before, s, loaded@[k].id);
                    } else {
                        lemma_put_keeps(before, s, s.id);
                    }
                }
            }
            i += 1;
        }
        assert(loaded@.take(loaded@.len() as int) =~= loaded@);
    }

    /// Links a memory to a skill (once).
    pub fn link_memory(&mut self, skill_id: u64, memory_id: u64) -> (r: Result<(), String>)
        requires
            old(self).wf(),
        ensures
            final(self).wf(),
            final(self).next_id == old(self).next_id,
            ({
                let p = skill_pos(old(self).skills@, skill_id);
                if p >= old(self).skills@.len() {
                    r matches Err(m) && m@ == "skill not found"@ && final(self).skills == old(self).skills
                } else {
                    let s = old(self).skills@[p];
                    &&& r is Ok
                    &&& final(self).skills@.len() == old(self).skills@.len()
                    &&& forall|i: int| 0 <= i < old(self).skills@.len() && i != p ==> #[trigger] final(self).skills@[i] == old(self).skills@[i]
                    &&& final(self).skills@[p] == (Skill { memory_ids: final(self).skills@[p].memory_ids, ..s })
                    &&& final(self).skills@[p].memory_ids@ == if s.memory_ids@.contains(memory_id) {
                        s.memory_ids@
                    } else {
                        s.memory_ids@.push(memory_id)
                    }
                }
            }),
    {
        let p = find_skill(&self.skills, skill_id);
        if p == self.skills.len() {
            return Err("skill not found".to_owned());
        }
        let mut found = false;
        let mut i: usize = 0;
        while i < self.skills[p].memory_ids.len()
            invariant
                p < self.skills@.len(),
                self.skills == old(self).skills,
                i <= self.skills@[p as int].memory_ids@.len(),
                found <==> exists|j: int| 0 <= j < i && self.skills@[p as int].memory_ids@[j] == memory_id,
            decreases self.skills@[p as int].memory_ids@.len() - i,
        {
            if self.skills[p].memory_ids[i] == memory_id {
                found = true;
            }
            i += 1;
        }
        if !found {
            self.skills[p].memory_ids.push(memory_id);
        }
        Ok(())
    }

    /// Creates a private draft skill under a new id.
    pub fn create(&mut self, name: String, skill_md: String, owner: String) -> (r: Skill)
        requires
            old(self).wf(),
            old(self).next_id < u64::MAX,
        ensures
            final(self).wf(),
            fresh_skill(r, old(self).next_id, name@, skill_md@, owner@),
            final(self).next_id == old(self).next_id + 1,
            final(self).skills@.len() == old(self).skills@.len() + 1,
            final(self).skills@.take(old(self).skills@.len() as int) == old(self).skills@,
            same_skill(final(self).skills@.last(), r),
    {
        let now = crate::security::unix_now();
        let id = self.alloc_id();
        let skill = Skill {
            id,
            name,
            skill_md,
            version: "0.1.0".to_owned(),
            owner,
            is_public: false,
            review_status: ReviewStatus::Draft,
            review_note: None,
            usage_count: 0,
            success_rate_bits: 0,
            memory_ids: Vec::new(),
            evolved_from: None,
            is_system: false,
            created_at: now,
            updated_at: now,
        };
        proof {
            reveal_strlit("0.1.0");
        }
        let copy = skill.clone();
        self.skills.push(skill);
        assert(self.skills@.take(old(self).skills@.len() as int) =~= old(self).skills@);
        copy
    }

    /// The skill `id`, if any.
    pub fn get(&self, id: u64) -> (r: Option<Skill>)
        ensures
            ({
                let p = skill_pos(self.skills@, id);
                match r {
                    Some(s) => p < self.skills@.len() && same_skill(s, self.skills@[p]),
                    None => p >= self.skills@.len(),
                }
            }),
    {
        let p = find_skill(&self.skills, id);
        if p < self.skills.len() {
            Some(self.skills[p].clone())
        } else {
            None
        }
    }

    /// The skills of `owner`, or all skills.
    pub fn list(&self, owner: Option<&str>) -> (r: Vec<Skill>)
        ensures
            same_skills(
                r@,
                skills_where(
                    self.skills@,
                    |s: Skill|
                        match owner {
                            Some(o) => s.owner@ == o@,
                            None => true,
                        },
                ),
            ),
    {
        let keep = |s: &Skill| -> (b: bool)
            ensures
                b == match owner {
                    Some(o) => s.owner@ == o@,
                    None => true,
                },
            {
                match owner {
                    Some(o) => crate::strs::str_eq(s.owner.as_str(), o),
                    None => true,
                }
            };
        collect_where(
            &self.skills,
            Ghost(
                |s: Skill|
                    match owner {
                        Some(o) => s.owner@ == o@,
                        None => true,
                    },
            ),
            keep,
        )
    }

    /// The public skills.
    pub fn list_public(&self) -> (r: Vec<Skill>)
        ensures
            same_skills(r@, skills_where(self.skills@, |s: Skill| s.is_public)),
    {
        let keep = |s: &Skill| -> (b: bool)
            ensures
                b == s.is_public,
            { s.is_public };
        collect_where(&self.skills, Ghost(|s: Skill| s.is_public), keep)
    }

    /// The system skills.
    pub fn list_system(&self) -> (r: Vec<Skill>)
        ensures
            same_skills(r@, skills_where(self.skills@, |s: Skill| s.is_system)),
    {
        let keep = |s: &Skill| -> (b: bool)
            ensures
                b == s.is_system,
            { s.is_system };
        collect_where(&self.skills, Ghost(|s: Skill| s.is_system), keep)
    }

    /// The skills waiting for review.
    pub fn review_pending(&self) -> (r: Vec<Skill>)
        ensures
            same_skills(
                r@,
                skills_where(self.skills@, |s: Skill| s.review_status == ReviewStatus::PendingReview),
            ),
    {
        let keep = |s: &Skill| -> (b: bool)
            ensures
                b == (s.review_status == ReviewStatus::PendingReview),
            { s.review_status == ReviewStatus::PendingReview };
        collect_where(
            &self.skills,
            Ghost(|s: Skill| s.review_status == ReviewStatus::PendingReview),
            keep,
        )
    }

    /// Replaces a skill's text and version where given, and stamps it.
    pub fn update(&mut self, id: u64, skill_md: Option<String>, version: Option<String>) -> (r:
        Result<Skill, String>)
        requires
            old(self).wf(),
        ensures
            final(self).wf(),
            final(self).next_id == old(self).next_id,
            ({
                let p = skill_pos(old(self).skills@, id);
                if p >= old(self).skills@.len() {
                    r matches Err(m) && m@ == "skill not found"@ && final(self).skills == old(self).skills
                } else {
                    let s = old(self).skills@[p];
                    let t = final(self).skills@[p];
                    &&& final(self).skills@ == old(self).skills@.update(p, t)
                    &&& t == (Skill {
                        skill_md: match skill_md {
                            Some(m) => m,
                            None => s.skill_md,
                        },
                        version: match version {
                            Some(v) => v,
                            None => s.version,
                        },
                        updated_at: t.updated_at,
                        ..s
                    })
                    &&& r matches Ok(c) && same_skill(c, t)
                }
            }),
    {
        let p = find_skill(&self.skills, id);
        if p == self.skills.len() {
            return Err("skill not found".to_owned());
        }
        if let Some(md) = skill_md {
            self.skills[p].skill_md = md;
        }
        if let Some(v) = version {
            self.skills[p].version = v;
        }
        self.skills[p].updated_at = crate::security::unix_now();
        assert(self.skills@ =~= old(self).skills@.update(p as int, self.skills@[p as int]));
        Ok(self.skills[p].clone())
    }

    /// Appends a described section to a skill's text and stamps it.
    pub fn append_description(&mut self, id: u64, description: &str) -> (r: Result<(), String>)
        requires
            old(self).wf(),
        ensures
            final(self).wf(),
            final(self).next_id == old(self).next_id,
            ({
                let p = skill_pos(old(self).skills@, id);
                if p >= old(self).skills@.len() {
                    r matches Err(m) && m@ == "skill not found"@ && final(self).skills == old(self).skills
                } else {
                    let s = old(self).skills@[p];
                    let t = final(self).skills@[p];
                    &&& r is Ok
                    &&& final(self).skills@ == old(self).skills@.update(p, t)
                    &&& t == (Skill { skill_md: t.skill_md, updated_at: t.updated_at, ..s })
                    &&& t.skill_md@ == s.skill_md@ + description_section(description@)
                }
            }),
    {
        let p = find_skill(&self.skills, id);
        if p == self.skills.len() {
            return Err("skill not found".to_owned());
        }
        crate::strs::push_str(&mut self.skills[p].skill_md, "\n\n## 中文描述\n\n");
        crate::strs::push_str(&mut self.skills[p].skill_md, description);
        self.skills[p].updated_at = crate::security::unix_now();
        assert(self.skills@ =~= old(self).skills@.update(p as int, self.skills@[p as int]));
        Ok(())
    }

    /// Forks `source` for `new_owner` as a private draft; a fork of the same
    /// source by the same owner is returned instead of forking again.
    pub fn fork(&mut self, source: &Skill, new_owner: String) -> (r: Skill)
        requires
            old(self).wf(),
            old(self).next_id < u64::MAX,
        ensures
            final(self).wf(),
            ({
                let prior = skills_where(
                    old(self).skills@,
                    |s: Skill| s.evolved_from == Some(source.id) && s.owner@ == new_owner@,
                );
                if prior.len() > 0 {
                    &&& same_skill(r, prior[0])
                    &&& *final(self) == *old(self)
                } else {
                    &&& r.id == old(self).next_id
                    &&& r.name@ == source.name@
                    &&& r.skill_md@ == source.skill_md@
                    &&& r.version@ == source.version@
                    &&& r.owner@ == new_owner@
                    &&& !r.is_public
                    &&& r.review_status == ReviewStatus::Draft
                    &&& r.review_note is None
                    &&& r.usage_count == 0
                    &&& r.success_rate_bits == 0
                    &&& r.memory_ids@.len() == 0
                    &&& r.evolved_from == Some(source.id)
                    &&& !r.is_system
                    &&& r.created_at == r.updated_at
                    &&& final(self).next_id == old(self).next_id + 1
                    &&& final(self).skills@.len() == old(self).skills@.len() + 1
                    &&& final(self).skills@.take(old(self).skills@.len() as int) == old(self).skills@
                    &&& same_skill(final(self).skills@.last(), r)
                }
            }),
    {
        let ghost keep = |s: Skill| s.evolved_from == Some(source.id) && s.owner@ == new_owner@;
        let mut i: usize = 0;
        while i < self.skills.len()
            invariant
                *self == *old(self),
                self.wf(),
                i <= self.skills@.len(),
                keep == |s: Skill| s.evolved_from == Some(source.id) && s.owner@ == new_owner@,
                skills_where(self.skills@.take(i as int), keep).len() == 0,
            decreases self.skills.len() - i,
        {
            proof {
                assert(self.skills@.take(i + 1).drop_last() =~= self.skills@.take(i as int));
            }
            let s = &self.skills[i];
            if s.evolved_from == Some(source.id) && crate::strs::str_eq(s.owner.as_str(), new_owner.as_str()) {
                proof {
                    lemma_first_kept(self.skills@, keep, i as int);
                }
                return s.clone();
            }
            i += 1;
        }
        assert(self.skills@.take(self.skills@.len() as int) =~= self.skills@);
        let now = crate::security::unix_now();
        let id = self.alloc_id();
        let forked = Skill {
            id,
            name: source.name.clone(),
            skill_md: source.skill_md.clone(),
            version: source.version.clone(),
            owner: new_owner,
            is_public: false,
            review_status: ReviewStatus::Draft,
            review_note: None,
            usage_count: 0,
            success_rate_bits: 0,
            memory_ids: Vec::new(),
            evolved_from: Some(source.id),
            is_system: false,
            created_at: now,
            updated_at: now,
        };
        let copy = forked.clone();
        self.skills.push(forked);
        assert(self.skills@.take(old(self).skills@.len() as int) =~= old(self).skills@);
        copy
    }

    /// Stores a skill: it keeps its id when that id is not yet below the
    /// next one (which then moves past it), and gets a new id otherwise.
    pub fn insert_skill(&mut self, skill: Skill) -> (r: Skill)
        requires
            old(self).wf(),
            skill.id >= old(self).next_id ==> skill.id < u64::MAX,
            skill.id < old(self).next_id ==> old(self).next_id < u64::MAX,
        ensures
            final(self).wf(),
            ({
                let id = if skill.id >= old(self).next_id {
                    skill.id
                } else {
                    old(self).next_id
                };
                let stored = Skill { id, ..skill };
                let p = skill_pos(old(self).skills@, id);
                &&& final(self).next_id == id + 1
                &&& p == old(self).skills@.len()
                &&& final(self).skills@ == old(self).skills@.push(stored)
                &&& same_skill(r, stored)
            }),
    {
        let id = if skill.id >= self.next_id {
            self.next_id = skill.id + 1;
            skill.id
        } else {
            self.alloc_id()
        };
        let stored = Skill { id, ..skill };
        proof {
            lemma_skill_pos_is_bounded(self.skills@, id);
            if skill_pos(self.skills@, id) < self.skills@.len() {
                assert(self.skills@[skill_pos(self.skills@, id)].id < old(self).next_id);
            }
        }
        let copy = stored.clone();
        self.put(stored);
        copy
    }

    /// Removes and returns the skill `id`, if any.
    pub fn take(&mut self, id: u64) -> (r: Option<Skill>)
        requires
            old(self).wf(),
        ensures
            final(self).wf(),
            final(self).next_id == old(self).next_id,
            ({
                let p = skill_pos(old(self).skills@, id);
                if p < old(self).skills@.len() {
                    r == Some(old(self).skills@[p]) && final(self).skills@ == old(self).skills@.remove(p)
                } else {
                    r is None && final(self).skills == old(self).skills
                }
            }),
    {
        let p = find_skill(&self.skills, id);
        if p < self.skills.len() {
            Some(self.skills.remove(p))
        } else {
            None
        }
    }

    /// Deletes a skill; system skills cannot be deleted.
    pub fn delete(&mut self, id: u64) -> (r: Result<(), String>)
        requires
            old(self).wf(),
        ensures
            final(self).wf(),
            final(self).next_id == old(self).next_id,
            ({
                let p = skill_pos(old(self).skills@, id);
                if p >= old(self).skills@.len() {
                    r matches Err(m) && m@ == "skill not found"@ && final(self).skills == old(self).skills
                } else if old(self).skills@[p].is_system {
                    r matches Err(m) && m@ == "system skills cannot be deleted"@ && final(self).skills
                        == old(self).skills
                } else {
                    r is Ok && final(self).skills@ == old(self).skills@.remove(p)
                }
            }),
    {
        let p = find_skill(&self.skills, id);
        if p == self.skills.len() {
            return Err("skill not found".to_owned());
        }
        if self.skills[p].is_system {
            return Err("system skills cannot be deleted".to_owned());
        }
        self.skills.remove(p);
        Ok(())
    }

    /// Submits a private skill with text for review.
    pub fn submit_for_review(&mut self, id: u64) -> (r: Result<Skill, String>)
        requires
            old(self).wf(),
        ensures
            final(self).wf(),
            final(self).next_id == old(self).next_id,
            ({
                let p = skill_pos(old(self).skills@, id);
                if p >= old(self).skills@.len() {
                    r matches Err(m) && m@ == "skill not found"@ && final(self).skills == old(self).skills
                } else {
                    let s = old(self).skills@[p];
                    if s.is_public || s.review_status == ReviewStatus::PendingReview {
                        r matches Err(m) && m@ == "skill already published or pending review"@
                            && final(self).skills == old(self).skills
                    } else if trim_seq(s.skill_md@).len() == 0 {
                        r matches Err(m) && m@ == "skill content cannot be empty"@ && final(self).skills
                            == old(self).skills
                    } else {
                        let t = final(self).skills@[p];
                        &&& final(self).skills@ == old(self).skills@.update(p, t)
                        &&& t == (Skill {
                            review_status: ReviewStatus::PendingReview,
                            updated_at: t.updated_at,
                            ..s
                        })
                        &&& r matches Ok(c) && same_skill(c, t)
                    }
                }
            }),
    {
        let p = find_skill(&self.skills, id);
        if p == self.skills.len() {
            return Err("skill not found".to_owned());
        }
        if self.skills[p].is_public || self.skills[p].review_status == ReviewStatus::PendingReview {
            return Err("skill already published or pending review".to_owned());
        }
        let md = to_chars(self.skills[p].skill_md.as_str());
        if trim(&md).len() == 0 {
            return Err("skill content cannot be empty".to_owned());
        }
        self.skills[p].review_status = ReviewStatus::PendingReview;
        self.skills[p].updated_at = crate::security::unix_now();
        assert(self.skills@ =~= old(self).skills@.update(p as int, self.skills@[p as int]));
        Ok(self.skills[p].clone())
    }

    /// Approves a skill pending review: it becomes public.
    pub fn approve_skill(&mut self, id: u64) -> (r: Result<Skill, String>)
        requires
            old(self).wf(),
        ensures
            final(self).wf(),
            final(self).next_id == old(self).next_id,
            ({
                let p = skill_pos(old(self).skills@, id);
                if p >= old(self).skills@.len() {
                    r matches Err(m) && m@ == "skill not found"@ && final(self).skills == old(self).skills
                } else {
                    let s = old(self).skills@[p];
                    if s.review_status != ReviewStatus::PendingReview {
                        r matches Err(m) && m@ == "skill is not pending review"@ && final(self).skills
                            == old(self).skills
                    } else {
                        let t = final(self).skills@[p];
                        &&& final(self).skills@ == old(self).skills@.update(p, t)
                        &&& t == (Skill {
                            review_status: ReviewStatus::Approved,
                            is_public: true,
                            review_note: None,
                            updated_at: t.updated_at,
                            ..s
                        })
                        &&& r matches Ok(c) && same_skill(c, t)
                    }
                }
            }),
    {
        let p = find_skill(&self.skills, id);
        if p == self.skills.len() {
            return Err("skill not found".to_owned());
        }
        if self.skills[p].review_status != ReviewStatus::PendingReview {
            return Err("skill is not pending review".to_owned());
        }
        self.skills[p].review_status = ReviewStatus::Approved;
        self.skills[p].is_public = true;
        self.skills[p].review_note = None;
        self.skills[p].updated_at = crate::security::unix_now();
        assert(self.skills@ =~= old(self).skills@.update(p as int, self.skills@[p as int]));
        Ok(self.skills[p].clone())
    }

    /// Rejects a skill pending review, noting the reason.
    pub fn reject_skill(&mut self, id: u64, reason: &str) -> (r: Result<Skill, String>)
        requires
            old(self).wf(),
        ensures
            final(self).wf(),
            final(self).next_id == old(self).next_id,
            ({
                let p = skill_pos(old(self).skills@, id);
                if p >= old(self).skills@.len() {
                    r matches Err(m) && m@ == "skill not found"@ && final(self).skills == old(self).skills
                } else {
                    let s = old(self).skills@[p];
                    if s.review_status != ReviewStatus::PendingReview {
                        r matches Err(m) && m@ == "skill is not pending review"@ && final(self).skills
                            == old(self).skills
                    } else {
                        let t = final(self).skills@[p];
                        &&& final(self).skills@ == old(self).skills@.update(p, t)
                        &&& t == (Skill {
                            review_status: ReviewStatus::Rejected,
                            review_note: t.review_note,
                            updated_at: t.updated_at,
                            ..s
                        })
                        &&& opt_chars(t.review_note) == Some(reason@)
                        &&& r matches Ok(c) && same_skill(c, t)
                    }
                }
            }),
    {
        let p = find_skill(&self.skills, id);
        if p == self.skills.len() {
            return Err("skill not found".to_owned());
        }
        if self.skills[p].review_status != ReviewStatus::PendingReview {
            return Err("skill is not pending review".to_owned());
        }
        self.skills[p].review_status = ReviewStatus::Rejected;
        self.skills[p].review_note = Some(reason.to_owned());
        self.skills[p].updated_at = crate::security::unix_now();
        assert(self.skills@ =~= old(self).skills@.update(p as int, self.skills@[p as int]));
        Ok(self.skills[p].clone())
    }

    /// Screens a skill's text and name.
    pub fn security_check(skill: &Skill) -> (r: Result<(), String>)
        ensures
            match r {
                Ok(_) => security_refusal(*skill) is None,
                Err(m) => security_refusal(*skill) == Some(m@),
            },
    {
        let md = to_chars(skill.skill_md.as_str());
        let mut i: usize = 0;
        while i < DANGER_COUNT
            invariant
                md@ == skill.skill_md@,
                i <= DANGER_COUNT,
                first_danger(md@, 0) == first_danger(md@, i as int),
            decreases DANGER_COUNT - i,
        {
            let (pattern, reason) = danger_at(i);
            let pc = to_chars(pattern);
            if contains(&md, &pc) {
                proof {
                    reveal_strlit("security check failed: ");
                }
                let mut out: Vec<char> = Vec::new();
                push_str_chars(&mut out, "security check failed: ");
                push_str_chars(&mut out, reason);
                return Err(from_chars(&out));
            }
            i += 1;
        }
        if skill.skill_md.as_str().as_bytes().len() > 10000 {
            return Err("skill content exceeds 10000 characters".to_owned());
        }
        if skill.name.as_str().as_bytes().len() > 100 {
            return Err("skill name exceeds 100 characters".to_owned());
        }
        let name = to_chars(skill.name.as_str());
        if trim(&name).len() == 0 {
            return Err("skill name cannot be empty".to_owned());
        }
        Ok(())
    }

    /// Removes every skill that is not a system skill; returns how many.
    pub fn purge_non_system(&mut self) -> (removed: usize)
        requires
            old(self).wf(),
        ensures
            final(self).wf(),
            final(self).next_id == old(self).next_id,
            final(self).skills@ == skills_where(old(self).skills@, |s: Skill| s.is_system),
            removed == old(self).skills@.len() - final(self).skills@.len(),
    {
        let ghost sys = |s: Skill| s.is_system;
        let ghost all = old(self).skills@;
        let n = self.skills.len();
        let mut i: usize = 0;
        let ghost mut j: int = 0;
        while i < self.skills.len()
            invariant
                all == old(self).skills@,
                sys == |s: Skill| s.is_system,
                0 <= i <= j <= all.len(),
                i <= self.skills@.len(),
                self.skills@.len() - i == all.len() - j,
                self.next_id == old(self).next_id,
                self.skills@.take(i as int) == skills_where(all.take(j), sys),
                self.skills@.skip(i as int) == all.skip(j),
            decreases self.skills@.len() - i,
        {
            proof {
                assert(all.take(j + 1).drop_last() =~= all.take(j));
                assert(self.skills@[i as int] == all[j]) by {
                    assert(self.skills@.skip(i as int)[0] == all.skip(j)[0]);
                }
            }
            let ghost before = self.skills@;
            proof {
                assert(before.skip(i + 1) =~= before.skip(i as int).drop_first());
                assert(all.skip(j + 1) =~= all.skip(j).drop_first());
            }
            if self.skills[i].is_system {
                i += 1;
                proof {
                    j = j + 1;
                }
                assert(self.skills@.take(i as int) =~= skills_where(all.take(j), sys));
                assert(self.skills@.skip(i as int) =~= all.skip(j));
            } else {
                self.skills.remove(i);
                proof {
                    j = j + 1;
                    assert(self.skills@.take(i as int) =~= before.take(i as int));
                    assert(self.skills@.skip(i as int) =~= before.skip(i + 1));
                }
                assert(self.skills@.take(i as int) =~= skills_where(all.take(j), sys));
                assert(self.skills@.skip(i as int) =~= all.skip(j));
            }
        }
        proof {
            assert(self.skills@.skip(i as int).len() == 0);
            assert(j == all.len());
            assert(all.take(j) =~= all);
            assert(self.skills@.take(i as int) =~= self.skills@);
            lemma_where_len(all, sys);
            lemma_where_ids(all, sys);
        }
        n - self.skills.len()
    }
}

/// After storing `s`, its id and every id found before are found.
proof fn lemma_put_keeps(before: Seq<Skill>, s: Skill, id: u64)
    requires
        skill_pos(before, id) < before.len() || id == s.id,
    ensures
        ({
            let p = skill_pos(before, s.id);
            let after = if p < before.len() {
                before.update(p, s)
            } else {
                before.push(s)
            };
            skill_pos(after, id) < after.len()
        }),
{
    let p = skill_pos(before, s.id);
    lemma_skill_pos_is_bounded(before, s.id);
    lemma_skill_pos_is_bounded(before, id);
    let after = if p < before.len() {
        before.update(p, s)
    } else {
        before.push(s)
    };
    lemma_skill_pos_is_bounded(after, id);
    if id == s.id {
        if p < before.len() {
            assert(after[p].id == id);
        } else {
            assert(after[before.len() as int].id == id);
        }
    } else {
        let q = skill_pos(before, id);
        assert(after[q].id == id);
    }
}

/// Bounds of [`skill_pos`].
pub proof fn lemma_skill_pos_is_bounded(s: Seq<Skill>, id: u64)
    ensures
        0 <= skill_pos(s, id) <= s.len(),
        skill_pos(s, id) < s.len() ==> s[skill_pos(s, id)].id == id,
        skill_pos(s, id) == s.len() ==> forall|j: int| 0 <= j < s.len() ==> s[j].id != id,
        forall|j: int| 0 <= j < skill_pos(s, id) ==> s[j].id != id,
    decreases s.len(),
{
    if s.len() > 0 && s[0].id != id {
        lemma_skill_pos_is_bounded(s.drop_first(), id);
        assert forall|j: int| 0 <= j < skill_pos(s, id) implies s[j].id != id by {
            if j > 0 {
                assert(s[j] == s.drop_first()[j - 1]);
            }
        }
        if skill_pos(s, id) == s.len() {
            assert forall|j: int| 0 <= j < s.len() implies s[j].id != id by {
                if j > 0 {
                    assert(s[j] == s.drop_first()[j - 1]);
                }
            }
        }
    }
}


/// Keeping some skills never makes more of them.
proof fn lemma_where_len(s: Seq<Skill>, keep: spec_fn(Skill) -> bool)
    ensures
        skills_where(s, keep).len() <= s.len(),
    decreases s.len(),
{
    if s.len() > 0 {
        lemma_where_len(s.drop_last(), keep);
    }
}

/// The kept skills are skills of `s`, and keep distinct ids distinct.
proof fn lemma_where_ids(s: Seq<Skill>, keep: spec_fn(Skill) -> bool)
    ensures
        forall|i: int|
            0 <= i < skills_where(s, keep).len() ==> exists|j: int|
                0 <= j < s.len() && s[j] == #[trigger] skills_where(s, keep)[i],
        (forall|a: int, b: int| 0 <= a < b < s.len() ==> s[a].id != s[b].id) ==> (forall|a: int, b: int|
            0 <= a < b < skills_where(s, keep).len() ==> skills_where(s, keep)[a].id != skills_where(
                s,
                keep,
            )[b].id),
    decreases s.len(),
{
    if s.len() > 0 {
        let r0 = skills_where(s.drop_last(), keep);
        lemma_where_ids(s.drop_last(), keep);
        let r = skills_where(s, keep);
        assert forall|i: int| 0 <= i < r.len() implies exists|j: int| 0 <= j < s.len() && s[j] == #[trigger] r[i] by {
            if i < r0.len() {
                assert(r[i] == r0[i]);
                let j = choose|j: int| 0 <= j < s.drop_last().len() && s.drop_last()[j] == r0[i];
                assert(s[j] == s.drop_last()[j]);
            } else {
                assert(r[i] == s[s.len() - 1]);
            }
        }
        if forall|a: int, b: int| 0 <= a < b < s.len() ==> s[a].id != s[b].id {
            assert forall|a: int, b: int| 0 <= a < b < r.len() implies r[a].id != r[b].id by {
                if b < r0.len() {
                    assert(r[a] == r0[a] && r[b] == r0[b]);
                } else {
                    assert(r[a] == r0[a]);
                    let j = choose|j: int| 0 <= j < s.drop_last().len() && s.drop_last()[j] == r0[a];
                    assert(s[j] == s.drop_last()[j]);
                    assert(r[b] == s[s.len() - 1]);
                }
            }
        }
    }
}

/// If the skill at `i` is the first kept by `keep`, it heads the kept list.
proof fn lemma_first_kept(s: Seq<Skill>, keep: spec_fn(Skill) -> bool, i: int)
    requires
        0 <= i < s.len(),
        keep(s[i]),
        skills_where(s.take(i), keep).len() == 0,
    ensures
        skills_where(s, keep).len() > 0,
        skills_where(s, keep)[0] == s[i],
    decreases s.len(),
{
    if i < s.len() - 1 {
        assert(s.drop_last().take(i) =~= s.take(i));
        lemma_first_kept(s.drop_last(), keep, i);
    } else {
        assert(s.drop_last() =~= s.take(i));
    }
}


// ---------------------------------------------------------------------------
// Seed fingerprints
// ---------------------------------------------------------------------------

/// What `<str as Hash>::hash` feeds a hasher for the text `s`, as the
/// writes of the standard library's hasher model: a function of the text.
pub uninterp spec fn str_hash_writes(s: Seq<char>) -> Seq<Seq<u8>>;

/// Calls `Hash::hash` for `str` on a `DefaultHasher`: the hasher has then
/// taken, after what it held, the writes that hashing `s` makes.
#[verifier::external_body]
fn hash_str_into(s: &str, hasher: &mut DefaultHasher)
    ensures
        final(hasher)@ == old(hasher)@ + str_hash_writes(s@),
{
    s.hash(hasher)
}

/// The standard library's default hash of a text: a fresh `DefaultHasher`
/// (every fresh one is the same) fed the text and finished.
pub open spec fn default_str_hash(s: Seq<char>) -> u64 {
    DefaultHasher::spec_finish(str_hash_writes(s))
}

/// A fingerprint of a skill seed: sixteen hex digits of the standard
/// library's default hash of the text.
pub fn content_hash(content: &str) -> (r: String)
    ensures
        r@ == hex16(default_str_hash(content@)),
{
    let mut hasher = DefaultHasher::new();
    hash_str_into(content, &mut hasher);
    assert(hasher@ =~= str_hash_writes(content@));
    let h = hasher.finish();
    let mut out: Vec<char> = Vec::new();
    push_hex16(&mut out, h);
    assert(out@ =~= hex16(h));
    from_chars(&out)
}

// ---------------------------------------------------------------------------
// System skills
// ---------------------------------------------------------------------------

/// The fingerprint of a system skill's seed: [`content_hash`] of its text,
/// `|` and its description.
pub fn seed_hash(skill_md: &str, description: &str) -> (r: String)
    ensures
        r@ == hex16(default_str_hash(skill_md@ + "|"@ + description@)),
{
    let mut text = String::new();
    crate::strs::push_str(&mut text, skill_md);
    crate::strs::push_str(&mut text, "|");
    crate::strs::push_str(&mut text, description);
    content_hash(text.as_str())
}

/// What to do with one system skill seed.
#[derive(Clone, Copy, Debug, PartialEq, Eq, Structural)]
pub enum SeedAction {
    /// Install it under this id.
    Install(u64),
    /// Replace the text of the installed skill with this id.
    Update(u64),
    /// Its text changed, but updates are switched off; the skill keeps its id.
    SkipUpdate(u64),
    /// The installed skill with this id is current.
    Keep(u64),
    /// Its id is held by another skill; nothing is installed.
    Occupied(u64),
    /// It is not installed, and installing is not asked for.
    Missing,
}

/// The last skill named `name`.
pub open spec fn last_named(s: Seq<Skill>, name: Seq<char>) -> Option<Skill>
    decreases s.len(),
{
    if s.len() == 0 {
        None
    } else if s.last().name@ == name {
        Some(s.last())
    } else {
        last_named(s.drop_last(), name)
    }
}

/// The review note of a skill as text (empty when there is none).
pub open spec fn note_text(n: Option<String>) -> Seq<char> {
    match n {
        Some(t) => t@,
        None => Seq::empty(),
    }
}

/// Whether some skill has id `id`.
pub open spec fn has_skill_id(s: Seq<Skill>, id: u64) -> bool {
    exists|i: int| 0 <= i < s.len() && #[trigger] s[i].id == id
}

/// The action for seed number `idx` named `name` with fingerprint `hash`,
/// over the installed system skills: an installed skill of that name is
/// updated when its review note differs from the fingerprint (or skipped
/// when updates are off) and kept otherwise; a missing one is installed
/// under id 900000 + `idx` unless that id is taken.
pub open spec fn seed_action(
    existing: Seq<Skill>,
    name: Seq<char>,
    hash: Seq<char>,
    idx: int,
    skip_update: bool,
    install_missing: bool,
) -> SeedAction {
    match last_named(existing, name) {
        Some(s) => if note_text(s.review_note) != hash {
            if skip_update {
                SeedAction::SkipUpdate(s.id)
            } else {
                SeedAction::Update(s.id)
            }
        } else {
            SeedAction::Keep(s.id)
        },
        None => if !install_missing {
            SeedAction::Missing
        } else if has_skill_id(existing, (900000 + idx) as u64) {
            SeedAction::Occupied((900000 + idx) as u64)
        } else {
            SeedAction::Install((900000 + idx) as u64)
        },
    }
}

fn last_named_index(s: &Vec<Skill>, name: &str) -> (r: Option<usize>)
    ensures
        match r {
            Some(k) => k < s@.len() && last_named(s@, name@) == Some(s@[k as int]),
            None => last_named(s@, name@) is None,
        },
{
    let mut j: usize = s.len();
    assert(s@.take(j as int) =~= s@);
    while j > 0
        invariant
            j <= s@.len(),
            last_named(s@, name@) == last_named(s@.take(j as int), name@),
        decreases j,
    {
        assert(s@.take(j as int).last() == s@[j - 1]);
        assert(s@.take(j as int).drop_last() =~= s@.take(j - 1));
        if str_eq(s[j - 1].name.as_str(), name) {
            return Some(j - 1);
        }
        j -= 1;
    }
    None
}

fn skill_id_taken(s: &Vec<Skill>, id: u64) -> (r: bool)
    ensures
        r == has_skill_id(s@, id),
{
    let mut i: usize = 0;
    while i < s.len()
        invariant
            i <= s@.len(),
            forall|k: int| 0 <= k < i ==> s@[k].id != id,
        decreases s.len() - i,
    {
        if s[i].id == id {
            return true;
        }
        i += 1;
    }
    false
}

/// Plans the synchronisation of the system skill seeds (name and
/// fingerprint, in order) with the installed system skills.
pub fn plan_system_skills(
    existing: &Vec<Skill>,
    seeds: &Vec<(String, String)>,
    skip_update: bool,
    install_missing: bool,
) -> (r: Vec<SeedAction>)
    requires
        seeds@.len() <= u64::MAX - 900000,
    ensures
        r@.len() == seeds@.len(),
        forall|i: int|
            0 <= i < seeds@.len() ==> #[trigger] r@[i] == seed_action(
                existing@,
                seeds@[i].0@,
                seeds@[i].1@,
                i,
                skip_update,
                install_missing,
            ),
{
    let mut out: Vec<SeedAction> = Vec::new();
    let mut i: usize = 0;
    while i < seeds.len()
        invariant
            i <= seeds@.len(),
            seeds@.len() <= u64::MAX - 900000,
            out@.len() == i,
            forall|k: int|
                0 <= k < i ==> #[trigger] out@[k] == seed_action(
                    existing@,
                    seeds@[k].0@,
                    seeds@[k].1@,
                    k,
                    skip_update,
                    install_missing,
                ),
        decreases seeds.len() - i,
    {
        let name = seeds[i].0.as_str();
        let hash = seeds[i].1.as_str();
        let action = match last_named_index(existing, name) {
            Some(k) => {
                let stored = match &existing[k].review_note {
                    Some(n) => n.as_str(),
                    None => "",
                };
                proof {
                    reveal_strlit("");
                    assert(stored@ =~= note_text(existing@[k as int].review_note));
                }
                if !str_eq(stored, hash) {
                    if skip_update {
                        SeedAction::SkipUpdate(existing[k].id)
                    } else {
                        SeedAction::Update(existing[k].id)
                    }
                } else {
                    SeedAction::Keep(existing[k].id)
                }
            },
            None => {
                let target: u64 = 900000 + i as u64;
                if !install_missing {
                    SeedAction::Missing
                } else if skill_id_taken(existing, target) {
                    SeedAction::Occupied(target)
                } else {
                    SeedAction::Install(target)
                }
            },
        };
        assert(action == seed_action(existing@, seeds@[i as int].0@, seeds@[i as int].1@, i as int, skip_update, install_missing));
        out.push(action);
        i += 1;
    }
    out
}

// ---------------------------------------------------------------------------
// Matching skills to a query
// ---------------------------------------------------------------------------

/// How many of the words `ws` occur in `text`.
pub open spec fn hits(ws: Seq<Seq<char>>, text: Seq<char>) -> nat
    decreases ws.len(),
{
    if ws.len() == 0 {
        0
    } else {
        hits(ws.drop_last(), text) + if contains_seq(text, ws.last()) {
            1nat
        } else {
            0nat
        }
    }
}

/// The skills a query can match for `owner` (theirs, or public), each with
/// the number of query words found in its lowercased name and in its
/// lowercased text: `(position, name hits, text hits)`, in catalogue order.
pub open spec fn match_counts_spec(s: Seq<Skill>, query: Seq<char>, owner: Seq<char>) -> Seq<(int, nat, nat)>
    decreases s.len(),
{
    if s.len() == 0 {
        Seq::empty()
    } else {
        let prev = match_counts_spec(s.drop_last(), query, owner);
        let k = s.last();
        if k.owner@ == owner || k.is_public {
            let ws = words(unicode_lowercase(query));
            prev.push(
                (
                    s.len() - 1,
                    hits(ws, unicode_lowercase(k.name@)),
                    hits(ws, unicode_lowercase(k.skill_md@)),
                ),
            )
        } else {
            prev
        }
    }
}

fn count_hits(ws: &Vec<Vec<char>>, text: &[char]) -> (r: usize)
    ensures
        r == hits(ws@.map_values(|v: Vec<char>| v@), text@),
{
    let ghost wv = ws@.map_values(|v: Vec<char>| v@);
    let mut n: usize = 0;
    let mut i: usize = 0;
    assert(wv.take(0) =~= Seq::<Seq<char>>::empty());
    while i < ws.len()
        invariant
            i <= ws@.len(),
            wv == ws@.map_values(|v: Vec<char>| v@),
            n == hits(wv.take(i as int), text@),
            n <= i,
        decreases ws.len() - i,
    {
        assert(wv.take(i + 1).drop_last() =~= wv.take(i as int));
        assert(wv.take(i + 1).last() == ws@[i as int]@);
        if contains(text, &ws[i]) {
            n += 1;
        }
        i += 1;
    }
    assert(wv.take(ws@.len() as int) =~= wv);
    n
}

impl SkillEngine {
    /// The word-match counts behind skill matching: for each skill that
    /// `owner` may use (its own or a public one), its position and how many
    /// of the query's lowercased words occur in its lowercased name and
    /// text. Ranking them by a score is left to the caller.
    pub fn match_counts(&self, query: &str, owner: &str) -> (r: Vec<(usize, usize, usize)>)
        ensures
            r@.len() == match_counts_spec(self.skills@, query@, owner@).len(),
            forall|i: int|
                0 <= i < r@.len() ==> {
                    let m = #[trigger] match_counts_spec(self.skills@, query@, owner@)[i];
                    r@[i].0 as int == m.0 && r@[i].1 as nat == m.1 && r@[i].2 as nat == m.2
                },
    {
        let ql = to_lowercase(query);
        let ws = split_whitespace(&to_chars(ql.as_str()));
        let ghost s = self.skills@;
        let mut out: Vec<(usize, usize, usize)> = Vec::new();
        let mut i: usize = 0;
        assert(s.take(0) =~= Seq::<Skill>::empty());
        while i < self.skills.len()
            invariant
                i <= s.len(),
                s == self.skills@,
                ws@.map_values(|v: Vec<char>| v@) == words(unicode_lowercase(query@)),
                out@.len() == match_counts_spec(s.take(i as int), query@, owner@).len(),
                forall|j: int|
                    0 <= j < out@.len() ==> {
                        let m = #[trigger] match_counts_spec(s.take(i as int), query@, owner@)[j];
                        out@[j].0 as int == m.0 && out@[j].1 as nat == m.1 && out@[j].2 as nat == m.2
                    },
            decreases self.skills.len() - i,
        {
            let k = &self.skills[i];
            assert(s.take(i + 1).drop_last() =~= s.take(i as int));
            assert(s.take(i + 1).last() == s[i as int]);
            if str_eq(k.owner.as_str(), owner) || k.is_public {
                let nl = to_chars(to_lowercase(k.name.as_str()).as_str());
                let ml = to_chars(to_lowercase(k.skill_md.as_str()).as_str());
                let a = count_hits(&ws, &nl);
                let b = count_hits(&ws, &ml);
                let ghost prev = match_counts_spec(s.take(i as int), query@, owner@);
                out.push((i, a, b));
                assert forall|j: int| 0 <= j < out@.len() implies {
                    let m = #[trigger] match_counts_spec(s.take(i + 1), query@, owner@)[j];
                    out@[j].0 as int == m.0 && out@[j].1 as nat == m.1 && out@[j].2 as nat == m.2
                } by {
                    if j < prev.len() {
                        assert(match_counts_spec(s.take(i + 1), query@, owner@)[j] == prev[j]);
                    }
                }
            }
            i += 1;
        }
        assert(s.take(s.len() as int) =~= s);
        out
    }
}

} // verus!
