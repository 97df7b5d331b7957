//! Moving archive membership from memory labels into the archive table:
//! which memories become nodes, of which type and under which parent.
//!
//! The table takes inserts that are ignored when the node is already there
//! (live or archived); the plan lists the inserts that take effect, in the
//! order they are made.

use vstd::prelude::*;
use crate::records::ArchiveNodeRow;
use crate::strs::{
    contains, contains_seq, find_char_from, first_char_from, from_chars, parse_i64, parse_i64_spec,
    slice_chars, starts_with, starts_with_seq, str_eq, strings_view, to_chars, to_lowercase, trim,
    trim_seq, unicode_lowercase,
};

verus! {

broadcast use vstd::utf8::group_utf8_lib;

// ---------------------------------------------------------------------------
// Labels
// ---------------------------------------------------------------------------

/// The rest of the first label that starts with `p`, if one does.
pub open spec fn first_stripped(ls: Seq<Seq<char>>, p: Seq<char>) -> Option<Seq<char>>
    decreases ls.len(),
{
    if ls.len() == 0 {
        None
    } else if starts_with_seq(ls[0], p) {
        Some(ls[0].skip(p.len() as int))
    } else {
        first_stripped(ls.drop_first(), p)
    }
}

/// Whether some label starts with `p`.
pub open spec fn any_prefixed(ls: Seq<Seq<char>>, p: Seq<char>) -> bool {
    exists|i: int| 0 <= i < ls.len() && starts_with_seq(#[trigger] ls[i], p)
}

/// The first `parent:<n>` label whose `<n>` reads as an `i64`.
pub open spec fn first_parent(ls: Seq<Seq<char>>) -> Option<i64>
    decreases ls.len(),
{
    if ls.len() == 0 {
        None
    } else if starts_with_seq(ls[0], "parent:"@) && parse_i64_spec(ls[0].skip(7)) is Some {
        parse_i64_spec(ls[0].skip(7))
    } else {
        first_parent(ls.drop_first())
    }
}

/// The category a memory's labels give: the rest of its first `category:`
/// label, or nothing.
pub open spec fn category_of(ls: Seq<Seq<char>>) -> Seq<char> {
    match first_stripped(ls, "category:"@) {
        Some(c) => c,
        None => Seq::empty(),
    }
}

/// Whether a memory's labels put it in the archive: `archive` or an
/// `archive.<type>` label, and no `archived` label.
pub open spec fn archive_labelled(ls: Seq<Seq<char>>) -> bool {
    (ls.contains("archive"@) || any_prefixed(ls, "archive."@)) && !ls.contains("archived"@)
}

/// The node type a memory's labels give: `root` for a bare `archive`
/// label, else the type of its first `archive.<type>` label.
pub open spec fn archive_node_type(ls: Seq<Seq<char>>) -> Seq<char> {
    if ls.contains("archive"@) && !any_prefixed(ls, "archive."@) {
        "root"@
    } else {
        match first_stripped(ls, "archive."@) {
            Some(t) => t,
            None => "doc"@,
        }
    }
}

/// The labels that mark a document worth archiving.
pub open spec fn doc_label(l: Seq<char>) -> bool {
    ||| l == "documentation"@
    ||| l == "system"@
    ||| l == "architecture"@
    ||| l == "devops"@
    ||| l == "infrastructure"@
    ||| l == "security"@
    ||| l == "ai"@
    ||| l == "ml"@
    ||| l == "database"@
    ||| l == "storage"@
    ||| l == "networking"@
    ||| l == "protocol"@
    ||| l == "biology"@
    ||| l == "life"@
}

/// Whether some label is a document label.
pub open spec fn has_doc_label(ls: Seq<Seq<char>>) -> bool {
    exists|i: int| 0 <= i < ls.len() && doc_label(#[trigger] ls[i])
}

proof fn lemma_first_stripped_some(ls: Seq<Seq<char>>, p: Seq<char>)
    ensures
        first_stripped(ls, p) is Some <==> any_prefixed(ls, p),
    decreases ls.len(),
{
    if ls.len() > 0 {
        lemma_first_stripped_some(ls.drop_first(), p);
        if any_prefixed(ls, p) && !starts_with_seq(ls[0], p) {
            let i = choose|i: int| 0 <= i < ls.len() && starts_with_seq(#[trigger] ls[i], p);
            assert(starts_with_seq(ls.drop_first()[i - 1], p));
        }
        if any_prefixed(ls.drop_first(), p) {
            let i = choose|i: int|
                0 <= i < ls.drop_first().len() && starts_with_seq(#[trigger] ls.drop_first()[i], p);
            assert(starts_with_seq(ls[i + 1], p));
        }
    }
}

fn label_present(ls: &Vec<String>, x: &str) -> (r: bool)
    ensures
        r == strings_view(ls@).contains(x@),
{
    let mut i: usize = 0;
    while i < ls.len()
        invariant
            i <= ls@.len(),
            forall|k: int| 0 <= k < i ==> ls@[k]@ != x@,
        decreases ls.len() - i,
    {
        if str_eq(ls[i].as_str(), x) {
            assert(strings_view(ls@)[i as int] == x@);
            return true;
        }
        i += 1;
    }
    assert forall|k: int| 0 <= k < strings_view(ls@).len() implies strings_view(ls@)[k] != x@ by {
        assert(strings_view(ls@)[k] == ls@[k]@);
    }
    false
}

fn find_stripped(ls: &Vec<String>, p: &str) -> (r: Option<Vec<char>>)
    ensures
        match r {
            Some(v) => first_stripped(strings_view(ls@), p@) == Some(v@),
            None => first_stripped(strings_view(ls@), p@) is None,
        },
{
    let pc = to_chars(p);
    let ghost all = strings_view(ls@);
    assert(all.skip(0) =~= all);
    let mut i: usize = 0;
    while i < ls.len()
        invariant
            i <= ls@.len(),
            all == strings_view(ls@),
            pc@ == p@,
            first_stripped(all, p@) == first_stripped(all.skip(i as int), p@),
        decreases ls.len() - i,
    {
        let lc = to_chars(ls[i].as_str());
        assert(all.skip(i as int)[0] == lc@);
        assert(all.skip(i as int).drop_first() =~= all.skip(i as int + 1));
        if starts_with(&lc, &pc) {
            let rest = slice_chars(&lc, pc.len(), lc.len());
            assert(rest@ =~= lc@.skip(p@.len() as int));
            return Some(rest);
        }
        i += 1;
    }
    None
}

fn find_parent(ls: &Vec<String>) -> (r: Option<i64>)
    ensures
        r == first_parent(strings_view(ls@)),
{
    let pc = to_chars("parent:");
    proof {
        reveal_strlit("parent:");
    }
    let ghost all = strings_view(ls@);
    assert(all.skip(0) =~= all);
    let mut i: usize = 0;
    while i < ls.len()
        invariant
            i <= ls@.len(),
            all == strings_view(ls@),
            pc@ == "parent:"@,
            pc@.len() == 7,
            first_parent(all) == first_parent(all.skip(i as int)),
        decreases ls.len() - i,
    {
        let lc = to_chars(ls[i].as_str());
        assert(all.skip(i as int)[0] == lc@);
        assert(all.skip(i as int).drop_first() =~= all.skip(i as int + 1));
        if starts_with(&lc, &pc) {
            let rest = slice_chars(&lc, 7, lc.len());
            assert(rest@ =~= lc@.skip(7));
            match parse_i64(&rest) {
                Some(v) => {
                    return Some(v);
                },
                None => {},
            }
        }
        i += 1;
    }
    None
}

fn category_text(ls: &Vec<String>) -> (r: String)
    ensures
        r@ == category_of(strings_view(ls@)),
{
    match find_stripped(ls, "category:") {
        Some(v) => from_chars(&v),
        None => String::new(),
    }
}

fn is_doc_label(l: &str) -> (r: bool)
    ensures
        r == doc_label(l@),
{
    str_eq(l, "documentation") || str_eq(l, "system") || str_eq(l, "architecture") || str_eq(
        l,
        "devops",
    ) || str_eq(l, "infrastructure") || str_eq(l, "security") || str_eq(l, "ai") || str_eq(
        l,
        "ml",
    ) || str_eq(l, "database") || str_eq(l, "storage") || str_eq(l, "networking") || str_eq(
        l,
        "protocol",
    ) || str_eq(l, "biology") || str_eq(l, "life")
}

fn any_doc_label(ls: &Vec<String>) -> (r: bool)
    ensures
        r == has_doc_label(strings_view(ls@)),
{
    let mut i: usize = 0;
    while i < ls.len()
        invariant
            i <= ls@.len(),
            forall|k: int| 0 <= k < i ==> !doc_label(ls@[k]@),
        decreases ls.len() - i,
    {
        if is_doc_label(ls[i].as_str()) {
            assert(doc_label(strings_view(ls@)[i as int]));
            return true;
        }
        i += 1;
    }
    assert forall|k: int| 0 <= k < strings_view(ls@).len() implies !doc_label(
        #[trigger] strings_view(ls@)[k],
    ) by {
        assert(strings_view(ls@)[k] == ls@[k]@);
    }
    false
}

// ---------------------------------------------------------------------------
// The migration plan
// ---------------------------------------------------------------------------

/// What the migration reads of one memory: its id, content and labels.
pub struct ArchiveMeta {
    pub id: u64,
    pub content: String,
    pub labels: Vec<String>,
}

/// One insert into the archive table: a node, its parent, type and category.
pub struct ArchiveOp {
    pub node_id: i64,
    pub parent_id: Option<i64>,
    pub node_type: String,
    pub category: String,
}

pub open spec fn meta_view(m: ArchiveMeta) -> (u64, Seq<char>, Seq<Seq<char>>) {
    (m.id, m.content@, strings_view(m.labels@))
}

pub open spec fn metas_view(v: Seq<ArchiveMeta>) -> Seq<(u64, Seq<char>, Seq<Seq<char>>)> {
    v.map_values(|m: ArchiveMeta| meta_view(m))
}

pub open spec fn op_view(o: ArchiveOp) -> (i64, Option<i64>, Seq<char>, Seq<char>) {
    (o.node_id, o.parent_id, o.node_type@, o.category@)
}

pub open spec fn ops_view(v: Seq<ArchiveOp>) -> Seq<(i64, Option<i64>, Seq<char>, Seq<char>)> {
    v.map_values(|o: ArchiveOp| op_view(o))
}

/// The nodes the inserts `ops` create.
pub open spec fn op_ids(ops: Seq<(i64, Option<i64>, Seq<char>, Seq<char>)>) -> Seq<i64> {
    ops.map_values(|o: (i64, Option<i64>, Seq<char>, Seq<char>)| o.0)
}

/// Whether node `x` is live: a live row, or inserted by `ops`.
pub open spec fn is_present(live: Seq<i64>, ops: Seq<(i64, Option<i64>, Seq<char>, Seq<char>)>, x: i64) -> bool {
    live.contains(x) || op_ids(ops).contains(x)
}

/// Whether an insert of node `x` is ignored: the node is live or archived.
pub open spec fn is_blocked(
    live: Seq<i64>,
    archived: Seq<i64>,
    ops: Seq<(i64, Option<i64>, Seq<char>, Seq<char>)>,
    x: i64,
) -> bool {
    is_present(live, ops, x) || archived.contains(x)
}

/// Whether some memory has id `id`.
pub open spec fn has_id(meta: Seq<(u64, Seq<char>, Seq<Seq<char>>)>, id: u64) -> bool {
    exists|i: int| 0 <= i < meta.len() && #[trigger] meta[i].0 == id
}

/// The node a labelled memory becomes: its type and category from its
/// labels, and its `parent:` label's node where that is a memory.
pub open spec fn label_op(
    m: (u64, Seq<char>, Seq<Seq<char>>),
    meta: Seq<(u64, Seq<char>, Seq<Seq<char>>)>,
) -> (i64, Option<i64>, Seq<char>, Seq<char>) {
    (
        m.0 as i64,
        match first_parent(m.2) {
            Some(p) => if has_id(meta, p as u64) {
                Some(p)
            } else {
                None
            },
            None => None,
        },
        archive_node_type(m.2),
        category_of(m.2),
    )
}

/// First step: every memory with archive labels becomes a node.
pub open spec fn label_phase(
    ms: Seq<(u64, Seq<char>, Seq<Seq<char>>)>,
    meta: Seq<(u64, Seq<char>, Seq<Seq<char>>)>,
    live: Seq<i64>,
    archived: Seq<i64>,
) -> Seq<(i64, Option<i64>, Seq<char>, Seq<char>)>
    decreases ms.len(),
{
    if ms.len() == 0 {
        Seq::empty()
    } else {
        let prev = label_phase(ms.drop_last(), meta, live, archived);
        let m = ms.last();
        if archive_labelled(m.2) && !is_blocked(live, archived, prev, m.0 as i64) {
            prev.push(label_op(m, meta))
        } else {
            prev
        }
    }
}

/// Whether a memory reads as a document: a `# ` title, more than 200 bytes
/// and a document label.
pub open spec fn doc_like(m: (u64, Seq<char>, Seq<Seq<char>>)) -> bool {
    starts_with_seq(m.1, "# "@) && vstd::utf8::encode_utf8(m.1).len() > 200 && has_doc_label(m.2)
}

/// Second step: documents outside the table become `doc` nodes, under
/// their `parent:` node where that is live.
pub open spec fn doc_phase(
    ms: Seq<(u64, Seq<char>, Seq<Seq<char>>)>,
    live: Seq<i64>,
    archived: Seq<i64>,
    start: Seq<(i64, Option<i64>, Seq<char>, Seq<char>)>,
) -> Seq<(i64, Option<i64>, Seq<char>, Seq<char>)>
    decreases ms.len(),
{
    if ms.len() == 0 {
        start
    } else {
        let prev = doc_phase(ms.drop_last(), live, archived, start);
        let m = ms.last();
        if doc_like(m) && !is_blocked(live, archived, prev, m.0 as i64) {
            prev.push(
                (
                    m.0 as i64,
                    match first_parent(m.2) {
                        Some(p) => if is_present(live, prev, p) {
                            Some(p)
                        } else {
                            None
                        },
                        None => None,
                    },
                    "doc"@,
                    category_of(m.2),
                ),
            )
        } else {
            prev
        }
    }
}

/// The labels of the last memory with id `id`.
pub open spec fn last_labels(meta: Seq<(u64, Seq<char>, Seq<Seq<char>>)>, id: u64) -> Option<Seq<Seq<char>>>
    decreases meta.len(),
{
    if meta.len() == 0 {
        None
    } else if meta.last().0 == id {
        Some(meta.last().2)
    } else {
        last_labels(meta.drop_last(), id)
    }
}

/// The parents named by node links, in order.
pub open spec fn parent_ids(links: Seq<(i64, Option<i64>)>) -> Seq<i64>
    decreases links.len(),
{
    if links.len() == 0 {
        Seq::empty()
    } else {
        match links.last().1 {
            Some(p) => parent_ids(links.drop_last()).push(p),
            None => parent_ids(links.drop_last()),
        }
    }
}

/// Third step: parents named by nodes but missing from the table become
/// `project` nodes when they are memories.
pub open spec fn project_phase(
    ps: Seq<i64>,
    meta: Seq<(u64, Seq<char>, Seq<Seq<char>>)>,
    live: Seq<i64>,
    archived: Seq<i64>,
    start: Seq<(i64, Option<i64>, Seq<char>, Seq<char>)>,
) -> Seq<(i64, Option<i64>, Seq<char>, Seq<char>)>
    decreases ps.len(),
{
    if ps.len() == 0 {
        start
    } else {
        let prev = project_phase(ps.drop_last(), meta, live, archived, start);
        let p = ps.last();
        match last_labels(meta, p as u64) {
            Some(ls) => if !is_blocked(live, archived, prev, p) {
                prev.push((p, None, "project"@, category_of(ls)))
            } else {
                prev
            },
            None => prev,
        }
    }
}

pub open spec fn row_links(rows: Seq<ArchiveNodeRow>) -> Seq<(i64, Option<i64>)> {
    rows.map_values(|r: ArchiveNodeRow| (r.node_id, r.parent_id))
}

pub open spec fn op_links(ops: Seq<(i64, Option<i64>, Seq<char>, Seq<char>)>) -> Seq<(i64, Option<i64>)> {
    ops.map_values(|o: (i64, Option<i64>, Seq<char>, Seq<char>)| (o.0, o.1))
}

/// The inserts of the migration over the memories `meta`, the live rows
/// and the archived node ids, in the order they take effect: labelled
/// memories, then documents, then missing parents (named by the live rows
/// and then by the new nodes).
pub open spec fn archive_plan(
    meta: Seq<(u64, Seq<char>, Seq<Seq<char>>)>,
    rows: Seq<ArchiveNodeRow>,
    archived: Seq<i64>,
) -> Seq<(i64, Option<i64>, Seq<char>, Seq<char>)> {
    let live = row_links(rows).map_values(|l: (i64, Option<i64>)| l.0);
    let o1 = label_phase(meta, meta, live, archived);
    let o2 = doc_phase(meta, live, archived, o1);
    project_phase(parent_ids(row_links(rows) + op_links(o2)), meta, live, archived, o2)
}

fn ids_contain(v: &Vec<i64>, x: i64) -> (r: bool)
    ensures
        r == v@.contains(x),
{
    let mut i: usize = 0;
    while i < v.len()
        invariant
            i <= v@.len(),
            forall|k: int| 0 <= k < i ==> v@[k] != x,
        decreases v.len() - i,
    {
        if v[i] == x {
            assert(v@[i as int] == x);
            return true;
        }
        i += 1;
    }
    false
}

fn meta_has_id(meta: &Vec<ArchiveMeta>, id: u64) -> (r: bool)
    ensures
        r == has_id(metas_view(meta@), id),
{
    let ghost mv = metas_view(meta@);
    let mut i: usize = 0;
    while i < meta.len()
        invariant
            i <= meta@.len(),
            mv == metas_view(meta@),
            forall|k: int| 0 <= k < i ==> meta@[k].id != id,
        decreases meta.len() - i,
    {
        if meta[i].id == id {
            assert(mv[i as int].0 == id);
            return true;
        }
        i += 1;
    }
    assert forall|k: int| 0 <= k < mv.len() implies #[trigger] mv[k].0 != id by {
        assert(mv[k].0 == meta@[k].id);
    }
    false
}

fn last_with_id(meta: &Vec<ArchiveMeta>, id: u64) -> (r: Option<usize>)
    ensures
        match r {
            Some(k) => k < meta@.len() && last_labels(metas_view(meta@), id) == Some(
                strings_view(meta@[k as int].labels@),
            ),
            None => last_labels(metas_view(meta@), id) is None,
        },
{
    let ghost mv = metas_view(meta@);
    let mut j: usize = meta.len();
    assert(mv.take(j as int) =~= mv);
    while j > 0
        invariant
            j <= meta@.len(),
            mv == metas_view(meta@),
            last_labels(mv, id) == last_labels(mv.take(j as int), id),
        decreases j,
    {
        let ghost t = mv.take(j as int);
        assert(t.last() == meta_view(meta@[j - 1]));
        assert(t.drop_last() =~= mv.take(j - 1));
        if meta[j - 1].id == id {
            return Some(j - 1);
        }
        j -= 1;
    }
    None
}

fn is_archive_labelled(ls: &Vec<String>) -> (r: bool)
    ensures
        r == archive_labelled(strings_view(ls@)),
{
    proof {
        lemma_first_stripped_some(strings_view(ls@), "archive."@);
    }
    (label_present(ls, "archive") || find_stripped(ls, "archive.").is_some()) && !label_present(
        ls,
        "archived",
    )
}

fn node_type_text(ls: &Vec<String>) -> (r: String)
    ensures
        r@ == archive_node_type(strings_view(ls@)),
{
    proof {
        lemma_first_stripped_some(strings_view(ls@), "archive."@);
    }
    let typed = find_stripped(ls, "archive.");
    if label_present(ls, "archive") && typed.is_none() {
        "root".to_owned()
    } else {
        match typed {
            Some(v) => from_chars(&v),
            None => "doc".to_owned(),
        }
    }
}

fn is_doc_like(m: &ArchiveMeta) -> (r: bool)
    ensures
        r == doc_like(meta_view(*m)),
{
    let c = to_chars(m.content.as_str());
    let t = to_chars("# ");
    starts_with(&c, &t) && m.content.as_str().as_bytes().len() > 200 && any_doc_label(&m.labels)
}

/// The inserts that move archive membership from labels into the table,
/// given the memories, the live rows of the table and the ids of its
/// archived rows; the table ignores an insert of a node it holds.
pub fn plan_archive_migration(
    meta: &Vec<ArchiveMeta>,
    existing: &Vec<ArchiveNodeRow>,
    archived: &Vec<i64>,
) -> (r: Vec<ArchiveOp>)
    ensures
        ops_view(r@) == archive_plan(metas_view(meta@), existing@, archived@),
{
    let ghost mv = metas_view(meta@);
    let ghost live_v = row_links(existing@).map_values(|l: (i64, Option<i64>)| l.0);
    let mut live: Vec<i64> = Vec::new();
    let mut k: usize = 0;
    while k < existing.len()
        invariant
            k <= existing@.len(),
            live@ == live_v.take(k as int),
            live_v.len() == existing@.len(),
            forall|q: int| 0 <= q < existing@.len() ==> #[trigger] live_v[q] == existing@[q].node_id,
        decreases existing.len() - k,
    {
        live.push(existing[k].node_id);
        assert(live@ =~= live_v.take(k as int + 1));
        k += 1;
    }
    assert(live_v.take(existing@.len() as int) =~= live_v);

    // Labelled memories.
    let mut ops: Vec<ArchiveOp> = Vec::new();
    let mut ids: Vec<i64> = Vec::new();
    assert(ops_view(ops@) =~= label_phase(mv.take(0), mv, live@, archived@));
    assert(ids@ =~= op_ids(ops_view(ops@)));
    let mut i: usize = 0;
    while i < meta.len()
        invariant
            i <= meta@.len(),
            mv == metas_view(meta@),
            live@ == live_v,
            ops_view(ops@) == label_phase(mv.take(i as int), mv, live@, archived@),
            ids@ == op_ids(ops_view(ops@)),
        decreases meta.len() - i,
    {
        let m = &meta[i];
        assert(mv.take(i as int + 1).drop_last() =~= mv.take(i as int));
        assert(mv.take(i as int + 1).last() == meta_view(meta@[i as int]));
        if is_archive_labelled(&m.labels) {
            let id = #[verifier::truncate] (m.id as i64);
            if !(ids_contain(&live, id) || ids_contain(&ids, id) || ids_contain(archived, id)) {
                let parent = match find_parent(&m.labels) {
                    Some(p) => if meta_has_id(meta, #[verifier::truncate] (p as u64)) {
                        Some(p)
                    } else {
                        None
                    },
                    None => None,
                };
                let op = ArchiveOp {
                    node_id: id,
                    parent_id: parent,
                    node_type: node_type_text(&m.labels),
                    category: category_text(&m.labels),
                };
                let ghost before = ops@;
                ops.push(op);
                ids.push(id);
                assert(ops_view(ops@) =~= ops_view(before).push(op_view(op)));
                assert(ids@ =~= op_ids(ops_view(ops@)));
            }
        }
        i += 1;
    }
    assert(mv.take(meta@.len() as int) =~= mv);
    let ghost o1 = ops_view(ops@);

    // Documents.
    assert(ops_view(ops@) == doc_phase(mv.take(0), live@, archived@, o1));
    let mut i: usize = 0;
    while i < meta.len()
        invariant
            i <= meta@.len(),
            mv == metas_view(meta@),
            live@ == live_v,
            ops_view(ops@) == doc_phase(mv.take(i as int), live@, archived@, o1),
            ids@ == op_ids(ops_view(ops@)),
        decreases meta.len() - i,
    {
        let m = &meta[i];
        assert(mv.take(i as int + 1).drop_last() =~= mv.take(i as int));
        assert(mv.take(i as int + 1).last() == meta_view(meta@[i as int]));
        if is_doc_like(m) {
            let id = #[verifier::truncate] (m.id as i64);
            if !(ids_contain(&live, id) || ids_contain(&ids, id) || ids_contain(archived, id)) {
                let parent = match find_parent(&m.labels) {
                    Some(p) => if ids_contain(&live, p) || ids_contain(&ids, p) {
                        Some(p)
                    } else {
                        None
                    },
                    None => None,
                };
                let op = ArchiveOp {
                    node_id: id,
                    parent_id: parent,
                    node_type: "doc".to_owned(),
                    category: category_text(&m.labels),
                };
                let ghost before = ops@;
                ops.push(op);
                ids.push(id);
                assert(ops_view(ops@) =~= ops_view(before).push(op_view(op)));
                assert(ids@ =~= op_ids(ops_view(ops@)));
            }
        }
        i += 1;
    }
    let ghost o2 = ops_view(ops@);

    // Parents named by the rows, then by the new nodes.
    let ghost links = row_links(existing@) + op_links(o2);
    let mut parents: Vec<i64> = Vec::new();
    let mut j: usize = 0;
    assert(parents@ =~= parent_ids(links.take(0)));
    while j < existing.len()
        invariant
            o2 == ops_view(ops@),
            links == row_links(existing@) + op_links(o2),
            j <= existing@.len(),
            parents@ == parent_ids(links.take(j as int)),
        decreases existing.len() - j,
    {
        let link_parent = existing[j].parent_id;
        assert(links.take(j as int + 1).drop_last() =~= links.take(j as int));
        assert(links.take(j as int + 1).last().1 == link_parent);
        match link_parent {
            Some(p) => {
                parents.push(p);
            },
            None => {},
        }
        j += 1;
    }
    let mut j: usize = 0;
    while j < ops.len()
        invariant
            o2 == ops_view(ops@),
            links == row_links(existing@) + op_links(o2),
            j <= ops@.len(),
            parents@ == parent_ids(links.take(existing@.len() + j as int)),
        decreases ops.len() - j,
    {
        let link_parent = ops[j].parent_id;
        let ghost n: int = existing@.len() + j as int;
        assert(links[n] == (ops@[j as int].node_id, ops@[j as int].parent_id));
        assert(links.take(n + 1).drop_last() =~= links.take(n));
        assert(links.take(n + 1).last().1 == link_parent);
        match link_parent {
            Some(p) => {
                parents.push(p);
            },
            None => {},
        }
        j += 1;
    }
    assert(links.take((existing@.len() + ops@.len()) as int) =~= links);

    // Missing parents that are memories.
    let ghost ps = parents@;
    let mut q: usize = 0;
    assert(ops_view(ops@) == project_phase(ps.take(0), mv, live@, archived@, o2));
    while q < parents.len()
        invariant
            q <= ps.len(),
            ps == parents@,
            mv == metas_view(meta@),
            live@ == live_v,
            ops_view(ops@) == project_phase(ps.take(q as int), mv, live@, archived@, o2),
            ids@ == op_ids(ops_view(ops@)),
        decreases parents.len() - q,
    {
        let p = parents[q];
        assert(ps.take(q as int + 1).drop_last() =~= ps.take(q as int));
        assert(ps.take(q as int + 1).last() == p);
        match last_with_id(meta, #[verifier::truncate] (p as u64)) {
            Some(k) => {
                if !(ids_contain(&live, p) || ids_contain(&ids, p) || ids_contain(archived, p)) {
                    let op = ArchiveOp {
                        node_id: p,
                        parent_id: None,
                        node_type: "project".to_owned(),
                        category: category_text(&meta[k].labels),
                    };
                    let ghost before = ops@;
                    ops.push(op);
                    ids.push(p);
                    assert(ops_view(ops@) =~= ops_view(before).push(op_view(op)));
                    assert(ids@ =~= op_ids(ops_view(ops@)));
                }
            },
            None => {},
        }
        q += 1;
    }
    assert(ps.take(ps.len() as int) =~= ps);
    ops
}

// ---------------------------------------------------------------------------
// Grouping loose documents under projects
// ---------------------------------------------------------------------------

/// The first line of `s` (`str::lines`): up to the first `\n`, without a
/// `\r` that ends it there; all of `s` when it has no `\n`.
pub open spec fn first_line(s: Seq<char>) -> Seq<char> {
    let e = first_char_from(s, '\n', 0);
    if e < s.len() && e > 0 && s[e - 1] == '\r' {
        s.take(e - 1)
    } else {
        s.take(e)
    }
}

/// `s` without every leading repetition of the non-empty `p`
/// (`str::trim_start_matches`).
pub open spec fn strip_leading(s: Seq<char>, p: Seq<char>) -> Seq<char>
    decreases s.len(),
{
    if p.len() > 0 && starts_with_seq(s, p) {
        strip_leading(s.skip(p.len() as int), p)
    } else {
        s
    }
}

/// The title of a memory: its first line without leading `# ` marks,
/// trimmed.
pub open spec fn title_of(content: Seq<char>) -> Seq<char> {
    trim_seq(strip_leading(first_line(content), "# "@))
}

/// The first `n` characters of `s` (all of them when it is shorter).
pub open spec fn head(s: Seq<char>, n: int) -> Seq<char> {
    if s.len() <= n {
        s
    } else {
        s.take(n)
    }
}

/// Whether the keyword `kw` occurs, ignoring case, in the lowercased
/// title line `title` or opening `opening`.
pub open spec fn keyword_hit(title: Seq<char>, opening: Seq<char>, kw: Seq<char>) -> bool {
    contains_seq(title, unicode_lowercase(kw)) || contains_seq(opening, unicode_lowercase(kw))
}

/// The project a document's opening words put it under, by keyword.
pub open spec fn keyword_project(t: Seq<char>, o: Seq<char>) -> Option<Seq<char>> {
    if keyword_hit(t, o, "审计"@) || keyword_hit(t, o, "audit"@) || keyword_hit(t, o, "性能审计"@)
        || keyword_hit(t, o, "运行时审计"@) || keyword_hit(t, o, "交付概览"@) {
        Some("审计报告"@)
    } else if keyword_hit(t, o, "技能"@) || keyword_hit(t, o, "skill"@) || keyword_hit(t, o, "记忆存取"@)
        || keyword_hit(t, o, "记忆智能"@) || keyword_hit(t, o, "质量自控"@) || keyword_hit(t, o, "图谱导航"@)
        || keyword_hit(t, o, "知识图谱导航"@) {
        Some("技能设计"@)
    } else if keyword_hit(t, o, "工作记录"@) || keyword_hit(t, o, "工作全记录"@) || keyword_hit(
        t,
        o,
        "洞察推送"@,
    ) || keyword_hit(t, o, "闭环完成"@) {
        Some("工作记录"@)
    } else if keyword_hit(t, o, "SMRP强化"@) || keyword_hit(t, o, "EMRP"@) || keyword_hit(t, o, "响应协议"@) {
        Some("协议强化"@)
    } else if keyword_hit(t, o, "开发计划"@) || keyword_hit(t, o, "UserStory"@) || keyword_hit(
        t,
        o,
        "claude指南"@,
    ) || keyword_hit(t, o, "用户故事"@) {
        Some("开发规划"@)
    } else if keyword_hit(t, o, "调度器"@) || keyword_hit(t, o, "scheduler"@) || keyword_hit(t, o, "调度强化"@)
        || keyword_hit(t, o, "记忆智能化"@) {
        Some("引擎设计"@)
    } else {
        None
    }
}

/// The project a document's labels put it under.
pub open spec fn label_project(ls: Seq<Seq<char>>) -> Option<Seq<char>> {
    if ls.contains("networking"@) || ls.contains("protocol"@) {
        Some("协议规范"@)
    } else if ls.contains("security"@) {
        Some("安全设计"@)
    } else if ls.contains("devops"@) || ls.contains("infrastructure"@) {
        Some("部署与运维"@)
    } else if ls.contains("ai"@) || ls.contains("ml"@) {
        Some("研究报告"@)
    } else if ls.contains("database"@) || ls.contains("storage"@) {
        Some("数据库设计"@)
    } else if ls.contains("biology"@) || ls.contains("life"@) {
        Some("生命科学"@)
    } else if ls.contains("programming"@) || ls.contains("javascript"@) {
        Some("前端源码"@)
    } else if ls.contains("programming"@) || ls.contains("rust"@) {
        Some("后端源码"@)
    } else if ls.contains("system"@) || ls.contains("architecture"@) {
        Some("系统设计文档"@)
    } else if ls.contains("documentation"@) {
        Some("系统设计文档"@)
    } else {
        None
    }
}

/// The project a loose document goes under: by the keywords of its
/// lowercased first line and first 200 characters, else by its labels.
pub open spec fn orphan_project_spec(content: Seq<char>, ls: Seq<Seq<char>>) -> Option<Seq<char>> {
    let t = unicode_lowercase(first_line(content));
    let o = unicode_lowercase(head(content, 200));
    match keyword_project(t, o) {
        Some(p) => Some(p),
        None => label_project(ls),
    }
}

fn first_line_chars(s: &[char]) -> (r: Vec<char>)
    ensures
        r@ == first_line(s@),
{
    let e = find_char_from(s, '\n', 0);
    if e < s.len() && e > 0 && s[e - 1] == '\r' {
        slice_chars(s, 0, e - 1)
    } else {
        slice_chars(s, 0, e)
    }
}

fn strip_leading_chars(s: &[char], p: &[char]) -> (r: Vec<char>)
    ensures
        r@ == strip_leading(s@, p@),
{
    let mut cur: Vec<char> = slice_chars(s, 0, s.len());
    assert(cur@ =~= s@);
    if p.len() == 0 {
        return cur;
    }
    while starts_with(&cur, p)
        invariant
            p@.len() > 0,
            strip_leading(cur@, p@) == strip_leading(s@, p@),
        decreases cur@.len(),
    {
        let next = slice_chars(&cur, p.len(), cur.len());
        assert(next@ =~= cur@.skip(p@.len() as int));
        cur = next;
    }
    cur
}

/// The title of a memory: its first line without leading `# ` marks,
/// trimmed.
pub fn archive_title(content: &str) -> (r: String)
    ensures
        r@ == title_of(content@),
{
    let c = to_chars(content);
    let line = first_line_chars(&c);
    let mark = to_chars("# ");
    let stripped = strip_leading_chars(&line, &mark);
    let t = trim(&stripped);
    from_chars(&t)
}

fn lower_chars(s: &[char]) -> (r: Vec<char>)
    ensures
        r@ == unicode_lowercase(s@),
{
    let text = from_chars(s);
    let l = to_lowercase(text.as_str());
    to_chars(l.as_str())
}

fn hit(t: &[char], o: &[char], kw: &str) -> (r: bool)
    ensures
        r == keyword_hit(t@, o@, kw@),
{
    let k = lower_chars(&to_chars(kw));
    contains(t, &k) || contains(o, &k)
}

fn keyword_project_of(t: &[char], o: &[char]) -> (r: Option<&'static str>)
    ensures
        match r {
            Some(p) => keyword_project(t@, o@) == Some(p@),
            None => keyword_project(t@, o@) is None,
        },
{
    if hit(t, o, "审计") || hit(t, o, "audit") || hit(t, o, "性能审计") || hit(t, o, "运行时审计")
        || hit(t, o, "交付概览") {
        Some("审计报告")
    } else if hit(t, o, "技能") || hit(t, o, "skill") || hit(t, o, "记忆存取") || hit(t, o, "记忆智能")
        || hit(t, o, "质量自控") || hit(t, o, "图谱导航") || hit(t, o, "知识图谱导航") {
        Some("技能设计")
    } else if hit(t, o, "工作记录") || hit(t, o, "工作全记录") || hit(t, o, "洞察推送") || hit(
        t,
        o,
        "闭环完成",
    ) {
        Some("工作记录")
    } else if hit(t, o, "SMRP强化") || hit(t, o, "EMRP") || hit(t, o, "响应协议") {
        Some("协议强化")
    } else if hit(t, o, "开发计划") || hit(t, o, "UserStory") || hit(t, o, "claude指南") || hit(
        t,
        o,
        "用户故事",
    ) {
        Some("开发规划")
    } else if hit(t, o, "调度器") || hit(t, o, "scheduler") || hit(t, o, "调度强化") || hit(
        t,
        o,
        "记忆智能化",
    ) {
        Some("引擎设计")
    } else {
        None
    }
}

fn label_project_of(ls: &Vec<String>) -> (r: Option<&'static str>)
    ensures
        match r {
            Some(p) => label_project(strings_view(ls@)) == Some(p@),
            None => label_project(strings_view(ls@)) is None,
        },
{
    if label_present(ls, "networking") || label_present(ls, "protocol") {
        Some("协议规范")
    } else if label_present(ls, "security") {
        Some("安全设计")
    } else if label_present(ls, "devops") || label_present(ls, "infrastructure") {
        Some("部署与运维")
    } else if label_present(ls, "ai") || label_present(ls, "ml") {
        Some("研究报告")
    } else if label_present(ls, "database") || label_present(ls, "storage") {
        Some("数据库设计")
    } else if label_present(ls, "biology") || label_present(ls, "life") {
        Some("生命科学")
    } else if label_present(ls, "programming") || label_present(ls, "javascript") {
        Some("前端源码")
    } else if label_present(ls, "programming") || label_present(ls, "rust") {
        Some("后端源码")
    } else if label_present(ls, "system") || label_present(ls, "architecture") {
        Some("系统设计文档")
    } else if label_present(ls, "documentation") {
        Some("系统设计文档")
    } else {
        None
    }
}

/// The project title a loose `doc` or `code` node goes under: the first
/// keyword group found (ignoring case) in its first line or first 200
/// characters, else the first label group it carries; `None` leaves it at
/// the top.
pub fn orphan_project(content: &str, labels: &Vec<String>) -> (r: Option<&'static str>)
    ensures
        match r {
            Some(p) => orphan_project_spec(content@, strings_view(labels@)) == Some(p@),
            None => orphan_project_spec(content@, strings_view(labels@)) is None,
        },
{
    let c = to_chars(content);
    let line = first_line_chars(&c);
    let t = lower_chars(&line);
    let n: usize = if c.len() <= 200 {
        c.len()
    } else {
        200
    };
    let opening = slice_chars(&c, 0, n);
    assert(opening@ =~= head(c@, 200));
    let o = lower_chars(&opening);
    match keyword_project_of(&t, &o) {
        Some(p) => Some(p),
        None => label_project_of(labels),
    }
}

/// The first memory whose title is `title`, if any.
pub fn find_titled(meta: &Vec<ArchiveMeta>, title: &str) -> (r: Option<usize>)
    ensures
        match r {
            Some(k) => k < meta@.len() && title_of(meta@[k as int].content@) == title@ && forall|j: int|
                0 <= j < k ==> title_of(#[trigger] meta@[j].content@) != title@,
            None => forall|j: int| 0 <= j < meta@.len() ==> title_of(#[trigger] meta@[j].content@) != title@,
        },
{
    let mut i: usize = 0;
    while i < meta.len()
        invariant
            i <= meta@.len(),
            forall|j: int| 0 <= j < i ==> title_of(#[trigger] meta@[j].content@) != title@,
        decreases meta.len() - i,
    {
        let t = archive_title(meta[i].content.as_str());
        if str_eq(t.as_str(), title) {
            return Some(i);
        }
        i += 1;
    }
    None
}

/// The first memory titled `title`: its position.
pub open spec fn first_titled(meta: Seq<(u64, Seq<char>, Seq<Seq<char>>)>, title: Seq<char>) -> Option<int>
    decreases meta.len(),
{
    if meta.len() == 0 {
        None
    } else if title_of(meta[0].1) == title {
        Some(0)
    } else {
        match first_titled(meta.drop_first(), title) {
            Some(k) => Some(k + 1),
            None => None,
        }
    }
}

/// The node of the system design project: the first memory titled
/// `系统设计文档`.
pub open spec fn design_node(meta: Seq<(u64, Seq<char>, Seq<Seq<char>>)>) -> Option<i64> {
    match first_titled(meta, "系统设计文档"@) {
        Some(k) => Some(meta[k].0 as i64),
        None => None,
    }
}

/// The last memory with id `id`.
pub open spec fn last_meta(meta: Seq<(u64, Seq<char>, Seq<Seq<char>>)>, id: u64) -> Option<(u64, Seq<char>, Seq<Seq<char>>)>
    decreases meta.len(),
{
    if meta.len() == 0 {
        None
    } else if meta.last().0 == id {
        Some(meta.last())
    } else {
        last_meta(meta.drop_last(), id)
    }
}

/// Whether a row is a loose document once the design project's children
/// are let go: a `doc` or `code` node with no parent, or with the design
/// project as parent.
pub open spec fn loose(r: ArchiveNodeRow, design: Option<i64>) -> bool {
    (r.parent_id is None || (design is Some && r.parent_id == design)) && (r.node_type@ == "doc"@
        || r.node_type@ == "code"@)
}

/// The moves of loose documents under projects, in row order: each loose
/// node that is a memory and that [`orphan_project_spec`] places.
pub open spec fn orphan_moves_spec(
    meta: Seq<(u64, Seq<char>, Seq<Seq<char>>)>,
    rows: Seq<ArchiveNodeRow>,
    design: Option<i64>,
) -> Seq<(i64, Seq<char>)>
    decreases rows.len(),
{
    if rows.len() == 0 {
        Seq::empty()
    } else {
        let prev = orphan_moves_spec(meta, rows.drop_last(), design);
        let r = rows.last();
        if loose(r, design) {
            match last_meta(meta, r.node_id as u64) {
                Some(m) => match orphan_project_spec(m.1, m.2) {
                    Some(t) => prev.push((r.node_id, t)),
                    None => prev,
                },
                None => prev,
            }
        } else {
            prev
        }
    }
}

/// The rows whose parent is the design project: their parent is cleared
/// so that they are grouped again.
pub open spec fn design_resets_spec(rows: Seq<ArchiveNodeRow>, design: Option<i64>) -> Seq<i64>
    decreases rows.len(),
{
    if rows.len() == 0 {
        Seq::empty()
    } else {
        let prev = design_resets_spec(rows.drop_last(), design);
        if design is Some && rows.last().parent_id == design {
            prev.push(rows.last().node_id)
        } else {
            prev
        }
    }
}

/// How loose documents are regrouped: the nodes whose parent is cleared
/// and, for each loose document, the title of the project it moves under
/// (the caller finds or creates that project).
pub struct Regrouping {
    pub resets: Vec<i64>,
    pub moves: Vec<(i64, &'static str)>,
}

pub open spec fn moves_view(v: Seq<(i64, &'static str)>) -> Seq<(i64, Seq<char>)> {
    v.map_values(|m: (i64, &'static str)| (m.0, m.1@))
}

fn last_meta_index(meta: &Vec<ArchiveMeta>, id: u64) -> (r: Option<usize>)
    ensures
        match r {
            Some(k) => k < meta@.len() && last_meta(metas_view(meta@), id) == Some(meta_view(meta@[k as int])),
            None => last_meta(metas_view(meta@), id) is None,
        },
{
    let ghost mv = metas_view(meta@);
    let mut j: usize = meta.len();
    assert(mv.take(j as int) =~= mv);
    while j > 0
        invariant
            j <= meta@.len(),
            mv == metas_view(meta@),
            last_meta(mv, id) == last_meta(mv.take(j as int), id),
        decreases j,
    {
        let ghost t = mv.take(j as int);
        assert(t.last() == meta_view(meta@[j - 1]));
        assert(t.drop_last() =~= mv.take(j - 1));
        if meta[j - 1].id == id {
            return Some(j - 1);
        }
        j -= 1;
    }
    None
}

proof fn lemma_first_titled(meta: Seq<(u64, Seq<char>, Seq<Seq<char>>)>, title: Seq<char>, k: int)
    requires
        0 <= k <= meta.len(),
        forall|j: int| 0 <= j < k ==> title_of(#[trigger] meta[j].1) != title,
    ensures
        k < meta.len() && title_of(meta[k].1) == title ==> first_titled(meta, title) == Some(k),
        k == meta.len() ==> first_titled(meta, title) is None,
    decreases k,
{
    if k > 0 && meta.len() > 0 {
        assert forall|j: int| 0 <= j < k - 1 implies title_of(#[trigger] meta.drop_first()[j].1) != title by {
            assert(meta.drop_first()[j] == meta[j + 1]);
        }
        lemma_first_titled(meta.drop_first(), title, k - 1);
    }
}

/// Plans the regrouping of loose documents over the memories and the live
/// rows of the table.
pub fn plan_regrouping(meta: &Vec<ArchiveMeta>, rows: &Vec<ArchiveNodeRow>) -> (r: Regrouping)
    ensures
        r.resets@ == design_resets_spec(rows@, design_node(metas_view(meta@))),
        moves_view(r.moves@) == orphan_moves_spec(metas_view(meta@), rows@, design_node(metas_view(meta@))),
{
    let ghost mv = metas_view(meta@);
    let design: Option<i64> = match find_titled(meta, "系统设计文档") {
        Some(k) => {
            proof {
                assert forall|j: int| 0 <= j < k implies title_of(#[trigger] mv[j].1) != "系统设计文档"@ by {
                    assert(mv[j].1 == meta@[j].content@);
                }
                lemma_first_titled(mv, "系统设计文档"@, k as int);
            }
            Some(#[verifier::truncate] (meta[k].id as i64))
        },
        None => {
            proof {
                assert forall|j: int| 0 <= j < mv.len() implies title_of(#[trigger] mv[j].1) != "系统设计文档"@ by {
                    assert(mv[j].1 == meta@[j].content@);
                }
                lemma_first_titled(mv, "系统设计文档"@, mv.len() as int);
            }
            None
        },
    };
    assert(design == design_node(mv));
    let mut resets: Vec<i64> = Vec::new();
    let mut moves: Vec<(i64, &'static str)> = Vec::new();
    let mut i: usize = 0;
    assert(rows@.take(0) =~= Seq::<ArchiveNodeRow>::empty());
    while i < rows.len()
        invariant
            i <= rows@.len(),
            mv == metas_view(meta@),
            design == design_node(mv),
            resets@ == design_resets_spec(rows@.take(i as int), design),
            moves_view(moves@) == orphan_moves_spec(mv, rows@.take(i as int), design),
        decreases rows.len() - i,
    {
        let r = &rows[i];
        assert(rows@.take(i as int + 1).drop_last() =~= rows@.take(i as int));
        assert(rows@.take(i as int + 1).last() == rows@[i as int]);
        let under_design = match (design, r.parent_id) {
            (Some(d), Some(p)) => d == p,
            _ => false,
        };
        if under_design {
            resets.push(r.node_id);
        }
        let is_loose = (r.parent_id.is_none() || under_design) && (str_eq(r.node_type.as_str(), "doc")
            || str_eq(r.node_type.as_str(), "code"));
        if is_loose {
            match last_meta_index(meta, #[verifier::truncate] (r.node_id as u64)) {
                Some(k) => match orphan_project(meta[k].content.as_str(), &meta[k].labels) {
                    Some(t) => {
                        let ghost before = moves@;
                        moves.push((r.node_id, t));
                        assert(moves_view(moves@) =~= moves_view(before).push((r.node_id, t@)));
                    },
                    None => {},
                },
                None => {},
            }
        }
        i += 1;
    }
    assert(rows@.take(rows@.len() as int) =~= rows@);
    Regrouping { resets, moves }
}

/// Where a loose document without keyword hits goes, by its labels, the
/// first group it carries deciding: networking or protocol to 协议规范,
/// security to 安全设计, devops or infrastructure to 部署与运维, ai or ml to
/// 研究报告, database or storage to 数据库设计, biology or life to 生命科学,
/// programming or javascript to 前端源码, rust to 后端源码, system,
/// architecture or documentation to 系统设计文档; with none of them it
/// stays at the top.
pub proof fn law_orphan_label_groups(content: Seq<char>, ls: Seq<Seq<char>>)
    requires
        keyword_project(unicode_lowercase(first_line(content)), unicode_lowercase(head(content, 200)))
            is None,
    ensures
        ls.contains("networking"@) || ls.contains("protocol"@) ==> orphan_project_spec(content, ls)
            == Some("协议规范"@),
        !ls.contains("networking"@) && !ls.contains("protocol"@) && ls.contains("security"@)
            ==> orphan_project_spec(content, ls) == Some("安全设计"@),
        !ls.contains("networking"@) && !ls.contains("protocol"@) && !ls.contains("security"@) && (
        ls.contains("devops"@) || ls.contains("infrastructure"@)) ==> orphan_project_spec(content, ls)
            == Some("部署与运维"@),
        !ls.contains("networking"@) && !ls.contains("protocol"@) && !ls.contains("security"@)
            && !ls.contains("devops"@) && !ls.contains("infrastructure"@) && (ls.contains("ai"@)
            || ls.contains("ml"@)) ==> orphan_project_spec(content, ls) == Some("研究报告"@),
        !ls.contains("networking"@) && !ls.contains("protocol"@) && !ls.contains("security"@)
            && !ls.contains("devops"@) && !ls.contains("infrastructure"@) && !ls.contains("ai"@)
            && !ls.contains("ml"@) && (ls.contains("database"@) || ls.contains("storage"@))
            ==> orphan_project_spec(content, ls) == Some("数据库设计"@),
        !ls.contains("networking"@) && !ls.contains("protocol"@) && !ls.contains("security"@)
            && !ls.contains("devops"@) && !ls.contains("infrastructure"@) && !ls.contains("ai"@)
            && !ls.contains("ml"@) && !ls.contains("database"@) && !ls.contains("storage"@) && (
        ls.contains("biology"@) || ls.contains("life"@)) ==> orphan_project_spec(content, ls)
            == Some("生命科学"@),
        !ls.contains("networking"@) && !ls.contains("protocol"@) && !ls.contains("security"@)
            && !ls.contains("devops"@) && !ls.contains("infrastructure"@) && !ls.contains("ai"@)
            && !ls.contains("ml"@) && !ls.contains("database"@) && !ls.contains("storage"@)
            && !ls.contains("biology"@) && !ls.contains("life"@) && (ls.contains("programming"@)
            || ls.contains("javascript"@)) ==> orphan_project_spec(content, ls) == Some("前端源码"@),
        !ls.contains("networking"@) && !ls.contains("protocol"@) && !ls.contains("security"@)
            && !ls.contains("devops"@) && !ls.contains("infrastructure"@) && !ls.contains("ai"@)
            && !ls.contains("ml"@) && !ls.contains("database"@) && !ls.contains("storage"@)
            && !ls.contains("biology"@) && !ls.contains("life"@) && !ls.contains("programming"@)
            && !ls.contains("javascript"@) && ls.contains("rust"@) ==> orphan_project_spec(content, ls)
            == Some("后端源码"@),
        !ls.contains("networking"@) && !ls.contains("protocol"@) && !ls.contains("security"@)
            && !ls.contains("devops"@) && !ls.contains("infrastructure"@) && !ls.contains("ai"@)
            && !ls.contains("ml"@) && !ls.contains("database"@) && !ls.contains("storage"@)
            && !ls.contains("biology"@) && !ls.contains("life"@) && !ls.contains("programming"@)
            && !ls.contains("javascript"@) && !ls.contains("rust"@) && (ls.contains("system"@)
            || ls.contains("architecture"@) || ls.contains("documentation"@)) ==> orphan_project_spec(
            content,
            ls,
        ) == Some("系统设计文档"@),
        !ls.contains("networking"@) && !ls.contains("protocol"@) && !ls.contains("security"@)
            && !ls.contains("devops"@) && !ls.contains("infrastructure"@) && !ls.contains("ai"@)
            && !ls.contains("ml"@) && !ls.contains("database"@) && !ls.contains("storage"@)
            && !ls.contains("biology"@) && !ls.contains("life"@) && !ls.contains("programming"@)
            && !ls.contains("javascript"@) && !ls.contains("rust"@) && !ls.contains("system"@)
            && !ls.contains("architecture"@) && !ls.contains("documentation"@) ==> orphan_project_spec(
            content,
            ls,
        ) is None,
{
}

/// Keywords decide before labels: a loose document whose lowercased first
/// line or first 200 characters hold a keyword goes under that keyword's
/// project whatever its labels, the first group found deciding: audit words
/// to 审计报告, skill words to 技能设计, work-log words to 工作记录,
/// protocol-hardening words to 协议强化, planning words to 开发规划 and
/// scheduler words to 引擎设计.
pub proof fn law_orphan_keyword_groups(content: Seq<char>, ls: Seq<Seq<char>>)
    ensures
        ({
            let t = unicode_lowercase(first_line(content));
            let o = unicode_lowercase(head(content, 200));
            let g1 = keyword_hit(t, o, "审计"@) || keyword_hit(t, o, "audit"@) || keyword_hit(t, o, "性能审计"@)
                || keyword_hit(t, o, "运行时审计"@) || keyword_hit(t, o, "交付概览"@);
            let g2 = keyword_hit(t, o, "技能"@) || keyword_hit(t, o, "skill"@) || keyword_hit(t, o, "记忆存取"@)
                || keyword_hit(t, o, "记忆智能"@) || keyword_hit(t, o, "质量自控"@) || keyword_hit(t, o, "图谱导航"@)
                || keyword_hit(t, o, "知识图谱导航"@);
            let g3 = keyword_hit(t, o, "工作记录"@) || keyword_hit(t, o, "工作全记录"@) || keyword_hit(t, o, "洞察推送"@)
                || keyword_hit(t, o, "闭环完成"@);
            let g4 = keyword_hit(t, o, "SMRP强化"@) || keyword_hit(t, o, "EMRP"@) || keyword_hit(t, o, "响应协议"@);
            let g5 = keyword_hit(t, o, "开发计划"@) || keyword_hit(t, o, "UserStory"@) || keyword_hit(t, o, "claude指南"@)
                || keyword_hit(t, o, "用户故事"@);
            let g6 = keyword_hit(t, o, "调度器"@) || keyword_hit(t, o, "scheduler"@) || keyword_hit(t, o, "调度强化"@)
                || keyword_hit(t, o, "记忆智能化"@);
            &&& g1 ==> orphan_project_spec(content, ls) == Some("审计报告"@)
            &&& !g1 && g2 ==> orphan_project_spec(content, ls) == Some("技能设计"@)
            &&& !g1 && !g2 && g3 ==> orphan_project_spec(content, ls) == Some("工作记录"@)
            &&& !g1 && !g2 && !g3 && g4 ==> orphan_project_spec(content, ls) == Some("协议强化"@)
            &&& !g1 && !g2 && !g3 && !g4 && g5 ==> orphan_project_spec(content, ls) == Some("开发规划"@)
            &&& !g1 && !g2 && !g3 && !g4 && !g5 && g6 ==> orphan_project_spec(content, ls) == Some("引擎设计"@)
            &&& !g1 && !g2 && !g3 && !g4 && !g5 && !g6 ==> orphan_project_spec(content, ls) == label_project(ls)
        }),
{
}

} // verus!
