//! Plain records the storage layer hands out: archive nodes, the outcome
//! of loading a store, and backups.

use vstd::prelude::*;
use crate::logscan::{sort_dedup, strictly_sorted};
use crate::strs::{ends_with, ends_with_seq, from_chars, slice_chars, starts_with, starts_with_seq, strings_view, to_chars};

verus! {

/// A node of the archive tree.
#[derive(Clone, Debug)]
pub struct ArchiveNodeRow {
    pub node_id: i64,
    pub parent_id: Option<i64>,
    pub node_type: String,
    pub category: String,
    pub created_ts: i64,
    pub updated_ts: i64,
}

/// What loading a store restored, and what failed.
#[derive(Debug)]
pub struct LoadReport {
    pub space_ok: bool,
    pub kg_ok: bool,
    pub tetras_loaded: usize,
    pub relations_loaded: usize,
    pub concepts_loaded: usize,
    pub port_occupancy_restored: usize,
    pub space_error: Option<String>,
    pub kg_error: Option<String>,
}

impl Default for LoadReport {
    fn default() -> (r: LoadReport)
        ensures
            !r.space_ok && !r.kg_ok,
            r.tetras_loaded == 0 && r.relations_loaded == 0 && r.concepts_loaded == 0,
            r.port_occupancy_restored == 0,
            r.space_error is None && r.kg_error is None,
    {
        LoadReport {
            space_ok: false,
            kg_ok: false,
            tetras_loaded: 0,
            relations_loaded: 0,
            concepts_loaded: 0,
            port_occupancy_restored: 0,
            space_error: None,
            kg_error: None,
        }
    }
}

/// A backup file.
#[derive(Clone, Debug)]
pub struct BackupInfo {
    pub timestamp: String,
    pub size_bytes: u64,
    pub filename: String,
}


/// Whether a file name is `prefix`, something, `suffix`.
pub open spec fn named_like(name: Seq<char>, prefix: Seq<char>, suffix: Seq<char>) -> bool {
    starts_with_seq(name, prefix) && ends_with_seq(name, suffix)
}

fn is_named_like(name: &str, prefix: &str, suffix: &str) -> (r: bool)
    ensures
        r == named_like(name@, prefix@, suffix@),
{
    let n = to_chars(name);
    let p = to_chars(prefix);
    let s = to_chars(suffix);
    starts_with(&n, &p) && ends_with(&n, &s)
}

/// The backup files to delete so that only the `keep` newest remain: among
/// the names that are `prefix`, a timestamp, `suffix`, all but the `keep`
/// greatest, oldest first.
pub fn backups_to_prune(names: &Vec<String>, prefix: &str, suffix: &str, keep: usize) -> (r: Vec<String>)
    ensures
        exists|sorted: Seq<Seq<char>>|
            {
                &&& strictly_sorted(sorted)
                &&& forall|x: Seq<char>|
                    sorted.contains(x) <==> (strings_view(names@).contains(x) && named_like(
                        x,
                        prefix@,
                        suffix@,
                    ))
                &&& strings_view(r@) == if sorted.len() > keep {
                    sorted.take(sorted.len() - keep)
                } else {
                    Seq::empty()
                }
            },
{
    let mut matching: Vec<String> = Vec::new();
    let ghost nv = strings_view(names@);
    let mut i: usize = 0;
    while i < names.len()
        invariant
            nv == strings_view(names@),
            i <= names@.len(),
            strings_view(matching@) == named_only(nv.take(i as int), prefix@, suffix@),
        decreases names.len() - i,
    {
        proof {
            assert(nv.take(i + 1).drop_last() =~= nv.take(i as int));
            assert(nv.take(i + 1).last() == names@[i as int]@);
        }
        if is_named_like(names[i].as_str(), prefix, suffix) {
            let ghost before = strings_view(matching@);
            matching.push(names[i].clone());
            assert(strings_view(matching@) =~= before.push(names@[i as int]@));
        }
        i += 1;
    }
    proof {
        assert(nv.take(nv.len() as int) =~= nv);
        lemma_named_only(nv, prefix@, suffix@);
    }
    let sorted = sort_dedup(&matching);
    let mut out: Vec<String> = Vec::new();
    if sorted.len() > keep {
        let n = sorted.len() - keep;
        let mut j: usize = 0;
        while j < n
            invariant
                n == sorted@.len() - keep,
                j <= n,
                strings_view(out@) == strings_view(sorted@).take(j as int),
            decreases n - j,
        {
            let ghost before = out@;
            out.push(sorted[j].clone());
            assert(strings_view(out@) =~= strings_view(before).push(sorted@[j as int]@));
            j += 1;
            assert(strings_view(out@) =~= strings_view(sorted@).take(j as int));
        }
    } else {
        assert(strings_view(out@) =~= Seq::<Seq<char>>::empty());
    }
    out
}

/// The backup record of a file named `epicode_` timestamp `.db`.
pub fn backup_info(name: &str, size_bytes: u64) -> (r: Option<BackupInfo>)
    ensures
        match r {
            Some(b) => named_like(name@, "epicode_"@, ".db"@) && b.filename@ == name@ && b.size_bytes
                == size_bytes && b.timestamp@ == name@.subrange(8, name@.len() - 3),
            None => !named_like(name@, "epicode_"@, ".db"@),
        },
{
    if !is_named_like(name, "epicode_", ".db") {
        return None;
    }
    proof {
        reveal_strlit("epicode_");
        reveal_strlit(".db");
    }
    let chars = to_chars(name);
    proof {
        let n = name@;
        assert(n.subrange(0, 8) == "epicode_"@);
        assert(n.subrange(n.len() - 3, n.len() as int) == ".db"@);
        if n.len() < 11 {
            assert(n.subrange(n.len() - 3, n.len() as int)[0] == '.');
            assert(n[n.len() - 3] == '.');
            assert(n.subrange(0, 8)[n.len() - 3] == n[n.len() - 3]);
        }
    }
    let ts = slice_chars(&chars, 8, chars.len() - 3);
    Some(BackupInfo { timestamp: from_chars(&ts), size_bytes, filename: name.to_owned() })
}


/// The names of `v` that are `prefix`, something, `suffix`, in order.
pub open spec fn named_only(v: Seq<Seq<char>>, prefix: Seq<char>, suffix: Seq<char>) -> Seq<Seq<char>>
    decreases v.len(),
{
    if v.len() == 0 {
        v
    } else if named_like(v.last(), prefix, suffix) {
        named_only(v.drop_last(), prefix, suffix).push(v.last())
    } else {
        named_only(v.drop_last(), prefix, suffix)
    }
}

proof fn lemma_named_only(v: Seq<Seq<char>>, prefix: Seq<char>, suffix: Seq<char>)
    ensures
        forall|x: Seq<char>|
            named_only(v, prefix, suffix).contains(x) <==> (v.contains(x) && named_like(x, prefix, suffix)),
    decreases v.len(),
{
    if v.len() > 0 {
        lemma_named_only(v.drop_last(), prefix, suffix);
        let r0 = named_only(v.drop_last(), prefix, suffix);
        let r = named_only(v, prefix, suffix);
        assert forall|x: Seq<char>| r.contains(x) <==> (v.contains(x) && named_like(x, prefix, suffix)) by {
            if v.contains(x) && named_like(x, prefix, suffix) {
                let k = choose|k: int| 0 <= k < v.len() && v[k] == x;
                if k < v.len() - 1 {
                    assert(v.drop_last()[k] == x);
                    assert(v.drop_last().contains(x));
                    assert(r0.contains(x));
                    let m = choose|m: int| 0 <= m < r0.len() && r0[m] == x;
                    if named_like(v.last(), prefix, suffix) {
                        assert(r[m] == r0[m]);
                    }
                    assert(r.contains(x));
                } else {
                    assert(v.last() == x);
                    assert(r[r.len() - 1] == x);
                }
            }
            if r.contains(x) {
                let m = choose|m: int| 0 <= m < r.len() && r[m] == x;
                if m < r0.len() {
                    assert(r0[m] == r[m]);
                    assert(r0.contains(x));
                    assert(v.drop_last().contains(x));
                    let k = choose|k: int| 0 <= k < v.drop_last().len() && v.drop_last()[k] == x;
                    assert(v[k] == v.drop_last()[k]);
                } else {
                    assert(x == v.last());
                    assert(v[v.len() - 1] == x);
                }
            }
        }
    }
}

} // verus!
