//! Search-result cache bookkeeping: hit and miss counters, and the cache
//! key of a query with its filters (SHA-256 over the query and filter
//! bytes, in hex).

use vstd::prelude::*;
use std::sync::Arc;
use crate::accounts::{sha256, sha256_digest};
use crate::hashing::hex_digit;
use crate::strs::{from_chars, push_str_chars, strings_view};

verus! {

broadcast use vstd::utf8::group_utf8_lib;

/// Hit and miss counters of the two cache levels.
#[derive(Clone, Copy, Debug, PartialEq, Eq, Structural)]
pub struct CacheStats {
    pub l1_hits: u64,
    pub l1_misses: u64,
    pub l2_hits: u64,
    pub l2_misses: u64,
    pub evictions: u64,
}

impl CacheStats {
    /// Shared counters, all zero.
    pub fn new() -> (r: Arc<CacheStats>)
        ensures
            *r == (CacheStats { l1_hits: 0, l1_misses: 0, l2_hits: 0, l2_misses: 0, evictions: 0 }),
    {
        Arc::new(CacheStats { l1_hits: 0, l1_misses: 0, l2_hits: 0, l2_misses: 0, evictions: 0 })
    }
}

/// Filters of a search. The importance bounds, floats, are carried as
/// their IEEE-754 bits.
#[derive(Debug)]
pub struct SearchFilters {
    pub labels: Option<Vec<String>>,
    pub min_importance_bits: Option<u64>,
    pub max_importance_bits: Option<u64>,
    pub since_ts: Option<i64>,
    pub until_ts: Option<i64>,
    pub project: Option<String>,
}

/// The eight little-endian bytes of `x` (`u64::to_le_bytes`).
pub open spec fn le_bytes(x: u64) -> Seq<u8> {
    Seq::new(8, |i: int| ((x >> (8 * i) as u64) & 0xff) as u8)
}

/// The little-endian bytes of `x`.
pub fn to_le_bytes(x: u64) -> (r: Vec<u8>)
    ensures
        r@ == le_bytes(x),
{
    let mut out: Vec<u8> = Vec::new();
    let mut i: u64 = 0;
    while i < 8
        invariant
            i <= 8,
            out@ == le_bytes(x).take(i as int),
        decreases 8 - i,
    {
        let sh: u64 = 8 * i;
        let b = ((x >> sh) & 0xff) as u8;
        assert(b == le_bytes(x)[i as int]);
        out.push(b);
        assert(out@ =~= le_bytes(x).take(i + 1));
        i += 1;
    }
    assert(le_bytes(x).take(8) =~= le_bytes(x));
    out
}

/// The UTF-8 bytes of the strings of `v`, one after another.
pub open spec fn concat_bytes(v: Seq<Seq<char>>) -> Seq<u8>
    decreases v.len(),
{
    if v.len() == 0 {
        Seq::empty()
    } else {
        concat_bytes(v.drop_last()) + vstd::utf8::encode_utf8(v.last())
    }
}

/// The bytes of an optional 64-bit value: its little-endian bytes, or none.
pub open spec fn opt_le(o: Option<u64>) -> Seq<u8> {
    match o {
        Some(b) => le_bytes(b),
        None => Seq::empty(),
    }
}

/// The bytes of an optional signed value, as its two's-complement bits.
pub open spec fn opt_le_signed(o: Option<i64>) -> Seq<u8> {
    match o {
        Some(t) => le_bytes(t as u64),
        None => Seq::empty(),
    }
}

/// The bytes of the filters that are set: labels, importance bounds, time
/// bounds, project.
pub open spec fn filter_key_bytes(f: SearchFilters) -> Seq<u8> {
    labels_bytes(f.labels) + opt_le(f.min_importance_bits) + opt_le(f.max_importance_bits)
        + opt_le_signed(f.since_ts) + opt_le_signed(f.until_ts) + project_bytes(f.project)
}

/// The bytes a query key is computed over: the query, then the filters.
pub open spec fn query_key_bytes(query: Seq<char>, filters: Option<SearchFilters>) -> Seq<u8> {
    vstd::utf8::encode_utf8(query) + match filters {
        None => Seq::empty(),
        Some(f) => filter_key_bytes(f),
    }
}

/// Lowercase hex of `bytes`, two digits per byte, high digit first.
pub open spec fn hex_of(bytes: Seq<u8>) -> Seq<char> {
    Seq::new(
        2 * bytes.len(),
        |i: int|
            if i % 2 == 0 {
                hex_digit((bytes[i / 2] >> 4u8) as u64)
            } else {
                hex_digit((bytes[i / 2] & 15u8) as u64)
            },
    )
}

/// Calls `hex::encode`: lowercase hex, two digits per byte, high digit first.
#[verifier::external_body]
fn hex_encode(bytes: &[u8]) -> (r: String)
    ensures
        r@ == hex_of(bytes@),
{
    hex::encode(bytes)
}

fn push_bytes(out: &mut Vec<u8>, b: &[u8])
    ensures
        final(out)@ == old(out)@ + b@,
{
    let mut i: usize = 0;
    while i < b.len()
        invariant
            i <= b@.len(),
            out@ == old(out)@ + b@.take(i as int),
        decreases b.len() - i,
    {
        out.push(b[i]);
        i += 1;
        assert(out@ =~= old(out)@ + b@.take(i as int));
    }
    assert(b@.take(b@.len() as int) =~= b@);
}

fn push_opt(out: &mut Vec<u8>, o: Option<u64>)
    ensures
        final(out)@ == old(out)@ + opt_le(o),
{
    if let Some(b) = o {
        push_bytes(out, to_le_bytes(b).as_slice());
    } else {
        assert(old(out)@ + opt_le(o) =~= old(out)@);
    }
}

fn push_opt_signed(out: &mut Vec<u8>, o: Option<i64>)
    ensures
        final(out)@ == old(out)@ + opt_le_signed(o),
{
    if let Some(t) = o {
        push_bytes(out, to_le_bytes(t as u64).as_slice());
    } else {
        assert(old(out)@ + opt_le_signed(o) =~= old(out)@);
    }
}

/// The bytes of the optional labels.
pub open spec fn labels_bytes(l: Option<Vec<String>>) -> Seq<u8> {
    match l {
        Some(l) => concat_bytes(strings_view(l@)),
        None => Seq::empty(),
    }
}

/// The bytes of the optional project.
pub open spec fn project_bytes(p: Option<String>) -> Seq<u8> {
    match p {
        Some(p) => vstd::utf8::encode_utf8(p@),
        None => Seq::empty(),
    }
}

fn push_labels(out: &mut Vec<u8>, labels: &Option<Vec<String>>)
    ensures
        final(out)@ == old(out)@ + labels_bytes(*labels),
{
    let ghost head = out@;
    if let Some(labels) = labels {
        let mut i: usize = 0;
        while i < labels.len()
            invariant
                i <= labels@.len(),
                out@ == head + concat_bytes(strings_view(labels@).take(i as int)),
            decreases labels.len() - i,
        {
            proof {
                assert(strings_view(labels@).take(i + 1).drop_last() =~= strings_view(labels@).take(
                    i as int,
                ));
            }
            push_bytes(out, labels[i].as_str().as_bytes());
            i += 1;
            assert(out@ =~= head + concat_bytes(strings_view(labels@).take(i as int)));
        }
        assert(strings_view(labels@).take(labels@.len() as int) =~= strings_view(labels@));
    } else {
        assert(out@ =~= head + labels_bytes(None));
    }
}

fn push_project(out: &mut Vec<u8>, project: &Option<String>)
    ensures
        final(out)@ == old(out)@ + project_bytes(*project),
{
    if let Some(p) = project {
        push_bytes(out, p.as_str().as_bytes());
    } else {
        assert(old(out)@ + project_bytes(None) =~= old(out)@);
    }
}

fn push_filter_bytes(out: &mut Vec<u8>, f: &SearchFilters)
    ensures
        final(out)@ == old(out)@ + filter_key_bytes(*f),
{
    let ghost o0 = out@;
    push_labels(out, &f.labels);
    let ghost o1 = out@;
    push_opt(out, f.min_importance_bits);
    let ghost o2 = out@;
    push_opt(out, f.max_importance_bits);
    let ghost o3 = out@;
    push_opt_signed(out, f.since_ts);
    let ghost o4 = out@;
    push_opt_signed(out, f.until_ts);
    let ghost o5 = out@;
    push_project(out, &f.project);
    assert(out@ =~= o0 + (labels_bytes(f.labels) + opt_le(f.min_importance_bits) + opt_le(
        f.max_importance_bits,
    ) + opt_le_signed(f.since_ts) + opt_le_signed(f.until_ts) + project_bytes(f.project)));
}

/// The cache key of a query with its filters: `search:` and the hex
/// SHA-256 of the query and the filters that are set.
pub fn generate_query_key(query: &str, filters: Option<&SearchFilters>) -> (r: String)
    ensures
        r@.len() == 71,
        r@ == "search:"@ + hex_of(sha256_digest(query_key_bytes(query@, match filters {
            Some(f) => Some(*f),
            None => None,
        }))),
{
    let mut data: Vec<u8> = Vec::new();
    push_bytes(&mut data, query.as_bytes());
    if let Some(f) = filters {
        push_filter_bytes(&mut data, f);
    }
    assert(data@ =~= query_key_bytes(query@, match filters {
        Some(f) => Some(*f),
        None => None,
    }));
    let digest = sha256(&data);
    let hex = hex_encode(digest.as_slice());
    let mut out: Vec<char> = Vec::new();
    push_str_chars(&mut out, "search:");
    push_str_chars(&mut out, hex.as_str());
    proof {
        reveal_strlit("search:");
    }
    from_chars(&out)
}


/// The little-endian bytes of each value of `v`, one after another.
pub open spec fn concat_le(v: Seq<u64>) -> Seq<u8>
    decreases v.len(),
{
    if v.len() == 0 {
        Seq::empty()
    } else {
        concat_le(v.drop_last()) + le_bytes(v.last())
    }
}

/// The cache key of a query vector with its filters: `search:` and the hex
/// SHA-256 of the vector's components (as IEEE-754 bits, little-endian)
/// and the filters that are set.
pub fn generate_cache_key(query_vector_bits: &[u64], filters: &SearchFilters) -> (r: String)
    ensures
        r@.len() == 71,
        r@ == "search:"@ + hex_of(sha256_digest(concat_le(query_vector_bits@) + filter_key_bytes(*filters))),
{
    let mut data: Vec<u8> = Vec::new();
    let mut i: usize = 0;
    while i < query_vector_bits.len()
        invariant
            i <= query_vector_bits@.len(),
            data@ == concat_le(query_vector_bits@.take(i as int)),
        decreases query_vector_bits.len() - i,
    {
        proof {
            assert(query_vector_bits@.take(i + 1).drop_last() =~= query_vector_bits@.take(i as int));
        }
        push_bytes(&mut data, to_le_bytes(query_vector_bits[i]).as_slice());
        i += 1;
    }
    assert(query_vector_bits@.take(query_vector_bits@.len() as int) =~= query_vector_bits@);
    push_filter_bytes(&mut data, filters);
    let digest = sha256(&data);
    let hex = hex_encode(digest.as_slice());
    let mut out: Vec<char> = Vec::new();
    push_str_chars(&mut out, "search:");
    push_str_chars(&mut out, hex.as_str());
    proof {
        reveal_strlit("search:");
    }
    from_chars(&out)
}

/// Filters that set nothing add no bytes to a query key, so a query gives
/// the same key with such filters as with none.
pub proof fn law_empty_filters_add_nothing(query: Seq<char>, f: SearchFilters)
    requires
        f.labels is None,
        f.min_importance_bits is None,
        f.max_importance_bits is None,
        f.since_ts is None,
        f.until_ts is None,
        f.project is None,
    ensures
        query_key_bytes(query, Some(f)) == query_key_bytes(query, None),
{
    assert(filter_key_bytes(f) =~= Seq::<u8>::empty());
    assert(query_key_bytes(query, Some(f)) =~= query_key_bytes(query, None));
}

impl SearchFilters {
    /// No filter set.
    pub fn none() -> (r: SearchFilters)
        ensures
            r.labels is None,
            r.min_importance_bits is None,
            r.max_importance_bits is None,
            r.since_ts is None,
            r.until_ts is None,
            r.project is None,
    {
        SearchFilters {
            labels: None,
            min_importance_bits: None,
            max_importance_bits: None,
            since_ts: None,
            until_ts: None,
            project: None,
        }
    }
}

impl Default for SearchFilters {
    fn default() -> (r: SearchFilters)
        ensures
            r.labels is None,
            r.min_importance_bits is None,
            r.max_importance_bits is None,
            r.since_ts is None,
            r.until_ts is None,
            r.project is None,
    {
        SearchFilters::none()
    }
}

proof fn lemma_le_bytes_injective(a: u64, b: u64)
    requires
        le_bytes(a) == le_bytes(b),
    ensures
        a == b,
{
    assert(le_bytes(a)[0] == ((a >> 0u64) & 0xff) as u8);
    assert(le_bytes(b)[0] == ((b >> 0u64) & 0xff) as u8);
    assert(le_bytes(a)[0] == le_bytes(b)[0]);
    assert(le_bytes(a)[1] == ((a >> 8u64) & 0xff) as u8);
    assert(le_bytes(b)[1] == ((b >> 8u64) & 0xff) as u8);
    assert(le_bytes(a)[1] == le_bytes(b)[1]);
    assert(le_bytes(a)[2] == ((a >> 16u64) & 0xff) as u8);
    assert(le_bytes(b)[2] == ((b >> 16u64) & 0xff) as u8);
    assert(le_bytes(a)[2] == le_bytes(b)[2]);
    assert(le_bytes(a)[3] == ((a >> 24u64) & 0xff) as u8);
    assert(le_bytes(b)[3] == ((b >> 24u64) & 0xff) as u8);
    assert(le_bytes(a)[3] == le_bytes(b)[3]);
    assert(le_bytes(a)[4] == ((a >> 32u64) & 0xff) as u8);
    assert(le_bytes(b)[4] == ((b >> 32u64) & 0xff) as u8);
    assert(le_bytes(a)[4] == le_bytes(b)[4]);
    assert(le_bytes(a)[5] == ((a >> 40u64) & 0xff) as u8);
    assert(le_bytes(b)[5] == ((b >> 40u64) & 0xff) as u8);
    assert(le_bytes(a)[5] == le_bytes(b)[5]);
    assert(le_bytes(a)[6] == ((a >> 48u64) & 0xff) as u8);
    assert(le_bytes(b)[6] == ((b >> 48u64) & 0xff) as u8);
    assert(le_bytes(a)[6] == le_bytes(b)[6]);
    assert(le_bytes(a)[7] == ((a >> 56u64) & 0xff) as u8);
    assert(le_bytes(b)[7] == ((b >> 56u64) & 0xff) as u8);
    assert(le_bytes(a)[7] == le_bytes(b)[7]);
    assert(((a >> 0u64) & 0xff) as u8 == ((b >> 0u64) & 0xff) as u8 && ((a >> 8u64) & 0xff) as u8 == ((b >> 8u64) & 0xff) as u8 && ((a >> 16u64) & 0xff) as u8 == ((b >> 16u64) & 0xff) as u8 && ((a >> 24u64) & 0xff) as u8 == ((b >> 24u64) & 0xff) as u8 && ((a >> 32u64) & 0xff) as u8 == ((b >> 32u64) & 0xff) as u8 && ((a >> 40u64) & 0xff) as u8 == ((b >> 40u64) & 0xff) as u8 && ((a >> 48u64) & 0xff) as u8 == ((b >> 48u64) & 0xff) as u8 && ((a >> 56u64) & 0xff) as u8 == ((b >> 56u64) & 0xff) as u8 ==> a == b) by (bit_vector);
}

proof fn lemma_middle_determines(p: Seq<u8>, x: Seq<u8>, y: Seq<u8>, t: Seq<u8>)
    requires
        p + x + t == p + y + t,
    ensures
        x == y,
{
    assert((p + x + t).len() == p.len() + x.len() + t.len());
    assert((p + y + t).len() == p.len() + y.len() + t.len());
    assert(x.len() == y.len());
    assert((p + x + t).subrange(p.len() as int, (p.len() + x.len()) as int) =~= x);
    assert((p + y + t).subrange(p.len() as int, (p.len() + y.len()) as int) =~= y);
}

proof fn lemma_signed_bytes_differ(a: Option<i64>, b: Option<i64>)
    requires
        a != b,
    ensures
        opt_le_signed(a) != opt_le_signed(b),
{
    match (a, b) {
        (Some(x), Some(y)) => {
            if le_bytes(x as u64) == le_bytes(y as u64) {
                lemma_le_bytes_injective(x as u64, y as u64);
                assert(x as u64 == y as u64 ==> x == y) by (bit_vector);
            }
        },
        (Some(x), None) => {
            assert(opt_le_signed(a).len() == 8);
        },
        (None, Some(y)) => {
            assert(opt_le_signed(b).len() == 8);
        },
        (None, None) => {},
    }
}

proof fn lemma_unsigned_bytes_differ(a: Option<u64>, b: Option<u64>)
    requires
        a != b,
    ensures
        opt_le(a) != opt_le(b),
{
    match (a, b) {
        (Some(x), Some(y)) => {
            if le_bytes(x) == le_bytes(y) {
                lemma_le_bytes_injective(x, y);
            }
        },
        (Some(x), None) => {
            assert(opt_le(a).len() == 8);
        },
        (None, Some(y)) => {
            assert(opt_le(b).len() == 8);
        },
        (None, None) => {},
    }
}

/// The end of the time window is part of a query's key: two filter sets
/// that differ only in `until_ts` give different key bytes, and setting it
/// adds its eight little-endian bytes.
pub proof fn law_until_ts_in_key(q: Seq<char>, f: SearchFilters, g: SearchFilters)
    requires
        f.labels == g.labels,
        f.min_importance_bits == g.min_importance_bits,
        f.max_importance_bits == g.max_importance_bits,
        f.since_ts == g.since_ts,
        f.project == g.project,
        f.until_ts != g.until_ts,
    ensures
        filter_key_bytes(f) != filter_key_bytes(g),
        query_key_bytes(q, Some(f)) != query_key_bytes(q, Some(g)),
        f.until_ts is Some && g.until_ts is None ==> filter_key_bytes(f).len() == filter_key_bytes(g).len()
            + 8,
{
    let pre = labels_bytes(f.labels) + opt_le(f.min_importance_bits) + opt_le(f.max_importance_bits)
        + opt_le_signed(f.since_ts);
    let post = project_bytes(f.project);
    lemma_signed_bytes_differ(f.until_ts, g.until_ts);
    assert(filter_key_bytes(f) == pre + opt_le_signed(f.until_ts) + post);
    assert(filter_key_bytes(g) == pre + opt_le_signed(g.until_ts) + post);
    if filter_key_bytes(f) == filter_key_bytes(g) {
        lemma_middle_determines(pre, opt_le_signed(f.until_ts), opt_le_signed(g.until_ts), post);
    }
    lemma_query_bytes_differ(q, f, g);
}

/// The start of the time window is part of a query's key: two filter sets
/// that differ only in `since_ts` give different key bytes.
pub proof fn law_since_ts_in_key(q: Seq<char>, f: SearchFilters, g: SearchFilters)
    requires
        f.labels == g.labels,
        f.min_importance_bits == g.min_importance_bits,
        f.max_importance_bits == g.max_importance_bits,
        f.until_ts == g.until_ts,
        f.project == g.project,
        f.since_ts != g.since_ts,
    ensures
        filter_key_bytes(f) != filter_key_bytes(g),
        query_key_bytes(q, Some(f)) != query_key_bytes(q, Some(g)),
{
    let pre = labels_bytes(f.labels) + opt_le(f.min_importance_bits) + opt_le(f.max_importance_bits);
    let post = opt_le_signed(f.until_ts) + project_bytes(f.project);
    lemma_signed_bytes_differ(f.since_ts, g.since_ts);
    assert(filter_key_bytes(f) =~= pre + opt_le_signed(f.since_ts) + post);
    assert(filter_key_bytes(g) =~= pre + opt_le_signed(g.since_ts) + post);
    if filter_key_bytes(f) == filter_key_bytes(g) {
        lemma_middle_determines(pre, opt_le_signed(f.since_ts), opt_le_signed(g.since_ts), post);
    }
    lemma_query_bytes_differ(q, f, g);
}

/// The lower importance bound is part of a query's key: two filter sets
/// that differ only in it give different key bytes.
pub proof fn law_min_importance_in_key(q: Seq<char>, f: SearchFilters, g: SearchFilters)
    requires
        f.labels == g.labels,
        f.max_importance_bits == g.max_importance_bits,
        f.since_ts == g.since_ts,
        f.until_ts == g.until_ts,
        f.project == g.project,
        f.min_importance_bits != g.min_importance_bits,
    ensures
        filter_key_bytes(f) != filter_key_bytes(g),
        query_key_bytes(q, Some(f)) != query_key_bytes(q, Some(g)),
{
    let pre = labels_bytes(f.labels);
    let post = opt_le(f.max_importance_bits) + opt_le_signed(f.since_ts) + opt_le_signed(f.until_ts)
        + project_bytes(f.project);
    lemma_unsigned_bytes_differ(f.min_importance_bits, g.min_importance_bits);
    assert(filter_key_bytes(f) =~= pre + opt_le(f.min_importance_bits) + post);
    assert(filter_key_bytes(g) =~= pre + opt_le(g.min_importance_bits) + post);
    if filter_key_bytes(f) == filter_key_bytes(g) {
        lemma_middle_determines(pre, opt_le(f.min_importance_bits), opt_le(g.min_importance_bits), post);
    }
    lemma_query_bytes_differ(q, f, g);
}

/// The upper importance bound is part of a query's key: two filter sets
/// that differ only in it give different key bytes.
pub proof fn law_max_importance_in_key(q: Seq<char>, f: SearchFilters, g: SearchFilters)
    requires
        f.labels == g.labels,
        f.min_importance_bits == g.min_importance_bits,
        f.since_ts == g.since_ts,
        f.until_ts == g.until_ts,
        f.project == g.project,
        f.max_importance_bits != g.max_importance_bits,
    ensures
        filter_key_bytes(f) != filter_key_bytes(g),
        query_key_bytes(q, Some(f)) != query_key_bytes(q, Some(g)),
{
    let pre = labels_bytes(f.labels) + opt_le(f.min_importance_bits);
    let post = opt_le_signed(f.since_ts) + opt_le_signed(f.until_ts) + project_bytes(f.project);
    lemma_unsigned_bytes_differ(f.max_importance_bits, g.max_importance_bits);
    assert(filter_key_bytes(f) =~= pre + opt_le(f.max_importance_bits) + post);
    assert(filter_key_bytes(g) =~= pre + opt_le(g.max_importance_bits) + post);
    if filter_key_bytes(f) == filter_key_bytes(g) {
        lemma_middle_determines(pre, opt_le(f.max_importance_bits), opt_le(g.max_importance_bits), post);
    }
    lemma_query_bytes_differ(q, f, g);
}

proof fn lemma_query_bytes_differ(q: Seq<char>, f: SearchFilters, g: SearchFilters)
    requires
        filter_key_bytes(f) != filter_key_bytes(g),
    ensures
        query_key_bytes(q, Some(f)) != query_key_bytes(q, Some(g)),
{
    let e = vstd::utf8::encode_utf8(q);
    if query_key_bytes(q, Some(f)) == query_key_bytes(q, Some(g)) {
        assert(query_key_bytes(q, Some(f)) =~= e + filter_key_bytes(f) + Seq::<u8>::empty());
        assert(query_key_bytes(q, Some(g)) =~= e + filter_key_bytes(g) + Seq::<u8>::empty());
        lemma_middle_determines(e, filter_key_bytes(f), filter_key_bytes(g), Seq::empty());
    }
}

} // verus!
