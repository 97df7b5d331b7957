//! Request security: API-key authentication with constant-time comparison,
//! per-client rate limiting, input validation, the constitution's vetoes,
//! tenant quotas and an audit log with counters.

use vstd::prelude::*;
use vstd::string::StringSliceAdditionalSpecFns;
use crate::guard::{distinct_keys, find_key, key_pos, lemma_key_pos, pairs_view};
use crate::hashing::{fnv1a, fnv1a_str, hex16, push_hex16};
use crate::strs::{
    find_char_from, from_chars, is_alphanumeric, is_whitespace, push_char, push_str, str_eq,
    to_chars, trim, trim_seq, unicode_alphanumeric, unicode_whitespace,
};

verus! {

broadcast use vstd::utf8::group_utf8_lib;

pub const RATE_LIMIT_WINDOW_SECS: u64 = 60;
pub const RATE_LIMIT_MAX_REQUESTS: u64 = 120;
pub const MAX_CONTENT_LENGTH: usize = 10000;
pub const MAX_QUERY_LENGTH: usize = 2000;
pub const MAX_LABELS_PER_MEMORY: usize = 10;
pub const MAX_LABEL_LENGTH: usize = 64;

// ---------------------------------------------------------------------------
// Constant-time comparison
// ---------------------------------------------------------------------------

proof fn lemma_or_zero(d: u8, t: u8)
    ensures
        (d | t) == 0 <==> (d == 0 && t == 0),
{
    assert((d | t) == 0 <==> (d == 0 && t == 0)) by (bit_vector);
}

proof fn lemma_xor_zero(x: u8, y: u8)
    ensures
        (x ^ y) == 0 <==> x == y,
{
    assert((x ^ y) == 0 <==> x == y) by (bit_vector);
}

/// Byte `i` of `s`, or zero past its end.
pub open spec fn byte_or_zero(s: Seq<u8>, i: int) -> u8 {
    if 0 <= i < s.len() {
        s[i]
    } else {
        0
    }
}

/// Compares two byte strings, always reading as many bytes as the longer
/// one has, so that the time taken does not depend on where they differ.
pub fn constant_time_eq_bytes(a: &[u8], b: &[u8]) -> (r: bool)
    ensures
        r == (a@ == b@),
{
    let max_len = if a.len() > b.len() {
        a.len()
    } else {
        b.len()
    };
    let mut diff: u8 = 0;
    let mut i: usize = 0;
    while i < max_len
        invariant
            i <= max_len,
            max_len == if a@.len() > b@.len() {
                a@.len()
            } else {
                b@.len()
            },
            diff == 0 <==> forall|j: int| 0 <= j < i ==> byte_or_zero(a@, j) == byte_or_zero(b@, j),
        decreases max_len - i,
    {
        let x: u8 = if i < a.len() {
            a[i]
        } else {
            0
        };
        let y: u8 = if i < b.len() {
            b[i]
        } else {
            0
        };
        proof {
            lemma_or_zero(diff, x ^ y);
            lemma_xor_zero(x, y);
            assert(x == byte_or_zero(a@, i as int));
            assert(y == byte_or_zero(b@, i as int));
        }
        let ghost before = diff;
        diff = diff | (x ^ y);
        proof {
            if diff == 0 {
                assert forall|j: int| 0 <= j < i + 1 implies byte_or_zero(a@, j) == byte_or_zero(b@, j) by {
                    if j < i {
                        assert(before == 0);
                    }
                }
            } else {
                if before != 0 {
                    let w = choose|j: int| 0 <= j < i && byte_or_zero(a@, j) != byte_or_zero(b@, j);
                    assert(0 <= w < i + 1 && byte_or_zero(a@, w) != byte_or_zero(b@, w));
                } else {
                    assert(byte_or_zero(a@, i as int) != byte_or_zero(b@, i as int));
                }
            }
        }
        i += 1;
    }
    let len_diff: u8 = if a.len() != b.len() {
        1
    } else {
        0
    };
    proof {
        lemma_or_zero(diff, len_diff);
    }
    diff = diff | len_diff;
    proof {
        if diff == 0 {
            assert forall|j: int| 0 <= j < a@.len() implies a@[j] == b@[j] by {
                assert(byte_or_zero(a@, j) == byte_or_zero(b@, j));
            }
            assert(a@ =~= b@);
        } else if a@ == b@ {
            assert forall|j: int| 0 <= j < i implies byte_or_zero(a@, j) == byte_or_zero(b@, j) by {
            }
        }
    }
    diff == 0
}

/// Compares two strings in constant time (with respect to their contents).
pub fn constant_time_eq(a: &str, b: &str) -> (r: bool)
    ensures
        r == (a@ == b@),
{
    let r = constant_time_eq_bytes(a.as_bytes(), b.as_bytes());
    proof {
        vstd::utf8::encode_utf8_decode_utf8(a@);
        vstd::utf8::encode_utf8_decode_utf8(b@);
    }
    r
}

// ---------------------------------------------------------------------------
// Configuration
// ---------------------------------------------------------------------------

/// The security settings.
#[derive(Debug)]
pub struct SecurityConfig {
    pub enabled: bool,
    pub api_keys: Vec<String>,
    /// Key for administrative operations; without it the regular keys serve.
    pub admin_key: Option<String>,
    pub rate_limit_per_minute: u64,
    pub max_content_length: usize,
    pub max_query_length: usize,
    pub max_labels: usize,
    pub audit_log_size: usize,
    pub tenant_quotas: Vec<(String, usize)>,
    pub max_tenants: usize,
}

/// ASCII case folding of one character.
pub open spec fn ascii_lower(c: char) -> char {
    if 'A' <= c && c <= 'Z' {
        ((c as u32) + 32) as char
    } else {
        c
    }
}

/// `str::eq_ignore_ascii_case`.
pub open spec fn eq_ignore_ascii_case_spec(a: Seq<char>, b: Seq<char>) -> bool {
    a.len() == b.len() && forall|i: int| 0 <= i < a.len() ==> ascii_lower(a[i]) == ascii_lower(b[i])
}

fn lower_ascii(c: char) -> (r: char)
    ensures
        r == ascii_lower(c),
{
    if 'A' <= c && c <= 'Z' {
        let u = (c as u32) + 32;
        proof {
            vstd::utf8::char_u32_cast(c, c as u32);
        }
        if u == 97 { 'a' } else if u == 98 { 'b' } else if u == 99 { 'c' } else if u == 100 { 'd' }
        else if u == 101 { 'e' } else if u == 102 { 'f' } else if u == 103 { 'g' } else if u == 104 { 'h' }
        else if u == 105 { 'i' } else if u == 106 { 'j' } else if u == 107 { 'k' } else if u == 108 { 'l' }
        else if u == 109 { 'm' } else if u == 110 { 'n' } else if u == 111 { 'o' } else if u == 112 { 'p' }
        else if u == 113 { 'q' } else if u == 114 { 'r' } else if u == 115 { 's' } else if u == 116 { 't' }
        else if u == 117 { 'u' } else if u == 118 { 'v' } else if u == 119 { 'w' } else if u == 120 { 'x' }
        else if u == 121 { 'y' } else { 'z' }
    } else {
        c
    }
}

/// Compares two strings ignoring ASCII case.
pub fn eq_ignore_ascii_case(a: &str, b: &str) -> (r: bool)
    ensures
        r == eq_ignore_ascii_case_spec(a@, b@),
{
    let ac = to_chars(a);
    let bc = to_chars(b);
    if ac.len() != bc.len() {
        return false;
    }
    let mut i: usize = 0;
    while i < ac.len()
        invariant
            ac@ == a@,
            bc@ == b@,
            ac@.len() == bc@.len(),
            i <= ac@.len(),
            forall|k: int| 0 <= k < i ==> ascii_lower(a@[k]) == ascii_lower(b@[k]),
        decreases ac.len() - i,
    {
        if lower_ascii(ac[i]) != lower_ascii(bc[i]) {
            return false;
        }
        i += 1;
    }
    true
}

/// Whether a setting opts in to running without an API key.
pub open spec fn insecure_allowed(setting: Option<Seq<char>>) -> bool {
    match setting {
        Some(v) => v == "1"@ || eq_ignore_ascii_case_spec(v, "true"@),
        None => false,
    }
}

/// A set and non-empty setting.
pub open spec fn non_empty(s: Option<Seq<char>>) -> Option<Seq<char>> {
    match s {
        Some(v) => if v.len() > 0 {
            Some(v)
        } else {
            None
        },
        None => None,
    }
}

/// View of an optional string.
pub open spec fn opt_view(s: Option<&str>) -> Option<Seq<char>> {
    match s {
        Some(v) => Some(v@),
        None => None,
    }
}

/// View of an optional owned string.
pub open spec fn opt_string_view(s: Option<String>) -> Option<Seq<char>> {
    match s {
        Some(v) => Some(v@),
        None => None,
    }
}

/// The message returned when no API key is configured and insecure mode is off.
pub open spec fn missing_key_message() -> Seq<char> {
    "EPICODE_API_KEY (or TETRAMEM_API_KEY) must be set. Generate one with: openssl rand -base64 32"@
}

/// The setting as an owned string, or `None` when it is unset or empty.
fn non_empty_owned(s: Option<&str>) -> (r: Option<String>)
    ensures
        opt_string_view(r) == non_empty(opt_view(s)),
{
    match s {
        Some(k) => if k.is_empty() {
            None
        } else {
            Some(k.to_owned())
        },
        None => None,
    }
}

impl SecurityConfig {
    /// The limits every configuration starts with.
    pub open spec fn has_default_limits(&self) -> bool {
        &&& self.rate_limit_per_minute == RATE_LIMIT_MAX_REQUESTS
        &&& self.max_content_length == MAX_CONTENT_LENGTH
        &&& self.max_query_length == MAX_QUERY_LENGTH
        &&& self.max_labels == MAX_LABELS_PER_MEMORY
        &&& self.audit_log_size == 200
        &&& self.tenant_quotas@.len() == 0
        &&& self.max_tenants == 1000
    }

    /// The configuration that the API-key and admin-key settings give: the
    /// default limits, security on with the one key where a key is set and
    /// off without keys where none is.
    pub open spec fn built_from(self, api_key: Option<Seq<char>>, admin_key: Option<Seq<char>>) -> bool {
        &&& self.has_default_limits()
        &&& opt_string_view(self.admin_key) == non_empty(admin_key)
        &&& match non_empty(api_key) {
            Some(k) => self.enabled && self.api_keys@.len() == 1 && self.api_keys@[0]@ == k,
            None => !self.enabled && self.api_keys@.len() == 0,
        }
    }

    /// Builds the configuration from the API-key, insecure-mode and admin-key
    /// settings (already read from the environment). With an API key security
    /// is on with that one key; without one it is off if insecure mode is
    /// allowed, and refused otherwise. Empty settings count as unset.
    pub fn try_from_env(api_key: Option<&str>, allow_insecure: Option<&str>, admin_key: Option<
        &str,
    >) -> (r: Result<SecurityConfig, String>)
        ensures
            r is Err <==> (non_empty(opt_view(api_key)) is None && !insecure_allowed(
                opt_view(allow_insecure),
            )),
            r matches Err(m) ==> m@ == missing_key_message(),
            r matches Ok(c) ==> c.built_from(opt_view(api_key), opt_view(admin_key)),
    {
        let key = non_empty_owned(api_key);
        let allow = match allow_insecure {
            Some(v) => str_eq(v, "1") || eq_ignore_ascii_case(v, "true"),
            None => false,
        };
        let admin = non_empty_owned(admin_key);
        let (enabled, api_keys) = match key {
            Some(k) => {
                let mut v: Vec<String> = Vec::new();
                v.push(k);
                (true, v)
            },
            None => {
                if !allow {
                    return Err("EPICODE_API_KEY (or TETRAMEM_API_KEY) must be set. Generate one with: openssl rand -base64 32".to_owned());
                }
                (false, Vec::new())
            },
        };
        Ok(SecurityConfig {
            enabled,
            api_keys,
            admin_key: admin,
            rate_limit_per_minute: 120,
            max_content_length: 10000,
            max_query_length: 2000,
            max_labels: 10,
            audit_log_size: 200,
            tenant_quotas: Vec::new(),
            max_tenants: 1000,
        })
    }
}


// ---------------------------------------------------------------------------
// Results, audit entries and statistics
// ---------------------------------------------------------------------------

/// The outcome of a security check.
#[derive(Clone, Copy, Debug, PartialEq, Eq, Structural)]
pub enum SecurityResult {
    Allowed,
    DeniedAuth,
    DeniedRateLimit,
    DeniedValidation,
    DeniedConstitution,
    DeniedEnergy,
    DeniedQuota,
}

/// One line of the audit log.
#[derive(Debug)]
pub struct AuditEntry {
    pub timestamp: i64,
    pub action: String,
    pub client: String,
    pub result: SecurityResult,
    pub detail: String,
}

impl View for AuditEntry {
    type V = (i64, Seq<char>, Seq<char>, SecurityResult, Seq<char>);

    open spec fn view(&self) -> Self::V {
        (self.timestamp, self.action@, self.client@, self.result, self.detail@)
    }
}

impl Clone for AuditEntry {
    fn clone(&self) -> (r: Self)
        ensures
            r@ == self@,
    {
        AuditEntry {
            timestamp: self.timestamp,
            action: self.action.clone(),
            client: self.client.clone(),
            result: self.result,
            detail: self.detail.clone(),
        }
    }
}

/// Views of a sequence of audit entries.
pub open spec fn entries_view(v: Seq<AuditEntry>) -> Seq<(i64, Seq<char>, Seq<char>, SecurityResult, Seq<char>)> {
    v.map_values(|e: AuditEntry| e@)
}

/// Counters and settings reported by [`SecurityGuard::stats`].
#[derive(Clone, Copy, Debug, PartialEq, Eq, Structural)]
pub struct SecurityStats {
    pub enabled: bool,
    pub total_requests: u64,
    pub total_denied: u64,
    pub denied_auth: usize,
    pub denied_rate_limit: usize,
    pub denied_validation: usize,
    pub denied_constitution: usize,
    pub denied_energy: usize,
    pub denied_quota: usize,
    pub rate_limit_per_minute: u64,
    pub max_content_length: usize,
    pub audit_entries: usize,
}

/// The running counters of a guard.
#[derive(Clone, Copy, Debug, PartialEq, Eq, Structural)]
pub struct AuditCounters {
    pub total_requests: u64,
    pub total_denied: u64,
    pub denied_auth: usize,
    pub denied_rate_limit: usize,
    pub denied_validation: usize,
    pub denied_constitution: usize,
    pub denied_energy: usize,
    pub denied_quota: usize,
}

/// Counters that have seen nothing yet.
pub open spec fn zero_counters() -> AuditCounters {
    AuditCounters {
        total_requests: 0,
        total_denied: 0,
        denied_auth: 0,
        denied_rate_limit: 0,
        denied_validation: 0,
        denied_constitution: 0,
        denied_energy: 0,
        denied_quota: 0,
    }
}

/// Adds one to a `usize` counter, wrapping as an atomic counter does.
pub open spec fn bump_usize(x: usize) -> usize {
    if x == usize::MAX {
        0
    } else {
        (x + 1) as usize
    }
}

/// Adds one to a `u64` counter, wrapping as an atomic counter does.
pub open spec fn bump_u64(x: u64) -> u64 {
    if x == u64::MAX {
        0
    } else {
        (x + 1) as u64
    }
}

/// The counters after auditing one request with outcome `r`.
pub open spec fn count_result(c: AuditCounters, r: SecurityResult) -> AuditCounters {
    let c1 = AuditCounters { total_requests: bump_u64(c.total_requests), ..c };
    match r {
        SecurityResult::Allowed => c1,
        SecurityResult::DeniedAuth => AuditCounters {
            total_denied: bump_u64(c.total_denied),
            denied_auth: bump_usize(c.denied_auth),
            ..c1
        },
        SecurityResult::DeniedRateLimit => AuditCounters {
            total_denied: bump_u64(c.total_denied),
            denied_rate_limit: bump_usize(c.denied_rate_limit),
            ..c1
        },
        SecurityResult::DeniedValidation => AuditCounters {
            total_denied: bump_u64(c.total_denied),
            denied_validation: bump_usize(c.denied_validation),
            ..c1
        },
        SecurityResult::DeniedConstitution => AuditCounters {
            total_denied: bump_u64(c.total_denied),
            denied_constitution: bump_usize(c.denied_constitution),
            ..c1
        },
        SecurityResult::DeniedEnergy => AuditCounters {
            total_denied: bump_u64(c.total_denied),
            denied_energy: bump_usize(c.denied_energy),
            ..c1
        },
        SecurityResult::DeniedQuota => AuditCounters {
            total_denied: bump_u64(c.total_denied),
            denied_quota: bump_usize(c.denied_quota),
            ..c1
        },
    }
}

/// The log after appending `e` and dropping the oldest entries beyond `size`.
pub open spec fn audit_append<E>(log: Seq<E>, e: E, size: usize) -> Seq<E> {
    let l = log.push(e);
    if l.len() > size {
        l.subrange(l.len() - size, l.len() as int)
    } else {
        l
    }
}

/// The newest `limit` entries of `log`, newest first.
pub open spec fn newest_first<E>(log: Seq<E>, limit: usize) -> Seq<E> {
    let n = if limit < log.len() {
        limit as int
    } else {
        log.len() as int
    };
    Seq::new(n as nat, |i: int| log[log.len() - 1 - i])
}

// ---------------------------------------------------------------------------
// Clock
// ---------------------------------------------------------------------------

#[verifier::external_type_specification]
#[verifier::external_body]
pub struct ExInstant(std::time::Instant);

/// Calls `std::time::Instant::now`; nothing is promised of the reading.
#[verifier::external_body]
pub(crate) fn clock_now() -> std::time::Instant {
    std::time::Instant::now()
}

/// Calls `std::time::Instant::elapsed`; the time since `start` depends on
/// when it is called, so nothing is promised of it.
#[verifier::external_body]
fn elapsed_since(start: &std::time::Instant) -> core::time::Duration {
    start.elapsed()
}

/// Calls `Duration::as_millis`; the whole milliseconds of `d` are not
/// visible to Verus, so nothing is promised of them.
#[verifier::external_body]
fn whole_millis(d: &core::time::Duration) -> u128 {
    d.as_millis()
}

/// Calls `chrono::Utc::now` and `DateTime::timestamp`: the current Unix
/// time in seconds, of which nothing is promised.
#[verifier::external_body]
pub(crate) fn unix_now() -> i64 {
    chrono::Utc::now().timestamp()
}

/// Calls `Duration::as_nanos`; the nanoseconds of `d` are not visible to
/// Verus, so nothing is promised of them.
#[verifier::external_body]
fn whole_nanos(d: &core::time::Duration) -> u128 {
    d.as_nanos()
}

/// Whole nanoseconds elapsed since `start`, saturating at `u64::MAX`.
pub(crate) fn nanos_since(start: &std::time::Instant) -> u64 {
    let ns = whole_nanos(&elapsed_since(start));
    if ns > 18446744073709551615u128 {
        18446744073709551615u64
    } else {
        ns as u64
    }
}

/// Whole milliseconds elapsed since `start`, saturating at `u64::MAX`.
pub(crate) fn millis_since(start: &std::time::Instant) -> u64 {
    let ms = whole_millis(&elapsed_since(start));
    if ms > 18446744073709551615u128 {
        18446744073709551615u64
    } else {
        ms as u64
    }
}

// ---------------------------------------------------------------------------
// Key handling
// ---------------------------------------------------------------------------

/// The client id shown for a key: all of it masked when it has at most
/// eight characters, else its first three and last two characters around
/// four asterisks.
pub open spec fn mask_spec(k: Seq<char>) -> Seq<char> {
    if k.len() <= 8 {
        Seq::new(k.len(), |i: int| '*')
    } else {
        k.take(3) + seq!['*', '*', '*', '*'] + k.skip(k.len() - 2)
    }
}

/// The tenant of a key: the part before its first `:`.
pub open spec fn tenant_spec(k: Seq<char>) -> Seq<char> {
    k.take(crate::strs::first_char_from(k, ':', 0))
}

/// The rate-limit hash of a key: `rl:` and sixteen hex digits of FNV-1a
/// over its UTF-8 bytes.
pub open spec fn hash_key_spec(k: Seq<char>) -> Seq<char> {
    seq!['r', 'l', ':'] + hex16(fnv1a(vstd::utf8::encode_utf8(k)))
}

/// The bucket key of a client: its tenant, `:`, and its key hash.
pub open spec fn rate_key(client: Seq<char>) -> Seq<char> {
    tenant_spec(client) + seq![':'] + hash_key_spec(client)
}

/// What [`SecurityGuard::authenticate`] answers for `key` under `cfg`.
pub open spec fn auth_spec(cfg: SecurityConfig, key: Seq<char>) -> Result<Seq<char>, SecurityResult> {
    if !cfg.enabled || cfg.api_keys@.len() == 0 {
        Ok("anonymous"@)
    } else if key_listed(cfg.api_keys@, key) {
        Ok(mask_spec(key))
    } else {
        Err(SecurityResult::DeniedAuth)
    }
}

/// Whether one of `keys` equals `k`.
pub open spec fn key_listed(keys: Seq<String>, k: Seq<char>) -> bool {
    exists|i: int| 0 <= i < keys.len() && keys[i]@ == k
}

// ---------------------------------------------------------------------------
// Rate limiting
// ---------------------------------------------------------------------------

pub const RATE_LIMIT_WINDOW_NANOS: u64 = 60_000_000_000;

/// Requests counted in the window that began at `window_start` (nanoseconds
/// on the guard's clock).
#[derive(Clone, Copy, Debug, PartialEq, Eq, Structural)]
pub struct RateBucket {
    pub window_start: u64,
    pub count: u64,
}

/// Whether the window of `b` has passed at `now`.
pub open spec fn expired(b: RateBucket, now: u64) -> bool {
    now >= b.window_start + RATE_LIMIT_WINDOW_NANOS
}

/// The buckets whose window has not passed at `now`, in order.
pub open spec fn retain_fresh(s: Seq<(Seq<char>, RateBucket)>, now: u64) -> Seq<(Seq<char>, RateBucket)>
    decreases s.len(),
{
    if s.len() == 0 {
        s
    } else {
        let rest = retain_fresh(s.drop_last(), now);
        if expired(s.last().1, now) {
            rest
        } else {
            rest.push(s.last())
        }
    }
}

/// One rate-limit decision for the bucket `key` at `now`: the buckets are
/// pruned of expired windows when there are more than twice `max_tenants`
/// of them; a new key is refused when `max_tenants` buckets exist; an
/// expired window restarts; the request is admitted while fewer than
/// `limit` were counted in the window. Returns the verdict and the buckets.
pub open spec fn rate_step(
    s: Seq<(Seq<char>, RateBucket)>,
    key: Seq<char>,
    limit: u64,
    max_tenants: usize,
    now: u64,
) -> (Result<(), SecurityResult>, Seq<(Seq<char>, RateBucket)>) {
    let pruned = if s.len() > 2 * max_tenants {
        retain_fresh(s, now)
    } else {
        s
    };
    let p = key_pos(pruned, key);
    if pruned.len() >= max_tenants && p == pruned.len() {
        (Err(SecurityResult::DeniedRateLimit), pruned)
    } else {
        let fresh = RateBucket { window_start: now, count: 0 };
        let b0 = if p < pruned.len() {
            pruned[p].1
        } else {
            fresh
        };
        let b1 = if expired(b0, now) {
            fresh
        } else {
            b0
        };
        let admitted = b1.count < limit;
        let b2 = if admitted {
            RateBucket { count: (b1.count + 1) as u64, ..b1 }
        } else {
            b1
        };
        let stored = if p < pruned.len() {
            pruned.update(p, (key, b2))
        } else {
            pruned.push((key, b2))
        };
        (
            if admitted {
                Ok(())
            } else {
                Err(SecurityResult::DeniedRateLimit)
            },
            stored,
        )
    }
}

// ---------------------------------------------------------------------------
// Validation
// ---------------------------------------------------------------------------

/// Whether `c` may stand in a label.
pub open spec fn label_char_ok(c: char) -> bool {
    unicode_alphanumeric(c) || c == '-' || c == '_' || c == '.' || unicode_whitespace(c)
}

/// Whether a label is refused: too long in bytes, blank, or holding a
/// character other than letters, digits, whitespace and `-_.`.
pub open spec fn bad_label(l: &String) -> bool {
    ||| vstd::utf8::encode_utf8(l@).len() > MAX_LABEL_LENGTH
    ||| trim_seq(l@).len() == 0
    ||| exists|i: int| 0 <= i < l@.len() && !label_char_ok(l@[i])
}

/// Whether a text is refused: blank, or longer than `max` bytes.
pub open spec fn bad_text(t: &str, max: usize) -> bool {
    trim_seq(t@).len() == 0 || t.spec_bytes().len() > max
}

// ---------------------------------------------------------------------------
// The guard
// ---------------------------------------------------------------------------

/// Authentication, rate limiting, validation and auditing for requests.
pub struct SecurityGuard {
    pub config: SecurityConfig,
    /// Origin of the monotonic clock the rate windows are measured on.
    pub clock: std::time::Instant,
    /// Rate buckets by client key, in insertion order.
    pub rate_buckets: Vec<(String, RateBucket)>,
    /// The audit log, oldest first.
    pub audit_log: Vec<AuditEntry>,
    pub counters: AuditCounters,
}

impl SecurityGuard {
    /// The rate buckets, by key, in insertion order.
    pub open spec fn buckets(&self) -> Seq<(Seq<char>, RateBucket)> {
        pairs_view(self.rate_buckets@)
    }

    /// The audit log, oldest first.
    pub open spec fn log(&self) -> Seq<(i64, Seq<char>, Seq<char>, SecurityResult, Seq<char>)> {
        entries_view(self.audit_log@)
    }

    /// The running counters.
    pub open spec fn counters(&self) -> AuditCounters {
        self.counters
    }

    /// The statistics the guard reports.
    pub open spec fn stats_spec(&self) -> SecurityStats {
        SecurityStats {
            enabled: self.config.enabled,
            total_requests: self.counters().total_requests,
            total_denied: self.counters().total_denied,
            denied_auth: self.counters().denied_auth,
            denied_rate_limit: self.counters().denied_rate_limit,
            denied_validation: self.counters().denied_validation,
            denied_constitution: self.counters().denied_constitution,
            denied_energy: self.counters().denied_energy,
            denied_quota: self.counters().denied_quota,
            rate_limit_per_minute: self.config.rate_limit_per_minute,
            max_content_length: self.config.max_content_length,
            audit_entries: self.log().len() as usize,
        }
    }

    /// A guard with no buckets, an empty log and zero counters.
    pub fn new(config: SecurityConfig) -> (r: SecurityGuard)
        ensures
            r.config == config,
            r.buckets().len() == 0,
            r.log().len() == 0,
            r.counters() == zero_counters(),
    {
        let r = SecurityGuard {
            config,
            clock: clock_now(),
            rate_buckets: Vec::new(),
            audit_log: Vec::new(),
            counters: AuditCounters {
                total_requests: 0,
                total_denied: 0,
                denied_auth: 0,
                denied_rate_limit: 0,
                denied_validation: 0,
                denied_constitution: 0,
                denied_energy: 0,
                denied_quota: 0,
            },
        };
        assert(r.buckets() =~= Seq::empty());
        assert(r.log() =~= Seq::empty());
        r
    }

    /// A fresh guard over the configuration that the settings give, or the
    /// configuration's refusal when no API key is set and insecure mode is
    /// not allowed.
    pub fn try_from_env(api_key: Option<&str>, allow_insecure: Option<&str>, admin_key: Option<
        &str,
    >) -> (r: Result<SecurityGuard, String>)
        ensures
            r is Err <==> (non_empty(opt_view(api_key)) is None && !insecure_allowed(
                opt_view(allow_insecure),
            )),
            r matches Err(m) ==> m@ == missing_key_message(),
            r matches Ok(g) ==> {
                &&& g.config.built_from(opt_view(api_key), opt_view(admin_key))
                &&& g.buckets().len() == 0
                &&& g.log().len() == 0
                &&& g.counters() == zero_counters()
            },
    {
        match SecurityConfig::try_from_env(api_key, allow_insecure, admin_key) {
            Ok(c) => Ok(SecurityGuard::new(c)),
            Err(e) => Err(e),
        }
    }

    /// Masks a key for display.
    pub fn mask_key(key: &str) -> (r: String)
        ensures
            r@ == mask_spec(key@),
            r@.len() <= 9,
    {
        let chars = to_chars(key);
        let n = chars.len();
        let mut out: Vec<char> = Vec::new();
        if n <= 8 {
            let mut i: usize = 0;
            while i < n
                invariant
                    i <= n,
                    out@ == Seq::new(i as nat, |j: int| '*'),
                decreases n - i,
            {
                out.push('*');
                i += 1;
                assert(out@ =~= Seq::new(i as nat, |j: int| '*'));
            }
            assert(mask_spec(key@) =~= out@);
        } else {
            out.push(chars[0]);
            out.push(chars[1]);
            out.push(chars[2]);
            out.push('*');
            out.push('*');
            out.push('*');
            out.push('*');
            out.push(chars[n - 2]);
            out.push(chars[n - 1]);
            assert(mask_spec(key@) =~= out@);
        }
        from_chars(&out)
    }

    /// The tenant of a key: the part before its first `:`.
    pub fn extract_tenant_id(api_key: &str) -> (r: String)
        ensures
            r@ == tenant_spec(api_key@),
    {
        let chars = to_chars(api_key);
        let end = find_char_from(&chars, ':', 0);
        let head = crate::strs::slice_chars(&chars, 0, end);
        assert(head@ =~= tenant_spec(api_key@));
        from_chars(&head)
    }

    /// The rate-limit hash of a key.
    pub fn hash_key(key: &str) -> (r: String)
        ensures
            r@ == hash_key_spec(key@),
    {
        let h = fnv1a_str(key);
        let mut out: Vec<char> = Vec::new();
        out.push('r');
        out.push('l');
        out.push(':');
        push_hex16(&mut out, h);
        assert(out@ =~= hash_key_spec(key@));
        from_chars(&out)
    }

    /// Checks an API key. With security off, or no keys configured, every
    /// caller is `anonymous`; otherwise a key equal to a configured one
    /// yields its masked form and any other key is refused. Every
    /// configured key is compared in full.
    pub fn authenticate(&self, api_key: &str) -> (r: Result<String, SecurityResult>)
        ensures
            match r {
                Ok(c) => auth_spec(self.config, api_key@) == Ok::<Seq<char>, SecurityResult>(c@),
                Err(e) => auth_spec(self.config, api_key@) == Err::<Seq<char>, SecurityResult>(e),
            },
    {
        if !self.config.enabled || self.config.api_keys.len() == 0 {
            return Ok("anonymous".to_owned());
        }
        let mut matched = false;
        let mut i: usize = 0;
        while i < self.config.api_keys.len()
            invariant
                i <= self.config.api_keys@.len(),
                matched <==> exists|j: int| 0 <= j < i && self.config.api_keys@[j]@ == api_key@,
            decreases self.config.api_keys.len() - i,
        {
            if constant_time_eq(self.config.api_keys[i].as_str(), api_key) {
                matched = true;
            }
            i += 1;
        }
        if matched {
            Ok(Self::mask_key(api_key))
        } else {
            Err(SecurityResult::DeniedAuth)
        }
    }

    /// Refuses a tenant that has reached its configured quota.
    pub fn check_tenant_quota(&mut self, tenant_id: &str, current_count: usize) -> (r: Result<(), SecurityResult>)
        ensures
            ({
                let q = pairs_view(old(self).config.tenant_quotas@);
                let p = key_pos(q, tenant_id@);
                let denied = p < q.len() && current_count >= q[p].1;
                &&& r == if denied {
                    Err::<(), SecurityResult>(SecurityResult::DeniedQuota)
                } else {
                    Ok(())
                }
                &&& final(self).counters() == if denied {
                    AuditCounters { denied_quota: bump_usize(old(self).counters().denied_quota), ..old(self).counters() }
                } else {
                    old(self).counters()
                }
            }),
            final(self).config == old(self).config,
            final(self).buckets() == old(self).buckets(),
            final(self).log() == old(self).log(),
    {
        let p = find_key(&self.config.tenant_quotas, tenant_id);
        proof {
            lemma_key_pos(pairs_view(self.config.tenant_quotas@), tenant_id@);
        }
        if p < self.config.tenant_quotas.len() {
            let quota = self.config.tenant_quotas[p].1;
            if current_count >= quota {
                self.counters.denied_quota = self.counters.denied_quota.wrapping_add(1);
                return Err(SecurityResult::DeniedQuota);
            }
        }
        Ok(())
    }

    fn prune_buckets(&mut self, now: u64)
        ensures
            final(self).buckets() == retain_fresh(old(self).buckets(), now),
            final(self).config == old(self).config,
            final(self).log() == old(self).log(),
            final(self).counters() == old(self).counters(),
    {
        let mut kept: Vec<(String, RateBucket)> = Vec::new();
        let mut i: usize = 0;
        while i < self.rate_buckets.len()
            invariant
                i <= self.rate_buckets@.len(),
                self.rate_buckets == old(self).rate_buckets,
                pairs_view(kept@) == retain_fresh(pairs_view(self.rate_buckets@).take(i as int), now),
            decreases self.rate_buckets.len() - i,
        {
            let b = self.rate_buckets[i].1;
            proof {
                let s = pairs_view(self.rate_buckets@);
                assert(s.take(i + 1).drop_last() =~= s.take(i as int));
            }
            if !(now >= b.window_start && now - b.window_start >= RATE_LIMIT_WINDOW_NANOS) {
                let k = self.rate_buckets[i].0.clone();
                kept.push((k, b));
                proof {
                    assert(pairs_view(kept@) =~= pairs_view(kept@).drop_last().push(pairs_view(kept@).last()));
                }
            }
            i += 1;
            assert(pairs_view(kept@) =~= retain_fresh(pairs_view(self.rate_buckets@).take(i as int), now));
        }
        assert(pairs_view(self.rate_buckets@).take(self.rate_buckets@.len() as int) =~= pairs_view(self.rate_buckets@));
        self.rate_buckets = kept;
    }

    /// One rate-limit decision for `client_id` at `now` (nanoseconds on the
    /// guard's monotonic clock).
    pub fn check_rate_limit_at(&mut self, client_id: &str, now: u64) -> (r: Result<(), SecurityResult>)
        ensures
            (r, final(self).buckets()) == rate_step(
                old(self).buckets(),
                rate_key(client_id@),
                old(self).config.rate_limit_per_minute,
                old(self).config.max_tenants,
                now,
            ),
            final(self).config == old(self).config,
            final(self).log() == old(self).log(),
            final(self).counters() == old(self).counters(),
    {
        let tenant = Self::extract_tenant_id(client_id);
        let hk = Self::hash_key(client_id);
        let mut key = tenant;
        push_char(&mut key, ':');
        push_str(&mut key, hk.as_str());
        assert(key@ =~= rate_key(client_id@));
        let limit = self.config.rate_limit_per_minute;
        let max_tenants = self.config.max_tenants;
        let n = self.rate_buckets.len();
        if n > max_tenants && n - max_tenants > max_tenants {
            self.prune_buckets(now);
        }
        let ghost pruned = self.buckets();
        let p = find_key(&self.rate_buckets, key.as_str());
        proof {
            lemma_key_pos(pruned, key@);
        }
        let len = self.rate_buckets.len();
        if len >= max_tenants && p == len {
            return Err(SecurityResult::DeniedRateLimit);
        }
        let fresh = RateBucket { window_start: now, count: 0 };
        let b0 = if p < len {
            self.rate_buckets[p].1
        } else {
            fresh
        };
        let b1 = if now >= b0.window_start && now - b0.window_start >= RATE_LIMIT_WINDOW_NANOS {
            fresh
        } else {
            b0
        };
        let admitted = b1.count < limit;
        let b2 = if admitted {
            RateBucket { window_start: b1.window_start, count: b1.count + 1 }
        } else {
            b1
        };
        if p < len {
            self.rate_buckets[p].1 = b2;
            assert(self.buckets() =~= pruned.update(p as int, (key@, b2)));
        } else {
            self.rate_buckets.push((key, b2));
            assert(self.buckets() =~= pruned.push((key@, b2)));
        }
        if admitted {
            Ok(())
        } else {
            Err(SecurityResult::DeniedRateLimit)
        }
    }

    fn now_nanos(&self) -> u64 {
        nanos_since(&self.clock)
    }

    /// One rate-limit decision for `client_id` now.
    pub fn check_rate_limit(&mut self, client_id: &str) -> (r: Result<(), SecurityResult>)
        ensures
            exists|now: u64|
                (r, final(self).buckets()) == rate_step(
                    old(self).buckets(),
                    rate_key(client_id@),
                    old(self).config.rate_limit_per_minute,
                    old(self).config.max_tenants,
                    now,
                ),
            final(self).config == old(self).config,
            final(self).log() == old(self).log(),
            final(self).counters() == old(self).counters(),
    {
        let now = self.now_nanos();
        self.check_rate_limit_at(client_id, now)
    }

    /// Refuses blank content and content longer than the configured bytes.
    pub fn validate_content(&self, content: &str) -> (r: Result<(), SecurityResult>)
        ensures
            r == if bad_text(content, self.config.max_content_length) {
                Err::<(), SecurityResult>(SecurityResult::DeniedValidation)
            } else {
                Ok(())
            },
    {
        if is_blank(content) || content.as_bytes().len() > self.config.max_content_length {
            Err(SecurityResult::DeniedValidation)
        } else {
            Ok(())
        }
    }

    /// Refuses blank queries and queries longer than the configured bytes.
    pub fn validate_query(&self, query: &str) -> (r: Result<(), SecurityResult>)
        ensures
            r == if bad_text(query, self.config.max_query_length) {
                Err::<(), SecurityResult>(SecurityResult::DeniedValidation)
            } else {
                Ok(())
            },
    {
        if is_blank(query) || query.as_bytes().len() > self.config.max_query_length {
            Err(SecurityResult::DeniedValidation)
        } else {
            Ok(())
        }
    }

    /// Refuses more labels than configured, and any bad label.
    pub fn validate_labels(&self, labels: &[String]) -> (r: Result<(), SecurityResult>)
        ensures
            r == if labels@.len() > self.config.max_labels || exists|i: int|
                0 <= i < labels@.len() && bad_label(&labels@[i]) {
                Err::<(), SecurityResult>(SecurityResult::DeniedValidation)
            } else {
                Ok(())
            },
    {
        if labels.len() > self.config.max_labels {
            return Err(SecurityResult::DeniedValidation);
        }
        let mut i: usize = 0;
        while i < labels.len()
            invariant
                i <= labels@.len(),
                forall|j: int| 0 <= j < i ==> !bad_label(&labels@[j]),
            decreases labels.len() - i,
        {
            if label_is_bad(&labels[i]) {
                return Err(SecurityResult::DeniedValidation);
            }
            i += 1;
        }
        Ok(())
    }

    /// New content must exist.
    pub fn check_constitution_create(&self, content_exists: bool) -> (r: Result<(), SecurityResult>)
        ensures
            r == if content_exists {
                Ok::<(), SecurityResult>(())
            } else {
                Err(SecurityResult::DeniedValidation)
            },
    {
        if !content_exists {
            return Err(SecurityResult::DeniedValidation);
        }
        Ok(())
    }

    /// Deleting is never allowed.
    pub fn check_constitution_delete(&self) -> (r: Result<(), SecurityResult>)
        ensures
            r == Err::<(), SecurityResult>(SecurityResult::DeniedConstitution),
    {
        Err(SecurityResult::DeniedConstitution)
    }

    /// Blending is never allowed.
    pub fn check_constitution_blend(&self) -> (r: Result<(), SecurityResult>)
        ensures
            r == Err::<(), SecurityResult>(SecurityResult::DeniedConstitution),
    {
        Err(SecurityResult::DeniedConstitution)
    }

    /// Records one request with its outcome at `timestamp`.
    pub fn audit_at(
        &mut self,
        action: &str,
        client: &str,
        result: SecurityResult,
        detail: &str,
        timestamp: i64,
    )
        ensures
            final(self).log() == audit_append(
                old(self).log(),
                (timestamp, action@, client@, result, detail@),
                old(self).config.audit_log_size,
            ),
            final(self).counters() == count_result(old(self).counters(), result),
            final(self).config == old(self).config,
            final(self).buckets() == old(self).buckets(),
    {
        let entry = AuditEntry {
            timestamp,
            action: action.to_owned(),
            client: client.to_owned(),
            result,
            detail: detail.to_owned(),
        };
        let c = self.counters;
        let mut n = AuditCounters { total_requests: c.total_requests.wrapping_add(1), ..c };
        match result {
            SecurityResult::Allowed => {},
            SecurityResult::DeniedAuth => {
                n.total_denied = c.total_denied.wrapping_add(1);
                n.denied_auth = c.denied_auth.wrapping_add(1);
            },
            SecurityResult::DeniedRateLimit => {
                n.total_denied = c.total_denied.wrapping_add(1);
                n.denied_rate_limit = c.denied_rate_limit.wrapping_add(1);
            },
            SecurityResult::DeniedValidation => {
                n.total_denied = c.total_denied.wrapping_add(1);
                n.denied_validation = c.denied_validation.wrapping_add(1);
            },
            SecurityResult::DeniedConstitution => {
                n.total_denied = c.total_denied.wrapping_add(1);
                n.denied_constitution = c.denied_constitution.wrapping_add(1);
            },
            SecurityResult::DeniedEnergy => {
                n.total_denied = c.total_denied.wrapping_add(1);
                n.denied_energy = c.denied_energy.wrapping_add(1);
            },
            SecurityResult::DeniedQuota => {
                n.total_denied = c.total_denied.wrapping_add(1);
                n.denied_quota = c.denied_quota.wrapping_add(1);
            },
        }
        self.counters = n;
        self.audit_log.push(entry);
        let size = self.config.audit_log_size;
        let len = self.audit_log.len();
        if len > size {
            let tail = self.audit_log.split_off(len - size);
            self.audit_log = tail;
        }
        assert(self.log() =~= audit_append(
            old(self).log(),
            (timestamp, action@, client@, result, detail@),
            size,
        ));
    }

    /// Records one request with its outcome now.
    pub fn audit(&mut self, action: &str, client: &str, result: SecurityResult, detail: &str)
        ensures
            exists|t: i64|
                final(self).log() == audit_append(
                    old(self).log(),
                    (t, action@, client@, result, detail@),
                    old(self).config.audit_log_size,
                ),
            final(self).counters() == count_result(old(self).counters(), result),
            final(self).config == old(self).config,
            final(self).buckets() == old(self).buckets(),
    {
        let t = unix_now();
        self.audit_at(action, client, result, detail, t);
    }

    /// The outcome of one full check at clock reading `now` (nanoseconds)
    /// and Unix time `timestamp`: a refused key is answered and logged as
    /// an authentication failure; an accepted key takes one rate-limit
    /// decision, and the answer, the log entry and the counters follow it.
    pub open spec fn full_check_outcome(
        before: SecurityGuard,
        after: SecurityGuard,
        api_key: Seq<char>,
        action: Seq<char>,
        now: u64,
        timestamp: i64,
        r: Result<String, (SecurityResult, String)>,
    ) -> bool {
        &&& after.config == before.config
        &&& match auth_spec(before.config, api_key) {
            Err(e) => {
                &&& r matches Err((e2, m)) && e2 == e && m@ == "authentication failed"@
                &&& after.buckets() == before.buckets()
                &&& after.log() == audit_append(
                    before.log(),
                    (timestamp, action, mask_spec(api_key), e, "authentication failed"@),
                    before.config.audit_log_size,
                )
                &&& after.counters() == count_result(before.counters(), e)
            },
            Ok(c) => {
                let (verdict, buckets) = rate_step(
                    before.buckets(),
                    rate_key(c),
                    before.config.rate_limit_per_minute,
                    before.config.max_tenants,
                    now,
                );
                &&& after.buckets() == buckets
                &&& match verdict {
                    Err(e) => {
                        &&& r matches Err((e2, m)) && e2 == e && m@ == "rate limit exceeded"@
                        &&& after.log() == audit_append(
                            before.log(),
                            (timestamp, action, c, e, "rate limit exceeded"@),
                            before.config.audit_log_size,
                        )
                        &&& after.counters() == count_result(before.counters(), e)
                    },
                    Ok(_) => {
                        &&& r matches Ok(id) && id@ == c
                        &&& after.log() == audit_append(
                            before.log(),
                            (timestamp, action, c, SecurityResult::Allowed, "passed"@),
                            before.config.audit_log_size,
                        )
                        &&& after.counters() == count_result(
                            before.counters(),
                            SecurityResult::Allowed,
                        )
                    },
                }
            },
        }
    }

    /// Authenticates, rate-limits and audits one request for `action`, with
    /// `now` on the guard's monotonic clock (nanoseconds) and `timestamp`
    /// the Unix time recorded in the audit log.
    pub fn full_check_at(&mut self, api_key: &str, action: &str, now: u64, timestamp: i64) -> (r:
        Result<String, (SecurityResult, String)>)
        ensures
            Self::full_check_outcome(*old(self), *final(self), api_key@, action@, now, timestamp, r),
    {
        let client = match self.authenticate(api_key) {
            Ok(c) => c,
            Err(e) => {
                let masked = Self::mask_key(api_key);
                self.audit_at(action, masked.as_str(), e, "authentication failed", timestamp);
                return Err((e, "authentication failed".to_owned()));
            },
        };
        match self.check_rate_limit_at(client.as_str(), now) {
            Err(e) => {
                self.audit_at(action, client.as_str(), e, "rate limit exceeded", timestamp);
                Err((e, "rate limit exceeded".to_owned()))
            },
            Ok(()) => {
                self.audit_at(action, client.as_str(), SecurityResult::Allowed, "passed", timestamp);
                Ok(client)
            },
        }
    }

    /// Authenticates, rate-limits and audits one request for `action` now.
    pub fn full_check(&mut self, api_key: &str, action: &str) -> (r: Result<
        String,
        (SecurityResult, String),
    >)
        ensures
            exists|now: u64, t: i64|
                #[trigger] Self::full_check_outcome(*old(self), *final(self), api_key@, action@, now, t, r),
            final(self).config == old(self).config,
            final(self).counters().total_requests == bump_u64(old(self).counters().total_requests),
            match auth_spec(old(self).config, api_key@) {
                Err(e) => r matches Err((e2, m)) && e2 == e && m@ == "authentication failed"@
                    && final(self).buckets() == old(self).buckets(),
                Ok(c) => {
                    &&& match r {
                        Ok(id) => id@ == c,
                        Err((e, m)) => e == SecurityResult::DeniedRateLimit && m@
                            == "rate limit exceeded"@,
                    }
                    &&& (key_pos(old(self).buckets(), rate_key(c)) == old(self).buckets().len()
                        && old(self).buckets().len() < old(self).config.max_tenants
                        && old(self).config.rate_limit_per_minute > 0) ==> (r matches Ok(id) && id@ == c)
                },
            },
    {
        let now = self.now_nanos();
        let t = unix_now();
        let r = self.full_check_at(api_key, action, now, t);
        proof {
            reveal_strlit("rate limit exceeded");
            reveal_strlit("authentication failed");
            if let Ok(c) = auth_spec(old(self).config, api_key@) {
                let (verdict, _b) = rate_step(
                    old(self).buckets(),
                    rate_key(c),
                    old(self).config.rate_limit_per_minute,
                    old(self).config.max_tenants,
                    now,
                );
                lemma_rate_step_refusal(
                    old(self).buckets(),
                    rate_key(c),
                    old(self).config.rate_limit_per_minute,
                    old(self).config.max_tenants,
                    now,
                );
            }
        }
        r
    }

    /// The current statistics.
    pub fn stats(&self) -> (r: SecurityStats)
        ensures
            r == self.stats_spec(),
    {
        let c = self.counters;
        SecurityStats {
            enabled: self.config.enabled,
            total_requests: c.total_requests,
            total_denied: c.total_denied,
            denied_auth: c.denied_auth,
            denied_rate_limit: c.denied_rate_limit,
            denied_validation: c.denied_validation,
            denied_constitution: c.denied_constitution,
            denied_energy: c.denied_energy,
            denied_quota: c.denied_quota,
            rate_limit_per_minute: self.config.rate_limit_per_minute,
            max_content_length: self.config.max_content_length,
            audit_entries: self.audit_log.len(),
        }
    }

    /// The newest `limit` audit entries, newest first.
    pub fn audit_log(&self, limit: usize) -> (r: Vec<AuditEntry>)
        ensures
            entries_view(r@) == newest_first(self.log(), limit),
    {
        let mut out: Vec<AuditEntry> = Vec::new();
        let len = self.audit_log.len();
        let n = if limit < len {
            limit
        } else {
            len
        };
        let mut i: usize = 0;
        while i < n
            invariant
                n <= len,
                len == self.audit_log@.len(),
                i <= n,
                entries_view(out@) == newest_first(self.log(), limit).take(i as int),
                newest_first(self.log(), limit).len() == n,
            decreases n - i,
        {
            let e = self.audit_log[len - 1 - i].clone();
            let ghost before = out@;
            out.push(e);
            proof {
                assert(entries_view(out@) =~= entries_view(before).push(e@));
                assert(self.log()[len - 1 - i] == self.audit_log@[len - 1 - i]@);
            }
            i += 1;
            assert(entries_view(out@) =~= newest_first(self.log(), limit).take(i as int));
        }
        assert(newest_first(self.log(), limit).take(n as int) =~= newest_first(self.log(), limit));
        out
    }

    /// Whether `api_key` may perform administrative operations: always with
    /// security off; otherwise it must equal the admin key when one is set,
    /// or else one of the regular keys.
    pub fn check_admin(&self, api_key: &str) -> (r: bool)
        ensures
            r == if !self.config.enabled {
                true
            } else {
                match self.config.admin_key {
                    Some(a) => a@ == api_key@,
                    None => key_listed(self.config.api_keys@, api_key@),
                }
            },
    {
        if !self.config.enabled {
            return true;
        }
        match &self.config.admin_key {
            Some(admin) => constant_time_eq(api_key, admin.as_str()),
            None => {
                let mut found = false;
                let mut i: usize = 0;
                while i < self.config.api_keys.len()
                    invariant
                        i <= self.config.api_keys@.len(),
                        found <==> exists|j: int| 0 <= j < i && self.config.api_keys@[j]@ == api_key@,
                    decreases self.config.api_keys.len() - i,
                {
                    if constant_time_eq(api_key, self.config.api_keys[i].as_str()) {
                        found = true;
                    }
                    i += 1;
                }
                found
            },
        }
    }
}

/// Whether a text is blank (nothing left after trimming whitespace).
fn is_blank(t: &str) -> (r: bool)
    ensures
        r == (trim_seq(t@).len() == 0),
{
    let chars = to_chars(t);
    let trimmed = trim(&chars);
    trimmed.len() == 0
}

fn label_is_bad(l: &String) -> (r: bool)
    ensures
        r == bad_label(l),
{
    if l.as_str().as_bytes().len() > MAX_LABEL_LENGTH || is_blank(l.as_str()) {
        return true;
    }
    let chars = to_chars(l.as_str());
    let mut i: usize = 0;
    while i < chars.len()
        invariant
            chars@ == l@,
            i <= chars@.len(),
            forall|j: int| 0 <= j < i ==> label_char_ok(chars@[j]),
        decreases chars.len() - i,
    {
        let c = chars[i];
        if !(is_alphanumeric(c) || c == '-' || c == '_' || c == '.' || is_whitespace(c)) {
            return true;
        }
        i += 1;
    }
    false
}


/// A refused rate-limit decision is always `DeniedRateLimit`.
proof fn lemma_rate_step_refusal(
    s: Seq<(Seq<char>, RateBucket)>,
    key: Seq<char>,
    limit: u64,
    max_tenants: usize,
    now: u64,
)
    ensures
        rate_step(s, key, limit, max_tenants, now).0 matches Err(e) ==> e
            == SecurityResult::DeniedRateLimit,
{
}

/// Every bucket kept by [`retain_fresh`] is a bucket of `s` whose window has
/// not passed, and keys stay distinct.
pub proof fn lemma_retain_fresh(s: Seq<(Seq<char>, RateBucket)>, now: u64)
    ensures
        retain_fresh(s, now).len() <= s.len(),
        forall|i: int|
            0 <= i < retain_fresh(s, now).len() ==> exists|j: int|
                0 <= j < s.len() && s[j] == #[trigger] retain_fresh(s, now)[i] && !expired(
                    s[j].1,
                    now,
                ),
        distinct_keys(s) ==> distinct_keys(retain_fresh(s, now)),
    decreases s.len(),
{
    if s.len() > 0 {
        let r0 = retain_fresh(s.drop_last(), now);
        lemma_retain_fresh(s.drop_last(), now);
        let r = retain_fresh(s, now);
        assert forall|i: int| 0 <= i < r.len() implies exists|j: int|
            0 <= j < s.len() && s[j] == #[trigger] r[i] && !expired(s[j].1, now) by {
            if i < r0.len() {
                assert(r[i] == r0[i]);
                let j = choose|j: int|
                    0 <= j < s.drop_last().len() && s.drop_last()[j] == r0[i] && !expired(
                        s.drop_last()[j].1,
                        now,
                    );
                assert(s[j] == s.drop_last()[j]);
            } else {
                assert(r[i] == s[s.len() - 1]);
            }
        }
        if distinct_keys(s) {
            assert(distinct_keys(s.drop_last()));
            assert forall|a: int, b: int| 0 <= a < b < r.len() implies r[a].0 != r[b].0 by {
                if b < r0.len() {
                    assert(r[a] == r0[a] && r[b] == r0[b]);
                } else {
                    assert(r[a] == r0[a]);
                    let j = choose|j: int|
                        0 <= j < s.drop_last().len() && s.drop_last()[j] == r0[a] && !expired(
                            s.drop_last()[j].1,
                            now,
                        );
                    assert(s[j] == s.drop_last()[j]);
                    assert(r[b] == s[s.len() - 1]);
                }
            }
        }
    }
}

/// Rate limiting never lets a bucket count past the limit: if no bucket
/// counted more than `limit` requests before a decision, none does after
/// it; an admitted request is counted in the bucket of its key; and bucket
/// keys stay distinct.
pub proof fn law_rate_limit_bounded(
    s: Seq<(Seq<char>, RateBucket)>,
    key: Seq<char>,
    limit: u64,
    max_tenants: usize,
    now: u64,
)
    requires
        distinct_keys(s),
        forall|i: int| 0 <= i < s.len() ==> #[trigger] s[i].1.count <= limit,
    ensures
        ({
            let (verdict, t) = rate_step(s, key, limit, max_tenants, now);
            &&& distinct_keys(t)
            &&& forall|i: int| 0 <= i < t.len() ==> #[trigger] t[i].1.count <= limit
            &&& verdict is Ok ==> exists|i: int|
                0 <= i < t.len() && t[i].0 == key && t[i].1.count >= 1
        }),
{
    let pruned = if s.len() > 2 * max_tenants {
        retain_fresh(s, now)
    } else {
        s
    };
    lemma_retain_fresh(s, now);
    assert forall|i: int| 0 <= i < pruned.len() implies #[trigger] pruned[i].1.count <= limit by {
        if s.len() > 2 * max_tenants {
            let j = choose|j: int|
                0 <= j < s.len() && s[j] == retain_fresh(s, now)[i] && !expired(s[j].1, now);
            assert(s[j].1.count <= limit);
        }
    }
    lemma_key_pos(pruned, key);
    let (verdict, t) = rate_step(s, key, limit, max_tenants, now);
    let p = key_pos(pruned, key);
    if !(pruned.len() >= max_tenants && p == pruned.len()) {
        if p < pruned.len() {
            assert forall|a: int, b: int| 0 <= a < b < t.len() implies t[a].0 != t[b].0 by {
                assert(t[a].0 == pruned[a].0 && t[b].0 == pruned[b].0);
            }
            if verdict is Ok {
                assert(t[p].0 == key);
            }
        } else {
            assert forall|a: int, b: int| 0 <= a < b < t.len() implies t[a].0 != t[b].0 by {
                if b < pruned.len() {
                    assert(t[a] == pruned[a] && t[b] == pruned[b]);
                } else {
                    assert(t[a] == pruned[a]);
                }
            }
            if verdict is Ok {
                assert(t[pruned.len() as int].0 == key);
            }
        }
    }
}

/// The audit log never grows beyond its configured size: after an entry is
/// appended it holds the newest `min(len + 1, size)` entries, ending with
/// the new one whenever the size is positive.
pub proof fn law_audit_log_bounded<E>(log: Seq<E>, e: E, size: usize)
    ensures
        audit_append(log, e, size).len() == if log.len() + 1 <= size {
            log.len() + 1
        } else {
            size as nat
        },
        size > 0 ==> audit_append(log, e, size).last() == e,
        audit_append(log, e, size) == log.push(e).skip(log.len() + 1 - audit_append(log, e, size).len()),
{
    let l = log.push(e);
    assert(l.subrange(l.len() - size, l.len() as int) =~= l.skip(l.len() - size));
    assert(l.skip(0) =~= l);
}


/// Whether requests to `path` bypass authentication and rate limiting: the
/// dashboard pages and the health endpoints.
pub open spec fn open_path(path: Seq<char>) -> bool {
    path == "/"@ || path == "/dashboard"@ || crate::strs::starts_with_seq(path, "/health"@)
}

/// Whether requests to `path` bypass authentication and rate limiting.
pub fn skips_security(path: &str) -> (r: bool)
    ensures
        r == open_path(path@),
{
    if str_eq(path, "/") || str_eq(path, "/dashboard") {
        return true;
    }
    let p = to_chars(path);
    let h = to_chars("/health");
    crate::strs::starts_with(&p, &h)
}

} // verus!
