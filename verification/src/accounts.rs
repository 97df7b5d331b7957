//! Accounts: users with plans and shared memory quotas, sub-accounts,
//! password hashing, API keys, invite codes and the per-user engine slots.

use vstd::prelude::*;
use argon2::PasswordHasher;
use argon2::PasswordVerifier;
use base64::Engine;
use rand::Rng;
use sha2::Digest;
use crate::guard::{find_key, key_pos, lemma_key_pos, pairs_view};
use crate::security::{constant_time_eq, constant_time_eq_bytes, eq_ignore_ascii_case, eq_ignore_ascii_case_spec};
use crate::strs::{
    dec, dec_chars_wide, find_char_from, first_char_from, from_chars, push_all, push_str_chars,
    slice_chars, starts_with, starts_with_seq, str_eq, strings_view, to_chars, to_lowercase,
    unicode_lowercase,
};

verus! {

broadcast use vstd::utf8::group_utf8_lib;

pub const MAX_USERS: usize = 1000;
pub const IDLE_TIMEOUT_SECS: u64 = 3600;
pub const MAX_SUB_ACCOUNTS: usize = 10;
/// Width of the embedding vectors every plan uses.
pub const EMBEDDING_DIM: usize = 1024;

// ---------------------------------------------------------------------------
// Plans and users
// ---------------------------------------------------------------------------

/// A subscription plan.
#[derive(Clone, Copy, Debug, PartialEq, Eq, Structural)]
pub enum UserPlan {
    Free,
    Pro,
    Enterprise,
}

/// The memory quota of a plan.
pub open spec fn plan_quota(p: UserPlan) -> usize {
    match p {
        UserPlan::Free => 1000,
        UserPlan::Pro => 10000,
        UserPlan::Enterprise => 100000,
    }
}

impl UserPlan {
    /// How many memories an account on this plan may hold.
    pub fn max_memories(&self) -> (r: usize)
        ensures
            r == plan_quota(*self),
    {
        match self {
            UserPlan::Free => 1000,
            UserPlan::Pro => 10000,
            UserPlan::Enterprise => 100000,
        }
    }

    /// The embedding width of this plan (the same for every plan).
    pub fn max_embedding_dims(&self) -> (r: usize)
        ensures
            r == EMBEDDING_DIM,
    {
        EMBEDDING_DIM
    }

    /// The plan named in a registration request: `pro`, `enterprise`, and
    /// anything else (or nothing) is the free plan.
    pub fn from_request(name: Option<&str>) -> (r: UserPlan)
        ensures
            r == match name {
                Some(n) => if n@ == "pro"@ {
                    UserPlan::Pro
                } else if n@ == "enterprise"@ {
                    UserPlan::Enterprise
                } else {
                    UserPlan::Free
                },
                None => UserPlan::Free,
            },
    {
        match name {
            Some(n) => if str_eq(n, "pro") {
                UserPlan::Pro
            } else if str_eq(n, "enterprise") {
                UserPlan::Enterprise
            } else {
                UserPlan::Free
            },
            None => UserPlan::Free,
        }
    }
}

/// A registered account.
#[derive(Debug)]
pub struct UserInfo {
    pub user_id: String,
    pub api_key: String,
    pub password_hash: String,
    pub plan: UserPlan,
    pub max_memories: usize,
    pub memories_used: usize,
    pub created_at: i64,
    /// The main account of a sub-account.
    pub parent: Option<String>,
    /// The sub-accounts of a main account.
    pub sub_accounts: Vec<String>,
}

/// The optional string as characters.
pub open spec fn opt_chars(o: Option<String>) -> Option<Seq<char>> {
    match o {
        Some(s) => Some(s@),
        None => None,
    }
}

impl View for UserInfo {
    type V = (
        Seq<char>,
        Seq<char>,
        Seq<char>,
        UserPlan,
        usize,
        usize,
        i64,
        Option<Seq<char>>,
        Seq<Seq<char>>,
    );

    open spec fn view(&self) -> Self::V {
        (
            self.user_id@,
            self.api_key@,
            self.password_hash@,
            self.plan,
            self.max_memories,
            self.memories_used,
            self.created_at,
            opt_chars(self.parent),
            strings_view(self.sub_accounts@),
        )
    }
}

fn clone_strings(v: &Vec<String>) -> (r: Vec<String>)
    ensures
        strings_view(r@) == strings_view(v@),
{
    let mut out: Vec<String> = Vec::new();
    let mut i: usize = 0;
    while i < v.len()
        invariant
            i <= v@.len(),
            strings_view(out@) == strings_view(v@).take(i as int),
        decreases v.len() - i,
    {
        let ghost before = out@;
        out.push(v[i].clone());
        assert(strings_view(out@) =~= strings_view(before).push(v@[i as int]@));
        i += 1;
        assert(strings_view(out@) =~= strings_view(v@).take(i as int));
    }
    assert(strings_view(v@).take(v@.len() as int) =~= strings_view(v@));
    out
}

impl Clone for UserInfo {
    fn clone(&self) -> (r: Self)
        ensures
            r@ == self@,
    {
        UserInfo {
            user_id: self.user_id.clone(),
            api_key: self.api_key.clone(),
            password_hash: self.password_hash.clone(),
            plan: self.plan,
            max_memories: self.max_memories,
            memories_used: self.memories_used,
            created_at: self.created_at,
            parent: match &self.parent {
                Some(p) => Some(p.clone()),
                None => None,
            },
            sub_accounts: clone_strings(&self.sub_accounts),
        }
    }
}

/// Views of a sequence of accounts.
pub open spec fn users_view(v: Seq<UserInfo>) -> Seq<<UserInfo as View>::V> {
    v.map_values(|u: UserInfo| u@)
}

/// A registration request.
#[derive(Debug)]
pub struct RegisterRequest {
    pub user_id: String,
    pub plan: Option<String>,
    pub password: String,
}

/// A password login request.
#[derive(Debug)]
pub struct LoginRequest {
    pub user_id: String,
    pub password: String,
}

/// Loading state of a user's persona.
#[derive(Clone, Copy, Debug, PartialEq, Eq, Structural)]
pub enum PersonaState {
    Unknown,
    WarmingUp,
    Ready,
    Degraded,
}

impl Default for PersonaState {
    fn default() -> (r: PersonaState)
        ensures
            r == PersonaState::Unknown,
    {
        PersonaState::Unknown
    }
}

/// The bookkeeping of one loaded user engine (the engine itself is held by
/// the caller, under the same user id).
#[derive(Clone, Copy, Debug, PartialEq, Eq, Structural)]
pub struct UserSlot {
    /// Last access, in milliseconds on the manager's monotonic clock.
    pub last_access: u64,
    pub persona_state: PersonaState,
    pub loop_started: bool,
    pub has_primary: bool,
}

// ---------------------------------------------------------------------------
// Outside crates: hashing, encoding, randomness
// ---------------------------------------------------------------------------

#[verifier::external_type_specification]
#[verifier::external_body]
pub struct ExSaltString(argon2::password_hash::SaltString);

#[verifier::external_type_specification]
#[verifier::external_body]
pub struct ExThreadRng(rand::rngs::ThreadRng);

/// SHA-256 of a byte string.
pub uninterp spec fn sha256_digest(data: Seq<u8>) -> Seq<u8>;

/// Standard padded base64 text of a byte string.
pub uninterp spec fn base64_text(data: Seq<u8>) -> Seq<char>;

/// Standard padded base64 decoding of a text, if it is valid.
pub uninterp spec fn base64_bytes(text: Seq<char>) -> Option<Seq<u8>>;

/// Whether Argon2 accepts `password` against the PHC string `stored`.
pub uninterp spec fn argon2_accepts(password: Seq<char>, stored: Seq<char>) -> bool;

/// Whether `c` belongs to the standard base64 alphabet or is its padding.
pub open spec fn base64_char(c: char) -> bool {
    ('A' <= c <= 'Z') || ('a' <= c <= 'z') || ('0' <= c <= '9') || c == '+' || c == '/' || c
        == '='
}

/// Whether `c` is a lowercase hex digit.
pub open spec fn lower_hex_char(c: char) -> bool {
    ('0' <= c <= '9') || ('a' <= c <= 'f')
}

/// Calls `SaltString::generate` with the operating system's random source;
/// the salt is random, so nothing is promised of it.
#[verifier::external_body]
fn generate_salt() -> argon2::password_hash::SaltString {
    argon2::password_hash::SaltString::generate(&mut rand::rngs::OsRng)
}

/// Calls `PasswordHasher::hash_password` on `Argon2::default()` and renders
/// the hash as text; on success the PHC text begins with `$argon2id`, the
/// default algorithm's identifier, and Argon2 verification accepts the
/// password against it (it recomputes the hash with the salt and
/// parameters the text records). `None` stands for the crate's error.
#[verifier::external_body]
fn argon2_hash(password: &str, salt: &argon2::password_hash::SaltString) -> (r: Option<String>)
    ensures
        r matches Some(h) ==> starts_with_seq(h@, "$argon2id"@) && argon2_accepts(password@, h@),
{
    match argon2::Argon2::default().hash_password(password.as_bytes(), salt) {
        Ok(h) => Some(h.to_string()),
        Err(_) => None,
    }
}

/// Calls `PasswordHash::new` on `stored` and, when it parses,
/// `PasswordVerifier::verify_password` of `Argon2::default()` with the
/// password's bytes; an unparsable string accepts nothing.
#[verifier::external_body]
fn argon2_check(password: &str, stored: &str) -> (r: bool)
    ensures
        r == argon2_accepts(password@, stored@),
{
    match argon2::password_hash::PasswordHash::new(stored) {
        Ok(h) => argon2::Argon2::default().verify_password(password.as_bytes(), &h).is_ok(),
        Err(_) => false,
    }
}

/// Calls `rand::random` for 32 bytes; they are random, so nothing is promised.
#[verifier::external_body]
fn random_salt_bytes() -> [u8; 32] {
    rand::random()
}

/// Calls `Digest::digest` of `Sha256`: the 32-byte SHA-256 digest of `data`.
#[verifier::external_body]
pub(crate) fn sha256(data: &[u8]) -> (r: Vec<u8>)
    ensures
        r@ == sha256_digest(data@),
        r@.len() == 32,
{
    sha2::Sha256::digest(data).to_vec()
}

/// Calls `Engine::encode` of the standard base64 engine: padded text over
/// the standard alphabet, which decodes back to `data`.
#[verifier::external_body]
fn b64_encode(data: &[u8]) -> (r: String)
    ensures
        r@ == base64_text(data@),
        forall|i: int| 0 <= i < r@.len() ==> base64_char(#[trigger] r@[i]),
        base64_bytes(r@) == Some(data@),
{
    base64::engine::general_purpose::STANDARD.encode(data)
}

/// Calls `Engine::decode` of the standard base64 engine; `None` stands for
/// its error.
#[verifier::external_body]
fn b64_decode(text: &str) -> (r: Option<Vec<u8>>)
    ensures
        match r {
            Some(v) => base64_bytes(text@) == Some(v@),
            None => base64_bytes(text@) is None,
        },
{
    base64::engine::general_purpose::STANDARD.decode(text).ok()
}

/// Whether `u` is a version 4 UUID in hyphenated lowercase form: 36
/// characters, `-` at positions 8, 13, 18 and 23, lowercase hex digits
/// elsewhere, the version digit `4` at position 14 and a variant digit
/// `8`, `9`, `a` or `b` at position 19.
pub open spec fn uuid_v4_shape(u: Seq<char>) -> bool {
    &&& u.len() == 36
    &&& forall|i: int|
        0 <= i < 36 ==> if i == 8 || i == 13 || i == 18 || i == 23 {
            u[i] == '-'
        } else {
            lower_hex_char(#[trigger] u[i])
        }
    &&& u[14] == '4'
    &&& (u[19] == '8' || u[19] == '9' || u[19] == 'a' || u[19] == 'b')
}

/// Calls `uuid::Uuid::new_v4` and renders it with `Display`: a random
/// version 4 UUID in hyphenated lowercase form (the crate masks the version
/// and variant bits in).
#[verifier::external_body]
fn uuid_v4_text() -> (r: String)
    ensures
        uuid_v4_shape(r@),
{
    uuid::Uuid::new_v4().to_string()
}

/// Calls `rand::thread_rng`.
#[verifier::external_body]
fn thread_rng() -> rand::rngs::ThreadRng {
    rand::thread_rng()
}

/// Calls `Rng::gen_range` over `0..n`: an index below `n`.
#[verifier::external_body]
fn gen_index(rng: &mut rand::rngs::ThreadRng, n: usize) -> (r: usize)
    requires
        n > 0,
    ensures
        r < n,
{
    rng.gen_range(0..n)
}

// ---------------------------------------------------------------------------
// Passwords
// ---------------------------------------------------------------------------

/// The text of a legacy password hash: base64 of the salt, `:`, and base64
/// of SHA-256 over the salt followed by the password's UTF-8 bytes.
pub open spec fn legacy_hash_text(salt: Seq<u8>, password: Seq<char>) -> Seq<char> {
    base64_text(salt) + seq![':'] + base64_text(
        sha256_digest(salt + vstd::utf8::encode_utf8(password)),
    )
}

/// Whether a legacy hash text accepts `password`: it splits at its first
/// `:` into two valid base64 texts, the salt and the expected digest, and
/// SHA-256 over the salt and the password equals the digest.
pub open spec fn legacy_accepts(password: Seq<char>, stored: Seq<char>) -> bool {
    let c = first_char_from(stored, ':', 0);
    c < stored.len() && match (base64_bytes(stored.take(c)), base64_bytes(stored.skip(c + 1))) {
        (Some(salt), Some(expected)) => sha256_digest(salt + vstd::utf8::encode_utf8(password))
            == expected,
        _ => false,
    }
}

/// The legacy hash text of `password` under `salt`: base64 of the salt,
/// `:`, and base64 of SHA-256 over the salt followed by the password's
/// UTF-8 bytes. The legacy check accepts the password against it.
pub fn legacy_hash_with_salt(password: &str, salt: &[u8]) -> (r: String)
    ensures
        r@ == legacy_hash_text(salt@, password@),
        legacy_accepts(password@, r@),
        password_accepts(password@, r@),
{
    let mut data: Vec<u8> = Vec::new();
    let mut i: usize = 0;
    while i < salt.len()
        invariant
            i <= salt@.len(),
            data@ == salt@.take(i as int),
        decreases salt.len() - i,
    {
        data.push(salt[i]);
        i += 1;
        assert(data@ =~= salt@.take(i as int));
    }
    assert(salt@.take(salt@.len() as int) =~= salt@);
    let salt_vec = data.clone();
    let pw = password.as_bytes();
    let mut j: usize = 0;
    while j < pw.len()
        invariant
            j <= pw@.len(),
            data@ == salt@ + pw@.take(j as int),
        decreases pw.len() - j,
    {
        data.push(pw[j]);
        j += 1;
        assert(data@ =~= salt@ + pw@.take(j as int));
    }
    assert(pw@.take(pw@.len() as int) =~= pw@);
    let digest = sha256(&data);
    let a = b64_encode(&salt_vec);
    let b = b64_encode(&digest);
    let mut out: Vec<char> = Vec::new();
    push_str_chars(&mut out, a.as_str());
    out.push(':');
    push_str_chars(&mut out, b.as_str());
    assert(out@ =~= legacy_hash_text(salt@, password@));
    proof {
        lemma_legacy_hash_accepts(salt@, password@);
        reveal_strlit("$argon2");
        assert(out@.len() > 0) by {
            assert(out@[a@.len() as int] == ':');
        }
        if a@.len() > 0 {
            assert(base64_char(out@[0]));
        } else {
            assert(out@[0] == ':');
        }
        assert(out@[0] != '$');
        assert(!starts_with_seq(out@, "$argon2"@)) by {
            if starts_with_seq(out@, "$argon2"@) {
                assert(out@.subrange(0, 7)[0] == "$argon2"@[0]);
            }
        }
    }
    from_chars(&out)
}

/// Hashes a password the legacy way, with a fresh random salt.
fn hash_password_legacy(password: &str) -> (r: String)
    ensures
        exists|salt: Seq<u8>| salt.len() == 32 && r@ == legacy_hash_text(salt, password@),
        legacy_accepts(password@, r@),
        password_accepts(password@, r@),
{
    let salt = random_salt_bytes();
    legacy_hash_with_salt(password, &salt)
}

/// Whether a stored hash accepts `password`: an empty hash accepts
/// nothing; a `$argon2` hash is checked by Argon2; any other is checked
/// the legacy way.
pub open spec fn password_accepts(password: Seq<char>, stored: Seq<char>) -> bool {
    if stored.len() == 0 {
        false
    } else if starts_with_seq(stored, "$argon2"@) {
        argon2_accepts(password, stored)
    } else {
        legacy_accepts(password, stored)
    }
}

/// Whether `h` is a hash of `password` as [`hash_password`] makes them: an
/// Argon2id PHC string or a legacy salted hash, either way accepting the
/// password.
pub open spec fn is_hash_of(h: Seq<char>, password: Seq<char>) -> bool {
    &&& password_accepts(password, h)
    &&& starts_with_seq(h, "$argon2id"@) || exists|salt: Seq<u8>|
        salt.len() == 32 && h == legacy_hash_text(salt, password)
}

/// Hashes a password with Argon2id and a fresh random salt, falling back to
/// the legacy salted SHA-256 form if Argon2 fails.
pub fn hash_password(password: &str) -> (r: String)
    ensures
        is_hash_of(r@, password@),
{
    let salt = generate_salt();
    match argon2_hash(password, &salt) {
        Some(h) => {
            proof {
                reveal_strlit("$argon2");
                reveal_strlit("$argon2id");
                assert(h@.subrange(0, 7) =~= h@.subrange(0, 9).subrange(0, 7));
                assert("$argon2id"@.subrange(0, 7) =~= "$argon2"@);
                assert(starts_with_seq(h@, "$argon2"@));
                assert(h@.len() > 0);
            }
            h
        },
        None => hash_password_legacy(password),
    }
}

/// Checks a password against a legacy hash text.
fn verify_password_legacy(password: &str, stored: &str) -> (r: bool)
    ensures
        r == legacy_accepts(password@, stored@),
{
    let chars = to_chars(stored);
    let c = find_char_from(&chars, ':', 0);
    if c == chars.len() {
        return false;
    }
    let head = from_chars(&slice_chars(&chars, 0, c));
    let tail = from_chars(&slice_chars(&chars, c + 1, chars.len()));
    assert(head@ =~= stored@.take(c as int));
    assert(tail@ =~= stored@.skip(c + 1));
    let salt = match b64_decode(head.as_str()) {
        Some(s) => s,
        None => return false,
    };
    let expected = match b64_decode(tail.as_str()) {
        Some(e) => e,
        None => return false,
    };
    let mut data = salt.clone();
    assert(data@ == salt@);
    let pw = password.as_bytes();
    let mut j: usize = 0;
    while j < pw.len()
        invariant
            j <= pw@.len(),
            data@ == salt@ + pw@.take(j as int),
        decreases pw.len() - j,
    {
        data.push(pw[j]);
        j += 1;
        assert(data@ =~= salt@ + pw@.take(j as int));
    }
    assert(pw@.take(pw@.len() as int) =~= pw@);
    let digest = sha256(&data);
    constant_time_eq_bytes(digest.as_slice(), expected.as_slice())
}

/// Checks a password against a stored hash: an empty hash accepts nothing;
/// a `$argon2` hash is checked by Argon2; any other hash is checked the
/// legacy way.
pub fn verify_password(password: &str, stored: &str) -> (r: bool)
    ensures
        r == password_accepts(password@, stored@),
{
    if stored.is_empty() {
        return false;
    }
    let sc = to_chars(stored);
    let prefix = to_chars("$argon2");
    if starts_with(&sc, &prefix) {
        argon2_check(password, stored)
    } else {
        verify_password_legacy(password, stored)
    }
}

/// The first `c` at or after `from` is at `k` when `s[k] == c` and no
/// earlier position from `from` on holds `c`.
proof fn lemma_first_char_at(s: Seq<char>, c: char, from: int, k: int)
    requires
        0 <= from <= k < s.len(),
        s[k] == c,
        forall|i: int| from <= i < k ==> s[i] != c,
    ensures
        first_char_from(s, c, from) == k,
    decreases k - from,
{
    if from < k {
        lemma_first_char_at(s, c, from + 1, k);
    }
}

/// A legacy hash text accepts the password it was made from, given the
/// base64 facts the encoder guarantees for the two texts in it.
proof fn lemma_legacy_hash_accepts(salt: Seq<u8>, password: Seq<char>)
    requires
        forall|i: int| 0 <= i < base64_text(salt).len() ==> base64_char(#[trigger] base64_text(salt)[i]),
        base64_bytes(base64_text(salt)) == Some(salt),
        base64_bytes(base64_text(sha256_digest(salt + vstd::utf8::encode_utf8(password))))
            == Some(sha256_digest(salt + vstd::utf8::encode_utf8(password))),
    ensures
        legacy_accepts(password, legacy_hash_text(salt, password)),
{
    let a = base64_text(salt);
    let d = sha256_digest(salt + vstd::utf8::encode_utf8(password));
    let b = base64_text(d);
    let t = legacy_hash_text(salt, password);
    assert forall|i: int| 0 <= i < a.len() implies t[i] != ':' by {
        assert(t[i] == a[i]);
        assert(base64_char(a[i]));
    }
    lemma_first_char_at(t, ':', 0, a.len() as int);
    assert(t.take(a.len() as int) =~= a);
    assert(t.skip(a.len() + 1int) =~= b);
}

// ---------------------------------------------------------------------------
// Generated secrets
// ---------------------------------------------------------------------------

/// The characters invite codes are drawn from (no look-alikes such as
/// `I`, `O`, `l`, `0` or `1`).
pub open spec fn invite_alphabet() -> Seq<char> {
    "ABCDEFGHJKLMNPQRSTUVWXYZabcdefghjkmnpqrstuvwxyz23456789"@
}

/// Whether `code` is a well-formed invite code: 32 characters of the alphabet.
pub open spec fn invite_code_shape(code: Seq<char>) -> bool {
    code.len() == 32 && forall|i: int| 0 <= i < 32 ==> invite_alphabet().contains(#[trigger] code[i])
}

/// A fresh random invite code.
pub fn generate_invite_code() -> (r: String)
    ensures
        invite_code_shape(r@),
{
    let alphabet = to_chars("ABCDEFGHJKLMNPQRSTUVWXYZabcdefghjkmnpqrstuvwxyz23456789");
    proof {
        reveal_strlit("ABCDEFGHJKLMNPQRSTUVWXYZabcdefghjkmnpqrstuvwxyz23456789");
    }
    let mut rng = thread_rng();
    let mut out: Vec<char> = Vec::new();
    let mut i: usize = 0;
    while i < 32
        invariant
            alphabet@ == invite_alphabet(),
            alphabet@.len() == 55,
            i <= 32,
            out@.len() == i,
            forall|k: int| 0 <= k < i ==> invite_alphabet().contains(#[trigger] out@[k]),
        decreases 32 - i,
    {
        let k = gen_index(&mut rng, alphabet.len());
        let c = alphabet[k];
        assert(invite_alphabet()[k as int] == c);
        out.push(c);
        i += 1;
    }
    from_chars(&out)
}

/// The shape of generated API keys: `tm-` and 32 lowercase hex digits.
pub open spec fn api_key_shape(k: Seq<char>) -> bool {
    k.len() == 35 && k.take(3) == "tm-"@ && forall|i: int| 3 <= i < 35 ==> lower_hex_char(#[trigger] k[i])
}

/// `s` without its `-` characters.
pub open spec fn strip_hyphens(s: Seq<char>) -> Seq<char>
    decreases s.len(),
{
    if s.len() == 0 {
        s
    } else if s.last() == '-' {
        strip_hyphens(s.drop_last())
    } else {
        strip_hyphens(s.drop_last()).push(s.last())
    }
}

/// The number of hyphen positions of a hyphenated UUID before `i`.
spec fn hyphens_before(i: int) -> int {
    if i > 23 {
        4
    } else if i > 18 {
        3
    } else if i > 13 {
        2
    } else if i > 8 {
        1
    } else {
        0
    }
}

proof fn lemma_strip_uuid(u: Seq<char>, i: int)
    requires
        uuid_v4_shape(u),
        0 <= i <= 36,
    ensures
        strip_hyphens(u.take(i)).len() == i - hyphens_before(i),
        forall|m: int|
            0 <= m < strip_hyphens(u.take(i)).len() ==> lower_hex_char(
                #[trigger] strip_hyphens(u.take(i))[m],
            ),
        i > 14 ==> strip_hyphens(u.take(i))[12] == '4',
        i > 19 ==> strip_hyphens(u.take(i))[16] == u[19],
    decreases i,
{
    if i == 0 {
        assert(u.take(0) =~= Seq::<char>::empty());
    } else {
        lemma_strip_uuid(u, i - 1);
        assert(u.take(i).drop_last() =~= u.take(i - 1));
        assert(u.take(i).last() == u[i - 1]);
        if !(i - 1 == 8 || i - 1 == 13 || i - 1 == 18 || i - 1 == 23) {
            assert(lower_hex_char(u[i - 1]));
            assert(u[i - 1] != '-');
        }
    }
}

/// The API key a UUID gives: `tm-` and the UUID without its hyphens.
pub fn api_key_from_uuid(uuid: &str) -> (r: String)
    ensures
        r@ == "tm-"@ + strip_hyphens(uuid@),
{
    let u = to_chars(uuid);
    let mut out: Vec<char> = Vec::new();
    out.push('t');
    out.push('m');
    out.push('-');
    proof {
        reveal_strlit("tm-");
        assert(u@.take(0) =~= Seq::<char>::empty());
    }
    let mut i: usize = 0;
    while i < u.len()
        invariant
            i <= u@.len(),
            u@ == uuid@,
            out@ == "tm-"@ + strip_hyphens(u@.take(i as int)),
        decreases u.len() - i,
    {
        let c = u[i];
        assert(u@.take(i + 1).drop_last() =~= u@.take(i as int));
        assert(u@.take(i + 1).last() == c);
        if c != '-' {
            out.push(c);
        }
        assert(out@ =~= "tm-"@ + strip_hyphens(u@.take(i + 1)));
        i += 1;
    }
    assert(u@.take(u@.len() as int) =~= u@);
    from_chars(&out)
}

/// Whether `k` is a key that a version 4 UUID gives: `tm-`, 32 lowercase
/// hex digits, the version digit `4` at position 15 and a variant digit
/// `8`, `9`, `a` or `b` at position 19.
pub open spec fn api_key_v4(k: Seq<char>) -> bool {
    &&& api_key_shape(k)
    &&& k[15] == '4'
    &&& (k[19] == '8' || k[19] == '9' || k[19] == 'a' || k[19] == 'b')
}

/// The key a reset keeps from the draws: the first of the first ten draws
/// that no account holds, else the eleventh draw.
pub open spec fn first_free_draw(keys: Seq<Seq<char>>, draws: Seq<Seq<char>>, i: int) -> Seq<char>
    decreases 10 - i,
{
    if i >= 10 {
        draws[10]
    } else if !keys.contains(draws[i]) {
        draws[i]
    } else {
        first_free_draw(keys, draws, i + 1)
    }
}

proof fn lemma_first_free_draw(keys: Seq<Seq<char>>, draws: Seq<Seq<char>>, i: int, t: int)
    requires
        0 <= i <= t <= 10,
        forall|j: int| i <= j < t ==> keys.contains(#[trigger] draws[j]),
        t == 10 || !keys.contains(draws[t]),
    ensures
        first_free_draw(keys, draws, i) == draws[t],
    decreases t - i,
{
    if i < t {
        assert(keys.contains(draws[i]));
        lemma_first_free_draw(keys, draws, i + 1, t);
    }
}

/// A fresh API key: `tm-` followed by a random version 4 UUID without its
/// hyphens.
pub fn generate_api_key() -> (r: String)
    ensures
        exists|u: Seq<char>| uuid_v4_shape(u) && r@ == "tm-"@ + strip_hyphens(u),
        api_key_v4(r@),
{
    let u = uuid_v4_text();
    let r = api_key_from_uuid(u.as_str());
    proof {
        reveal_strlit("tm-");
        lemma_strip_uuid(u@, 36);
        assert(u@.take(36) =~= u@);
        let k = r@;
        assert(k.take(3) =~= "tm-"@);
        assert forall|i: int| 3 <= i < 35 implies lower_hex_char(#[trigger] k[i]) by {
            assert(k[i] == strip_hyphens(u@)[i - 3]);
        }
        assert(k[15] == strip_hyphens(u@)[12]);
        assert(k[19] == strip_hyphens(u@)[16]);
    }
    r
}

// ---------------------------------------------------------------------------
// Lookups
// ---------------------------------------------------------------------------

/// Position of the first occurrence of `s` in `v`, or the length if none.
pub open spec fn str_pos(v: Seq<Seq<char>>, s: Seq<char>) -> int
    decreases v.len(),
{
    if v.len() == 0 {
        0
    } else if v[0] == s {
        0
    } else {
        1 + str_pos(v.drop_first(), s)
    }
}

pub proof fn lemma_str_pos(v: Seq<Seq<char>>, s: Seq<char>)
    ensures
        0 <= str_pos(v, s) <= v.len(),
        str_pos(v, s) < v.len() ==> v[str_pos(v, s)] == s,
        forall|j: int| 0 <= j < str_pos(v, s) ==> v[j] != s,
        str_pos(v, s) == v.len() <==> !v.contains(s),
    decreases v.len(),
{
    if v.len() > 0 && v[0] != s {
        lemma_str_pos(v.drop_first(), s);
        assert forall|j: int| 0 <= j < str_pos(v, s) implies v[j] != s by {
            if j > 0 {
                assert(v[j] == v.drop_first()[j - 1]);
            }
        }
        if v.contains(s) {
            let i = choose|i: int| 0 <= i < v.len() && v[i] == s;
            assert(v.drop_first()[i - 1] == s);
        }
        if v.drop_first().contains(s) {
            let i = choose|i: int| 0 <= i < v.drop_first().len() && v.drop_first()[i] == s;
            assert(v[i + 1] == s);
        }
    }
}

proof fn lemma_str_pos_is(v: Seq<Seq<char>>, s: Seq<char>, i: int)
    requires
        0 <= i <= v.len(),
        forall|j: int| 0 <= j < i ==> v[j] != s,
        i == v.len() || v[i] == s,
    ensures
        str_pos(v, s) == i,
    decreases v.len(),
{
    if v.len() > 0 && i > 0 {
        assert forall|j: int| 0 <= j < i - 1 implies v.drop_first()[j] != s by {
            assert(v.drop_first()[j] == v[j + 1]);
        }
        lemma_str_pos_is(v.drop_first(), s, i - 1);
    }
}

/// Position of the first string in `v` equal to `s`, comparing each in
/// constant time.
fn find_str(v: &Vec<String>, s: &str) -> (r: usize)
    ensures
        r as int == str_pos(strings_view(v@), s@),
{
    let mut i: usize = 0;
    while i < v.len()
        invariant
            i <= v@.len(),
            forall|j: int| 0 <= j < i ==> strings_view(v@)[j] != s@,
        decreases v.len() - i,
    {
        if constant_time_eq(v[i].as_str(), s) {
            proof {
                lemma_str_pos_is(strings_view(v@), s@, i as int);
            }
            return i;
        }
        i += 1;
    }
    proof {
        lemma_str_pos_is(strings_view(v@), s@, i as int);
    }
    i
}

/// The user ids, in order.
pub open spec fn user_ids(users: Seq<UserInfo>) -> Seq<Seq<char>> {
    users.map_values(|u: UserInfo| u.user_id@)
}

/// The API keys, in order.
pub open spec fn user_keys(users: Seq<UserInfo>) -> Seq<Seq<char>> {
    users.map_values(|u: UserInfo| u.api_key@)
}

/// Position of the account `id`, or the number of accounts if none.
pub open spec fn user_pos(users: Seq<UserInfo>, id: Seq<char>) -> int {
    str_pos(user_ids(users), id)
}

fn find_user(users: &Vec<UserInfo>, id: &str) -> (r: usize)
    ensures
        r as int == user_pos(users@, id@),
        r <= users@.len(),
        r < users@.len() ==> users@[r as int].user_id@ == id@,
{
    let mut i: usize = 0;
    while i < users.len()
        invariant
            i <= users@.len(),
            forall|j: int| 0 <= j < i ==> user_ids(users@)[j] != id@,
        decreases users.len() - i,
    {
        if str_eq(users[i].user_id.as_str(), id) {
            proof {
                lemma_str_pos_is(user_ids(users@), id@, i as int);
            }
            return i;
        }
        i += 1;
    }
    proof {
        lemma_str_pos_is(user_ids(users@), id@, i as int);
    }
    i
}

fn find_key_holder(users: &Vec<UserInfo>, key: &str) -> (r: usize)
    ensures
        r as int == str_pos(user_keys(users@), key@),
        r <= users@.len(),
{
    let mut i: usize = 0;
    while i < users.len()
        invariant
            i <= users@.len(),
            forall|j: int| 0 <= j < i ==> user_keys(users@)[j] != key@,
        decreases users.len() - i,
    {
        if constant_time_eq(users[i].api_key.as_str(), key) {
            proof {
                lemma_str_pos_is(user_keys(users@), key@, i as int);
            }
            return i;
        }
        i += 1;
    }
    proof {
        lemma_str_pos_is(user_keys(users@), key@, i as int);
    }
    i
}

/// The strings of `v` other than `s`, in order.
pub open spec fn without(v: Seq<Seq<char>>, s: Seq<char>) -> Seq<Seq<char>>
    decreases v.len(),
{
    if v.len() == 0 {
        v
    } else if v.last() == s {
        without(v.drop_last(), s)
    } else {
        without(v.drop_last(), s).push(v.last())
    }
}

/// The owners named by a setting (or `sunorme` when unset): its
/// comma-separated parts, trimmed and lowercased, empty ones dropped.
pub open spec fn owner_list(parts: Seq<Seq<char>>) -> Seq<Seq<char>>
    decreases parts.len(),
{
    if parts.len() == 0 {
        Seq::empty()
    } else {
        let rest = owner_list(parts.drop_last());
        let o = unicode_lowercase(crate::strs::trim_seq(parts.last()));
        if o.len() > 0 {
            rest.push(o)
        } else {
            rest
        }
    }
}

pub open spec fn owners_from_setting(setting: Option<Seq<char>>) -> Seq<Seq<char>> {
    owner_list(
        crate::strs::split_on(
            match setting {
                Some(s) => s,
                None => "sunorme"@,
            },
            ',',
        ),
    )
}

/// The privileged owner ids from the owner setting.
pub fn owner_ids(setting: Option<&str>) -> (r: Vec<String>)
    ensures
        strings_view(r@) == owners_from_setting(match setting {
            Some(s) => Some(s@),
            None => None,
        }),
{
    let text = match setting {
        Some(s) => to_chars(s),
        None => to_chars("sunorme"),
    };
    let parts = crate::strs::split_chars(&text, ',');
    let ghost pv = parts@.map_values(|v: Vec<char>| v@);
    let mut out: Vec<String> = Vec::new();
    let mut i: usize = 0;
    while i < parts.len()
        invariant
            pv == parts@.map_values(|v: Vec<char>| v@),
            i <= parts@.len(),
            strings_view(out@) == owner_list(pv.take(i as int)),
        decreases parts.len() - i,
    {
        proof {
            assert(pv.take(i + 1).drop_last() =~= pv.take(i as int));
            assert(pv.take(i + 1).last() == parts@[i as int]@);
        }
        let t = crate::strs::trim(&parts[i]);
        let ts = from_chars(&t);
        let lower = to_lowercase(ts.as_str());
        if !lower.as_str().is_empty() {
            let ghost before = out@;
            out.push(lower);
            assert(strings_view(out@) =~= strings_view(before).push(lower@));
        }
        i += 1;
    }
    assert(pv.take(pv.len() as int) =~= pv);
    out
}

/// Whether `user_id` may create accounts from scratch: only characters
/// `a-z A-Z 0-9 - _`, one to sixty-four bytes.
pub open spec fn valid_user_id(id: Seq<char>) -> bool {
    &&& id.len() > 0
    &&& vstd::utf8::encode_utf8(id).len() <= 64
    &&& forall|i: int| 0 <= i < id.len() ==> id_char(#[trigger] id[i])
}

/// The characters allowed in user ids.
pub open spec fn id_char(c: char) -> bool {
    ('a' <= c <= 'z') || ('A' <= c <= 'Z') || ('0' <= c <= '9') || c == '-' || c == '_'
}

fn all_id_chars(id: &str) -> (r: bool)
    ensures
        r == forall|i: int| 0 <= i < id@.len() ==> id_char(#[trigger] id@[i]),
{
    let chars = to_chars(id);
    let mut i: usize = 0;
    while i < chars.len()
        invariant
            chars@ == id@,
            i <= chars@.len(),
            forall|k: int| 0 <= k < i ==> id_char(#[trigger] id@[k]),
        decreases chars.len() - i,
    {
        let c = chars[i];
        if !(('a' <= c && c <= 'z') || ('A' <= c && c <= 'Z') || ('0' <= c && c <= '9') || c
            == '-' || c == '_') {
            return false;
        }
        i += 1;
    }
    true
}

/// Whether `user_id` is a valid user id.
pub fn is_valid_user_id(user_id: &str) -> (r: bool)
    ensures
        r == valid_user_id(user_id@),
{
    !user_id.is_empty() && user_id.as_bytes().len() <= 64 && all_id_chars(user_id)
}

// ---------------------------------------------------------------------------
// Quotas
// ---------------------------------------------------------------------------

/// Whether `u` counts against the quota of the main account `owner`.
pub open spec fn in_group(u: UserInfo, owner: Seq<char>) -> bool {
    u.user_id@ == owner || opt_chars(u.parent) == Some(owner)
}

/// The memories used by the main account `owner` and its sub-accounts.
pub open spec fn shared_usage(users: Seq<UserInfo>, owner: Seq<char>) -> nat
    decreases users.len(),
{
    if users.len() == 0 {
        0
    } else {
        shared_usage(users.drop_last(), owner) + if in_group(users.last(), owner) {
            users.last().memories_used as nat
        } else {
            0
        }
    }
}

/// The main account whose quota `u` draws on: its parent, or itself.
pub open spec fn quota_owner(u: UserInfo) -> Seq<char> {
    match u.parent {
        Some(p) => p@,
        None => u.user_id@,
    }
}

/// The refusal text for a full quota.
pub open spec fn limit_message(used: nat, max: nat) -> Seq<char> {
    "memory limit reached ("@ + dec(used) + "/"@ + dec(max) + ", shared across account)"@
}

fn sum_usage(users: &Vec<UserInfo>, owner: &str) -> (r: u128)
    ensures
        r == shared_usage(users@, owner@),
{
    let mut total: u128 = 0;
    let mut i: usize = 0;
    while i < users.len()
        invariant
            i <= users@.len(),
            total == shared_usage(users@.take(i as int), owner@),
            total <= i * 18446744073709551615u128,
        decreases users.len() - i,
    {
        proof {
            assert(users@.take(i + 1).drop_last() =~= users@.take(i as int));
        }
        let u = &users[i];
        let member = str_eq(u.user_id.as_str(), owner) || match &u.parent {
            Some(p) => str_eq(p.as_str(), owner),
            None => false,
        };
        if member {
            total = total + u.memories_used as u128;
        }
        i += 1;
    }
    assert(users@.take(users@.len() as int) =~= users@);
    total
}

fn limit_text(used: u128, max: usize) -> (r: String)
    ensures
        r@ == limit_message(used as nat, max as nat),
{
    proof {
        reveal_strlit("memory limit reached (");
        reveal_strlit("/");
        reveal_strlit(", shared across account)");
    }
    let mut out: Vec<char> = Vec::new();
    push_str_chars(&mut out, "memory limit reached (");
    push_all(&mut out, &dec_chars_wide(used));
    push_str_chars(&mut out, "/");
    push_all(&mut out, &dec_chars_wide(max as u128));
    push_str_chars(&mut out, ", shared across account)");
    from_chars(&out)
}


// ---------------------------------------------------------------------------
// The manager
// ---------------------------------------------------------------------------

/// The refusal for a password of the wrong length (in bytes), if any.
pub open spec fn password_error(password: Seq<char>) -> Option<Seq<char>> {
    let n = vstd::utf8::encode_utf8(password).len();
    if n < 6 {
        Some("password must be at least 6 characters"@)
    } else if n > 128 {
        Some("password must be under 128 characters"@)
    } else {
        None
    }
}

/// Why a registration is refused, if it is.
pub open spec fn register_error(
    users: Seq<UserInfo>,
    user_id: Seq<char>,
    api_key: Seq<char>,
    password: Seq<char>,
) -> Option<Seq<char>> {
    if password_error(password) is Some {
        password_error(password)
    } else if user_pos(users, user_id) < users.len() {
        Some("user already exists"@)
    } else if user_keys(users).contains(api_key) {
        Some("api key already in use"@)
    } else if users.len() >= MAX_USERS {
        Some("user limit reached"@)
    } else {
        None
    }
}

/// Why creating the sub-account `sub` under `parent` is refused, if it is.
pub open spec fn subaccount_error(
    users: Seq<UserInfo>,
    owners: Seq<Seq<char>>,
    parent: Seq<char>,
    sub: Seq<char>,
    password: Seq<char>,
) -> Option<Seq<char>> {
    let pp = user_pos(users, parent);
    if password_error(password) is Some {
        password_error(password)
    } else if sub.len() == 0 || vstd::utf8::encode_utf8(sub).len() > 64 {
        Some("user_id must be 1-64 characters"@)
    } else if reserved_id(owners, sub) {
        Some("this username is reserved"@)
    } else if !(forall|i: int| 0 <= i < sub.len() ==> id_char(#[trigger] sub[i])) {
        Some("user_id: only a-z A-Z 0-9 - _ allowed"@)
    } else if user_pos(users, sub) < users.len() {
        Some("user already exists"@)
    } else if pp >= users.len() {
        Some("parent user not found"@)
    } else if users[pp].parent is Some {
        Some("sub-accounts cannot create their own sub-accounts"@)
    } else if users[pp].sub_accounts@.len() >= MAX_SUB_ACCOUNTS {
        Some("maximum 10 sub-accounts per main account"@)
    } else if strings_view(users[pp].sub_accounts@).contains(sub) {
        Some("sub-account already linked"@)
    } else {
        None
    }
}

/// Whether `id` is one of the privileged owners (ignoring case).
pub open spec fn privileged_id(owners: Seq<Seq<char>>, id: Seq<char>) -> bool {
    owners.contains(unicode_lowercase(id))
}

/// Whether `id` is kept from self-service registration: a privileged owner,
/// or `admin` or `root` in any ASCII case.
pub open spec fn reserved_id(owners: Seq<Seq<char>>, id: Seq<char>) -> bool {
    privileged_id(owners, id) || eq_ignore_ascii_case_spec(id, "admin"@)
        || eq_ignore_ascii_case_spec(id, "root"@)
}

/// How a request may reach a user's engine.
#[derive(Clone, Copy, Debug, PartialEq, Eq, Structural)]
pub enum EngineAccess {
    /// The engine is loaded and ready.
    UseLoaded,
    /// The caller holds the load right and must load the engine.
    Load,
}

/// Accounts, invite codes, the owner list and the engine slots.
pub struct UserManager {
    pub users: Vec<UserInfo>,
    /// Engine bookkeeping by user id, in insertion order.
    pub slots: Vec<(String, UserSlot)>,
    /// Users whose engine is being loaded.
    pub loading_users: Vec<String>,
    pub invite_code: String,
    pub used_codes: Vec<String>,
    pub pending_codes: Vec<String>,
    /// Lowercased privileged owner ids.
    pub owner_ids: Vec<String>,
    /// Origin of the monotonic clock slot access times are measured on.
    pub clock: std::time::Instant,
}

impl UserManager {
    /// Account ids are distinct.
    pub open spec fn wf(&self) -> bool {
        forall|i: int, j: int|
            0 <= i < j < self.users@.len() ==> self.users@[i].user_id@ != self.users@[j].user_id@
    }

    /// A manager over stored accounts and invite state. An empty stored
    /// invite code is replaced by a fresh one, and the used codes are then
    /// dropped with it.
    pub fn new(
        users: Vec<UserInfo>,
        stored_invite: String,
        stored_used: Vec<String>,
        pending: Vec<String>,
        owner_ids: Vec<String>,
    ) -> (r: UserManager)
        ensures
            users_view(r.users@) == users_view(users@),
            r.slots@.len() == 0,
            r.loading_users@.len() == 0,
            strings_view(r.pending_codes@) == strings_view(pending@),
            strings_view(r.owner_ids@) == strings_view(owner_ids@),
            stored_invite@.len() > 0 ==> r.invite_code@ == stored_invite@ && strings_view(
                r.used_codes@,
            ) == strings_view(stored_used@),
            stored_invite@.len() == 0 ==> invite_code_shape(r.invite_code@) && r.used_codes@.len()
                == 0,
    {
        let (invite_code, used_codes) = if stored_invite.as_str().is_empty() {
            (generate_invite_code(), Vec::new())
        } else {
            (stored_invite, stored_used)
        };
        UserManager {
            users,
            slots: Vec::new(),
            loading_users: Vec::new(),
            invite_code,
            used_codes,
            pending_codes: pending,
            owner_ids,
            clock: crate::security::clock_now(),
        }
    }

    fn now_millis(&self) -> u64 {
        crate::security::millis_since(&self.clock)
    }

    /// Whether `user_id` is a privileged owner (ignoring case).
    pub fn is_privileged_id(&self, user_id: &str) -> (r: bool)
        ensures
            r == privileged_id(strings_view(self.owner_ids@), user_id@),
    {
        let lower = to_lowercase(user_id);
        let p = find_str(&self.owner_ids, lower.as_str());
        proof {
            lemma_str_pos(strings_view(self.owner_ids@), lower@);
        }
        p < self.owner_ids.len()
    }

    /// Whether `user_id` is reserved: privileged, `admin` or `root`.
    pub fn is_reserved_id(&self, user_id: &str) -> (r: bool)
        ensures
            r == reserved_id(strings_view(self.owner_ids@), user_id@),
    {
        self.is_privileged_id(user_id) || eq_ignore_ascii_case(user_id, "admin")
            || eq_ignore_ascii_case(user_id, "root")
    }

    // -- invite codes -------------------------------------------------------

    /// Consumes an invite code: a pending code moves to the used list;
    /// otherwise the current code moves there and a fresh one replaces it;
    /// any other code is refused and nothing changes.
    pub fn use_invite_code(&mut self, code: &str) -> (r: Result<(), String>)
        ensures
            final(self).users == old(self).users,
            final(self).slots == old(self).slots,
            final(self).owner_ids == old(self).owner_ids,
            ({
                let pending = strings_view(old(self).pending_codes@);
                let used = strings_view(old(self).used_codes@);
                let p = str_pos(pending, code@);
                if p < pending.len() {
                    &&& r is Ok
                    &&& strings_view(final(self).pending_codes@) == pending.remove(p)
                    &&& strings_view(final(self).used_codes@) == used.push(code@)
                    &&& final(self).invite_code@ == old(self).invite_code@
                } else if old(self).invite_code@ == code@ {
                    &&& r is Ok
                    &&& strings_view(final(self).pending_codes@) == pending
                    &&& strings_view(final(self).used_codes@) == used.push(code@)
                    &&& invite_code_shape(final(self).invite_code@)
                } else {
                    &&& r matches Err(m) && m@ == "invalid or expired invite code"@
                    &&& strings_view(final(self).pending_codes@) == pending
                    &&& strings_view(final(self).used_codes@) == used
                    &&& final(self).invite_code@ == old(self).invite_code@
                }
            }),
    {
        let p = find_str(&self.pending_codes, code);
        proof {
            lemma_str_pos(strings_view(self.pending_codes@), code@);
        }
        if p < self.pending_codes.len() {
            let c = self.pending_codes.remove(p);
            let ghost before = self.used_codes@;
            self.used_codes.push(c);
            assert(strings_view(self.used_codes@) =~= strings_view(before).push(code@));
            assert(strings_view(self.pending_codes@) =~= strings_view(old(self).pending_codes@).remove(p as int));
            return Ok(());
        }
        if !constant_time_eq(code, self.invite_code.as_str()) {
            return Err("invalid or expired invite code".to_owned());
        }
        let old_code = self.invite_code.clone();
        self.invite_code = generate_invite_code();
        let ghost before = self.used_codes@;
        self.used_codes.push(old_code);
        assert(strings_view(self.used_codes@) =~= strings_view(before).push(code@));
        Ok(())
    }

    /// Gives back a code consumed by a registration that then failed: the
    /// first used copy of it returns to the pending list.
    pub fn refund_invite_code(&mut self, code: &str)
        ensures
            final(self).users == old(self).users,
            final(self).slots == old(self).slots,
            final(self).invite_code == old(self).invite_code,
            final(self).owner_ids == old(self).owner_ids,
            ({
                let pending = strings_view(old(self).pending_codes@);
                let used = strings_view(old(self).used_codes@);
                let p = str_pos(used, code@);
                if p < used.len() {
                    &&& strings_view(final(self).used_codes@) == used.remove(p)
                    &&& strings_view(final(self).pending_codes@) == pending.push(code@)
                } else {
                    &&& strings_view(final(self).used_codes@) == used
                    &&& strings_view(final(self).pending_codes@) == pending
                }
            }),
    {
        let p = find_str(&self.used_codes, code);
        proof {
            lemma_str_pos(strings_view(self.used_codes@), code@);
        }
        if p < self.used_codes.len() {
            let c = self.used_codes.remove(p);
            let ghost before = self.pending_codes@;
            self.pending_codes.push(c);
            assert(strings_view(self.pending_codes@) =~= strings_view(before).push(code@));
            assert(strings_view(self.used_codes@) =~= strings_view(old(self).used_codes@).remove(p as int));
        }
    }

    /// Adds `count` fresh codes to the pending list and returns them.
    pub fn generate_batch_codes(&mut self, count: usize) -> (r: Vec<String>)
        ensures
            r@.len() == count,
            forall|i: int| 0 <= i < count ==> invite_code_shape(#[trigger] r@[i]@),
            strings_view(final(self).pending_codes@) == strings_view(old(self).pending_codes@)
                + strings_view(r@),
            final(self).users == old(self).users,
            final(self).slots == old(self).slots,
            final(self).invite_code == old(self).invite_code,
            final(self).used_codes == old(self).used_codes,
            final(self).owner_ids == old(self).owner_ids,
    {
        let mut codes: Vec<String> = Vec::new();
        let mut i: usize = 0;
        while i < count
            invariant
                i <= count,
                codes@.len() == i,
                forall|k: int| 0 <= k < i ==> invite_code_shape(#[trigger] codes@[k]@),
                self.pending_codes == old(self).pending_codes,
                strings_view(self.pending_codes@) + strings_view(codes@) == strings_view(
                    old(self).pending_codes@,
                ) + strings_view(codes@),
            decreases count - i,
        {
            codes.push(generate_invite_code());
            i += 1;
        }
        let mut j: usize = 0;
        while j < codes.len()
            invariant
                j <= codes@.len(),
                strings_view(self.pending_codes@) == strings_view(old(self).pending_codes@)
                    + strings_view(codes@).take(j as int),
                self.users == old(self).users,
                self.slots == old(self).slots,
                self.invite_code == old(self).invite_code,
                self.used_codes == old(self).used_codes,
                self.owner_ids == old(self).owner_ids,
            decreases codes.len() - j,
        {
            let ghost before = self.pending_codes@;
            self.pending_codes.push(codes[j].clone());
            assert(strings_view(self.pending_codes@) =~= strings_view(before).push(codes@[j as int]@));
            j += 1;
            assert(strings_view(self.pending_codes@) =~= strings_view(old(self).pending_codes@)
                + strings_view(codes@).take(j as int));
        }
        assert(strings_view(codes@).take(codes@.len() as int) =~= strings_view(codes@));
        codes
    }

    /// The current code followed by the pending ones.
    pub fn all_invite_codes(&self) -> (r: Vec<String>)
        ensures
            strings_view(r@) == seq![self.invite_code@] + strings_view(self.pending_codes@),
    {
        let mut all: Vec<String> = Vec::new();
        all.push(self.invite_code.clone());
        let mut i: usize = 0;
        while i < self.pending_codes.len()
            invariant
                i <= self.pending_codes@.len(),
                strings_view(all@) == seq![self.invite_code@] + strings_view(self.pending_codes@).take(
                    i as int,
                ),
            decreases self.pending_codes.len() - i,
        {
            let ghost before = all@;
            all.push(self.pending_codes[i].clone());
            assert(strings_view(all@) =~= strings_view(before).push(self.pending_codes@[i as int]@));
            i += 1;
            assert(strings_view(all@) =~= seq![self.invite_code@] + strings_view(
                self.pending_codes@,
            ).take(i as int));
        }
        assert(strings_view(self.pending_codes@).take(self.pending_codes@.len() as int)
            =~= strings_view(self.pending_codes@));
        all
    }

    /// The first pending code; when none is pending a fresh one is made
    /// pending and returned.
    pub fn current_invite_code(&mut self) -> (r: String)
        ensures
            old(self).pending_codes@.len() > 0 ==> r@ == old(self).pending_codes@[0]@
                && final(self).pending_codes == old(self).pending_codes,
            old(self).pending_codes@.len() == 0 ==> invite_code_shape(r@) && strings_view(
                final(self).pending_codes@,
            ) == seq![r@],
            final(self).users == old(self).users,
            final(self).invite_code == old(self).invite_code,
            final(self).used_codes == old(self).used_codes,
    {
        if self.pending_codes.len() > 0 {
            return self.pending_codes[0].clone();
        }
        let code = generate_invite_code();
        self.pending_codes.push(code.clone());
        assert(strings_view(self.pending_codes@) =~= seq![code@]);
        code
    }

    // -- accounts -----------------------------------------------------------

    /// Registers a new main account on `plan` with a freshly hashed password.
    pub fn register(&mut self, user_id: &str, api_key: &str, plan: UserPlan, password: &str) -> (r:
        Result<UserInfo, String>)
        ensures
            match r {
                Err(m) => register_error(old(self).users@, user_id@, api_key@, password@) == Some(
                    m@,
                ) && final(self).users == old(self).users,
                Ok(u) => {
                    &&& register_error(old(self).users@, user_id@, api_key@, password@) is None
                    &&& users_view(final(self).users@) == users_view(old(self).users@).push(u@)
                    &&& u.user_id@ == user_id@
                    &&& u.api_key@ == api_key@
                    &&& is_hash_of(u.password_hash@, password@)
                    &&& u.plan == plan
                    &&& u.max_memories == plan_quota(plan)
                    &&& u.memories_used == 0
                    &&& u.parent is None
                    &&& u.sub_accounts@.len() == 0
                },
            },
            final(self).slots == old(self).slots,
            final(self).invite_code == old(self).invite_code,
            final(self).pending_codes == old(self).pending_codes,
            final(self).used_codes == old(self).used_codes,
            final(self).owner_ids == old(self).owner_ids,
    {
        let n = password.as_bytes().len();
        if n < 6 {
            return Err("password must be at least 6 characters".to_owned());
        }
        if n > 128 {
            return Err("password must be under 128 characters".to_owned());
        }
        if find_user(&self.users, user_id) < self.users.len() {
            return Err("user already exists".to_owned());
        }
        let k = find_key_holder(&self.users, api_key);
        proof {
            lemma_str_pos(user_keys(self.users@), api_key@);
        }
        if k < self.users.len() {
            return Err("api key already in use".to_owned());
        }
        if self.users.len() >= MAX_USERS {
            return Err("user limit reached".to_owned());
        }
        let info = UserInfo {
            user_id: user_id.to_owned(),
            api_key: api_key.to_owned(),
            password_hash: hash_password(password),
            plan,
            max_memories: plan.max_memories(),
            memories_used: 0,
            created_at: crate::security::unix_now(),
            parent: None,
            sub_accounts: Vec::new(),
        };
        let ghost before = self.users@;
        self.users.push(info.clone());
        assert(users_view(self.users@) =~= users_view(before).push(info@));
        Ok(info)
    }

    /// The first account holding `api_key`, compared in constant time.
    pub fn authenticate(&self, api_key: &str) -> (r: Option<UserInfo>)
        ensures
            ({
                let p = str_pos(user_keys(self.users@), api_key@);
                match r {
                    Some(u) => p < self.users@.len() && u@ == self.users@[p]@,
                    None => !user_keys(self.users@).contains(api_key@),
                }
            }),
    {
        let p = find_key_holder(&self.users, api_key);
        proof {
            lemma_str_pos(user_keys(self.users@), api_key@);
        }
        if p < self.users.len() {
            Some(self.users[p].clone())
        } else {
            None
        }
    }

    /// Logs in with a password.
    pub fn login(&self, user_id: &str, password: &str) -> (r: Result<UserInfo, String>)
        ensures
            match r {
                Ok(u) => login_refusal(self.users@, user_id@, password@) is None && u@ == self.users@[user_pos(
                    self.users@,
                    user_id@,
                )]@,
                Err(m) => login_refusal(self.users@, user_id@, password@) == Some(m@),
            },
    {
        let p = find_user(&self.users, user_id);
        if p == self.users.len() {
            return Err("user not found".to_owned());
        }
        let info = self.users[p].clone();
        if info.password_hash.as_str().is_empty() {
            return Err("password not set for this account, please contact admin".to_owned());
        }
        if !verify_password(password, info.password_hash.as_str()) {
            return Err("invalid password".to_owned());
        }
        Ok(info)
    }

    /// Changes an account's plan and quota.
    pub fn set_plan(&mut self, user_id: &str, plan: UserPlan) -> (r: Result<(), String>)
        ensures
            ({
                let p = user_pos(old(self).users@, user_id@);
                if p >= old(self).users@.len() {
                    r matches Err(m) && m@ == "user not found"@ && final(self).users == old(self).users
                } else {
                    &&& r is Ok
                    &&& final(self).users@.len() == old(self).users@.len()
                    &&& forall|i: int|
                        0 <= i < old(self).users@.len() && i != p ==> #[trigger] final(self).users@[i] == old(self).users@[i]
                    &&& final(self).users@[p] == (UserInfo {
                        plan,
                        max_memories: plan_quota(plan),
                        ..old(self).users@[p]
                    })
                }
            }),
            final(self).slots == old(self).slots,
    {
        let p = find_user(&self.users, user_id);
        if p == self.users.len() {
            return Err("user not found".to_owned());
        }
        self.users[p].plan = plan;
        self.users[p].max_memories = plan.max_memories();
        Ok(())
    }

    /// Sets an account's password.
    pub fn set_password(&mut self, user_id: &str, password: &str) -> (r: Result<(), String>)
        ensures
            ({
                let p = user_pos(old(self).users@, user_id@);
                if password_error(password@) is Some {
                    r matches Err(m) && Some(m@) == password_error(password@) && final(self).users
                        == old(self).users
                } else if p >= old(self).users@.len() {
                    r matches Err(m) && m@ == "user not found"@ && final(self).users == old(self).users
                } else {
                    &&& r is Ok
                    &&& final(self).users@.len() == old(self).users@.len()
                    &&& forall|i: int|
                        0 <= i < old(self).users@.len() && i != p ==> #[trigger] final(self).users@[i] == old(self).users@[i]
                    &&& is_hash_of(final(self).users@[p].password_hash@, password@)
                    &&& final(self).users@[p] == (UserInfo {
                        password_hash: final(self).users@[p].password_hash,
                        ..old(self).users@[p]
                    })
                }
            }),
            final(self).slots == old(self).slots,
    {
        let n = password.as_bytes().len();
        if n < 6 {
            return Err("password must be at least 6 characters".to_owned());
        }
        if n > 128 {
            return Err("password must be under 128 characters".to_owned());
        }
        let p = find_user(&self.users, user_id);
        if p == self.users.len() {
            return Err("user not found".to_owned());
        }
        self.users[p].password_hash = hash_password(password);
        Ok(())
    }

    /// Creates a sub-account under a main account. The sub-account gets a
    /// fresh API key, the free plan and no quota of its own: it draws on the
    /// main account's quota.
    pub fn create_subaccount(&mut self, parent_id: &str, sub_user_id: &str, password: &str) -> (r:
        Result<UserInfo, String>)
        ensures
            ({
                let err = subaccount_error(
                    old(self).users@,
                    strings_view(old(self).owner_ids@),
                    parent_id@,
                    sub_user_id@,
                    password@,
                );
                let pp = user_pos(old(self).users@, parent_id@);
                match r {
                    Err(m) => err == Some(m@) && final(self).users == old(self).users,
                    Ok(u) => {
                        &&& err is None
                        &&& u.user_id@ == sub_user_id@
                        &&& api_key_shape(u.api_key@)
                        &&& is_hash_of(u.password_hash@, password@)
                        &&& u.plan == UserPlan::Free
                        &&& u.max_memories == 0
                        &&& u.memories_used == 0
                        &&& opt_chars(u.parent) == Some(parent_id@)
                        &&& u.sub_accounts@.len() == 0
                        &&& final(self).users@.len() == old(self).users@.len() + 1
                        &&& final(self).users@.last()@ == u@
                        &&& forall|i: int|
                            0 <= i < old(self).users@.len() && i != pp ==> #[trigger] final(self).users@[i]
                                == old(self).users@[i]
                        &&& final(self).users@[pp]@ == (UserInfo {
                            sub_accounts: final(self).users@[pp].sub_accounts,
                            ..old(self).users@[pp]
                        })@
                        &&& strings_view(final(self).users@[pp].sub_accounts@) == strings_view(
                            old(self).users@[pp].sub_accounts@,
                        ).push(sub_user_id@)
                    },
                }
            }),
            final(self).slots == old(self).slots,
            final(self).owner_ids == old(self).owner_ids,
    {
        let n = password.as_bytes().len();
        if n < 6 {
            return Err("password must be at least 6 characters".to_owned());
        }
        if n > 128 {
            return Err("password must be under 128 characters".to_owned());
        }
        if sub_user_id.is_empty() || sub_user_id.as_bytes().len() > 64 {
            return Err("user_id must be 1-64 characters".to_owned());
        }
        if self.is_reserved_id(sub_user_id) {
            return Err("this username is reserved".to_owned());
        }
        if !all_id_chars(sub_user_id) {
            return Err("user_id: only a-z A-Z 0-9 - _ allowed".to_owned());
        }
        if find_user(&self.users, sub_user_id) < self.users.len() {
            return Err("user already exists".to_owned());
        }
        let pp = find_user(&self.users, parent_id);
        if pp == self.users.len() {
            return Err("parent user not found".to_owned());
        }
        if self.users[pp].parent.is_some() {
            return Err("sub-accounts cannot create their own sub-accounts".to_owned());
        }
        if self.users[pp].sub_accounts.len() >= MAX_SUB_ACCOUNTS {
            return Err("maximum 10 sub-accounts per main account".to_owned());
        }
        let linked = find_str(&self.users[pp].sub_accounts, sub_user_id);
        proof {
            lemma_str_pos(strings_view(self.users@[pp as int].sub_accounts@), sub_user_id@);
        }
        if linked < self.users[pp].sub_accounts.len() {
            return Err("sub-account already linked".to_owned());
        }
        let info = UserInfo {
            user_id: sub_user_id.to_owned(),
            api_key: generate_api_key(),
            password_hash: hash_password(password),
            plan: UserPlan::Free,
            max_memories: 0,
            memories_used: 0,
            created_at: crate::security::unix_now(),
            parent: Some(parent_id.to_owned()),
            sub_accounts: Vec::new(),
        };
        let mut parent = self.users[pp].clone();
        let ghost subs_before = parent.sub_accounts@;
        parent.sub_accounts.push(sub_user_id.to_owned());
        assert(strings_view(parent.sub_accounts@) =~= strings_view(subs_before).push(sub_user_id@));
        self.users.set(pp, parent);
        self.users.push(info.clone());
        Ok(info)
    }

    /// The existing sub-accounts of `parent_id`, each once, in link order.
    pub fn list_subaccounts(&self, parent_id: &str) -> (r: Vec<UserInfo>)
        ensures
            ({
                let pp = user_pos(self.users@, parent_id@);
                if pp >= self.users@.len() {
                    r@.len() == 0
                } else {
                    users_view(r@) == linked_users(
                        self.users@,
                        first_occurrences(strings_view(self.users@[pp].sub_accounts@)),
                    )
                }
            }),
    {
        let pp = find_user(&self.users, parent_id);
        if pp == self.users.len() {
            return Vec::new();
        }
        let subs = &self.users[pp].sub_accounts;
        let ghost sv = strings_view(subs@);
        let mut seen: Vec<String> = Vec::new();
        let mut out: Vec<UserInfo> = Vec::new();
        let mut i: usize = 0;
        while i < subs.len()
            invariant
                sv == strings_view(subs@),
                i <= subs@.len(),
                strings_view(seen@) == first_occurrences(sv.take(i as int)),
                users_view(out@) == linked_users(self.users@, first_occurrences(sv.take(i as int))),
            decreases subs.len() - i,
        {
            proof {
                assert(sv.take(i + 1).drop_last() =~= sv.take(i as int));
                assert(sv.take(i + 1).last() == subs@[i as int]@);
            }
            let sid = subs[i].as_str();
            let k = find_str(&seen, sid);
            proof {
                lemma_str_pos(strings_view(seen@), sid@);
            }
            if k == seen.len() {
                let ghost seen_before = seen@;
                seen.push(subs[i].clone());
                assert(strings_view(seen@) =~= strings_view(seen_before).push(sid@));
                let up = find_user(&self.users, sid);
                if up < self.users.len() {
                    let ghost out_before = out@;
                    out.push(self.users[up].clone());
                    assert(users_view(out@) =~= users_view(out_before).push(self.users@[up as int]@));
                }
                proof {
                    lemma_linked_users_push(self.users@, first_occurrences(sv.take(i as int)), sid@);
                }
            }
            i += 1;
        }
        assert(sv.take(sv.len() as int) =~= sv);
        out
    }

    /// Removes a sub-account of `parent_id`, unlinking it from the parent.
    pub fn revoke_subaccount(&mut self, parent_id: &str, sub_user_id: &str) -> (r: Result<(), String>)
        ensures
            ({
                let users = old(self).users@;
                let sp = user_pos(users, sub_user_id@);
                let pp = user_pos(users, parent_id@);
                let uv = users_view(users);
                if sp >= users.len() {
                    r matches Err(m) && m@ == "sub-account not found"@ && final(self).users == old(self).users
                } else if opt_chars(users[sp].parent) != Some(parent_id@) {
                    r matches Err(m) && m@ == "not your sub-account"@ && final(self).users == old(self).users
                } else {
                    let unlinked = if pp < users.len() {
                        uv.update(pp, with_subs(uv[pp], without(strings_view(users[pp].sub_accounts@), sub_user_id@)))
                    } else {
                        uv
                    };
                    r is Ok && users_view(final(self).users@) == unlinked.remove(sp)
                }
            }),
            final(self).slots == old(self).slots,
    {
        let sp = find_user(&self.users, sub_user_id);
        if sp == self.users.len() {
            return Err("sub-account not found".to_owned());
        }
        let owned = match &self.users[sp].parent {
            Some(p) => str_eq(p.as_str(), parent_id),
            None => false,
        };
        if !owned {
            return Err("not your sub-account".to_owned());
        }
        let pp = find_user(&self.users, parent_id);
        if pp < self.users.len() {
            let mut parent = self.users[pp].clone();
            let kept = strings_without(&parent.sub_accounts, sub_user_id);
            parent.sub_accounts = kept;
            let ghost before = self.users@;
            self.users.set(pp, parent);
            assert(users_view(self.users@) =~= users_view(before).update(pp as int, parent@));
        }
        let ghost mid = users_view(self.users@);
        self.users.remove(sp);
        assert(users_view(self.users@) =~= mid.remove(sp as int));
        Ok(())
    }

    /// Whether `user_id` may store another memory: an unknown user is not
    /// limited; otherwise the main account must exist and the memories of
    /// it and its sub-accounts together must stay below its quota.
    pub fn check_memory_limit(&self, user_id: &str) -> (r: Result<(), String>)
        ensures
            answers(r, memory_refusal(self.users@, user_id@, false)),
    {
        let p = find_user(&self.users, user_id);
        if p == self.users.len() {
            return Ok(());
        }
        self.limit_for(p)
    }

    fn limit_for(&self, p: usize) -> (r: Result<(), String>)
        requires
            p < self.users@.len(),
        ensures
            ({
                let owner = quota_owner(self.users@[p as int]);
                let op = user_pos(self.users@, owner);
                if op >= self.users@.len() {
                    r matches Err(m) && m@ == "owner not found"@
                } else if shared_usage(self.users@, owner) >= self.users@[op].max_memories {
                    r matches Err(m) && m@ == limit_message(
                        shared_usage(self.users@, owner),
                        self.users@[op].max_memories as nat,
                    )
                } else {
                    r is Ok
                }
            }),
    {
        let owner: String = match &self.users[p].parent {
            Some(pid) => pid.clone(),
            None => self.users[p].user_id.clone(),
        };
        let op = find_user(&self.users, owner.as_str());
        if op == self.users.len() {
            return Err("owner not found".to_owned());
        }
        let total = sum_usage(&self.users, owner.as_str());
        let max = self.users[op].max_memories;
        if total >= max as u128 {
            return Err(limit_text(total, max));
        }
        Ok(())
    }

    /// Counts one more memory for `user_id` if its account's shared quota
    /// allows it.
    pub fn check_and_increment_memory(&mut self, user_id: &str) -> (r: Result<(), String>)
        ensures
            answers(r, memory_refusal(old(self).users@, user_id@, true)),
            ({
                let p = user_pos(old(self).users@, user_id@);
                if r is Ok {
                    &&& final(self).users@.len() == old(self).users@.len()
                    &&& forall|i: int|
                        0 <= i < old(self).users@.len() && i != p ==> #[trigger] final(self).users@[i]
                            == old(self).users@[i]
                    &&& final(self).users@[p] == (UserInfo {
                        memories_used: (old(self).users@[p].memories_used + 1) as usize,
                        ..old(self).users@[p]
                    })
                } else {
                    final(self).users == old(self).users
                }
            }),
            final(self).slots == old(self).slots,
    {
        let p = find_user(&self.users, user_id);
        if p == self.users.len() {
            return Err("user not found".to_owned());
        }
        match self.limit_for(p) {
            Err(e) => Err(e),
            Ok(()) => {
                proof {
                    lemma_member_usage_bounded(self.users@, p as int);
                }
                let used = self.users[p].memories_used;
                self.users[p].memories_used = used + 1;
                Ok(())
            },
        }
    }

    /// Counts one more memory for `user_id`, if the account exists.
    pub fn increment_memory_count(&mut self, user_id: &str)
        requires
            user_pos(old(self).users@, user_id@) < old(self).users@.len() ==> old(self).users@[user_pos(
                old(self).users@,
                user_id@,
            )].memories_used < usize::MAX,
        ensures
            ({
                let p = user_pos(old(self).users@, user_id@);
                if p < old(self).users@.len() {
                    final(self).users@ == old(self).users@.update(p, UserInfo {
                        memories_used: (old(self).users@[p].memories_used + 1) as usize,
                        ..old(self).users@[p]
                    })
                } else {
                    final(self).users == old(self).users
                }
            }),
            final(self).slots == old(self).slots,
    {
        let p = find_user(&self.users, user_id);
        if p < self.users.len() {
            let used = self.users[p].memories_used;
            self.users[p].memories_used = used + 1;
            assert(self.users@ =~= old(self).users@.update(p as int, self.users@[p as int]));
        }
    }

    /// Uncounts `count` memories of `user_id` (never below zero).
    pub fn decrement_memory_count(&mut self, user_id: &str, count: usize)
        ensures
            ({
                let p = user_pos(old(self).users@, user_id@);
                if p < old(self).users@.len() {
                    final(self).users@ == old(self).users@.update(p, UserInfo {
                        memories_used: if old(self).users@[p].memories_used >= count {
                            (old(self).users@[p].memories_used - count) as usize
                        } else {
                            0
                        },
                        ..old(self).users@[p]
                    })
                } else {
                    final(self).users == old(self).users
                }
            }),
            final(self).slots == old(self).slots,
    {
        let p = find_user(&self.users, user_id);
        if p < self.users.len() {
            let used = self.users[p].memories_used;
            self.users[p].memories_used = used.saturating_sub(count);
            assert(self.users@ =~= old(self).users@.update(p as int, self.users@[p as int]));
        }
    }

    /// The account `user_id`, if any.
    pub fn user_stats(&self, user_id: &str) -> (r: Option<UserInfo>)
        ensures
            ({
                let p = user_pos(self.users@, user_id@);
                match r {
                    Some(u) => p < self.users@.len() && u@ == self.users@[p]@,
                    None => p >= self.users@.len(),
                }
            }),
    {
        let p = find_user(&self.users, user_id);
        if p < self.users.len() {
            Some(self.users[p].clone())
        } else {
            None
        }
    }

    /// How many engines are loaded.
    pub fn active_users(&self) -> (r: usize)
        ensures
            r == self.slots@.len(),
    {
        self.slots.len()
    }

    /// How many accounts exist.
    pub fn total_users(&self) -> (r: usize)
        ensures
            r == self.users@.len(),
    {
        self.users.len()
    }

    /// The id of the first account whose key is `api_key`, or the empty
    /// string when there is none or the key is empty.
    pub fn find_user_by_api_key(&self, api_key: &str) -> (r: String)
        ensures
            ({
                let p = str_pos(user_keys(self.users@), api_key@);
                r@ == if api_key@.len() == 0 || p >= self.users@.len() {
                    Seq::<char>::empty()
                } else {
                    self.users@[p].user_id@
                }
            }),
    {
        if api_key.is_empty() {
            return String::new();
        }
        let p = find_key_holder(&self.users, api_key);
        if p < self.users.len() {
            self.users[p].user_id.clone()
        } else {
            String::new()
        }
    }

    /// Copies of all accounts.
    pub fn list_users(&self) -> (r: Vec<UserInfo>)
        ensures
            users_view(r@) == users_view(self.users@),
    {
        let mut out: Vec<UserInfo> = Vec::new();
        let mut i: usize = 0;
        while i < self.users.len()
            invariant
                i <= self.users@.len(),
                users_view(out@) == users_view(self.users@).take(i as int),
            decreases self.users.len() - i,
        {
            let ghost before = out@;
            out.push(self.users[i].clone());
            assert(users_view(out@) =~= users_view(before).push(self.users@[i as int]@));
            i += 1;
            assert(users_view(out@) =~= users_view(self.users@).take(i as int));
        }
        assert(users_view(self.users@).take(self.users@.len() as int) =~= users_view(self.users@));
        out
    }

    /// Gives `user_id` a fresh API key, drawing again (up to ten times)
    /// while the key is already held by an account.
    pub fn reset_api_key(&mut self, user_id: &str) -> (r: Result<String, String>)
        ensures
            ({
                let p = user_pos(old(self).users@, user_id@);
                match r {
                    Err(m) => p >= old(self).users@.len() && m@ == "user not found"@ && final(self).users
                        == old(self).users,
                    Ok(k) => {
                        &&& p < old(self).users@.len()
                        &&& api_key_shape(k@)
                        &&& exists|draws: Seq<Seq<char>>|
                            draws.len() == 11 && (forall|j: int| 0 <= j < 11 ==> api_key_v4(#[trigger] draws[j]))
                                && k@ == #[trigger] first_free_draw(user_keys(old(self).users@), draws, 0)
                        &&& final(self).users@.len() == old(self).users@.len()
                        &&& forall|i: int|
                            0 <= i < old(self).users@.len() && i != p ==> #[trigger] final(self).users@[i]
                                == old(self).users@[i]
                        &&& final(self).users@[p]@ == (UserInfo {
                            api_key: final(self).users@[p].api_key,
                            ..old(self).users@[p]
                        })@
                        &&& final(self).users@[p].api_key@ == k@
                    },
                }
            }),
            final(self).slots == old(self).slots,
    {
        let p = find_user(&self.users, user_id);
        if p == self.users.len() {
            return Err("user not found".to_owned());
        }
        let ghost keys = user_keys(self.users@);
        let mut key = generate_api_key();
        let ghost mut drawn: Seq<Seq<char>> = seq![key@];
        let mut tries: usize = 0;
        let mut free = false;
        while !free && tries < 10
            invariant
                self.users == old(self).users,
                keys == user_keys(self.users@),
                p < self.users@.len(),
                p == user_pos(old(self).users@, user_id@),
                tries <= 10,
                drawn.len() == tries + 1,
                drawn.last() == key@,
                forall|j: int| 0 <= j < drawn.len() ==> api_key_v4(#[trigger] drawn[j]),
                forall|j: int| 0 <= j < tries ==> keys.contains(#[trigger] drawn[j]),
                free ==> tries < 10 && !keys.contains(key@),
            decreases 10 - tries + (if free { 0int } else { 1int }),
        {
            proof {
                lemma_str_pos(keys, key@);
            }
            if find_key_holder(&self.users, key.as_str()) == self.users.len() {
                free = true;
            } else {
                key = generate_api_key();
                proof {
                    drawn = drawn.push(key@);
                }
                tries += 1;
            }
        }
        let ghost draws = drawn + Seq::new((10 - tries) as nat, |j: int| key@);
        proof {
            assert(draws.len() == 11);
            assert forall|j: int| 0 <= j < 11 implies api_key_v4(#[trigger] draws[j]) by {
                if j >= drawn.len() {
                    assert(draws[j] == key@);
                }
            }
            assert(draws[tries as int] == key@);
            lemma_first_free_draw(keys, draws, 0, tries as int);
        }
        self.users[p].api_key = key.clone();
        Ok(key)
    }

    /// Deletes an account (never `sunorme`) and its engine slot.
    pub fn delete_user(&mut self, user_id: &str) -> (r: Result<(), String>)
        ensures
            ({
                let p = user_pos(old(self).users@, user_id@);
                let q = key_pos(pairs_view(old(self).slots@), user_id@);
                if user_id@ == "sunorme"@ {
                    r matches Err(m) && m@ == "cannot delete admin"@ && final(self).users == old(self).users
                        && final(self).slots == old(self).slots
                } else if p >= old(self).users@.len() {
                    r matches Err(m) && m@ == "user not found"@ && final(self).users == old(self).users
                        && final(self).slots == old(self).slots
                } else {
                    &&& r is Ok
                    &&& final(self).users@ == old(self).users@.remove(p)
                    &&& pairs_view(final(self).slots@) == if q < old(self).slots@.len() {
                        pairs_view(old(self).slots@).remove(q)
                    } else {
                        pairs_view(old(self).slots@)
                    }
                }
            }),
    {
        if str_eq(user_id, "sunorme") {
            return Err("cannot delete admin".to_owned());
        }
        let p = find_user(&self.users, user_id);
        if p == self.users.len() {
            return Err("user not found".to_owned());
        }
        self.users.remove(p);
        let q = find_key(&self.slots, user_id);
        if q < self.slots.len() {
            self.slots.remove(q);
            assert(pairs_view(self.slots@) =~= pairs_view(old(self).slots@).remove(q as int));
        }
        Ok(())
    }

    // -- engine slots -------------------------------------------------------

    /// The persona state of `user_id` (unknown without a slot).
    pub fn get_persona_state(&self, user_id: &str) -> (r: PersonaState)
        ensures
            r == slot_of(pairs_view(self.slots@), user_id@).persona_state,
    {
        let q = find_key(&self.slots, user_id);
        if q < self.slots.len() {
            self.slots[q].1.persona_state
        } else {
            PersonaState::Unknown
        }
    }

    /// Marks the persona of a loaded user ready.
    pub fn mark_persona_ready(&mut self, user_id: &str)
        ensures
            pairs_view(final(self).slots@) == update_slot(
                pairs_view(old(self).slots@),
                user_id@,
                |s: UserSlot| UserSlot { persona_state: PersonaState::Ready, ..s },
            ),
            final(self).users == old(self).users,
    {
        let q = find_key(&self.slots, user_id);
        if q < self.slots.len() {
            self.slots[q].1.persona_state = PersonaState::Ready;
        }
        proof {
            lemma_key_pos(pairs_view(old(self).slots@), user_id@);
        }
        assert(pairs_view(self.slots@) =~= update_slot(
            pairs_view(old(self).slots@),
            user_id@,
            |s: UserSlot| UserSlot { persona_state: PersonaState::Ready, ..s },
        ));
    }

    /// Records an access to a loaded user's engine at `now`.
    pub fn touch_at(&mut self, user_id: &str, now: u64)
        ensures
            pairs_view(final(self).slots@) == touched(pairs_view(old(self).slots@), user_id@, now),
            final(self).users == old(self).users,
    {
        let q = find_key(&self.slots, user_id);
        if q < self.slots.len() {
            self.slots[q].1.last_access = now;
        }
        assert(pairs_view(self.slots@) =~= update_slot(
            pairs_view(old(self).slots@),
            user_id@,
            |s: UserSlot| UserSlot { last_access: now, ..s },
        ));
    }

    /// Records an access to a loaded user's engine now.
    pub fn touch(&mut self, user_id: &str)
        ensures
            exists|now: u64|
                pairs_view(final(self).slots@) == #[trigger] touched(
                    pairs_view(old(self).slots@),
                    user_id@,
                    now,
                ),
            final(self).users == old(self).users,
    {
        let now = self.now_millis();
        self.touch_at(user_id, now);
    }

    /// Whether the primary executor of `user_id` is bound.
    pub fn has_primary_executor(&self, user_id: &str) -> (r: bool)
        ensures
            r == slot_of(pairs_view(self.slots@), user_id@).has_primary,
    {
        let q = find_key(&self.slots, user_id);
        q < self.slots.len() && self.slots[q].1.has_primary
    }

    /// Records whether the primary executor of a loaded user is bound.
    pub fn set_has_primary_executor(&mut self, user_id: &str, val: bool)
        ensures
            pairs_view(final(self).slots@) == update_slot(
                pairs_view(old(self).slots@),
                user_id@,
                |s: UserSlot| UserSlot { has_primary: val, ..s },
            ),
            final(self).users == old(self).users,
    {
        let q = find_key(&self.slots, user_id);
        if q < self.slots.len() {
            self.slots[q].1.has_primary = val;
        }
        assert(pairs_view(self.slots@) =~= update_slot(
            pairs_view(old(self).slots@),
            user_id@,
            |s: UserSlot| UserSlot { has_primary: val, ..s },
        ));
    }

    /// Whether the cognitive loop of `user_id` was started.
    pub fn is_loop_started(&self, user_id: &str) -> (r: bool)
        ensures
            r == slot_of(pairs_view(self.slots@), user_id@).loop_started,
    {
        let q = find_key(&self.slots, user_id);
        q < self.slots.len() && self.slots[q].1.loop_started
    }

    /// Records that the cognitive loop of a loaded user was started.
    pub fn mark_loop_started(&mut self, user_id: &str)
        ensures
            pairs_view(final(self).slots@) == update_slot(
                pairs_view(old(self).slots@),
                user_id@,
                |s: UserSlot| UserSlot { loop_started: true, ..s },
            ),
            final(self).users == old(self).users,
    {
        let q = find_key(&self.slots, user_id);
        if q < self.slots.len() {
            self.slots[q].1.loop_started = true;
        }
        assert(pairs_view(self.slots@) =~= update_slot(
            pairs_view(old(self).slots@),
            user_id@,
            |s: UserSlot| UserSlot { loop_started: true, ..s },
        ));
    }

    /// Whether the engine of `user_id` is being loaded.
    pub fn is_loading(&self, user_id: &str) -> (r: bool)
        ensures
            r == strings_view(self.loading_users@).contains(user_id@),
    {
        let k = find_str(&self.loading_users, user_id);
        proof {
            lemma_str_pos(strings_view(self.loading_users@), user_id@);
        }
        k < self.loading_users.len()
    }

    /// Takes the load right for `user_id`: true, and marked loading, when
    /// nobody held it; false, and nothing changes, otherwise.
    pub fn try_mark_loading(&mut self, user_id: &str) -> (r: bool)
        ensures
            r == !strings_view(old(self).loading_users@).contains(user_id@),
            strings_view(final(self).loading_users@) == if r {
                strings_view(old(self).loading_users@).push(user_id@)
            } else {
                strings_view(old(self).loading_users@)
            },
            final(self).users == old(self).users,
            final(self).slots == old(self).slots,
    {
        if self.is_loading(user_id) {
            return false;
        }
        let ghost before = self.loading_users@;
        self.loading_users.push(user_id.to_owned());
        assert(strings_view(self.loading_users@) =~= strings_view(before).push(user_id@));
        true
    }

    /// Marks `user_id` loading.
    pub fn mark_loading(&mut self, user_id: &str)
        ensures
            strings_view(final(self).loading_users@) == if strings_view(
                old(self).loading_users@,
            ).contains(user_id@) {
                strings_view(old(self).loading_users@)
            } else {
                strings_view(old(self).loading_users@).push(user_id@)
            },
            final(self).users == old(self).users,
            final(self).slots == old(self).slots,
    {
        let _ = self.try_mark_loading(user_id);
    }

    /// Clears the loading mark of `user_id`.
    pub fn clear_loading(&mut self, user_id: &str)
        ensures
            strings_view(final(self).loading_users@) == without(
                strings_view(old(self).loading_users@),
                user_id@,
            ),
            final(self).users == old(self).users,
            final(self).slots == old(self).slots,
    {
        let kept = strings_without(&self.loading_users, user_id);
        self.loading_users = kept;
    }

    /// Evicts the engines idle for more than `min_idle_secs` at `now`; when
    /// none is idle but the slots are full, evicts the least recently used
    /// one. Returns the evicted user ids (their engines are to be saved).
    pub fn evict_idle_with_at(&mut self, min_idle_secs: u64, now: u64) -> (r: Vec<String>)
        ensures
            eviction_at(pairs_view(old(self).slots@), pairs_view(final(self).slots@), strings_view(r@), now, min_idle_secs),
            final(self).users == old(self).users,
            final(self).loading_users == old(self).loading_users,
    {
        let mut kept: Vec<(String, UserSlot)> = Vec::new();
        let mut evicted: Vec<String> = Vec::new();
        let mut i: usize = 0;
        let ghost slots = pairs_view(self.slots@);
        while i < self.slots.len()
            invariant
                self.slots == old(self).slots,
                slots == pairs_view(self.slots@),
                i <= slots.len(),
                strings_view(evicted@) == idle_ids(slots.take(i as int), now, min_idle_secs),
                pairs_view(kept@) == active_slots(slots.take(i as int), now, min_idle_secs),
            decreases self.slots.len() - i,
        {
            proof {
                assert(slots.take(i + 1).drop_last() =~= slots.take(i as int));
            }
            let s = self.slots[i].1;
            let idle_secs: u64 = if now >= s.last_access {
                (now - s.last_access) / 1000
            } else {
                0
            };
            if idle_secs > min_idle_secs {
                let ghost before = evicted@;
                evicted.push(self.slots[i].0.clone());
                assert(strings_view(evicted@) =~= strings_view(before).push(slots[i as int].0));
            } else {
                let ghost before = kept@;
                kept.push((self.slots[i].0.clone(), s));
                assert(pairs_view(kept@) =~= pairs_view(before).push(slots[i as int]));
            }
            i += 1;
        }
        assert(slots.take(slots.len() as int) =~= slots);
        if evicted.len() > 0 || self.slots.len() < MAX_USERS {
            self.slots = kept;
            return evicted;
        }
        let mut o: usize = 0;
        let mut j: usize = 1;
        while j < self.slots.len()
            invariant
                self.slots == old(self).slots,
                slots == pairs_view(self.slots@),
                slots.len() >= MAX_USERS,
                o < j <= slots.len(),
                forall|k: int| 0 <= k < j ==> slots[o as int].1.last_access <= slots[k].1.last_access,
                forall|k: int| 0 <= k < o ==> slots[k].1.last_access > slots[o as int].1.last_access,
            decreases self.slots.len() - j,
        {
            if self.slots[j].1.last_access < self.slots[o].1.last_access {
                o = j;
            }
            j += 1;
        }
        let id = self.slots[o].0.clone();
        self.slots.remove(o);
        assert(pairs_view(self.slots@) =~= slots.remove(o as int));
        let mut out: Vec<String> = Vec::new();
        out.push(id);
        assert(strings_view(out@) =~= seq![slots[o as int].0]);
        assert(oldest_at(slots, o as int));
        out
    }

    /// Evicts the engines idle for more than `min_idle_secs` now.
    pub fn evict_idle_with(&mut self, min_idle_secs: u64) -> (r: Vec<String>)
        ensures
            exists|now: u64| #[trigger] eviction_at(pairs_view(old(self).slots@), pairs_view(final(self).slots@), strings_view(r@), now, min_idle_secs),
            final(self).users == old(self).users,
            final(self).loading_users == old(self).loading_users,
            final(self).slots@.len() + r@.len() == old(self).slots@.len(),
    {
        let now = self.now_millis();
        let r = self.evict_idle_with_at(min_idle_secs, now);
        proof {
            let slots = pairs_view(old(self).slots@);
            lemma_idle_split(slots, now, min_idle_secs);
            assert(strings_view(r@).len() == r@.len());
            assert(pairs_view(self.slots@).len() == self.slots@.len());
            assert(slots.len() == old(self).slots@.len());
        }
        r
    }

    /// Evicts the engines idle for more than an hour.
    pub fn evict_idle(&mut self) -> (r: Vec<String>)
        ensures
            exists|now: u64| #[trigger] eviction_at(pairs_view(old(self).slots@), pairs_view(final(self).slots@), strings_view(r@), now, IDLE_TIMEOUT_SECS),
            final(self).users == old(self).users,
            final(self).loading_users == old(self).loading_users,
            final(self).slots@.len() + r@.len() == old(self).slots@.len(),
    {
        self.evict_idle_with(IDLE_TIMEOUT_SECS)
    }

    /// Decides how a request reaches the engine of `user_id`: an invalid id
    /// is refused; a ready engine is used; a warming or degraded persona is
    /// reported; a load in progress is reported as warming; otherwise the
    /// caller takes the load right (the user is marked loading) and loads.
    pub fn begin_engine_access(&mut self, user_id: &str) -> (r: Result<EngineAccess, String>)
        ensures
            ({
                let st = slot_of(pairs_view(old(self).slots@), user_id@).persona_state;
                let loading = strings_view(old(self).loading_users@);
                if !valid_user_id(user_id@) {
                    r matches Err(m) && m@ == "invalid user_id"@
                } else if st == PersonaState::Ready {
                    r == Ok::<EngineAccess, String>(EngineAccess::UseLoaded)
                } else if st == PersonaState::WarmingUp {
                    r matches Err(m) && m@ == "PERSONA_WARMING_UP"@
                } else if st == PersonaState::Degraded {
                    r matches Err(m) && m@ == "PERSONA_DEGRADED"@
                } else if loading.contains(user_id@) {
                    r matches Err(m) && m@ == "PERSONA_WARMING_UP"@
                } else {
                    r == Ok::<EngineAccess, String>(EngineAccess::Load)
                }
            }),
            r == Ok::<EngineAccess, String>(EngineAccess::Load) ==> strings_view(
                final(self).loading_users@,
            ) == strings_view(old(self).loading_users@).push(user_id@),
            r != Ok::<EngineAccess, String>(EngineAccess::Load) ==> strings_view(
                final(self).loading_users@,
            ) == strings_view(old(self).loading_users@),
            final(self).users == old(self).users,
            final(self).slots == old(self).slots,
    {
        if !is_valid_user_id(user_id) {
            return Err("invalid user_id".to_owned());
        }
        let st = self.get_persona_state(user_id);
        match st {
            PersonaState::Ready => {
                return Ok(EngineAccess::UseLoaded);
            },
            PersonaState::WarmingUp => {
                return Err("PERSONA_WARMING_UP".to_owned());
            },
            PersonaState::Degraded => {
                return Err("PERSONA_DEGRADED".to_owned());
            },
            PersonaState::Unknown => {},
        }
        if !self.try_mark_loading(user_id) {
            return Err("PERSONA_WARMING_UP".to_owned());
        }
        Ok(EngineAccess::Load)
    }

    /// As [`UserManager::begin_engine_access`], but a load in progress is
    /// refused before the persona is looked at.
    pub fn begin_engine_access_strict(&mut self, user_id: &str) -> (r: Result<EngineAccess, String>)
        ensures
            !valid_user_id(user_id@) ==> (r matches Err(m) && m@ == "invalid user_id"@),
            valid_user_id(user_id@) && strings_view(old(self).loading_users@).contains(user_id@)
                ==> (r matches Err(m) && m@ == "PERSONA_WARMING_UP"@ && final(self).loading_users
                == old(self).loading_users),
            r == Ok::<EngineAccess, String>(EngineAccess::Load) ==> strings_view(
                final(self).loading_users@,
            ) == strings_view(old(self).loading_users@).push(user_id@),
            final(self).users == old(self).users,
            final(self).slots == old(self).slots,
    {
        if !is_valid_user_id(user_id) {
            return Err("invalid user_id".to_owned());
        }
        if self.is_loading(user_id) {
            return Err("PERSONA_WARMING_UP".to_owned());
        }
        self.begin_engine_access(user_id)
    }

    /// Decides how a request that may trigger a load reaches the engine of
    /// `user_id`, answering in persona states: an invalid or unknown user is
    /// degraded; a ready engine is used; warming and degraded personas and
    /// loads in progress are reported; otherwise a load is needed.
    pub fn engine_trigger_gate(&self, user_id: &str) -> (r: Result<EngineAccess, PersonaState>)
        ensures
            ({
                let st = slot_of(pairs_view(self.slots@), user_id@).persona_state;
                r == if !valid_user_id(user_id@) {
                    Err(PersonaState::Degraded)
                } else if st == PersonaState::Ready {
                    Ok(EngineAccess::UseLoaded)
                } else if st == PersonaState::WarmingUp {
                    Err(PersonaState::WarmingUp)
                } else if st == PersonaState::Degraded {
                    Err(PersonaState::Degraded)
                } else if strings_view(self.loading_users@).contains(user_id@) {
                    Err(PersonaState::WarmingUp)
                } else if user_pos(self.users@, user_id@) >= self.users@.len() {
                    Err(PersonaState::Degraded)
                } else {
                    Ok(EngineAccess::Load)
                }
            }),
    {
        if !is_valid_user_id(user_id) {
            return Err(PersonaState::Degraded);
        }
        match self.get_persona_state(user_id) {
            PersonaState::Ready => {
                return Ok(EngineAccess::UseLoaded);
            },
            PersonaState::WarmingUp => {
                return Err(PersonaState::WarmingUp);
            },
            PersonaState::Degraded => {
                return Err(PersonaState::Degraded);
            },
            PersonaState::Unknown => {},
        }
        if self.is_loading(user_id) {
            return Err(PersonaState::WarmingUp);
        }
        if find_user(&self.users, user_id) == self.users.len() {
            return Err(PersonaState::Degraded);
        }
        Ok(EngineAccess::Load)
    }

    /// Completes a load of the engine of `user_id` at `now`: the account's
    /// memory count is synced to `actual_count` (returns whether it
    /// changed), the slot is (re)placed as ready, and the loading mark is
    /// cleared.
    pub fn finish_engine_load(&mut self, user_id: &str, actual_count: usize, now: u64) -> (changed: bool)
        ensures
            ({
                let p = user_pos(old(self).users@, user_id@);
                let slot = UserSlot {
                    last_access: now,
                    persona_state: PersonaState::Ready,
                    loop_started: false,
                    has_primary: false,
                };
                let q = key_pos(pairs_view(old(self).slots@), user_id@);
                &&& changed == (p < old(self).users@.len() && old(self).users@[p].memories_used != actual_count)
                &&& final(self).users@ == if changed {
                    old(self).users@.update(p, UserInfo { memories_used: actual_count, ..old(self).users@[p] })
                } else {
                    old(self).users@
                }
                &&& pairs_view(final(self).slots@) == if q < old(self).slots@.len() {
                    pairs_view(old(self).slots@).update(q, (user_id@, slot))
                } else {
                    pairs_view(old(self).slots@).push((user_id@, slot))
                }
                &&& strings_view(final(self).loading_users@) == without(
                    strings_view(old(self).loading_users@),
                    user_id@,
                )
            }),
    {
        let p = find_user(&self.users, user_id);
        let mut changed = false;
        if p < self.users.len() && self.users[p].memories_used != actual_count {
            self.users[p].memories_used = actual_count;
            changed = true;
            assert(self.users@ =~= old(self).users@.update(p as int, self.users@[p as int]));
        }
        let slot = UserSlot {
            last_access: now,
            persona_state: PersonaState::Ready,
            loop_started: false,
            has_primary: false,
        };
        let q = find_key(&self.slots, user_id);
        proof {
            lemma_key_pos(pairs_view(self.slots@), user_id@);
        }
        if q < self.slots.len() {
            self.slots[q].1 = slot;
            assert(pairs_view(self.slots@) =~= pairs_view(old(self).slots@).update(q as int, (user_id@, slot)));
        } else {
            self.slots.push((user_id.to_owned(), slot));
            assert(pairs_view(self.slots@) =~= pairs_view(old(self).slots@).push((user_id@, slot)));
        }
        self.clear_loading(user_id);
        changed
    }
}

/// An account view with its sub-account list replaced.
pub open spec fn with_subs(v: <UserInfo as View>::V, subs: Seq<Seq<char>>) -> <UserInfo as View>::V {
    (v.0, v.1, v.2, v.3, v.4, v.5, v.6, v.7, subs)
}

/// The strings of `v` without repeats, each at its first occurrence.
pub open spec fn first_occurrences(v: Seq<Seq<char>>) -> Seq<Seq<char>>
    decreases v.len(),
{
    if v.len() == 0 {
        v
    } else {
        let rest = first_occurrences(v.drop_last());
        if rest.contains(v.last()) {
            rest
        } else {
            rest.push(v.last())
        }
    }
}

/// The accounts named by `ids` that exist, in the order of `ids`.
pub open spec fn linked_users(users: Seq<UserInfo>, ids: Seq<Seq<char>>) -> Seq<<UserInfo as View>::V>
    decreases ids.len(),
{
    if ids.len() == 0 {
        Seq::empty()
    } else {
        let rest = linked_users(users, ids.drop_last());
        let p = user_pos(users, ids.last());
        if p < users.len() {
            rest.push(users[p]@)
        } else {
            rest
        }
    }
}

proof fn lemma_linked_users_push(users: Seq<UserInfo>, ids: Seq<Seq<char>>, id: Seq<char>)
    ensures
        linked_users(users, ids.push(id)) == if user_pos(users, id) < users.len() {
            linked_users(users, ids).push(users[user_pos(users, id)]@)
        } else {
            linked_users(users, ids)
        },
{
    assert(ids.push(id).drop_last() =~= ids);
}

/// The strings of `v` other than `s`.
fn strings_without(v: &Vec<String>, s: &str) -> (r: Vec<String>)
    ensures
        strings_view(r@) == without(strings_view(v@), s@),
{
    let mut out: Vec<String> = Vec::new();
    let mut i: usize = 0;
    while i < v.len()
        invariant
            i <= v@.len(),
            strings_view(out@) == without(strings_view(v@).take(i as int), s@),
        decreases v.len() - i,
    {
        proof {
            assert(strings_view(v@).take(i + 1).drop_last() =~= strings_view(v@).take(i as int));
        }
        if !str_eq(v[i].as_str(), s) {
            let ghost before = out@;
            out.push(v[i].clone());
            assert(strings_view(out@) =~= strings_view(before).push(v@[i as int]@));
        }
        i += 1;
    }
    assert(strings_view(v@).take(v@.len() as int) =~= strings_view(v@));
    out
}


/// Why a memory check refuses `user_id`, if it does: an unknown user is
/// refused only when the check would also count (`counting`); otherwise
/// the main account must exist and the shared usage must be below its
/// quota.
pub open spec fn memory_refusal(users: Seq<UserInfo>, user_id: Seq<char>, counting: bool) -> Option<Seq<char>> {
    let p = user_pos(users, user_id);
    if p >= users.len() {
        if counting {
            Some("user not found"@)
        } else {
            None
        }
    } else {
        let owner = quota_owner(users[p]);
        let op = user_pos(users, owner);
        if op >= users.len() {
            Some("owner not found"@)
        } else if shared_usage(users, owner) >= users[op].max_memories {
            Some(limit_message(shared_usage(users, owner), users[op].max_memories as nat))
        } else {
            None
        }
    }
}

/// Whether `r` answers as [`memory_refusal`] says.
pub open spec fn answers(r: Result<(), String>, refusal: Option<Seq<char>>) -> bool {
    match r {
        Ok(_) => refusal is None,
        Err(m) => refusal == Some(m@),
    }
}

/// The slot of `id`, or a fresh unknown one.
pub open spec fn slot_of(slots: Seq<(Seq<char>, UserSlot)>, id: Seq<char>) -> UserSlot {
    let q = key_pos(slots, id);
    if q < slots.len() {
        slots[q].1
    } else {
        UserSlot { last_access: 0, persona_state: PersonaState::Unknown, loop_started: false, has_primary: false }
    }
}

/// The slots with the slot of `id` (if any) changed by `f`.
pub open spec fn update_slot(
    slots: Seq<(Seq<char>, UserSlot)>,
    id: Seq<char>,
    f: spec_fn(UserSlot) -> UserSlot,
) -> Seq<(Seq<char>, UserSlot)> {
    let q = key_pos(slots, id);
    if q < slots.len() {
        slots.update(q, (slots[q].0, f(slots[q].1)))
    } else {
        slots
    }
}

/// The slots after an access to `id` at `now`.
pub open spec fn touched(slots: Seq<(Seq<char>, UserSlot)>, id: Seq<char>, now: u64) -> Seq<(Seq<char>, UserSlot)> {
    update_slot(slots, id, |s: UserSlot| UserSlot { last_access: now, ..s })
}

/// A member of an account's group uses no more than the group's total.
proof fn lemma_member_usage_bounded(users: Seq<UserInfo>, p: int)
    requires
        0 <= p < users.len(),
    ensures
        users[p].memories_used <= shared_usage(users, quota_owner(users[p])),
    decreases users.len(),
{
    let owner = quota_owner(users[p]);
    assert(in_group(users[p], owner));
    if p < users.len() - 1 {
        assert(users.drop_last()[p] == users[p]);
        lemma_member_usage_bounded(users.drop_last(), p);
    }
}


/// Whole seconds `s` has been idle at `now` (zero if it was touched later).
pub open spec fn idle_secs(s: UserSlot, now: u64) -> int {
    if now >= s.last_access {
        (now - s.last_access) / 1000
    } else {
        0
    }
}

/// The ids of the slots idle for more than `min` seconds, in order.
pub open spec fn idle_ids(slots: Seq<(Seq<char>, UserSlot)>, now: u64, min: u64) -> Seq<Seq<char>>
    decreases slots.len(),
{
    if slots.len() == 0 {
        Seq::empty()
    } else {
        let rest = idle_ids(slots.drop_last(), now, min);
        if idle_secs(slots.last().1, now) > min {
            rest.push(slots.last().0)
        } else {
            rest
        }
    }
}

/// The slots idle for at most `min` seconds, in order.
pub open spec fn active_slots(slots: Seq<(Seq<char>, UserSlot)>, now: u64, min: u64) -> Seq<(Seq<char>, UserSlot)>
    decreases slots.len(),
{
    if slots.len() == 0 {
        slots
    } else {
        let rest = active_slots(slots.drop_last(), now, min);
        if idle_secs(slots.last().1, now) > min {
            rest
        } else {
            rest.push(slots.last())
        }
    }
}

/// One eviction at time `now` (milliseconds): with an engine idle for more
/// than `min` seconds, or a free slot, the idle engines are evicted in
/// order and the others kept; with a full table and none idle, the least
/// recently used engine (the first of them on a tie) is evicted.
pub open spec fn eviction_at(
    slots: Seq<(Seq<char>, UserSlot)>,
    after: Seq<(Seq<char>, UserSlot)>,
    evicted: Seq<Seq<char>>,
    now: u64,
    min: u64,
) -> bool {
    let idle = idle_ids(slots, now, min);
    if idle.len() > 0 || slots.len() < MAX_USERS {
        &&& evicted == idle
        &&& after == active_slots(slots, now, min)
    } else {
        exists|o: int|
            0 <= o < slots.len() && #[trigger] oldest_at(slots, o) && evicted == seq![slots[o].0]
                && after == slots.remove(o)
    }
}

/// Whether the slot at `o` is the first of the least recently used ones.
pub open spec fn oldest_at(slots: Seq<(Seq<char>, UserSlot)>, o: int) -> bool {
    &&& forall|k: int| 0 <= k < slots.len() ==> slots[o].1.last_access <= #[trigger] slots[k].1.last_access
    &&& forall|k: int| 0 <= k < o ==> #[trigger] slots[k].1.last_access > slots[o].1.last_access
}

/// Every slot is either idle or active.
proof fn lemma_idle_split(slots: Seq<(Seq<char>, UserSlot)>, now: u64, min: u64)
    ensures
        idle_ids(slots, now, min).len() + active_slots(slots, now, min).len() == slots.len(),
    decreases slots.len(),
{
    if slots.len() > 0 {
        lemma_idle_split(slots.drop_last(), now, min);
    }
}


// ---------------------------------------------------------------------------
// Laws
// ---------------------------------------------------------------------------

/// Changing the memory count of the account at `p` to `n` changes the
/// shared usage of its group by the difference.
proof fn lemma_usage_update(users: Seq<UserInfo>, p: int, n: usize, owner: Seq<char>)
    requires
        0 <= p < users.len(),
    ensures
        shared_usage(users.update(p, UserInfo { memories_used: n, ..users[p] }), owner) + (if in_group(
            users[p],
            owner,
        ) {
            users[p].memories_used as int
        } else {
            0
        }) == shared_usage(users, owner) + (if in_group(users[p], owner) {
            n as int
        } else {
            0
        }),
    decreases users.len(),
{
    let after = users.update(p, UserInfo { memories_used: n, ..users[p] });
    if p < users.len() - 1 {
        assert(after.drop_last() =~= users.drop_last().update(
            p,
            UserInfo { memories_used: n, ..users.drop_last()[p] },
        ));
        lemma_usage_update(users.drop_last(), p, n, owner);
    } else {
        assert(after.drop_last() =~= users.drop_last());
    }
}

/// Counting a memory through [`UserManager::check_and_increment_memory`]
/// never takes a main account and its sub-accounts past the main
/// account's quota: the shared usage grows by exactly one and stays within
/// the quota.
pub proof fn law_shared_quota_kept(users: Seq<UserInfo>, user_id: Seq<char>)
    requires
        memory_refusal(users, user_id, true) is None,
    ensures
        ({
            let p = user_pos(users, user_id);
            let owner = quota_owner(users[p]);
            let op = user_pos(users, owner);
            let after = users.update(
                p,
                UserInfo { memories_used: (users[p].memories_used + 1) as usize, ..users[p] },
            );
            &&& user_pos(after, owner) == op
            &&& shared_usage(after, owner) == shared_usage(users, owner) + 1
            &&& shared_usage(after, owner) <= after[op].max_memories
        }),
{
    let p = user_pos(users, user_id);
    lemma_str_pos(user_ids(users), user_id);
    let owner = quota_owner(users[p]);
    let op = user_pos(users, owner);
    lemma_str_pos(user_ids(users), owner);
    let n = (users[p].memories_used + 1) as usize;
    lemma_member_usage_bounded(users, p);
    let after = users.update(p, UserInfo { memories_used: n, ..users[p] });
    assert(user_ids(after) =~= user_ids(users));
    assert(in_group(users[p], owner));
    lemma_usage_update(users, p, n, owner);
}

/// Refunding a code right after it was consumed from the pending list
/// gives both lists back as multisets: the code is pending once more and
/// the used list holds what it held before.
pub proof fn law_refund_undoes_use(pending: Seq<Seq<char>>, used: Seq<Seq<char>>, code: Seq<char>)
    requires
        str_pos(pending, code) < pending.len(),
    ensures
        ({
            let pending1 = pending.remove(str_pos(pending, code));
            let used1 = used.push(code);
            let q = str_pos(used1, code);
            &&& q < used1.len()
            &&& pending1.push(code).to_multiset() == pending.to_multiset()
            &&& used1.remove(q).to_multiset() == used.to_multiset()
        }),
{
    broadcast use vstd::seq_lib::group_to_multiset_ensures;
    broadcast use vstd::multiset::group_multiset_axioms;

    let p = str_pos(pending, code);
    lemma_str_pos(pending, code);
    let used1 = used.push(code);
    lemma_str_pos(used1, code);
    assert(used1.contains(code)) by {
        assert(used1[used.len() as int] == code);
    }
    let q = str_pos(used1, code);
    vstd::seq_lib::to_multiset_remove(pending, p);
    vstd::seq_lib::to_multiset_build(pending.remove(p), code);
    assert(pending.remove(p).push(code).to_multiset() =~= pending.to_multiset());
    vstd::seq_lib::to_multiset_remove(used1, q);
    vstd::seq_lib::to_multiset_build(used, code);
    assert(used1.remove(q).to_multiset() =~= used.to_multiset());
}


/// Why a password login is refused, if it is.
pub open spec fn login_refusal(users: Seq<UserInfo>, user_id: Seq<char>, password: Seq<char>) -> Option<Seq<char>> {
    let p = user_pos(users, user_id);
    if p >= users.len() {
        Some("user not found"@)
    } else if users[p].password_hash@.len() == 0 {
        Some("password not set for this account, please contact admin"@)
    } else if !password_accepts(password, users[p].password_hash@) {
        Some("invalid password"@)
    } else {
        None
    }
}

/// A newly registered account can log in with the password it was
/// registered with.
pub proof fn law_registered_user_can_log_in(users: Seq<UserInfo>, u: UserInfo, password: Seq<char>)
    requires
        register_error(users, u.user_id@, u.api_key@, password) is None,
        is_hash_of(u.password_hash@, password),
    ensures
        login_refusal(users.push(u), u.user_id@, password) is None,
{
    let after = users.push(u);
    lemma_str_pos(user_ids(users), u.user_id@);
    assert(user_ids(after) =~= user_ids(users).push(u.user_id@));
    assert forall|j: int| 0 <= j < users.len() implies user_ids(after)[j] != u.user_id@ by {
        assert(user_ids(after)[j] == user_ids(users)[j]);
    }
    lemma_str_pos_is(user_ids(after), u.user_id@, users.len() as int);
}

} // verus!
