//! 64-bit FNV-1a hashing of strings and fixed-width lowercase hex rendering.

use vstd::prelude::*;
use vstd::string::StringSliceAdditionalSpecFns;

verus! {

pub const FNV_OFFSET_BASIS: u64 = 14695981039346656037;
pub const FNV_PRIME: u64 = 1099511628211;

/// FNV-1a over `bytes`: start from the offset basis; for every byte, xor it
/// in and multiply by the prime modulo 2^64.
pub open spec fn fnv1a(bytes: Seq<u8>) -> u64
    decreases bytes.len(),
{
    if bytes.len() == 0 {
        FNV_OFFSET_BASIS
    } else {
        vstd::wrapping::u64_specs::wrapping_mul(
            fnv1a(bytes.drop_last()) ^ (bytes.last() as u64),
            FNV_PRIME,
        )
    }
}

/// FNV-1a of the UTF-8 bytes of `s`.
pub fn fnv1a_str(s: &str) -> (h: u64)
    ensures
        h == fnv1a(s.spec_bytes()),
{
    let bytes = s.as_bytes();
    let mut h: u64 = FNV_OFFSET_BASIS;
    let mut i: usize = 0;
    assert(bytes@.take(0) =~= Seq::<u8>::empty());
    while i < bytes.len()
        invariant
            i <= bytes@.len(),
            h == fnv1a(bytes@.take(i as int)),
        decreases bytes.len() - i,
    {
        assert(bytes@.take(i + 1).drop_last() =~= bytes@.take(i as int));
        h = (h ^ (bytes[i] as u64)).wrapping_mul(FNV_PRIME);
        i += 1;
    }
    assert(bytes@.take(bytes@.len() as int) =~= bytes@);
    h
}

/// The lowercase hex digit for `d < 16`.
pub open spec fn hex_digit(d: u64) -> char {
    if d < 10 {
        ((48 + d) as u8) as char
    } else {
        ((87 + d) as u8) as char
    }
}

/// Nibble `i` of `h`, counted from the most significant one.
pub open spec fn nibble(h: u64, i: int) -> u64 {
    (h >> ((60 - 4 * i) as u64)) & 15u64
}

/// `h` as exactly sixteen lowercase hex digits (`{:016x}`).
pub open spec fn hex16(h: u64) -> Seq<char> {
    Seq::new(16, |i: int| hex_digit(nibble(h, i)))
}

fn hex_char(d: u64) -> (c: char)
    requires
        d < 16,
    ensures
        c == hex_digit(d),
{
    if d < 10 {
        ((48 + d) as u8) as char
    } else {
        ((87 + d) as u8) as char
    }
}

/// Appends the sixteen hex digits of `h` to `out`.
pub fn push_hex16(out: &mut Vec<char>, h: u64)
    ensures
        final(out)@ == old(out)@ + hex16(h),
{
    let ghost start = out@;
    let mut i: u64 = 0;
    while i < 16
        invariant
            i <= 16,
            out@ == start + hex16(h).take(i as int),
        decreases 16 - i,
    {
        let sh: u64 = 60 - 4 * i;
        let d = (h >> sh) & 15;
        assert(d < 16) by (bit_vector)
            requires
                d == (h >> sh) & 15,
        ;
        assert(d == nibble(h, i as int));
        let c = hex_char(d);
        assert(c == hex16(h)[i as int]);
        out.push(c);
        assert(hex16(h).take(i + 1) =~= hex16(h).take(i as int).push(c));
        i += 1;
    }
    assert(hex16(h).take(16) =~= hex16(h));
}

/// FNV-1a continued from the state `h` over `bytes`.
pub open spec fn fnv1a_from(h: u64, bytes: Seq<u8>) -> u64
    decreases bytes.len(),
{
    if bytes.len() == 0 {
        h
    } else {
        vstd::wrapping::u64_specs::wrapping_mul(fnv1a_from(h, bytes.drop_last()) ^ (bytes.last() as u64), FNV_PRIME)
    }
}

/// Hashing `a` then `b` is hashing `a` and continuing over `b`.
pub proof fn law_fnv1a_concat(a: Seq<u8>, b: Seq<u8>)
    ensures
        fnv1a(a + b) == fnv1a_from(fnv1a(a), b),
    decreases b.len(),
{
    if b.len() == 0 {
        assert(a + b =~= a);
    } else {
        law_fnv1a_concat(a, b.drop_last());
        assert((a + b).drop_last() =~= a + b.drop_last());
        assert((a + b).last() == b.last());
    }
}

/// The UTF-8 encoding of a concatenation is the concatenation of the
/// encodings.
pub proof fn lemma_encode_utf8_concat(a: Seq<char>, b: Seq<char>)
    ensures
        vstd::utf8::encode_utf8(a + b) == vstd::utf8::encode_utf8(a) + vstd::utf8::encode_utf8(b),
    decreases a.len(),
{
    if a.len() == 0 {
        assert(a + b =~= b);
    } else {
        lemma_encode_utf8_concat(a.drop_first(), b);
        assert((a + b).drop_first() =~= a.drop_first() + b);
        assert((a + b)[0] == a[0]);
        assert(vstd::utf8::encode_utf8(a + b) =~= vstd::utf8::encode_scalar(a[0] as u32)
            + vstd::utf8::encode_utf8(a.drop_first() + b));
    }
}

/// Hashing a text followed by one character is one FNV-1a step per UTF-8
/// byte of the character, from the hash of the text.
pub proof fn law_fnv1a_push_char(s: Seq<char>, c: char)
    ensures
        fnv1a(vstd::utf8::encode_utf8(s.push(c))) == fnv1a_from(
            fnv1a(vstd::utf8::encode_utf8(s)),
            vstd::utf8::encode_utf8(seq![c]),
        ),
{
    assert(s.push(c) =~= s + seq![c]);
    lemma_encode_utf8_concat(s, seq![c]);
    law_fnv1a_concat(vstd::utf8::encode_utf8(s), vstd::utf8::encode_utf8(seq![c]));
}

} // verus!
