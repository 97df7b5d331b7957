//! Text analysis behind memory search: the tokenizer (words, plus
//! overlapping pairs for CJK runs), content hashing, noise detection and
//! the exact keyword match test.

use vstd::prelude::*;
use std::collections::HashMap;
use crate::hashing::{fnv1a, fnv1a_str};
use crate::security::{eq_ignore_ascii_case, eq_ignore_ascii_case_spec};
use crate::strs::{
    contains, contains_seq, from_chars, is_alphanumeric, is_whitespace, push_str_chars,
    starts_with, starts_with_seq, str_eq, strings_view, to_chars, to_lowercase, trim, trim_seq,
    unicode_alphanumeric, unicode_lowercase, unicode_whitespace, words, words_acc, ascii_lower,
    ascii_text,
};

verus! {

broadcast use vstd::utf8::group_utf8_lib;

/// An identifier of a stored memory.
pub type TetraId = u64;

/// Which memories each score adjustment touched during one search.
#[derive(Debug)]
pub struct SearchScoreNotes {
    pub cluster_boosted: Vec<TetraId>,
    pub importance_boosted: Vec<TetraId>,
    pub access_boosted: Vec<TetraId>,
    pub penalized: Vec<TetraId>,
    pub kg_expanded: Vec<TetraId>,
    /// For exact searches, the signals through which each result matched.
    pub matched_by_map: HashMap<TetraId, Vec<String>>,
}

impl SearchScoreNotes {
    /// Notes with nothing recorded.
    pub fn empty() -> (r: SearchScoreNotes)
        ensures
            r.cluster_boosted@.len() == 0,
            r.importance_boosted@.len() == 0,
            r.access_boosted@.len() == 0,
            r.penalized@.len() == 0,
            r.kg_expanded@.len() == 0,
            r.matched_by_map@.len() == 0,
    {
        SearchScoreNotes {
            cluster_boosted: Vec::new(),
            importance_boosted: Vec::new(),
            access_boosted: Vec::new(),
            penalized: Vec::new(),
            kg_expanded: Vec::new(),
            matched_by_map: HashMap::new(),
        }
    }
}

// ---------------------------------------------------------------------------
// Tokenizer
// ---------------------------------------------------------------------------

/// Whether `c` lies in one of the CJK blocks the tokenizer pairs up: CJK
/// ideographs and extension A, CJK punctuation, hiragana, katakana and
/// Hangul syllables.
pub open spec fn cjk_spec(c: char) -> bool {
    let cp = c as u32;
    (0x4E00 <= cp <= 0x9FFF) || (0x3400 <= cp <= 0x4DBF) || (0x3000 <= cp <= 0x303F) || (0x3040
        <= cp <= 0x309F) || (0x30A0 <= cp <= 0x30FF) || (0xAC00 <= cp <= 0xD7AF)
}

/// Whether `c` is a CJK character in the tokenizer's sense.
pub fn is_cjk(ch: char) -> (r: bool)
    ensures
        r == cjk_spec(ch),
{
    let cp = ch as u32;
    (cp >= 0x4E00 && cp <= 0x9FFF) || (cp >= 0x3400 && cp <= 0x4DBF) || (cp >= 0x3000 && cp
        <= 0x303F) || (cp >= 0x3040 && cp <= 0x309F) || (cp >= 0x30A0 && cp <= 0x30FF) || (cp
        >= 0xAC00 && cp <= 0xD7AF)
}

/// Whether `c` continues a word: letters, digits and `-_./:`.
pub open spec fn word_char(c: char) -> bool {
    unicode_alphanumeric(c) || c == '-' || c == '_' || c == '.' || c == '/' || c == ':'
}

/// The tokens of one CJK run: a single character stands alone; longer runs
/// give every overlapping pair, and runs of two or three characters also
/// give the whole run.
pub open spec fn cjk_tokens(b: Seq<char>) -> Seq<Seq<char>> {
    if b.len() == 0 {
        Seq::empty()
    } else if b.len() == 1 {
        seq![b]
    } else {
        Seq::new((b.len() - 1) as nat, |i: int| seq![b[i], b[i + 1]]) + if b.len() <= 3 {
            seq![b]
        } else {
            Seq::empty()
        }
    }
}

/// Tokenizer state: tokens so far, the pending word and the pending CJK run.
pub type TokState = (Seq<Seq<char>>, Seq<char>, Seq<char>);

pub open spec fn flush_word(st: TokState) -> TokState {
    if st.1.len() > 0 {
        (st.0.push(st.1), Seq::empty(), st.2)
    } else {
        st
    }
}

pub open spec fn flush_run(st: TokState) -> TokState {
    if st.2.len() > 0 {
        (st.0 + cjk_tokens(st.2), st.1, Seq::empty())
    } else {
        st
    }
}

/// The state after reading `c`: whitespace and other separators end the
/// pending word and run; a CJK character ends the word and extends the
/// run; a word character ends the run and extends the word.
pub open spec fn tok_step(st: TokState, c: char) -> TokState {
    if unicode_whitespace(c) {
        flush_run(flush_word(st))
    } else if cjk_spec(c) {
        let t = flush_word(st);
        (t.0, t.1, t.2.push(c))
    } else if word_char(c) {
        let t = flush_run(st);
        (t.0, t.1.push(c), t.2)
    } else {
        flush_run(flush_word(st))
    }
}

/// The state after reading all of `s`.
pub open spec fn tok_state(s: Seq<char>) -> TokState
    decreases s.len(),
{
    if s.len() == 0 {
        (Seq::empty(), Seq::empty(), Seq::empty())
    } else {
        tok_step(tok_state(s.drop_last()), s.last())
    }
}

/// The tokens of an already lowercased text.
pub open spec fn tokens_of(s: Seq<char>) -> Seq<Seq<char>> {
    flush_run(flush_word(tok_state(s))).0
}

/// The tokens of `text`: those of its Unicode lowercase form.
pub open spec fn tokenize_spec(text: Seq<char>) -> Seq<Seq<char>> {
    tokens_of(unicode_lowercase(text))
}

/// Appends the tokens of the CJK run `buf` to `tokens`.
pub fn flush_cjk(buf: &str, tokens: &mut Vec<String>)
    ensures
        strings_view(final(tokens)@) == strings_view(old(tokens)@) + cjk_tokens(buf@),
{
    let chars = to_chars(buf);
    let ghost start = strings_view(tokens@);
    if chars.len() == 0 {
        assert(strings_view(tokens@) =~= start + cjk_tokens(buf@));
        return ;
    }
    if chars.len() == 1 {
        tokens.push(buf.to_owned());
        assert(strings_view(tokens@) =~= start + cjk_tokens(buf@));
        return ;
    }
    let ghost pairs = Seq::new((chars@.len() - 1) as nat, |i: int| seq![chars@[i], chars@[i + 1]]);
    let mut i: usize = 0;
    while i + 1 < chars.len()
        invariant
            chars@ == buf@,
            chars@.len() >= 2,
            i + 1 <= chars@.len(),
            pairs == Seq::new((chars@.len() - 1) as nat, |k: int| seq![chars@[k], chars@[k + 1]]),
            strings_view(tokens@) == start + pairs.take(i as int),
        decreases chars.len() - i,
    {
        let mut pair: Vec<char> = Vec::new();
        pair.push(chars[i]);
        pair.push(chars[i + 1]);
        let t = from_chars(&pair);
        let ghost before = tokens@;
        tokens.push(t);
        proof {
            assert(strings_view(tokens@) =~= strings_view(before).push(t@));
            assert(t@ =~= pairs[i as int]);
            assert(pairs.take(i + 1) =~= pairs.take(i as int).push(pairs[i as int]));
        }
        i += 1;
    }
    assert(pairs.take(i as int) =~= pairs);
    if chars.len() <= 3 {
        let ghost before = tokens@;
        tokens.push(buf.to_owned());
        assert(strings_view(tokens@) =~= strings_view(before).push(buf@));
    }
    assert(strings_view(tokens@) =~= start + cjk_tokens(buf@));
}

/// Moves a non-empty pending word into `tokens`.
fn take_word(tokens: &mut Vec<String>, word: &mut Vec<char>)
    ensures
        ({
            let st = flush_word((strings_view(old(tokens)@), old(word)@, Seq::empty()));
            strings_view(final(tokens)@) == st.0 && final(word)@ == st.1
        }),
{
    if word.len() > 0 {
        let t = from_chars(word);
        let ghost before = tokens@;
        tokens.push(t);
        assert(strings_view(tokens@) =~= strings_view(before).push(t@));
        *word = Vec::new();
        assert(word@ =~= Seq::<char>::empty());
    }
}

/// Moves a non-empty pending CJK run's tokens into `tokens`.
fn take_run(tokens: &mut Vec<String>, run: &mut Vec<char>)
    ensures
        ({
            let st = flush_run((strings_view(old(tokens)@), Seq::empty(), old(run)@));
            strings_view(final(tokens)@) == st.0 && final(run)@ == st.2
        }),
{
    if run.len() > 0 {
        let s = from_chars(run);
        flush_cjk(s.as_str(), tokens);
        *run = Vec::new();
        assert(run@ =~= Seq::<char>::empty());
    }
}

/// Splits `text` into search tokens: it is lowercased; runs of letters,
/// digits and `-_./:` form words; runs of CJK characters give overlapping
/// pairs; everything else separates tokens.
pub fn tokenize(text: &str) -> (r: Vec<String>)
    ensures
        strings_view(r@) == tokenize_spec(text@),
        ascii_plain_text(text@) ==> strings_view(r@) == words(ascii_lower(text@)),
        ascii_text(text@) ==> strings_view(r@) == ascii_tokens(ascii_lower(text@)),
{
    let lower = to_lowercase(text);
    let chars = to_chars(lower.as_str());
    let mut tokens: Vec<String> = Vec::new();
    let mut word: Vec<char> = Vec::new();
    let mut run: Vec<char> = Vec::new();
    let mut i: usize = 0;
    assert(chars@.take(0) =~= Seq::<char>::empty());
    assert(strings_view(tokens@) =~= Seq::<Seq<char>>::empty());
    while i < chars.len()
        invariant
            chars@ == unicode_lowercase(text@),
            i <= chars@.len(),
            (strings_view(tokens@), word@, run@) == tok_state(chars@.take(i as int)),
            word@.len() == 0 || run@.len() == 0,
            ascii_text(text@) ==> chars@ == ascii_lower(text@),
            forall|k: int|
                0 <= k < i ==> (ascii_alnum(#[trigger] chars@[k]) ==> unicode_alphanumeric(chars@[k])),
            forall|k: int|
                0 <= k < i ==> ((#[trigger] chars@[k] as u32) < 128 && !unicode_whitespace(chars@[k])
                    ==> (unicode_alphanumeric(chars@[k]) <==> ascii_alnum(chars@[k]))),
        decreases chars.len() - i,
    {
        let ch = chars[i];
        proof {
            assert(chars@.take(i + 1).drop_last() =~= chars@.take(i as int));
            assert(chars@.take(i + 1).last() == ch);
        }
        if is_whitespace(ch) {
            take_word(&mut tokens, &mut word);
            take_run(&mut tokens, &mut run);
        } else if is_cjk(ch) {
            take_word(&mut tokens, &mut word);
            run.push(ch);
        } else if is_alphanumeric(ch) || ch == '-' || ch == '_' || ch == '.' || ch == '/' || ch
            == ':' {
            take_run(&mut tokens, &mut run);
            word.push(ch);
        } else {
            take_word(&mut tokens, &mut word);
            take_run(&mut tokens, &mut run);
        }
        i += 1;
    }
    take_word(&mut tokens, &mut word);
    take_run(&mut tokens, &mut run);
    assert(chars@.take(chars@.len() as int) =~= chars@);
    proof {
        if ascii_plain_text(text@) {
            let t = text@;
            let l = chars@;
            assert(ascii_text(t)) by {
                assert forall|k: int| 0 <= k < t.len() implies (#[trigger] t[k] as u32) < 128 by {
                    assert(ascii_word_char(t[k]) || ascii_space(t[k]));
                }
            }
            assert(plain_text(l)) by {
                assert forall|k: int| 0 <= k < l.len() implies unicode_whitespace(#[trigger] l[k]) || (
                word_char(l[k]) && !cjk_spec(l[k])) by {
                    let c = t[k];
                    assert(ascii_word_char(c) || ascii_space(c));
                    if 'A' <= c <= 'Z' {
                        assert(l[k] == ((c as u32) + 32) as char);
                        assert(ascii_alnum(l[k]));
                    } else {
                        assert(l[k] == c);
                    }
                }
            }
            law_plain_tokens_are_words(l);
        }
        if ascii_text(text@) {
            let t = text@;
            let l = chars@;
            assert(ascii_classes(l)) by {
                assert forall|k: int| 0 <= k < l.len() implies (#[trigger] l[k] as u32) < 128 && (
                !unicode_whitespace(l[k]) ==> (word_char(l[k]) == ascii_word_char(l[k]))) by {
                    let c = t[k];
                    assert((c as u32) < 128);
                    if 'A' <= c <= 'Z' {
                        assert(l[k] == ((c as u32) + 32) as char);
                    } else {
                        assert(l[k] == c);
                    }
                }
            }
            law_ascii_tokens(l);
        }
    }
    tokens
}

/// Whether `c` is an ASCII letter or digit.
pub open spec fn ascii_alnum(c: char) -> bool {
    ('a' <= c <= 'z') || ('A' <= c <= 'Z') || ('0' <= c <= '9')
}

/// Whether `c` is an ASCII letter, digit or one of `-_./:`.
pub open spec fn ascii_word_char(c: char) -> bool {
    ascii_alnum(c) || c == '-' || c == '_' || c == '.' || c == '/' || c == ':'
}

/// Whether `c` is ASCII whitespace: tab to carriage return, or space.
pub open spec fn ascii_space(c: char) -> bool {
    c == ' ' || ('\t' <= c <= '\r')
}

/// Whether `s` is made of ASCII word characters and ASCII whitespace.
pub open spec fn ascii_plain_text(s: Seq<char>) -> bool {
    forall|i: int| 0 <= i < s.len() ==> ascii_word_char(#[trigger] s[i]) || ascii_space(s[i])
}

// ---------------------------------------------------------------------------
// Hashing
// ---------------------------------------------------------------------------

/// FNV-1a of the UTF-8 bytes of `s`.
pub fn hash_string(s: &str) -> (h: u64)
    ensures
        h == fnv1a(vstd::utf8::encode_utf8(s@)),
{
    fnv1a_str(s)
}

/// The content hash used to detect duplicate memories.
pub fn hash_content(s: &str) -> (h: u64)
    ensures
        h == fnv1a(vstd::utf8::encode_utf8(s@)),
{
    hash_string(s)
}

// ---------------------------------------------------------------------------
// Noise
// ---------------------------------------------------------------------------

/// Labels that mark throwaway memories.
pub open spec fn noise_label_word(w: Seq<char>) -> bool {
    w == "test"@ || w == "testing"@ || w == "junk"@ || w == "scratch"@ || w == "tmp"@ || w
        == "temp"@
}

/// Whether any label, lowercased, marks a throwaway memory.
pub open spec fn noise_label_spec(labels: Seq<String>) -> bool {
    exists|i: int| 0 <= i < labels.len() && noise_label_word(unicode_lowercase(labels[i]@))
}

/// Whether any label marks the memory as a throwaway.
pub fn is_noise_label(labels: &[String]) -> (r: bool)
    ensures
        r == noise_label_spec(labels@),
        (exists|i: int|
            0 <= i < labels@.len() && ascii_text(labels@[i]@) && ascii_throwaway_word(
                ascii_lower(#[trigger] labels@[i]@),
            )) ==> r,
{
    let mut i: usize = 0;
    while i < labels.len()
        invariant
            i <= labels@.len(),
            forall|j: int| 0 <= j < i ==> !noise_label_word(unicode_lowercase(labels@[j]@)),
            forall|j: int|
                0 <= j < i && ascii_text(labels@[j]@) ==> unicode_lowercase(labels@[j]@) == ascii_lower(
                    #[trigger] labels@[j]@,
                ),
        decreases labels.len() - i,
    {
        let lower = to_lowercase(labels[i].as_str());
        let l = lower.as_str();
        if str_eq(l, "test") || str_eq(l, "testing") || str_eq(l, "junk") || str_eq(l, "scratch")
            || str_eq(l, "tmp") || str_eq(l, "temp") {
            return true;
        }
        i += 1;
    }
    false
}

/// Phrases that mark a memory's content as a throwaway.
pub open spec fn noise_phrase(i: int) -> Seq<char> {
    if i == 0 {
        "test"@
    } else if i == 1 {
        "testing 123"@
    } else if i == 2 {
        "hello world"@
    } else if i == 3 {
        "测试中文"@
    } else if i == 4 {
        "测试内容"@
    } else {
        "test content"@
    }
}

/// Whether content is noise: under ten bytes once trimmed; one of the noise
/// phrases (lowercased, or trimmed ignoring ASCII case); or a session or
/// finding note about a test.
pub open spec fn noise_content_spec(content: Seq<char>) -> bool {
    let lower = unicode_lowercase(content);
    let trimmed = trim_seq(content);
    ||| vstd::utf8::encode_utf8(trimmed).len() < 10
    ||| exists|i: int|
        0 <= i < 6 && (lower == noise_phrase(i) || eq_ignore_ascii_case_spec(
            trimmed,
            noise_phrase(i),
        ))
    ||| starts_with_seq(lower, "[session]"@) && contains_seq(lower, "| accomplished: test"@)
    ||| starts_with_seq(lower, "[finding]"@) && contains_seq(lower, "| test"@)
}

fn phrase(i: usize) -> (r: &'static str)
    requires
        i < 6,
    ensures
        r@ == noise_phrase(i as int),
{
    if i == 0 {
        "test"
    } else if i == 1 {
        "testing 123"
    } else if i == 2 {
        "hello world"
    } else if i == 3 {
        "测试中文"
    } else if i == 4 {
        "测试内容"
    } else {
        "test content"
    }
}

/// Whether the content is noise.
pub fn is_noise_content(content: &str) -> (r: bool)
    ensures
        r == noise_content_spec(content@),
{
    let lower = to_lowercase(content);
    let chars = to_chars(content);
    let trimmed_chars = trim(&chars);
    let trimmed = from_chars(&trimmed_chars);
    if trimmed.as_str().as_bytes().len() < 10 {
        return true;
    }
    let mut i: usize = 0;
    while i < 6
        invariant
            i <= 6,
            lower@ == unicode_lowercase(content@),
            trimmed@ == trim_seq(content@),
            forall|j: int|
                0 <= j < i ==> !(lower@ == noise_phrase(j) || eq_ignore_ascii_case_spec(
                    trimmed@,
                    noise_phrase(j),
                )),
        decreases 6 - i,
    {
        let p = phrase(i);
        if str_eq(lower.as_str(), p) || eq_ignore_ascii_case(trimmed.as_str(), p) {
            return true;
        }
        i += 1;
    }
    let lc = to_chars(lower.as_str());
    let session = to_chars("[session]");
    let accomplished = to_chars("| accomplished: test");
    if starts_with(&lc, &session) && contains(&lc, &accomplished) {
        return true;
    }
    let finding = to_chars("[finding]");
    let test_item = to_chars("| test");
    if starts_with(&lc, &finding) && contains(&lc, &test_item) {
        return true;
    }
    false
}

// ---------------------------------------------------------------------------
// Exact keyword match
// ---------------------------------------------------------------------------

/// `parts` joined with single spaces.
pub open spec fn join_spaces(parts: Seq<Seq<char>>) -> Seq<char>
    decreases parts.len(),
{
    if parts.len() == 0 {
        Seq::empty()
    } else if parts.len() == 1 {
        parts[0]
    } else {
        join_spaces(parts.drop_last()) + seq![' '] + parts.last()
    }
}

/// The text searched for query tokens: lowercased content, aliases and
/// labels, separated by spaces.
pub open spec fn keyword_text(content: Seq<char>, aliases: Seq<Seq<char>>, labels: Seq<Seq<char>>) -> Seq<char> {
    unicode_lowercase(content) + seq![' '] + unicode_lowercase(join_spaces(aliases)) + seq![' ']
        + unicode_lowercase(join_spaces(labels))
}

/// How many of `tokens` occur in `text`.
pub open spec fn count_found(tokens: Seq<Seq<char>>, text: Seq<char>) -> nat
    decreases tokens.len(),
{
    if tokens.len() == 0 {
        0
    } else {
        count_found(tokens.drop_last(), text) + if contains_seq(text, tokens.last()) {
            1nat
        } else {
            0nat
        }
    }
}

/// Whether more than half of the query's tokens occur in the memory's text.
pub open spec fn exact_match_spec(
    query: Seq<char>,
    content: Seq<char>,
    aliases: Seq<Seq<char>>,
    labels: Seq<Seq<char>>,
) -> bool {
    let q = tokenize_spec(query);
    q.len() > 0 && 2 * count_found(q, keyword_text(content, aliases, labels)) > q.len()
}

/// Joins strings with single spaces.
fn join_with_spaces(parts: &[String]) -> (r: String)
    ensures
        r@ == join_spaces(strings_view(parts@)),
{
    let mut out: Vec<char> = Vec::new();
    let mut i: usize = 0;
    while i < parts.len()
        invariant
            i <= parts@.len(),
            out@ == join_spaces(strings_view(parts@).take(i as int)),
        decreases parts.len() - i,
    {
        proof {
            let v = strings_view(parts@);
            assert(v.take(i + 1).drop_last() =~= v.take(i as int));
            assert(v.take(i + 1).last() == parts@[i as int]@);
            if i == 0 {
                assert(v.take(1) =~= seq![v[0]]);
            }
        }
        if i > 0 {
            out.push(' ');
        }
        push_str_chars(&mut out, parts[i].as_str());
        i += 1;
    }
    assert(strings_view(parts@).take(parts@.len() as int) =~= strings_view(parts@));
    from_chars(&out)
}

/// Whether more than half of the tokens of `query` occur in the memory's
/// lowercased content, aliases or labels.
pub fn has_exact_keyword_match(query: &str, content: &str, aliases: &[String], labels: &[String]) -> (r: bool)
    ensures
        r == exact_match_spec(query@, content@, strings_view(aliases@), strings_view(labels@)),
{
    let query_tokens = tokenize(query);
    if query_tokens.len() == 0 {
        return false;
    }
    let content_lower = to_lowercase(content);
    let aliases_joined = join_with_spaces(aliases);
    let aliases_lower = to_lowercase(aliases_joined.as_str());
    let labels_joined = join_with_spaces(labels);
    let labels_lower = to_lowercase(labels_joined.as_str());
    let mut all_text: Vec<char> = Vec::new();
    push_str_chars(&mut all_text, content_lower.as_str());
    all_text.push(' ');
    push_str_chars(&mut all_text, aliases_lower.as_str());
    all_text.push(' ');
    push_str_chars(&mut all_text, labels_lower.as_str());
    let ghost q = strings_view(query_tokens@);
    let ghost text = keyword_text(content@, strings_view(aliases@), strings_view(labels@));
    assert(all_text@ =~= text);
    let mut found: usize = 0;
    let mut i: usize = 0;
    while i < query_tokens.len()
        invariant
            q == strings_view(query_tokens@),
            all_text@ == text,
            i <= query_tokens@.len(),
            found == count_found(q.take(i as int), text),
            found <= i,
        decreases query_tokens.len() - i,
    {
        proof {
            assert(q.take(i + 1).drop_last() =~= q.take(i as int));
            assert(q.take(i + 1).last() == query_tokens@[i as int]@);
        }
        let t = to_chars(query_tokens[i].as_str());
        if contains(&all_text, &t) {
            found += 1;
        }
        i += 1;
    }
    assert(q.take(q.len() as int) =~= q);
    found > query_tokens.len() - found
}


// ---------------------------------------------------------------------------
// Laws
// ---------------------------------------------------------------------------

/// No character of `s` is whitespace.
pub open spec fn no_whitespace(s: Seq<char>) -> bool {
    forall|k: int| 0 <= k < s.len() ==> !unicode_whitespace(#[trigger] s[k])
}

/// Tokens so far are non-empty and whitespace-free, and so are the pending
/// word and run.
pub open spec fn state_ok(st: TokState) -> bool {
    &&& forall|i: int| 0 <= i < st.0.len() ==> (#[trigger] st.0[i]).len() > 0 && no_whitespace(st.0[i])
    &&& no_whitespace(st.1)
    &&& no_whitespace(st.2)
}

proof fn lemma_cjk_tokens_ok(b: Seq<char>)
    requires
        no_whitespace(b),
    ensures
        forall|i: int|
            0 <= i < cjk_tokens(b).len() ==> (#[trigger] cjk_tokens(b)[i]).len() > 0 && no_whitespace(
                cjk_tokens(b)[i],
            ),
{
    if b.len() >= 2 {
        let pairs = Seq::new((b.len() - 1) as nat, |i: int| seq![b[i], b[i + 1]]);
        let tail = if b.len() <= 3 {
            seq![b]
        } else {
            Seq::empty()
        };
        assert forall|i: int| 0 <= i < cjk_tokens(b).len() implies (#[trigger] cjk_tokens(b)[i]).len()
            > 0 && no_whitespace(cjk_tokens(b)[i]) by {
            if i < pairs.len() {
                assert(cjk_tokens(b)[i] == pairs[i]);
                assert forall|k: int| 0 <= k < pairs[i].len() implies !unicode_whitespace(
                    #[trigger] pairs[i][k],
                ) by {
                    if k == 0 {
                        assert(pairs[i][k] == b[i]);
                    } else {
                        assert(pairs[i][k] == b[i + 1]);
                    }
                }
            } else {
                assert(cjk_tokens(b)[i] == tail[i - pairs.len()]);
            }
        }
    }
}

proof fn lemma_flushes_ok(st: TokState)
    requires
        state_ok(st),
    ensures
        state_ok(flush_word(st)),
        state_ok(flush_run(st)),
        state_ok(flush_run(flush_word(st))),
{
    let w = flush_word(st);
    assert(state_ok(w)) by {
        if st.1.len() > 0 {
            assert forall|i: int| 0 <= i < w.0.len() implies (#[trigger] w.0[i]).len() > 0 && no_whitespace(w.0[i]) by {
                if i < st.0.len() {
                    assert(w.0[i] == st.0[i]);
                }
            }
        }
    }
    assert forall|t: TokState| #[trigger] state_ok(t) implies state_ok(flush_run(t)) by {
        if t.2.len() > 0 {
            lemma_cjk_tokens_ok(t.2);
            let r = flush_run(t);
            assert forall|i: int| 0 <= i < r.0.len() implies (#[trigger] r.0[i]).len() > 0 && no_whitespace(r.0[i]) by {
                if i < t.0.len() {
                    assert(r.0[i] == t.0[i]);
                } else {
                    assert(r.0[i] == cjk_tokens(t.2)[i - t.0.len()]);
                }
            }
        }
    }
}

proof fn lemma_tok_state_ok(s: Seq<char>)
    ensures
        state_ok(tok_state(s)),
    decreases s.len(),
{
    if s.len() > 0 {
        let st = tok_state(s.drop_last());
        lemma_tok_state_ok(s.drop_last());
        lemma_flushes_ok(st);
        let c = s.last();
        if !unicode_whitespace(c) {
            if cjk_spec(c) {
                let t = flush_word(st);
                assert(no_whitespace(t.2.push(c))) by {
                    assert forall|k: int| 0 <= k < t.2.push(c).len() implies !unicode_whitespace(
                        #[trigger] t.2.push(c)[k],
                    ) by {
                        if k < t.2.len() {
                            assert(t.2.push(c)[k] == t.2[k]);
                        }
                    }
                }
            } else if word_char(c) {
                let t = flush_run(st);
                assert(no_whitespace(t.1.push(c))) by {
                    assert forall|k: int| 0 <= k < t.1.push(c).len() implies !unicode_whitespace(
                        #[trigger] t.1.push(c)[k],
                    ) by {
                        if k < t.1.len() {
                            assert(t.1.push(c)[k] == t.1[k]);
                        }
                    }
                }
            }
        }
    }
}

/// Every token is a non-empty run of non-whitespace characters.
pub proof fn law_tokens_are_nonempty_words(text: Seq<char>)
    ensures
        forall|i: int|
            0 <= i < tokenize_spec(text).len() ==> (#[trigger] tokenize_spec(text)[i]).len() > 0
                && no_whitespace(tokenize_spec(text)[i]),
{
    let st = tok_state(unicode_lowercase(text));
    lemma_tok_state_ok(unicode_lowercase(text));
    lemma_flushes_ok(st);
}

/// Whether `t` occurs in `s` as a contiguous piece.
pub open spec fn is_piece(s: Seq<char>, t: Seq<char>) -> bool {
    exists|i: int| 0 <= i && i + t.len() <= s.len() && #[trigger] s.subrange(i, i + t.len()) == t
}

/// Whether `t` ends `s`.
pub open spec fn is_suffix(s: Seq<char>, t: Seq<char>) -> bool {
    t.len() <= s.len() && s.subrange(s.len() - t.len(), s.len() as int) == t
}

/// Tokens so far are pieces of `s`; the pending word and run end `s`.
spec fn pieces_ok(s: Seq<char>, st: TokState) -> bool {
    &&& forall|i: int| 0 <= i < st.0.len() ==> is_piece(s, #[trigger] st.0[i])
    &&& is_suffix(s, st.1)
    &&& is_suffix(s, st.2)
}

proof fn lemma_piece_at(s: Seq<char>, t: Seq<char>, i: int)
    requires
        0 <= i,
        i + t.len() <= s.len(),
        s.subrange(i, i + t.len()) == t,
    ensures
        is_piece(s, t),
{
}

proof fn lemma_piece_push(s: Seq<char>, c: char, t: Seq<char>)
    requires
        is_piece(s, t),
    ensures
        is_piece(s.push(c), t),
{
    let i = choose|i: int| 0 <= i && i + t.len() <= s.len() && #[trigger] s.subrange(i, i + t.len()) == t;
    assert(s.push(c).subrange(i, i + t.len()) =~= s.subrange(i, i + t.len()));
    lemma_piece_at(s.push(c), t, i);
}

proof fn lemma_suffix_push(s: Seq<char>, c: char, t: Seq<char>)
    requires
        is_suffix(s, t),
    ensures
        is_suffix(s.push(c), t.push(c)),
{
    assert(s.push(c).subrange(s.push(c).len() - t.push(c).len(), s.push(c).len() as int) =~= t.push(c));
}

proof fn lemma_empty_suffix(s: Seq<char>)
    ensures
        is_suffix(s, Seq::empty()),
{
    assert(s.subrange(s.len() as int, s.len() as int) =~= Seq::<char>::empty());
}

/// Flushing a pending word or run keeps every token a piece of `s`.
proof fn lemma_flush_pieces(s: Seq<char>, st: TokState)
    requires
        pieces_ok(s, st),
    ensures
        pieces_ok(s, flush_word(st)),
        pieces_ok(s, flush_run(st)),
        pieces_ok(s, flush_run(flush_word(st))),
{
    lemma_empty_suffix(s);
    let k = s.len() - st.1.len();
    lemma_piece_at(s, st.1, k);
    let w = flush_word(st);
    assert(pieces_ok(s, w)) by {
        assert forall|i: int| 0 <= i < w.0.len() implies is_piece(s, #[trigger] w.0[i]) by {
            if i < st.0.len() {
                assert(w.0[i] == st.0[i]);
            }
        }
    }
    lemma_run_pieces(s, st);
    lemma_run_pieces(s, w);
}

proof fn lemma_run_pieces(s: Seq<char>, st: TokState)
    requires
        pieces_ok(s, st),
    ensures
        pieces_ok(s, flush_run(st)),
{
    lemma_empty_suffix(s);
    let b = st.2;
    let k = s.len() - b.len();
    if b.len() > 0 {
        let r = flush_run(st);
        let ts = cjk_tokens(b);
        assert forall|i: int| 0 <= i < ts.len() implies is_piece(s, #[trigger] ts[i]) by {
            if b.len() == 1 {
                lemma_piece_at(s, b, k);
            } else if i < b.len() - 1 {
                assert(ts[i] == seq![b[i], b[i + 1]]);
                assert(s.subrange(k + i, k + i + 2) =~= seq![b[i], b[i + 1]]) by {
                    assert(b[i] == s.subrange(k, s.len() as int)[i]);
                    assert(b[i + 1] == s.subrange(k, s.len() as int)[i + 1]);
                }
                lemma_piece_at(s, ts[i], k + i);
            } else {
                assert(ts[i] == b);
                lemma_piece_at(s, b, k);
            }
        }
        assert forall|i: int| 0 <= i < r.0.len() implies is_piece(s, #[trigger] r.0[i]) by {
            if i < st.0.len() {
                assert(r.0[i] == st.0[i]);
            } else {
                assert(r.0[i] == ts[i - st.0.len()]);
            }
        }
    }
}

proof fn lemma_lift_tokens(p: Seq<char>, c: char, toks: Seq<Seq<char>>)
    requires
        forall|i: int| 0 <= i < toks.len() ==> is_piece(p, #[trigger] toks[i]),
    ensures
        forall|i: int| 0 <= i < toks.len() ==> is_piece(p.push(c), #[trigger] toks[i]),
{
    assert forall|i: int| 0 <= i < toks.len() implies is_piece(p.push(c), #[trigger] toks[i]) by {
        lemma_piece_push(p, c, toks[i]);
    }
}

proof fn lemma_tok_pieces(s: Seq<char>)
    ensures
        pieces_ok(s, tok_state(s)),
    decreases s.len(),
{
    lemma_empty_suffix(s);
    if s.len() > 0 {
        let p = s.drop_last();
        let c = s.last();
        assert(p.push(c) =~= s);
        lemma_tok_pieces(p);
        let st = tok_state(p);
        lemma_flush_pieces(p, st);
        let w = flush_word(st);
        let r = flush_run(st);
        let wr = flush_run(w);
        assert(w.1.len() == 0 && w.2 == st.2);
        assert(r.2.len() == 0 && r.1 == st.1);
        assert(wr.1.len() == 0 && wr.2.len() == 0);
        assert(tok_state(s) == tok_step(st, c));
        if unicode_whitespace(c) || (!cjk_spec(c) && !word_char(c)) {
            lemma_lift_tokens(p, c, wr.0);
            assert(wr.1 =~= Seq::<char>::empty());
            assert(wr.2 =~= Seq::<char>::empty());
        } else if cjk_spec(c) {
            lemma_lift_tokens(p, c, w.0);
            lemma_suffix_push(p, c, w.2);
            assert(w.1 =~= Seq::<char>::empty());
        } else {
            lemma_lift_tokens(p, c, r.0);
            lemma_suffix_push(p, c, r.1);
            assert(r.2 =~= Seq::<char>::empty());
        }
    }
}

/// Every token is a contiguous piece of the lowercased text.
pub proof fn law_tokens_are_pieces(text: Seq<char>)
    ensures
        forall|i: int|
            0 <= i < tokenize_spec(text).len() ==> is_piece(
                unicode_lowercase(text),
                #[trigger] tokenize_spec(text)[i],
            ),
{
    let l = unicode_lowercase(text);
    lemma_tok_pieces(l);
    lemma_flush_pieces(l, tok_state(l));
}

/// Whether every character of `s` is whitespace or a word character that
/// is not CJK.
pub open spec fn plain_text(s: Seq<char>) -> bool {
    forall|i: int| 0 <= i < s.len() ==> unicode_whitespace(#[trigger] s[i]) || (word_char(s[i]) && !cjk_spec(s[i]))
}

proof fn lemma_words_prefix(s: Seq<char>, i: int)
    requires
        plain_text(s),
        0 <= i <= s.len(),
    ensures
        tok_state(s.take(i)).2.len() == 0,
        words(s) == words_acc(s.skip(i), tok_state(s.take(i)).0, tok_state(s.take(i)).1),
    decreases i,
{
    if i == 0 {
        assert(s.take(0) =~= Seq::<char>::empty());
        assert(s.skip(0) =~= s);
    } else {
        lemma_words_prefix(s, i - 1);
        let t = s.take(i - 1);
        let c = s[i - 1];
        assert(s.take(i).drop_last() =~= t);
        assert(s.take(i).last() == c);
        let st = tok_state(t);
        assert(tok_state(s.take(i)) == tok_step(st, c));
        let rest = s.skip(i - 1);
        assert(rest[0] == c);
        assert(rest.drop_first() =~= s.skip(i));
        assert(unicode_whitespace(c) || (word_char(c) && !cjk_spec(c)));
        let d = st.0;
        let cur = st.1;
        assert(flush_run(st) == st);
        if unicode_whitespace(c) {
            if cur.len() > 0 {
                assert(words_acc(rest, d, cur) == words_acc(s.skip(i), d.push(cur), Seq::empty()));
                assert(tok_state(s.take(i)) == (d.push(cur), Seq::<char>::empty(), st.2));
            } else {
                assert(words_acc(rest, d, cur) == words_acc(s.skip(i), d, Seq::empty()));
                assert(cur =~= Seq::<char>::empty());
                assert(tok_state(s.take(i)) == (d, Seq::<char>::empty(), st.2));
            }
        } else {
            assert(words_acc(rest, d, cur) == words_acc(s.skip(i), d, cur.push(c)));
            assert(tok_state(s.take(i)) == (d, cur.push(c), st.2));
        }
    }
}

/// On text made of whitespace and non-CJK word characters, the tokens are
/// exactly its whitespace-separated words.
pub proof fn law_plain_tokens_are_words(s: Seq<char>)
    requires
        plain_text(s),
    ensures
        tokens_of(s) == words(s),
{
    lemma_words_prefix(s, s.len() as int);
    assert(s.take(s.len() as int) =~= s);
    assert(s.skip(s.len() as int) =~= Seq::<char>::empty());
}

/// Splits `s` into its maximal runs of ASCII word characters; every other
/// character separates them.
pub open spec fn ascii_split_acc(s: Seq<char>, done: Seq<Seq<char>>, cur: Seq<char>) -> Seq<Seq<char>>
    decreases s.len(),
{
    if s.len() == 0 {
        if cur.len() > 0 {
            done.push(cur)
        } else {
            done
        }
    } else if ascii_word_char(s[0]) {
        ascii_split_acc(s.drop_first(), done, cur.push(s[0]))
    } else if cur.len() > 0 {
        ascii_split_acc(s.drop_first(), done.push(cur), Seq::empty())
    } else {
        ascii_split_acc(s.drop_first(), done, Seq::empty())
    }
}

/// The runs of ASCII letters, digits and `-_./:` in `s`, in order.
pub open spec fn ascii_tokens(s: Seq<char>) -> Seq<Seq<char>> {
    ascii_split_acc(s, Seq::empty(), Seq::empty())
}

/// Whether, on the characters of `s`, the tokenizer's word characters are
/// the ASCII ones.
pub open spec fn ascii_classes(s: Seq<char>) -> bool {
    forall|i: int|
        0 <= i < s.len() ==> (#[trigger] s[i] as u32) < 128 && (!unicode_whitespace(s[i]) ==> (
        word_char(s[i]) == ascii_word_char(s[i])))
}

proof fn lemma_ascii_prefix(s: Seq<char>, i: int)
    requires
        ascii_classes(s),
        0 <= i <= s.len(),
    ensures
        tok_state(s.take(i)).2.len() == 0,
        ascii_tokens(s) == ascii_split_acc(s.skip(i), tok_state(s.take(i)).0, tok_state(s.take(i)).1),
    decreases i,
{
    if i == 0 {
        assert(s.take(0) =~= Seq::<char>::empty());
        assert(s.skip(0) =~= s);
    } else {
        lemma_ascii_prefix(s, i - 1);
        let t = s.take(i - 1);
        let c = s[i - 1];
        assert(s.take(i).drop_last() =~= t);
        assert(s.take(i).last() == c);
        let st = tok_state(t);
        assert(tok_state(s.take(i)) == tok_step(st, c));
        let rest = s.skip(i - 1);
        assert(rest[0] == c);
        assert(rest.drop_first() =~= s.skip(i));
        assert((c as u32) < 128);
        assert(!cjk_spec(c));
        let d = st.0;
        let cur = st.1;
        assert(flush_run(st) == st);
        if ascii_word_char(c) {
            assert(!unicode_whitespace(c));
            assert(ascii_split_acc(rest, d, cur) == ascii_split_acc(s.skip(i), d, cur.push(c)));
            assert(tok_state(s.take(i)) == (d, cur.push(c), st.2));
        } else {
            assert(unicode_whitespace(c) || !word_char(c));
            if cur.len() > 0 {
                assert(ascii_split_acc(rest, d, cur) == ascii_split_acc(s.skip(i), d.push(cur), Seq::empty()));
                assert(tok_state(s.take(i)) == (d.push(cur), Seq::<char>::empty(), st.2));
            } else {
                assert(ascii_split_acc(rest, d, cur) == ascii_split_acc(s.skip(i), d, Seq::empty()));
                assert(cur =~= Seq::<char>::empty());
                assert(tok_state(s.take(i)) == (d, Seq::<char>::empty(), st.2));
            }
        }
    }
}

/// On ASCII text whose word characters are the ASCII letters, digits and
/// `-_./:`, the tokens are its maximal runs of those characters: all other
/// characters separate tokens and are dropped.
pub proof fn law_ascii_tokens(s: Seq<char>)
    requires
        ascii_classes(s),
    ensures
        tokens_of(s) == ascii_tokens(s),
{
    lemma_ascii_prefix(s, s.len() as int);
    assert(s.take(s.len() as int) =~= s);
    assert(s.skip(s.len() as int) =~= Seq::<char>::empty());
}

/// Every token is non-empty, free of whitespace and a contiguous piece of
/// the lowercased text.
pub proof fn law_tokens_are_blank_free_pieces(text: Seq<char>)
    ensures
        forall|i: int|
            0 <= i < tokenize_spec(text).len() ==> {
                &&& (#[trigger] tokenize_spec(text)[i]).len() > 0
                &&& no_whitespace(tokenize_spec(text)[i])
                &&& is_piece(unicode_lowercase(text), tokenize_spec(text)[i])
            },
{
    law_tokens_are_nonempty_words(text);
    law_tokens_are_pieces(text);
}

/// The throwaway label words, whatever their ASCII case once lowercased:
/// test, testing, junk, scratch, tmp, temp.
pub open spec fn ascii_throwaway_word(w: Seq<char>) -> bool {
    ||| w == "test"@
    ||| w == "testing"@
    ||| w == "junk"@
    ||| w == "scratch"@
    ||| w == "tmp"@
    ||| w == "temp"@
}

/// A label list is noise exactly when one of its labels, lowercased, is
/// test, testing, junk, scratch, tmp or temp.
pub proof fn law_noise_labels(labels: Seq<String>)
    ensures
        noise_label_spec(labels) <==> exists|i: int|
            0 <= i < labels.len() && {
                let w = unicode_lowercase(#[trigger] labels[i]@);
                ||| w == "test"@
                ||| w == "testing"@
                ||| w == "junk"@
                ||| w == "scratch"@
                ||| w == "tmp"@
                ||| w == "temp"@
            },
{
}

/// Content is noise when, once trimmed, it has fewer than ten bytes; when,
/// trimmed, it equals one of the throwaway phrases ignoring ASCII case
/// (test, testing 123, hello world, 测试中文, 测试内容, test content); and when
/// it is a session note about a test or a finding about a test.
pub proof fn law_noise_content(content: Seq<char>)
    ensures
        vstd::utf8::encode_utf8(trim_seq(content)).len() < 10 ==> noise_content_spec(content),
        eq_ignore_ascii_case_spec(trim_seq(content), "test"@) || eq_ignore_ascii_case_spec(
            trim_seq(content),
            "testing 123"@,
        ) || eq_ignore_ascii_case_spec(trim_seq(content), "hello world"@) || eq_ignore_ascii_case_spec(
            trim_seq(content),
            "测试中文"@,
        ) || eq_ignore_ascii_case_spec(trim_seq(content), "测试内容"@) || eq_ignore_ascii_case_spec(
            trim_seq(content),
            "test content"@,
        ) ==> noise_content_spec(content),
        starts_with_seq(unicode_lowercase(content), "[session]"@) && contains_seq(
            unicode_lowercase(content),
            "| accomplished: test"@,
        ) ==> noise_content_spec(content),
        starts_with_seq(unicode_lowercase(content), "[finding]"@) && contains_seq(
            unicode_lowercase(content),
            "| test"@,
        ) ==> noise_content_spec(content),
{
    let t = trim_seq(content);
    if eq_ignore_ascii_case_spec(t, "test"@) {
        assert(noise_phrase(0) == "test"@);
    } else if eq_ignore_ascii_case_spec(t, "testing 123"@) {
        assert(noise_phrase(1) == "testing 123"@);
    } else if eq_ignore_ascii_case_spec(t, "hello world"@) {
        assert(noise_phrase(2) == "hello world"@);
    } else if eq_ignore_ascii_case_spec(t, "测试中文"@) {
        assert(noise_phrase(3) == "测试中文"@);
    } else if eq_ignore_ascii_case_spec(t, "测试内容"@) {
        assert(noise_phrase(4) == "测试内容"@);
    } else if eq_ignore_ascii_case_spec(t, "test content"@) {
        assert(noise_phrase(5) == "test content"@);
    }
}

} // verus!
