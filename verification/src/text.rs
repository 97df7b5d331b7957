//! String helpers shared across the service.

use vstd::prelude::*;
use vstd::string::StringSliceAdditionalSpecFns;
use vstd::utf8::*;

verus! {

broadcast use vstd::utf8::group_utf8_lib;

/// The largest byte index `k <= max` that is a character boundary of `bytes`.
pub open spec fn boundary_at_or_below(bytes: Seq<u8>, max: int) -> int
    decreases max,
{
    if max <= 0 {
        0
    } else if is_char_boundary(bytes, max) {
        max
    } else {
        boundary_at_or_below(bytes, max - 1)
    }
}

/// The cut that [`truncate_str`] makes below `max` is the longest prefix
/// ending on a character boundary: it is at most `max`, it is a boundary,
/// and no index above it up to `max` is one.
pub proof fn law_truncation_is_longest_boundary(bytes: Seq<u8>, max: int)
    requires
        valid_utf8(bytes),
        0 <= max <= bytes.len(),
    ensures
        0 <= boundary_at_or_below(bytes, max) <= max,
        is_char_boundary(bytes, boundary_at_or_below(bytes, max)),
        forall|k: int|
            boundary_at_or_below(bytes, max) < k <= max ==> !is_char_boundary(bytes, k),
    decreases max,
{
    if max > 0 && !is_char_boundary(bytes, max) {
        law_truncation_is_longest_boundary(bytes, max - 1);
    }
}

/// Truncate `s` to at most `max_bytes` UTF-8 bytes without splitting a
/// multi-byte character: the result is the longest prefix of `s` that fits.
pub fn truncate_str(s: &str, max_bytes: usize) -> (r: &str)
    ensures
        s.len() <= max_bytes ==> r@ == s@,
        s.len() > max_bytes ==> r.spec_bytes() == s.spec_bytes().subrange(
            0,
            boundary_at_or_below(s.spec_bytes(), max_bytes as int),
        ),
{
    if s.len() <= max_bytes {
        return s;
    }
    let mut end = max_bytes;
    while end > 0 && !s.is_char_boundary(end)
        invariant
            end <= max_bytes,
            max_bytes < s.len(),
            s.len() <= s.spec_bytes().len(),
            boundary_at_or_below(s.spec_bytes(), end as int) == boundary_at_or_below(
                s.spec_bytes(),
                max_bytes as int,
            ),
        decreases end,
    {
        end -= 1;
    }
    proof {
        encode_utf8_valid_utf8(s@);
    }
    let (head, _tail) = s.split_at(end);
    head
}


/// The plain text html2text renders from HTML at a line width, or `None`
/// where it reports an error.
pub uninterp spec fn html_plain_text(html: Seq<char>, width: usize) -> Option<Seq<char>>;

/// Calls `html2text::from_read` on the UTF-8 bytes of `html`; `None` stands
/// for its error (a width of 0 gives its `TooNarrow` error). Control
/// characters do not reach the `unwrap` of a character width in
/// `render/text_renderer.rs` (`flush_word_hard_wrap`): the word buffer it
/// walks is filled only by `add_text`, which pushes a character only where
/// `UnicodeWidthChar::width` gives it a width and drops it otherwise. The
/// other `panic!` and `unreachable!` sites of the renderer guard node kinds
/// that their surrounding match has fixed. No input is left out, and that
/// the call returns is not proved.
#[verifier::external_body]
fn html_to_text(html: &str, width: usize) -> (r: Option<String>)
    ensures
        match r {
            Some(t) => html_plain_text(html@, width) == Some(t@),
            None => html_plain_text(html@, width) is None,
        },
{
    html2text::from_read(html.as_bytes(), width).ok()
}

/// Plain text of an HTML string: markup removed or rendered as light
/// markdown, script and style contents dropped, entities decoded, lines up
/// to 10000 columns; the input itself when it cannot be rendered.
pub fn strip_html(s: &str) -> (r: String)
    ensures
        r@ == match html_plain_text(s@, 10000) {
            Some(t) => t,
            None => s@,
        },
{
    match html_to_text(s, 10000) {
        Some(t) => t,
        None => s.to_owned(),
    }
}

} // verus!
