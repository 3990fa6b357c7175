//! Whitespace and blank strings, as the keycode rules use them.

use vstd::prelude::*;

verus! {

/// The characters with the Unicode `White_Space` property.
pub open spec fn is_white_space(c: char) -> bool {
    ('\u{9}' <= c && c <= '\u{d}') || c == ' ' || c == '\u{85}' || c == '\u{a0}'
        || c == '\u{1680}' || ('\u{2000}' <= c && c <= '\u{200a}') || c == '\u{2028}'
        || c == '\u{2029}' || c == '\u{202f}' || c == '\u{205f}' || c == '\u{3000}'
}

/// A string is blank when it is empty or holds whitespace only, that is when
/// nothing is left of it once surrounding whitespace is trimmed.
pub open spec fn blank(s: Seq<char>) -> bool {
    forall|k: int| 0 <= k < s.len() ==> is_white_space(#[trigger] s[k])
}

/// `t` is `s` with its leading and trailing whitespace removed: it is the
/// part of `s` between positions `i` and `j`, with whitespace only outside
/// it, and it neither starts nor ends with whitespace.
pub open spec fn trimmed_at(s: Seq<char>, t: Seq<char>, i: int, j: int) -> bool {
    &&& 0 <= i <= j <= s.len()
    &&& t == s.subrange(i, j)
    &&& forall|k: int| 0 <= k < i ==> is_white_space(#[trigger] s[k])
    &&& forall|k: int| j <= k < s.len() ==> is_white_space(#[trigger] s[k])
    &&& i < j ==> !is_white_space(s[i]) && !is_white_space(s[j - 1])
}

/// `t` is `s` with its leading and trailing whitespace removed.
pub open spec fn trimmed(s: Seq<char>, t: Seq<char>) -> bool {
    exists|i: int, j: int| trimmed_at(s, t, i, j)
}

/// Relies on `str::trim`: the result is the part of `s` left once leading and
/// trailing `White_Space` characters are removed.
#[verifier::external_body]
fn trim(s: &str) -> (r: &str)
    ensures
        trimmed(s@, r@),
{
    s.trim()
}

/// Tells whether `s` is blank.
pub fn is_blank(s: &str) -> (r: bool)
    ensures
        r == blank(s@),
{
    let t = trim(s);
    let r = t.is_empty();
    proof {
        let (i, j) = choose|i: int, j: int| trimmed_at(s@, t@, i, j);
        if !r {
            assert(!is_white_space(s@[i]));
        }
    }
    r
}

} // verus!
