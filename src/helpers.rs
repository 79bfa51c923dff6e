use vstd::prelude::*;
use vstd::string::StrSliceExecFns;

verus! {

/// Characters that may not appear in a file name on common file systems.
pub open spec fn is_reserved_char(c: char) -> bool {
    c == '/' || c == '\\' || c == ':' || c == '*' || c == '?' || c == '"' || c == '<' || c == '>'
        || c == '|'
}

/// The Unicode general category Cc: the C0 and C1 control codes and DEL.
pub open spec fn is_control_code(c: char) -> bool {
    ('\u{0}' <= c && c <= '\u{1f}') || ('\u{7f}' <= c && c <= '\u{9f}')
}

/// Whether a character has the Unicode White_Space property: the 25 code
/// points U+0009 to U+000D, U+0020, U+0085, U+00A0, U+1680, U+2000 to
/// U+200A, U+2028, U+2029, U+202F, U+205F and U+3000.
pub open spec fn white_space(c: char) -> bool {
    ('\u{9}' <= c && c <= '\u{d}') || c == ' ' || c == '\u{85}' || c == '\u{a0}' || c
        == '\u{1680}' || ('\u{2000}' <= c && c <= '\u{200a}') || c == '\u{2028}' || c
        == '\u{2029}' || c == '\u{202f}' || c == '\u{205f}' || c == '\u{3000}'
}

/// The character that stands for `c` in a sanitized file name.
pub open spec fn sanitize_char(c: char) -> char {
    if is_reserved_char(c) || is_control_code(c) {
        '_'
    } else {
        c
    }
}

/// Every character of `s` replaced by its sanitized form.
pub open spec fn sanitize_chars(s: Seq<char>) -> Seq<char> {
    s.map_values(|c: char| sanitize_char(c))
}

/// `s` without its leading and trailing white space, given as the bounds of
/// what is kept: `lo` is the first character that is not white space and `hi`
/// is one past the last.
pub open spec fn trim_bounds(s: Seq<char>, lo: int, hi: int) -> bool {
    &&& 0 <= lo <= hi <= s.len()
    &&& forall|i: int| 0 <= i < lo ==> white_space(#[trigger] s[i])
    &&& forall|i: int| hi <= i < s.len() ==> white_space(#[trigger] s[i])
    &&& lo < hi ==> !white_space(s[lo]) && !white_space(s[hi - 1])
    &&& lo == hi ==> lo == 0 && hi == 0 && forall|i: int| 0 <= i < s.len() ==> white_space(#[trigger] s[i])
}

/// `t` is `s` with its leading and trailing white space removed.
pub open spec fn is_trim_of(s: Seq<char>, t: Seq<char>) -> bool {
    exists|lo: int, hi: int| trim_bounds(s, lo, hi) && t == s.subrange(lo, hi)
}

/// The sanitized file name of `name`.
pub open spec fn is_sanitized_name(name: Seq<char>, r: Seq<char>) -> bool {
    is_trim_of(sanitize_chars(name), r)
}

fn is_white_space(c: char) -> (r: bool)
    ensures
        r == white_space(c),
{
    ('\u{9}' <= c && c <= '\u{d}') || c == ' ' || c == '\u{85}' || c == '\u{a0}' || c
        == '\u{1680}' || ('\u{2000}' <= c && c <= '\u{200a}') || c == '\u{2028}' || c
        == '\u{2029}' || c == '\u{202f}' || c == '\u{205f}' || c == '\u{3000}'
}

fn is_control(c: char) -> (r: bool)
    ensures
        r == is_control_code(c),
{
    ('\u{0}' <= c && c <= '\u{1f}') || ('\u{7f}' <= c && c <= '\u{9f}')
}

/// Relies on String::push: appends one character.
#[verifier::external_body]
pub(crate) fn push_char(s: &mut String, c: char)
    ensures
        final(s)@ == old(s)@.push(c),
{
    s.push(c)
}

fn sanitize_one(c: char) -> (r: char)
    ensures
        r == sanitize_char(c),
{
    if c == '/' || c == '\\' || c == ':' || c == '*' || c == '?' || c == '"' || c == '<' || c
        == '>' || c == '|' {
        '_'
    } else if is_control(c) {
        '_'
    } else {
        c
    }
}

/// Removes leading and trailing white space.
pub fn trim_white_space(s: &str) -> (r: String)
    ensures
        is_trim_of(s@, r@),
{
    let n = s.unicode_len();
    let mut lo: usize = 0;
    while lo < n && is_white_space(s.get_char(lo))
        invariant
            n == s@.len(),
            lo <= n,
            forall|i: int| 0 <= i < lo ==> white_space(#[trigger] s@[i]),
        decreases n - lo,
    {
        lo = lo + 1;
    }
    if lo == n {
        let r = String::new();
        assert(trim_bounds(s@, 0, 0));
        assert(r@ =~= s@.subrange(0, 0));
        return r;
    }
    let mut hi: usize = n;
    while hi > lo && is_white_space(s.get_char(hi - 1))
        invariant
            n == s@.len(),
            lo < n,
            !white_space(s@[lo as int]),
            lo < hi <= n,
            forall|i: int| hi <= i < n ==> white_space(#[trigger] s@[i]),
        decreases hi,
    {
        hi = hi - 1;
    }
    let r = s.substring_char(lo, hi).to_owned();
    assert(trim_bounds(s@, lo as int, hi as int));
    r
}

/// Replaces every character that a file name cannot hold by `_` and trims
/// white space from both ends.
pub fn sanitize_filename(name: &str) -> (r: String)
    ensures
        is_sanitized_name(name@, r@),
{
    let n = name.unicode_len();
    let mut mapped = String::new();
    let mut i: usize = 0;
    while i < n
        invariant
            n == name@.len(),
            i <= n,
            mapped@ =~= sanitize_chars(name@.subrange(0, i as int)),
        decreases n - i,
    {
        let c = sanitize_one(name.get_char(i));
        push_char(&mut mapped, c);
        i = i + 1;
        assert(name@.subrange(0, i as int) =~= name@.subrange(0, i - 1).push(name@[i - 1]));
    }
    assert(name@.subrange(0, n as int) =~= name@);
    trim_white_space(mapped.as_str())
}

} // verus!
