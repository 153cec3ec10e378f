//! Absolute paths written on the first line of a listing.
use vstd::prelude::*;

use crate::text::{back_class, back_in, chars_of, is_sep, substring, trim, trim_window, CharClass};

verus! {

pub open spec fn is_ascii_letter(c: char) -> bool {
    ('a' <= c && c <= 'z') || ('A' <= c && c <= 'Z')
}

/// A drive-letter path (`C:\` or `C:/`), a UNC path (`\\server`) or a path that starts
/// with `/`.
pub open spec fn looks_absolute(s: Seq<char>) -> bool {
    ||| s.len() >= 1 && s[0] == '/'
    ||| s.len() >= 2 && s[0] == '\\' && s[1] == '\\'
    ||| s.len() >= 3 && is_ascii_letter(s[0]) && s[1] == ':' && is_sep(s[2])
}

/// The end of `p` without its trailing separators.
pub open spec fn path_end(p: Seq<char>) -> int {
    back_class(p, p.len() as int, CharClass::Separator)
}

/// Where the last segment of `p` starts: just after the separator before it, or 0.
pub open spec fn segment_start(p: Seq<char>) -> int {
    back_class(p, path_end(p), CharClass::NotSeparator)
}

/// The last segment of `p`, trailing separators aside; none where `p` holds only separators.
pub open spec fn base_name(p: Seq<char>) -> Option<Seq<char>> {
    if path_end(p) == 0 {
        None
    } else {
        Some(p.subrange(segment_start(p), path_end(p)))
    }
}

/// `p` up to and including the separator before its last segment; none where the last
/// segment is all there is.
pub open spec fn parent_path(p: Seq<char>) -> Option<Seq<char>> {
    if segment_start(p) == 0 {
        None
    } else {
        Some(p.take(segment_start(p)))
    }
}

/// Whether the window `s[lo..hi]` meets `looks_absolute`.
pub fn absolute_in(s: &Vec<char>, lo: usize, hi: usize) -> (r: bool)
    requires
        lo <= hi <= s.len(),
    ensures
        r == looks_absolute(s@.subrange(lo as int, hi as int)),
{
    let ghost x = s@.subrange(lo as int, hi as int);
    let n = hi - lo;
    if n >= 1 && s[lo] == '/' {
        return true;
    }
    if n >= 2 && s[lo] == '\\' && s[lo + 1] == '\\' {
        return true;
    }
    if n >= 3 {
        let c = s[lo];
        let d = s[lo + 2];
        assert(x[0] == c && x[1] == s@[lo + 1] && x[2] == d);
        return (('a' <= c && c <= 'z') || ('A' <= c && c <= 'Z')) && s[lo + 1] == ':' && (d
            == '/' || d == '\\');
    }
    false
}

/// `(segment_start, path_end)` of the window `s[lo..hi]`, as indices into `s`.
pub fn segment_in(s: &Vec<char>, lo: usize, hi: usize) -> (r: (usize, usize))
    requires
        lo <= hi <= s.len(),
    ensures
        lo <= r.0 <= r.1 <= hi,
        r.0 - lo == segment_start(s@.subrange(lo as int, hi as int)),
        r.1 - lo == path_end(s@.subrange(lo as int, hi as int)),
{
    let ghost x = s@.subrange(lo as int, hi as int);
    let e = back_in(s, lo, hi, CharClass::Separator);
    let b = back_in(s, lo, e, CharClass::NotSeparator);
    proof {
        let y = s@.subrange(lo as int, e as int);
        assert(y =~= x.take(y.len() as int));
        lemma_back_class_prefix(x, y, e - lo, CharClass::NotSeparator);
    }
    (b, e)
}

/// Stepping back from `e` reads only the characters before `e`.
pub proof fn lemma_back_class_prefix(x: Seq<char>, y: Seq<char>, e: int, cls: CharClass)
    requires
        0 <= e <= y.len() <= x.len(),
        y == x.take(y.len() as int),
    ensures
        back_class(x, e, cls) == back_class(y, e, cls),
    decreases e,
{
    if e > 0 {
        lemma_back_class_prefix(x, y, e - 1, cls);
    }
}

/// Whether `s`, leading and trailing whitespace aside, is an absolute path.
pub fn is_absolute_path(s: &str) -> (r: bool)
    ensures
        r == looks_absolute(trim(s@)),
{
    let v = chars_of(s);
    assert(v@.subrange(0, v@.len() as int) =~= v@);
    let (b, e) = trim_window(&v, 0, v.len());
    absolute_in(&v, b, e)
}

/// The last segment of `path`, trailing separators aside.
pub fn extract_base_name(path: &str) -> (r: Option<String>)
    ensures
        match r {
            Some(b) => base_name(path@) == Some(b@),
            None => base_name(path@) is None,
        },
{
    let v = chars_of(path);
    assert(v@.subrange(0, v@.len() as int) =~= v@);
    let (b, e) = segment_in(&v, 0, v.len());
    if e == 0 {
        None
    } else {
        Some(substring(path, b, e))
    }
}

/// The directory that holds the last segment of `path`, with its final separator.
pub fn extract_parent_path(path: &str) -> (r: Option<String>)
    ensures
        match r {
            Some(p) => parent_path(path@) == Some(p@),
            None => parent_path(path@) is None,
        },
{
    let v = chars_of(path);
    assert(v@.subrange(0, v@.len() as int) =~= v@);
    let (b, _e) = segment_in(&v, 0, v.len());
    if b == 0 {
        None
    } else {
        let r = substring(path, 0, b);
        assert(r@ =~= path@.take(b as int));
        Some(r)
    }
}

} // verus!
