//! Whether a name can stand as one file or directory name on the target platform.
use vstd::prelude::*;

use crate::text::{chars_of, skip_in, trim, trim_window, CharClass};

verus! {

/// The set of filename rules that a run applies, chosen once at startup.
#[derive(Clone, Copy, PartialEq, Eq, Debug)]
pub enum Platform {
    Windows,
    Posix,
}

/// Bytes that `c` takes in UTF-8.
pub open spec fn utf8_width(c: char) -> nat {
    let u = c as u32;
    if u < 0x80 {
        1
    } else if u < 0x800 {
        2
    } else if u < 0x10000 {
        3
    } else {
        4
    }
}

/// Bytes that `x` takes in UTF-8.
pub open spec fn utf8_len(x: Seq<char>) -> nat
    decreases x.len(),
{
    if x.len() == 0 {
        0
    } else {
        utf8_len(x.drop_last()) + utf8_width(x.last())
    }
}

/// Unicode general category `Cc`, the set that `char::is_control` uses.
pub open spec fn is_control(c: char) -> bool {
    let u = c as u32;
    u <= 0x1F || (0x7F <= u && u <= 0x9F)
}

/// A character that a Windows file name cannot hold.
pub open spec fn is_windows_forbidden(c: char) -> bool {
    c == '<' || c == '>' || c == ':' || c == '"' || c == '/' || c == '\\' || c == '|' || c == '?'
        || c == '*'
}

/// `c` is the letter `w` or, where `w` is an upper-case ASCII letter, its lower case.
pub open spec fn same_letter(c: char, w: char) -> bool {
    c == w || ('A' <= w && w <= 'Z' && c as u32 == w as u32 + 32)
}

/// `x` equals the upper-case ASCII word `w`, ignoring case.
pub open spec fn same_ignoring_case(x: Seq<char>, w: Seq<char>) -> bool {
    x.len() == w.len() && forall|k: int| 0 <= k < x.len() ==> same_letter(#[trigger] x[k], w[k])
}

/// `CON`, `PRN`, `AUX`, `NUL`, `COM1` to `COM9` or `LPT1` to `LPT9`, in any case.
/// Only an ASCII letter upper-cases to a letter of these names, so ASCII case folding
/// decides this exactly as full Unicode upper-casing would.
pub open spec fn is_reserved_device(b: Seq<char>) -> bool {
    ||| same_ignoring_case(b, seq!['C', 'O', 'N'])
    ||| same_ignoring_case(b, seq!['P', 'R', 'N'])
    ||| same_ignoring_case(b, seq!['A', 'U', 'X'])
    ||| same_ignoring_case(b, seq!['N', 'U', 'L'])
    ||| b.len() == 4 && '1' <= b[3] && b[3] <= '9' && (same_ignoring_case(
        b.take(3),
        seq!['C', 'O', 'M'],
    ) || same_ignoring_case(b.take(3), seq!['L', 'P', 'T']))
}

/// The part of `t` before its first `.`.
pub open spec fn stem(t: Seq<char>) -> Seq<char> {
    t.take(crate::text::skip_class(t, 0, CharClass::NotDot))
}

/// The rules that a name must meet to be created as one entry. Its length is measured in
/// UTF-8 bytes, once trimmed.
pub open spec fn valid_name(p: Platform, x: Seq<char>) -> bool {
    let t = trim(x);
    &&& 1 <= utf8_len(t) <= 255
    &&& t.len() > 0
    &&& forall|k: int| 0 <= k < x.len() ==> #[trigger] x[k] != '\0'
    &&& forall|k: int| 0 <= k < x.len() && is_control(#[trigger] x[k]) ==> x[k] == '\t'
    &&& match p {
        Platform::Windows => {
            &&& !is_reserved_device(stem(t))
            &&& forall|k: int| 0 <= k < x.len() ==> !is_windows_forbidden(#[trigger] x[k])
            &&& x.last() != ' ' && x.last() != '.'
        },
        Platform::Posix => forall|k: int| 0 <= k < x.len() ==> #[trigger] x[k] != '/',
    }
}

fn same_letter_of(c: char, w: char) -> (r: bool)
    ensures
        r == same_letter(c, w),
{
    c == w || ('A' <= w && w <= 'Z' && c as u32 == w as u32 + 32)
}

fn same_word(s: &Vec<char>, lo: usize, hi: usize, w0: char, w1: char, w2: char) -> (r: bool)
    requires
        lo <= hi <= s.len(),
    ensures
        r == same_ignoring_case(s@.subrange(lo as int, hi as int), seq![w0, w1, w2]),
{
    let ghost x = s@.subrange(lo as int, hi as int);
    if hi - lo != 3 {
        return false;
    }
    let r = same_letter_of(s[lo], w0) && same_letter_of(s[lo + 1], w1) && same_letter_of(s[lo + 2], w2);
    assert(x[0] == s@[lo as int] && x[1] == s@[lo + 1] && x[2] == s@[lo + 2]);
    r
}

fn reserved_in(s: &Vec<char>, lo: usize, hi: usize) -> (r: bool)
    requires
        lo <= hi <= s.len(),
    ensures
        r == is_reserved_device(s@.subrange(lo as int, hi as int)),
{
    let ghost b = s@.subrange(lo as int, hi as int);
    if same_word(s, lo, hi, 'C', 'O', 'N') || same_word(s, lo, hi, 'P', 'R', 'N') || same_word(
        s,
        lo,
        hi,
        'A',
        'U',
        'X',
    ) || same_word(s, lo, hi, 'N', 'U', 'L') {
        return true;
    }
    if hi - lo != 4 {
        return false;
    }
    let d = s[lo + 3];
    assert(b.take(3) =~= s@.subrange(lo as int, lo + 3));
    '1' <= d && d <= '9' && (same_word(s, lo, lo + 3, 'C', 'O', 'M') || same_word(
        s,
        lo,
        lo + 3,
        'L',
        'P',
        'T',
    ))
}

fn utf8_width_of(c: char) -> (r: usize)
    ensures
        r == utf8_width(c),
{
    let u = c as u32;
    if u < 0x80 {
        1
    } else if u < 0x800 {
        2
    } else if u < 0x10000 {
        3
    } else {
        4
    }
}

proof fn lemma_utf8_len_grows(x: Seq<char>, i: int, j: int)
    requires
        0 <= i <= j <= x.len(),
    ensures
        utf8_len(x.take(i)) <= utf8_len(x.take(j)),
    decreases j - i,
{
    if i < j {
        lemma_utf8_len_grows(x, i, j - 1);
        assert(x.take(j).drop_last() =~= x.take(j - 1));
    }
}

/// Whether the window `s[lo..hi]` meets `valid_name`.
pub fn valid_in(s: &Vec<char>, lo: usize, hi: usize, p: Platform) -> (r: bool)
    requires
        lo <= hi <= s.len(),
    ensures
        r == valid_name(p, s@.subrange(lo as int, hi as int)),
{
    let ghost x = s@.subrange(lo as int, hi as int);
    let (tb, te) = trim_window(s, lo, hi);
    let ghost t = trim(x);
    if tb == te {
        return false;
    }
    let mut i: usize = lo;
    while i < hi
        invariant
            lo <= i <= hi <= s.len(),
            x == s@.subrange(lo as int, hi as int),
            forall|k: int| 0 <= k < i - lo ==> #[trigger] x[k] != '\0',
            forall|k: int| 0 <= k < i - lo && is_control(#[trigger] x[k]) ==> x[k] == '\t',
            forall|k: int|
                0 <= k < i - lo ==> match p {
                    Platform::Windows => !is_windows_forbidden(#[trigger] x[k]),
                    Platform::Posix => x[k] != '/',
                },
        decreases hi - i,
    {
        let c = s[i];
        assert(x[i - lo] == c);
        let u = c as u32;
        if u == 0 || ((u <= 0x1F || (0x7F <= u && u <= 0x9F)) && c != '\t') {
            return false;
        }
        let bad = match p {
            Platform::Windows => c == '<' || c == '>' || c == ':' || c == '"' || c == '/' || c
                == '\\' || c == '|' || c == '?' || c == '*',
            Platform::Posix => c == '/',
        };
        if bad {
            return false;
        }
        i = i + 1;
    }
    let mut bytes: usize = 0;
    let mut j: usize = tb;
    while j < te
        invariant
            lo <= tb <= j <= te <= hi <= s.len(),
            t == s@.subrange(tb as int, te as int),
            t == trim(x),
            x == s@.subrange(lo as int, hi as int),
            bytes == utf8_len(t.take(j - tb)),
            bytes <= 255,
        decreases te - j,
    {
        let c = s[j];
        assert(t.take(j - tb + 1).drop_last() =~= t.take(j - tb));
        assert(t[j - tb] == c);
        bytes = bytes + utf8_width_of(c);
        if bytes > 255 {
            proof {
                lemma_utf8_len_grows(t, j - tb + 1, t.len() as int);
                assert(t.take(t.len() as int) =~= t);
            }
            return false;
        }
        j = j + 1;
    }
    assert(t.take(t.len() as int) =~= t);
    match p {
        Platform::Windows => {
            let dot = skip_in(s, tb, te, CharClass::NotDot);
            assert(s@.subrange(tb as int, dot as int) =~= t.take(dot - tb));
            if reserved_in(s, tb, dot) {
                return false;
            }
            let last = s[hi - 1];
            assert(x.last() == last);
            last != ' ' && last != '.'
        },
        Platform::Posix => true,
    }
}

/// Whether `name` can be created as one file or directory on `platform`.
pub fn is_valid_filename(name: &str, platform: Platform) -> (r: bool)
    ensures
        r == valid_name(platform, name@),
{
    let s = chars_of(name);
    assert(s@.subrange(0, s@.len() as int) =~= s@);
    valid_in(&s, 0, s.len(), platform)
}

} // verus!
