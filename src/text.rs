//! Character classes and scanning over windows of a line held as characters.
use vstd::prelude::*;

verus! {

broadcast use vstd::string::group_string_axioms;

/// Unicode `White_Space`, the set that `char::is_whitespace` and `str::trim` use.
pub open spec fn is_ws(c: char) -> bool {
    let u = c as u32;
    (0x09 <= u && u <= 0x0D) || u == 0x20 || u == 0x85 || u == 0xA0 || u == 0x1680
        || (0x2000 <= u && u <= 0x200A) || u == 0x2028 || u == 0x2029 || u == 0x202F
        || u == 0x205F || u == 0x3000
}

/// A box-drawing glyph used to draw the branches of a tree.
pub open spec fn is_connector(c: char) -> bool {
    c == '│' || c == '├' || c == '└' || c == '─' || c == '┬' || c == '┼'
}

/// A connector glyph with a vertical stroke: one of them stands for each level of nesting,
/// `│` for an enclosing level that is still open, `├` or `└` for the entry's own branch.
pub open spec fn is_vertical(c: char) -> bool {
    c == '│' || c == '├' || c == '└'
}

/// A decorative icon that may stand before an entry name.
pub open spec fn is_icon(c: char) -> bool {
    c == '📄' || c == '📁' || c == '📂' || c == '📃' || c == '📋' || c == '📝' || c == '🗂'
        || c == '🗃' || c == '📑' || c == '📊' || c == '📈' || c == '📉' || c == '✅'
        || c == '❌' || c == '⚠' || c == '🔴' || c == '🟢' || c == '🟡'
}

/// A character that starts a trailing comment: `#`, a status icon or an arrow.
pub open spec fn is_comment_mark(c: char) -> bool {
    c == '#' || c == '✅' || c == '❌' || c == '←' || c == '→'
}

/// A path separator of either platform.
pub open spec fn is_sep(c: char) -> bool {
    c == '/' || c == '\\'
}

/// The sets of characters that the scanners below step over.
#[derive(Clone, Copy, PartialEq, Eq, Debug)]
pub enum CharClass {
    Whitespace,
    /// Connector glyphs, space and tab.
    TreeDrawing,
    IconOrWhitespace,
    /// Whitespace and connector glyphs: what may stand before an entry name.
    IndentPrefix,
    Separator,
    NotSeparator,
    NotCommentMark,
    NotAmpersand,
    NotDot,
    NotNewline,
}

pub open spec fn in_class(cls: CharClass, c: char) -> bool {
    match cls {
        CharClass::Whitespace => is_ws(c),
        CharClass::TreeDrawing => is_connector(c) || c == ' ' || c == '\t',
        CharClass::IconOrWhitespace => is_icon(c) || is_ws(c),
        CharClass::IndentPrefix => is_ws(c) || is_connector(c),
        CharClass::Separator => is_sep(c),
        CharClass::NotSeparator => !is_sep(c),
        CharClass::NotCommentMark => !is_comment_mark(c),
        CharClass::NotAmpersand => c != '&',
        CharClass::NotDot => c != '.',
        CharClass::NotNewline => c != '\n',
    }
}

/// The first index at or after `i` whose character is not in `cls`, or `x.len()`.
pub open spec fn skip_class(x: Seq<char>, i: int, cls: CharClass) -> int
    decreases x.len() - i,
{
    if 0 <= i < x.len() && in_class(cls, x[i]) {
        skip_class(x, i + 1, cls)
    } else {
        i
    }
}

/// Steps back from `e` over characters in `cls`: the end of `x.take(e)` without them.
pub open spec fn back_class(x: Seq<char>, e: int, cls: CharClass) -> int
    decreases e,
{
    if 0 < e <= x.len() && in_class(cls, x[e - 1]) {
        back_class(x, e - 1, cls)
    } else {
        e
    }
}

/// `x` without the characters of `cls` at its start.
pub open spec fn drop_leading(x: Seq<char>, cls: CharClass) -> Seq<char> {
    x.skip(skip_class(x, 0, cls))
}

/// `x` without trailing whitespace, as `str::trim_end` gives it.
pub open spec fn trim_end(x: Seq<char>) -> Seq<char> {
    x.take(back_class(x, x.len() as int, CharClass::Whitespace))
}

/// `x` without leading and trailing whitespace, as `str::trim` gives it.
pub open spec fn trim(x: Seq<char>) -> Seq<char> {
    drop_leading(trim_end(x), CharClass::Whitespace)
}

/// The first index at or after `i` at which `m` occurs in `x`, or -1.
pub open spec fn find_from(x: Seq<char>, m: Seq<char>, i: int) -> int
    decreases x.len() + 1 - i,
{
    if i < 0 || i + m.len() > x.len() {
        -1
    } else if x.subrange(i, i + m.len()) == m {
        i
    } else {
        find_from(x, m, i + 1)
    }
}

/// The last index at or before `i` at which `m` occurs in `x`, or -1.
pub open spec fn rfind_from(x: Seq<char>, m: Seq<char>, i: int) -> int
    decreases i + 1,
{
    if i < 0 {
        -1
    } else if i + m.len() <= x.len() && x.subrange(i, i + m.len()) == m {
        i
    } else {
        rfind_from(x, m, i - 1)
    }
}

/// How many characters of `x` satisfy `is_vertical`.
pub open spec fn count_vertical(x: Seq<char>) -> nat
    decreases x.len(),
{
    if x.len() == 0 {
        0
    } else {
        count_vertical(x.drop_last()) + if is_vertical(x.last()) {
            1nat
        } else {
            0nat
        }
    }
}

pub fn is_whitespace(c: char) -> (r: bool)
    ensures
        r == is_ws(c),
{
    let u = c as u32;
    (0x09 <= u && u <= 0x0D) || u == 0x20 || u == 0x85 || u == 0xA0 || u == 0x1680 || (0x2000
        <= u && u <= 0x200A) || u == 0x2028 || u == 0x2029 || u == 0x202F || u == 0x205F || u
        == 0x3000
}

pub fn is_connector_glyph(c: char) -> (r: bool)
    ensures
        r == is_connector(c),
{
    c == '│' || c == '├' || c == '└' || c == '─' || c == '┬' || c == '┼'
}

pub fn is_icon_glyph(c: char) -> (r: bool)
    ensures
        r == is_icon(c),
{
    c == '📄' || c == '📁' || c == '📂' || c == '📃' || c == '📋' || c == '📝' || c == '🗂'
        || c == '🗃' || c == '📑' || c == '📊' || c == '📈' || c == '📉' || c == '✅'
        || c == '❌' || c == '⚠' || c == '🔴' || c == '🟢' || c == '🟡'
}

pub fn class_has(cls: CharClass, c: char) -> (r: bool)
    ensures
        r == in_class(cls, c),
{
    match cls {
        CharClass::Whitespace => is_whitespace(c),
        CharClass::TreeDrawing => is_connector_glyph(c) || c == ' ' || c == '\t',
        CharClass::IconOrWhitespace => is_icon_glyph(c) || is_whitespace(c),
        CharClass::IndentPrefix => is_whitespace(c) || is_connector_glyph(c),
        CharClass::Separator => c == '/' || c == '\\',
        CharClass::NotSeparator => !(c == '/' || c == '\\'),
        CharClass::NotCommentMark => !(c == '#' || c == '✅' || c == '❌' || c == '←' || c
            == '→'),
        CharClass::NotAmpersand => c != '&',
        CharClass::NotDot => c != '.',
        CharClass::NotNewline => c != '\n',
    }
}

/// The characters of `s`, in order.
pub fn chars_of(s: &str) -> (r: Vec<char>)
    ensures
        r@ == s@,
{
    let mut r: Vec<char> = Vec::new();
    for c in it: s.chars()
        invariant
            r@ == it.seq().take(it.index()),
            it.seq() == s@,
    {
        r.push(c);
    }
    r
}

/// Scans the window `s[lo..hi]` forward from its start over characters in `cls`.
pub fn skip_in(s: &Vec<char>, lo: usize, hi: usize, cls: CharClass) -> (r: usize)
    requires
        lo <= hi <= s.len(),
    ensures
        lo <= r <= hi,
        r - lo == skip_class(s@.subrange(lo as int, hi as int), 0, cls),
{
    let ghost x = s@.subrange(lo as int, hi as int);
    let mut i: usize = lo;
    while i < hi && class_has(cls, s[i])
        invariant
            lo <= i <= hi <= s.len(),
            x == s@.subrange(lo as int, hi as int),
            skip_class(x, 0, cls) == skip_class(x, i - lo, cls),
        decreases hi - i,
    {
        i = i + 1;
    }
    i
}

/// Scans the window `s[lo..hi]` backward from its end over characters in `cls`.
pub fn back_in(s: &Vec<char>, lo: usize, hi: usize, cls: CharClass) -> (r: usize)
    requires
        lo <= hi <= s.len(),
    ensures
        lo <= r <= hi,
        r - lo == back_class(s@.subrange(lo as int, hi as int), hi - lo, cls),
{
    let ghost x = s@.subrange(lo as int, hi as int);
    let mut e: usize = hi;
    while e > lo && class_has(cls, s[e - 1])
        invariant
            lo <= e <= hi <= s.len(),
            x == s@.subrange(lo as int, hi as int),
            back_class(x, hi - lo, cls) == back_class(x, e - lo, cls),
        decreases e,
    {
        e = e - 1;
    }
    e
}

/// The window `s[lo..hi]` without its trailing whitespace.
pub fn trim_end_window(s: &Vec<char>, lo: usize, hi: usize) -> (r: usize)
    requires
        lo <= hi <= s.len(),
    ensures
        lo <= r <= hi,
        s@.subrange(lo as int, r as int) == trim_end(s@.subrange(lo as int, hi as int)),
{
    let e = back_in(s, lo, hi, CharClass::Whitespace);
    assert(s@.subrange(lo as int, e as int) =~= s@.subrange(lo as int, hi as int).take(e - lo));
    e
}

/// The window `s[lo..hi]` without the characters of `cls` at its start.
pub fn drop_leading_window(s: &Vec<char>, lo: usize, hi: usize, cls: CharClass) -> (r: usize)
    requires
        lo <= hi <= s.len(),
    ensures
        lo <= r <= hi,
        s@.subrange(r as int, hi as int) == drop_leading(s@.subrange(lo as int, hi as int), cls),
{
    let b = skip_in(s, lo, hi, cls);
    assert(s@.subrange(b as int, hi as int) =~= s@.subrange(lo as int, hi as int).skip(b - lo));
    b
}

/// The window `s[lo..hi]` without leading and trailing whitespace.
pub fn trim_window(s: &Vec<char>, lo: usize, hi: usize) -> (r: (usize, usize))
    requires
        lo <= hi <= s.len(),
    ensures
        lo <= r.0 <= r.1 <= hi,
        s@.subrange(r.0 as int, r.1 as int) == trim(s@.subrange(lo as int, hi as int)),
{
    let e = trim_end_window(s, lo, hi);
    let b = drop_leading_window(s, lo, e, CharClass::Whitespace);
    (b, e)
}

/// Whether `m` occurs in `s` at index `i`.
pub fn occurs_at(s: &Vec<char>, i: usize, m: &Vec<char>) -> (r: bool)
    requires
        i + m.len() <= s.len(),
    ensures
        r == (s@.subrange(i as int, i + m.len()) == m@),
{
    let mut k: usize = 0;
    while k < m.len()
        invariant
            i + m.len() <= s.len(),
            k <= m.len(),
            forall|j: int| 0 <= j < k ==> s@[i + j] == m@[j],
        decreases m.len() - k,
    {
        if s[i + k] != m[k] {
            assert(s@.subrange(i as int, i + m.len())[k as int] != m@[k as int]);
            return false;
        }
        k = k + 1;
    }
    assert(s@.subrange(i as int, i + m.len()) =~= m@);
    true
}

/// The first occurrence of `m` in the window `s[lo..hi]`.
pub fn find_in(s: &Vec<char>, lo: usize, hi: usize, m: &Vec<char>) -> (r: Option<usize>)
    requires
        lo <= hi <= s.len(),
    ensures
        match r {
            Some(i) => lo <= i && i + m.len() <= hi && i - lo == find_from(
                s@.subrange(lo as int, hi as int),
                m@,
                0,
            ),
            None => find_from(s@.subrange(lo as int, hi as int), m@, 0) == -1,
        },
{
    let ghost x = s@.subrange(lo as int, hi as int);
    if m.len() == 0 {
        assert(x.subrange(0, 0) =~= m@);
        return Some(lo);
    }
    let mut i: usize = lo;
    while i <= hi && m.len() <= hi - i
        invariant
            lo <= i,
            m.len() > 0,
            lo <= hi <= s.len(),
            x == s@.subrange(lo as int, hi as int),
            find_from(x, m@, 0) == find_from(x, m@, i - lo),
        decreases hi + 1 - i,
    {
        if occurs_at(s, i, m) {
            assert(x.subrange(i - lo, i - lo + m.len()) =~= s@.subrange(i as int, i + m.len()));
            return Some(i);
        }
        assert(x.subrange(i - lo, i - lo + m.len()) =~= s@.subrange(i as int, i + m.len()));
        i = i + 1;
    }
    None
}

/// The last occurrence of `m` in the window `s[lo..hi]`.
pub fn rfind_in(s: &Vec<char>, lo: usize, hi: usize, m: &Vec<char>) -> (r: Option<usize>)
    requires
        lo <= hi <= s.len(),
    ensures
        match r {
            Some(i) => lo <= i && i + m.len() <= hi && i - lo == rfind_from(
                s@.subrange(lo as int, hi as int),
                m@,
                hi - lo - m.len(),
            ),
            None => rfind_from(s@.subrange(lo as int, hi as int), m@, hi - lo - m.len()) == -1,
        },
{
    let ghost x = s@.subrange(lo as int, hi as int);
    if m.len() > hi - lo {
        return None;
    }
    let mut i: usize = hi - m.len();
    loop
        invariant
            lo <= i,
            i + m.len() <= hi <= s.len(),
            x == s@.subrange(lo as int, hi as int),
            rfind_from(x, m@, hi - lo - m.len()) == rfind_from(x, m@, i - lo),
        decreases i,
    {
        assert(x.subrange(i - lo, i - lo + m.len()) =~= s@.subrange(i as int, i + m.len()));
        if occurs_at(s, i, m) {
            return Some(i);
        }
        if i == lo {
            assert(rfind_from(x, m@, -1) == -1);
            return None;
        }
        i = i - 1;
    }
}

/// How many characters of the window `s[lo..hi]` satisfy `is_vertical`.
pub fn count_vertical_in(s: &Vec<char>, lo: usize, hi: usize) -> (r: usize)
    requires
        lo <= hi <= s.len(),
    ensures
        r == count_vertical(s@.subrange(lo as int, hi as int)),
{
    let mut n: usize = 0;
    let mut i: usize = lo;
    while i < hi
        invariant
            lo <= i <= hi <= s.len(),
            n == count_vertical(s@.subrange(lo as int, i as int)),
            n <= i - lo,
        decreases hi - i,
    {
        assert(s@.subrange(lo as int, i + 1).drop_last() =~= s@.subrange(lo as int, i as int));
        let c = s[i];
        if c == '│' || c == '├' || c == '└' {
            n = n + 1;
        }
        i = i + 1;
    }
    n
}

/// The text of `line` between character indices `lo` and `hi`.
pub fn substring(line: &str, lo: usize, hi: usize) -> (r: String)
    requires
        lo <= hi <= line@.len(),
    ensures
        r@ == line@.subrange(lo as int, hi as int),
{
    line.substring_char(lo, hi).to_owned()
}

/// The scan forward from `i` stops inside `x`, at or after `i`.
pub proof fn lemma_skip_class_bounds(x: Seq<char>, i: int, cls: CharClass)
    requires
        0 <= i <= x.len(),
    ensures
        i <= skip_class(x, i, cls) <= x.len(),
    decreases x.len() - i,
{
    if i < x.len() && in_class(cls, x[i]) {
        lemma_skip_class_bounds(x, i + 1, cls);
    }
}

} // verus!
