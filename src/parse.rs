//! One line of a tree listing: normalising it, its depth, and the entry names on it.
use vstd::prelude::*;

use crate::paths::{absolute_in, looks_absolute, path_end, segment_in, segment_start};
use crate::text::{
    chars_of, count_vertical, count_vertical_in, drop_leading, drop_leading_window, find_from,
    find_in, in_class, is_connector, is_ws, is_connector_glyph, is_sep, lemma_skip_class_bounds,
    rfind_from, rfind_in, skip_class, skip_in, substring, trim, trim_end, trim_end_window,
    trim_window, CharClass,
};
use crate::validate::{valid_in, valid_name, Platform};

verus! {

/// Why a line gave no entry. Each of these skips the line and nothing more.
#[derive(Clone, Copy, PartialEq, Eq, Debug)]
pub enum ParseError {
    EmptyLine,
    EmptyAfterComment,
    NoNameFound,
    InvalidFilename,
}

/// `x` up to its first comment mark.
pub open spec fn strip_comment(x: Seq<char>) -> Seq<char> {
    x.take(skip_class(x, 0, CharClass::NotCommentMark))
}

/// A line without trailing whitespace and trailing comment.
pub open spec fn normalize(line: Seq<char>) -> Result<Seq<char>, ParseError> {
    let t = trim_end(line);
    if t.len() == 0 {
        Err(ParseError::EmptyLine)
    } else {
        let u = trim_end(strip_comment(t));
        if u.len() == 0 {
            Err(ParseError::EmptyAfterComment)
        } else {
            Ok(u)
        }
    }
}

/// The whitespace and connector glyphs that open `x`.
pub open spec fn indent_prefix(x: Seq<char>) -> Seq<char> {
    x.take(skip_class(x, 0, CharClass::IndentPrefix))
}

pub open spec fn has_connector(x: Seq<char>) -> bool {
    exists|k: int| 0 <= k < x.len() && is_connector(#[trigger] x[k])
}

/// How a listing encodes depth. One style is chosen for a whole run.
#[derive(Clone, Copy, PartialEq, Eq, Debug)]
pub enum IndentStyle {
    /// Each glyph with a vertical stroke in the leading tree drawing is one level.
    Connectors,
    /// Every four leading whitespace characters are one level.
    Spaces,
}

/// The depth of a normalised line in the given style.
pub open spec fn style_depth(x: Seq<char>, style: IndentStyle) -> nat {
    let p = indent_prefix(x);
    match style {
        IndentStyle::Connectors => count_vertical(p),
        IndentStyle::Spaces => p.len() / 4,
    }
}

/// The style that a line read on its own shows: connectors where its leading tree drawing
/// holds a connector glyph, spaces where only whitespace opens it.
pub open spec fn line_style(x: Seq<char>) -> IndentStyle {
    if has_connector(indent_prefix(x)) {
        IndentStyle::Connectors
    } else {
        IndentStyle::Spaces
    }
}

/// The nesting depth of a line read on its own, in the style that it shows.
pub open spec fn line_depth(x: Seq<char>) -> nat {
    style_depth(x, line_style(x))
}

/// `x` without the icons and whitespace at its start and without trailing whitespace.
pub open spec fn strip_icons(x: Seq<char>) -> Seq<char> {
    trim(drop_leading(x, CharClass::IconOrWhitespace))
}

/// The branch markers, the most specific first.
pub open spec fn marker(k: int) -> Seq<char> {
    if k == 0 {
        seq!['├', '─', '─', ' ']
    } else if k == 1 {
        seq!['└', '─', '─', ' ']
    } else if k == 2 {
        seq!['├', '─', ' ']
    } else if k == 3 {
        seq!['└', '─', ' ']
    } else if k == 4 {
        seq!['├', '─']
    } else {
        seq!['└', '─']
    }
}

/// How many branch markers there are.
pub const MARKER_COUNT: usize = 6;

/// What follows the first occurrence of the first marker, from the `k`-th on, that occurs
/// in `x`.
pub open spec fn after_marker(x: Seq<char>, k: int) -> Option<Seq<char>>
    decreases MARKER_COUNT - k,
{
    if k < 0 || k >= MARKER_COUNT {
        None
    } else if find_from(x, marker(k), 0) >= 0 {
        Some(x.skip(find_from(x, marker(k), 0) + marker(k).len()))
    } else {
        after_marker(x, k + 1)
    }
}

/// The text that names the entry on a normalised line: what follows a branch marker (it may
/// be empty), or, where there is none, the line without the tree drawing and icons that
/// open it, where anything is left.
pub open spec fn raw_candidate(x: Seq<char>) -> Option<Seq<char>> {
    match after_marker(x, 0) {
        Some(r) => Some(trim(r)),
        None => {
            let c = strip_icons(drop_leading(trim(x), CharClass::TreeDrawing));
            if c.len() > 0 {
                Some(c)
            } else {
                None
            }
        },
    }
}

/// An absolute path stands for its last segment, and is kept whole beside it.
pub open spec fn resolve_absolute(c: Seq<char>) -> (Seq<char>, Option<Seq<char>>) {
    if looks_absolute(c) && path_end(c) > 0 {
        (c.subrange(segment_start(c), path_end(c)), Some(c))
    } else {
        (c, None)
    }
}

/// The entry text on a line and, where the line held an absolute path, that path.
pub open spec fn candidate(x: Seq<char>) -> Option<(Seq<char>, Option<Seq<char>>)> {
    match raw_candidate(x) {
        Some(c) => Some(resolve_absolute(c)),
        None => None,
    }
}

/// `n` without a trailing size annotation such as ` (1.2 KB)`: the text from the last
/// ` (` on, where `n` ends with `B)`.
pub open spec fn strip_size(n: Seq<char>) -> Seq<char> {
    let k = rfind_from(n, seq![' ', '('], n.len() - 2);
    if k >= 0 && n.len() >= 2 && n[n.len() - 2] == 'B' && n[n.len() - 1] == ')' {
        trim(n.take(k))
    } else {
        n
    }
}

/// The entry text with icons and size removed, and whether it names a directory (it ended
/// with a path separator, which is removed).
pub open spec fn entry_text(c: Seq<char>) -> (Seq<char>, bool) {
    let m = strip_size(strip_icons(c));
    if m.len() > 0 && is_sep(m.last()) {
        (trim(m.drop_last()), true)
    } else {
        (m, false)
    }
}

/// The names that `n` lists, split at `&`, from index `start` on: each trimmed, empty
/// ones left out.
pub open spec fn split_from(n: Seq<char>, start: int) -> Seq<Seq<char>>
    decreases n.len() - start,
    via split_from_decreases
{
    if start < 0 || start > n.len() {
        seq![]
    } else {
        let i = skip_class(n, start, CharClass::NotAmpersand);
        let piece = trim(n.subrange(start, i));
        let rest = if i < n.len() {
            split_from(n, i + 1)
        } else {
            seq![]
        };
        if piece.len() > 0 {
            seq![piece] + rest
        } else {
            rest
        }
    }
}

#[via_fn]
proof fn split_from_decreases(n: Seq<char>, start: int) {
    if 0 <= start <= n.len() {
        lemma_skip_class_bounds(n, start, CharClass::NotAmpersand);
    }
}

/// An absolute path that ends with a separator names a directory.
pub open spec fn path_names_directory(h: Option<Seq<char>>) -> bool {
    match h {
        Some(p) => p.len() > 0 && is_sep(p.last()),
        None => false,
    }
}

/// The names that `n` lists, split at `&`.
pub open spec fn split_names(n: Seq<char>) -> Seq<Seq<char>> {
    split_from(n, 0)
}

/// Whether the window `s[lo..hi]` holds a connector glyph.
fn connector_in(s: &Vec<char>, lo: usize, hi: usize) -> (r: bool)
    requires
        lo <= hi <= s.len(),
    ensures
        r == has_connector(s@.subrange(lo as int, hi as int)),
{
    let ghost x = s@.subrange(lo as int, hi as int);
    let mut i: usize = lo;
    while i < hi
        invariant
            lo <= i <= hi <= s.len(),
            x == s@.subrange(lo as int, hi as int),
            forall|k: int| 0 <= k < i - lo ==> !is_connector(#[trigger] x[k]),
        decreases hi - i,
    {
        if is_connector_glyph(s[i]) {
            assert(is_connector(x[i - lo]));
            return true;
        }
        i = i + 1;
    }
    false
}

/// `style_depth` of the window `s[lo..hi]`; with no style given, in the style it shows.
fn depth_in(s: &Vec<char>, lo: usize, hi: usize, style: Option<IndentStyle>) -> (r: usize)
    requires
        lo <= hi <= s.len(),
    ensures
        r == match style {
            Some(st) => style_depth(s@.subrange(lo as int, hi as int), st),
            None => line_depth(s@.subrange(lo as int, hi as int)),
        },
{
    let ghost x = s@.subrange(lo as int, hi as int);
    let e = skip_in(s, lo, hi, CharClass::IndentPrefix);
    assert(s@.subrange(lo as int, e as int) =~= indent_prefix(x));
    let st = match style {
        Some(st) => st,
        None => if connector_in(s, lo, e) {
            IndentStyle::Connectors
        } else {
            IndentStyle::Spaces
        },
    };
    match st {
        IndentStyle::Connectors => count_vertical_in(s, lo, e),
        IndentStyle::Spaces => (e - lo) / 4,
    }
}

/// The depth of a line read on its own, as `line_depth` gives it.
pub fn calculate_indent(line: &str) -> (r: usize)
    ensures
        r == line_depth(line@),
{
    let v = chars_of(line);
    assert(v@.subrange(0, v@.len() as int) =~= v@);
    depth_in(&v, 0, v.len(), None)
}

/// `line` up to its first comment mark, without trailing whitespace.
pub fn remove_comments(line: &str) -> (r: &str)
    ensures
        r@ == trim_end(strip_comment(line@)),
{
    let v = chars_of(line);
    assert(v@.subrange(0, v@.len() as int) =~= v@);
    let cut = skip_in(&v, 0, v.len(), CharClass::NotCommentMark);
    let e = trim_end_window(&v, 0, cut);
    assert(v@.subrange(0, cut as int) =~= strip_comment(v@));
    line.substring_char(0, e)
}

/// `s` without the icons and whitespace at its start and without trailing whitespace.
pub fn strip_emoji_prefix(s: &str) -> (r: &str)
    ensures
        r@ == strip_icons(s@),
{
    let v = chars_of(s);
    assert(v@.subrange(0, v@.len() as int) =~= v@);
    let b = drop_leading_window(&v, 0, v.len(), CharClass::IconOrWhitespace);
    let (tb, te) = trim_window(&v, b, v.len());
    s.substring_char(tb, te)
}

fn marker_chars(k: usize) -> (m: Vec<char>)
    requires
        k < MARKER_COUNT,
    ensures
        m@ == marker(k as int),
{
    let m = if k == 0 {
        vec!['├', '─', '─', ' ']
    } else if k == 1 {
        vec!['└', '─', '─', ' ']
    } else if k == 2 {
        vec!['├', '─', ' ']
    } else if k == 3 {
        vec!['└', '─', ' ']
    } else if k == 4 {
        vec!['├', '─']
    } else {
        vec!['└', '─']
    };
    assert(m@ =~= marker(k as int));
    m
}

/// Where the text after a branch marker starts in the window `s[lo..hi]`.
fn after_marker_in(s: &Vec<char>, lo: usize, hi: usize) -> (r: Option<usize>)
    requires
        lo <= hi <= s.len(),
    ensures
        match r {
            Some(b) => lo <= b <= hi && after_marker(s@.subrange(lo as int, hi as int), 0) == Some(
                s@.subrange(b as int, hi as int),
            ),
            None => after_marker(s@.subrange(lo as int, hi as int), 0) is None,
        },
{
    let ghost x = s@.subrange(lo as int, hi as int);
    let mut k: usize = 0;
    while k < MARKER_COUNT
        invariant
            lo <= hi <= s.len(),
            x == s@.subrange(lo as int, hi as int),
            after_marker(x, 0) == after_marker(x, k as int),
        decreases MARKER_COUNT - k,
    {
        let m = marker_chars(k);
        match find_in(s, lo, hi, &m) {
            Some(i) => {
                assert(s@.subrange(i + m.len(), hi as int) =~= x.skip(i - lo + m.len()));
                return Some(i + m.len());
            },
            None => {},
        }
        k = k + 1;
    }
    None
}

/// `strip_icons` of the window `s[lo..hi]`.
fn strip_icons_window(s: &Vec<char>, lo: usize, hi: usize) -> (r: (usize, usize))
    requires
        lo <= hi <= s.len(),
    ensures
        lo <= r.0 <= r.1 <= hi,
        s@.subrange(r.0 as int, r.1 as int) == strip_icons(s@.subrange(lo as int, hi as int)),
{
    let b = drop_leading_window(s, lo, hi, CharClass::IconOrWhitespace);
    trim_window(s, b, hi)
}

/// `candidate` of the window `s[lo..hi]`: the window of the entry text and, for an
/// absolute path, the window of the whole path.
fn candidate_in(s: &Vec<char>, lo: usize, hi: usize) -> (r: Option<(usize, usize, Option<(usize, usize)>)>)
    requires
        lo <= hi <= s.len(),
    ensures
        match r {
            Some((a, b, h)) => lo <= a <= b <= hi && candidate(s@.subrange(lo as int, hi as int))
                == Some(
                (
                    s@.subrange(a as int, b as int),
                    match h {
                        Some((c, d)) => Some(s@.subrange(c as int, d as int)),
                        None => None::<Seq<char>>,
                    },
                ),
            ) && match h {
                Some((c, d)) => lo <= c <= d <= hi,
                None => true,
            },
            None => candidate(s@.subrange(lo as int, hi as int)) is None,
        },
{
    let ghost x = s@.subrange(lo as int, hi as int);
    let (cb, ce) = match after_marker_in(s, lo, hi) {
        Some(b) => trim_window(s, b, hi),
        None => {
            let (tb, te) = trim_window(s, lo, hi);
            let d = drop_leading_window(s, tb, te, CharClass::TreeDrawing);
            let (ib, ie) = strip_icons_window(s, d, te);
            if ib == ie {
                return None;
            }
            (ib, ie)
        },
    };
    let ghost c = s@.subrange(cb as int, ce as int);
    assert(raw_candidate(x) == Some(c));
    if absolute_in(s, cb, ce) {
        let (sb, se) = segment_in(s, cb, ce);
        if se > cb {
            assert(s@.subrange(sb as int, se as int) =~= c.subrange(sb - cb, se - cb));
            return Some((sb, se, Some((cb, ce))));
        }
    }
    Some((cb, ce, None))
}

/// The entry text on `line` and, where it is an absolute path, that path whole.
pub fn extract_name_from_line(line: &str) -> (r: Option<(String, Option<String>)>)
    ensures
        match r {
            Some((n, h)) => candidate(line@) == Some(
                (
                    n@,
                    match h {
                        Some(p) => Some(p@),
                        None => None::<Seq<char>>,
                    },
                ),
            ),
            None => candidate(line@) is None,
        },
{
    let v = chars_of(line);
    assert(v@.subrange(0, v@.len() as int) =~= v@);
    match candidate_in(&v, 0, v.len()) {
        Some((a, b, h)) => {
            let hint = match h {
                Some((c, d)) => Some(substring(line, c, d)),
                None => None,
            };
            Some((substring(line, a, b), hint))
        },
        None => None,
    }
}

/// `entry_text` of the window `s[lo..hi]`.
fn entry_in(s: &Vec<char>, lo: usize, hi: usize) -> (r: (usize, usize, bool))
    requires
        lo <= hi <= s.len(),
    ensures
        lo <= r.0 <= r.1 <= hi,
        entry_text(s@.subrange(lo as int, hi as int)) == (s@.subrange(r.0 as int, r.1 as int), r.2),
{
    let (mb, me) = strip_icons_window(s, lo, hi);
    let ghost m = s@.subrange(mb as int, me as int);
    let open_paren = vec![' ', '('];
    assert(open_paren@ =~= seq![' ', '(']);
    let (nb, ne) = match rfind_in(s, mb, me, &open_paren) {
        Some(k) => {
            if me - mb >= 2 && s[me - 2] == 'B' && s[me - 1] == ')' {
                assert(m[m.len() - 2] == s@[me - 2] && m[m.len() - 1] == s@[me - 1]);
                assert(s@.subrange(mb as int, k as int) =~= m.take(k - mb));
                trim_window(s, mb, k)
            } else {
                proof {
                    if m.len() >= 2 {
                        assert(m[m.len() - 2] == s@[me - 2] && m[m.len() - 1] == s@[me - 1]);
                    }
                }
                (mb, me)
            }
        },
        None => (mb, me),
    };
    let ghost n = s@.subrange(nb as int, ne as int);
    assert(n == strip_size(m));
    if ne > nb && (s[ne - 1] == '/' || s[ne - 1] == '\\') {
        assert(n.last() == s@[ne - 1]);
        assert(s@.subrange(nb as int, ne - 1) =~= n.drop_last());
        let (tb, te) = trim_window(s, nb, ne - 1);
        (tb, te, true)
    } else {
        proof {
            if n.len() > 0 {
                assert(n.last() == s@[ne - 1]);
            }
        }
        (nb, ne, false)
    }
}

/// `split_names` of the window `s[lo..hi]`, as windows of `s`.
fn split_in(s: &Vec<char>, lo: usize, hi: usize) -> (r: Vec<(usize, usize)>)
    requires
        lo <= hi <= s.len(),
    ensures
        r@.len() == split_names(s@.subrange(lo as int, hi as int)).len(),
        forall|k: int|
            0 <= k < r@.len() ==> lo <= (#[trigger] r@[k]).0 <= r@[k].1 <= hi && s@.subrange(
                r@[k].0 as int,
                r@[k].1 as int,
            ) == split_names(s@.subrange(lo as int, hi as int))[k],
{
    let ghost x = s@.subrange(lo as int, hi as int);
    let ghost mut got: Seq<Seq<char>> = seq![];
    let mut r: Vec<(usize, usize)> = Vec::new();
    let mut start: usize = lo;
    loop
        invariant
            lo <= start <= hi <= s.len(),
            x == s@.subrange(lo as int, hi as int),
            got.len() == r@.len(),
            forall|k: int|
                0 <= k < r@.len() ==> lo <= (#[trigger] r@[k]).0 <= r@[k].1 <= hi && s@.subrange(
                    r@[k].0 as int,
                    r@[k].1 as int,
                ) == got[k],
            got + split_from(x, start - lo) == split_names(x),
        decreases hi - start,
    {
        let mut i: usize = start;
        while i < hi && s[i] != '&'
            invariant
                lo <= start <= i <= hi <= s.len(),
                x == s@.subrange(lo as int, hi as int),
                skip_class(x, start - lo, CharClass::NotAmpersand) == skip_class(
                    x,
                    i - lo,
                    CharClass::NotAmpersand,
                ),
            decreases hi - i,
        {
            i = i + 1;
        }
        assert(s@.subrange(start as int, i as int) =~= x.subrange(start - lo, i - lo));
        let (pb, pe) = trim_window(s, start, i);
        let ghost rest = if i < hi {
            split_from(x, i - lo + 1)
        } else {
            seq![]
        };
        if pb < pe {
            r.push((pb, pe));
            proof {
                let piece = s@.subrange(pb as int, pe as int);
                assert(got.push(piece) + rest =~= got + (seq![piece] + rest));
                got = got.push(piece);
            }
        }
        if i == hi {
            assert(got + seq![] =~= got);
            return r;
        }
        start = i + 1;
    }
}

/// One parsed entry line: its depth, the names it lists, and whether they are directories.
#[derive(Debug)]
pub struct TreeNode {
    pub depth: usize,
    pub names: Vec<String>,
    pub is_dir: bool,
    pub line_number: usize,
}

pub struct NodeView {
    pub depth: nat,
    pub names: Seq<Seq<char>>,
    pub is_dir: bool,
    pub line_number: nat,
}

impl View for TreeNode {
    type V = NodeView;

    open spec fn view(&self) -> NodeView {
        NodeView {
            depth: self.depth as nat,
            names: self.names@.map_values(|n: String| n@),
            is_dir: self.is_dir,
            line_number: self.line_number as nat,
        }
    }
}

/// A parsed line and, where it named an absolute path, that path.
#[derive(Debug)]
pub struct ParsedLine {
    pub node: TreeNode,
    pub root_path: Option<String>,
}

pub open spec fn opt_view(o: Option<String>) -> Option<Seq<char>> {
    match o {
        Some(s) => Some(s@),
        None => None,
    }
}

impl View for ParsedLine {
    type V = (NodeView, Option<Seq<char>>);

    open spec fn view(&self) -> (NodeView, Option<Seq<char>>) {
        (self.node@, opt_view(self.root_path))
    }
}

/// The outcome of parsing line number `n` of a listing.
pub open spec fn parse_line(p: Platform, style: IndentStyle, line: Seq<char>, n: nat) -> Result<
    Option<(NodeView, Option<Seq<char>>)>,
    ParseError,
> {
    match normalize(line) {
        Err(e) => Err(e),
        Ok(t) => match candidate(t) {
            None => Err(ParseError::NoNameFound),
            Some(c) => {
                let entry = entry_text(c.0);
                let names = split_names(entry.0);
                if names.len() == 0 {
                    Ok(None)
                } else if exists|k: int| 0 <= k < names.len() && !valid_name(p, #[trigger] names[k]) {
                    Err(ParseError::InvalidFilename)
                } else {
                    Ok(
                        Some(
                            (
                                NodeView {
                                    depth: style_depth(t, style),
                                    names,
                                    is_dir: entry.1 || path_names_directory(c.1),
                                    line_number: n,
                                },
                                c.1,
                            ),
                        ),
                    )
                }
            },
        },
    }
}

pub open spec fn outcome_view(r: Result<Option<ParsedLine>, ParseError>) -> Result<
    Option<(NodeView, Option<Seq<char>>)>,
    ParseError,
> {
    match r {
        Ok(Some(p)) => Ok(Some(p@)),
        Ok(None) => Ok(None),
        Err(e) => Err(e),
    }
}

/// Parses line number `line_number` of a listing, reading its depth in `style`. `Ok(None)`
/// is a line whose names, split at `&`, are all empty: it is passed over without counting
/// as a failure.
pub fn parse_tree_line(
    line: &str,
    line_number: usize,
    platform: Platform,
    style: IndentStyle,
) -> (r: Result<Option<ParsedLine>, ParseError>)
    ensures
        outcome_view(r) == parse_line(platform, style, line@, line_number as nat),
{
    let v = chars_of(line);
    assert(v@.subrange(0, v@.len() as int) =~= v@);
    let e1 = trim_end_window(&v, 0, v.len());
    if e1 == 0 {
        return Err(ParseError::EmptyLine);
    }
    let cut = skip_in(&v, 0, e1, CharClass::NotCommentMark);
    assert(v@.subrange(0, cut as int) =~= strip_comment(v@.subrange(0, e1 as int)));
    let e2 = trim_end_window(&v, 0, cut);
    if e2 == 0 {
        return Err(ParseError::EmptyAfterComment);
    }
    let depth = depth_in(&v, 0, e2, Some(style));
    let (cb, ce, hint) = match candidate_in(&v, 0, e2) {
        Some(c) => c,
        None => {
            return Err(ParseError::NoNameFound);
        },
    };
    let (nb, ne, text_dir) = entry_in(&v, cb, ce);
    let is_dir = text_dir || match hint {
        Some((c, d)) => d > c && (v[d - 1] == '/' || v[d - 1] == '\\'),
        None => false,
    };
    let pieces = split_in(&v, nb, ne);
    let ghost names = split_names(v@.subrange(nb as int, ne as int));
    if pieces.len() == 0 {
        return Ok(None);
    }
    assert((exists|k: int| 0 <= k < names.len() && !valid_name(platform, #[trigger] names[k]))
        ==> parse_line(platform, style, line@, line_number as nat) == Err::<
        Option<(NodeView, Option<Seq<char>>)>,
        ParseError,
    >(ParseError::InvalidFilename));
    let mut k: usize = 0;
    while k < pieces.len()
        invariant
            (exists|k: int| 0 <= k < names.len() && !valid_name(platform, #[trigger] names[k]))
                ==> parse_line(platform, style, line@, line_number as nat) == Err::<
                Option<(NodeView, Option<Seq<char>>)>,
                ParseError,
            >(ParseError::InvalidFilename),
            k <= pieces@.len() == names.len(),
            forall|j: int|
                0 <= j < pieces@.len() ==> nb <= (#[trigger] pieces@[j]).0 <= pieces@[j].1 <= ne
                    && v@.subrange(pieces@[j].0 as int, pieces@[j].1 as int) == names[j],
            ne <= v.len(),
            forall|j: int| 0 <= j < k ==> valid_name(platform, #[trigger] names[j]),
        decreases pieces.len() - k,
    {
        let (a, b) = pieces[k];
        if !valid_in(&v, a, b, platform) {
            assert(!valid_name(platform, names[k as int]));
            return Err(ParseError::InvalidFilename);
        }
        k = k + 1;
    }
    let mut out: Vec<String> = Vec::new();
    let mut j: usize = 0;
    while j < pieces.len()
        invariant
            j <= pieces@.len() == names.len(),
            forall|i: int|
                0 <= i < pieces@.len() ==> nb <= (#[trigger] pieces@[i]).0 <= pieces@[i].1 <= ne
                    && v@.subrange(pieces@[i].0 as int, pieces@[i].1 as int) == names[i],
            ne <= v.len(),
            v@ == line@,
            out@.map_values(|n: String| n@) == names.take(j as int),
        decreases pieces.len() - j,
    {
        let (a, b) = pieces[j];
        let name = substring(line, a, b);
        assert(name@ == names[j as int]);
        let ghost prev = out@;
        out.push(name);
        assert(out@.map_values(|n: String| n@) =~= prev.map_values(|n: String| n@).push(
            names[j as int],
        ));
        assert(out@.map_values(|n: String| n@) =~= names.take(j + 1));
        j = j + 1;
    }
    assert(names.take(names.len() as int) =~= names);
    let root_path = match hint {
        Some((c, d)) => Some(substring(line, c, d)),
        None => None,
    };
    Ok(Some(ParsedLine { node: TreeNode { depth, names: out, is_dir, line_number }, root_path }))
}

proof fn lemma_skip_prefix(x: Seq<char>, p: Seq<char>, i: int)
    requires
        0 <= i <= p.len() <= x.len(),
        p == x.take(p.len() as int),
        forall|k: int| 0 <= k < p.len() ==> in_class(CharClass::IndentPrefix, #[trigger] p[k]),
        p.len() == x.len() || !in_class(CharClass::IndentPrefix, x[p.len() as int]),
    ensures
        skip_class(x, i, CharClass::IndentPrefix) == p.len(),
    decreases p.len() - i,
{
    if i < p.len() {
        assert(x[i] == p[i]);
        lemma_skip_prefix(x, p, i + 1);
    }
}

proof fn lemma_count_vertical_concat(x: Seq<char>, y: Seq<char>)
    ensures
        count_vertical(x + y) == count_vertical(x) + count_vertical(y),
    decreases y.len(),
{
    if y.len() > 0 {
        lemma_count_vertical_concat(x, y.drop_last());
        assert((x + y).drop_last() =~= x + y.drop_last());
    } else {
        assert(x + y =~= x);
    }
}

proof fn lemma_count_vertical_blank(w: Seq<char>)
    requires
        forall|k: int| 0 <= k < w.len() ==> is_ws(#[trigger] w[k]),
    ensures
        count_vertical(w) == 0,
    decreases w.len(),
{
    if w.len() > 0 {
        assert(is_ws(w[w.len() - 1]));
        lemma_count_vertical_blank(w.drop_last());
    }
}

/// A line whose leading tree drawing holds connector glyphs has as many levels as that
/// drawing holds glyphs with a vertical stroke, whatever whitespace stands between them.
pub proof fn lemma_depth_counts_vertical_glyphs(p: Seq<char>, r: Seq<char>)
    requires
        forall|k: int| 0 <= k < p.len() ==> in_class(CharClass::IndentPrefix, #[trigger] p[k]),
        has_connector(p),
        r.len() > 0,
        !in_class(CharClass::IndentPrefix, r[0]),
    ensures
        line_depth(p + r) == count_vertical(p),
        style_depth(p + r, IndentStyle::Connectors) == count_vertical(p),
{
    let x = p + r;
    assert(p =~= x.take(p.len() as int));
    lemma_skip_prefix(x, p, 0);
    assert(indent_prefix(x) =~= p);
}

/// Widening the whitespace inside the leading tree drawing of a line leaves its depth as
/// it is.
pub proof fn lemma_depth_ignores_whitespace(a: Seq<char>, w: Seq<char>, b: Seq<char>, r: Seq<char>)
    requires
        forall|k: int| 0 <= k < a.len() ==> in_class(CharClass::IndentPrefix, #[trigger] a[k]),
        forall|k: int| 0 <= k < b.len() ==> in_class(CharClass::IndentPrefix, #[trigger] b[k]),
        forall|k: int| 0 <= k < w.len() ==> is_ws(#[trigger] w[k]),
        has_connector(a + b),
        r.len() > 0,
        !in_class(CharClass::IndentPrefix, r[0]),
    ensures
        line_depth(a + w + b + r) == line_depth(a + b + r),
        style_depth(a + w + b + r, IndentStyle::Connectors) == style_depth(
            a + b + r,
            IndentStyle::Connectors,
        ),
{
    let p1 = a + w + b;
    let p2 = a + b;
    assert forall|k: int| 0 <= k < p1.len() implies in_class(CharClass::IndentPrefix, #[trigger] p1[k]) by {
        if k < a.len() {
            assert(p1[k] == a[k]);
        } else if k < a.len() + w.len() {
            assert(p1[k] == w[k - a.len()]);
        } else {
            assert(p1[k] == b[k - a.len() - w.len()]);
        }
    }
    assert forall|k: int| 0 <= k < p2.len() implies in_class(CharClass::IndentPrefix, #[trigger] p2[k]) by {
        if k < a.len() {
            assert(p2[k] == a[k]);
        } else {
            assert(p2[k] == b[k - a.len()]);
        }
    }
    let k0 = choose|k: int| 0 <= k < p2.len() && is_connector(#[trigger] p2[k]);
    if k0 < a.len() {
        assert(p1[k0] == p2[k0]);
    } else {
        assert(p1[k0 + w.len()] == p2[k0]);
    }
    assert(has_connector(p1));
    assert(a + w + b + r =~= p1 + r);
    assert(a + b + r =~= p2 + r);
    lemma_depth_counts_vertical_glyphs(p1, r);
    lemma_depth_counts_vertical_glyphs(p2, r);
    lemma_count_vertical_concat(a + w, b);
    lemma_count_vertical_concat(a, w);
    lemma_count_vertical_concat(a, b);
    lemma_count_vertical_blank(w);
}

/// Every name of a parsed node passes `valid_name` again: validation is a pure predicate of
/// the name and the platform, and a node holds no name that failed it.
pub proof fn lemma_parsed_names_revalidate(p: Platform, style: IndentStyle, line: Seq<char>, n: nat)
    requires
        parse_line(p, style, line, n) is Ok,
        parse_line(p, style, line, n)->Ok_0 is Some,
    ensures
        forall|k: int|
            0 <= k < parse_line(p, style, line, n)->Ok_0->Some_0.0.names.len() ==> valid_name(
                p,
                #[trigger] parse_line(p, style, line, n)->Ok_0->Some_0.0.names[k],
            ),
{
}

} // verus!
