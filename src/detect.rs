//! Splitting text into lines, and telling a tree listing from other text.
use vstd::prelude::*;

use crate::text::{chars_of, is_connector, is_ws, lemma_skip_class_bounds, skip_class, substring, CharClass};

verus! {

broadcast use vstd::string::group_string_axioms;

/// The lines of `s` from index `start` on, as `str::lines` gives them: split at `\n`, one
/// trailing `\r` removed from each, and no empty line after a final `\n`.
pub open spec fn lines_from(s: Seq<char>, start: int) -> Seq<Seq<char>>
    decreases s.len() - start,
    via lines_from_decreases
{
    if start < 0 || start >= s.len() {
        seq![]
    } else {
        let i = skip_class(s, start, CharClass::NotNewline);
        let raw = s.subrange(start, i);
        let line = if raw.len() > 0 && raw.last() == '\r' {
            raw.drop_last()
        } else {
            raw
        };
        let rest = if i < s.len() {
            lines_from(s, i + 1)
        } else {
            seq![]
        };
        seq![line] + rest
    }
}

#[via_fn]
proof fn lines_from_decreases(s: Seq<char>, start: int) {
    if 0 <= start < s.len() {
        lemma_skip_class_bounds(s, start, CharClass::NotNewline);
    }
}

pub open spec fn lines_of(s: Seq<char>) -> Seq<Seq<char>> {
    lines_from(s, 0)
}

/// A line that starts with whitespace and holds something else.
pub open spec fn is_indented(l: Seq<char>) -> bool {
    l.len() > 0 && is_ws(l[0]) && exists|k: int| 0 <= k < l.len() && !is_ws(#[trigger] l[k])
}

/// How many of `ls` are indented.
pub open spec fn count_indented(ls: Seq<Seq<char>>) -> nat
    decreases ls.len(),
{
    if ls.len() == 0 {
        0
    } else {
        count_indented(ls.drop_last()) + if is_indented(ls.last()) {
            1nat
        } else {
            0nat
        }
    }
}

/// Plausibly a tree listing: two lines or more with a connector glyph somewhere, or,
/// without one, at least two indented lines after the first.
pub open spec fn tree_like(s: Seq<char>) -> bool {
    let ls = lines_of(s);
    if exists|k: int| 0 <= k < s.len() && is_connector(#[trigger] s[k]) {
        ls.len() >= 2
    } else {
        ls.len() >= 2 && count_indented(ls.skip(1)) >= 2
    }
}

/// The lines of `content`.
pub fn split_lines(content: &str) -> (r: Vec<String>)
    ensures
        r@.map_values(|l: String| l@) == lines_of(content@),
{
    let v = chars_of(content);
    let ghost s = content@;
    let mut r: Vec<String> = Vec::new();
    let mut start: usize = 0;
    while start < v.len()
        invariant
            v@ == s,
            s == content@,
            start <= v.len(),
            r@.map_values(|l: String| l@) + lines_from(s, start as int) == lines_of(s),
        decreases v.len() - start,
    {
        let mut i: usize = start;
        while i < v.len() && v[i] != '\n'
            invariant
                start <= i <= v.len(),
                v@ == s,
                s == content@,
                skip_class(s, start as int, CharClass::NotNewline) == skip_class(
                    s,
                    i as int,
                    CharClass::NotNewline,
                ),
            decreases v.len() - i,
        {
            i = i + 1;
        }
        let end = if i > start && v[i - 1] == '\r' {
            i - 1
        } else {
            i
        };
        let line = substring(content, start, end);
        let ghost prev = r@;
        let ghost rest = if i < v.len() {
            lines_from(s, i + 1)
        } else {
            seq![]
        };
        assert(skip_class(s, start as int, CharClass::NotNewline) == i);
        proof {
            let raw = s.subrange(start as int, i as int);
            if raw.len() > 0 {
                assert(raw.last() == v@[i - 1]);
                assert(raw.drop_last() =~= s.subrange(start as int, i - 1));
            }
        }
        assert(line@ == lines_from(s, start as int)[0]);
        assert(lines_from(s, start as int) =~= seq![line@] + rest);
        r.push(line);
        assert(r@.map_values(|l: String| l@) =~= prev.map_values(|l: String| l@).push(line@));
        assert(r@.map_values(|l: String| l@) + rest =~= prev.map_values(|l: String| l@) + (
        seq![line@] + rest));
        if i == v.len() {
            assert(r@.map_values(|l: String| l@) + seq![] =~= r@.map_values(|l: String| l@));
            return r;
        }
        start = i + 1;
    }
    assert(r@.map_values(|l: String| l@) + seq![] =~= r@.map_values(|l: String| l@));
    r
}

fn indented_line(line: &String) -> (r: bool)
    ensures
        r == is_indented(line@),
{
    let v = chars_of(line.as_str());
    if v.len() == 0 || !crate::text::is_whitespace(v[0]) {
        return false;
    }
    let mut k: usize = 1;
    while k < v.len()
        invariant
            1 <= k <= v.len(),
            v@ == line@,
            forall|j: int| 0 <= j < k ==> is_ws(#[trigger] v@[j]),
        decreases v.len() - k,
    {
        if !crate::text::is_whitespace(v[k]) {
            return true;
        }
        k = k + 1;
    }
    false
}

/// Whether `content` looks like a tree listing.
pub fn looks_like_tree(content: &str) -> (r: bool)
    ensures
        r == tree_like(content@),
{
    let v = chars_of(content);
    let ls = split_lines(content);
    let ghost lv = ls@.map_values(|l: String| l@);
    let mut drawn = false;
    let mut k: usize = 0;
    while k < v.len()
        invariant
            k <= v.len(),
            v@ == content@,
            drawn == exists|j: int| 0 <= j < k && is_connector(#[trigger] v@[j]),
        decreases v.len() - k,
    {
        if crate::text::is_connector_glyph(v[k]) {
            drawn = true;
        }
        k = k + 1;
    }
    if ls.len() < 2 {
        return false;
    }
    if drawn {
        return true;
    }
    let mut n: usize = 0;
    let mut i: usize = 1;
    while i < ls.len()
        invariant
            1 <= i <= ls@.len(),
            lv == ls@.map_values(|l: String| l@),
            n == count_indented(lv.skip(1).take(i - 1)),
            n <= i,
        decreases ls.len() - i,
    {
        assert(lv.skip(1).take(i as int).drop_last() =~= lv.skip(1).take(i - 1));
        if indented_line(&ls[i]) {
            n = n + 1;
        }
        i = i + 1;
    }
    assert(lv.skip(1).take(ls.len() - 1) =~= lv.skip(1));
    n >= 2
}

} // verus!
