//! Parsing a whole listing, line by line, and choosing the directory to build under.
use vstd::prelude::*;

use crate::parse::{
    opt_view, parse_line, parse_tree_line, IndentStyle, NodeView, ParseError, TreeNode,
};
use crate::text::{chars_of, is_connector, is_connector_glyph};
use crate::paths::{extract_parent_path, parent_path};
use crate::validate::Platform;

verus! {

/// A line that was skipped, and why.
#[derive(Clone, Copy, PartialEq, Eq, Debug)]
pub struct LineFailure {
    pub line_number: usize,
    pub error: ParseError,
}

/// What parsing a listing gave: the nodes in line order, the absolute path that the first
/// node named (if it named one), and the lines that were skipped.
pub struct ParseReport {
    pub nodes: Vec<TreeNode>,
    pub root_path: Option<String>,
    pub failures: Vec<LineFailure>,
}

pub type ReportView = (Seq<NodeView>, Option<Seq<char>>, Seq<(nat, ParseError)>);

impl View for ParseReport {
    type V = ReportView;

    open spec fn view(&self) -> ReportView {
        (
            self.nodes@.map_values(|n: TreeNode| n@),
            opt_view(self.root_path),
            self.failures@.map_values(|f: LineFailure| (f.line_number as nat, f.error)),
        )
    }
}

/// The report on the first `i` lines; line `i` (from 1) is `lines[i - 1]`.
pub open spec fn report_upto(p: Platform, style: IndentStyle, lines: Seq<Seq<char>>, i: int) -> ReportView
    decreases i,
{
    if i <= 0 {
        (seq![], None, seq![])
    } else {
        let prev = report_upto(p, style, lines, i - 1);
        match parse_line(p, style, lines[i - 1], i as nat) {
            Ok(Some(x)) => (
                prev.0.push(x.0),
                if prev.0.len() == 0 {
                    x.1
                } else {
                    prev.1
                },
                prev.2,
            ),
            Ok(None) => prev,
            Err(e) => (prev.0, prev.1, prev.2.push((i as nat, e))),
        }
    }
}

pub open spec fn lines_view(lines: Seq<String>) -> Seq<Seq<char>> {
    lines.map_values(|l: String| l@)
}

/// The depth style of a whole listing: connectors where any line holds a connector glyph,
/// spaces for plain indentation.
pub open spec fn run_style(lines: Seq<Seq<char>>) -> IndentStyle {
    if exists|i: int, k: int|
        0 <= i < lines.len() && 0 <= k < lines[i].len() && is_connector(#[trigger] lines[i][k]) {
        IndentStyle::Connectors
    } else {
        IndentStyle::Spaces
    }
}

/// The depth style of the listing `lines`, chosen once for the run.
pub fn indent_style_of(lines: &Vec<String>) -> (r: IndentStyle)
    ensures
        r == run_style(lines_view(lines@)),
{
    let ghost ls = lines_view(lines@);
    let mut i: usize = 0;
    while i < lines.len()
        invariant
            i <= lines@.len(),
            ls == lines_view(lines@),
            forall|a: int, k: int|
                0 <= a < i && 0 <= k < ls[a].len() ==> !is_connector(#[trigger] ls[a][k]),
        decreases lines.len() - i,
    {
        let v = chars_of(lines[i].as_str());
        assert(ls[i as int] == v@);
        let mut k: usize = 0;
        while k < v.len()
            invariant
                k <= v@.len(),
                i < lines@.len(),
                ls == lines_view(lines@),
                ls[i as int] == v@,
                forall|a: int, j: int|
                    0 <= a < i && 0 <= j < ls[a].len() ==> !is_connector(#[trigger] ls[a][j]),
                forall|j: int| 0 <= j < k ==> !is_connector(#[trigger] ls[i as int][j]),
            decreases v.len() - k,
        {
            if is_connector_glyph(v[k]) {
                assert(is_connector(ls[i as int][k as int]));
                return IndentStyle::Connectors;
            }
            k = k + 1;
        }
        i = i + 1;
    }
    IndentStyle::Spaces
}

/// Parses every line of a listing, in order, reading depth in the style of the whole
/// listing. A line that fails is recorded and skipped; none stops the others.
pub fn parse_lines(lines: &Vec<String>, platform: Platform) -> (r: ParseReport)
    ensures
        r@ == report_upto(
            platform,
            run_style(lines_view(lines@)),
            lines_view(lines@),
            lines@.len() as int,
        ),
{
    let ghost ls = lines_view(lines@);
    let style = indent_style_of(lines);
    let mut r = ParseReport { nodes: Vec::new(), root_path: None, failures: Vec::new() };
    assert(r@ =~= report_upto(platform, style, ls, 0));
    let mut i: usize = 0;
    while i < lines.len()
        invariant
            i <= lines@.len(),
            ls == lines_view(lines@),
            r@ == report_upto(platform, style, ls, i as int),
        decreases lines.len() - i,
    {
        assert(ls[i as int] == lines@[i as int]@);
        match parse_tree_line(lines[i].as_str(), i + 1, platform, style) {
            Ok(Some(parsed)) => {
                if r.nodes.len() == 0 {
                    r.root_path = parsed.root_path;
                }
                r.nodes.push(parsed.node);
            },
            Ok(None) => {},
            Err(e) => {
                r.failures.push(LineFailure { line_number: i + 1, error: e });
            },
        }
        assert(r@.0 =~= report_upto(platform, style, ls, i + 1).0);
        assert(r@.2 =~= report_upto(platform, style, ls, i + 1).2);
        i = i + 1;
    }
    r
}

impl ParseReport {
    /// Whether any line gave a node: without one there is nothing to build.
    pub fn has_structure(&self) -> (r: bool)
        ensures
            r == (self@.0.len() > 0),
    {
        self.nodes.len() > 0
    }

    /// The directory to build under: the parent of the absolute path that the first node
    /// named, or none, for the current directory.
    pub fn base_directory(&self) -> (r: Option<String>)
        ensures
            match self@.1 {
                Some(p) => opt_view(r) == parent_path(p),
                None => r is None,
            },
    {
        match &self.root_path {
            Some(p) => extract_parent_path(p.as_str()),
            None => None,
        }
    }
}

/// Every line is accounted for: the node of each line that parsed is in the report, and
/// each line that failed is recorded with its number and its error.
pub proof fn lemma_every_line_accounted(
    p: Platform,
    style: IndentStyle,
    lines: Seq<Seq<char>>,
    i: int,
)
    requires
        0 <= i <= lines.len(),
    ensures
        forall|j: int|
            0 <= j < i ==> match #[trigger] parse_line(p, style, lines[j], (j + 1) as nat) {
                Ok(Some(x)) => report_upto(p, style, lines, i).0.contains(x.0),
                Ok(None) => true,
                Err(e) => report_upto(p, style, lines, i).2.contains(((j + 1) as nat, e)),
            },
    decreases i,
{
    if i > 0 {
        lemma_every_line_accounted(p, style, lines, i - 1);
        let prev = report_upto(p, style, lines, i - 1);
        let cur = report_upto(p, style, lines, i);
        assert forall|j: int| 0 <= j < i implies match #[trigger] parse_line(
            p,
            style,
            lines[j],
            (j + 1) as nat,
        ) {
            Ok(Some(x)) => cur.0.contains(x.0),
            Ok(None) => true,
            Err(e) => cur.2.contains(((j + 1) as nat, e)),
        } by {
            if j < i - 1 {
                match parse_line(p, style, lines[j], (j + 1) as nat) {
                    Ok(Some(x)) => {
                        let idx = choose|idx: int| 0 <= idx < prev.0.len() && prev.0[idx] == x.0;
                        assert(cur.0[idx] == x.0);
                    },
                    Ok(None) => {},
                    Err(e) => {
                        let idx = choose|idx: int|
                            0 <= idx < prev.2.len() && prev.2[idx] == ((j + 1) as nat, e);
                        assert(cur.2[idx] == ((j + 1) as nat, e));
                    },
                }
            } else {
                match parse_line(p, style, lines[j], (j + 1) as nat) {
                    Ok(Some(x)) => {
                        assert(cur.0[cur.0.len() - 1] == x.0);
                    },
                    Ok(None) => {},
                    Err(e) => {
                        assert(cur.2[cur.2.len() - 1] == ((j + 1) as nat, e));
                    },
                }
            }
        }
    }
}

} // verus!
