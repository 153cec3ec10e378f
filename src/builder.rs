//! Replaying parsed entries as creation targets, with a stack of open ancestor directories.
use vstd::prelude::*;

use crate::parse::{NodeView, TreeNode};

verus! {

/// One entry to create: its path below the base directory, one name per level, and
/// whether it is a directory (created with all missing ancestors) or an empty file.
#[derive(Debug)]
pub struct Target {
    pub path: Vec<String>,
    pub is_dir: bool,
}

pub open spec fn names_view(v: Seq<String>) -> Seq<Seq<char>> {
    v.map_values(|n: String| n@)
}

impl View for Target {
    type V = (Seq<Seq<char>>, bool);

    open spec fn view(&self) -> (Seq<Seq<char>>, bool) {
        (names_view(self.path@), self.is_dir)
    }
}

/// The ancestors that a node at `depth` keeps: the first `depth` of them, or all of them
/// where the node goes deeper than the stack reaches.
pub open spec fn kept(stack: Seq<Seq<char>>, depth: nat) -> Seq<Seq<char>> {
    if depth <= stack.len() {
        stack.take(depth as int)
    } else {
        stack
    }
}

/// What a node creates, given the stack before it: each of its names under the ancestors
/// that it keeps.
pub open spec fn node_targets(stack: Seq<Seq<char>>, n: NodeView) -> Seq<(Seq<Seq<char>>, bool)> {
    n.names.map_values(|name: Seq<char>| (kept(stack, n.depth).push(name), n.is_dir))
}

/// The stack after a node: the ancestors it keeps, and its first name on top where it is a
/// directory. A node without names leaves the stack as it is.
pub open spec fn next_stack(stack: Seq<Seq<char>>, n: NodeView) -> Seq<Seq<char>> {
    if n.names.len() == 0 {
        stack
    } else if n.is_dir {
        kept(stack, n.depth).push(n.names[0])
    } else {
        kept(stack, n.depth)
    }
}

/// The stack once the first `i` nodes are processed.
pub open spec fn stack_before(nodes: Seq<NodeView>, i: int) -> Seq<Seq<char>>
    decreases i,
{
    if i <= 0 {
        seq![]
    } else {
        next_stack(stack_before(nodes, i - 1), nodes[i - 1])
    }
}

/// Every target of the first `i` nodes, in order.
pub open spec fn plan(nodes: Seq<NodeView>, i: int) -> Seq<(Seq<Seq<char>>, bool)>
    decreases i,
{
    if i <= 0 {
        seq![]
    } else {
        plan(nodes, i - 1) + node_targets(stack_before(nodes, i - 1), nodes[i - 1])
    }
}

pub open spec fn nodes_view(nodes: Seq<TreeNode>) -> Seq<NodeView> {
    nodes.map_values(|n: TreeNode| n@)
}

pub open spec fn targets_view(ts: Seq<Target>) -> Seq<(Seq<Seq<char>>, bool)> {
    ts.map_values(|t: Target| t@)
}

/// What one node did: the entries to create, and whether it went deeper than the stack
/// reaches (which is tolerated: it is placed under the deepest known ancestor).
pub struct Step {
    pub targets: Vec<Target>,
    pub beyond_stack: bool,
}

/// The names of the open ancestor directories, outermost first.
pub struct PathStack {
    pub entries: Vec<String>,
}

impl View for PathStack {
    type V = Seq<Seq<char>>;

    open spec fn view(&self) -> Seq<Seq<char>> {
        names_view(self.entries@)
    }
}

fn clone_names(v: &Vec<String>) -> (r: Vec<String>)
    ensures
        names_view(r@) == names_view(v@),
{
    let mut r: Vec<String> = Vec::new();
    let mut i: usize = 0;
    while i < v.len()
        invariant
            i <= v@.len(),
            names_view(r@) == names_view(v@).take(i as int),
        decreases v.len() - i,
    {
        let ghost prev = r@;
        r.push(v[i].clone());
        assert(names_view(r@) =~= names_view(prev).push(v@[i as int]@));
        assert(names_view(r@) =~= names_view(v@).take(i + 1));
        i = i + 1;
    }
    assert(names_view(v@).take(v@.len() as int) =~= names_view(v@));
    r
}

impl PathStack {
    pub fn new() -> (r: PathStack)
        ensures
            r@ == Seq::<Seq<char>>::empty(),
    {
        let r = PathStack { entries: Vec::new() };
        assert(r@ =~= Seq::<Seq<char>>::empty());
        r
    }

    /// Processes one node: drops the ancestors that it closes, lists what it creates, and
    /// opens its first name as an ancestor where it is a directory.
    pub fn apply(&mut self, node: &TreeNode) -> (r: Step)
        ensures
            final(self)@ == next_stack(old(self)@, node@),
            targets_view(r.targets@) == node_targets(old(self)@, node@),
            r.beyond_stack == (node.names@.len() > 0 && node.depth > old(self)@.len()),
    {
        let ghost before = self@;
        let mut targets: Vec<Target> = Vec::new();
        if node.names.len() == 0 {
            assert(targets_view(targets@) =~= node_targets(before, node@));
            return Step { targets, beyond_stack: false };
        }
        let beyond_stack = node.depth > self.entries.len();
        if !beyond_stack {
            let ghost prev = self.entries@;
            self.entries.truncate(node.depth);
            assert(names_view(self.entries@) =~= names_view(prev).take(node.depth as int));
        }
        assert(self@ == kept(before, node@.depth));
        let mut i: usize = 0;
        while i < node.names.len()
            invariant
                i <= node.names@.len(),
                self@ == kept(before, node@.depth),
                targets_view(targets@) == node_targets(before, node@).take(i as int),
            decreases node.names.len() - i,
        {
            let mut path = clone_names(&self.entries);
            let ghost prev_path = path@;
            path.push(node.names[i].clone());
            assert(names_view(path@) =~= names_view(prev_path).push(node.names@[i as int]@));
            let ghost prev = targets@;
            targets.push(Target { path, is_dir: node.is_dir });
            assert(targets_view(targets@) =~= targets_view(prev).push(
                node_targets(before, node@)[i as int],
            ));
            assert(targets_view(targets@) =~= node_targets(before, node@).take(i + 1));
            i = i + 1;
        }
        assert(node_targets(before, node@).take(node.names@.len() as int) =~= node_targets(
            before,
            node@,
        ));
        if node.is_dir {
            let ghost prev = self.entries@;
            self.entries.push(node.names[0].clone());
            assert(names_view(self.entries@) =~= names_view(prev).push(node.names@[0]@));
        }
        Step { targets, beyond_stack }
    }
}

/// Every entry that the nodes create, in order, each under the ancestors that the stack
/// holds when it comes.
pub fn plan_structure(nodes: &Vec<TreeNode>) -> (r: Vec<Target>)
    ensures
        targets_view(r@) == plan(nodes_view(nodes@), nodes@.len() as int),
{
    let ghost ns = nodes_view(nodes@);
    let mut stack = PathStack::new();
    let mut r: Vec<Target> = Vec::new();
    let mut i: usize = 0;
    while i < nodes.len()
        invariant
            i <= nodes@.len(),
            ns == nodes_view(nodes@),
            stack@ == stack_before(ns, i as int),
            targets_view(r@) == plan(ns, i as int),
        decreases nodes.len() - i,
    {
        let mut step = stack.apply(&nodes[i]);
        let ghost prev = r@;
        let ghost added = step.targets@;
        r.append(&mut step.targets);
        assert(targets_view(r@) =~= targets_view(prev) + targets_view(added));
        i = i + 1;
    }
    r
}

/// Every node lists at least one name, as every parsed node does.
pub open spec fn all_named(nodes: Seq<NodeView>) -> bool {
    forall|i: int| 0 <= i < nodes.len() ==> (#[trigger] nodes[i]).names.len() > 0
}

/// Node `j` is the most recent directory at depth `k` before node `i`, and no node between
/// them comes at depth `k` or shallower.
pub open spec fn open_at(nodes: Seq<NodeView>, i: int, k: nat, j: int) -> bool {
    &&& 0 <= j < i <= nodes.len()
    &&& nodes[j].is_dir
    &&& nodes[j].depth == k
    &&& forall|m: int| j < m < i ==> (#[trigger] nodes[m]).depth > k
}

/// Some directory is open at depth `k` before node `i`.
pub open spec fn has_open(nodes: Seq<NodeView>, i: int, k: nat) -> bool {
    exists|j: int| open_at(nodes, i, k, j)
}

/// No node skips a level: below its depth, each level has an open directory.
pub open spec fn well_nested(nodes: Seq<NodeView>) -> bool {
    forall|i: int, k: nat| 0 <= i < nodes.len() && k < nodes[i].depth ==> #[trigger] has_open(nodes, i, k)
}

/// Before node `i`, the stack holds exactly one entry per level that has an open directory:
/// that directory's first name.
pub open spec fn stack_matches(nodes: Seq<NodeView>, i: int) -> bool {
    let s = stack_before(nodes, i);
    &&& forall|k: nat| k < s.len() ==> #[trigger] has_open(nodes, i, k)
    &&& forall|k: nat, j: int|
        #[trigger] open_at(nodes, i, k, j) ==> k < s.len() && s[k as int] == nodes[j].names[0]
}

proof fn lemma_stack_matches_step(nodes: Seq<NodeView>, i: int)
    requires
        all_named(nodes),
        well_nested(nodes),
        0 <= i < nodes.len(),
        stack_matches(nodes, i),
    ensures
        stack_matches(nodes, i + 1),
{
    let s = stack_before(nodes, i);
    let s2 = stack_before(nodes, i + 1);
    let n = nodes[i];
    let d = n.depth;
    assert(n.names.len() > 0);
    if d > 0 {
        let k = (d - 1) as nat;
        assert(has_open(nodes, i, k));
        let j = choose|j: int| open_at(nodes, i, k, j);
        assert(open_at(nodes, i, k, j));
    }
    assert(d <= s.len());
    assert(kept(s, d) == s.take(d as int));
    assert forall|k: nat| k < s2.len() implies #[trigger] has_open(nodes, i + 1, k) by {
        if k < d {
            assert(has_open(nodes, i, k));
            let j = choose|j: int| open_at(nodes, i, k, j);
            assert(open_at(nodes, i + 1, k, j));
        } else {
            assert(open_at(nodes, i + 1, k, i));
        }
    }
    assert forall|k: nat, j: int| #[trigger] open_at(nodes, i + 1, k, j) implies k < s2.len()
        && s2[k as int] == nodes[j].names[0] by {
        if j < i {
            assert(nodes[i].depth > k);
            assert(open_at(nodes, i, k, j));
        }
    }
}

proof fn lemma_stack_matches(nodes: Seq<NodeView>, i: int)
    requires
        all_named(nodes),
        well_nested(nodes),
        0 <= i <= nodes.len(),
    ensures
        stack_matches(nodes, i),
    decreases i,
{
    if i > 0 {
        lemma_stack_matches(nodes, i - 1);
        lemma_stack_matches_step(nodes, i - 1);
    }
}

/// Where no node skips a level, each name of node `i` is created under exactly the
/// ancestors that the listing shows: one per level below its depth, the first name of the
/// most recent directory at that level, with no node at that level or shallower after it.
pub proof fn lemma_paths_follow_open_ancestors(nodes: Seq<NodeView>, i: int)
    requires
        all_named(nodes),
        well_nested(nodes),
        0 <= i < nodes.len(),
    ensures
        node_targets(stack_before(nodes, i), nodes[i]).len() == nodes[i].names.len(),
        forall|t: int|
            0 <= t < nodes[i].names.len() ==> {
                let path = (#[trigger] node_targets(stack_before(nodes, i), nodes[i])[t]).0;
                &&& path.len() == nodes[i].depth + 1
                &&& path.last() == nodes[i].names[t]
                &&& node_targets(stack_before(nodes, i), nodes[i])[t].1 == nodes[i].is_dir
            },
        forall|t: int, k: nat, j: int|
            0 <= t < nodes[i].names.len() && k < nodes[i].depth && #[trigger] open_at(nodes, i, k, j)
                ==> (#[trigger] node_targets(stack_before(nodes, i), nodes[i])[t]).0[k as int]
                == nodes[j].names[0],
{
    lemma_stack_matches(nodes, i);
    let s = stack_before(nodes, i);
    let d = nodes[i].depth;
    if d > 0 {
        let k = (d - 1) as nat;
        assert(has_open(nodes, i, k));
        let j = choose|j: int| open_at(nodes, i, k, j);
        assert(open_at(nodes, i, k, j));
    }
    assert(d <= s.len());
}

/// A node that lists several names creates each of them at the same depth, under the same
/// ancestors; where it is a directory, only its first name becomes an ancestor of the lines
/// that follow.
pub proof fn lemma_listed_names_are_siblings(stack: Seq<Seq<char>>, n: NodeView)
    requires
        n.names.len() > 0,
    ensures
        node_targets(stack, n).len() == n.names.len(),
        forall|t: int|
            0 <= t < n.names.len() ==> #[trigger] node_targets(stack, n)[t] == (
                kept(stack, n.depth).push(n.names[t]),
                n.is_dir,
            ),
        n.is_dir ==> next_stack(stack, n) == kept(stack, n.depth).push(n.names[0]),
        !n.is_dir ==> next_stack(stack, n) == kept(stack, n.depth),
{
}

} // verus!
