//! The shape of the collection tree: the depth of every node and the number
//! of its direct children.
//!
//! The nodes of a blob name each other by index. Whether these names form a
//! tree is stated by `is_tree_shape`, over the depths and child counts that
//! the tree would have. `analyze_hierarchy` finds them by walking the links
//! from the root, and refuses the nodes where they form no tree.

use vstd::prelude::*;
use crate::blob::PreparsedData;
use crate::error::WinError;
use crate::typedefs::LinkCollectionNode;

verus! {

/// The level of a node that the walk has not reached.
const UNVISITED: i32 = -1;

/// The node at position `k` of the sibling chain of `p`: its first child for
/// `k == 0`, then the next sibling of the one before.
pub open spec fn chain_nth(nodes: Seq<LinkCollectionNode>, p: int, k: int) -> int
    decreases k,
{
    if k <= 0 {
        nodes[p].first_child as int
    } else {
        nodes[chain_nth(nodes, p, k - 1)].next_sibling as int
    }
}

/// Position `k` of the chain of `p` holds a node other than the root, whose
/// parent is `p`.
pub open spec fn is_chain_member(nodes: Seq<LinkCollectionNode>, p: int, k: int) -> bool {
    let c = chain_nth(nodes, p, k);
    0 < c < nodes.len() && nodes[c].parent == p
}

/// Node `c` lies one level below its parent and occurs in its parent's chain.
pub open spec fn is_placed(
    nodes: Seq<LinkCollectionNode>,
    levels: Seq<int>,
    counts: Seq<int>,
    c: int,
) -> bool {
    let p = nodes[c].parent as int;
    &&& p < nodes.len()
    &&& levels[c] >= 1
    &&& levels[c] == levels[p] + 1
    &&& exists|k: int| 0 <= k < counts[p] && #[trigger] chain_nth(nodes, p, k) == c
}

/// The chain of `p` has `counts[p]` members and then ends; it is empty exactly
/// where the node says that it has no children.
pub open spec fn chain_ends(nodes: Seq<LinkCollectionNode>, counts: Seq<int>, p: int) -> bool {
    &&& counts[p] >= 0
    &&& counts[p] == 0 <==> nodes[p].number_of_children == 0
    &&& counts[p] > 0 ==> nodes[chain_nth(nodes, p, counts[p] - 1)].next_sibling == 0
}

/// The nodes form a tree with root 0, in which node `c` has depth `levels[c]`
/// and `counts[c]` direct children: every other node lies one level below its
/// parent and is listed once in its parent's sibling chain, and every chain
/// lists children of its node only.
pub open spec fn is_tree_shape(
    nodes: Seq<LinkCollectionNode>,
    levels: Seq<int>,
    counts: Seq<int>,
) -> bool {
    &&& levels.len() == nodes.len()
    &&& counts.len() == nodes.len()
    &&& nodes.len() > 0 ==> levels[0] == 0 && nodes[0].next_sibling == 0
    &&& forall|c: int| 0 < c < nodes.len() ==> #[trigger] is_placed(nodes, levels, counts, c)
    &&& forall|p: int| 0 <= p < nodes.len() ==> #[trigger] chain_ends(nodes, counts, p)
    &&& forall|p: int, k: int|
        0 <= p < nodes.len() && 0 <= k < counts[p] ==> #[trigger] is_chain_member(nodes, p, k)
    &&& forall|p: int, j: int, k: int|
        0 <= p < nodes.len() && 0 <= j < k < counts[p] ==> #[trigger] chain_nth(nodes, p, j)
            != #[trigger] chain_nth(nodes, p, k)
}

/// The nodes form a tree with root 0.
pub open spec fn forms_tree(nodes: Seq<LinkCollectionNode>) -> bool {
    exists|levels: Seq<int>, counts: Seq<int>| is_tree_shape(nodes, levels, counts)
}

/// The depths and child counts of the tree that the nodes form.
pub open spec fn shape_of(nodes: Seq<LinkCollectionNode>) -> (Seq<int>, Seq<int>) {
    choose|shape: (Seq<int>, Seq<int>)| is_tree_shape(nodes, shape.0, shape.1)
}

/// The depth of every node of the tree that the nodes form.
pub open spec fn levels_of(nodes: Seq<LinkCollectionNode>) -> Seq<int> {
    shape_of(nodes).0
}

/// The number of direct children of every node of the tree that the nodes form.
pub open spec fn child_counts_of(nodes: Seq<LinkCollectionNode>) -> Seq<int> {
    shape_of(nodes).1
}

/// The greatest depth in `levels`, and 0 where there is none.
pub open spec fn is_max_level(levels: Seq<int>, max: int) -> bool {
    &&& forall|c: int| 0 <= c < levels.len() ==> #[trigger] levels[c] <= max
    &&& levels.len() == 0 ==> max == 0
    &&& levels.len() > 0 ==> exists|c: int| 0 <= c < levels.len() && #[trigger] levels[c] == max
}

/// The greatest depth in `levels`.
pub open spec fn max_level_of(levels: Seq<int>) -> int {
    choose|max: int| is_max_level(levels, max)
}

/// A table of depths has one greatest depth.
pub proof fn lemma_max_level_unique(levels: Seq<int>, max: int)
    requires
        is_max_level(levels, max),
    ensures
        max_level_of(levels) == max,
{
    let other = max_level_of(levels);
    assert(is_max_level(levels, other));
    if levels.len() > 0 {
        let a = choose|c: int| 0 <= c < levels.len() && #[trigger] levels[c] == max;
        let b = choose|c: int| 0 <= c < levels.len() && #[trigger] levels[c] == other;
        assert(levels[a] <= other);
        assert(levels[b] <= max);
    }
}

/// Every table of depths has a greatest depth.
pub proof fn lemma_max_level_exists(levels: Seq<int>)
    ensures
        is_max_level(levels, max_level_of(levels)),
{
    let max = lemma_find_max_level(levels);
}

proof fn lemma_find_max_level(levels: Seq<int>) -> (max: int)
    ensures
        is_max_level(levels, max),
    decreases levels.len(),
{
    if levels.len() == 0 {
        0
    } else if levels.len() == 1 {
        levels[0]
    } else {
        let shorter = levels.drop_last();
        let before = lemma_find_max_level(shorter);
        let at = choose|c: int| 0 <= c < shorter.len() && #[trigger] shorter[c] == before;
        assert(levels[at] == before);
        let max = if levels.last() > before {
            levels.last()
        } else {
            before
        };
        assert forall|c: int| 0 <= c < levels.len() implies #[trigger] levels[c] <= max by {
            if c < shorter.len() {
                assert(shorter[c] == levels[c]);
            }
        }
        assert(levels[levels.len() - 1] == levels.last());
        max
    }
}

/// What the analysis of the collection tree finds.
pub struct Hierarchy {
    /// The depth of each node; the root has depth 0.
    pub levels: Vec<i32>,
    /// The number of direct children of each node.
    pub child_counts: Vec<u16>,
    /// The greatest depth of any node.
    pub max_level: i32,
}

pub open spec fn ints_of_i32(values: Seq<i32>) -> Seq<int> {
    Seq::new(values.len(), |i: int| values[i] as int)
}

pub open spec fn ints_of_u16(values: Seq<u16>) -> Seq<int> {
    Seq::new(values.len(), |i: int| values[i] as int)
}

impl Hierarchy {
    pub open spec fn level_seq(&self) -> Seq<int> {
        ints_of_i32(self.levels@)
    }

    pub open spec fn count_seq(&self) -> Seq<int> {
        ints_of_u16(self.child_counts@)
    }

    /// The tables hold the depths and child counts of the tree that `nodes`
    /// form.
    pub open spec fn describes(&self, nodes: Seq<LinkCollectionNode>) -> bool {
        &&& is_tree_shape(nodes, self.level_seq(), self.count_seq())
        &&& is_max_level(self.level_seq(), self.max_level as int)
    }
}

/// A tree has one shape: its depths and child counts follow from its nodes.
pub proof fn lemma_tree_shape_unique(
    nodes: Seq<LinkCollectionNode>,
    levels_a: Seq<int>,
    counts_a: Seq<int>,
    levels_b: Seq<int>,
    counts_b: Seq<int>,
)
    requires
        is_tree_shape(nodes, levels_a, counts_a),
        is_tree_shape(nodes, levels_b, counts_b),
    ensures
        levels_a == levels_b,
        counts_a == counts_b,
{
    assert forall|p: int| 0 <= p < nodes.len() implies counts_a[p] == counts_b[p] by {
        lemma_count_not_less(nodes, levels_a, counts_a, levels_b, counts_b, p);
        lemma_count_not_less(nodes, levels_b, counts_b, levels_a, counts_a, p);
    }
    assert(counts_a =~= counts_b);
    assert forall|c: int| 0 <= c < nodes.len() implies levels_a[c] == levels_b[c] by {
        lemma_level_unique(nodes, levels_a, counts_a, levels_b, counts_b, c);
    }
    assert(levels_a =~= levels_b);
}

proof fn lemma_count_not_less(
    nodes: Seq<LinkCollectionNode>,
    levels_a: Seq<int>,
    counts_a: Seq<int>,
    levels_b: Seq<int>,
    counts_b: Seq<int>,
    p: int,
)
    requires
        is_tree_shape(nodes, levels_a, counts_a),
        is_tree_shape(nodes, levels_b, counts_b),
        0 <= p < nodes.len(),
    ensures
        counts_a[p] >= counts_b[p],
{
    assert(chain_ends(nodes, counts_a, p));
    assert(chain_ends(nodes, counts_b, p));
    if counts_a[p] < counts_b[p] {
        assert(counts_a[p] > 0);
        assert(is_chain_member(nodes, p, counts_a[p]));
    }
}

proof fn lemma_level_unique(
    nodes: Seq<LinkCollectionNode>,
    levels_a: Seq<int>,
    counts_a: Seq<int>,
    levels_b: Seq<int>,
    counts_b: Seq<int>,
    c: int,
)
    requires
        is_tree_shape(nodes, levels_a, counts_a),
        is_tree_shape(nodes, levels_b, counts_b),
        0 <= c < nodes.len(),
    ensures
        levels_a[c] == levels_b[c],
        levels_a[c] >= 0,
    decreases levels_a[c],
{
    if c != 0 {
        assert(is_placed(nodes, levels_a, counts_a, c));
        assert(is_placed(nodes, levels_b, counts_b, c));
        lemma_level_unique(nodes, levels_a, counts_a, levels_b, counts_b, nodes[c].parent as int);
    }
}

/// In a tree every depth is at least 0.
pub proof fn lemma_levels_nonnegative(
    nodes: Seq<LinkCollectionNode>,
    levels: Seq<int>,
    counts: Seq<int>,
    c: int,
)
    requires
        is_tree_shape(nodes, levels, counts),
        0 <= c < nodes.len(),
    ensures
        levels[c] >= 0,
{
    if c != 0 {
        assert(is_placed(nodes, levels, counts, c));
    }
}

/// The place of node `v` in the sibling chain of its parent.
pub open spec fn position_of(nodes: Seq<LinkCollectionNode>, counts: Seq<int>, v: int) -> int {
    let p = nodes[v].parent as int;
    choose|k: int| 0 <= k < counts[p] && #[trigger] chain_nth(nodes, p, k) == v
}

/// In a tree, every node but the root has a place in the chain of its parent.
pub proof fn lemma_position(
    nodes: Seq<LinkCollectionNode>,
    levels: Seq<int>,
    counts: Seq<int>,
    v: int,
)
    requires
        is_tree_shape(nodes, levels, counts),
        0 < v < nodes.len(),
    ensures
        nodes[v].parent < nodes.len(),
        levels[v] == levels[nodes[v].parent as int] + 1,
        0 <= position_of(nodes, counts, v) < counts[nodes[v].parent as int],
        chain_nth(nodes, nodes[v].parent as int, position_of(nodes, counts, v)) == v,
{
    assert(is_placed(nodes, levels, counts, v));
}

/// In a tree, a node with children has a first child one level below it.
pub proof fn lemma_first_child(
    nodes: Seq<LinkCollectionNode>,
    levels: Seq<int>,
    counts: Seq<int>,
    p: int,
)
    requires
        is_tree_shape(nodes, levels, counts),
        0 <= p < nodes.len(),
        counts[p] > 0,
    ensures
        0 < nodes[p].first_child < nodes.len(),
        nodes[nodes[p].first_child as int].parent == p,
        levels[nodes[p].first_child as int] == levels[p] + 1,
{
    assert(is_chain_member(nodes, p, 0));
    assert(is_placed(nodes, levels, counts, nodes[p].first_child as int));
}

/// In a tree, the next sibling of a node is the child of the same parent
/// that follows it in the chain.
pub proof fn lemma_next_sibling(
    nodes: Seq<LinkCollectionNode>,
    levels: Seq<int>,
    counts: Seq<int>,
    v: int,
)
    requires
        is_tree_shape(nodes, levels, counts),
        0 <= v < nodes.len(),
        nodes[v].next_sibling != 0,
    ensures
        v != 0,
        0 < nodes[v].next_sibling < nodes.len(),
        nodes[nodes[v].next_sibling as int].parent == nodes[v].parent,
        levels[nodes[v].next_sibling as int] == levels[v],
        position_of(nodes, counts, nodes[v].next_sibling as int) == position_of(nodes, counts, v)
            + 1,
{
    let p = nodes[v].parent as int;
    let next = nodes[v].next_sibling as int;
    lemma_position(nodes, levels, counts, v);
    let k = position_of(nodes, counts, v);
    assert(chain_ends(nodes, counts, p));
    assert(is_chain_member(nodes, p, k + 1));
    assert(chain_nth(nodes, p, k + 1) == next);
    lemma_position(nodes, levels, counts, next);
    let j = position_of(nodes, counts, next);
    if j < k + 1 {
        assert(chain_nth(nodes, p, j) != chain_nth(nodes, p, k + 1));
    }
    if k + 1 < j {
        assert(chain_nth(nodes, p, k + 1) != chain_nth(nodes, p, j));
    }
}

/// The shape that an analysis found is the shape of the tree.
pub proof fn lemma_describes_shape(h: &Hierarchy, nodes: Seq<LinkCollectionNode>)
    requires
        h.describes(nodes),
    ensures
        forms_tree(nodes),
        levels_of(nodes) == h.level_seq(),
        child_counts_of(nodes) == h.count_seq(),
{
    let found = (h.level_seq(), h.count_seq());
    assert(is_tree_shape(nodes, found.0, found.1));
    let shape = shape_of(nodes);
    assert(is_tree_shape(nodes, shape.0, shape.1));
    lemma_tree_shape_unique(nodes, shape.0, shape.1, found.0, found.1);
}

/// The shape of a tree is a shape of its nodes.
pub proof fn lemma_shape_of(nodes: Seq<LinkCollectionNode>)
    requires
        forms_tree(nodes),
    ensures
        is_tree_shape(nodes, levels_of(nodes), child_counts_of(nodes)),
{
    let (levels, counts) = choose|levels: Seq<int>, counts: Seq<int>|
        is_tree_shape(nodes, levels, counts);
    let found = (levels, counts);
    assert(is_tree_shape(nodes, found.0, found.1));
}

/// How far the walk has come: the levels and child counts found so far, the
/// position of each reached node in its parent's chain, and the nodes from the
/// root down to the current one.
struct Walk {
    levels: Seq<int>,
    counts: Seq<int>,
    pos: Seq<int>,
    path: Seq<int>,
}

spec fn visited(w: Walk, v: int) -> bool {
    w.levels[v] != -1
}

spec fn on_path(w: Walk, v: int) -> bool {
    0 <= w.levels[v] < w.path.len() && w.path[w.levels[v]] == v
}

/// A reached node lies below a reached parent and at a counted place of its
/// parent's chain.
spec fn entered(nodes: Seq<LinkCollectionNode>, w: Walk, v: int) -> bool {
    let p = nodes[v].parent as int;
    &&& p < nodes.len()
    &&& visited(w, p)
    &&& w.levels[v] == w.levels[p] + 1
    &&& 0 <= w.pos[v] < w.counts[p]
    &&& chain_nth(nodes, p, w.pos[v]) == v
}

/// A counted place of a chain holds a reached child that knows its place.
spec fn listed(nodes: Seq<LinkCollectionNode>, w: Walk, p: int, k: int) -> bool {
    let c = chain_nth(nodes, p, k);
    &&& 0 < c < nodes.len()
    &&& visited(w, c)
    &&& nodes[c].parent == p
    &&& w.pos[c] == k
}

/// A node that the walk has left: its chain is counted to the end, and its
/// next sibling, if it has one, has been reached.
spec fn closed(nodes: Seq<LinkCollectionNode>, w: Walk, v: int) -> bool {
    &&& w.counts[v] == 0 <==> nodes[v].number_of_children == 0
    &&& w.counts[v] > 0 ==> nodes[chain_nth(nodes, v, w.counts[v] - 1)].next_sibling == 0
    &&& nodes[v].next_sibling != 0 ==> nodes[v].next_sibling < nodes.len() && visited(
        w,
        nodes[v].next_sibling as int,
    )
}

spec fn path_ok(nodes: Seq<LinkCollectionNode>, w: Walk) -> bool {
    &&& w.path.len() >= 1
    &&& w.path[0] == 0
    &&& forall|i: int|
        0 <= i < w.path.len() ==> 0 <= #[trigger] w.path[i] < nodes.len() && w.levels[w.path[i]]
            == i
    &&& forall|i: int|
        1 <= i < w.path.len() ==> nodes[#[trigger] w.path[i]].parent == w.path[i - 1] && w.pos[w.path[i]]
            + 1 == w.counts[w.path[i - 1]]
}

spec fn walk_inv(nodes: Seq<LinkCollectionNode>, w: Walk) -> bool {
    let n = nodes.len() as int;
    let cur = w.path.last();
    &&& w.levels.len() == n
    &&& w.counts.len() == n
    &&& w.pos.len() == n
    &&& path_ok(nodes, w)
    &&& forall|v: int| 0 <= v < n ==> #[trigger] w.levels[v] >= -1
    &&& forall|p: int|
        0 <= p < n ==> #[trigger] w.counts[p] >= 0 && (w.counts[p] > 0 ==> visited(w, p)
            && nodes[p].number_of_children > 0)
    &&& forall|v: int| 0 < v < n && visited(w, v) ==> #[trigger] entered(nodes, w, v)
    &&& forall|p: int, k: int| 0 <= p < n && 0 <= k < w.counts[p] ==> #[trigger] listed(nodes, w, p, k)
    &&& forall|v: int| 0 <= v < n && visited(w, v) && !on_path(w, v) ==> #[trigger] closed(nodes, w, v)
    &&& w.counts[cur] > 0 ==> nodes[chain_nth(nodes, cur, w.counts[cur] - 1)].next_sibling == 0
}

/// The state after the step from the current node down to its first child.
spec fn descend(nodes: Seq<LinkCollectionNode>, w: Walk) -> Walk {
    let cur = w.path.last();
    let child = nodes[cur].first_child as int;
    Walk {
        levels: w.levels.update(child, w.path.len() as int),
        counts: w.counts.update(cur, 1),
        pos: w.pos.update(child, 0),
        path: w.path.push(child),
    }
}

/// The state after the step from the current node to its next sibling.
spec fn advance(nodes: Seq<LinkCollectionNode>, w: Walk) -> Walk {
    let cur = w.path.last();
    let p = nodes[cur].parent as int;
    let next = nodes[cur].next_sibling as int;
    Walk {
        levels: w.levels.update(next, w.path.len() - 1),
        counts: w.counts.update(p, w.counts[p] + 1),
        pos: w.pos.update(next, w.pos[cur] + 1),
        path: w.path.drop_last().push(next),
    }
}

/// The state after the step from the current node up to its parent.
spec fn ascend(w: Walk) -> Walk {
    Walk { levels: w.levels, counts: w.counts, pos: w.pos, path: w.path.drop_last() }
}

proof fn lemma_descend(nodes: Seq<LinkCollectionNode>, w: Walk)
    requires
        walk_inv(nodes, w),
        nodes[w.path.last()].number_of_children > 0,
        nodes[w.path.last()].first_child < nodes.len(),
        !visited(w, nodes[w.path.last()].first_child as int),
        nodes[nodes[w.path.last()].first_child as int].parent == w.path.last(),
    ensures
        walk_inv(nodes, descend(nodes, w)),
        w.counts[w.path.last()] == 0,
        w.counts[nodes[w.path.last()].first_child as int] == 0,
{
    let n = nodes.len() as int;
    let cur = w.path.last();
    let child = nodes[cur].first_child as int;
    let a = descend(nodes, w);
    assert(w.path[w.path.len() - 1] == cur);
    assert(visited(w, cur));
    assert(child != cur);
    if w.counts[cur] > 0 {
        assert(listed(nodes, w, cur, 0));
    }
    assert(w.counts[cur] == 0);
    assert(w.counts[child] == 0);
    assert forall|i: int| 0 <= i < a.path.len() implies 0 <= #[trigger] a.path[i] < n
        && a.levels[a.path[i]] == i by {
        if i < w.path.len() {
            assert(a.path[i] == w.path[i]);
        }
    }
    assert forall|i: int| 1 <= i < a.path.len() implies nodes[#[trigger] a.path[i]].parent
        == a.path[i - 1] && a.pos[a.path[i]] + 1 == a.counts[a.path[i - 1]] by {
        if i < w.path.len() {
            assert(a.path[i] == w.path[i]);
            assert(a.path[i - 1] == w.path[i - 1]);
            assert(w.levels[w.path[i - 1]] == i - 1);
        }
    }
    assert(path_ok(nodes, a));
    assert forall|v: int| 0 < v < n && visited(a, v) implies #[trigger] entered(nodes, a, v) by {
        if v != child {
            assert(visited(w, v));
            assert(entered(nodes, w, v));
        }
    }
    assert forall|p: int, k: int| 0 <= p < n && 0 <= k < a.counts[p] implies #[trigger] listed(
        nodes,
        a,
        p,
        k,
    ) by {
        if p != cur {
            assert(listed(nodes, w, p, k));
        }
    }
    assert forall|v: int| 0 <= v < n && visited(a, v) && !on_path(a, v) implies #[trigger] closed(
        nodes,
        a,
        v,
    ) by {
        assert(v != child);
        assert(visited(w, v));
        if on_path(w, v) {
            assert(a.path[w.levels[v]] == w.path[w.levels[v]]);
        }
        assert(closed(nodes, w, v));
        assert(v != cur) by {
            assert(w.path[w.levels[cur]] == cur);
        }
        if nodes[v].next_sibling != 0 {
            assert(visited(a, nodes[v].next_sibling as int));
        }
    }
}

proof fn lemma_advance(nodes: Seq<LinkCollectionNode>, w: Walk)
    requires
        walk_inv(nodes, w),
        w.path.last() != 0,
        nodes[w.path.last()].number_of_children > 0 ==> w.counts[w.path.last()] > 0,
        nodes[w.path.last()].next_sibling != 0,
        nodes[w.path.last()].next_sibling < nodes.len(),
        !visited(w, nodes[w.path.last()].next_sibling as int),
        nodes[nodes[w.path.last()].next_sibling as int].parent == nodes[w.path.last()].parent,
    ensures
        walk_inv(nodes, advance(nodes, w)),
        w.path.len() >= 2,
        nodes[w.path.last()].parent < nodes.len(),
        w.counts[nodes[w.path.last()].next_sibling as int] == 0,
        w.counts[nodes[w.path.last()].parent as int] == w.pos[w.path.last()] + 1,
{
    let n = nodes.len() as int;
    let top = w.path.len() - 1;
    let cur = w.path.last();
    let p = nodes[cur].parent as int;
    let next = nodes[cur].next_sibling as int;
    let a = advance(nodes, w);
    assert(w.path[top] == cur);
    assert(w.levels[cur] == top);
    assert(visited(w, cur));
    assert(top >= 1);
    assert(entered(nodes, w, cur));
    assert(w.path[top - 1] == p);
    assert(w.levels[p] == top - 1);
    assert(w.counts[p] == w.pos[cur] + 1);
    assert(chain_nth(nodes, p, w.counts[p]) == next);
    assert(w.counts[next] == 0);
    assert(a.path.len() == w.path.len());
    assert forall|i: int| 0 <= i < a.path.len() implies 0 <= #[trigger] a.path[i] < n
        && a.levels[a.path[i]] == i by {
        if i < top {
            assert(a.path[i] == w.path[i]);
        }
    }
    assert forall|i: int| 1 <= i < a.path.len() implies nodes[#[trigger] a.path[i]].parent
        == a.path[i - 1] && a.pos[a.path[i]] + 1 == a.counts[a.path[i - 1]] by {
        assert(a.path[i - 1] == w.path[i - 1]);
        assert(w.levels[w.path[i - 1]] == i - 1);
        if i < top {
            assert(a.path[i] == w.path[i]);
        }
    }
    assert(path_ok(nodes, a));
    assert forall|v: int| 0 < v < n && visited(a, v) implies #[trigger] entered(nodes, a, v) by {
        if v != next {
            assert(visited(w, v));
            assert(entered(nodes, w, v));
        }
    }
    assert forall|q: int, k: int| 0 <= q < n && 0 <= k < a.counts[q] implies #[trigger] listed(
        nodes,
        a,
        q,
        k,
    ) by {
        if q != p || k < w.counts[p] {
            assert(listed(nodes, w, q, k));
        }
    }
    assert forall|v: int| 0 <= v < n && visited(a, v) && !on_path(a, v) implies #[trigger] closed(
        nodes,
        a,
        v,
    ) by {
        assert(v != next);
        assert(visited(w, v));
        assert(v != p) by {
            assert(a.path[top - 1] == p);
        }
        if v != cur {
            if on_path(w, v) {
                assert(w.levels[v] < top);
                assert(a.path[w.levels[v]] == w.path[w.levels[v]]);
            }
            assert(closed(nodes, w, v));
        }
        if nodes[v].next_sibling != 0 {
            assert(visited(a, nodes[v].next_sibling as int));
        }
    }
}

proof fn lemma_ascend(nodes: Seq<LinkCollectionNode>, w: Walk)
    requires
        walk_inv(nodes, w),
        w.path.last() != 0,
        nodes[w.path.last()].number_of_children > 0 ==> w.counts[w.path.last()] > 0,
        nodes[w.path.last()].next_sibling == 0,
    ensures
        walk_inv(nodes, ascend(w)),
        w.path.len() >= 2,
        ascend(w).path.last() == nodes[w.path.last()].parent,
{
    let n = nodes.len() as int;
    let top = w.path.len() - 1;
    let cur = w.path.last();
    let p = nodes[cur].parent as int;
    let a = ascend(w);
    assert(w.path[top] == cur);
    assert(w.levels[cur] == top);
    assert(visited(w, cur));
    assert(top >= 1);
    assert(entered(nodes, w, cur));
    assert(w.path[top - 1] == p);
    assert forall|i: int| 0 <= i < a.path.len() implies 0 <= #[trigger] a.path[i] < n
        && a.levels[a.path[i]] == i by {
        assert(a.path[i] == w.path[i]);
    }
    assert forall|i: int| 1 <= i < a.path.len() implies nodes[#[trigger] a.path[i]].parent
        == a.path[i - 1] && a.pos[a.path[i]] + 1 == a.counts[a.path[i - 1]] by {
        assert(a.path[i] == w.path[i]);
        assert(a.path[i - 1] == w.path[i - 1]);
    }
    assert(path_ok(nodes, a));
    assert forall|v: int| 0 < v < n && visited(a, v) implies #[trigger] entered(nodes, a, v) by {
        assert(entered(nodes, w, v));
    }
    assert forall|q: int, k: int| 0 <= q < n && 0 <= k < a.counts[q] implies #[trigger] listed(
        nodes,
        a,
        q,
        k,
    ) by {
        assert(listed(nodes, w, q, k));
    }
    assert forall|v: int| 0 <= v < n && visited(a, v) && !on_path(a, v) implies #[trigger] closed(
        nodes,
        a,
        v,
    ) by {
        if v != cur {
            if on_path(w, v) {
                assert(a.path[w.levels[v]] == w.path[w.levels[v]]);
            }
            assert(closed(nodes, w, v));
        }
    }
    assert(a.path.last() == p);
    assert(w.counts[p] == w.pos[cur] + 1);
}


/// Once the walk is back at the root with nothing left to do there, and has
/// reached every node, what it found is the shape of a tree.
proof fn lemma_walk_done(nodes: Seq<LinkCollectionNode>, w: Walk)
    requires
        walk_inv(nodes, w),
        w.path.len() == 1,
        nodes[0].next_sibling == 0,
        nodes[0].number_of_children > 0 ==> w.counts[0] > 0,
        forall|v: int| 0 <= v < nodes.len() ==> visited(w, v),
    ensures
        is_tree_shape(nodes, w.levels, w.counts),
{
    let n = nodes.len() as int;
    assert(w.path[0] == 0);
    assert(w.levels[0] == 0);
    assert forall|c: int| 0 < c < n implies #[trigger] is_placed(nodes, w.levels, w.counts, c) by {
        assert(visited(w, c));
        assert(entered(nodes, w, c));
        let p = nodes[c].parent as int;
        assert(w.levels[p] >= -1);
        assert(chain_nth(nodes, p, w.pos[c]) == c);
    }
    assert forall|p: int| 0 <= p < n implies #[trigger] chain_ends(nodes, w.counts, p) by {
        assert(w.counts[p] >= 0);
        assert(visited(w, p));
        if p != 0 {
            assert(!on_path(w, p));
            assert(closed(nodes, w, p));
        }
    }
    assert forall|p: int, k: int| 0 <= p < n && 0 <= k < w.counts[p] implies #[trigger] is_chain_member(
        nodes,
        p,
        k,
    ) by {
        assert(listed(nodes, w, p, k));
    }
    assert forall|p: int, j: int, k: int| 0 <= p < n && 0 <= j < k < w.counts[p] implies #[trigger] chain_nth(
        nodes,
        p,
        j,
    ) != #[trigger] chain_nth(nodes, p, k) by {
        assert(listed(nodes, w, p, j));
        assert(listed(nodes, w, p, k));
    }
}

/// In a tree, a node with children has a first child that names it as parent.
proof fn lemma_tree_allows_descend(
    nodes: Seq<LinkCollectionNode>,
    levels: Seq<int>,
    counts: Seq<int>,
    cur: int,
)
    requires
        is_tree_shape(nodes, levels, counts),
        0 <= cur < nodes.len(),
        nodes[cur].number_of_children > 0,
    ensures
        0 < nodes[cur].first_child < nodes.len(),
        nodes[nodes[cur].first_child as int].parent == cur,
        counts[cur] >= 1,
{
    assert(chain_ends(nodes, counts, cur));
    assert(is_chain_member(nodes, cur, 0));
}

/// In a tree, the walk comes to a node whose first child is reached only after
/// it went down from that node.
proof fn lemma_tree_counts_descent(
    nodes: Seq<LinkCollectionNode>,
    levels: Seq<int>,
    counts: Seq<int>,
    w: Walk,
    cur: int,
)
    requires
        is_tree_shape(nodes, levels, counts),
        walk_inv(nodes, w),
        0 <= cur < nodes.len(),
        nodes[cur].number_of_children > 0,
        nodes[cur].first_child < nodes.len() ==> visited(w, nodes[cur].first_child as int),
    ensures
        w.counts[cur] > 0,
{
    lemma_tree_allows_descend(nodes, levels, counts, cur);
    assert(entered(nodes, w, nodes[cur].first_child as int));
}

/// In a tree, the next sibling of the current node is a child of the same
/// parent that the walk has not reached yet.
proof fn lemma_tree_allows_advance(
    nodes: Seq<LinkCollectionNode>,
    levels: Seq<int>,
    counts: Seq<int>,
    w: Walk,
)
    requires
        is_tree_shape(nodes, levels, counts),
        walk_inv(nodes, w),
        forall|p: int| 0 <= p < nodes.len() ==> #[trigger] w.counts[p] <= counts[p],
        nodes[w.path.last()].next_sibling != 0,
    ensures
        w.path.last() != 0,
        nodes[w.path.last()].next_sibling < nodes.len(),
        nodes[nodes[w.path.last()].next_sibling as int].parent == nodes[w.path.last()].parent,
        !visited(w, nodes[w.path.last()].next_sibling as int),
        nodes[w.path.last()].parent < nodes.len(),
        w.counts[nodes[w.path.last()].parent as int] + 1 <= counts[nodes[w.path.last()].parent as int],
{
    let top = w.path.len() - 1;
    let cur = w.path.last();
    let p = nodes[cur].parent as int;
    let next = nodes[cur].next_sibling as int;
    assert(w.path[top] == cur);
    assert(w.levels[cur] == top);
    assert(cur != 0);
    assert(visited(w, cur));
    assert(entered(nodes, w, cur));
    assert(top >= 1) by {
        assert(w.path[0] == 0);
    }
    assert(w.path[top - 1] == p);
    assert(w.counts[p] == w.pos[cur] + 1);
    assert(is_placed(nodes, levels, counts, cur));
    let k = choose|k: int| 0 <= k < counts[p] && #[trigger] chain_nth(nodes, p, k) == cur;
    assert(chain_ends(nodes, counts, p));
    assert(k + 1 < counts[p]);
    assert(is_chain_member(nodes, p, k + 1));
    assert(chain_nth(nodes, p, k + 1) == next);
    assert(w.counts[p] <= counts[p]);
    if w.pos[cur] < k {
        assert(chain_nth(nodes, p, w.pos[cur]) != chain_nth(nodes, p, k));
    }
    if k < w.pos[cur] {
        assert(chain_nth(nodes, p, k) != chain_nth(nodes, p, w.pos[cur]));
    }
    assert(w.pos[cur] == k);
    if visited(w, next) {
        assert(entered(nodes, w, next));
        assert(chain_nth(nodes, p, w.pos[next]) != chain_nth(nodes, p, k + 1));
    }
}

/// In a tree, a walk that has come back to the root with nothing left to do
/// there has reached every member of the chain of every reached node.
proof fn lemma_walk_reaches_chain(
    nodes: Seq<LinkCollectionNode>,
    levels: Seq<int>,
    counts: Seq<int>,
    w: Walk,
    p: int,
    k: int,
)
    requires
        is_tree_shape(nodes, levels, counts),
        walk_inv(nodes, w),
        w.path.len() == 1,
        nodes[0].number_of_children > 0 ==> w.counts[0] > 0,
        0 <= p < nodes.len(),
        visited(w, p),
        0 <= k < counts[p],
    ensures
        visited(w, chain_nth(nodes, p, k)),
    decreases k,
{
    assert(w.path[0] == 0);
    assert(w.levels[0] == 0);
    if k == 0 {
        assert(chain_ends(nodes, counts, p));
        if p != 0 {
            assert(!on_path(w, p));
            assert(closed(nodes, w, p));
        }
        assert(w.counts[p] > 0);
        assert(listed(nodes, w, p, 0));
    } else {
        lemma_walk_reaches_chain(nodes, levels, counts, w, p, k - 1);
        let u = chain_nth(nodes, p, k - 1);
        assert(is_chain_member(nodes, p, k - 1));
        assert(is_chain_member(nodes, p, k));
        assert(!on_path(w, u));
        assert(closed(nodes, w, u));
    }
}

/// In a tree, a walk that has come back to the root with nothing left to do
/// there has reached every node.
proof fn lemma_walk_reaches(
    nodes: Seq<LinkCollectionNode>,
    levels: Seq<int>,
    counts: Seq<int>,
    w: Walk,
    v: int,
)
    requires
        is_tree_shape(nodes, levels, counts),
        walk_inv(nodes, w),
        w.path.len() == 1,
        nodes[0].number_of_children > 0 ==> w.counts[0] > 0,
        0 <= v < nodes.len(),
    ensures
        visited(w, v),
        levels[v] >= 0,
    decreases levels[v],
{
    assert(w.path[0] == 0);
    assert(w.levels[0] == 0);
    if v != 0 {
        assert(is_placed(nodes, levels, counts, v));
        let p = nodes[v].parent as int;
        lemma_walk_reaches(nodes, levels, counts, w, p);
        let k = choose|k: int| 0 <= k < counts[p] && #[trigger] chain_nth(nodes, p, k) == v;
        lemma_walk_reaches_chain(nodes, levels, counts, w, p, k);
    }
}

/// The number of nodes that the walk has not reached.
spec fn count_unvisited(levels: Seq<int>) -> nat
    decreases levels.len(),
{
    if levels.len() == 0 {
        0
    } else {
        count_unvisited(levels.drop_last()) + if levels.last() == -1 {
            1nat
        } else {
            0nat
        }
    }
}

proof fn lemma_count_all(levels: Seq<int>)
    requires
        forall|v: int| 0 <= v < levels.len() ==> levels[v] == -1,
    ensures
        count_unvisited(levels) == levels.len(),
    decreases levels.len(),
{
    if levels.len() > 0 {
        lemma_count_all(levels.drop_last());
    }
}

proof fn lemma_visit_one(levels: Seq<int>, v: int, level: int)
    requires
        0 <= v < levels.len(),
        levels[v] == -1,
        level != -1,
    ensures
        count_unvisited(levels.update(v, level)) + 1 == count_unvisited(levels),
    decreases levels.len(),
{
    let after = levels.update(v, level);
    if v == levels.len() - 1 {
        assert(after.drop_last() =~= levels.drop_last());
    } else {
        lemma_visit_one(levels.drop_last(), v, level);
        assert(after.drop_last() =~= levels.drop_last().update(v, level));
    }
}

proof fn lemma_find_unvisited(levels: Seq<int>) -> (v: int)
    requires
        count_unvisited(levels) > 0,
    ensures
        0 <= v < levels.len(),
        levels[v] == -1,
    decreases levels.len(),
{
    if levels.last() == -1 {
        levels.len() - 1
    } else {
        lemma_find_unvisited(levels.drop_last())
    }
}

proof fn lemma_none_unvisited(levels: Seq<int>)
    requires
        count_unvisited(levels) == 0,
    ensures
        forall|v: int| 0 <= v < levels.len() ==> levels[v] != -1,
    decreases levels.len(),
{
    if levels.len() > 0 {
        lemma_none_unvisited(levels.drop_last());
        assert forall|v: int| 0 <= v < levels.len() implies levels[v] != -1 by {
            if v < levels.len() - 1 {
                assert(levels.drop_last()[v] == levels[v]);
            }
        }
    }
}

/// Finds the depth and the number of direct children of every node, by a walk
/// along the links that starts at the root and keeps no stack: down to a first
/// child that has not been reached, else on to the next sibling, else back up
/// to the parent, until it is back at the root with nothing left to do.
///
/// The walk trusts no link. It fails where a link leaves the array, leads to a
/// node that was reached before or that names another parent, and where it
/// ends before every node was reached: that is, exactly where the nodes do not
/// form a tree.
pub fn analyze_hierarchy(blob: &PreparsedData) -> (r: Result<Hierarchy, WinError>)
    ensures
        r is Ok <==> forms_tree(blob.nodes()),
        r matches Ok(h) ==> h.describes(blob.nodes()),
        r matches Ok(h) ==> h.levels@.len() == blob.nodes().len() && h.child_counts@.len()
            == blob.nodes().len(),
        r matches Ok(h) ==> forall|c: int|
            0 <= c < h.levels@.len() ==> 0 <= #[trigger] h.levels@[c] <= h.max_level,
        r matches Ok(h) ==> h.levels@.len() > 0 ==> h.levels@[0] == 0,
        r matches Err(e) ==> e == WinError::InvalidPreparsedData,
{
    let n: usize = blob.number_of_nodes();
    let ghost nodes = blob.nodes();
    let mut levels: Vec<i32> = Vec::new();
    let mut child_counts: Vec<u16> = Vec::new();
    let mut i: usize = 0;
    while i < n
        invariant
            i <= n,
            levels@.len() == i,
            child_counts@.len() == i,
            forall|j: int| 0 <= j < i ==> levels@[j] == -1 && child_counts@[j] == 0,
        decreases n - i,
    {
        levels.push(UNVISITED);
        child_counts.push(0);
        i = i + 1;
    }
    if n == 0 {
        let h = Hierarchy { levels, child_counts, max_level: 0 };
        assert(is_tree_shape(nodes, h.level_seq(), h.count_seq()));
        return Ok(h);
    }
    let ghost shape = shape_of(nodes);
    let ghost mut w = Walk {
        levels: ints_of_i32(levels@).update(0, 0),
        counts: ints_of_u16(child_counts@),
        pos: Seq::new(n as nat, |v: int| 0int),
        path: seq![0int],
    };
    proof {
        lemma_count_all(ints_of_i32(levels@));
        lemma_visit_one(ints_of_i32(levels@), 0, 0);
        if forms_tree(nodes) {
            lemma_shape_of(nodes);
            assert forall|p: int| 0 <= p < n implies #[trigger] w.counts[p] <= shape.1[p] by {
                assert(chain_ends(nodes, shape.1, p));
            }
        }
    }
    levels[0] = 0;
    assert(w.levels =~= ints_of_i32(levels@));
    let mut cur: usize = 0;
    let mut level: i32 = 0;
    let mut max_level: i32 = 0;
    let mut unvisited: usize = n - 1;
    let ghost mut deepest: int = 0;
    loop
        invariant
            n == nodes.len(),
            nodes == blob.nodes(),
            1 <= n <= u16::MAX,
            levels@.len() == n,
            child_counts@.len() == n,
            w.levels == ints_of_i32(levels@),
            w.counts == ints_of_u16(child_counts@),
            walk_inv(nodes, w),
            0 <= level,
            w.path.len() == level + 1,
            w.path.last() == cur,
            cur < n,
            unvisited == count_unvisited(w.levels),
            level + unvisited <= n - 1,
            forall|p: int| 0 <= p < n ==> #[trigger] child_counts@[p] + unvisited <= n - 1,
            forall|v: int| 0 <= v < n ==> #[trigger] levels@[v] <= max_level,
            0 <= deepest < n,
            levels@[deepest] == max_level,
            shape == shape_of(nodes),
            forms_tree(nodes) ==> is_tree_shape(nodes, shape.0, shape.1),
            forms_tree(nodes) ==> forall|p: int| 0 <= p < n ==> #[trigger] w.counts[p] <= shape.1[p],
        ensures
            level == 0,
            nodes[0].next_sibling == 0,
            nodes[0].number_of_children > 0 ==> w.counts[0] > 0,
        decreases 2 * unvisited + level,
    {
        let node = blob.node(cur);
        let has_children = node.number_of_children > 0;
        let first: usize = node.first_child as usize;
        if has_children && first >= n {
            proof {
                if forms_tree(nodes) {
                    lemma_tree_allows_descend(nodes, shape.0, shape.1, cur as int);
                }
            }
            return Err(WinError::InvalidPreparsedData);
        }
        if has_children && levels[first] == UNVISITED {
            if blob.node(first).parent as usize != cur {
                proof {
                    if forms_tree(nodes) {
                        lemma_tree_allows_descend(nodes, shape.0, shape.1, cur as int);
                    }
                }
                return Err(WinError::InvalidPreparsedData);
            }
            proof {
                lemma_descend(nodes, w);
                lemma_visit_one(w.levels, first as int, level + 1);
                if forms_tree(nodes) {
                    lemma_tree_allows_descend(nodes, shape.0, shape.1, cur as int);
                }
                assert(child_counts@[cur as int] == w.counts[cur as int]);
            }
            level = level + 1;
            levels[first] = level;
            if level > max_level {
                max_level = level;
                proof {
                    deepest = first as int;
                }
            }
            child_counts[cur] = child_counts[cur] + 1;
            unvisited = unvisited - 1;
            proof {
                w = descend(nodes, w);
                assert(w.levels =~= ints_of_i32(levels@));
                assert(w.counts =~= ints_of_u16(child_counts@));
            }
            cur = first;
        } else {
            if has_children && child_counts[cur] == 0 {
                proof {
                    if forms_tree(nodes) {
                        lemma_tree_counts_descent(nodes, shape.0, shape.1, w, cur as int);
                        assert(child_counts@[cur as int] == w.counts[cur as int]);
                    }
                }
                return Err(WinError::InvalidPreparsedData);
            }
            assert(has_children ==> w.counts[cur as int] > 0) by {
                assert(child_counts@[cur as int] == w.counts[cur as int]);
            }
            if node.next_sibling != 0 {
                let next: usize = node.next_sibling as usize;
                if cur == 0 || next >= n {
                    proof {
                        if forms_tree(nodes) {
                            lemma_tree_allows_advance(nodes, shape.0, shape.1, w);
                        }
                    }
                    return Err(WinError::InvalidPreparsedData);
                }
                if levels[next] != UNVISITED || blob.node(next).parent != node.parent {
                    proof {
                        if forms_tree(nodes) {
                            lemma_tree_allows_advance(nodes, shape.0, shape.1, w);
                            assert(levels@[next as int] == w.levels[next as int]);
                        }
                    }
                    return Err(WinError::InvalidPreparsedData);
                }
                let parent: usize = node.parent as usize;
                proof {
                    assert(levels@[next as int] == w.levels[next as int]);
                    lemma_advance(nodes, w);
                    lemma_visit_one(w.levels, next as int, level as int);
                    if forms_tree(nodes) {
                        lemma_tree_allows_advance(nodes, shape.0, shape.1, w);
                    }
                    assert(child_counts@[parent as int] == w.counts[parent as int]);
                }
                levels[next] = level;
                child_counts[parent] = child_counts[parent] + 1;
                unvisited = unvisited - 1;
                proof {
                    w = advance(nodes, w);
                    assert(w.levels =~= ints_of_i32(levels@));
                    assert(w.counts =~= ints_of_u16(child_counts@));
                }
                cur = next;
            } else {
                if level == 0 {
                    proof {
                        assert(w.path[0] == 0);
                    }
                    break ;
                }
                proof {
                    assert(w.path[level as int] == cur);
                    assert(w.levels[cur as int] == level);
                    assert(w.path[0] == 0);
                    lemma_ascend(nodes, w);
                    w = ascend(w);
                }
                level = level - 1;
                cur = node.parent as usize;
            }
        }
    }
    if unvisited != 0 {
        proof {
            if forms_tree(nodes) {
                let v = lemma_find_unvisited(w.levels);
                lemma_walk_reaches(nodes, shape.0, shape.1, w, v);
            }
        }
        return Err(WinError::InvalidPreparsedData);
    }
    let h = Hierarchy { levels, child_counts, max_level };
    proof {
        lemma_none_unvisited(w.levels);
        lemma_walk_done(nodes, w);
        assert(h.level_seq() == w.levels);
        assert(h.count_seq() == w.counts);
        assert(h.level_seq()[deepest] == max_level);
        assert forall|c: int| 0 <= c < h.levels@.len() implies 0 <= #[trigger] h.levels@[c] by {
            lemma_levels_nonnegative(nodes, w.levels, w.counts, c);
            assert(w.levels[c] == h.levels@[c]);
        }
        assert(w.levels[0] == h.levels@[0]);
    }
    Ok(h)
}


} // verus!
