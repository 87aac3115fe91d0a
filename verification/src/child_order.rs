//! The order in which the direct children of each collection are written out.
//!
//! The children of a node start in the order of its sibling chain, last
//! member first. Then, for every report type and report ID in turn, one pass
//! along the row exchanges each pair of neighbours of which the first starts
//! at a later bit than the second. A child without bits for a report is never
//! moved by that report's pass.

use vstd::prelude::*;
use crate::bit_range::{BitRange, BitRangeTable, RangeKey, REPORT_IDS};
use crate::blob::PreparsedData;
use crate::hierarchy::{
    Hierarchy, chain_ends, chain_nth, ints_of_u16, is_chain_member, is_placed, is_tree_shape,
    lemma_first_child, lemma_levels_nonnegative, lemma_next_sibling, lemma_position, position_of,
};
use crate::typedefs::{LinkCollectionNode, ReportType};

verus! {

/// The members of the sibling chain of `p`, the last one first.
pub open spec fn reversed_chain(nodes: Seq<LinkCollectionNode>, p: int, count: int) -> Seq<int> {
    Seq::new(count as nat, |i: int| chain_nth(nodes, p, count - 1 - i))
}

/// Whether neighbours `a` and `b` change places: both have bits in report
/// `report_id` of type `rt`, and `a` starts at a later bit than `b`.
pub open spec fn starts_later(
    ranges: Map<RangeKey, BitRange>,
    report_id: int,
    rt: ReportType,
    a: int,
    b: int,
) -> bool {
    match (ranges[(a, report_id, rt)].first_bit, ranges[(b, report_id, rt)].first_bit) {
        (Some(x), Some(y)) => x > y,
        _ => false,
    }
}

/// The row after the pass for one report has looked at the neighbours up to
/// position `upto`.
pub open spec fn pass_upto(
    ranges: Map<RangeKey, BitRange>,
    report_id: int,
    rt: ReportType,
    row: Seq<int>,
    upto: int,
) -> Seq<int>
    decreases upto,
{
    if upto <= 1 {
        row
    } else {
        let done = pass_upto(ranges, report_id, rt, row, upto - 1);
        if starts_later(ranges, report_id, rt, done[upto - 2], done[upto - 1]) {
            done.update(upto - 2, done[upto - 1]).update(upto - 1, done[upto - 2])
        } else {
            done
        }
    }
}

/// The row after the passes for the first `ids` report IDs of type `rt`.
pub open spec fn after_ids(
    ranges: Map<RangeKey, BitRange>,
    rt: ReportType,
    row: Seq<int>,
    ids: int,
) -> Seq<int>
    decreases ids,
{
    if ids <= 0 {
        row
    } else {
        let done = after_ids(ranges, rt, row, ids - 1);
        pass_upto(ranges, ids - 1, rt, done, done.len() as int)
    }
}

/// The row after the passes for all report IDs of the first `types` report
/// types.
pub open spec fn after_types(ranges: Map<RangeKey, BitRange>, row: Seq<int>, types: int) -> Seq<int>
    decreases types,
{
    if types <= 0 {
        row
    } else {
        after_ids(
            ranges,
            ReportType::at_ordinal(types - 1),
            after_types(ranges, row, types - 1),
            REPORT_IDS as int,
        )
    }
}

/// The children of `p` in the order in which they are written out.
pub open spec fn child_order_of(
    nodes: Seq<LinkCollectionNode>,
    counts: Seq<int>,
    ranges: Map<RangeKey, BitRange>,
    p: int,
) -> Seq<int> {
    let chain = reversed_chain(nodes, p, counts[p]);
    if counts[p] > 1 {
        after_types(ranges, chain, 3)
    } else {
        chain
    }
}

/// The children of every node in the order in which they are written out.
pub open spec fn child_orders(
    nodes: Seq<LinkCollectionNode>,
    counts: Seq<int>,
    ranges: Map<RangeKey, BitRange>,
) -> Seq<Seq<int>> {
    Seq::new(nodes.len(), |p: int| child_order_of(nodes, counts, ranges, p))
}

/// For each collection, its direct children in the order in which they are
/// written out.
pub struct ChildOrder {
    pub rows: Vec<Vec<u16>>,
}

impl View for ChildOrder {
    type V = Seq<Seq<int>>;

    open spec fn view(&self) -> Seq<Seq<int>> {
        Seq::new(self.rows@.len(), |p: int| ints_of_u16(self.rows@[p]@))
    }
}

impl ChildOrder {
    /// The children of collection `p`, in order.
    pub fn children(&self, p: usize) -> (row: &Vec<u16>)
        requires
            p < self@.len(),
        ensures
            ints_of_u16(row@) == self@[p as int],
    {
        &self.rows[p]
    }
}

/// The child at place `i` has no bits in any report.
pub open spec fn is_vacant_at(ranges: Map<RangeKey, BitRange>, row: Seq<int>, i: int) -> bool {
    forall|report_id: int, rt: ReportType|
        0 <= report_id < REPORT_IDS ==> (#[trigger] ranges[(row[i], report_id, rt)]).first_bit is None
}

proof fn lemma_pass_keeps_vacant(
    ranges: Map<RangeKey, BitRange>,
    report_id: int,
    rt: ReportType,
    row: Seq<int>,
    upto: int,
    i: int,
)
    requires
        upto <= row.len(),
        0 <= i < row.len(),
        0 <= report_id < REPORT_IDS,
        is_vacant_at(ranges, row, i),
    ensures
        pass_upto(ranges, report_id, rt, row, upto).len() == row.len(),
        pass_upto(ranges, report_id, rt, row, upto)[i] == row[i],
    decreases upto,
{
    if upto > 1 {
        lemma_pass_keeps_vacant(ranges, report_id, rt, row, upto - 1, i);
        assert(ranges[(row[i], report_id, rt)].first_bit is None);
    }
}

proof fn lemma_after_ids_keeps_vacant(
    ranges: Map<RangeKey, BitRange>,
    rt: ReportType,
    row: Seq<int>,
    ids: int,
    i: int,
)
    requires
        ids <= REPORT_IDS,
        0 <= i < row.len(),
        is_vacant_at(ranges, row, i),
    ensures
        after_ids(ranges, rt, row, ids).len() == row.len(),
        after_ids(ranges, rt, row, ids)[i] == row[i],
    decreases ids,
{
    if ids > 0 {
        lemma_after_ids_keeps_vacant(ranges, rt, row, ids - 1, i);
        let done = after_ids(ranges, rt, row, ids - 1);
        assert(is_vacant_at(ranges, done, i));
        lemma_pass_keeps_vacant(ranges, ids - 1, rt, done, done.len() as int, i);
    }
}

/// A child that has no bits in any report is left at its place by all the
/// passes.
pub proof fn lemma_vacant_child_stays(
    ranges: Map<RangeKey, BitRange>,
    row: Seq<int>,
    types: int,
    i: int,
)
    requires
        0 <= i < row.len(),
        is_vacant_at(ranges, row, i),
    ensures
        after_types(ranges, row, types).len() == row.len(),
        after_types(ranges, row, types)[i] == row[i],
    decreases types,
{
    if types > 0 {
        lemma_vacant_child_stays(ranges, row, types - 1, i);
        let done = after_types(ranges, row, types - 1);
        assert(is_vacant_at(ranges, done, i));
        lemma_after_ids_keeps_vacant(
            ranges,
            ReportType::at_ordinal(types - 1),
            done,
            REPORT_IDS as int,
            i,
        );
    }
}

/// Children without bits in any report keep the places that the sibling chain
/// gives them: the member at position `k` of the chain of `p` stands at place
/// `counts[p] - 1 - k` of the order. So two such siblings stand in the order
/// as they stand in the chain read from its end.
pub proof fn lemma_vacant_children_keep_chain_order(
    nodes: Seq<LinkCollectionNode>,
    counts: Seq<int>,
    ranges: Map<RangeKey, BitRange>,
    p: int,
    k: int,
)
    requires
        0 <= k < counts[p],
        forall|report_id: int, rt: ReportType|
            0 <= report_id < REPORT_IDS ==> (#[trigger] ranges[(
                chain_nth(nodes, p, k),
                report_id,
                rt,
            )]).first_bit is None,
    ensures
        child_order_of(nodes, counts, ranges, p).len() == counts[p],
        child_order_of(nodes, counts, ranges, p)[counts[p] - 1 - k] == chain_nth(nodes, p, k),
{
    let chain = reversed_chain(nodes, p, counts[p]);
    let i = counts[p] - 1 - k;
    assert(chain[i] == chain_nth(nodes, p, k));
    assert(is_vacant_at(ranges, chain, i));
    lemma_vacant_child_stays(ranges, chain, 3, i);
}

fn starts_later_than(
    table: &BitRangeTable,
    report_id: u8,
    rt: ReportType,
    a: u16,
    b: u16,
) -> (later: bool)
    requires
        a < table.nodes(),
        b < table.nodes(),
    ensures
        later == starts_later(table@, report_id as int, rt, a as int, b as int),
{
    let first = table.get(a as usize, report_id, rt).first_bit;
    let second = table.get(b as usize, report_id, rt).first_bit;
    match (first, second) {
        (Some(x), Some(y)) => x > y,
        _ => false,
    }
}

/// The children of node `p`, in the order in which they are written out.
fn order_children(blob: &PreparsedData, hierarchy: &Hierarchy, table: &BitRangeTable, p: usize) -> (row:
    Vec<u16>)
    requires
        hierarchy.describes(blob.nodes()),
        table.nodes() == blob.nodes().len(),
        p < blob.nodes().len(),
    ensures
        ints_of_u16(row@) == child_order_of(blob.nodes(), hierarchy.count_seq(), table@, p as int),
{
    let ghost nodes = blob.nodes();
    let ghost counts = hierarchy.count_seq();
    let ghost n = nodes.len();
    let count: usize = hierarchy.child_counts[p] as usize;
    assert(count == counts[p as int]);
    let ghost chain = reversed_chain(nodes, p as int, count as int);
    let mut row: Vec<u16> = Vec::new();
    let mut filled: usize = 0;
    while filled < count
        invariant
            filled <= count,
            row@.len() == filled,
        decreases count - filled,
    {
        row.push(0);
        filled = filled + 1;
    }
    let mut k: usize = 0;
    let mut child: usize = blob.node(p).first_child as usize;
    while k < count
        invariant
            k <= count,
            row@.len() == count,
            count == counts[p as int],
            p < n,
            n == nodes.len(),
            nodes == blob.nodes(),
            counts == hierarchy.count_seq(),
            hierarchy.describes(nodes),
            child == chain_nth(nodes, p as int, k as int),
            forall|i: int| count - k <= i < count ==> #[trigger] row@[i] == chain_nth(nodes, p as int, count - 1 - i),
        decreases count - k,
    {
        proof {
            assert(is_chain_member(nodes, p as int, k as int));
        }
        row[count - 1 - k] = child as u16;
        k = k + 1;
        child = blob.node(child).next_sibling as usize;
    }
    proof {
        assert(ints_of_u16(row@) =~= chain);
        assert forall|i: int| 0 <= i < count implies #[trigger] row@[i] < n by {
            assert(is_chain_member(nodes, p as int, count - 1 - i));
            assert(ints_of_u16(row@)[i] == chain[i]);
        }
    }
    if count > 1 {
        let mut t: usize = 0;
        while t < 3
            invariant
                t <= 3,
                count > 1,
                row@.len() == count,
                table.nodes() == n,
                forall|i: int| 0 <= i < count ==> #[trigger] row@[i] < n,
                ints_of_u16(row@) == after_types(table@, chain, t as int),
            decreases 3 - t,
        {
            let rt = ReportType::from_index(t);
            let mut id: usize = 0;
            while id < REPORT_IDS
                invariant
                    id <= REPORT_IDS,
                    t < 3,
                    count > 1,
                    rt == ReportType::at_ordinal(t as int),
                    row@.len() == count,
                    table.nodes() == n,
                    forall|i: int| 0 <= i < count ==> #[trigger] row@[i] < n,
                    ints_of_u16(row@) == after_ids(
                        table@,
                        rt,
                        after_types(table@, chain, t as int),
                        id as int,
                    ),
                decreases REPORT_IDS - id,
            {
                let ghost start = ints_of_u16(row@);
                let mut i: usize = 1;
                while i < count
                    invariant
                        1 <= i <= count,
                        id < REPORT_IDS,
                        row@.len() == count,
                        start.len() == count,
                        table.nodes() == n,
                        forall|j: int| 0 <= j < count ==> #[trigger] row@[j] < n,
                        ints_of_u16(row@) == pass_upto(table@, id as int, rt, start, i as int),
                    decreases count - i,
                {
                    let prev: u16 = row[i - 1];
                    let cur: u16 = row[i];
                    let ghost done = ints_of_u16(row@);
                    if starts_later_than(table, id as u8, rt, prev, cur) {
                        row[i - 1] = cur;
                        row[i] = prev;
                    }
                    proof {
                        assert(done[i - 1] == prev && done[i as int] == cur);
                        assert(ints_of_u16(row@) =~= pass_upto(
                            table@,
                            id as int,
                            rt,
                            start,
                            i + 1,
                        ));
                    }
                    i = i + 1;
                }
                id = id + 1;
            }
            t = t + 1;
        }
    }
    row
}

/// The number of flags that are not set.
spec fn count_unset(flags: Seq<bool>) -> nat
    decreases flags.len(),
{
    if flags.len() == 0 {
        0
    } else {
        count_unset(flags.drop_last()) + if flags.last() {
            0nat
        } else {
            1nat
        }
    }
}

proof fn lemma_set_one(flags: Seq<bool>, at: int)
    requires
        0 <= at < flags.len(),
        !flags[at],
    ensures
        count_unset(flags.update(at, true)) + 1 == count_unset(flags),
    decreases flags.len(),
{
    let after = flags.update(at, true);
    if at == flags.len() - 1 {
        assert(after.drop_last() =~= flags.drop_last());
    } else {
        lemma_set_one(flags.drop_last(), at);
        assert(after.drop_last() =~= flags.drop_last().update(at, true));
    }
}

/// How many siblings follow node `v` in the chain of its parent.
spec fn siblings_left(nodes: Seq<LinkCollectionNode>, counts: Seq<int>, v: int) -> int {
    if v == 0 {
        0
    } else {
        counts[nodes[v].parent as int] - 1 - position_of(nodes, counts, v)
    }
}

/// A node that the walk has left: the row of its children is resolved, and
/// its next sibling, if it has one, has been reached.
spec fn is_left(
    nodes: Seq<LinkCollectionNode>,
    counts: Seq<int>,
    reached: Seq<bool>,
    parsed: Seq<bool>,
    v: int,
) -> bool {
    &&& counts[v] > 0 ==> parsed[nodes[v].first_child as int]
    &&& nodes[v].next_sibling != 0 ==> reached[nodes[v].next_sibling as int]
}

/// Node `v` is one of the nodes from the root down to the current one.
spec fn on_path(levels: Seq<int>, path: Seq<int>, v: int) -> bool {
    0 <= levels[v] < path.len() && path[levels[v]] == v
}

/// What holds while the walk over the tree runs. `path` holds the nodes from
/// the root down to the current one, `reached` says which nodes were current
/// at some time, and `parsed` which nodes were entered as a first child.
spec fn tour_inv(
    nodes: Seq<LinkCollectionNode>,
    levels: Seq<int>,
    counts: Seq<int>,
    reached: Seq<bool>,
    parsed: Seq<bool>,
    path: Seq<int>,
) -> bool {
    let n = nodes.len() as int;
    &&& reached.len() == n
    &&& parsed.len() == n
    &&& path.len() >= 1
    &&& path[0] == 0
    &&& forall|i: int|
        0 <= i < path.len() ==> 0 <= #[trigger] path[i] < n && levels[path[i]] == i
            && reached[path[i]]
    &&& forall|i: int| 1 <= i < path.len() ==> nodes[#[trigger] path[i]].parent == path[i - 1]
    &&& forall|x: int| 0 <= x < n && #[trigger] parsed[x] ==> reached[x]
    &&& forall|v: int|
        0 <= v < n && #[trigger] reached[v] && !on_path(levels, path, v) ==> is_left(
            nodes,
            counts,
            reached,
            parsed,
            v,
        )
}

/// In a tree, a walk that is back at the root with nothing left to do there
/// has reached every member of the chain of every node that it reached.
proof fn lemma_tour_reaches_chain(
    nodes: Seq<LinkCollectionNode>,
    levels: Seq<int>,
    counts: Seq<int>,
    reached: Seq<bool>,
    parsed: Seq<bool>,
    path: Seq<int>,
    p: int,
    k: int,
)
    requires
        is_tree_shape(nodes, levels, counts),
        tour_inv(nodes, levels, counts, reached, parsed, path),
        path.len() == 1,
        is_left(nodes, counts, reached, parsed, 0),
        0 <= p < nodes.len(),
        reached[p],
        0 <= k < counts[p],
    ensures
        reached[chain_nth(nodes, p, k)],
        is_left(nodes, counts, reached, parsed, p),
    decreases k,
{
    assert(levels[0] == 0);
    if p != 0 {
        assert(is_placed(nodes, levels, counts, p));
    }
    assert(is_left(nodes, counts, reached, parsed, p));
    if k == 0 {
        lemma_first_child(nodes, levels, counts, p);
    } else {
        lemma_tour_reaches_chain(nodes, levels, counts, reached, parsed, path, p, k - 1);
        let u = chain_nth(nodes, p, k - 1);
        assert(is_chain_member(nodes, p, k - 1));
        assert(is_chain_member(nodes, p, k));
        assert(is_placed(nodes, levels, counts, u));
        assert(is_left(nodes, counts, reached, parsed, u));
    }
}

/// In a tree, a walk that is back at the root with nothing left to do there
/// has reached every node and left it.
proof fn lemma_tour_reaches(
    nodes: Seq<LinkCollectionNode>,
    levels: Seq<int>,
    counts: Seq<int>,
    reached: Seq<bool>,
    parsed: Seq<bool>,
    path: Seq<int>,
    v: int,
)
    requires
        is_tree_shape(nodes, levels, counts),
        tour_inv(nodes, levels, counts, reached, parsed, path),
        path.len() == 1,
        is_left(nodes, counts, reached, parsed, 0),
        0 <= v < nodes.len(),
    ensures
        reached[v],
        is_left(nodes, counts, reached, parsed, v),
    decreases levels[v],
{
    assert(levels[0] == 0);
    if v != 0 {
        lemma_position(nodes, levels, counts, v);
        let p = nodes[v].parent as int;
        lemma_levels_nonnegative(nodes, levels, counts, p);
        lemma_tour_reaches(nodes, levels, counts, reached, parsed, path, p);
        lemma_tour_reaches_chain(
            nodes,
            levels,
            counts,
            reached,
            parsed,
            path,
            p,
            position_of(nodes, counts, v),
        );
    }
}

/// Finds, for each collection, the order in which its direct children are
/// written out.
///
/// The tree is walked as in its analysis: down to a first child that has not
/// been entered, else on to the next sibling, else back up to the parent,
/// until the walk is back at the root with nothing left to do. The row of a
/// node is resolved when the walk goes down from it, which it does once for
/// every node that has children.
pub fn resolve_child_order(
    blob: &PreparsedData,
    hierarchy: &Hierarchy,
    table: &BitRangeTable,
) -> (order: ChildOrder)
    requires
        hierarchy.describes(blob.nodes()),
        table.nodes() == blob.nodes().len(),
    ensures
        order@ == child_orders(blob.nodes(), hierarchy.count_seq(), table@),
{
    let n: usize = blob.number_of_nodes();
    let ghost nodes = blob.nodes();
    let ghost levels = hierarchy.level_seq();
    let ghost counts = hierarchy.count_seq();
    let mut rows: Vec<Vec<u16>> = Vec::new();
    let mut parsed: Vec<bool> = Vec::new();
    let mut filled: usize = 0;
    while filled < n
        invariant
            filled <= n,
            rows@.len() == filled,
            parsed@.len() == filled,
            forall|p: int| 0 <= p < filled ==> (#[trigger] rows@[p])@.len() == 0,
            forall|p: int| 0 <= p < filled ==> !#[trigger] parsed@[p],
        decreases n - filled,
    {
        rows.push(Vec::new());
        parsed.push(false);
        filled = filled + 1;
    }
    if n == 0 {
        let order = ChildOrder { rows };
        assert(order@ =~= child_orders(nodes, counts, table@));
        return order;
    }
    let mut cur: usize = 0;
    let mut level: i32 = 0;
    let ghost mut reached: Seq<bool> = Seq::new(n as nat, |v: int| v == 0);
    let ghost mut path: Seq<int> = seq![0int];
    proof {
        assert(levels[0] == 0);
        assert forall|p: int| 0 <= p < n && counts[p] == 0 implies ints_of_u16(
            #[trigger] rows@[p]@,
        ) == child_order_of(nodes, counts, table@, p) by {
            assert(ints_of_u16(rows@[p]@) =~= reversed_chain(nodes, p, 0));
        }
    }
    loop
        invariant
            n == nodes.len(),
            n > 0,
            nodes == blob.nodes(),
            levels == hierarchy.level_seq(),
            counts == hierarchy.count_seq(),
            hierarchy.describes(nodes),
            table.nodes() == n,
            rows@.len() == n,
            cur < n,
            0 <= level,
            path.len() == level + 1,
            path.last() == cur,
            tour_inv(nodes, levels, counts, reached, parsed@, path),
            forall|p: int|
                0 <= p < n && (counts[p] == 0 || (nodes[p].first_child < n
                    && parsed@[nodes[p].first_child as int])) ==> ints_of_u16(
                    #[trigger] rows@[p]@,
                ) == child_order_of(
                    nodes,
                    counts,
                    table@,
                    p,
                ),
        ensures
            level == 0,
            path.len() == 1,
            is_left(nodes, counts, reached, parsed@, 0),
        decreases count_unset(parsed@), level, siblings_left(nodes, counts, cur as int),
    {
        let node = blob.node(cur);
        let first: usize = node.first_child as usize;
        proof {
            assert(path[level as int] == cur);
            assert(counts[cur as int] == hierarchy.child_counts@[cur as int]);
            if counts[cur as int] > 0 {
                lemma_first_child(nodes, levels, counts, cur as int);
            }
            if cur != 0 {
                lemma_position(nodes, levels, counts, cur as int);
            }
        }
        if hierarchy.child_counts[cur] != 0 && !parsed[first] {
            let row = order_children(blob, hierarchy, table, cur);
            let ghost parsed_before = parsed@;
            let ghost rows_before = rows@;
            parsed[first] = true;
            rows[cur] = row;
            proof {
                lemma_set_one(parsed_before, first as int);
                let path_after = path.push(first as int);
                let reached_after = reached.update(first as int, true);
                assert forall|i: int| 0 <= i < path_after.len() implies 0 <= #[trigger] path_after[i]
                    < n && levels[path_after[i]] == i && reached_after[path_after[i]] by {
                    if i < path.len() {
                        assert(path_after[i] == path[i]);
                    }
                }
                assert forall|i: int| 1 <= i < path_after.len() implies nodes[#[trigger] path_after[i]].parent
                    == path_after[i - 1] by {
                    if i < path.len() {
                        assert(path_after[i] == path[i]);
                    }
                    assert(path_after[i - 1] == path[i - 1]);
                }
                assert forall|v: int|
                    0 <= v < n && #[trigger] reached_after[v] && !on_path(
                        levels,
                        path_after,
                        v,
                    ) implies is_left(
                    nodes,
                    counts,
                    reached_after,
                    parsed@,
                    v,
                ) by {
                    assert(v != first);
                    assert(reached[v]);
                    lemma_levels_nonnegative(nodes, levels, counts, v);
                    if levels[v] < path.len() {
                        assert(path_after[levels[v]] == path[levels[v]]);
                    }
                    assert(is_left(nodes, counts, reached, parsed_before, v));
                    if counts[v] > 0 {
                        lemma_first_child(nodes, levels, counts, v);
                    }
                    if nodes[v].next_sibling != 0 {
                        lemma_next_sibling(nodes, levels, counts, v);
                    }
                }
                assert forall|p: int|
                    0 <= p < n && (counts[p] == 0 || (nodes[p].first_child < n
                        && parsed@[nodes[p].first_child as int])) implies ints_of_u16(
                    #[trigger] rows@[p]@,
                ) == child_order_of(
                    nodes,
                    counts,
                    table@,
                    p,
                ) by {
                    if p != cur {
                        assert(rows@[p] == rows_before[p]);
                        if counts[p] > 0 {
                            lemma_first_child(nodes, levels, counts, p);
                        }
                    }
                }
                path = path_after;
                reached = reached_after;
            }
            level = level + 1;
            cur = first;
        } else if node.next_sibling != 0 {
            proof {
                lemma_next_sibling(nodes, levels, counts, cur as int);
                let next = node.next_sibling as int;
                let path_after = path.drop_last().push(next);
                let reached_after = reached.update(next, true);
                assert forall|i: int| 0 <= i < path_after.len() implies 0 <= #[trigger] path_after[i]
                    < n && levels[path_after[i]] == i && reached_after[path_after[i]] by {
                    if i < level {
                        assert(path_after[i] == path[i]);
                    }
                }
                assert forall|i: int| 1 <= i < path_after.len() implies nodes[#[trigger] path_after[i]].parent
                    == path_after[i - 1] by {
                    assert(level >= 1);
                    assert(path_after[i - 1] == path[i - 1]);
                    if i < level {
                        assert(path_after[i] == path[i]);
                    } else {
                        assert(nodes[path[i]].parent == path[i - 1]);
                    }
                }
                assert forall|v: int|
                    0 <= v < n && #[trigger] reached_after[v] && !on_path(
                        levels,
                        path_after,
                        v,
                    ) implies is_left(
                    nodes,
                    counts,
                    reached_after,
                    parsed@,
                    v,
                ) by {
                    assert(v != next);
                    assert(reached[v]);
                    lemma_levels_nonnegative(nodes, levels, counts, v);
                    if nodes[v].next_sibling != 0 {
                        lemma_next_sibling(nodes, levels, counts, v);
                    }
                    if v != cur {
                        if levels[v] < level {
                            assert(path_after[levels[v]] == path[levels[v]]);
                        }
                        assert(is_left(nodes, counts, reached, parsed@, v));
                    }
                }
                path = path_after;
                reached = reached_after;
                lemma_position(nodes, levels, counts, next);
            }
            cur = node.next_sibling as usize;
        } else {
            if level == 0 {
                proof {
                    assert(path[0] == 0);
                }
                break ;
            }
            proof {
                assert(cur != 0) by {
                    assert(levels[0] == 0);
                }
                let path_after = path.drop_last();
                assert(path[level - 1] == nodes[cur as int].parent);
                assert forall|i: int| 0 <= i < path_after.len() implies 0 <= #[trigger] path_after[i]
                    < n && levels[path_after[i]] == i && reached[path_after[i]] by {
                    assert(path_after[i] == path[i]);
                }
                assert forall|i: int| 1 <= i < path_after.len() implies nodes[#[trigger] path_after[i]].parent
                    == path_after[i - 1] by {
                    assert(path_after[i] == path[i]);
                    assert(path_after[i - 1] == path[i - 1]);
                }
                assert forall|v: int|
                    0 <= v < n && #[trigger] reached[v] && !on_path(levels, path_after, v) implies is_left(
                    nodes,
                    counts,
                    reached,
                    parsed@,
                    v,
                ) by {
                    lemma_levels_nonnegative(nodes, levels, counts, v);
                    if v != cur {
                        if levels[v] < level {
                            assert(path_after[levels[v]] == path[levels[v]]);
                        }
                        assert(is_left(nodes, counts, reached, parsed@, v));
                    }
                }
                path = path_after;
            }
            level = level - 1;
            cur = node.parent as usize;
        }
    }
    let order = ChildOrder { rows };
    proof {
        assert forall|p: int| 0 <= p < n implies order@[p] == child_order_of(
            nodes,
            counts,
            table@,
            p,
        ) by {
            lemma_tour_reaches(nodes, levels, counts, reached, parsed@, path, p);
            if counts[p] > 0 {
                lemma_first_child(nodes, levels, counts, p);
            }
            assert(order@[p] == ints_of_u16(rows@[p]@));
        }
        assert(order@ =~= child_orders(nodes, counts, table@));
    }
    order
}

/// Every row of `orders` lists as many nodes as its collection has children,
/// each of them one level below the collection.
pub open spec fn is_child_order(
    nodes: Seq<LinkCollectionNode>,
    levels: Seq<int>,
    counts: Seq<int>,
    orders: Seq<Seq<int>>,
) -> bool {
    &&& orders.len() == nodes.len()
    &&& forall|p: int| 0 <= p < nodes.len() ==> (#[trigger] orders[p]).len() == counts[p]
    &&& forall|p: int, i: int|
        0 <= p < nodes.len() && 0 <= i < counts[p] ==> 0 < #[trigger] orders[p][i] < nodes.len()
            && levels[orders[p][i]] == levels[p] + 1
}


proof fn lemma_pass_keeps_all(
    ranges: Map<RangeKey, BitRange>,
    report_id: int,
    rt: ReportType,
    row: Seq<int>,
    upto: int,
    allowed: Set<int>,
)
    requires
        upto <= row.len(),
        forall|i: int| 0 <= i < row.len() ==> allowed.contains(#[trigger] row[i]),
    ensures
        pass_upto(ranges, report_id, rt, row, upto).len() == row.len(),
        forall|i: int|
            0 <= i < row.len() ==> allowed.contains(
                #[trigger] pass_upto(ranges, report_id, rt, row, upto)[i],
            ),
    decreases upto,
{
    if upto > 1 {
        lemma_pass_keeps_all(ranges, report_id, rt, row, upto - 1, allowed);
    }
}

proof fn lemma_after_ids_keeps_all(
    ranges: Map<RangeKey, BitRange>,
    rt: ReportType,
    row: Seq<int>,
    ids: int,
    allowed: Set<int>,
)
    requires
        forall|i: int| 0 <= i < row.len() ==> allowed.contains(#[trigger] row[i]),
    ensures
        after_ids(ranges, rt, row, ids).len() == row.len(),
        forall|i: int|
            0 <= i < row.len() ==> allowed.contains(#[trigger] after_ids(ranges, rt, row, ids)[i]),
    decreases ids,
{
    if ids > 0 {
        lemma_after_ids_keeps_all(ranges, rt, row, ids - 1, allowed);
        let done = after_ids(ranges, rt, row, ids - 1);
        lemma_pass_keeps_all(ranges, ids - 1, rt, done, done.len() as int, allowed);
    }
}

/// Every node that stands in a row after the passes stood in it before.
pub proof fn lemma_after_types_keeps_all(
    ranges: Map<RangeKey, BitRange>,
    row: Seq<int>,
    types: int,
    allowed: Set<int>,
)
    requires
        forall|i: int| 0 <= i < row.len() ==> allowed.contains(#[trigger] row[i]),
    ensures
        after_types(ranges, row, types).len() == row.len(),
        forall|i: int|
            0 <= i < row.len() ==> allowed.contains(#[trigger] after_types(ranges, row, types)[i]),
    decreases types,
{
    if types > 0 {
        lemma_after_types_keeps_all(ranges, row, types - 1, allowed);
        lemma_after_ids_keeps_all(
            ranges,
            ReportType::at_ordinal(types - 1),
            after_types(ranges, row, types - 1),
            REPORT_IDS as int,
            allowed,
        );
    }
}

/// In a tree, the resolved order of every collection lists children of that
/// collection, as many as it has.
pub proof fn lemma_child_orders_list_children(
    nodes: Seq<LinkCollectionNode>,
    levels: Seq<int>,
    counts: Seq<int>,
    ranges: Map<RangeKey, BitRange>,
)
    requires
        is_tree_shape(nodes, levels, counts),
    ensures
        is_child_order(nodes, levels, counts, child_orders(nodes, counts, ranges)),
        forall|p: int, i: int|
            0 <= p < nodes.len() && 0 <= i < counts[p] ==> nodes[#[trigger] child_orders(
                nodes,
                counts,
                ranges,
            )[p][i]].parent == p,
{
    let orders = child_orders(nodes, counts, ranges);
    assert forall|p: int| 0 <= p < nodes.len() implies (#[trigger] orders[p]).len() == counts[p]
        && forall|i: int|
        0 <= i < counts[p] ==> 0 < #[trigger] orders[p][i] < nodes.len() && levels[orders[p][i]]
            == levels[p] + 1 && nodes[orders[p][i]].parent == p by {
        assert(chain_ends(nodes, counts, p));
        let chain = reversed_chain(nodes, p, counts[p]);
        let allowed = Set::new(
            |c: int| 0 < c < nodes.len() && nodes[c].parent == p && levels[c] == levels[p] + 1,
        );
        assert forall|i: int| 0 <= i < chain.len() implies allowed.contains(#[trigger] chain[i]) by {
            assert(is_chain_member(nodes, p, counts[p] - 1 - i));
            assert(is_placed(nodes, levels, counts, chain[i]));
        }
        lemma_after_types_keeps_all(ranges, chain, 3, allowed);
        assert forall|i: int| 0 <= i < counts[p] implies allowed.contains(#[trigger] orders[p][i]) by {
            if counts[p] > 1 {
                assert(orders[p][i] == after_types(ranges, chain, 3)[i]);
            } else {
                assert(orders[p][i] == chain[i]);
            }
        }
    }
}


/// No node stands twice in the row.
pub open spec fn is_distinct(row: Seq<int>) -> bool {
    forall|i: int, j: int| 0 <= i < j < row.len() ==> row[i] != row[j]
}

proof fn lemma_pass_permutes(
    ranges: Map<RangeKey, BitRange>,
    report_id: int,
    rt: ReportType,
    row: Seq<int>,
    upto: int,
    x: int,
)
    requires
        upto <= row.len(),
    ensures
        pass_upto(ranges, report_id, rt, row, upto).len() == row.len(),
        is_distinct(row) ==> is_distinct(pass_upto(ranges, report_id, rt, row, upto)),
        row.contains(x) ==> pass_upto(ranges, report_id, rt, row, upto).contains(x),
    decreases upto,
{
    if upto > 1 {
        lemma_pass_permutes(ranges, report_id, rt, row, upto - 1, x);
        let done = pass_upto(ranges, report_id, rt, row, upto - 1);
        let after = pass_upto(ranges, report_id, rt, row, upto);
        if row.contains(x) {
            let i = choose|i: int| 0 <= i < done.len() && done[i] == x;
            if after != done {
                if i == upto - 2 {
                    assert(after[upto - 1] == x);
                } else if i == upto - 1 {
                    assert(after[upto - 2] == x);
                } else {
                    assert(after[i] == x);
                }
            }
        }
    }
}

proof fn lemma_after_ids_permutes(
    ranges: Map<RangeKey, BitRange>,
    rt: ReportType,
    row: Seq<int>,
    ids: int,
    x: int,
)
    ensures
        after_ids(ranges, rt, row, ids).len() == row.len(),
        is_distinct(row) ==> is_distinct(after_ids(ranges, rt, row, ids)),
        row.contains(x) ==> after_ids(ranges, rt, row, ids).contains(x),
    decreases ids,
{
    if ids > 0 {
        lemma_after_ids_permutes(ranges, rt, row, ids - 1, x);
        let done = after_ids(ranges, rt, row, ids - 1);
        lemma_pass_permutes(ranges, ids - 1, rt, done, done.len() as int, x);
    }
}

/// The passes keep every node of the row, and put none in twice.
pub proof fn lemma_after_types_permutes(
    ranges: Map<RangeKey, BitRange>,
    row: Seq<int>,
    types: int,
    x: int,
)
    ensures
        after_types(ranges, row, types).len() == row.len(),
        is_distinct(row) ==> is_distinct(after_types(ranges, row, types)),
        row.contains(x) ==> after_types(ranges, row, types).contains(x),
    decreases types,
{
    if types > 0 {
        lemma_after_types_permutes(ranges, row, types - 1, x);
        lemma_after_ids_permutes(
            ranges,
            ReportType::at_ordinal(types - 1),
            after_types(ranges, row, types - 1),
            REPORT_IDS as int,
            x,
        );
    }
}

/// In a tree, the resolved order of a collection lists every child of the
/// collection, and none of them twice.
pub proof fn lemma_child_order_lists_each_child_once(
    nodes: Seq<LinkCollectionNode>,
    levels: Seq<int>,
    counts: Seq<int>,
    ranges: Map<RangeKey, BitRange>,
    p: int,
)
    requires
        is_tree_shape(nodes, levels, counts),
        0 <= p < nodes.len(),
    ensures
        child_order_of(nodes, counts, ranges, p).len() == counts[p],
        is_distinct(child_order_of(nodes, counts, ranges, p)),
        forall|k: int|
            0 <= k < counts[p] ==> child_order_of(nodes, counts, ranges, p).contains(
                #[trigger] chain_nth(nodes, p, k),
            ),
{
    assert(chain_ends(nodes, counts, p));
    let chain = reversed_chain(nodes, p, counts[p]);
    assert forall|i: int, j: int| 0 <= i < j < chain.len() implies chain[i] != chain[j] by {
        assert(chain_nth(nodes, p, counts[p] - 1 - j) != chain_nth(nodes, p, counts[p] - 1 - i));
    }
    lemma_after_types_permutes(ranges, chain, 3, 0);
    assert forall|k: int| 0 <= k < counts[p] implies child_order_of(
        nodes,
        counts,
        ranges,
        p,
    ).contains(#[trigger] chain_nth(nodes, p, k)) by {
        let x = chain_nth(nodes, p, k);
        assert(chain[counts[p] - 1 - k] == x);
        assert(chain.contains(x));
        lemma_after_types_permutes(ranges, chain, 3, x);
    }
}


} // verus!
