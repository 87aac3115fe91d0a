//! The upward merge of the bit ranges: after it, the range of a collection
//! holds the ranges of every collection below it.

use vstd::prelude::*;
use crate::bit_range::{BitRange, BitRangeTable, RangeKey, is_key};
use crate::blob::PreparsedData;
use crate::hierarchy::{
    Hierarchy, chain_nth, is_chain_member, is_placed, is_tree_shape, lemma_levels_nonnegative,
};
use crate::typedefs::{LinkCollectionNode, ReportType};

verus! {

/// The node that is reached from `d` by `k` steps to the parent.
pub open spec fn ancestor_nth(nodes: Seq<LinkCollectionNode>, d: int, k: int) -> int
    decreases k,
{
    if k <= 0 {
        d
    } else {
        nodes[ancestor_nth(nodes, d, k - 1)].parent as int
    }
}

/// Node `d` is `a` or lies below it: the node above `d` at the depth of `a`
/// is `a`.
pub open spec fn in_subtree(
    nodes: Seq<LinkCollectionNode>,
    levels: Seq<int>,
    a: int,
    d: int,
) -> bool {
    &&& 0 <= d < nodes.len()
    &&& levels[a] <= levels[d]
    &&& ancestor_nth(nodes, d, levels[d] - levels[a]) == a
}

/// Node `a` and all nodes below it.
pub open spec fn subtree(nodes: Seq<LinkCollectionNode>, levels: Seq<int>, a: int) -> Set<int> {
    Set::new(|d: int| in_subtree(nodes, levels, a, d))
}

/// The least range that holds the ranges that `table` has, for report
/// `report_id` of type `rt`, for each of the collections in `owners` with an
/// index below `upto`.
pub open spec fn merged(
    table: Map<RangeKey, BitRange>,
    owners: Set<int>,
    report_id: int,
    rt: ReportType,
    upto: int,
) -> BitRange
    decreases upto,
{
    if upto <= 0 {
        BitRange::vacant()
    } else {
        let rest = merged(table, owners, report_id, rt, upto - 1);
        if owners.contains(upto - 1) {
            rest.widened(table[(upto - 1, report_id, rt)])
        } else {
            rest
        }
    }
}

/// The table in which the range of each collection is the least range that
/// holds the ranges that `table` has for that collection and for every
/// collection below it.
pub open spec fn propagated(
    table: Map<RangeKey, BitRange>,
    nodes: Seq<LinkCollectionNode>,
    levels: Seq<int>,
) -> Map<RangeKey, BitRange> {
    Map::new(
        |key: RangeKey| is_key(nodes.len(), key),
        |key: RangeKey| merged(table, subtree(nodes, levels, key.0), key.1, key.2, nodes.len() as int),
    )
}

/// Merging over two sets of collections and widening gives what merging over
/// their union gives.
pub proof fn lemma_merged_union(
    table: Map<RangeKey, BitRange>,
    a: Set<int>,
    b: Set<int>,
    report_id: int,
    rt: ReportType,
    upto: int,
)
    ensures
        merged(table, a.union(b), report_id, rt, upto) == merged(
            table,
            a,
            report_id,
            rt,
            upto,
        ).widened(merged(table, b, report_id, rt, upto)),
    decreases upto,
{
    if upto > 0 {
        lemma_merged_union(table, a, b, report_id, rt, upto - 1);
    }
}

/// Merging over a single collection gives that collection's range.
pub proof fn lemma_merged_single(
    table: Map<RangeKey, BitRange>,
    c: int,
    report_id: int,
    rt: ReportType,
    upto: int,
)
    ensures
        merged(table, set![c], report_id, rt, upto) == if 0 <= c < upto {
            table[(c, report_id, rt)]
        } else {
            BitRange::vacant()
        },
    decreases upto,
{
    if upto > 0 {
        lemma_merged_single(table, c, report_id, rt, upto - 1);
    }
}

/// The merge over a set of collections covers the merge over any part of it.
pub proof fn lemma_merged_covers(
    table: Map<RangeKey, BitRange>,
    part: Set<int>,
    whole: Set<int>,
    report_id: int,
    rt: ReportType,
    upto: int,
)
    requires
        part.subset_of(whole),
    ensures
        merged(table, whole, report_id, rt, upto).covers(merged(table, part, report_id, rt, upto)),
    decreases upto,
{
    if upto > 0 {
        lemma_merged_covers(table, part, whole, report_id, rt, upto - 1);
    }
}

/// The merge over a set of collections covers the range of each of them.
pub proof fn lemma_merged_covers_owner(
    table: Map<RangeKey, BitRange>,
    owners: Set<int>,
    report_id: int,
    rt: ReportType,
    upto: int,
    c: int,
)
    requires
        owners.contains(c),
        0 <= c < upto,
    ensures
        merged(table, owners, report_id, rt, upto).covers(table[(c, report_id, rt)]),
    decreases upto,
{
    if c < upto - 1 {
        lemma_merged_covers_owner(table, owners, report_id, rt, upto - 1, c);
    }
}

/// Collection `c` is one of `owners`, has an index below `upto`, and its
/// range for the report starts at `first`.
pub open spec fn starts_at(
    table: Map<RangeKey, BitRange>,
    owners: Set<int>,
    report_id: int,
    rt: ReportType,
    upto: int,
    c: int,
    first: Option<i64>,
) -> bool {
    0 <= c < upto && owners.contains(c) && table[(c, report_id, rt)].first_bit == first
}

/// Collection `c` is one of `owners`, has an index below `upto`, and its
/// range for the report ends at `last`.
pub open spec fn ends_at(
    table: Map<RangeKey, BitRange>,
    owners: Set<int>,
    report_id: int,
    rt: ReportType,
    upto: int,
    c: int,
    last: Option<i64>,
) -> bool {
    0 <= c < upto && owners.contains(c) && table[(c, report_id, rt)].last_bit == last
}

/// The merge over a set of collections is no wider than their ranges make it:
/// where it has a bound, that is the bound of one of them.
pub proof fn lemma_merged_is_attained(
    table: Map<RangeKey, BitRange>,
    owners: Set<int>,
    report_id: int,
    rt: ReportType,
    upto: int,
)
    ensures
        merged(table, owners, report_id, rt, upto).first_bit is Some ==> exists|c: int| #[trigger]
            starts_at(
                table,
                owners,
                report_id,
                rt,
                upto,
                c,
                merged(table, owners, report_id, rt, upto).first_bit,
            ),
        merged(table, owners, report_id, rt, upto).last_bit is Some ==> exists|c: int| #[trigger]
            ends_at(
                table,
                owners,
                report_id,
                rt,
                upto,
                c,
                merged(table, owners, report_id, rt, upto).last_bit,
            ),
    decreases upto,
{
    if upto > 0 {
        lemma_merged_is_attained(table, owners, report_id, rt, upto - 1);
        let rest = merged(table, owners, report_id, rt, upto - 1);
        let all = merged(table, owners, report_id, rt, upto);
        if all.first_bit is Some {
            if all.first_bit == rest.first_bit {
                let c = choose|c: int| #[trigger]
                    starts_at(table, owners, report_id, rt, upto - 1, c, rest.first_bit);
                assert(starts_at(table, owners, report_id, rt, upto, c, all.first_bit));
            } else {
                assert(starts_at(table, owners, report_id, rt, upto, upto - 1, all.first_bit));
            }
        }
        if all.last_bit is Some {
            if all.last_bit == rest.last_bit {
                let c = choose|c: int| #[trigger]
                    ends_at(table, owners, report_id, rt, upto - 1, c, rest.last_bit);
                assert(ends_at(table, owners, report_id, rt, upto, c, all.last_bit));
            } else {
                assert(ends_at(table, owners, report_id, rt, upto, upto - 1, all.last_bit));
            }
        }
    }
}

/// In a tree, `k` steps up from a node of depth at least `k` lead to a node
/// that lies `k` levels higher.
pub proof fn lemma_ancestor_level(
    nodes: Seq<LinkCollectionNode>,
    levels: Seq<int>,
    counts: Seq<int>,
    d: int,
    k: int,
)
    requires
        is_tree_shape(nodes, levels, counts),
        0 <= d < nodes.len(),
        0 <= k <= levels[d],
    ensures
        0 <= ancestor_nth(nodes, d, k) < nodes.len(),
        levels[ancestor_nth(nodes, d, k)] == levels[d] - k,
    decreases k,
{
    if k > 0 {
        lemma_ancestor_level(nodes, levels, counts, d, k - 1);
        let below = ancestor_nth(nodes, d, k - 1);
        assert(below != 0);
        assert(is_placed(nodes, levels, counts, below));
    }
}

/// Node `c` and all nodes at or below the first `k` members of its chain.
pub open spec fn family(
    nodes: Seq<LinkCollectionNode>,
    levels: Seq<int>,
    c: int,
    k: int,
) -> Set<int> {
    Set::new(
        |d: int|
            d == c || exists|j: int|
                0 <= j < k && #[trigger] in_subtree(nodes, levels, chain_nth(nodes, c, j), d),
    )
}

proof fn lemma_family_start(nodes: Seq<LinkCollectionNode>, levels: Seq<int>, c: int)
    ensures
        family(nodes, levels, c, 0) == set![c],
{
    assert(family(nodes, levels, c, 0) =~= set![c]);
}

proof fn lemma_family_step(nodes: Seq<LinkCollectionNode>, levels: Seq<int>, c: int, k: int)
    requires
        0 <= k,
    ensures
        family(nodes, levels, c, k + 1) == family(nodes, levels, c, k).union(
            subtree(nodes, levels, chain_nth(nodes, c, k)),
        ),
{
    let next = family(nodes, levels, c, k + 1);
    let joined = family(nodes, levels, c, k).union(subtree(nodes, levels, chain_nth(nodes, c, k)));
    assert forall|d: int| next.contains(d) implies joined.contains(d) by {
        if d != c {
            let j = choose|j: int|
                0 <= j < k + 1 && #[trigger] in_subtree(nodes, levels, chain_nth(nodes, c, j), d);
            if j < k {
                assert(family(nodes, levels, c, k).contains(d));
            }
        }
    }
    assert forall|d: int| joined.contains(d) implies next.contains(d) by {
        if family(nodes, levels, c, k).contains(d) {
            if d != c {
                let j = choose|j: int|
                    0 <= j < k && #[trigger] in_subtree(nodes, levels, chain_nth(nodes, c, j), d);
                assert(in_subtree(nodes, levels, chain_nth(nodes, c, j), d));
            }
        } else {
            assert(in_subtree(nodes, levels, chain_nth(nodes, c, k), d));
        }
    }
    assert(next =~= joined);
}

/// In a tree, a node and all nodes at or below its children are the nodes at
/// or below it.
pub proof fn lemma_family_full(
    nodes: Seq<LinkCollectionNode>,
    levels: Seq<int>,
    counts: Seq<int>,
    c: int,
)
    requires
        is_tree_shape(nodes, levels, counts),
        0 <= c < nodes.len(),
    ensures
        family(nodes, levels, c, counts[c]) == subtree(nodes, levels, c),
{
    let all = family(nodes, levels, c, counts[c]);
    let below = subtree(nodes, levels, c);
    assert forall|d: int| all.contains(d) implies below.contains(d) by {
        if d == c {
            assert(ancestor_nth(nodes, c, 0) == c);
        } else {
            let j = choose|j: int|
                0 <= j < counts[c] && #[trigger] in_subtree(nodes, levels, chain_nth(nodes, c, j), d);
            let child = chain_nth(nodes, c, j);
            assert(is_chain_member(nodes, c, j));
            assert(is_placed(nodes, levels, counts, child));
            let up = levels[d] - levels[child];
            assert(ancestor_nth(nodes, d, up + 1) == nodes[ancestor_nth(nodes, d, up)].parent);
        }
    }
    assert forall|d: int| below.contains(d) implies all.contains(d) by {
        if d != c {
            let up = levels[d] - levels[c];
            assert(up >= 1) by {
                if up == 0 {
                    assert(ancestor_nth(nodes, d, 0) == d);
                }
            }
            lemma_levels_nonnegative(nodes, levels, counts, c);
            lemma_ancestor_level(nodes, levels, counts, d, up - 1);
            let child = ancestor_nth(nodes, d, up - 1);
            assert(ancestor_nth(nodes, d, up) == nodes[child].parent);
            assert(child != 0);
            assert(is_placed(nodes, levels, counts, child));
            let j = choose|j: int| 0 <= j < counts[c] && #[trigger] chain_nth(nodes, c, j) == child;
            assert(in_subtree(nodes, levels, chain_nth(nodes, c, j), d));
        }
    }
    assert(all =~= below);
}

/// After propagation the range of a collection covers the range of every
/// collection below it, for every report ID and report type.
pub proof fn lemma_propagated_covers_descendants(
    table: Map<RangeKey, BitRange>,
    nodes: Seq<LinkCollectionNode>,
    levels: Seq<int>,
    counts: Seq<int>,
    above: int,
    below: int,
    report_id: int,
    rt: ReportType,
)
    requires
        is_tree_shape(nodes, levels, counts),
        0 <= above < nodes.len(),
        0 <= report_id < 256,
        in_subtree(nodes, levels, above, below),
    ensures
        propagated(table, nodes, levels)[(above, report_id, rt)].covers(
            propagated(table, nodes, levels)[(below, report_id, rt)],
        ),
{
    let part = subtree(nodes, levels, below);
    let whole = subtree(nodes, levels, above);
    assert forall|d: int| part.contains(d) implies whole.contains(d) by {
        lemma_subtree_nested(nodes, levels, counts, above, below, d);
    }
    lemma_merged_covers(table, part, whole, report_id, rt, nodes.len() as int);
}

/// Steps to the parent add up.
proof fn lemma_ancestor_sum(nodes: Seq<LinkCollectionNode>, d: int, j: int, k: int)
    requires
        0 <= j,
        0 <= k,
    ensures
        ancestor_nth(nodes, d, j + k) == ancestor_nth(nodes, ancestor_nth(nodes, d, j), k),
    decreases k,
{
    if k > 0 {
        lemma_ancestor_sum(nodes, d, j, k - 1);
    }
}

/// What lies at or below a node lies at or below every node above that one.
proof fn lemma_subtree_nested(
    nodes: Seq<LinkCollectionNode>,
    levels: Seq<int>,
    counts: Seq<int>,
    above: int,
    below: int,
    d: int,
)
    requires
        is_tree_shape(nodes, levels, counts),
        in_subtree(nodes, levels, above, below),
        in_subtree(nodes, levels, below, d),
    ensures
        in_subtree(nodes, levels, above, d),
{
    lemma_ancestor_sum(nodes, d, levels[d] - levels[below], levels[below] - levels[above]);
}

/// What the table holds while the merge runs: the merge over the whole
/// subtree for a collection that is `settled`, the merge over the collection
/// and the subtrees of its first `k` children for the collection `busy`, and
/// the range from before for every other collection.
spec fn is_progress(
    now: Map<RangeKey, BitRange>,
    before: Map<RangeKey, BitRange>,
    nodes: Seq<LinkCollectionNode>,
    levels: Seq<int>,
    settled: spec_fn(int) -> bool,
    busy: int,
    k: int,
) -> bool {
    forall|key: RangeKey|
        is_key(nodes.len(), key) ==> #[trigger] now[key] == (if settled(key.0) {
            merged(before, subtree(nodes, levels, key.0), key.1, key.2, nodes.len() as int)
        } else if key.0 == busy {
            merged(before, family(nodes, levels, busy, k), key.1, key.2, nodes.len() as int)
        } else {
            before[key]
        })
}

/// Merges the bit ranges of each collection into those of its parent, from the
/// deepest level up: level by level, each node of the level takes in the
/// ranges of each of its direct children, one child of the sibling chain after
/// the other. The children of a node are all settled before the node is, so
/// that in the end each range holds the ranges of the whole subtree.
pub fn propagate_bit_ranges(blob: &PreparsedData, hierarchy: &Hierarchy, table: &mut BitRangeTable)
    requires
        hierarchy.describes(blob.nodes()),
        old(table).nodes() == blob.nodes().len(),
    ensures
        final(table).nodes() == old(table).nodes(),
        final(table)@ == propagated(old(table)@, blob.nodes(), hierarchy.level_seq()),
{
    let n: usize = blob.number_of_nodes();
    let ghost nodes = blob.nodes();
    let ghost levels = hierarchy.level_seq();
    let ghost counts = hierarchy.count_seq();
    let ghost before = table@;
    let mut level: i32 = hierarchy.max_level;
    proof {
        assert forall|key: RangeKey| is_key(n as nat, key) && levels[key.0] >= level implies before[key]
            == merged(before, subtree(nodes, levels, key.0), key.1, key.2, n as int) by {
            let c = key.0;
            if counts[c] > 0 {
                assert(is_chain_member(nodes, c, 0));
                assert(is_placed(nodes, levels, counts, chain_nth(nodes, c, 0)));
            }
            lemma_family_full(nodes, levels, counts, c);
            lemma_family_start(nodes, levels, c);
            lemma_merged_single(before, c, key.1, key.2, n as int);
        }
        if n > 0 {
            lemma_levels_nonnegative(nodes, levels, counts, 0);
        }
    }
    while level > 0
        invariant
            0 <= level,
            n == nodes.len(),
            nodes == blob.nodes(),
            levels == hierarchy.level_seq(),
            counts == hierarchy.count_seq(),
            hierarchy.describes(nodes),
            table.nodes() == n,
            is_progress(table@, before, nodes, levels, |c: int| levels[c] >= level, -1, 0),
        decreases level,
    {
        level = level - 1;
        let mut c: usize = 0;
        while c < n
            invariant
                0 <= level,
                c <= n,
                n == nodes.len(),
                nodes == blob.nodes(),
                levels == hierarchy.level_seq(),
                counts == hierarchy.count_seq(),
                hierarchy.describes(nodes),
                table.nodes() == n,
                is_progress(
                    table@,
                    before,
                    nodes,
                    levels,
                    |v: int| levels[v] > level || (levels[v] == level && v < c),
                    -1,
                    0,
                ),
            decreases n - c,
        {
            if hierarchy.levels[c] == level {
                let count: u16 = hierarchy.child_counts[c];
                let mut k: u16 = 0;
                let mut child: usize = blob.node(c).first_child as usize;
                proof {
                    assert(levels[c as int] == level);
                    assert(counts[c as int] == count);
                    lemma_family_start(nodes, levels, c as int);
                    assert forall|key: RangeKey| is_key(n as nat, key) && key.0 == c implies before[key]
                        == merged(
                        before,
                        family(nodes, levels, c as int, 0),
                        key.1,
                        key.2,
                        n as int,
                    ) by {
                        lemma_merged_single(before, c as int, key.1, key.2, n as int);
                    }
                }
                while k < count
                    invariant
                        0 <= level,
                        c < n,
                        k <= count,
                        count == counts[c as int],
                        levels[c as int] == level,
                        child == chain_nth(nodes, c as int, k as int),
                        n == nodes.len(),
                        nodes == blob.nodes(),
                        levels == hierarchy.level_seq(),
                        counts == hierarchy.count_seq(),
                        hierarchy.describes(nodes),
                        table.nodes() == n,
                        is_progress(
                            table@,
                            before,
                            nodes,
                            levels,
                            |v: int| levels[v] > level || (levels[v] == level && v < c),
                            c as int,
                            k as int,
                        ),
                    decreases count - k,
                {
                    let ghost now = table@;
                    proof {
                        assert(is_chain_member(nodes, c as int, k as int));
                        assert(is_placed(nodes, levels, counts, child as int));
                    }
                    table.merge_node(c, child);
                    proof {
                        lemma_family_step(nodes, levels, c as int, k as int);
                        assert forall|key: RangeKey| is_key(n as nat, key) && key.0 == c implies #[trigger] table@[key]
                            == merged(
                            before,
                            family(nodes, levels, c as int, k + 1),
                            key.1,
                            key.2,
                            n as int,
                        ) by {
                            let theirs: RangeKey = (child as int, key.1, key.2);
                            assert(is_key(n as nat, theirs));
                            assert(now[theirs] == merged(
                                before,
                                subtree(nodes, levels, child as int),
                                key.1,
                                key.2,
                                n as int,
                            ));
                            lemma_merged_union(
                                before,
                                family(nodes, levels, c as int, k as int),
                                subtree(nodes, levels, child as int),
                                key.1,
                                key.2,
                                n as int,
                            );
                        }
                    }
                    k = k + 1;
                    child = blob.node(child).next_sibling as usize;
                }
                proof {
                    lemma_family_full(nodes, levels, counts, c as int);
                }
            }
            c = c + 1;
        }
    }
    proof {
        table.lemma_keys();
        assert forall|key: RangeKey| is_key(n as nat, key) implies levels[key.0] >= 0 by {
            lemma_levels_nonnegative(nodes, levels, counts, key.0);
        }
        assert(table@ =~= propagated(before, nodes, levels));
    }
}


} // verus!
