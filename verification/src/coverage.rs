//! What the list of main items holds: every collection but the root is
//! opened once in it, and every capability record of a report type is a field
//! of that type once in it.

use vstd::prelude::*;
use crate::bit_range::{BitRange, RangeKey, caps_attached, in_index_range};
use crate::blob::{caps_info_of, caps_of, nodes_of};
use crate::child_order::{
    child_order_of, child_orders, is_child_order, is_distinct,
    lemma_child_order_lists_each_child_once, lemma_child_orders_list_children,
};
use crate::hierarchy::{
    chain_nth, is_max_level, is_placed, is_tree_shape, lemma_levels_nonnegative,
};
use crate::main_items::{
    MainItem, as_fields, close_of, fields_of, fields_of_type, fields_upto, is_in_order,
    lemma_fields_are_the_records_in_order, main_items, node_items, tail_items,
};
use crate::propagate::{
    ancestor_nth, family, in_subtree, lemma_ancestor_level, lemma_family_full, subtree,
};
use crate::typedefs::{Caps, LinkCollectionNode, ReportType};

verus! {

/// How often `x` occurs in `items`.
pub open spec fn count_of(items: Seq<MainItem>, x: MainItem) -> nat
    decreases items.len(),
{
    if items.len() == 0 {
        0
    } else {
        count_of(items.drop_last(), x) + if items.last() == x {
            1nat
        } else {
            0nat
        }
    }
}

/// An item occurs in two lists joined as often as in both together.
pub proof fn lemma_count_append(a: Seq<MainItem>, b: Seq<MainItem>, x: MainItem)
    ensures
        count_of(a + b, x) == count_of(a, x) + count_of(b, x),
    decreases b.len(),
{
    if b.len() == 0 {
        assert(a + b =~= a);
    } else {
        lemma_count_append(a, b.drop_last(), x);
        assert((a + b).drop_last() =~= a + b.drop_last());
    }
}

/// A list of one item holds that item once and no other item.
pub proof fn lemma_count_single(y: MainItem, x: MainItem)
    ensures
        count_of(seq![y], x) == if y == x {
            1nat
        } else {
            0nat
        },
        count_of(Seq::empty(), x) == 0,
{
    assert(seq![y].drop_last() =~= Seq::<MainItem>::empty());
    reveal_with_fuel(count_of, 2);
}

/// An item that is no field of type `rt` does not occur among fields of that
/// type; a field of that type occurs as often as its record stands in the
/// row.
proof fn lemma_count_in_fields(rt: ReportType, row: Seq<int>, x: MainItem)
    ensures
        !(x matches MainItem::Field(other, _) && other == rt) ==> count_of(as_fields(rt, row), x)
            == 0,
    decreases row.len(),
{
    if row.len() > 0 {
        lemma_count_in_fields(rt, row.drop_last(), x);
        assert(as_fields(rt, row).drop_last() =~= as_fields(rt, row.drop_last()));
    }
}

/// The field of a record occurs once among the fields of a row that holds the
/// record once, and not at all among those of a row that does not hold it.
proof fn lemma_count_of_record(rt: ReportType, row: Seq<int>, i: int)
    requires
        0 <= i <= u16::MAX,
        forall|k: int| 0 <= k < row.len() ==> 0 <= #[trigger] row[k] <= u16::MAX,
        is_distinct(row),
    ensures
        count_of(as_fields(rt, row), MainItem::Field(rt, i as u16)) == if row.contains(i) {
            1nat
        } else {
            0nat
        },
    decreases row.len(),
{
    if row.len() > 0 {
        let shorter = row.drop_last();
        assert forall|k: int| 0 <= k < shorter.len() implies 0 <= #[trigger] shorter[k]
            <= u16::MAX by {
            assert(shorter[k] == row[k]);
        }
        assert(is_distinct(shorter)) by {
            assert forall|a: int, b: int| 0 <= a < b < shorter.len() implies shorter[a]
                != shorter[b] by {
                assert(row[a] != row[b]);
            }
        }
        lemma_count_of_record(rt, shorter, i);
        assert(as_fields(rt, row).drop_last() =~= as_fields(rt, shorter));
        assert(0 <= row[row.len() - 1] <= u16::MAX);
        if row.last() == i {
            assert(row.contains(i));
            if shorter.contains(i) {
                let k = choose|k: int| 0 <= k < shorter.len() && shorter[k] == i;
                assert(row[k] != row[row.len() - 1]);
            }
        } else {
            if row.contains(i) {
                let k = choose|k: int| 0 <= k < row.len() && row[k] == i;
                assert(shorter[k] == i);
            }
            if shorter.contains(i) {
                let k = choose|k: int| 0 <= k < shorter.len() && shorter[k] == i;
                assert(row[k] == i);
            }
        }
    } else {
        if row.contains(i) {
            let k = choose|k: int| 0 <= k < row.len() && row[k] == i;
        }
    }
}

/// A row in which every record stands before the records behind it holds no
/// record twice.
proof fn lemma_in_order_is_distinct(caps: Seq<Caps>, row: Seq<int>)
    requires
        is_in_order(caps, row),
    ensures
        is_distinct(row),
{
}

/// What a collection holds by itself: its opening, unless it is the root, and
/// its fields.
pub open spec fn own_items(bytes: Seq<u8>, d: int) -> Seq<MainItem> {
    if d == 0 {
        fields_of(bytes, d)
    } else {
        seq![MainItem::Collection(d as u16)] + fields_of(bytes, d)
    }
}

/// Item `x` belongs to collection `owner`: it occurs once in what that
/// collection holds by itself, and in nothing that another collection holds
/// or that closes a collection.
pub open spec fn is_owned_by(bytes: Seq<u8>, nodes: int, x: MainItem, owner: int) -> bool {
    &&& 0 <= owner < nodes
    &&& x != MainItem::EndCollection
    &&& forall|d: int|
        0 <= d < nodes ==> #[trigger] count_of(own_items(bytes, d), x) == if d == owner {
            1nat
        } else {
            0nat
        }
}

/// The order of every collection lists each of its children once, and nothing
/// else.
pub open spec fn lists_children(
    nodes: Seq<LinkCollectionNode>,
    levels: Seq<int>,
    counts: Seq<int>,
    orders: Seq<Seq<int>>,
) -> bool {
    &&& is_child_order(nodes, levels, counts, orders)
    &&& forall|p: int| 0 <= p < nodes.len() ==> is_distinct(#[trigger] orders[p])
    &&& forall|p: int, i: int|
        0 <= p < nodes.len() && 0 <= i < counts[p] ==> nodes[#[trigger] orders[p][i]].parent == p
    &&& forall|p: int, k: int|
        0 <= p < nodes.len() && 0 <= k < counts[p] ==> (#[trigger] orders[p]).contains(
            #[trigger] chain_nth(nodes, p, k),
        )
}

/// Node `c` lies at or below one of the children of `d` that stand at place
/// `k` of its order or behind.
pub open spec fn is_below_from(
    nodes: Seq<LinkCollectionNode>,
    levels: Seq<int>,
    orders: Seq<Seq<int>>,
    d: int,
    k: int,
    c: int,
) -> bool {
    exists|j: int|
        k <= j < orders[d].len() && in_subtree(nodes, levels, #[trigger] orders[d][j], c)
}

/// In a tree, a node lies at or below `d` exactly where it is `d` or lies at
/// or below a child of `d`.
proof fn lemma_subtree_split(
    nodes: Seq<LinkCollectionNode>,
    levels: Seq<int>,
    counts: Seq<int>,
    orders: Seq<Seq<int>>,
    d: int,
    c: int,
)
    requires
        is_tree_shape(nodes, levels, counts),
        lists_children(nodes, levels, counts, orders),
        0 <= d < nodes.len(),
    ensures
        in_subtree(nodes, levels, d, c) <==> c == d || is_below_from(nodes, levels, orders, d, 0, c),
        !(c == d && is_below_from(nodes, levels, orders, d, 0, c)),
{
    lemma_family_full(nodes, levels, counts, d);
    let all = family(nodes, levels, d, counts[d]);
    assert(all.contains(c) <==> in_subtree(nodes, levels, d, c)) by {
        assert(subtree(nodes, levels, d).contains(c) <==> in_subtree(nodes, levels, d, c));
    }
    if is_below_from(nodes, levels, orders, d, 0, c) {
        let j = choose|j: int|
            0 <= j < orders[d].len() && in_subtree(nodes, levels, #[trigger] orders[d][j], c);
        let child = orders[d][j];
        assert(orders[d].len() == counts[d]);
        assert(0 < child < nodes.len() && nodes[child].parent == d);
        assert(is_placed(nodes, levels, counts, child));
        let k = choose|k: int| 0 <= k < counts[d] && #[trigger] chain_nth(nodes, d, k) == child;
        assert(in_subtree(nodes, levels, chain_nth(nodes, d, k), c));
        assert(all.contains(c));
        assert(levels[child] == levels[d] + 1);
        assert(c != d);
    }
    if in_subtree(nodes, levels, d, c) && c != d {
        assert(all.contains(c));
        let k = choose|k: int|
            0 <= k < counts[d] && #[trigger] in_subtree(nodes, levels, chain_nth(nodes, d, k), c);
        let child = chain_nth(nodes, d, k);
        assert(orders[d].contains(child));
        let j = choose|j: int| 0 <= j < orders[d].len() && orders[d][j] == child;
        assert(in_subtree(nodes, levels, orders[d][j], c));
    }
}

/// In a tree, an item that belongs to a collection occurs once among the
/// items of the children of `d` from place `k` on where its collection lies
/// at or below one of these children, and not at all where it does not.
proof fn lemma_count_in_tail(
    bytes: Seq<u8>,
    nodes: Seq<LinkCollectionNode>,
    levels: Seq<int>,
    counts: Seq<int>,
    orders: Seq<Seq<int>>,
    max: int,
    d: int,
    k: int,
    height: nat,
    x: MainItem,
    owner: int,
)
    requires
        is_tree_shape(nodes, levels, counts),
        lists_children(nodes, levels, counts, orders),
        is_max_level(levels, max),
        is_owned_by(bytes, nodes.len() as int, x, owner),
        0 <= d < nodes.len(),
        0 <= k <= counts[d],
        height >= max - levels[d],
    ensures
        count_of(tail_items(bytes, orders, d, k, height), x) == if is_below_from(
            nodes,
            levels,
            orders,
            d,
            k,
            owner,
        ) {
            1nat
        } else {
            0nat
        },
    decreases height, counts[d] - k,
{
    assert(orders[d].len() == counts[d]);
    assert(levels[d] <= max);
    if k >= counts[d] {
        assert(tail_items(bytes, orders, d, k, height) == close_of(d));
        assert(count_of(close_of(d), x) == 0) by {
            lemma_count_single(MainItem::EndCollection, x);
        }
    } else {
        let child = orders[d][k];
        assert(0 < child < nodes.len() && levels[child] == levels[d] + 1);
        assert(levels[child] <= max);
        assert(height > 0);
        let lower = (height - 1) as nat;
        let first = node_items(bytes, orders, child, lower);
        let rest = tail_items(bytes, orders, d, k + 1, height);
        assert(tail_items(bytes, orders, d, k, height) == first + rest);
        lemma_count_in_node(bytes, nodes, levels, counts, orders, max, child, lower, x, owner);
        lemma_count_in_tail(bytes, nodes, levels, counts, orders, max, d, k + 1, height, x, owner);
        lemma_count_append(first, rest, x);
        assert(first == own_items(bytes, child) + tail_items(bytes, orders, child, 0, lower));
        if in_subtree(nodes, levels, child, owner) {
            assert(is_below_from(nodes, levels, orders, d, k, owner));
            if is_below_from(nodes, levels, orders, d, k + 1, owner) {
                let j = choose|j: int|
                    k + 1 <= j < orders[d].len() && in_subtree(
                        nodes,
                        levels,
                        #[trigger] orders[d][j],
                        owner,
                    );
                assert(levels[orders[d][j]] == levels[d] + 1);
                assert(orders[d][j] == child);
                assert(is_distinct(orders[d]));
            }
        } else if is_below_from(nodes, levels, orders, d, k + 1, owner) {
            let j = choose|j: int|
                k + 1 <= j < orders[d].len() && in_subtree(
                    nodes,
                    levels,
                    #[trigger] orders[d][j],
                    owner,
                );
            assert(is_below_from(nodes, levels, orders, d, k, owner));
        } else if is_below_from(nodes, levels, orders, d, k, owner) {
            let j = choose|j: int|
                k <= j < orders[d].len() && in_subtree(
                    nodes,
                    levels,
                    #[trigger] orders[d][j],
                    owner,
                );
            if j > k {
                assert(is_below_from(nodes, levels, orders, d, k + 1, owner));
            }
        }
    }
}

/// In a tree, an item that belongs to a collection occurs once among the
/// items of `d` and of everything below it where its collection lies at or
/// below `d`, and not at all where it does not.
proof fn lemma_count_in_node(
    bytes: Seq<u8>,
    nodes: Seq<LinkCollectionNode>,
    levels: Seq<int>,
    counts: Seq<int>,
    orders: Seq<Seq<int>>,
    max: int,
    d: int,
    height: nat,
    x: MainItem,
    owner: int,
)
    requires
        is_tree_shape(nodes, levels, counts),
        lists_children(nodes, levels, counts, orders),
        is_max_level(levels, max),
        is_owned_by(bytes, nodes.len() as int, x, owner),
        0 <= d < nodes.len(),
        height >= max - levels[d],
    ensures
        count_of(own_items(bytes, d) + tail_items(bytes, orders, d, 0, height), x) == if in_subtree(
            nodes,
            levels,
            d,
            owner,
        ) {
            1nat
        } else {
            0nat
        },
    decreases height, counts[d] + 1,
{
    assert(orders[d].len() == counts[d]);
    lemma_count_in_tail(bytes, nodes, levels, counts, orders, max, d, 0, height, x, owner);
    lemma_count_append(own_items(bytes, d), tail_items(bytes, orders, d, 0, height), x);
    lemma_subtree_split(nodes, levels, counts, orders, d, owner);
    assert(count_of(own_items(bytes, d), x) == if d == owner {
        1nat
    } else {
        0nat
    });
}

/// In a tree, every node lies at or below the root.
proof fn lemma_root_is_above(
    nodes: Seq<LinkCollectionNode>,
    levels: Seq<int>,
    counts: Seq<int>,
    c: int,
)
    requires
        is_tree_shape(nodes, levels, counts),
        0 <= c < nodes.len(),
    ensures
        in_subtree(nodes, levels, 0, c),
{
    lemma_levels_nonnegative(nodes, levels, counts, c);
    lemma_ancestor_level(nodes, levels, counts, c, levels[c]);
    let top = ancestor_nth(nodes, c, levels[c]);
    if top != 0 {
        assert(is_placed(nodes, levels, counts, top));
    }
}

/// In a tree, an item that belongs to a collection occurs once in the list of
/// main items.
pub proof fn lemma_owned_item_occurs_once(
    bytes: Seq<u8>,
    levels: Seq<int>,
    counts: Seq<int>,
    orders: Seq<Seq<int>>,
    max: int,
    x: MainItem,
    owner: int,
)
    requires
        is_tree_shape(nodes_of(bytes), levels, counts),
        lists_children(nodes_of(bytes), levels, counts, orders),
        is_max_level(levels, max),
        is_owned_by(bytes, nodes_of(bytes).len() as int, x, owner),
    ensures
        count_of(main_items(bytes, orders, max), x) == 1,
{
    let nodes = nodes_of(bytes);
    lemma_levels_nonnegative(nodes, levels, counts, 0);
    assert(levels[0] <= max);
    lemma_count_in_node(bytes, nodes, levels, counts, orders, max, 0, max as nat, x, owner);
    lemma_root_is_above(nodes, levels, counts, owner);
}

/// In a tree, the resolved orders list each child of each collection once.
pub proof fn lemma_child_orders_list_all(
    nodes: Seq<LinkCollectionNode>,
    levels: Seq<int>,
    counts: Seq<int>,
    ranges: Map<RangeKey, BitRange>,
)
    requires
        is_tree_shape(nodes, levels, counts),
    ensures
        lists_children(nodes, levels, counts, child_orders(nodes, counts, ranges)),
{
    let orders = child_orders(nodes, counts, ranges);
    lemma_child_orders_list_children(nodes, levels, counts, ranges);
    assert forall|p: int| 0 <= p < nodes.len() implies is_distinct(#[trigger] orders[p]) && forall|
        k: int,
    |
        0 <= k < counts[p] ==> orders[p].contains(#[trigger] chain_nth(nodes, p, k)) by {
        lemma_child_order_lists_each_child_once(nodes, levels, counts, ranges, p);
        assert(orders[p] == child_order_of(nodes, counts, ranges, p));
    }
}

/// The opening of a collection other than the root belongs to that
/// collection.
pub proof fn lemma_collection_is_owned(bytes: Seq<u8>, c: int)
    requires
        0 < c < nodes_of(bytes).len(),
        nodes_of(bytes).len() <= u16::MAX,
    ensures
        is_owned_by(bytes, nodes_of(bytes).len() as int, MainItem::Collection(c as u16), c),
{
    let n = nodes_of(bytes).len() as int;
    let x = MainItem::Collection(c as u16);
    assert forall|d: int| 0 <= d < n implies #[trigger] count_of(own_items(bytes, d), x) == if d
        == c {
        1nat
    } else {
        0nat
    } by {
        lemma_no_collection_among_fields(bytes, d, x);
        if d != 0 {
            let opening = seq![MainItem::Collection(d as u16)];
            lemma_count_append(opening, fields_of(bytes, d), x);
            lemma_count_single(MainItem::Collection(d as u16), x);
        }
    }
}

/// The opening of a collection does not occur among the fields of a
/// collection.
proof fn lemma_no_collection_among_fields(bytes: Seq<u8>, d: int, x: MainItem)
    requires
        x is Collection,
    ensures
        count_of(fields_of(bytes, d), x) == 0,
{
    let input = fields_of_type(bytes, d, ReportType::Input);
    let output = fields_of_type(bytes, d, ReportType::Output);
    let feature = fields_of_type(bytes, d, ReportType::Feature);
    lemma_count_of_other_type(bytes, d, ReportType::Input, x);
    lemma_count_of_other_type(bytes, d, ReportType::Output, x);
    lemma_count_of_other_type(bytes, d, ReportType::Feature, x);
    lemma_count_append(input, output, x);
    lemma_count_append(input + output, feature, x);
}

/// An item that is no field of type `rt` does not occur among the fields of
/// that type of a collection.
proof fn lemma_count_of_other_type(bytes: Seq<u8>, d: int, rt: ReportType, x: MainItem)
    requires
        !(x matches MainItem::Field(other, _) && other == rt),
    ensures
        count_of(fields_of_type(bytes, d, rt), x) == 0,
{
    let info = caps_info_of(bytes, rt.ordinal());
    lemma_count_in_fields(
        rt,
        fields_upto(caps_of(bytes), info.first_cap as int, info.last_cap as int, d),
        x,
    );
}

/// The field of a record within the index range of its report type belongs
/// to the collection of the record.
pub proof fn lemma_field_is_owned(bytes: Seq<u8>, rt: ReportType, i: int)
    requires
        caps_attached(bytes),
        in_index_range(bytes, rt.ordinal(), i),
    ensures
        is_owned_by(
            bytes,
            nodes_of(bytes).len() as int,
            MainItem::Field(rt, i as u16),
            caps_of(bytes)[i].link_collection as int,
        ),
{
    let n = nodes_of(bytes).len() as int;
    let caps = caps_of(bytes);
    let x = MainItem::Field(rt, i as u16);
    let owner = caps[i].link_collection as int;
    let info = caps_info_of(bytes, rt.ordinal());
    assert forall|d: int| 0 <= d < n implies #[trigger] count_of(own_items(bytes, d), x) == if d
        == owner {
        1nat
    } else {
        0nat
    } by {
        let input = fields_of_type(bytes, d, ReportType::Input);
        let output = fields_of_type(bytes, d, ReportType::Output);
        let feature = fields_of_type(bytes, d, ReportType::Feature);
        let row = fields_upto(caps, info.first_cap as int, info.last_cap as int, d);
        lemma_fields_are_the_records_in_order(caps, info.first_cap as int, info.last_cap as int, d);
        lemma_in_order_is_distinct(caps, row);
        assert forall|k: int| 0 <= k < row.len() implies 0 <= #[trigger] row[k] <= u16::MAX by {
            assert(row.contains(row[k]));
        }
        lemma_count_of_record(rt, row, i);
        assert(row.contains(i) <==> d == owner);
        if rt != ReportType::Input {
            lemma_count_of_other_type(bytes, d, ReportType::Input, x);
        }
        if rt != ReportType::Output {
            lemma_count_of_other_type(bytes, d, ReportType::Output, x);
        }
        if rt != ReportType::Feature {
            lemma_count_of_other_type(bytes, d, ReportType::Feature, x);
        }
        lemma_count_append(input, output, x);
        lemma_count_append(input + output, feature, x);
        assert(count_of(fields_of(bytes, d), x) == if d == owner {
            1nat
        } else {
            0nat
        });
        if d != 0 {
            let opening = seq![MainItem::Collection(d as u16)];
            lemma_count_append(opening, fields_of(bytes, d), x);
            lemma_count_single(MainItem::Collection(d as u16), x);
        }
    }
}

} // verus!
