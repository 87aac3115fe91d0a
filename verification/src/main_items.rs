//! The main items of the descriptor in the order in which they are written:
//! the opening and closing of each collection, and the fields that each
//! collection holds.
//!
//! A collection is opened, then come its own fields, then its children in
//! their resolved order, then it is closed. The root is neither opened nor
//! closed. The fields of a collection come report type by report type, and
//! within one type by report ID and then by first bit; fields that agree in
//! both keep the order of their records.

use vstd::prelude::*;
use crate::blob::{PreparsedData, caps_info_of, caps_of, nodes_count};
use crate::hierarchy::{Hierarchy, ints_of_u16, is_placed};
use crate::child_order::{ChildOrder, is_child_order};
use crate::typedefs::{Caps, ReportType};

verus! {

/// One main item: a collection that opens, a collection that closes, or the
/// field that a capability record of some report type describes.
#[derive(Clone, Copy, Debug, PartialEq, Eq)]
pub enum MainItem {
    Collection(u16),
    EndCollection,
    Field(ReportType, u16),
}

/// Whether the field of record `a` has to stand after that of record `b`: it
/// belongs to a later report, or to the same report and starts at a later bit.
pub open spec fn comes_after(caps: Seq<Caps>, a: int, b: int) -> bool {
    caps[a].report_id > caps[b].report_id || (caps[a].report_id == caps[b].report_id
        && caps[a].spec_first_bit() > caps[b].spec_first_bit())
}

/// The row with record `x` put behind the last record that need not stand
/// after it.
pub open spec fn insert_field(caps: Seq<Caps>, row: Seq<int>, x: int) -> Seq<int>
    decreases row.len(),
{
    if row.len() == 0 || !comes_after(caps, row.last(), x) {
        row.push(x)
    } else {
        insert_field(caps, row.drop_last(), x).push(row.last())
    }
}

/// The records of collection `c` among those from index `lo` up to, not
/// including, `hi`, in the order of their fields.
pub open spec fn fields_upto(caps: Seq<Caps>, lo: int, hi: int, c: int) -> Seq<int>
    decreases hi - lo,
{
    if hi <= lo {
        Seq::empty()
    } else {
        let rest = fields_upto(caps, lo, hi - 1, c);
        if caps[hi - 1].link_collection == c {
            insert_field(caps, rest, hi - 1)
        } else {
            rest
        }
    }
}

/// The field items of report type `rt` for a row of records.
pub open spec fn as_fields(rt: ReportType, row: Seq<int>) -> Seq<MainItem> {
    Seq::new(row.len(), |i: int| MainItem::Field(rt, row[i] as u16))
}

/// The fields of collection `c` for report type `rt`.
pub open spec fn fields_of_type(bytes: Seq<u8>, c: int, rt: ReportType) -> Seq<MainItem> {
    let info = caps_info_of(bytes, rt.ordinal());
    as_fields(rt, fields_upto(caps_of(bytes), info.first_cap as int, info.last_cap as int, c))
}

/// The fields of collection `c`: input, then output, then feature.
pub open spec fn fields_of(bytes: Seq<u8>, c: int) -> Seq<MainItem> {
    fields_of_type(bytes, c, ReportType::Input) + fields_of_type(bytes, c, ReportType::Output)
        + fields_of_type(bytes, c, ReportType::Feature)
}

/// What closes collection `c`: nothing for the root.
pub open spec fn close_of(c: int) -> Seq<MainItem> {
    if c == 0 {
        Seq::empty()
    } else {
        seq![MainItem::EndCollection]
    }
}

/// The items of the children of `c` from place `k` of its order on, and then
/// the closing of `c`. `height` is the number of levels that may lie below
/// `c`.
pub open spec fn tail_items(
    bytes: Seq<u8>,
    orders: Seq<Seq<int>>,
    c: int,
    k: int,
    height: nat,
) -> Seq<MainItem>
    decreases height, orders[c].len() - k,
{
    if k < 0 || k >= orders[c].len() || height == 0 {
        close_of(c)
    } else {
        node_items(bytes, orders, orders[c][k], (height - 1) as nat) + tail_items(
            bytes,
            orders,
            c,
            k + 1,
            height,
        )
    }
}

/// The items of collection `c` and of everything below it.
pub open spec fn node_items(bytes: Seq<u8>, orders: Seq<Seq<int>>, c: int, height: nat) -> Seq<
    MainItem,
>
    decreases height, orders[c].len() + 1,
{
    seq![MainItem::Collection(c as u16)] + fields_of(bytes, c) + tail_items(
        bytes,
        orders,
        c,
        0,
        height,
    )
}

/// The main items of the whole descriptor; none where there is no collection.
pub open spec fn main_items(bytes: Seq<u8>, orders: Seq<Seq<int>>, max_level: int) -> Seq<MainItem> {
    if nodes_count(bytes) == 0 {
        Seq::empty()
    } else {
        fields_of(bytes, 0) + tail_items(bytes, orders, 0, 0, max_level as nat)
    }
}

/// The item names a collection and a record that the blob has.
pub open spec fn is_item_of(bytes: Seq<u8>, item: MainItem) -> bool {
    match item {
        MainItem::Collection(c) => c < nodes_count(bytes),
        MainItem::EndCollection => true,
        MainItem::Field(_, i) => i < caps_of(bytes).len(),
    }
}

/// Whether the field of record `a` stands before that of record `b`: it
/// belongs to an earlier report, or to the same report and starts at an
/// earlier bit, or it agrees with `b` in both and is the earlier record.
pub open spec fn stands_before(caps: Seq<Caps>, a: int, b: int) -> bool {
    comes_after(caps, b, a) || (!comes_after(caps, a, b) && a < b)
}

/// Every record of the row stands before the records behind it.
pub open spec fn is_in_order(caps: Seq<Caps>, row: Seq<int>) -> bool {
    forall|i: int, j: int|
        0 <= i < j < row.len() ==> stands_before(caps, #[trigger] row[i], #[trigger] row[j])
}

proof fn lemma_insert_field(caps: Seq<Caps>, row: Seq<int>, x: int)
    requires
        is_in_order(caps, row),
        forall|i: int| 0 <= i < row.len() ==> #[trigger] row[i] < x,
    ensures
        insert_field(caps, row, x).len() == row.len() + 1,
        is_in_order(caps, insert_field(caps, row, x)),
        forall|y: int| #[trigger] insert_field(caps, row, x).contains(y) ==> row.contains(y) || y == x,
        forall|y: int| #[trigger] row.contains(y) ==> insert_field(caps, row, x).contains(y),
        insert_field(caps, row, x).contains(x),
    decreases row.len(),
{
    let after = insert_field(caps, row, x);
    if row.len() == 0 || !comes_after(caps, row.last(), x) {
        assert(after == row.push(x));
        assert forall|i: int, j: int| 0 <= i < j < after.len() implies stands_before(
            caps,
            #[trigger] after[i],
            #[trigger] after[j],
        ) by {
            if j == row.len() {
                assert(after[i] == row[i]);
                if i < row.len() - 1 {
                    assert(stands_before(caps, row[i], row[row.len() - 1]));
                }
            } else {
                assert(stands_before(caps, row[i], row[j]));
            }
        }
        assert forall|y: int| #[trigger] after.contains(y) implies row.contains(y) || y == x by {
            let i = choose|i: int| 0 <= i < after.len() && after[i] == y;
            if i < row.len() {
                assert(row[i] == y);
            }
        }
        assert forall|y: int| #[trigger] row.contains(y) implies after.contains(y) by {
            let i = choose|i: int| 0 <= i < row.len() && row[i] == y;
            assert(after[i] == y);
        }
        assert(after[row.len() as int] == x);
    } else {
        let shorter = row.drop_last();
        let last = row.last();
        assert forall|i: int, j: int| 0 <= i < j < shorter.len() implies stands_before(
            caps,
            #[trigger] shorter[i],
            #[trigger] shorter[j],
        ) by {
            assert(stands_before(caps, row[i], row[j]));
        }
        assert forall|i: int| 0 <= i < shorter.len() implies #[trigger] shorter[i] < x by {
            assert(shorter[i] == row[i]);
        }
        lemma_insert_field(caps, shorter, x);
        let inner = insert_field(caps, shorter, x);
        assert(after == inner.push(last));
        assert forall|i: int, j: int| 0 <= i < j < after.len() implies stands_before(
            caps,
            #[trigger] after[i],
            #[trigger] after[j],
        ) by {
            if j == inner.len() {
                let y = inner[i];
                assert(after[i] == y && after[j] == last);
                assert(inner.contains(y));
                if y != x {
                    assert(shorter.contains(y));
                    let k = choose|k: int| 0 <= k < shorter.len() && shorter[k] == y;
                    assert(row[k] == y);
                    assert(stands_before(caps, row[k], row[row.len() - 1]));
                }
            } else {
                assert(stands_before(caps, inner[i], inner[j]));
            }
        }
        assert forall|y: int| #[trigger] after.contains(y) implies row.contains(y) || y == x by {
            let i = choose|i: int| 0 <= i < after.len() && after[i] == y;
            if i < inner.len() {
                assert(inner[i] == y);
                assert(inner.contains(y));
                if y != x {
                    assert(shorter.contains(y));
                    let k = choose|k: int| 0 <= k < shorter.len() && shorter[k] == y;
                    assert(row[k] == y);
                }
            } else {
                assert(row[row.len() - 1] == y);
            }
        }
        assert forall|y: int| #[trigger] row.contains(y) implies after.contains(y) by {
            let i = choose|i: int| 0 <= i < row.len() && row[i] == y;
            if i < shorter.len() {
                assert(shorter[i] == y);
                assert(shorter.contains(y));
                assert(inner.contains(y));
                let k = choose|k: int| 0 <= k < inner.len() && inner[k] == y;
                assert(after[k] == y);
            } else {
                assert(after[inner.len() as int] == y);
            }
        }
        assert(after.contains(x)) by {
            let k = choose|k: int| 0 <= k < inner.len() && inner[k] == x;
            assert(after[k] == x);
        }
    }
}

/// The row of the fields of a collection holds the records of the collection
/// and no others, each once, and every record in it stands before the records
/// behind it.
pub proof fn lemma_fields_are_the_records_in_order(caps: Seq<Caps>, lo: int, hi: int, c: int)
    ensures
        is_in_order(caps, fields_upto(caps, lo, hi, c)),
        forall|j: int| #[trigger]
            fields_upto(caps, lo, hi, c).contains(j) ==> lo <= j < hi && caps[j].link_collection
                == c,
        forall|j: int|
            lo <= j < hi && caps[j].link_collection == c ==> #[trigger] fields_upto(
                caps,
                lo,
                hi,
                c,
            ).contains(j),
    decreases hi - lo,
{
    let row = fields_upto(caps, lo, hi, c);
    if hi > lo {
        lemma_fields_are_the_records_in_order(caps, lo, hi - 1, c);
        let rest = fields_upto(caps, lo, hi - 1, c);
        if caps[hi - 1].link_collection == c {
            assert forall|i: int| 0 <= i < rest.len() implies #[trigger] rest[i] < hi - 1 by {
                assert(rest.contains(rest[i]));
            }
            lemma_insert_field(caps, rest, hi - 1);
        }
        assert forall|j: int| lo <= j < hi && caps[j].link_collection == c implies #[trigger] row.contains(
            j,
        ) by {
            if j < hi - 1 {
                assert(rest.contains(j));
            }
        }
    }
}

/// Where `pos` is the place behind the last record of the row that need not
/// stand after `x`, putting `x` into the row puts it at `pos`.
proof fn lemma_insert_at(caps: Seq<Caps>, row: Seq<int>, x: int, pos: int)
    requires
        0 <= pos <= row.len(),
        forall|j: int| pos <= j < row.len() ==> comes_after(caps, #[trigger] row[j], x),
        pos > 0 ==> !comes_after(caps, row[pos - 1], x),
    ensures
        insert_field(caps, row, x) == row.insert(pos, x),
    decreases row.len() - pos,
{
    if pos == row.len() {
        assert(row.insert(pos, x) =~= row.push(x));
    } else {
        assert(comes_after(caps, row[row.len() - 1], x));
        let shorter = row.drop_last();
        assert forall|j: int| pos <= j < shorter.len() implies comes_after(
            caps,
            #[trigger] shorter[j],
            x,
        ) by {
            assert(shorter[j] == row[j]);
        }
        lemma_insert_at(caps, shorter, x, pos);
        assert(row.insert(pos, x) =~= shorter.insert(pos, x).push(row.last()));
    }
}

fn field_comes_after(blob: &PreparsedData, a: u16, b: u16) -> (after: bool)
    requires
        a < blob.caps().len(),
        b < blob.caps().len(),
    ensures
        after == comes_after(blob.caps(), a as int, b as int),
{
    let first = blob.cap(a as usize);
    let second = blob.cap(b as usize);
    first.report_id > second.report_id || (first.report_id == second.report_id
        && first.first_bit() > second.first_bit())
}

/// Appends the fields of collection `c` for report type `rt`.
fn push_fields_of_type(blob: &PreparsedData, c: u16, rt: ReportType, items: &mut Vec<MainItem>)
    requires
        forall|i: int| 0 <= i < old(items)@.len() ==> is_item_of(blob@, #[trigger] old(items)@[i]),
    ensures
        final(items)@ == old(items)@ + fields_of_type(blob@, c as int, rt),
        forall|i: int| 0 <= i < final(items)@.len() ==> is_item_of(blob@, #[trigger] final(items)@[i]),
{
    let ghost caps = blob.caps();
    let info = blob.caps_info(rt);
    let first: usize = info.first_cap as usize;
    let last: usize = info.last_cap as usize;
    let mut row: Vec<u16> = Vec::new();
    let mut i: usize = first;
    assert(ints_of_u16(row@) =~= fields_upto(caps, first as int, i as int, c as int));
    while i < last
        invariant
            caps == blob.caps(),
            first <= i,
            i <= last || i == first,
            last <= caps.len(),
            last <= u16::MAX,
            ints_of_u16(row@) == fields_upto(caps, first as int, i as int, c as int),
            forall|j: int| 0 <= j < row@.len() ==> #[trigger] row@[j] < i,
        decreases last - i,
    {
        let cap = blob.cap(i);
        if cap.link_collection == c {
            let x: u16 = i as u16;
            let mut pos: usize = row.len();
            while pos > 0 && field_comes_after(blob, row[pos - 1], x)
                invariant
                    caps == blob.caps(),
                    pos <= row@.len(),
                    x == i,
                    i < last,
                    last <= caps.len(),
                    forall|j: int| 0 <= j < row@.len() ==> #[trigger] row@[j] < i,
                    forall|j: int|
                        pos <= j < row@.len() ==> comes_after(
                            caps,
                            #[trigger] ints_of_u16(row@)[j],
                            x as int,
                        ),
                decreases pos,
            {
                proof {
                    assert(ints_of_u16(row@)[pos - 1] == row@[pos - 1]);
                }
                pos = pos - 1;
            }
            proof {
                let before = ints_of_u16(row@);
                if pos > 0 {
                    assert(before[pos - 1] == row@[pos - 1]);
                }
                lemma_insert_at(caps, before, x as int, pos as int);
                assert(ints_of_u16(row@.insert(pos as int, x)) =~= before.insert(
                    pos as int,
                    x as int,
                ));
            }
            row.insert(pos, x);
        }
        i = i + 1;
    }
    let ghost wanted = fields_upto(caps, info.first_cap as int, info.last_cap as int, c as int);
    assert(ints_of_u16(row@) == wanted);
    let ghost start = items@;
    let mut j: usize = 0;
    while j < row.len()
        invariant
            j <= row@.len(),
            caps == blob.caps(),
            ints_of_u16(row@) == wanted,
            forall|k: int| 0 <= k < row@.len() ==> #[trigger] row@[k] < caps.len(),
            items@.len() == start.len() + j,
            forall|k: int| 0 <= k < start.len() ==> items@[k] == start[k],
            forall|k: int| 0 <= k < j ==> items@[start.len() + k] == MainItem::Field(rt, row@[k]),
            forall|k: int| 0 <= k < items@.len() ==> is_item_of(blob@, #[trigger] items@[k]),
        decreases row@.len() - j,
    {
        items.push(MainItem::Field(rt, row[j]));
        j = j + 1;
    }
    proof {
        let fields = as_fields(rt, wanted);
        assert forall|k: int| 0 <= k < row@.len() implies fields[k] == MainItem::Field(
            rt,
            row@[k],
        ) by {
            assert(wanted[k] == row@[k]);
        }
        assert(items@ =~= start + fields);
    }
}

/// Appends the fields of collection `c`: input, then output, then feature.
fn push_fields(blob: &PreparsedData, c: u16, items: &mut Vec<MainItem>)
    requires
        forall|i: int| 0 <= i < old(items)@.len() ==> is_item_of(blob@, #[trigger] old(items)@[i]),
    ensures
        final(items)@ == old(items)@ + fields_of(blob@, c as int),
        forall|i: int| 0 <= i < final(items)@.len() ==> is_item_of(blob@, #[trigger] final(items)@[i]),
{
    push_fields_of_type(blob, c, ReportType::Input, items);
    push_fields_of_type(blob, c, ReportType::Output, items);
    push_fields_of_type(blob, c, ReportType::Feature, items);
    assert(items@ =~= old(items)@ + fields_of(blob@, c as int));
}

/// What is still to be written for the collections that are open: for each
/// of the first `depth` entries of the stack, the top one first, the items of
/// its remaining children and its closing.
spec fn pending(
    bytes: Seq<u8>,
    orders: Seq<Seq<int>>,
    max_level: int,
    open: Seq<u16>,
    next: Seq<usize>,
    depth: int,
) -> Seq<MainItem>
    decreases depth,
{
    if depth <= 0 {
        Seq::empty()
    } else {
        tail_items(
            bytes,
            orders,
            open[depth - 1] as int,
            next[depth - 1] as int,
            (max_level - (depth - 1)) as nat,
        ) + pending(bytes, orders, max_level, open, next, depth - 1)
    }
}

/// What is pending below the top of the stack does not depend on the top.
proof fn lemma_pending_below(
    bytes: Seq<u8>,
    orders: Seq<Seq<int>>,
    max_level: int,
    open_a: Seq<u16>,
    next_a: Seq<usize>,
    open_b: Seq<u16>,
    next_b: Seq<usize>,
    depth: int,
)
    requires
        depth <= open_a.len(),
        depth <= next_a.len(),
        depth <= open_b.len(),
        depth <= next_b.len(),
        forall|j: int| 0 <= j < depth ==> open_a[j] == open_b[j] && next_a[j] == next_b[j],
    ensures
        pending(bytes, orders, max_level, open_a, next_a, depth) == pending(
            bytes,
            orders,
            max_level,
            open_b,
            next_b,
            depth,
        ),
    decreases depth,
{
    if depth > 0 {
        lemma_pending_below(bytes, orders, max_level, open_a, next_a, open_b, next_b, depth - 1);
    }
}

/// Lists the main items of the descriptor. The walk keeps the open
/// collections on a stack, each with the place of its next child: it opens
/// the next child of the collection on top and writes the child's fields, or,
/// where no child is left, closes the collection and takes it off.
pub fn list_main_items(blob: &PreparsedData, hierarchy: &Hierarchy, order: &ChildOrder) -> (items:
    Vec<MainItem>)
    requires
        hierarchy.describes(blob.nodes()),
        is_child_order(blob.nodes(), hierarchy.level_seq(), hierarchy.count_seq(), order@),
    ensures
        items@ == main_items(blob@, order@, hierarchy.max_level as int),
        forall|i: int| 0 <= i < items@.len() ==> is_item_of(blob@, #[trigger] items@[i]),
{
    let n: usize = blob.number_of_nodes();
    let mut items: Vec<MainItem> = Vec::new();
    if n == 0 {
        return items;
    }
    let ghost nodes = blob.nodes();
    let ghost levels = hierarchy.level_seq();
    let ghost counts = hierarchy.count_seq();
    let ghost orders = order@;
    let ghost max = hierarchy.max_level as int;
    let ghost total = main_items(blob@, orders, max);
    push_fields(blob, 0, &mut items);
    let mut open: Vec<u16> = Vec::new();
    let mut next: Vec<usize> = Vec::new();
    open.push(0);
    next.push(0);
    proof {
        assert(levels[0] == 0);
        assert(pending(blob@, orders, max, open@, next@, 0) =~= Seq::<MainItem>::empty());
        assert(items@ + pending(blob@, orders, max, open@, next@, 1) =~= total);
    }
    while open.len() > 0
        invariant
            n == nodes.len(),
            n > 0,
            nodes == blob.nodes(),
            levels == hierarchy.level_seq(),
            counts == hierarchy.count_seq(),
            orders == order@,
            max == hierarchy.max_level,
            hierarchy.describes(nodes),
            is_child_order(nodes, levels, counts, orders),
            total == main_items(blob@, orders, max),
            open@.len() == next@.len(),
            forall|j: int|
                0 <= j < open@.len() ==> (#[trigger] open@[j]) < n && levels[open@[j] as int] == j,
            forall|j: int| 0 <= j < next@.len() ==> #[trigger] next@[j] <= counts[open@[j] as int],
            items@ + pending(blob@, orders, max, open@, next@, open@.len() as int) == total,
            forall|i: int| 0 <= i < items@.len() ==> is_item_of(blob@, #[trigger] items@[i]),
        decreases total.len() - items@.len(), open@.len(),
    {
        let top: usize = open.len() - 1;
        let c: u16 = open[top];
        let k: usize = next[top];
        let row = order.children(c as usize);
        let ghost height = (max - top) as nat;
        let ghost below = pending(blob@, orders, max, open@, next@, top as int);
        proof {
            assert(ints_of_u16(row@) == orders[c as int]);
            assert(row@.len() == counts[c as int]);
            assert(levels[c as int] <= max);
            assert(pending(blob@, orders, max, open@, next@, top + 1) == tail_items(
                blob@,
                orders,
                c as int,
                k as int,
                height,
            ) + below);
        }
        if k < row.len() {
            let child: u16 = row[k];
            proof {
                assert(orders[c as int][k as int] == child);
                assert(0 < child < n && levels[child as int] == top + 1);
                assert(levels[child as int] <= max);
                assert(height > 0);
            }
            let ghost open_before = open@;
            let ghost next_before = next@;
            let ghost items_before = items@;
            next[top] = k + 1;
            items.push(MainItem::Collection(child));
            push_fields(blob, child, &mut items);
            open.push(child);
            next.push(0);
            proof {
                let lower = (height - 1) as nat;
                let inner = tail_items(blob@, orders, child as int, 0, lower);
                let rest = tail_items(blob@, orders, c as int, k + 1, height);
                assert(counts[child as int] >= 0) by {
                    assert(orders[child as int].len() == counts[child as int]);
                }
                lemma_pending_below(
                    blob@,
                    orders,
                    max,
                    open_before,
                    next_before,
                    open@,
                    next@,
                    top as int,
                );
                assert(pending(blob@, orders, max, open@, next@, top + 1) == rest + below);
                assert(pending(blob@, orders, max, open@, next@, top + 2) == inner + (rest
                    + below));
                assert(node_items(blob@, orders, child as int, lower) == seq![
                    MainItem::Collection(child),
                ] + fields_of(blob@, child as int) + inner);
                assert(items@ == items_before + seq![MainItem::Collection(child)] + fields_of(
                    blob@,
                    child as int,
                )) by {
                    assert(items_before.push(MainItem::Collection(child)) =~= items_before + seq![
                        MainItem::Collection(child),
                    ]);
                }
                assert(items@ + (inner + (rest + below)) =~= items_before + ((seq![
                    MainItem::Collection(child),
                ] + fields_of(blob@, child as int) + inner) + rest + below));
                assert(items@.len() > items_before.len());
                assert(items_before.len() <= total.len()) by {
                    assert((items_before + pending(
                        blob@,
                        orders,
                        max,
                        open_before,
                        next_before,
                        top + 1,
                    )).len() == total.len());
                }
            }
        } else {
            let ghost open_before = open@;
            let ghost next_before = next@;
            let ghost items_before = items@;
            if c != 0 {
                items.push(MainItem::EndCollection);
            }
            open.pop();
            next.pop();
            proof {
                assert(c == 0 <==> top == 0) by {
                    if c != 0 {
                        assert(is_placed(nodes, levels, counts, c as int));
                    }
                }
                lemma_pending_below(
                    blob@,
                    orders,
                    max,
                    open_before,
                    next_before,
                    open@,
                    next@,
                    top as int,
                );
                assert(items@ =~= items_before + close_of(c as int));
                assert(items@ + below =~= items_before + (close_of(c as int) + below));
                assert(items_before.len() <= total.len()) by {
                    assert((items_before + pending(
                        blob@,
                        orders,
                        max,
                        open_before,
                        next_before,
                        top + 1,
                    )).len() == total.len());
                }
            }
        }
    }
    proof {
        assert(pending(blob@, orders, max, open@, next@, 0) =~= Seq::<MainItem>::empty());
        assert(items@ =~= total);
    }
    items
}


} // verus!
