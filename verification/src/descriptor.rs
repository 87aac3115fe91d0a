//! The reconstruction as a whole: from the bytes of a blob to the bytes of a
//! descriptor.

use vstd::prelude::*;
use crate::bit_range::{caps_attached, direct_ranges, in_index_range, index_bit_ranges};
use crate::blob::{PreparsedData, caps_of, has_magic, layout_fits, nodes_of};
use crate::child_order::{child_orders, lemma_child_orders_list_children, resolve_child_order};
use crate::coverage::{
    count_of, lemma_child_orders_list_all, lemma_collection_is_owned, lemma_field_is_owned,
    lemma_owned_item_occurs_once,
};
use crate::emit::{lemma_short_items_are_canonical, list_short_items, short_items};
use crate::error::{WinError, WinResult};
use crate::hierarchy::{
    analyze_hierarchy, child_counts_of, forms_tree, lemma_describes_shape, lemma_max_level_exists,
    lemma_max_level_unique, lemma_shape_of, levels_of, max_level_of,
};
use crate::main_items::{MainItem, list_main_items, main_items};
use crate::propagate::{propagate_bit_ranges, propagated};
use crate::short_item::{ShortItem, lemma_stream_reads_back, read_stream, stream_bytes, write_items};
use crate::typedefs::ReportType;

verus! {

/// What makes bytes a blob that can be worked on: the marker at the start,
/// a head and arrays that lie within the bytes, capability records that
/// belong to collections that exist, and collection nodes that form a tree.
pub open spec fn is_valid_blob(bytes: Seq<u8>) -> bool {
    &&& has_magic(bytes)
    &&& layout_fits(bytes)
    &&& caps_attached(bytes)
    &&& forms_tree(nodes_of(bytes))
}

/// The main items of the descriptor that is rebuilt from a blob, with the
/// children of each collection in the order that the propagated bit ranges
/// give them.
pub open spec fn main_items_of(bytes: Seq<u8>) -> Seq<MainItem> {
    let nodes = nodes_of(bytes);
    let levels = levels_of(nodes);
    let counts = child_counts_of(nodes);
    let ranges = propagated(direct_ranges(bytes), nodes, levels);
    let orders = child_orders(nodes, counts, ranges);
    main_items(bytes, orders, max_level_of(levels))
}

/// The short items of the descriptor that is rebuilt from a blob.
pub open spec fn short_items_of(bytes: Seq<u8>) -> Seq<ShortItem> {
    short_items(nodes_of(bytes), caps_of(bytes), main_items_of(bytes))
}

/// The descriptor that is rebuilt from a blob: the bytes of its short items.
pub open spec fn descriptor_of(bytes: Seq<u8>) -> Seq<u8> {
    stream_bytes(short_items_of(bytes))
}

/// A reader that takes item after item from the rebuilt descriptor finds the
/// short items that were written, and nothing else.
pub proof fn lemma_descriptor_reads_back(bytes: Seq<u8>)
    ensures
        read_stream(descriptor_of(bytes)) == short_items_of(bytes),
{
    let items = main_items_of(bytes);
    lemma_short_items_are_canonical(nodes_of(bytes), caps_of(bytes), items, items.len() as int);
    lemma_stream_reads_back(short_items_of(bytes));
}

/// In the rebuilt descriptor of a valid blob every collection other than the
/// root is opened once.
pub proof fn lemma_every_collection_is_opened_once(bytes: Seq<u8>, c: int)
    requires
        is_valid_blob(bytes),
        0 < c < nodes_of(bytes).len(),
    ensures
        count_of(main_items_of(bytes), MainItem::Collection(c as u16)) == 1,
{
    let nodes = nodes_of(bytes);
    let levels = levels_of(nodes);
    let counts = child_counts_of(nodes);
    let ranges = propagated(direct_ranges(bytes), nodes, levels);
    lemma_shape_of(nodes);
    lemma_max_level_exists(levels);
    lemma_child_orders_list_all(nodes, levels, counts, ranges);
    lemma_collection_is_owned(bytes, c);
    lemma_owned_item_occurs_once(
        bytes,
        levels,
        counts,
        child_orders(nodes, counts, ranges),
        max_level_of(levels),
        MainItem::Collection(c as u16),
        c,
    );
}

/// In the rebuilt descriptor of a valid blob every capability record within
/// the index range of a report type is a field of that type once.
pub proof fn lemma_every_record_is_a_field_once(bytes: Seq<u8>, rt: ReportType, i: int)
    requires
        is_valid_blob(bytes),
        in_index_range(bytes, rt.ordinal(), i),
    ensures
        count_of(main_items_of(bytes), MainItem::Field(rt, i as u16)) == 1,
{
    let nodes = nodes_of(bytes);
    let levels = levels_of(nodes);
    let counts = child_counts_of(nodes);
    let ranges = propagated(direct_ranges(bytes), nodes, levels);
    lemma_shape_of(nodes);
    lemma_max_level_exists(levels);
    lemma_child_orders_list_all(nodes, levels, counts, ranges);
    lemma_field_is_owned(bytes, rt, i);
    lemma_owned_item_occurs_once(
        bytes,
        levels,
        counts,
        child_orders(nodes, counts, ranges),
        max_level_of(levels),
        MainItem::Field(rt, i as u16),
        caps_of(bytes)[i].link_collection as int,
    );
}

/// Rebuilds the descriptor of a blob.
///
/// The stages run one after the other: the overlay on the bytes, the index of
/// the bit ranges and the analysis of the tree, the upward merge of the
/// ranges, the order of the children, the list of main items, their short
/// items and the bytes of those.
pub fn reconstruct_descriptor(pp_data: &[u8]) -> (r: Result<Vec<u8>, WinError>)
    ensures
        !has_magic(pp_data@) ==> r == Err::<Vec<u8>, WinError>(WinError::InvalidPreparsedData),
        r is Ok <==> is_valid_blob(pp_data@),
        r matches Ok(descriptor) ==> descriptor@ == descriptor_of(pp_data@),
        r matches Err(e) ==> e == WinError::InvalidPreparsedData,
{
    let blob = match PreparsedData::new(pp_data) {
        Ok(blob) => blob,
        Err(e) => {
            return Err(e);
        },
    };
    let mut table = match index_bit_ranges(&blob) {
        Ok(table) => table,
        Err(e) => {
            return Err(e);
        },
    };
    let hierarchy = match analyze_hierarchy(&blob) {
        Ok(hierarchy) => hierarchy,
        Err(e) => {
            return Err(e);
        },
    };
    propagate_bit_ranges(&blob, &hierarchy, &mut table);
    let order = resolve_child_order(&blob, &hierarchy, &table);
    proof {
        lemma_describes_shape(&hierarchy, blob.nodes());
        lemma_max_level_unique(hierarchy.level_seq(), hierarchy.max_level as int);
        lemma_child_orders_list_children(
            blob.nodes(),
            hierarchy.level_seq(),
            hierarchy.count_seq(),
            table@,
        );
    }
    let items = list_main_items(&blob, &hierarchy, &order);
    let short_items = list_short_items(&blob, &items);
    let descriptor = write_items(&short_items);
    Ok(descriptor)
}

/// Rebuilds the descriptor of a blob into the caller's buffer and returns its
/// length. The bytes of the buffer behind the descriptor are left as they
/// were; where the call fails, the whole buffer is.
///
/// Fails with `InvalidPreparsedData` exactly where the bytes are no valid
/// blob, and with `BufferTooSmall` and the length that is needed exactly
/// where the blob is valid and the buffer is shorter than the descriptor.
pub fn get_descriptor(pp_data: &[u8], buf: &mut [u8]) -> (r: WinResult<usize>)
    ensures
        !has_magic(pp_data@) ==> r == Err::<usize, WinError>(WinError::InvalidPreparsedData),
        match r {
            Ok(len) => {
                &&& is_valid_blob(pp_data@)
                &&& len == descriptor_of(pp_data@).len()
                &&& len <= old(buf)@.len()
                &&& final(buf)@ == descriptor_of(pp_data@) + old(buf)@.subrange(
                    len as int,
                    old(buf)@.len() as int,
                )
            },
            Err(WinError::InvalidPreparsedData) => {
                &&& !is_valid_blob(pp_data@)
                &&& final(buf)@ == old(buf)@
            },
            Err(WinError::BufferTooSmall(required)) => {
                &&& is_valid_blob(pp_data@)
                &&& required == descriptor_of(pp_data@).len()
                &&& required > old(buf)@.len()
                &&& final(buf)@ == old(buf)@
            },
        },
{
    let descriptor = match reconstruct_descriptor(pp_data) {
        Ok(descriptor) => descriptor,
        Err(e) => {
            return Err(e);
        },
    };
    let len: usize = descriptor.len();
    if len > buf.len() {
        return Err(WinError::BufferTooSmall(len));
    }
    let mut i: usize = 0;
    while i < len
        invariant
            i <= len,
            len == descriptor@.len(),
            len <= buf@.len(),
            buf@.len() == old(buf)@.len(),
            forall|j: int| 0 <= j < i ==> buf@[j] == descriptor@[j],
            forall|j: int| i <= j < buf@.len() ==> buf@[j] == old(buf)@[j],
        decreases len - i,
    {
        buf[i] = descriptor[i];
        i = i + 1;
    }
    assert(buf@ =~= descriptor@ + old(buf)@.subrange(len as int, old(buf)@.len() as int));
    Ok(len)
}

} // verus!
