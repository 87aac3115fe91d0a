//! The short items of the descriptor: each main item with the global and
//! local items that it needs before it.
//!
//! A global item stays in force until it is given again. So an item for a
//! global value is written only where the value differs from the one that was
//! written last; `Globals` keeps those. Physical bounds, unit and unit exponent
//! start at 0 and the report ID at none, as a reader of a descriptor assumes
//! them; the other values start unset and are written at their first use.

use vstd::prelude::*;
use crate::blob::PreparsedData;
use crate::main_items::{MainItem, is_item_of};
use crate::short_item::{
    COLLECTION, DESIGNATOR_INDEX, DESIGNATOR_MAXIMUM, DESIGNATOR_MINIMUM, END_COLLECTION, FEATURE,
    INPUT, ItemData, LOGICAL_MAXIMUM, LOGICAL_MINIMUM, OUTPUT, PHYSICAL_MAXIMUM, PHYSICAL_MINIMUM,
    REPORT_COUNT, REPORT_ID, REPORT_SIZE, STRING_INDEX, STRING_MAXIMUM, STRING_MINIMUM, ShortItem,
    UNIT, UNIT_EXPONENT, USAGE, USAGE_MAXIMUM, USAGE_MINIMUM, USAGE_PAGE, all_canonical,
};
use crate::typedefs::{Caps, LinkCollectionNode, MaybeButton, MaybeRange, ReportType};

verus! {

/// The global values that were written last.
#[derive(Clone, Copy, Debug, PartialEq, Eq)]
pub struct Globals {
    pub usage_page: Option<u32>,
    pub logical_minimum: Option<i32>,
    pub logical_maximum: Option<i32>,
    pub physical_minimum: Option<i32>,
    pub physical_maximum: Option<i32>,
    pub unit_exponent: Option<u32>,
    pub unit: Option<u32>,
    pub report_size: Option<u32>,
    pub report_id: Option<u32>,
    pub report_count: Option<u32>,
}

impl Globals {
    /// The global values at the start of a descriptor.
    pub open spec fn initial() -> Globals {
        Globals {
            usage_page: None,
            logical_minimum: None,
            logical_maximum: None,
            physical_minimum: Some(0i32),
            physical_maximum: Some(0i32),
            unit_exponent: Some(0u32),
            unit: Some(0u32),
            report_size: None,
            report_id: Some(0u32),
            report_count: None,
        }
    }

    pub fn new() -> (g: Globals)
        ensures
            g == Globals::initial(),
    {
        Globals {
            usage_page: None,
            logical_minimum: None,
            logical_maximum: None,
            physical_minimum: Some(0),
            physical_maximum: Some(0),
            unit_exponent: Some(0),
            unit: Some(0),
            report_size: None,
            report_id: Some(0),
            report_count: None,
        }
    }
}

/// The item with an unsigned number.
pub open spec fn unsigned(prefix: u8, value: u32) -> ShortItem {
    ShortItem { prefix, data: ItemData::Unsigned(value) }
}

/// The item with a signed number.
pub open spec fn signed(prefix: u8, value: i32) -> ShortItem {
    ShortItem { prefix, data: ItemData::Signed(value) }
}

/// The item for an unsigned global value, unless that value is in force.
pub open spec fn global_unsigned(in_force: Option<u32>, prefix: u8, value: u32) -> Seq<ShortItem> {
    if in_force == Some(value) {
        Seq::empty()
    } else {
        seq![unsigned(prefix, value)]
    }
}

/// The item for a signed global value, unless that value is in force.
pub open spec fn global_signed(in_force: Option<i32>, prefix: u8, value: i32) -> Seq<ShortItem> {
    if in_force == Some(value) {
        Seq::empty()
    } else {
        seq![signed(prefix, value)]
    }
}

pub open spec fn logical_minimum_of(caps: Caps) -> i32 {
    match caps.maybe_button {
        MaybeButton::Button(b) => b.logical_min,
        MaybeButton::NotButton(v) => v.logical_min,
    }
}

pub open spec fn logical_maximum_of(caps: Caps) -> i32 {
    match caps.maybe_button {
        MaybeButton::Button(b) => b.logical_max,
        MaybeButton::NotButton(v) => v.logical_max,
    }
}

/// The lower physical bound of a field; 0 for buttons, which have none.
pub open spec fn physical_minimum_of(caps: Caps) -> i32 {
    match caps.maybe_button {
        MaybeButton::Button(_) => 0i32,
        MaybeButton::NotButton(v) => v.physical_min,
    }
}

/// The upper physical bound of a field; 0 for buttons, which have none.
pub open spec fn physical_maximum_of(caps: Caps) -> i32 {
    match caps.maybe_button {
        MaybeButton::Button(_) => 0i32,
        MaybeButton::NotButton(v) => v.physical_max,
    }
}

/// The usage of a field, or the bounds of its range of usages.
pub open spec fn usage_items(caps: Caps) -> Seq<ShortItem> {
    match caps.maybe_range {
        MaybeRange::Range(r) => seq![
            unsigned(USAGE_MINIMUM, r.usage_min as u32),
            unsigned(USAGE_MAXIMUM, r.usage_max as u32),
        ],
        MaybeRange::NotRange(s) => seq![unsigned(USAGE, s.usage as u32)],
    }
}

/// The designator of a field, or the bounds of its range of designators, or
/// nothing where it has none.
pub open spec fn designator_items(caps: Caps) -> Seq<ShortItem> {
    match caps.maybe_range {
        MaybeRange::Range(r) => if caps.spec_is_desginator_range() {
            seq![
                unsigned(DESIGNATOR_MINIMUM, r.designator_min as u32),
                unsigned(DESIGNATOR_MAXIMUM, r.designator_max as u32),
            ]
        } else if r.designator_min != 0 {
            seq![unsigned(DESIGNATOR_INDEX, r.designator_min as u32)]
        } else {
            Seq::empty()
        },
        MaybeRange::NotRange(s) => if s.designator_index != 0 {
            seq![unsigned(DESIGNATOR_INDEX, s.designator_index as u32)]
        } else {
            Seq::empty()
        },
    }
}

/// The string of a field, or the bounds of its range of strings, or nothing
/// where it has none.
pub open spec fn string_items(caps: Caps) -> Seq<ShortItem> {
    match caps.maybe_range {
        MaybeRange::Range(r) => if caps.spec_is_string_range() {
            seq![
                unsigned(STRING_MINIMUM, r.string_min as u32),
                unsigned(STRING_MAXIMUM, r.string_max as u32),
            ]
        } else if r.string_min != 0 {
            seq![unsigned(STRING_INDEX, r.string_min as u32)]
        } else {
            Seq::empty()
        },
        MaybeRange::NotRange(s) => if s.string_index != 0 {
            seq![unsigned(STRING_INDEX, s.string_index as u32)]
        } else {
            Seq::empty()
        },
    }
}

/// The prefix of the main item of a report type.
pub open spec fn main_prefix(rt: ReportType) -> u8 {
    match rt {
        ReportType::Input => INPUT,
        ReportType::Output => OUTPUT,
        ReportType::Feature => FEATURE,
    }
}

/// The item for the report ID of a field, where it has one that is not in
/// force.
pub open spec fn report_id_items(caps: Caps, g: Globals) -> Seq<ShortItem> {
    if caps.report_id != 0 {
        global_unsigned(g.report_id, REPORT_ID, caps.report_id as u32)
    } else {
        Seq::empty()
    }
}

/// The items of one field: its report ID and usage page as far as they
/// changed, its usages, designators and strings, its bounds, unit, size and
/// count as far as they changed, and the main item with the field's flags.
pub open spec fn field_items(caps: Caps, rt: ReportType, g: Globals) -> Seq<ShortItem> {
    report_id_items(caps, g) + global_unsigned(g.usage_page, USAGE_PAGE, caps.usage_page as u32)
        + usage_items(caps) + designator_items(caps) + string_items(caps) + global_signed(
        g.logical_minimum,
        LOGICAL_MINIMUM,
        logical_minimum_of(caps),
    ) + global_signed(g.logical_maximum, LOGICAL_MAXIMUM, logical_maximum_of(caps)) + global_signed(
        g.physical_minimum,
        PHYSICAL_MINIMUM,
        physical_minimum_of(caps),
    ) + global_signed(g.physical_maximum, PHYSICAL_MAXIMUM, physical_maximum_of(caps))
        + global_unsigned(g.unit_exponent, UNIT_EXPONENT, caps.units_exp) + global_unsigned(
        g.unit,
        UNIT,
        caps.units,
    ) + global_unsigned(g.report_size, REPORT_SIZE, caps.report_size as u32) + global_unsigned(
        g.report_count,
        REPORT_COUNT,
        caps.report_count as u32,
    ) + seq![unsigned(main_prefix(rt), caps.bit_field)]
}

/// The global values that are in force after a field.
pub open spec fn field_globals(caps: Caps, g: Globals) -> Globals {
    Globals {
        usage_page: Some(caps.usage_page as u32),
        logical_minimum: Some(logical_minimum_of(caps)),
        logical_maximum: Some(logical_maximum_of(caps)),
        physical_minimum: Some(physical_minimum_of(caps)),
        physical_maximum: Some(physical_maximum_of(caps)),
        unit_exponent: Some(caps.units_exp),
        unit: Some(caps.units),
        report_size: Some(caps.report_size as u32),
        report_id: if caps.report_id != 0 {
            Some(caps.report_id as u32)
        } else {
            g.report_id
        },
        report_count: Some(caps.report_count as u32),
    }
}

/// The items that open a collection: its usage page as far as it changed, its
/// usage, and the collection item with the collection's type.
pub open spec fn collection_items(node: LinkCollectionNode, g: Globals) -> Seq<ShortItem> {
    global_unsigned(g.usage_page, USAGE_PAGE, node.link_usage_page as u32) + seq![
        unsigned(USAGE, node.link_usage as u32),
        unsigned(COLLECTION, node.spec_collection_type() as u32),
    ]
}

/// The global values that are in force after a collection was opened.
pub open spec fn collection_globals(node: LinkCollectionNode, g: Globals) -> Globals {
    Globals { usage_page: Some(node.link_usage_page as u32), ..g }
}

/// The item that closes a collection.
pub open spec fn end_collection() -> ShortItem {
    ShortItem { prefix: END_COLLECTION, data: ItemData::Empty }
}

/// The short items of one main item.
pub open spec fn items_of(
    nodes: Seq<LinkCollectionNode>,
    caps: Seq<Caps>,
    item: MainItem,
    g: Globals,
) -> Seq<ShortItem> {
    match item {
        MainItem::Collection(c) => collection_items(nodes[c as int], g),
        MainItem::EndCollection => seq![end_collection()],
        MainItem::Field(rt, i) => field_items(caps[i as int], rt, g),
    }
}

/// The global values that are in force after one main item.
pub open spec fn globals_after(
    nodes: Seq<LinkCollectionNode>,
    caps: Seq<Caps>,
    item: MainItem,
    g: Globals,
) -> Globals {
    match item {
        MainItem::Collection(c) => collection_globals(nodes[c as int], g),
        MainItem::EndCollection => g,
        MainItem::Field(_, i) => field_globals(caps[i as int], g),
    }
}

/// The short items of the first `upto` main items, and the global values that
/// are in force after them.
pub open spec fn short_items_upto(
    nodes: Seq<LinkCollectionNode>,
    caps: Seq<Caps>,
    items: Seq<MainItem>,
    upto: int,
) -> (Seq<ShortItem>, Globals)
    decreases upto,
{
    if upto <= 0 {
        (Seq::empty(), Globals::initial())
    } else {
        let (done, g) = short_items_upto(nodes, caps, items, upto - 1);
        (
            done + items_of(nodes, caps, items[upto - 1], g),
            globals_after(nodes, caps, items[upto - 1], g),
        )
    }
}

/// The short items of a list of main items.
pub open spec fn short_items(
    nodes: Seq<LinkCollectionNode>,
    caps: Seq<Caps>,
    items: Seq<MainItem>,
) -> Seq<ShortItem> {
    short_items_upto(nodes, caps, items, items.len() as int).0
}

fn put(out: &mut Vec<ShortItem>, prefix: u8, value: u32)
    ensures
        final(out)@ == old(out)@.push(unsigned(prefix, value)),
{
    out.push(ShortItem { prefix, data: ItemData::Unsigned(value) });
}

fn put_unsigned(out: &mut Vec<ShortItem>, in_force: Option<u32>, prefix: u8, value: u32) -> (now:
    Option<u32>)
    ensures
        final(out)@ == old(out)@ + global_unsigned(in_force, prefix, value),
        now == Some(value),
{
    let same = match in_force {
        Some(last) => last == value,
        None => false,
    };
    if !same {
        put(out, prefix, value);
    }
    assert(out@ =~= old(out)@ + global_unsigned(in_force, prefix, value));
    Some(value)
}

fn put_signed(out: &mut Vec<ShortItem>, in_force: Option<i32>, prefix: u8, value: i32) -> (now:
    Option<i32>)
    ensures
        final(out)@ == old(out)@ + global_signed(in_force, prefix, value),
        now == Some(value),
{
    let same = match in_force {
        Some(last) => last == value,
        None => false,
    };
    if !same {
        out.push(ShortItem { prefix, data: ItemData::Signed(value) });
    }
    assert(out@ =~= old(out)@ + global_signed(in_force, prefix, value));
    Some(value)
}

fn put_usage(out: &mut Vec<ShortItem>, caps: &Caps)
    ensures
        final(out)@ == old(out)@ + usage_items(*caps),
{
    match caps.maybe_range {
        MaybeRange::Range(r) => {
            put(out, USAGE_MINIMUM, r.usage_min as u32);
            put(out, USAGE_MAXIMUM, r.usage_max as u32);
        },
        MaybeRange::NotRange(s) => {
            put(out, USAGE, s.usage as u32);
        },
    }
    assert(out@ =~= old(out)@ + usage_items(*caps));
}

fn put_designator(out: &mut Vec<ShortItem>, caps: &Caps)
    ensures
        final(out)@ == old(out)@ + designator_items(*caps),
{
    match caps.maybe_range {
        MaybeRange::Range(r) => {
            if caps.is_desginator_range() {
                put(out, DESIGNATOR_MINIMUM, r.designator_min as u32);
                put(out, DESIGNATOR_MAXIMUM, r.designator_max as u32);
            } else if r.designator_min != 0 {
                put(out, DESIGNATOR_INDEX, r.designator_min as u32);
            }
        },
        MaybeRange::NotRange(s) => {
            if s.designator_index != 0 {
                put(out, DESIGNATOR_INDEX, s.designator_index as u32);
            }
        },
    }
    assert(out@ =~= old(out)@ + designator_items(*caps));
}

fn put_string(out: &mut Vec<ShortItem>, caps: &Caps)
    ensures
        final(out)@ == old(out)@ + string_items(*caps),
{
    match caps.maybe_range {
        MaybeRange::Range(r) => {
            if caps.is_string_range() {
                put(out, STRING_MINIMUM, r.string_min as u32);
                put(out, STRING_MAXIMUM, r.string_max as u32);
            } else if r.string_min != 0 {
                put(out, STRING_INDEX, r.string_min as u32);
            }
        },
        MaybeRange::NotRange(s) => {
            if s.string_index != 0 {
                put(out, STRING_INDEX, s.string_index as u32);
            }
        },
    }
    assert(out@ =~= old(out)@ + string_items(*caps));
}

/// Appending in two steps is appending the two parts joined.
proof fn lemma_append(head: Seq<ShortItem>, done: Seq<ShortItem>, part: Seq<ShortItem>)
    ensures
        (head + done) + part == head + (done + part),
{
    assert((head + done) + part =~= head + (done + part));
}

/// Appends the items of one field and says which global values are in force
/// after it.
pub fn emit_field(out: &mut Vec<ShortItem>, caps: &Caps, rt: ReportType, g: Globals) -> (now:
    Globals)
    ensures
        final(out)@ == old(out)@ + field_items(*caps, rt, g),
        now == field_globals(*caps, g),
{
    let ghost head = old(out)@;
    let (logical_min, logical_max, physical_min, physical_max): (i32, i32, i32, i32) =
        match caps.maybe_button {
        MaybeButton::Button(b) => (b.logical_min, b.logical_max, 0, 0),
        MaybeButton::NotButton(v) => (v.logical_min, v.logical_max, v.physical_min, v.physical_max),
    };
    let report_id = if caps.report_id != 0 {
        put_unsigned(out, g.report_id, REPORT_ID, caps.report_id as u32)
    } else {
        assert(out@ =~= head + report_id_items(*caps, g));
        g.report_id
    };
    let ghost mut done = report_id_items(*caps, g);
    let ghost mut part = global_unsigned(g.usage_page, USAGE_PAGE, caps.usage_page as u32);
    let usage_page = put_unsigned(out, g.usage_page, USAGE_PAGE, caps.usage_page as u32);
    proof {
        lemma_append(head, done, part);
        done = done + part;
        part = usage_items(*caps);
    }
    put_usage(out, caps);
    proof {
        lemma_append(head, done, part);
        done = done + part;
        part = designator_items(*caps);
    }
    put_designator(out, caps);
    proof {
        lemma_append(head, done, part);
        done = done + part;
        part = string_items(*caps);
    }
    put_string(out, caps);
    proof {
        lemma_append(head, done, part);
        done = done + part;
        part = global_signed(g.logical_minimum, LOGICAL_MINIMUM, logical_min);
    }
    let logical_minimum = put_signed(out, g.logical_minimum, LOGICAL_MINIMUM, logical_min);
    proof {
        lemma_append(head, done, part);
        done = done + part;
        part = global_signed(g.logical_maximum, LOGICAL_MAXIMUM, logical_max);
    }
    let logical_maximum = put_signed(out, g.logical_maximum, LOGICAL_MAXIMUM, logical_max);
    proof {
        lemma_append(head, done, part);
        done = done + part;
        part = global_signed(g.physical_minimum, PHYSICAL_MINIMUM, physical_min);
    }
    let physical_minimum = put_signed(out, g.physical_minimum, PHYSICAL_MINIMUM, physical_min);
    proof {
        lemma_append(head, done, part);
        done = done + part;
        part = global_signed(g.physical_maximum, PHYSICAL_MAXIMUM, physical_max);
    }
    let physical_maximum = put_signed(out, g.physical_maximum, PHYSICAL_MAXIMUM, physical_max);
    proof {
        lemma_append(head, done, part);
        done = done + part;
        part = global_unsigned(g.unit_exponent, UNIT_EXPONENT, caps.units_exp);
    }
    let unit_exponent = put_unsigned(out, g.unit_exponent, UNIT_EXPONENT, caps.units_exp);
    proof {
        lemma_append(head, done, part);
        done = done + part;
        part = global_unsigned(g.unit, UNIT, caps.units);
    }
    let unit = put_unsigned(out, g.unit, UNIT, caps.units);
    proof {
        lemma_append(head, done, part);
        done = done + part;
        part = global_unsigned(g.report_size, REPORT_SIZE, caps.report_size as u32);
    }
    let report_size = put_unsigned(out, g.report_size, REPORT_SIZE, caps.report_size as u32);
    proof {
        lemma_append(head, done, part);
        done = done + part;
        part = global_unsigned(g.report_count, REPORT_COUNT, caps.report_count as u32);
    }
    let report_count = put_unsigned(out, g.report_count, REPORT_COUNT, caps.report_count as u32);
    let prefix: u8 = match rt {
        ReportType::Input => INPUT,
        ReportType::Output => OUTPUT,
        ReportType::Feature => FEATURE,
    };
    proof {
        lemma_append(head, done, part);
        done = done + part;
        part = seq![unsigned(main_prefix(rt), caps.bit_field)];
    }
    put(out, prefix, caps.bit_field);
    proof {
        assert(out@ =~= (head + done) + part);
        lemma_append(head, done, part);
        assert(done + part == field_items(*caps, rt, g));
    }
    Globals {
        usage_page,
        logical_minimum,
        logical_maximum,
        physical_minimum,
        physical_maximum,
        unit_exponent,
        unit,
        report_size,
        report_id,
        report_count,
    }
}

/// Appends the items that open a collection and says which global values are
/// in force after them.
pub fn emit_collection(out: &mut Vec<ShortItem>, node: &LinkCollectionNode, g: Globals) -> (now:
    Globals)
    ensures
        final(out)@ == old(out)@ + collection_items(*node, g),
        now == collection_globals(*node, g),
{
    let usage_page = put_unsigned(out, g.usage_page, USAGE_PAGE, node.link_usage_page as u32);
    put(out, USAGE, node.link_usage as u32);
    put(out, COLLECTION, node.collection_type() as u32);
    assert(out@ =~= old(out)@ + collection_items(*node, g));
    Globals {
        usage_page,
        logical_minimum: g.logical_minimum,
        logical_maximum: g.logical_maximum,
        physical_minimum: g.physical_minimum,
        physical_maximum: g.physical_maximum,
        unit_exponent: g.unit_exponent,
        unit: g.unit,
        report_size: g.report_size,
        report_id: g.report_id,
        report_count: g.report_count,
    }
}

/// Two canonical lists joined are a canonical list.
proof fn lemma_canonical_append(a: Seq<ShortItem>, b: Seq<ShortItem>)
    requires
        all_canonical(a),
        all_canonical(b),
    ensures
        all_canonical(a + b),
{
    assert forall|i: int| 0 <= i < (a + b).len() implies (#[trigger] (a + b)[i]).is_canonical() by {
        if i < a.len() {
            assert((a + b)[i] == a[i]);
        } else {
            assert((a + b)[i] == b[i - a.len()]);
        }
    }
}

proof fn lemma_field_items_are_canonical(caps: Caps, rt: ReportType, g: Globals)
    ensures
        all_canonical(field_items(caps, rt, g)),
{
    let id = report_id_items(caps, g);
    let page = global_unsigned(g.usage_page, USAGE_PAGE, caps.usage_page as u32);
    let usage = usage_items(caps);
    let designator = designator_items(caps);
    let string = string_items(caps);
    let logical_min = global_signed(g.logical_minimum, LOGICAL_MINIMUM, logical_minimum_of(caps));
    let logical_max = global_signed(g.logical_maximum, LOGICAL_MAXIMUM, logical_maximum_of(caps));
    let physical_min = global_signed(
        g.physical_minimum,
        PHYSICAL_MINIMUM,
        physical_minimum_of(caps),
    );
    let physical_max = global_signed(
        g.physical_maximum,
        PHYSICAL_MAXIMUM,
        physical_maximum_of(caps),
    );
    let exponent = global_unsigned(g.unit_exponent, UNIT_EXPONENT, caps.units_exp);
    let unit = global_unsigned(g.unit, UNIT, caps.units);
    let size = global_unsigned(g.report_size, REPORT_SIZE, caps.report_size as u32);
    let count = global_unsigned(g.report_count, REPORT_COUNT, caps.report_count as u32);
    let main = seq![unsigned(main_prefix(rt), caps.bit_field)];
    assert(all_canonical(id));
    assert(all_canonical(page));
    assert(all_canonical(usage));
    assert(all_canonical(designator));
    assert(all_canonical(string));
    assert(all_canonical(logical_min));
    assert(all_canonical(logical_max));
    assert(all_canonical(physical_min));
    assert(all_canonical(physical_max));
    assert(all_canonical(exponent));
    assert(all_canonical(unit));
    assert(all_canonical(size));
    assert(all_canonical(count));
    assert(all_canonical(main));
    let mut done = id;
    lemma_canonical_append(done, page);
    done = done + page;
    lemma_canonical_append(done, usage);
    done = done + usage;
    lemma_canonical_append(done, designator);
    done = done + designator;
    lemma_canonical_append(done, string);
    done = done + string;
    lemma_canonical_append(done, logical_min);
    done = done + logical_min;
    lemma_canonical_append(done, logical_max);
    done = done + logical_max;
    lemma_canonical_append(done, physical_min);
    done = done + physical_min;
    lemma_canonical_append(done, physical_max);
    done = done + physical_max;
    lemma_canonical_append(done, exponent);
    done = done + exponent;
    lemma_canonical_append(done, unit);
    done = done + unit;
    lemma_canonical_append(done, size);
    done = done + size;
    lemma_canonical_append(done, count);
    done = done + count;
    lemma_canonical_append(done, main);
}

/// The short items of one main item are canonical.
pub proof fn lemma_items_are_canonical(
    nodes: Seq<LinkCollectionNode>,
    caps: Seq<Caps>,
    item: MainItem,
    g: Globals,
)
    ensures
        all_canonical(items_of(nodes, caps, item, g)),
{
    match item {
        MainItem::Collection(c) => {
            let node = nodes[c as int];
            let first = global_unsigned(g.usage_page, USAGE_PAGE, node.link_usage_page as u32);
            let rest = seq![
                unsigned(USAGE, node.link_usage as u32),
                unsigned(COLLECTION, node.spec_collection_type() as u32),
            ];
            assert(all_canonical(first));
            assert(all_canonical(rest));
            lemma_canonical_append(first, rest);
        },
        MainItem::EndCollection => {},
        MainItem::Field(rt, i) => {
            lemma_field_items_are_canonical(caps[i as int], rt, g);
        },
    }
}

/// The short items of a list of main items are canonical.
pub proof fn lemma_short_items_are_canonical(
    nodes: Seq<LinkCollectionNode>,
    caps: Seq<Caps>,
    items: Seq<MainItem>,
    upto: int,
)
    ensures
        all_canonical(short_items_upto(nodes, caps, items, upto).0),
    decreases upto,
{
    if upto > 0 {
        lemma_short_items_are_canonical(nodes, caps, items, upto - 1);
        let (done, g) = short_items_upto(nodes, caps, items, upto - 1);
        lemma_items_are_canonical(nodes, caps, items[upto - 1], g);
        lemma_canonical_append(done, items_of(nodes, caps, items[upto - 1], g));
    }
}

/// Lists the short items of a list of main items.
pub fn list_short_items(blob: &PreparsedData, items: &Vec<MainItem>) -> (out: Vec<ShortItem>)
    requires
        forall|i: int| 0 <= i < items@.len() ==> is_item_of(blob@, #[trigger] items@[i]),
    ensures
        out@ == short_items(blob.nodes(), blob.caps(), items@),
        all_canonical(out@),
{
    let ghost nodes = blob.nodes();
    let ghost caps = blob.caps();
    let mut out: Vec<ShortItem> = Vec::new();
    let mut g = Globals::new();
    let mut i: usize = 0;
    while i < items.len()
        invariant
            i <= items@.len(),
            nodes == blob.nodes(),
            caps == blob.caps(),
            forall|j: int| 0 <= j < items@.len() ==> is_item_of(blob@, #[trigger] items@[j]),
            (out@, g) == short_items_upto(nodes, caps, items@, i as int),
        decreases items@.len() - i,
    {
        assert(is_item_of(blob@, items@[i as int]));
        match items[i] {
            MainItem::Collection(c) => {
                let node = blob.node(c as usize);
                g = emit_collection(&mut out, &node, g);
            },
            MainItem::EndCollection => {
                let ghost before = out@;
                out.push(ShortItem { prefix: END_COLLECTION, data: ItemData::Empty });
                assert(out@ =~= before + seq![end_collection()]);
            },
            MainItem::Field(rt, index) => {
                let record = blob.cap(index as usize);
                g = emit_field(&mut out, &record, rt, g);
            },
        }
        i = i + 1;
    }
    proof {
        lemma_short_items_are_canonical(nodes, caps, items@, items@.len() as int);
    }
    out
}

} // verus!
