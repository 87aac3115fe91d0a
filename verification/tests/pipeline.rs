use hid_descriptor::bit_range::{index_bit_ranges, BitRange};
use hid_descriptor::blob::PreparsedData;
use hid_descriptor::child_order::resolve_child_order;
use hid_descriptor::descriptor::{get_descriptor, reconstruct_descriptor};
use hid_descriptor::emit::list_short_items;
use hid_descriptor::error::WinError;
use hid_descriptor::hierarchy::analyze_hierarchy;
use hid_descriptor::main_items::MainItem::{Collection, EndCollection, Field};
use hid_descriptor::main_items::{list_main_items, MainItem};
use hid_descriptor::propagate::propagate_bit_ranges;
use hid_descriptor::short_item::{write_items, ItemData, ShortItem};
use hid_descriptor::typedefs::{MaybeButton, MaybeRange, ReportType};

const BUTTON: u8 = 1 << 2;
const RANGE: u8 = 1 << 4;
const STRING_RANGE: u8 = 1 << 6;
const DESIGNATOR_RANGE: u8 = 1 << 7;

#[derive(Clone, Copy)]
struct Node {
    usage: u16,
    usage_page: u16,
    parent: u16,
    number_of_children: u16,
    next_sibling: u16,
    first_child: u16,
    bits: u32,
}

fn node(parent: u16, number_of_children: u16, next_sibling: u16, first_child: u16) -> Node {
    Node {
        usage: 0,
        usage_page: 0,
        parent,
        number_of_children,
        next_sibling,
        first_child,
        bits: 0,
    }
}

#[derive(Clone, Copy)]
struct Cap {
    usage_page: u16,
    report_id: u8,
    bit_position: u8,
    report_size: u16,
    report_count: u16,
    byte_position: u16,
    bit_field: u32,
    link_collection: u16,
    flags: u8,
    range: [u16; 8],
    bounds: [u8; 20],
    units: u32,
    units_exp: u32,
}

/// A value field of `report_size` bits that starts at bit `first_bit`.
fn cap(link_collection: u16, report_id: u8, first_bit: u16, report_size: u16) -> Cap {
    Cap {
        usage_page: 1,
        report_id,
        bit_position: (first_bit % 8) as u8,
        report_size,
        report_count: 1,
        byte_position: first_bit / 8 + 1,
        bit_field: 2,
        link_collection,
        flags: 0,
        range: [0; 8],
        bounds: [0; 20],
        units: 0,
        units_exp: 0,
    }
}

fn value_bounds(logical: (i32, i32), physical: (i32, i32)) -> [u8; 20] {
    let mut bytes = [0u8; 20];
    bytes[4..8].copy_from_slice(&logical.0.to_le_bytes());
    bytes[8..12].copy_from_slice(&logical.1.to_le_bytes());
    bytes[12..16].copy_from_slice(&physical.0.to_le_bytes());
    bytes[16..20].copy_from_slice(&physical.1.to_le_bytes());
    bytes
}

fn button_bounds(logical: (i32, i32)) -> [u8; 20] {
    let mut bytes = [0u8; 20];
    bytes[0..4].copy_from_slice(&logical.0.to_le_bytes());
    bytes[4..8].copy_from_slice(&logical.1.to_le_bytes());
    bytes
}

fn put_u16(bytes: &mut Vec<u8>, value: u16) {
    bytes.extend_from_slice(&value.to_le_bytes());
}

fn put_u32(bytes: &mut Vec<u8>, value: u32) {
    bytes.extend_from_slice(&value.to_le_bytes());
}

/// The bytes of a blob with the given records of each report type and the
/// given nodes. The records lie behind the head, input first; the nodes lie
/// behind the records.
fn blob_bytes(caps: [&[Cap]; 3], nodes: &[Node]) -> Vec<u8> {
    let mut bytes = Vec::new();
    bytes.extend_from_slice(b"HidP KDR");
    put_u16(&mut bytes, 0x0005);
    put_u16(&mut bytes, 0x0001);
    put_u16(&mut bytes, 0);
    put_u16(&mut bytes, 0);
    let mut first = 0u16;
    for of_type in caps.iter() {
        let last = first + of_type.len() as u16;
        put_u16(&mut bytes, first);
        put_u16(&mut bytes, of_type.len() as u16);
        put_u16(&mut bytes, last);
        put_u16(&mut bytes, 0);
        first = last;
    }
    put_u16(&mut bytes, 28 + 104 * first);
    put_u16(&mut bytes, nodes.len() as u16);
    assert_eq!(bytes.len(), 44);
    for of_type in caps.iter() {
        for c in of_type.iter() {
            let start = bytes.len();
            put_u16(&mut bytes, c.usage_page);
            bytes.push(c.report_id);
            bytes.push(c.bit_position);
            put_u16(&mut bytes, c.report_size);
            put_u16(&mut bytes, c.report_count);
            put_u16(&mut bytes, c.byte_position);
            put_u16(&mut bytes, c.report_size * c.report_count);
            put_u32(&mut bytes, c.bit_field);
            put_u16(&mut bytes, 0);
            put_u16(&mut bytes, c.link_collection);
            put_u16(&mut bytes, 0);
            put_u16(&mut bytes, 0);
            bytes.push(c.flags);
            bytes.extend_from_slice(&[0; 3]);
            bytes.extend_from_slice(&[0; 32]);
            for word in c.range.iter() {
                put_u16(&mut bytes, *word);
            }
            bytes.extend_from_slice(&c.bounds);
            put_u32(&mut bytes, c.units);
            put_u32(&mut bytes, c.units_exp);
            assert_eq!(bytes.len() - start, 104);
        }
    }
    for n in nodes.iter() {
        put_u16(&mut bytes, n.usage);
        put_u16(&mut bytes, n.usage_page);
        put_u16(&mut bytes, n.parent);
        put_u16(&mut bytes, n.number_of_children);
        put_u16(&mut bytes, n.next_sibling);
        put_u16(&mut bytes, n.first_child);
        put_u32(&mut bytes, n.bits);
    }
    bytes
}

fn range(first: i64, last: i64) -> BitRange {
    BitRange { first_bit: Some(first), last_bit: Some(last) }
}

fn vacant() -> BitRange {
    BitRange { first_bit: None, last_bit: None }
}

/// Root 0 with the children 1 and 2, in this order of the sibling chain.
fn two_siblings() -> Vec<Node> {
    vec![node(0, 2, 0, 1), node(0, 0, 2, 0), node(0, 0, 0, 0)]
}

/// The order of the children of each node of a blob.
fn child_orders(bytes: &[u8]) -> Vec<Vec<u16>> {
    let blob = PreparsedData::new(bytes).unwrap();
    let mut table = index_bit_ranges(&blob).unwrap();
    let hierarchy = analyze_hierarchy(&blob).unwrap();
    propagate_bit_ranges(&blob, &hierarchy, &mut table);
    let order = resolve_child_order(&blob, &hierarchy, &table);
    (0..blob.number_of_nodes()).map(|p| order.children(p).clone()).collect()
}

// The marker.

#[test]
fn wrong_marker_is_invalid_whatever_follows() {
    let good = blob_bytes([&[cap(1, 1, 0, 8)], &[], &[]], &two_siblings());
    assert!(reconstruct_descriptor(&good).is_ok());
    for at in 0..8 {
        let mut bad = good.clone();
        bad[at] ^= 0x20;
        let mut buf = [0xEEu8; 64];
        assert_eq!(get_descriptor(&bad, &mut buf), Err(WinError::InvalidPreparsedData));
        assert_eq!(buf, [0xEEu8; 64]);
        assert_eq!(reconstruct_descriptor(&bad), Err(WinError::InvalidPreparsedData));
        assert!(PreparsedData::new(&bad).is_err());
    }
    let mut garbage = vec![0x5Au8; 500];
    assert_eq!(reconstruct_descriptor(&garbage), Err(WinError::InvalidPreparsedData));
    garbage[..8].copy_from_slice(b"HidP KDS");
    assert_eq!(reconstruct_descriptor(&garbage), Err(WinError::InvalidPreparsedData));
}

#[test]
fn short_input_is_invalid() {
    assert_eq!(reconstruct_descriptor(&[]), Err(WinError::InvalidPreparsedData));
    assert_eq!(reconstruct_descriptor(b"HidP KDR"), Err(WinError::InvalidPreparsedData));
    let full = blob_bytes([&[], &[], &[]], &[]);
    assert_eq!(full.len(), 44);
    assert!(reconstruct_descriptor(&full).is_ok());
    assert_eq!(reconstruct_descriptor(&full[..43]), Err(WinError::InvalidPreparsedData));
}

#[test]
fn arrays_must_lie_within_the_bytes() {
    let bytes = blob_bytes([&[cap(1, 1, 0, 8)], &[], &[]], &two_siblings());
    assert_eq!(bytes.len(), 44 + 104 + 3 * 16);
    assert!(PreparsedData::new(&bytes).is_ok());
    assert!(PreparsedData::new(&bytes[..bytes.len() - 1]).is_err());
    let mut more_nodes = bytes.clone();
    more_nodes[42] = 4;
    assert!(PreparsedData::new(&more_nodes).is_err());
    let mut more_caps = blob_bytes([&[], &[], &[]], &[]);
    more_caps[16 + 16 + 4] = 1;
    assert!(PreparsedData::new(&more_caps).is_err());
}

// No collections.

#[test]
fn blob_without_nodes_gives_empty_descriptor() {
    let bytes = blob_bytes([&[], &[], &[]], &[]);
    assert_eq!(reconstruct_descriptor(&bytes), Ok(vec![]));
    let mut buf = [0x77u8; 8];
    assert_eq!(get_descriptor(&bytes, &mut buf), Ok(0));
    assert_eq!(buf, [0x77u8; 8]);
    let mut none: [u8; 0] = [];
    assert_eq!(get_descriptor(&bytes, &mut none), Ok(0));
    let blob = PreparsedData::new(&bytes).unwrap();
    let hierarchy = analyze_hierarchy(&blob).unwrap();
    assert!(hierarchy.levels.is_empty());
    assert!(hierarchy.child_counts.is_empty());
    assert_eq!(hierarchy.max_level, 0);
}

#[test]
fn lone_root_gives_empty_descriptor() {
    let bytes = blob_bytes([&[], &[], &[]], &[node(0, 0, 0, 0)]);
    assert_eq!(reconstruct_descriptor(&bytes), Ok(vec![]));
    assert_eq!(child_orders(&bytes), vec![Vec::<u16>::new()]);
}

// The order of children.

#[test]
fn siblings_are_ordered_by_first_bit() {
    let a_first = blob_bytes([&[cap(1, 1, 0, 8), cap(2, 1, 8, 8)], &[], &[]], &two_siblings());
    assert_eq!(child_orders(&a_first)[0], vec![1, 2]);
    let b_first = blob_bytes([&[cap(1, 1, 8, 8), cap(2, 1, 0, 8)], &[], &[]], &two_siblings());
    assert_eq!(child_orders(&b_first)[0], vec![2, 1]);
}

#[test]
fn siblings_are_ordered_by_first_bit_in_either_chain_order() {
    let nodes = vec![node(0, 2, 0, 2), node(0, 0, 0, 0), node(0, 0, 1, 0)];
    let a_first = blob_bytes([&[cap(1, 1, 0, 8), cap(2, 1, 8, 8)], &[], &[]], &nodes);
    assert_eq!(child_orders(&a_first)[0], vec![1, 2]);
    let b_first = blob_bytes([&[cap(1, 1, 8, 8), cap(2, 1, 0, 8)], &[], &[]], &nodes);
    assert_eq!(child_orders(&b_first)[0], vec![2, 1]);
}

#[test]
fn siblings_without_bits_keep_reversed_chain_order() {
    let bytes = blob_bytes([&[], &[], &[]], &two_siblings());
    assert_eq!(child_orders(&bytes), vec![vec![2, 1], vec![], vec![]]);
    let nodes = vec![node(0, 3, 0, 3), node(0, 0, 0, 0), node(0, 0, 1, 0), node(0, 0, 2, 0)];
    let bytes = blob_bytes([&[], &[], &[]], &nodes);
    assert_eq!(child_orders(&bytes)[0], vec![1, 2, 3]);
}

#[test]
fn sibling_without_bits_is_not_moved() {
    // Chain 1, 2, 3; the row starts as 3, 2, 1. Node 2 has no bits, so the
    // nodes 3 and 1 are never neighbours that both have bits.
    let nodes = vec![node(0, 3, 0, 1), node(0, 0, 2, 0), node(0, 0, 3, 0), node(0, 0, 0, 0)];
    let bytes = blob_bytes([&[cap(1, 1, 0, 8), cap(3, 1, 8, 8)], &[], &[]], &nodes);
    assert_eq!(child_orders(&bytes)[0], vec![3, 2, 1]);
}

#[test]
fn siblings_in_different_reports_are_not_compared() {
    let bytes = blob_bytes([&[cap(1, 1, 0, 8), cap(2, 2, 8, 8)], &[], &[]], &two_siblings());
    assert_eq!(child_orders(&bytes)[0], vec![2, 1]);
    let bytes = blob_bytes([&[cap(1, 1, 0, 8)], &[cap(2, 1, 8, 8)], &[]], &two_siblings());
    assert_eq!(child_orders(&bytes)[0], vec![2, 1]);
}

#[test]
fn equal_first_bits_do_not_swap() {
    let bytes = blob_bytes([&[cap(1, 1, 8, 8), cap(2, 1, 8, 4)], &[], &[]], &two_siblings());
    assert_eq!(child_orders(&bytes)[0], vec![2, 1]);
}

#[test]
fn one_pass_moves_the_latest_start_to_the_end() {
    // Chain 1, 2, 3 with first bits 16, 8, 0: the row starts as 3, 2, 1 and
    // is in order already.
    let nodes = vec![node(0, 3, 0, 1), node(0, 0, 2, 0), node(0, 0, 3, 0), node(0, 0, 0, 0)];
    let caps = [cap(1, 1, 16, 8), cap(2, 1, 8, 8), cap(3, 1, 0, 8)];
    assert_eq!(child_orders(&blob_bytes([&caps, &[], &[]], &nodes))[0], vec![3, 2, 1]);
    // With first bits 0, 8, 16 the row 3, 2, 1 gets one pass: 2, 3, 1 and then
    // 2, 1, 3. A single pass does not sort it.
    let caps = [cap(1, 1, 0, 8), cap(2, 1, 8, 8), cap(3, 1, 16, 8)];
    assert_eq!(child_orders(&blob_bytes([&caps, &[], &[]], &nodes))[0], vec![2, 1, 3]);
    // A second report in which the nodes 2 and 1 are out of order gets them
    // right in its own pass.
    let caps = [
        cap(1, 1, 0, 8),
        cap(2, 1, 8, 8),
        cap(3, 1, 16, 8),
        cap(1, 2, 0, 8),
        cap(2, 2, 8, 8),
    ];
    assert_eq!(child_orders(&blob_bytes([&caps, &[], &[]], &nodes))[0], vec![1, 2, 3]);
}

#[test]
fn children_are_ordered_by_the_bits_of_their_subtrees() {
    // Root 0 has the children 1 and 2; node 2 has the child 3. Only node 3
    // has bits of its own below node 2.
    let nodes = vec![node(0, 2, 0, 1), node(0, 0, 2, 0), node(0, 1, 0, 3), node(2, 0, 0, 0)];
    let bytes = blob_bytes([&[cap(1, 1, 8, 8), cap(3, 1, 0, 8)], &[], &[]], &nodes);
    assert_eq!(child_orders(&bytes), vec![vec![2, 1], vec![], vec![3], vec![]]);
    let bytes = blob_bytes([&[cap(1, 1, 0, 8), cap(3, 1, 8, 8)], &[], &[]], &nodes);
    assert_eq!(child_orders(&bytes)[0], vec![1, 2]);
}

// The bit ranges.

#[test]
fn bit_range_of_a_record() {
    let mut c = cap(1, 7, 0, 4);
    c.byte_position = 3;
    c.bit_position = 2;
    c.report_count = 3;
    let bytes = blob_bytes([&[], &[c], &[]], &two_siblings());
    let blob = PreparsedData::new(&bytes).unwrap();
    let record = blob.cap(0);
    assert_eq!(record.first_bit(), 18);
    assert_eq!(record.last_bit(), 29);
    assert_eq!(BitRange::of_caps(&record), range(18, 29));
    let table = index_bit_ranges(&blob).unwrap();
    assert_eq!(table.get(1, 7, ReportType::Output), range(18, 29));
    assert_eq!(table.get(1, 7, ReportType::Input), vacant());
    assert_eq!(table.get(1, 7, ReportType::Feature), vacant());
    assert_eq!(table.get(1, 6, ReportType::Output), vacant());
    assert_eq!(table.get(0, 7, ReportType::Output), vacant());
    assert_eq!(table.get(2, 7, ReportType::Output), vacant());
    assert_eq!(table.number_of_nodes(), 3);
}

#[test]
fn bit_range_at_the_limits() {
    let mut c = cap(0, 0, 0, 0xFFFF);
    c.byte_position = 0xFFFF;
    c.bit_position = 0xFF;
    c.report_count = 0xFFFF;
    let bytes = blob_bytes([&[c], &[], &[]], &[node(0, 0, 0, 0)]);
    let blob = PreparsedData::new(&bytes).unwrap();
    let record = blob.cap(0);
    assert_eq!(record.first_bit(), 65534 * 8 + 255);
    assert_eq!(record.last_bit(), 65534 * 8 + 255 + 65535 * 65535 - 1);
    let mut empty = cap(0, 0, 0, 0);
    empty.byte_position = 0;
    empty.report_count = 0;
    let bytes = blob_bytes([&[empty], &[], &[]], &[node(0, 0, 0, 0)]);
    let blob = PreparsedData::new(&bytes).unwrap();
    assert_eq!(blob.cap(0).first_bit(), -8);
    assert_eq!(blob.cap(0).last_bit(), -9);
}

#[test]
fn records_of_one_key_widen_one_range() {
    let caps = [cap(1, 1, 24, 8), cap(1, 1, 0, 4), cap(1, 1, 8, 8), cap(1, 2, 40, 2)];
    let bytes = blob_bytes([&caps, &[], &[]], &two_siblings());
    let blob = PreparsedData::new(&bytes).unwrap();
    let table = index_bit_ranges(&blob).unwrap();
    assert_eq!(table.get(1, 1, ReportType::Input), range(0, 31));
    assert_eq!(table.get(1, 2, ReportType::Input), range(40, 41));
    assert_eq!(table.get(2, 1, ReportType::Input), vacant());
}

#[test]
fn record_of_a_missing_collection_is_invalid() {
    let bytes = blob_bytes([&[cap(3, 1, 0, 8)], &[], &[]], &two_siblings());
    let blob = PreparsedData::new(&bytes).unwrap();
    assert!(index_bit_ranges(&blob).is_err());
    assert_eq!(reconstruct_descriptor(&bytes), Err(WinError::InvalidPreparsedData));
    let bytes = blob_bytes([&[], &[], &[cap(0, 1, 0, 8)]], &[]);
    assert_eq!(reconstruct_descriptor(&bytes), Err(WinError::InvalidPreparsedData));
}

#[test]
fn widening_takes_the_outer_bounds() {
    assert_eq!(range(4, 9).widen(range(6, 20)), range(4, 20));
    assert_eq!(range(4, 9).widen(range(0, 5)), range(0, 9));
    assert_eq!(range(4, 9).widen(vacant()), range(4, 9));
    assert_eq!(vacant().widen(range(4, 9)), range(4, 9));
    assert_eq!(vacant().widen(vacant()), vacant());
    assert_eq!(BitRange::empty(), vacant());
    assert_eq!(BitRange::default(), vacant());
    let only_first = BitRange { first_bit: Some(3), last_bit: None };
    assert_eq!(only_first.widen(range(5, 6)), range(3, 6));
}

#[test]
fn ranges_are_merged_upwards() {
    // Root 0 with the children 1, 2, 3; node 2 has the child 4, which has the
    // child 5.
    let nodes = vec![
        node(0, 3, 0, 1),
        node(0, 0, 2, 0),
        node(0, 1, 3, 4),
        node(0, 0, 0, 0),
        node(2, 1, 0, 5),
        node(4, 0, 0, 0),
    ];
    let input = [cap(1, 1, 0, 8), cap(3, 1, 40, 8), cap(5, 1, 16, 4), cap(5, 2, 100, 1)];
    let feature = [cap(4, 1, 3, 2), cap(3, 9, 64, 64)];
    let bytes = blob_bytes([&input, &[], &feature], &nodes);
    let blob = PreparsedData::new(&bytes).unwrap();
    let mut table = index_bit_ranges(&blob).unwrap();
    let hierarchy = analyze_hierarchy(&blob).unwrap();
    assert_eq!(table.get(0, 1, ReportType::Input), vacant());
    assert_eq!(table.get(2, 1, ReportType::Input), vacant());
    propagate_bit_ranges(&blob, &hierarchy, &mut table);
    assert_eq!(table.get(5, 1, ReportType::Input), range(16, 19));
    assert_eq!(table.get(4, 1, ReportType::Input), range(16, 19));
    assert_eq!(table.get(2, 1, ReportType::Input), range(16, 19));
    assert_eq!(table.get(1, 1, ReportType::Input), range(0, 7));
    assert_eq!(table.get(3, 1, ReportType::Input), range(40, 47));
    assert_eq!(table.get(0, 1, ReportType::Input), range(0, 47));
    assert_eq!(table.get(0, 2, ReportType::Input), range(100, 100));
    assert_eq!(table.get(2, 2, ReportType::Input), range(100, 100));
    assert_eq!(table.get(1, 2, ReportType::Input), vacant());
    assert_eq!(table.get(0, 1, ReportType::Feature), range(3, 4));
    assert_eq!(table.get(5, 1, ReportType::Feature), vacant());
    assert_eq!(table.get(4, 1, ReportType::Feature), range(3, 4));
    assert_eq!(table.get(0, 9, ReportType::Feature), range(64, 127));
    assert_eq!(table.get(0, 1, ReportType::Output), vacant());
}

#[test]
fn every_range_covers_the_ranges_below_it() {
    let nodes = vec![
        node(0, 2, 0, 1),
        node(0, 2, 2, 3),
        node(0, 0, 0, 0),
        node(1, 0, 4, 0),
        node(1, 1, 0, 5),
        node(4, 0, 0, 0),
    ];
    let input = [cap(2, 1, 80, 8), cap(3, 1, 9, 3), cap(5, 1, 30, 2), cap(4, 3, 1, 1)];
    let bytes = blob_bytes([&input, &[cap(5, 1, 7, 7)], &[]], &nodes);
    let blob = PreparsedData::new(&bytes).unwrap();
    let mut table = index_bit_ranges(&blob).unwrap();
    let hierarchy = analyze_hierarchy(&blob).unwrap();
    propagate_bit_ranges(&blob, &hierarchy, &mut table);
    for child in 1..nodes.len() {
        let parent = nodes[child].parent as usize;
        for id in 0..=255u8 {
            for rt in ReportType::values() {
                let above = table.get(parent, id, rt);
                let below = table.get(child, id, rt);
                if let Some(first) = below.first_bit {
                    assert!(above.first_bit.unwrap() <= first);
                }
                if let Some(last) = below.last_bit {
                    assert!(above.last_bit.unwrap() >= last);
                }
            }
        }
    }
    assert_eq!(table.get(0, 1, ReportType::Input), range(9, 87));
    assert_eq!(table.get(1, 1, ReportType::Input), range(9, 31));
    assert_eq!(table.get(0, 1, ReportType::Output), range(7, 13));
}

// The tree.

#[test]
fn levels_and_child_counts_of_a_tree() {
    let nodes = vec![
        node(0, 3, 0, 1),
        node(0, 0, 2, 0),
        node(0, 1, 3, 4),
        node(0, 0, 0, 0),
        node(2, 1, 0, 5),
        node(4, 0, 0, 0),
    ];
    let bytes = blob_bytes([&[], &[], &[]], &nodes);
    let blob = PreparsedData::new(&bytes).unwrap();
    let hierarchy = analyze_hierarchy(&blob).unwrap();
    assert_eq!(hierarchy.levels, vec![0, 1, 1, 1, 2, 3]);
    assert_eq!(hierarchy.child_counts, vec![3, 0, 1, 0, 1, 0]);
    assert_eq!(hierarchy.max_level, 3);
}

#[test]
fn child_count_is_counted_not_read() {
    let nodes = vec![node(0, 7, 0, 2), node(0, 0, 0, 0), node(0, 0, 1, 0)];
    let bytes = blob_bytes([&[], &[], &[]], &nodes);
    let blob = PreparsedData::new(&bytes).unwrap();
    let hierarchy = analyze_hierarchy(&blob).unwrap();
    assert_eq!(hierarchy.levels, vec![0, 1, 1]);
    assert_eq!(hierarchy.child_counts, vec![2, 0, 0]);
    assert_eq!(hierarchy.max_level, 1);
}

#[test]
fn links_of_a_leaf_are_not_followed() {
    let nodes = vec![node(0, 1, 0, 1), node(0, 0, 0, 9)];
    let bytes = blob_bytes([&[], &[], &[]], &nodes);
    let blob = PreparsedData::new(&bytes).unwrap();
    let hierarchy = analyze_hierarchy(&blob).unwrap();
    assert_eq!(hierarchy.levels, vec![0, 1]);
    assert_eq!(reconstruct_descriptor(&bytes).map(|d| d.len()), Ok(7));
}

fn tree_is_refused(nodes: &[Node]) {
    let bytes = blob_bytes([&[], &[], &[]], nodes);
    let blob = PreparsedData::new(&bytes).unwrap();
    assert!(analyze_hierarchy(&blob).is_err());
    assert_eq!(reconstruct_descriptor(&bytes), Err(WinError::InvalidPreparsedData));
}

#[test]
fn links_that_form_no_tree_are_invalid() {
    // A first child beyond the array.
    tree_is_refused(&[node(0, 1, 0, 5)]);
    // The root as its own first child.
    tree_is_refused(&[node(0, 1, 0, 0)]);
    // A first child that names another parent.
    tree_is_refused(&[node(0, 1, 0, 1), node(1, 0, 0, 0)]);
    // A sibling of the root.
    tree_is_refused(&[node(0, 0, 1, 0), node(0, 0, 0, 0)]);
    // A next sibling beyond the array.
    tree_is_refused(&[node(0, 1, 0, 1), node(0, 0, 7, 0)]);
    // A next sibling that names another parent.
    tree_is_refused(&[node(0, 1, 0, 1), node(0, 0, 2, 0), node(1, 0, 0, 0)]);
    // A chain of siblings that runs in a circle.
    tree_is_refused(&[node(0, 2, 0, 1), node(0, 0, 2, 0), node(0, 0, 1, 0)]);
    // A node that is its own next sibling.
    tree_is_refused(&[node(0, 1, 0, 1), node(0, 0, 1, 0)]);
    // A node that no chain holds.
    tree_is_refused(&[node(0, 1, 0, 1), node(0, 0, 0, 0), node(0, 0, 0, 0)]);
    // Two nodes that are each other's parent, away from the root.
    tree_is_refused(&[node(0, 0, 0, 0), node(2, 1, 0, 2), node(1, 1, 0, 1)]);
    // A node that says it has children and is the child of its own child.
    tree_is_refused(&[node(0, 1, 0, 1), node(0, 1, 0, 2), node(1, 1, 0, 1)]);
    // A node that two chains hold.
    tree_is_refused(&[
        node(0, 2, 0, 1),
        node(0, 1, 2, 3),
        node(0, 1, 0, 3),
        node(1, 0, 0, 0),
    ]);
}

// The items.

fn items_of(bytes: &[u8]) -> Vec<MainItem> {
    let blob = PreparsedData::new(bytes).unwrap();
    let mut table = index_bit_ranges(&blob).unwrap();
    let hierarchy = analyze_hierarchy(&blob).unwrap();
    propagate_bit_ranges(&blob, &hierarchy, &mut table);
    let order = resolve_child_order(&blob, &hierarchy, &table);
    list_main_items(&blob, &hierarchy, &order)
}

#[test]
fn every_collection_but_the_root_is_opened_and_closed_once() {
    let nodes = vec![
        node(0, 3, 0, 1),
        node(0, 0, 2, 0),
        node(0, 1, 3, 4),
        node(0, 0, 0, 0),
        node(2, 1, 0, 5),
        node(4, 0, 0, 0),
    ];
    let bytes = blob_bytes([&[], &[], &[]], &nodes);
    assert_eq!(
        items_of(&bytes),
        vec![
            Collection(3),
            EndCollection,
            Collection(2),
            Collection(4),
            Collection(5),
            EndCollection,
            EndCollection,
            EndCollection,
            Collection(1),
            EndCollection,
        ]
    );
}

#[test]
fn fields_stand_in_their_collection_before_its_children() {
    let nodes = vec![node(0, 1, 0, 1), node(0, 1, 0, 2), node(1, 0, 0, 0)];
    let input = [cap(2, 0, 0, 8), cap(1, 0, 8, 8), cap(0, 0, 16, 8)];
    let bytes = blob_bytes([&input, &[cap(1, 0, 0, 8)], &[cap(0, 0, 0, 8)]], &nodes);
    assert_eq!(
        items_of(&bytes),
        vec![
            Field(ReportType::Input, 2),
            Field(ReportType::Feature, 4),
            Collection(1),
            Field(ReportType::Input, 1),
            Field(ReportType::Output, 3),
            Collection(2),
            Field(ReportType::Input, 0),
            EndCollection,
            EndCollection,
        ]
    );
}

#[test]
fn fields_are_ordered_by_report_and_first_bit() {
    let input = [
        cap(0, 2, 8, 8),
        cap(0, 1, 16, 8),
        cap(0, 2, 0, 8),
        cap(0, 1, 0, 4),
        cap(0, 1, 16, 2),
        cap(0, 1, 4, 4),
    ];
    let bytes = blob_bytes([&input, &[], &[]], &[node(0, 0, 0, 0)]);
    let order: Vec<u16> = items_of(&bytes)
        .iter()
        .map(|item| match item {
            MainItem::Field(ReportType::Input, index) => *index,
            _ => panic!("not an input field"),
        })
        .collect();
    assert_eq!(order, vec![3, 5, 1, 4, 2, 0]);
}

// The bytes.

fn button(link_collection: u16) -> Cap {
    let mut c = cap(link_collection, 0, 0, 1);
    c.usage_page = 9;
    c.flags = BUTTON;
    c.range[0] = 1;
    c.bounds = button_bounds((0, 1));
    c
}

fn mouse() -> Vec<u8> {
    let mut application = node(0, 0, 0, 0);
    application.usage_page = 1;
    application.usage = 2;
    application.bits = 1;
    blob_bytes([&[button(1)], &[], &[]], &[node(0, 1, 0, 1), application])
}

const MOUSE: [u8; 21] = [
    0x05, 0x01, 0x09, 0x02, 0xA1, 0x01, 0x05, 0x09, 0x09, 0x01, 0x15, 0x00, 0x25, 0x01, 0x75,
    0x01, 0x95, 0x01, 0x81, 0x02, 0xC0,
];

#[test]
fn descriptor_of_one_button_in_one_collection() {
    assert_eq!(reconstruct_descriptor(&mouse()), Ok(MOUSE.to_vec()));
}

#[test]
fn descriptor_is_written_to_the_front_of_the_buffer() {
    let mut buf = [0xEEu8; 30];
    assert_eq!(get_descriptor(&mouse(), &mut buf), Ok(21));
    assert_eq!(buf[..21], MOUSE);
    assert_eq!(buf[21..], [0xEEu8; 9]);
    let mut exact = [0u8; 21];
    assert_eq!(get_descriptor(&mouse(), &mut exact), Ok(21));
    assert_eq!(exact, MOUSE);
}

#[test]
fn short_buffer_is_left_alone() {
    let mut buf = [0xEEu8; 20];
    assert_eq!(get_descriptor(&mouse(), &mut buf), Err(WinError::BufferTooSmall(21)));
    assert_eq!(buf, [0xEEu8; 20]);
    let mut none: [u8; 0] = [];
    assert_eq!(get_descriptor(&mouse(), &mut none), Err(WinError::BufferTooSmall(21)));
}

#[test]
fn same_input_gives_same_output() {
    assert_eq!(reconstruct_descriptor(&mouse()), reconstruct_descriptor(&mouse()));
}

#[test]
fn global_items_are_written_when_they_change() {
    let mut x = cap(0, 0, 0, 8);
    x.range[0] = 0x30;
    x.bounds = value_bounds((-127, 127), (0, 0));
    let mut y = x;
    y.byte_position = 2;
    y.range[0] = 0x31;
    let mut wheel = x;
    wheel.byte_position = 3;
    wheel.range[0] = 0x38;
    wheel.bounds = value_bounds((-127, 127), (-300, 300));
    wheel.units = 0x11;
    wheel.units_exp = 0x0E;
    wheel.report_count = 2;
    let bytes = blob_bytes([&[x, y, wheel], &[], &[]], &[node(0, 0, 0, 0)]);
    let expected: Vec<u8> = vec![
        0x05, 0x01, 0x09, 0x30, 0x15, 0x81, 0x25, 0x7F, 0x75, 0x08, 0x95, 0x01, 0x81, 0x02,
        0x09, 0x31, 0x81, 0x02, 0x09, 0x38, 0x36, 0xD4, 0xFE, 0x46, 0x2C, 0x01, 0x55, 0x0E, 0x65,
        0x11, 0x95, 0x02, 0x81, 0x02,
    ];
    assert_eq!(reconstruct_descriptor(&bytes), Ok(expected));
}

#[test]
fn report_id_is_written_when_it_changes() {
    let mut a = cap(0, 1, 0, 8);
    a.range[0] = 0x30;
    let mut b = a;
    b.byte_position = 2;
    let mut c = a;
    c.report_id = 2;
    let bytes = blob_bytes([&[a, b], &[c], &[]], &[node(0, 0, 0, 0)]);
    let expected: Vec<u8> = vec![
        0x85, 0x01, 0x05, 0x01, 0x09, 0x30, 0x15, 0x00, 0x25, 0x00, 0x75, 0x08, 0x95, 0x01,
        0x81, 0x02, 0x09, 0x30, 0x81, 0x02, 0x85, 0x02, 0x09, 0x30, 0x91, 0x02,
    ];
    assert_eq!(reconstruct_descriptor(&bytes), Ok(expected));
}

#[test]
fn ranges_of_usages_strings_and_designators() {
    let mut keys = cap(0, 0, 0, 1);
    keys.usage_page = 7;
    keys.flags = BUTTON | RANGE | STRING_RANGE | DESIGNATOR_RANGE;
    keys.range = [0xE0, 0xE7, 4, 5, 6, 0x1234, 0, 7];
    keys.bounds = button_bounds((0, 1));
    keys.report_count = 8;
    let mut plain = keys;
    plain.flags = BUTTON | RANGE;
    plain.byte_position = 2;
    let mut single = cap(0, 0, 16, 8);
    single.usage_page = 7;
    single.range = [0x1FF, 0, 3, 0, 2, 0, 0, 0];
    single.bounds = value_bounds((0, 1), (0, 0));
    single.bit_field = 0x102;
    let bytes = blob_bytes([&[], &[], &[keys, plain, single]], &[node(0, 0, 0, 0)]);
    let expected: Vec<u8> = vec![
        0x05, 0x07, 0x19, 0xE0, 0x29, 0xE7, 0x49, 0x06, 0x5A, 0x34, 0x12, 0x89, 0x04, 0x99,
        0x05, 0x15, 0x00, 0x25, 0x01, 0x75, 0x01, 0x95, 0x08, 0xB1, 0x02, 0x19, 0xE0, 0x29, 0xE7,
        0x39, 0x06, 0x79, 0x04, 0xB1, 0x02, 0x0A, 0xFF, 0x01, 0x39, 0x02, 0x79, 0x03, 0x75, 0x08,
        0x95, 0x01, 0xB2, 0x02, 0x01,
    ];
    assert_eq!(reconstruct_descriptor(&bytes), Ok(expected));
}

#[test]
fn collection_usage_page_is_a_global_item() {
    let mut outer = node(0, 1, 0, 2);
    outer.usage_page = 1;
    outer.usage = 4;
    outer.bits = 1;
    let mut inner = node(1, 0, 0, 0);
    inner.usage_page = 1;
    inner.usage = 1;
    inner.bits = 0x100;
    let mut field = cap(2, 0, 0, 8);
    field.usage_page = 0xFF00;
    field.range[0] = 1;
    let bytes = blob_bytes([&[field], &[], &[]], &[node(0, 1, 0, 1), outer, inner]);
    let expected: Vec<u8> = vec![
        0x05, 0x01, 0x09, 0x04, 0xA1, 0x01, 0x09, 0x01, 0xA1, 0x00, 0x06, 0x00, 0xFF, 0x09,
        0x01, 0x15, 0x00, 0x25, 0x00, 0x75, 0x08, 0x95, 0x01, 0x81, 0x02, 0xC0, 0xC0,
    ];
    assert_eq!(reconstruct_descriptor(&bytes), Ok(expected));
}

#[test]
fn items_are_encoded_as_they_are_listed() {
    let bytes = mouse();
    let blob = PreparsedData::new(&bytes).unwrap();
    let items = items_of(&bytes);
    assert_eq!(
        items,
        vec![
            MainItem::Collection(1),
            MainItem::Field(ReportType::Input, 0),
            MainItem::EndCollection,
        ]
    );
    let short = list_short_items(&blob, &items);
    let unsigned = |prefix: u8, value: u32| ShortItem { prefix, data: ItemData::Unsigned(value) };
    let signed = |prefix: u8, value: i32| ShortItem { prefix, data: ItemData::Signed(value) };
    assert_eq!(
        short,
        vec![
            unsigned(0x04, 1),
            unsigned(0x08, 2),
            unsigned(0xA0, 1),
            unsigned(0x04, 9),
            unsigned(0x08, 1),
            signed(0x14, 0),
            signed(0x24, 1),
            unsigned(0x74, 1),
            unsigned(0x94, 1),
            unsigned(0x80, 2),
            ShortItem { prefix: 0xC0, data: ItemData::Empty },
        ]
    );
    assert_eq!(write_items(&short), MOUSE.to_vec());
    let closing = list_short_items(&blob, &vec![EndCollection; 3]);
    assert_eq!(closing, vec![ShortItem { prefix: 0xC0, data: ItemData::Empty }; 3]);
    assert_eq!(write_items(&closing), vec![0xC0; 3]);
    assert_eq!(list_short_items(&blob, &Vec::new()), Vec::<ShortItem>::new());
}

#[test]
fn usage_page_of_a_collection_opened_twice_is_written_once() {
    let bytes = mouse();
    let blob = PreparsedData::new(&bytes).unwrap();
    let twice = vec![Collection(1), Collection(1), EndCollection, EndCollection];
    assert_eq!(
        write_items(&list_short_items(&blob, &twice)),
        vec![0x05, 0x01, 0x09, 0x02, 0xA1, 0x01, 0x09, 0x02, 0xA1, 0x01, 0xC0, 0xC0]
    );
}

/// Reads a descriptor item by item: the prefix without its size bits and the
/// data bytes of each item.
fn read_back(descriptor: &[u8]) -> Vec<(u8, Vec<u8>)> {
    let mut items = Vec::new();
    let mut at = 0;
    while at < descriptor.len() {
        let size = [0usize, 1, 2, 4][(descriptor[at] & 3) as usize];
        items.push((descriptor[at] & 0xFC, descriptor[at + 1..at + 1 + size].to_vec()));
        at += 1 + size;
    }
    assert_eq!(at, descriptor.len());
    items
}

#[test]
fn descriptor_reads_back_as_its_items() {
    let nodes = vec![node(0, 2, 0, 1), node(0, 1, 2, 3), node(0, 0, 0, 0), node(1, 0, 0, 0)];
    let mut wide = cap(3, 4, 0, 16);
    wide.usage_page = 0xFF01;
    wide.range[0] = 0x1234;
    wide.bounds = value_bounds((-40000, 40000), (-1, 70000));
    wide.units = 0x0001_0000;
    wide.bit_field = 0x1_0002;
    let bytes = blob_bytes([&[wide, cap(2, 4, 16, 8)], &[cap(1, 5, 0, 8)], &[]], &nodes);
    let blob = PreparsedData::new(&bytes).unwrap();
    let short = list_short_items(&blob, &items_of(&bytes));
    let descriptor = reconstruct_descriptor(&bytes).unwrap();
    let read = read_back(&descriptor);
    assert_eq!(read.len(), short.len());
    for (item, (prefix, data)) in short.iter().zip(read.iter()) {
        assert_eq!(item.prefix, *prefix);
        let mut word = [0u8; 4];
        word[..data.len()].copy_from_slice(data);
        match item.data {
            ItemData::Empty => assert!(data.is_empty()),
            ItemData::Unsigned(value) => assert_eq!(u32::from_le_bytes(word), value),
            ItemData::Signed(value) => {
                let read = match data.len() {
                    1 => data[0] as i8 as i32,
                    2 => i16::from_le_bytes([data[0], data[1]]) as i32,
                    _ => i32::from_le_bytes(word),
                };
                assert_eq!(read, value);
            }
        }
    }
    let opened = read.iter().filter(|(prefix, _)| *prefix == 0xA0).count();
    let closed = read.iter().filter(|(prefix, _)| *prefix == 0xC0).count();
    let fields = read.iter().filter(|(prefix, _)| [0x80, 0x90, 0xB0].contains(prefix)).count();
    assert_eq!((opened, closed, fields), (3, 3, 3));
}

#[test]
fn every_record_is_a_field_once() {
    let nodes = vec![node(0, 2, 0, 1), node(0, 1, 2, 3), node(0, 0, 0, 0), node(1, 0, 0, 0)];
    let input = [cap(3, 1, 8, 8), cap(0, 1, 0, 8), cap(3, 1, 16, 8), cap(2, 2, 0, 8)];
    let output = [cap(1, 1, 0, 8), cap(3, 1, 0, 8)];
    let bytes = blob_bytes([&input, &output, &[cap(0, 0, 0, 1)]], &nodes);
    let items = items_of(&bytes);
    for index in 0..4 {
        assert_eq!(items.iter().filter(|i| **i == Field(ReportType::Input, index)).count(), 1);
    }
    for index in 4..6 {
        assert_eq!(items.iter().filter(|i| **i == Field(ReportType::Output, index)).count(), 1);
    }
    assert_eq!(items.iter().filter(|i| **i == Field(ReportType::Feature, 6)).count(), 1);
    for c in 1..4 {
        assert_eq!(items.iter().filter(|i| **i == Collection(c)).count(), 1);
    }
    assert_eq!(items.iter().filter(|i| **i == Collection(0)).count(), 0);
    assert_eq!(items.iter().filter(|i| **i == EndCollection).count(), 3);
    assert_eq!(items.len(), 7 + 3 + 3);
}

// The overlay.

#[test]
fn head_is_read_from_the_bytes() {
    let bytes = blob_bytes([&[button(1)], &[cap(1, 0, 0, 8), cap(1, 0, 8, 8)], &[]], &two_siblings());
    let blob = PreparsedData::new(&bytes).unwrap();
    let header = blob.header();
    assert_eq!(&header.magic_key, b"HidP KDR");
    assert_eq!(header.usage, 5);
    assert_eq!(header.usage_page, 1);
    assert_eq!(header.caps_info[0].first_cap, 0);
    assert_eq!(header.caps_info[0].number_of_caps, 1);
    assert_eq!(header.caps_info[0].last_cap, 1);
    assert_eq!(header.caps_info[1].first_cap, 1);
    assert_eq!(header.caps_info[1].last_cap, 3);
    assert_eq!(header.caps_info[2].first_cap, 3);
    assert_eq!(header.caps_info[2].last_cap, 3);
    assert_eq!(header.first_byte_of_link_collection_array, 28 + 3 * 104);
    assert_eq!(header.number_link_collection_nodes, 3);
    assert_eq!(blob.caps_info(ReportType::Output), header.caps_info[1]);
    assert_eq!(blob.number_of_caps(), 3);
    assert_eq!(blob.number_of_nodes(), 3);
}

#[test]
fn nodes_are_read_from_the_bytes() {
    let mut n = node(0x0102, 0x0304, 0x0506, 0x0708);
    n.usage = 0x090A;
    n.usage_page = 0x0B0C;
    n.bits = 0x8000_0103;
    let bytes = blob_bytes([&[], &[], &[]], &[node(0, 0, 0, 0), n]);
    let blob = PreparsedData::new(&bytes).unwrap();
    let read = blob.node(1);
    assert_eq!(read.link_usage, 0x090A);
    assert_eq!(read.link_usage_page, 0x0B0C);
    assert_eq!(read.parent, 0x0102);
    assert_eq!(read.number_of_children, 0x0304);
    assert_eq!(read.next_sibling, 0x0506);
    assert_eq!(read.first_child, 0x0708);
    assert_eq!(read.bits, 0x8000_0103);
    assert!(read.is_alias());
    assert_eq!(read.collection_type(), 3);
    assert_eq!(blob.node(0).bits, 0);
}

#[test]
fn records_are_read_from_the_bytes() {
    let mut value = cap(2, 0x11, 13, 0x0203);
    value.usage_page = 0xFFA0;
    value.report_count = 0x0405;
    value.bit_field = 0xDEAD_BEEF;
    value.range = [0x10, 0x11, 0x12, 0x13, 0x14, 0x15, 0x16, 0x17];
    value.bounds = value_bounds((-2, i32::MAX), (i32::MIN, -1));
    value.bounds[0] = 1;
    value.units = 0x0102_0304;
    value.units_exp = 0x0A0B_0C0D;
    let mut keys = button(1);
    keys.flags = BUTTON | RANGE;
    keys.range = [1, 2, 3, 4, 5, 6, 7, 8];
    keys.bounds = button_bounds((-1, 1));
    let bytes = blob_bytes([&[value], &[], &[keys]], &two_siblings());
    let blob = PreparsedData::new(&bytes).unwrap();
    let read = blob.cap(0);
    assert_eq!(read.usage_page, 0xFFA0);
    assert_eq!(read.report_id, 0x11);
    assert_eq!(read.bit_position, 5);
    assert_eq!(read.byte_position, 2);
    assert_eq!(read.report_size, 0x0203);
    assert_eq!(read.report_count, 0x0405);
    assert_eq!(read.bit_field, 0xDEAD_BEEF);
    assert_eq!(read.link_collection, 2);
    assert_eq!(read.flags, 0);
    assert_eq!(read.units, 0x0102_0304);
    assert_eq!(read.units_exp, 0x0A0B_0C0D);
    assert!(!read.is_range() && !read.is_button_cap());
    match read.maybe_range {
        MaybeRange::NotRange(single) => {
            assert_eq!(single.usage, 0x10);
            assert_eq!(single.string_index, 0x12);
            assert_eq!(single.designator_index, 0x14);
            assert_eq!(single.data_index, 0x16);
        }
        MaybeRange::Range(_) => panic!("read as a range"),
    }
    match read.maybe_button {
        MaybeButton::NotButton(bounds) => {
            assert_eq!(bounds.has_nul, 1);
            assert_eq!(bounds.logical_min, -2);
            assert_eq!(bounds.logical_max, i32::MAX);
            assert_eq!(bounds.physical_min, i32::MIN);
            assert_eq!(bounds.physical_max, -1);
        }
        MaybeButton::Button(_) => panic!("read as a button"),
    }
    let read = blob.cap(1);
    assert!(read.is_range() && read.is_button_cap());
    match read.maybe_range {
        MaybeRange::Range(r) => {
            assert_eq!(
                [
                    r.usage_min,
                    r.usage_max,
                    r.string_min,
                    r.string_max,
                    r.designator_min,
                    r.designator_max,
                    r.data_index_min,
                    r.data_index_max
                ],
                [1, 2, 3, 4, 5, 6, 7, 8]
            );
        }
        MaybeRange::NotRange(_) => panic!("read as a single usage"),
    }
    match read.maybe_button {
        MaybeButton::Button(bounds) => {
            assert_eq!(bounds.logical_min, -1);
            assert_eq!(bounds.logical_max, 1);
        }
        MaybeButton::NotButton(_) => panic!("read as a value"),
    }
}

#[test]
fn unknown_tokens_are_read_from_the_bytes() {
    let mut bytes = blob_bytes([&[cap(0, 0, 0, 8)], &[], &[]], &[node(0, 0, 0, 0)]);
    for k in 0..4 {
        let at = 44 + 28 + 8 * k;
        bytes[at] = 0xA0 + k as u8;
        bytes[at + 4..at + 8].copy_from_slice(&(0x0101_0101u32 * (k as u32 + 1)).to_le_bytes());
    }
    let blob = PreparsedData::new(&bytes).unwrap();
    let tokens = blob.cap(0).unknown_tokens;
    for k in 0..4 {
        assert_eq!(tokens[k].token, 0xA0 + k as u8);
        assert_eq!(tokens[k].bit_field, 0x0101_0101 * (k as u32 + 1));
    }
}
