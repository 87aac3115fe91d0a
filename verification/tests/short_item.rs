use hid_descriptor::short_item::{
    write_item, write_items, ItemData, ShortItem, END_COLLECTION, LOGICAL_MINIMUM, REPORT_COUNT,
    USAGE,
};

fn unsigned(prefix: u8, value: u32) -> Vec<u8> {
    let mut out = Vec::new();
    write_item(&mut out, &ShortItem { prefix, data: ItemData::Unsigned(value) });
    out
}

fn signed(prefix: u8, value: i32) -> Vec<u8> {
    let mut out = Vec::new();
    write_item(&mut out, &ShortItem { prefix, data: ItemData::Signed(value) });
    out
}

#[test]
fn unsigned_items_take_the_fewest_bytes() {
    assert_eq!(unsigned(USAGE, 0), vec![0x09, 0x00]);
    assert_eq!(unsigned(USAGE, 0xFF), vec![0x09, 0xFF]);
    assert_eq!(unsigned(USAGE, 0x100), vec![0x0A, 0x00, 0x01]);
    assert_eq!(unsigned(USAGE, 0xFFFF), vec![0x0A, 0xFF, 0xFF]);
    assert_eq!(unsigned(USAGE, 0x1_0000), vec![0x0B, 0x00, 0x00, 0x01, 0x00]);
    assert_eq!(unsigned(REPORT_COUNT, 0x1234_5678), vec![0x97, 0x78, 0x56, 0x34, 0x12]);
    assert_eq!(unsigned(REPORT_COUNT, u32::MAX), vec![0x97, 0xFF, 0xFF, 0xFF, 0xFF]);
}

#[test]
fn signed_items_take_the_fewest_bytes() {
    assert_eq!(signed(LOGICAL_MINIMUM, 0), vec![0x15, 0x00]);
    assert_eq!(signed(LOGICAL_MINIMUM, 127), vec![0x15, 0x7F]);
    assert_eq!(signed(LOGICAL_MINIMUM, -1), vec![0x15, 0xFF]);
    assert_eq!(signed(LOGICAL_MINIMUM, -128), vec![0x15, 0x80]);
    assert_eq!(signed(LOGICAL_MINIMUM, 128), vec![0x16, 0x80, 0x00]);
    assert_eq!(signed(LOGICAL_MINIMUM, -129), vec![0x16, 0x7F, 0xFF]);
    assert_eq!(signed(LOGICAL_MINIMUM, 32767), vec![0x16, 0xFF, 0x7F]);
    assert_eq!(signed(LOGICAL_MINIMUM, -32768), vec![0x16, 0x00, 0x80]);
    assert_eq!(signed(LOGICAL_MINIMUM, 32768), vec![0x17, 0x00, 0x80, 0x00, 0x00]);
    assert_eq!(signed(LOGICAL_MINIMUM, -32769), vec![0x17, 0xFF, 0x7F, 0xFF, 0xFF]);
    assert_eq!(signed(LOGICAL_MINIMUM, i32::MAX), vec![0x17, 0xFF, 0xFF, 0xFF, 0x7F]);
    assert_eq!(signed(LOGICAL_MINIMUM, i32::MIN), vec![0x17, 0x00, 0x00, 0x00, 0x80]);
}

#[test]
fn items_are_written_one_after_the_other() {
    let mut out = vec![1, 2, 3];
    write_item(&mut out, &ShortItem { prefix: END_COLLECTION, data: ItemData::Empty });
    write_item(&mut out, &ShortItem { prefix: USAGE, data: ItemData::Unsigned(5) });
    write_item(&mut out, &ShortItem { prefix: LOGICAL_MINIMUM, data: ItemData::Signed(-5) });
    assert_eq!(out, vec![1, 2, 3, 0xC0, 0x09, 0x05, 0x15, 0xFB]);
    let items = vec![
        ShortItem { prefix: USAGE, data: ItemData::Unsigned(0x1234) },
        ShortItem { prefix: END_COLLECTION, data: ItemData::Empty },
        ShortItem { prefix: LOGICAL_MINIMUM, data: ItemData::Signed(-300) },
    ];
    assert_eq!(write_items(&items), vec![0x0A, 0x34, 0x12, 0xC0, 0x16, 0xD4, 0xFE]);
    assert_eq!(write_items(&Vec::new()), Vec::<u8>::new());
}
