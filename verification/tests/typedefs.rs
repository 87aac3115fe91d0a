use hid_descriptor::typedefs::{
    Button, Caps, LinkCollectionNode, MaybeButton, MaybeRange, NotRange, ReportType, UnknownToken,
};

fn node_with_bits(bits: u32) -> LinkCollectionNode {
    LinkCollectionNode {
        link_usage: 0,
        link_usage_page: 0,
        parent: 0,
        number_of_children: 0,
        next_sibling: 0,
        first_child: 0,
        bits,
    }
}

fn caps_with_flags(flags: u8) -> Caps {
    Caps {
        usage_page: 0,
        report_id: 0,
        bit_position: 0,
        report_size: 0,
        report_count: 0,
        byte_position: 0,
        bit_count: 0,
        bit_field: 0,
        next_byte_position: 0,
        link_collection: 0,
        link_usage_page: 0,
        link_usage: 0,
        flags,
        unknown_tokens: [UnknownToken { token: 0, bit_field: 0 }; 4],
        maybe_range: MaybeRange::NotRange(NotRange {
            usage: 0,
            string_index: 0,
            designator_index: 0,
            data_index: 0,
        }),
        maybe_button: MaybeButton::Button(Button { logical_min: 0, logical_max: 0 }),
        units: 0,
        units_exp: 0,
    }
}

#[test]
fn node_alias_is_bit_eight() {
    assert!(node_with_bits(0x100).is_alias());
    assert!(node_with_bits(0xFFFF_FFFF).is_alias());
    assert!(!node_with_bits(0xFFFF_FEFF).is_alias());
    assert!(!node_with_bits(0).is_alias());
}

#[test]
fn node_collection_type_is_low_byte() {
    assert_eq!(node_with_bits(0x0000_0001).collection_type(), 1);
    assert_eq!(node_with_bits(0xABCD_1302).collection_type(), 2);
    assert_eq!(node_with_bits(0xFFFF_FF00).collection_type(), 0);
}

#[test]
fn caps_flags_are_separate_bits() {
    let button = caps_with_flags(1 << 2);
    assert!(button.is_button_cap());
    assert!(!button.is_range() && !button.is_alias());
    assert!(!button.is_string_range() && !button.is_desginator_range());
    assert!(caps_with_flags(1 << 4).is_range());
    assert!(caps_with_flags(1 << 5).is_alias());
    assert!(caps_with_flags(1 << 6).is_string_range());
    assert!(caps_with_flags(1 << 7).is_desginator_range());
    let none = caps_with_flags(0b0000_1011);
    assert!(!none.is_button_cap() && !none.is_range() && !none.is_alias());
    assert!(!none.is_string_range() && !none.is_desginator_range());
}

#[test]
fn report_types_in_table_order() {
    assert_eq!(
        ReportType::values(),
        [ReportType::Input, ReportType::Output, ReportType::Feature]
    );
    for (i, rt) in ReportType::values().iter().enumerate() {
        assert_eq!(rt.index(), i);
        assert_eq!(ReportType::from_index(i), *rt);
    }
}
