//! The records of a preparsed-data blob, as typed values.

use vstd::prelude::*;

verus! {

pub type Usage = u16;

/// Whether bit `k` of `word` is set.
pub open spec fn bit_is_set(word: u32, k: u32) -> bool {
    (word >> k) & 1u32 == 1u32
}

/// Whether bit `k` of the flag byte `flags` is set.
pub open spec fn flag_is_set(flags: u8, k: u8) -> bool {
    (flags >> k) & 1u8 == 1u8
}

/// The three kinds of report, in the order of the blob's index tables.
#[derive(Clone, Copy, Debug, PartialEq, Eq, Structural)]
pub enum ReportType {
    Input,
    Output,
    Feature,
}

impl ReportType {
    /// The position of this report type in the index tables: 0, 1 or 2.
    pub open spec fn ordinal(self) -> int {
        match self {
            ReportType::Input => 0,
            ReportType::Output => 1,
            ReportType::Feature => 2,
        }
    }

    /// The report type at position `i` of the index tables.
    pub open spec fn at_ordinal(i: int) -> ReportType {
        if i == 0 {
            ReportType::Input
        } else if i == 1 {
            ReportType::Output
        } else {
            ReportType::Feature
        }
    }

    pub fn index(self) -> (i: usize)
        ensures
            i == self.ordinal(),
            i < 3,
    {
        match self {
            ReportType::Input => 0,
            ReportType::Output => 1,
            ReportType::Feature => 2,
        }
    }

    pub fn from_index(i: usize) -> (rt: ReportType)
        requires
            i < 3,
        ensures
            rt == Self::at_ordinal(i as int),
            rt.ordinal() == i,
    {
        if i == 0 {
            ReportType::Input
        } else if i == 1 {
            ReportType::Output
        } else {
            ReportType::Feature
        }
    }

    /// All report types, in table order.
    pub fn values() -> (all: [ReportType; 3])
        ensures
            all@ == seq![ReportType::Input, ReportType::Output, ReportType::Feature],
    {
        let all: [ReportType; 3] = [ReportType::Input, ReportType::Output, ReportType::Feature];
        assert(all@ =~= seq![ReportType::Input, ReportType::Output, ReportType::Feature]);
        all
    }
}

/// One node of the collection tree. Nodes name each other by index; index 0 is
/// the root, and a `next_sibling` of 0 ends a chain of siblings.
#[derive(Clone, Copy, Debug, PartialEq, Eq)]
pub struct LinkCollectionNode {
    pub link_usage: Usage,
    pub link_usage_page: Usage,
    pub parent: u16,
    pub number_of_children: u16,
    pub next_sibling: u16,
    pub first_child: u16,
    pub bits: u32,
}

impl LinkCollectionNode {
    pub open spec fn spec_is_alias(&self) -> bool {
        bit_is_set(self.bits, 8)
    }

    pub open spec fn spec_collection_type(&self) -> u8 {
        (self.bits % 256) as u8
    }

    /// Bit 8 of `bits`: the collection is an alias of its sibling.
    pub fn is_alias(&self) -> (b: bool)
        ensures
            b == self.spec_is_alias(),
    {
        let bits: u32 = self.bits;
        assert((bits & (1u32 << 8u32) != 0) == ((bits >> 8u32) & 1u32 == 1u32)) by (bit_vector);
        self.bits & (1u32 << 8) != 0
    }

    /// The low byte of `bits`: the collection's type.
    pub fn collection_type(&self) -> (t: u8)
        ensures
            t == self.spec_collection_type(),
    {
        let bits: u32 = self.bits;
        assert(bits & 0xFFu32 == bits % 256) by (bit_vector);
        (self.bits & 0xFFu32) as u8
    }
}

/// Where the capability records of one report type lie in the record array:
/// from `first_cap` up to, not including, `last_cap`.
#[derive(Clone, Copy, Debug, PartialEq, Eq)]
pub struct CapsInfo {
    pub first_cap: u16,
    pub number_of_caps: u16,
    pub last_cap: u16,
    pub report_byte_length: u16,
}

#[derive(Clone, Copy, Debug, PartialEq, Eq)]
pub struct UnknownToken {
    pub token: u8,
    pub bit_field: u32,
}

/// The bounds of a button field.
#[derive(Clone, Copy, Debug, PartialEq, Eq)]
pub struct Button {
    pub logical_min: i32,
    pub logical_max: i32,
}

/// The bounds of a value field.
#[derive(Clone, Copy, Debug, PartialEq, Eq)]
pub struct NotButton {
    pub has_nul: u8,
    pub logical_min: i32,
    pub logical_max: i32,
    pub physical_min: i32,
    pub physical_max: i32,
}

/// The bounds of a field. The two forms share their bytes in the blob; the
/// button flag of the record says which one is there.
#[derive(Clone, Copy, Debug, PartialEq, Eq)]
pub enum MaybeButton {
    Button(Button),
    NotButton(NotButton),
}

/// What a field names, where it covers a range of usages.
#[derive(Clone, Copy, Debug, PartialEq, Eq)]
pub struct Range {
    pub usage_min: Usage,
    pub usage_max: Usage,
    pub string_min: u16,
    pub string_max: u16,
    pub designator_min: u16,
    pub designator_max: u16,
    pub data_index_min: u16,
    pub data_index_max: u16,
}

/// What a field names, where it has a single usage.
#[derive(Clone, Copy, Debug, PartialEq, Eq)]
pub struct NotRange {
    pub usage: Usage,
    pub string_index: u16,
    pub designator_index: u16,
    pub data_index: u16,
}

/// What a field names. The two forms share their bytes in the blob; the range
/// flag of the record says which one is there.
#[derive(Clone, Copy, Debug, PartialEq, Eq)]
pub enum MaybeRange {
    Range(Range),
    NotRange(NotRange),
}

/// One capability record: a field, or a group of equal fields, of a report.
#[derive(Clone, Copy, Debug, PartialEq, Eq)]
pub struct Caps {
    pub usage_page: Usage,
    pub report_id: u8,
    pub bit_position: u8,
    pub report_size: u16,
    pub report_count: u16,
    pub byte_position: u16,
    pub bit_count: u16,
    pub bit_field: u32,
    pub next_byte_position: u16,
    pub link_collection: u16,
    pub link_usage_page: Usage,
    pub link_usage: Usage,
    pub flags: u8,
    pub unknown_tokens: [UnknownToken; 4],
    pub maybe_range: MaybeRange,
    pub maybe_button: MaybeButton,
    pub units: u32,
    pub units_exp: u32,
}

impl Caps {
    pub open spec fn spec_is_button_cap(&self) -> bool {
        flag_is_set(self.flags, 2)
    }

    pub open spec fn spec_is_range(&self) -> bool {
        flag_is_set(self.flags, 4)
    }

    pub open spec fn spec_is_alias(&self) -> bool {
        flag_is_set(self.flags, 5)
    }

    pub open spec fn spec_is_string_range(&self) -> bool {
        flag_is_set(self.flags, 6)
    }

    pub open spec fn spec_is_desginator_range(&self) -> bool {
        flag_is_set(self.flags, 7)
    }

    /// The first bit of the report that the record occupies. Byte positions
    /// count from 1.
    pub open spec fn spec_first_bit(&self) -> int {
        (self.byte_position - 1) * 8 + self.bit_position
    }

    /// The last bit of the report that the record occupies.
    pub open spec fn spec_last_bit(&self) -> int {
        self.spec_first_bit() + self.report_size * self.report_count - 1
    }

    /// Flag bit 2: the record describes buttons.
    pub fn is_button_cap(&self) -> (b: bool)
        ensures
            b == self.spec_is_button_cap(),
    {
        let flags: u8 = self.flags;
        assert((flags & (1u8 << 2u8) != 0) == ((flags >> 2u8) & 1u8 == 1u8)) by (bit_vector);
        self.flags & (1u8 << 2) != 0
    }

    /// Flag bit 4: the record covers a range of usages.
    pub fn is_range(&self) -> (b: bool)
        ensures
            b == self.spec_is_range(),
    {
        let flags: u8 = self.flags;
        assert((flags & (1u8 << 4u8) != 0) == ((flags >> 4u8) & 1u8 == 1u8)) by (bit_vector);
        self.flags & (1u8 << 4) != 0
    }

    /// Flag bit 5: the record is an alias of the one before it.
    pub fn is_alias(&self) -> (b: bool)
        ensures
            b == self.spec_is_alias(),
    {
        let flags: u8 = self.flags;
        assert((flags & (1u8 << 5u8) != 0) == ((flags >> 5u8) & 1u8 == 1u8)) by (bit_vector);
        self.flags & (1u8 << 5) != 0
    }

    /// Flag bit 6: the record covers a range of strings.
    pub fn is_string_range(&self) -> (b: bool)
        ensures
            b == self.spec_is_string_range(),
    {
        let flags: u8 = self.flags;
        assert((flags & (1u8 << 6u8) != 0) == ((flags >> 6u8) & 1u8 == 1u8)) by (bit_vector);
        self.flags & (1u8 << 6) != 0
    }

    /// Flag bit 7: the record covers a range of designators.
    pub fn is_desginator_range(&self) -> (b: bool)
        ensures
            b == self.spec_is_desginator_range(),
    {
        let flags: u8 = self.flags;
        assert((flags & (1u8 << 7u8) != 0) == ((flags >> 7u8) & 1u8 == 1u8)) by (bit_vector);
        self.flags & (1u8 << 7) != 0
    }

    /// The first bit of the report that the record occupies.
    pub fn first_bit(&self) -> (bit: i64)
        ensures
            bit == self.spec_first_bit(),
    {
        (self.byte_position as i64 - 1) * 8 + self.bit_position as i64
    }

    /// The last bit of the report that the record occupies.
    pub fn last_bit(&self) -> (bit: i64)
        ensures
            bit == self.spec_last_bit(),
    {
        let size: i64 = self.report_size as i64;
        let count: i64 = self.report_count as i64;
        assert(0 <= size * count <= 65535 * 65535) by (nonlinear_arith)
            requires
                0 <= size <= 65535,
                0 <= count <= 65535,
        ;
        self.first_bit() + size * count - 1
    }
}

/// The fixed head of a preparsed-data blob.
#[derive(Clone, Copy, Debug, PartialEq, Eq)]
pub struct HidpPreparsedData {
    pub magic_key: [u8; 8],
    pub usage: Usage,
    pub usage_page: Usage,
    pub caps_info: [CapsInfo; 3],
    pub first_byte_of_link_collection_array: u16,
    pub number_link_collection_nodes: u16,
}

} // verus!
