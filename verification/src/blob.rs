//! The layout of a preparsed-data blob, and a checked, read-only view of one.
//!
//! All numbers in a blob are little-endian. The blob starts with a head of
//! `HEADER_SIZE` bytes; the capability records follow it directly, each
//! `CAPS_SIZE` bytes long. The collection nodes, each `NODE_SIZE` bytes long,
//! start at the byte that the head names, counted from the head's index
//! tables.

use vstd::prelude::*;
use crate::error::WinError;
use crate::typedefs::{
    Button, Caps, CapsInfo, HidpPreparsedData, LinkCollectionNode, MaybeButton, MaybeRange,
    NotButton, NotRange, Range, ReportType, UnknownToken, flag_is_set,
};

verus! {

/// The length of the head of a blob.
pub const HEADER_SIZE: usize = 44;

/// Where the three index tables start in the head.
pub const CAPS_INFO_OFFSET: usize = 16;

/// The length of one capability record.
pub const CAPS_SIZE: usize = 104;

/// The length of one collection node.
pub const NODE_SIZE: usize = 16;

/// The marker that every blob starts with: the letters `HidP KDR`.
pub open spec fn magic() -> Seq<u8> {
    seq![0x48u8, 0x69u8, 0x64u8, 0x50u8, 0x20u8, 0x4Bu8, 0x44u8, 0x52u8]
}

/// Whether `bytes` starts with the marker.
pub open spec fn has_magic(bytes: Seq<u8>) -> bool {
    bytes.len() >= 8 && bytes.subrange(0, 8) == magic()
}

pub open spec fn u16_at(bytes: Seq<u8>, at: int) -> u16 {
    (bytes[at] + 256 * bytes[at + 1]) as u16
}

pub open spec fn u32_at(bytes: Seq<u8>, at: int) -> u32 {
    (bytes[at] + 256 * bytes[at + 1] + 65536 * bytes[at + 2] + 16777216 * bytes[at + 3]) as u32
}

/// The two's complement reading of the four bytes at `at`.
pub open spec fn i32_at(bytes: Seq<u8>, at: int) -> i32 {
    let word = u32_at(bytes, at);
    if word < 0x8000_0000 {
        word as i32
    } else {
        (word - 0x1_0000_0000) as i32
    }
}

pub open spec fn caps_info_at(bytes: Seq<u8>, at: int) -> CapsInfo {
    CapsInfo {
        first_cap: u16_at(bytes, at),
        number_of_caps: u16_at(bytes, at + 2),
        last_cap: u16_at(bytes, at + 4),
        report_byte_length: u16_at(bytes, at + 6),
    }
}

/// The index table of the report type at position `rt` (0, 1 or 2).
pub open spec fn caps_info_of(bytes: Seq<u8>, rt: int) -> CapsInfo {
    caps_info_at(bytes, CAPS_INFO_OFFSET + 8 * rt)
}

/// The byte offset of the first collection node.
pub open spec fn nodes_offset(bytes: Seq<u8>) -> int {
    CAPS_INFO_OFFSET + u16_at(bytes, 40)
}

/// The number of collection nodes.
pub open spec fn nodes_count(bytes: Seq<u8>) -> int {
    u16_at(bytes, 42) as int
}

/// The number of capability records: enough for each report type's index
/// range to lie within the array.
pub open spec fn caps_count(bytes: Seq<u8>) -> int {
    let a = caps_info_of(bytes, 0).last_cap;
    let b = caps_info_of(bytes, 1).last_cap;
    let c = caps_info_of(bytes, 2).last_cap;
    if a >= b && a >= c {
        a as int
    } else if b >= c {
        b as int
    } else {
        c as int
    }
}

/// Whether the head and both arrays lie within `bytes`.
pub open spec fn layout_fits(bytes: Seq<u8>) -> bool {
    &&& bytes.len() >= HEADER_SIZE
    &&& HEADER_SIZE + CAPS_SIZE * caps_count(bytes) <= bytes.len()
    &&& nodes_offset(bytes) + NODE_SIZE * nodes_count(bytes) <= bytes.len()
}

pub open spec fn node_at(bytes: Seq<u8>, at: int) -> LinkCollectionNode {
    LinkCollectionNode {
        link_usage: u16_at(bytes, at),
        link_usage_page: u16_at(bytes, at + 2),
        parent: u16_at(bytes, at + 4),
        number_of_children: u16_at(bytes, at + 6),
        next_sibling: u16_at(bytes, at + 8),
        first_child: u16_at(bytes, at + 10),
        bits: u32_at(bytes, at + 12),
    }
}

pub open spec fn unknown_token_at(bytes: Seq<u8>, at: int) -> UnknownToken {
    UnknownToken { token: bytes[at], bit_field: u32_at(bytes, at + 4) }
}

pub open spec fn range_at(bytes: Seq<u8>, at: int) -> Range {
    Range {
        usage_min: u16_at(bytes, at),
        usage_max: u16_at(bytes, at + 2),
        string_min: u16_at(bytes, at + 4),
        string_max: u16_at(bytes, at + 6),
        designator_min: u16_at(bytes, at + 8),
        designator_max: u16_at(bytes, at + 10),
        data_index_min: u16_at(bytes, at + 12),
        data_index_max: u16_at(bytes, at + 14),
    }
}

pub open spec fn not_range_at(bytes: Seq<u8>, at: int) -> NotRange {
    NotRange {
        usage: u16_at(bytes, at),
        string_index: u16_at(bytes, at + 4),
        designator_index: u16_at(bytes, at + 8),
        data_index: u16_at(bytes, at + 12),
    }
}

pub open spec fn button_at(bytes: Seq<u8>, at: int) -> Button {
    Button { logical_min: i32_at(bytes, at), logical_max: i32_at(bytes, at + 4) }
}

pub open spec fn not_button_at(bytes: Seq<u8>, at: int) -> NotButton {
    NotButton {
        has_nul: bytes[at],
        logical_min: i32_at(bytes, at + 4),
        logical_max: i32_at(bytes, at + 8),
        physical_min: i32_at(bytes, at + 12),
        physical_max: i32_at(bytes, at + 16),
    }
}

/// Whether `caps` is the capability record that the `CAPS_SIZE` bytes at `at`
/// hold. The range flag and the button flag choose the form of the two shared
/// parts.
pub open spec fn is_caps_at(bytes: Seq<u8>, at: int, caps: Caps) -> bool {
    &&& caps.usage_page == u16_at(bytes, at)
    &&& caps.report_id == bytes[at + 2]
    &&& caps.bit_position == bytes[at + 3]
    &&& caps.report_size == u16_at(bytes, at + 4)
    &&& caps.report_count == u16_at(bytes, at + 6)
    &&& caps.byte_position == u16_at(bytes, at + 8)
    &&& caps.bit_count == u16_at(bytes, at + 10)
    &&& caps.bit_field == u32_at(bytes, at + 12)
    &&& caps.next_byte_position == u16_at(bytes, at + 16)
    &&& caps.link_collection == u16_at(bytes, at + 18)
    &&& caps.link_usage_page == u16_at(bytes, at + 20)
    &&& caps.link_usage == u16_at(bytes, at + 22)
    &&& caps.flags == bytes[at + 24]
    &&& caps.unknown_tokens@ == Seq::new(4, |k: int| unknown_token_at(bytes, at + 28 + 8 * k))
    &&& caps.maybe_range == if flag_is_set(bytes[at + 24], 4) {
        MaybeRange::Range(range_at(bytes, at + 60))
    } else {
        MaybeRange::NotRange(not_range_at(bytes, at + 60))
    }
    &&& caps.maybe_button == if flag_is_set(bytes[at + 24], 2) {
        MaybeButton::Button(button_at(bytes, at + 76))
    } else {
        MaybeButton::NotButton(not_button_at(bytes, at + 76))
    }
    &&& caps.units == u32_at(bytes, at + 96)
    &&& caps.units_exp == u32_at(bytes, at + 100)
}

/// The capability record that the `CAPS_SIZE` bytes at `at` hold.
pub open spec fn caps_at(bytes: Seq<u8>, at: int) -> Caps {
    choose|caps: Caps| is_caps_at(bytes, at, caps)
}

/// The capability records of a blob.
pub open spec fn caps_of(bytes: Seq<u8>) -> Seq<Caps> {
    Seq::new(caps_count(bytes) as nat, |i: int| caps_at(bytes, HEADER_SIZE + CAPS_SIZE * i))
}

/// The collection nodes of a blob.
pub open spec fn nodes_of(bytes: Seq<u8>) -> Seq<LinkCollectionNode> {
    Seq::new(
        nodes_count(bytes) as nat,
        |i: int| node_at(bytes, nodes_offset(bytes) + NODE_SIZE * i),
    )
}

/// Whether `header` is the head of the blob `bytes`.
pub open spec fn is_header_of(bytes: Seq<u8>, header: HidpPreparsedData) -> bool {
    &&& header.magic_key@ == bytes.subrange(0, 8)
    &&& header.usage == u16_at(bytes, 8)
    &&& header.usage_page == u16_at(bytes, 10)
    &&& header.caps_info@ == Seq::new(3, |rt: int| caps_info_of(bytes, rt))
    &&& header.first_byte_of_link_collection_array == u16_at(bytes, 40)
    &&& header.number_link_collection_nodes == u16_at(bytes, 42)
}

fn read_u16(bytes: &[u8], at: usize) -> (value: u16)
    requires
        at + 2 <= bytes.len(),
    ensures
        value == u16_at(bytes@, at as int),
{
    bytes[at] as u16 + 256 * (bytes[at + 1] as u16)
}

fn read_u32(bytes: &[u8], at: usize) -> (value: u32)
    requires
        at + 4 <= bytes.len(),
    ensures
        value == u32_at(bytes@, at as int),
{
    bytes[at] as u32 + 256 * (bytes[at + 1] as u32) + 65536 * (bytes[at + 2] as u32) + 16777216
        * (bytes[at + 3] as u32)
}

fn read_i32(bytes: &[u8], at: usize) -> (value: i32)
    requires
        at + 4 <= bytes.len(),
    ensures
        value == i32_at(bytes@, at as int),
{
    let word: u32 = read_u32(bytes, at);
    assert(word < 0x8000_0000u32 ==> (word as i32) == word) by (bit_vector);
    assert(word >= 0x8000_0000u32 ==> (word as i32) == word - 0x1_0000_0000) by (bit_vector);
    word as i32
}

fn read_caps_info(bytes: &[u8], at: usize) -> (info: CapsInfo)
    requires
        at + 8 <= bytes.len(),
    ensures
        info == caps_info_at(bytes@, at as int),
{
    CapsInfo {
        first_cap: read_u16(bytes, at),
        number_of_caps: read_u16(bytes, at + 2),
        last_cap: read_u16(bytes, at + 4),
        report_byte_length: read_u16(bytes, at + 6),
    }
}

fn read_node(bytes: &[u8], at: usize) -> (node: LinkCollectionNode)
    requires
        at + NODE_SIZE <= bytes.len(),
    ensures
        node == node_at(bytes@, at as int),
{
    LinkCollectionNode {
        link_usage: read_u16(bytes, at),
        link_usage_page: read_u16(bytes, at + 2),
        parent: read_u16(bytes, at + 4),
        number_of_children: read_u16(bytes, at + 6),
        next_sibling: read_u16(bytes, at + 8),
        first_child: read_u16(bytes, at + 10),
        bits: read_u32(bytes, at + 12),
    }
}

fn read_unknown_token(bytes: &[u8], at: usize) -> (token: UnknownToken)
    requires
        at + 8 <= bytes.len(),
    ensures
        token == unknown_token_at(bytes@, at as int),
{
    UnknownToken { token: bytes[at], bit_field: read_u32(bytes, at + 4) }
}

fn read_caps(bytes: &[u8], at: usize) -> (caps: Caps)
    requires
        at + CAPS_SIZE <= bytes.len(),
    ensures
        is_caps_at(bytes@, at as int, caps),
        caps == caps_at(bytes@, at as int),
{
    let flags: u8 = bytes[at + 24];
    let unknown_tokens: [UnknownToken; 4] = [
        read_unknown_token(bytes, at + 28),
        read_unknown_token(bytes, at + 36),
        read_unknown_token(bytes, at + 44),
        read_unknown_token(bytes, at + 52),
    ];
    assert(unknown_tokens@ =~= Seq::new(
        4,
        |k: int| unknown_token_at(bytes@, at as int + 28 + 8 * k),
    ));
    assert((flags & (1u8 << 4u8) != 0) == ((flags >> 4u8) & 1u8 == 1u8)) by (bit_vector);
    assert((flags & (1u8 << 2u8) != 0) == ((flags >> 2u8) & 1u8 == 1u8)) by (bit_vector);
    let maybe_range: MaybeRange = if flags & (1u8 << 4) != 0 {
        MaybeRange::Range(
            Range {
                usage_min: read_u16(bytes, at + 60),
                usage_max: read_u16(bytes, at + 62),
                string_min: read_u16(bytes, at + 64),
                string_max: read_u16(bytes, at + 66),
                designator_min: read_u16(bytes, at + 68),
                designator_max: read_u16(bytes, at + 70),
                data_index_min: read_u16(bytes, at + 72),
                data_index_max: read_u16(bytes, at + 74),
            },
        )
    } else {
        MaybeRange::NotRange(
            NotRange {
                usage: read_u16(bytes, at + 60),
                string_index: read_u16(bytes, at + 64),
                designator_index: read_u16(bytes, at + 68),
                data_index: read_u16(bytes, at + 72),
            },
        )
    };
    let maybe_button: MaybeButton = if flags & (1u8 << 2) != 0 {
        MaybeButton::Button(
            Button { logical_min: read_i32(bytes, at + 76), logical_max: read_i32(bytes, at + 80) },
        )
    } else {
        MaybeButton::NotButton(
            NotButton {
                has_nul: bytes[at + 76],
                logical_min: read_i32(bytes, at + 80),
                logical_max: read_i32(bytes, at + 84),
                physical_min: read_i32(bytes, at + 88),
                physical_max: read_i32(bytes, at + 92),
            },
        )
    };
    let caps = Caps {
        usage_page: read_u16(bytes, at),
        report_id: bytes[at + 2],
        bit_position: bytes[at + 3],
        report_size: read_u16(bytes, at + 4),
        report_count: read_u16(bytes, at + 6),
        byte_position: read_u16(bytes, at + 8),
        bit_count: read_u16(bytes, at + 10),
        bit_field: read_u32(bytes, at + 12),
        next_byte_position: read_u16(bytes, at + 16),
        link_collection: read_u16(bytes, at + 18),
        link_usage_page: read_u16(bytes, at + 20),
        link_usage: read_u16(bytes, at + 22),
        flags,
        unknown_tokens,
        maybe_range,
        maybe_button,
        units: read_u32(bytes, at + 96),
        units_exp: read_u32(bytes, at + 100),
    };
    proof {
        lemma_caps_at_unique(bytes@, at as int, caps);
    }
    caps
}

/// The bytes at `at` hold one capability record and no other.
pub proof fn lemma_caps_at_unique(bytes: Seq<u8>, at: int, caps: Caps)
    requires
        is_caps_at(bytes, at, caps),
    ensures
        caps_at(bytes, at) == caps,
{
    let other = caps_at(bytes, at);
    assert(is_caps_at(bytes, at, other));
    assert(other.unknown_tokens@ =~= caps.unknown_tokens@);
    vstd::array::axiom_array_ext_equal(other.unknown_tokens, caps.unknown_tokens);
    assert(other.unknown_tokens == caps.unknown_tokens);
}

/// A blob that has been checked: it starts with the marker, and its head and
/// both of its arrays lie within its bytes. The records are read where they
/// lie; nothing is copied out.
pub struct PreparsedData<'a> {
    bytes: &'a [u8],
    header: HidpPreparsedData,
}

impl<'a> View for PreparsedData<'a> {
    type V = Seq<u8>;

    closed spec fn view(&self) -> Seq<u8> {
        self.bytes@
    }
}

impl<'a> PreparsedData<'a> {
    #[verifier::type_invariant]
    spec fn inv(self) -> bool {
        &&& has_magic(self.bytes@)
        &&& layout_fits(self.bytes@)
        &&& is_header_of(self.bytes@, self.header)
    }

    /// The capability records of the blob.
    pub open spec fn caps(&self) -> Seq<Caps> {
        caps_of(self@)
    }

    /// The collection nodes of the blob.
    pub open spec fn nodes(&self) -> Seq<LinkCollectionNode> {
        nodes_of(self@)
    }

    /// The index table of report type `rt`.
    pub open spec fn info(&self, rt: ReportType) -> CapsInfo {
        caps_info_of(self@, rt.ordinal())
    }

    /// Checks `bytes` and wraps them. The check is that of the marker and of
    /// the extent of the head and the two arrays; what the records say is not
    /// looked at.
    pub fn new(bytes: &'a [u8]) -> (r: Result<PreparsedData<'a>, WinError>)
        ensures
            !has_magic(bytes@) ==> r is Err,
            r is Ok <==> has_magic(bytes@) && layout_fits(bytes@),
            r matches Ok(blob) ==> blob@ == bytes@,
            r matches Err(e) ==> e == WinError::InvalidPreparsedData,
    {
        let len: usize = bytes.len();
        if len < HEADER_SIZE {
            return Err(WinError::InvalidPreparsedData);
        }
        let magic_key: [u8; 8] = [
            bytes[0],
            bytes[1],
            bytes[2],
            bytes[3],
            bytes[4],
            bytes[5],
            bytes[6],
            bytes[7],
        ];
        assert(magic_key@ =~= bytes@.subrange(0, 8));
        if !(magic_key[0] == 0x48 && magic_key[1] == 0x69 && magic_key[2] == 0x64 && magic_key[3]
            == 0x50 && magic_key[4] == 0x20 && magic_key[5] == 0x4B && magic_key[6] == 0x44
            && magic_key[7] == 0x52) {
            assert(!has_magic(bytes@)) by {
                if has_magic(bytes@) {
                    assert(forall|i: int| 0 <= i < 8 ==> magic_key@[i] == magic()[i]);
                }
            }
            return Err(WinError::InvalidPreparsedData);
        }
        assert(has_magic(bytes@)) by {
            assert(bytes@.subrange(0, 8) =~= magic());
        }
        let caps_info: [CapsInfo; 3] = [
            read_caps_info(bytes, CAPS_INFO_OFFSET),
            read_caps_info(bytes, CAPS_INFO_OFFSET + 8),
            read_caps_info(bytes, CAPS_INFO_OFFSET + 16),
        ];
        assert(caps_info@ =~= Seq::new(3, |rt: int| caps_info_of(bytes@, rt)));
        let header = HidpPreparsedData {
            magic_key,
            usage: read_u16(bytes, 8),
            usage_page: read_u16(bytes, 10),
            caps_info,
            first_byte_of_link_collection_array: read_u16(bytes, 40),
            number_link_collection_nodes: read_u16(bytes, 42),
        };
        assert(is_header_of(bytes@, header));
        let caps: usize = max_last_cap(&header);
        let nodes_at: usize = CAPS_INFO_OFFSET + header.first_byte_of_link_collection_array as usize;
        let nodes: usize = header.number_link_collection_nodes as usize;
        if HEADER_SIZE + CAPS_SIZE * caps > len || nodes_at + NODE_SIZE * nodes > len {
            return Err(WinError::InvalidPreparsedData);
        }
        Ok(PreparsedData { bytes, header })
    }

    /// The head of the blob.
    pub fn header(&self) -> (header: HidpPreparsedData)
        ensures
            is_header_of(self@, header),
    {
        proof {
            use_type_invariant(self);
        }
        self.header
    }

    /// The index table of report type `rt`.
    pub fn caps_info(&self, rt: ReportType) -> (info: CapsInfo)
        ensures
            info == self.info(rt),
    {
        proof {
            use_type_invariant(self);
        }
        self.header.caps_info[rt.index()]
    }

    /// The number of capability records.
    pub fn number_of_caps(&self) -> (count: usize)
        ensures
            count == self.caps().len(),
            count <= u16::MAX,
    {
        proof {
            use_type_invariant(self);
        }
        max_last_cap(&self.header)
    }

    /// The number of collection nodes.
    pub fn number_of_nodes(&self) -> (count: usize)
        ensures
            count == self.nodes().len(),
            count <= u16::MAX,
    {
        proof {
            use_type_invariant(self);
        }
        self.header.number_link_collection_nodes as usize
    }

    /// The capability record at index `i`.
    pub fn cap(&self, i: usize) -> (caps: Caps)
        requires
            i < self.caps().len(),
        ensures
            caps == self.caps()[i as int],
    {
        proof {
            use_type_invariant(self);
        }
        read_caps(self.bytes, HEADER_SIZE + CAPS_SIZE * i)
    }

    /// The collection node at index `i`.
    pub fn node(&self, i: usize) -> (node: LinkCollectionNode)
        requires
            i < self.nodes().len(),
        ensures
            node == self.nodes()[i as int],
    {
        proof {
            use_type_invariant(self);
        }
        let nodes_at: usize = CAPS_INFO_OFFSET
            + self.header.first_byte_of_link_collection_array as usize;
        read_node(self.bytes, nodes_at + NODE_SIZE * i)
    }
}

/// The highest index that any report type's index range ends at.
fn max_last_cap(header: &HidpPreparsedData) -> (count: usize)
    ensures
        forall|bytes: Seq<u8>| #[trigger]
            is_header_of(bytes, *header) ==> count == caps_count(bytes),
        count <= u16::MAX,
{
    let a: u16 = header.caps_info[0].last_cap;
    let b: u16 = header.caps_info[1].last_cap;
    let c: u16 = header.caps_info[2].last_cap;
    assert forall|bytes: Seq<u8>| #[trigger] is_header_of(bytes, *header) implies a
        == caps_info_of(bytes, 0).last_cap && b == caps_info_of(bytes, 1).last_cap && c
        == caps_info_of(bytes, 2).last_cap by {
        let s = Seq::new(3, |rt: int| caps_info_of(bytes, rt));
        assert(header.caps_info@[0] == s[0]);
        assert(header.caps_info@[1] == s[1]);
        assert(header.caps_info@[2] == s[2]);
    }
    if a >= b && a >= c {
        a as usize
    } else if b >= c {
        b as usize
    } else {
        c as usize
    }
}


} // verus!
