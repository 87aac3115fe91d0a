//! Short items, the units of a report descriptor: one prefix byte that names
//! the item and the size of its data, then 0, 1, 2 or 4 bytes of data, lowest
//! byte first.

use vstd::prelude::*;

verus! {

pub const INPUT: u8 = 0x80;

pub const OUTPUT: u8 = 0x90;

pub const FEATURE: u8 = 0xB0;

pub const COLLECTION: u8 = 0xA0;

pub const END_COLLECTION: u8 = 0xC0;

pub const USAGE_PAGE: u8 = 0x04;

pub const LOGICAL_MINIMUM: u8 = 0x14;

pub const LOGICAL_MAXIMUM: u8 = 0x24;

pub const PHYSICAL_MINIMUM: u8 = 0x34;

pub const PHYSICAL_MAXIMUM: u8 = 0x44;

pub const UNIT_EXPONENT: u8 = 0x54;

pub const UNIT: u8 = 0x64;

pub const REPORT_SIZE: u8 = 0x74;

pub const REPORT_ID: u8 = 0x84;

pub const REPORT_COUNT: u8 = 0x94;

pub const USAGE: u8 = 0x08;

pub const USAGE_MINIMUM: u8 = 0x18;

pub const USAGE_MAXIMUM: u8 = 0x28;

pub const DESIGNATOR_INDEX: u8 = 0x38;

pub const DESIGNATOR_MINIMUM: u8 = 0x48;

pub const DESIGNATOR_MAXIMUM: u8 = 0x58;

pub const STRING_INDEX: u8 = 0x78;

pub const STRING_MINIMUM: u8 = 0x88;

pub const STRING_MAXIMUM: u8 = 0x98;

/// A prefix names an item where its two size bits are clear.
pub open spec fn is_prefix(prefix: u8) -> bool {
    prefix % 4 == 0
}

/// Byte `k` of `word`, counted from the lowest.
pub open spec fn byte_of(word: u32, k: int) -> u8 {
    if k == 0 {
        (word % 256) as u8
    } else if k == 1 {
        ((word / 256) % 256) as u8
    } else if k == 2 {
        ((word / 65536) % 256) as u8
    } else {
        (word / 16777216) as u8
    }
}

/// The 32 bits that stand for `value` in two's complement.
pub open spec fn twos_complement(value: i32) -> u32 {
    if value >= 0 {
        value as u32
    } else {
        (value + 0x1_0000_0000) as u32
    }
}

/// The item that has no data.
pub open spec fn item_empty(prefix: u8) -> Seq<u8> {
    seq![prefix]
}

/// The item with `size` bytes of `word` as its data; `code` is what the
/// prefix says of the size.
pub open spec fn item_sized(prefix: u8, word: u32, code: int) -> Seq<u8> {
    if code == 1 {
        seq![(prefix + 1) as u8, byte_of(word, 0)]
    } else if code == 2 {
        seq![(prefix + 2) as u8, byte_of(word, 0), byte_of(word, 1)]
    } else {
        seq![
            (prefix + 3) as u8,
            byte_of(word, 0),
            byte_of(word, 1),
            byte_of(word, 2),
            byte_of(word, 3),
        ]
    }
}

/// The item with an unsigned number as its data, in the fewest bytes that
/// hold it.
pub open spec fn item_unsigned(prefix: u8, value: u32) -> Seq<u8> {
    item_sized(
        prefix,
        value,
        if value <= 0xFF {
            1
        } else if value <= 0xFFFF {
            2
        } else {
            3
        },
    )
}

/// The item with a signed number as its data, in the fewest bytes that hold
/// it in two's complement.
pub open spec fn item_signed(prefix: u8, value: i32) -> Seq<u8> {
    item_sized(
        prefix,
        twos_complement(value),
        if -128 <= value <= 127 {
            1
        } else if -32768 <= value <= 32767 {
            2
        } else {
            3
        },
    )
}

/// What an item carries: nothing, an unsigned number or a signed number.
#[derive(Clone, Copy, Debug, PartialEq, Eq)]
pub enum ItemData {
    Empty,
    Unsigned(u32),
    Signed(i32),
}

/// One short item: what it is, and what it carries.
#[derive(Clone, Copy, Debug, PartialEq, Eq)]
pub struct ShortItem {
    pub prefix: u8,
    pub data: ItemData,
}

/// The items whose data a reader takes as signed: the four bounds.
pub open spec fn is_signed_prefix(prefix: u8) -> bool {
    prefix == LOGICAL_MINIMUM || prefix == LOGICAL_MAXIMUM || prefix == PHYSICAL_MINIMUM || prefix
        == PHYSICAL_MAXIMUM
}

impl ShortItem {
    /// The bytes of the item.
    pub open spec fn bytes(self) -> Seq<u8> {
        match self.data {
            ItemData::Empty => item_empty(self.prefix),
            ItemData::Unsigned(value) => item_unsigned(self.prefix, value),
            ItemData::Signed(value) => item_signed(self.prefix, value),
        }
    }

    /// The prefix names an item, and the item carries a signed number exactly
    /// where a reader takes its data as signed.
    pub open spec fn is_canonical(self) -> bool {
        is_prefix(self.prefix) && (self.data is Signed <==> is_signed_prefix(self.prefix))
    }
}

/// All items of a list are canonical.
pub open spec fn all_canonical(items: Seq<ShortItem>) -> bool {
    forall|i: int| 0 <= i < items.len() ==> (#[trigger] items[i]).is_canonical()
}

/// The bytes of a list of items: those of each item, one after the other.
pub open spec fn stream_bytes(items: Seq<ShortItem>) -> Seq<u8>
    decreases items.len(),
{
    if items.len() == 0 {
        Seq::empty()
    } else {
        items[0].bytes() + stream_bytes(items.skip(1))
    }
}

/// The bytes of a list with one more item are the bytes of the list and then
/// those of the item.
pub proof fn lemma_stream_push(items: Seq<ShortItem>, item: ShortItem)
    ensures
        stream_bytes(items.push(item)) == stream_bytes(items) + item.bytes(),
    decreases items.len(),
{
    let longer = items.push(item);
    if items.len() == 0 {
        assert(longer.skip(1) =~= Seq::<ShortItem>::empty());
        assert(stream_bytes(longer.skip(1)) =~= Seq::<u8>::empty());
        assert(stream_bytes(longer) =~= stream_bytes(items) + item.bytes());
    } else {
        lemma_stream_push(items.skip(1), item);
        assert(longer.skip(1) =~= items.skip(1).push(item));
        assert(stream_bytes(longer) =~= stream_bytes(items) + item.bytes());
    }
}

fn write_sized(out: &mut Vec<u8>, prefix: u8, word: u32, code: u8)
    requires
        is_prefix(prefix),
        1 <= code <= 3,
    ensures
        final(out)@ == old(out)@ + item_sized(prefix, word, code as int),
{
    out.push(prefix + code);
    out.push((word % 256) as u8);
    if code >= 2 {
        out.push(((word / 256) % 256) as u8);
    }
    if code == 3 {
        out.push(((word / 65536) % 256) as u8);
        out.push((word / 16777216) as u8);
    }
    assert(out@ =~= old(out)@ + item_sized(prefix, word, code as int));
}

/// Appends the bytes of one item.
pub fn write_item(out: &mut Vec<u8>, item: &ShortItem)
    requires
        is_prefix(item.prefix),
    ensures
        final(out)@ == old(out)@ + item.bytes(),
{
    match item.data {
        ItemData::Empty => {
            out.push(item.prefix);
            assert(out@ =~= old(out)@ + item.bytes());
        },
        ItemData::Unsigned(value) => {
            let code: u8 = if value <= 0xFF {
                1
            } else if value <= 0xFFFF {
                2
            } else {
                3
            };
            write_sized(out, item.prefix, value, code);
        },
        ItemData::Signed(value) => {
            let word: u32 = if value >= 0 {
                value as u32
            } else {
                (value as i64 + 0x1_0000_0000) as u32
            };
            let code: u8 = if -128 <= value && value <= 127 {
                1
            } else if -32768 <= value && value <= 32767 {
                2
            } else {
                3
            };
            write_sized(out, item.prefix, word, code);
        },
    }
}

/// The bytes of a list of items.
pub fn write_items(items: &Vec<ShortItem>) -> (out: Vec<u8>)
    requires
        forall|i: int| 0 <= i < items@.len() ==> is_prefix((#[trigger] items@[i]).prefix),
    ensures
        out@ == stream_bytes(items@),
{
    let mut out: Vec<u8> = Vec::new();
    let mut i: usize = 0;
    assert(items@.take(0) =~= Seq::<ShortItem>::empty());
    while i < items.len()
        invariant
            i <= items@.len(),
            forall|j: int| 0 <= j < items@.len() ==> is_prefix((#[trigger] items@[j]).prefix),
            out@ == stream_bytes(items@.take(i as int)),
        decreases items@.len() - i,
    {
        proof {
            lemma_stream_push(items@.take(i as int), items@[i as int]);
            assert(items@.take(i + 1) =~= items@.take(i as int).push(items@[i as int]));
        }
        write_item(&mut out, &items[i]);
        i = i + 1;
    }
    assert(items@.take(items@.len() as int) =~= items@);
    out
}

/// What a reader of a descriptor finds at its start: the prefix without its
/// size bits, the data as 32 bits, and the length of the item.
pub open spec fn read_item(bytes: Seq<u8>) -> (u8, u32, int) {
    let code = bytes[0] % 4;
    let prefix = (bytes[0] - code) as u8;
    if code == 0 {
        (prefix, 0u32, 1)
    } else if code == 1 {
        (prefix, bytes[1] as u32, 2)
    } else if code == 2 {
        (prefix, (bytes[1] + 256 * bytes[2]) as u32, 3)
    } else {
        (prefix, (bytes[1] + 256 * bytes[2] + 65536 * bytes[3] + 16777216 * bytes[4]) as u32, 5)
    }
}

/// The number that the data of an item of `length` bytes stands for where it
/// is read as signed.
pub open spec fn signed_of(word: u32, length: int) -> int {
    if length == 2 && word >= 0x80 {
        word - 0x100
    } else if length == 3 && word >= 0x8000 {
        word - 0x1_0000
    } else if length == 5 && word >= 0x8000_0000 {
        word - 0x1_0000_0000
    } else {
        word as int
    }
}

/// An unsigned item is read back as it was written, whatever follows it.
pub proof fn lemma_read_unsigned(prefix: u8, value: u32, rest: Seq<u8>)
    requires
        is_prefix(prefix),
    ensures
        read_item(item_unsigned(prefix, value) + rest).0 == prefix,
        read_item(item_unsigned(prefix, value) + rest).1 == value,
        read_item(item_unsigned(prefix, value) + rest).2 == item_unsigned(prefix, value).len(),
{
    let bytes = item_unsigned(prefix, value) + rest;
    lemma_low_bytes(value);
    if value <= 0xFF {
        assert(bytes[0] == prefix + 1 && bytes[1] == byte_of(value, 0));
    } else if value <= 0xFFFF {
        assert(bytes[0] == prefix + 2 && bytes[1] == byte_of(value, 0) && bytes[2] == byte_of(
            value,
            1,
        ));
    } else {
        assert(bytes[0] == prefix + 3 && bytes[1] == byte_of(value, 0) && bytes[2] == byte_of(
            value,
            1,
        ) && bytes[3] == byte_of(value, 2) && bytes[4] == byte_of(value, 3));
    }
}

/// The low bytes of a word make up the word modulo a power of 256.
proof fn lemma_low_bytes(word: u32)
    ensures
        byte_of(word, 0) == word % 256,
        byte_of(word, 0) + 256 * byte_of(word, 1) == word % 65536,
        byte_of(word, 0) + 256 * byte_of(word, 1) + 65536 * byte_of(word, 2) + 16777216 * byte_of(
            word,
            3,
        ) == word,
{
    assert((word % 256) + 256 * ((word / 256) % 256) == word % 65536) by (bit_vector);
    assert((word % 256) + 256 * ((word / 256) % 256) + 65536 * ((word / 65536) % 256) + 16777216
        * (word / 16777216) == word) by (bit_vector);
    assert(word / 16777216 < 256) by (bit_vector);
}

/// A signed item is read back as it was written, whatever follows it.
pub proof fn lemma_read_signed(prefix: u8, value: i32, rest: Seq<u8>)
    requires
        is_prefix(prefix),
    ensures
        read_item(item_signed(prefix, value) + rest).0 == prefix,
        signed_of(
            read_item(item_signed(prefix, value) + rest).1,
            read_item(item_signed(prefix, value) + rest).2,
        ) == value,
        read_item(item_signed(prefix, value) + rest).2 == item_signed(prefix, value).len(),
{
    let word = twos_complement(value);
    let item = item_signed(prefix, value);
    let bytes = item + rest;
    lemma_low_bytes(word);
    if -128 <= value <= 127 {
        assert(bytes[0] == prefix + 1 && bytes[1] == byte_of(word, 0));
        if value < 0 {
            assert(word == (value + 256) + 256 * 16777215);
        }
    } else if -32768 <= value <= 32767 {
        assert(bytes[0] == prefix + 2 && bytes[1] == byte_of(word, 0) && bytes[2] == byte_of(
            word,
            1,
        ));
        if value < 0 {
            assert(word == (value + 65536) + 65536 * 65535);
        }
    } else {
        assert(bytes[0] == prefix + 3 && bytes[1] == byte_of(word, 0) && bytes[2] == byte_of(
            word,
            1,
        ) && bytes[3] == byte_of(word, 2) && bytes[4] == byte_of(word, 3));
    }
}

/// The item that a reader finds at the start of `bytes`, and its length. The
/// reader takes the data of the four bounds as signed and all other data as
/// unsigned.
pub open spec fn decode_item(bytes: Seq<u8>) -> (ShortItem, int) {
    let (prefix, word, length) = read_item(bytes);
    let data = if length == 1 {
        ItemData::Empty
    } else if is_signed_prefix(prefix) {
        ItemData::Signed(signed_of(word, length) as i32)
    } else {
        ItemData::Unsigned(word)
    };
    (ShortItem { prefix, data }, length)
}

/// The items that a reader finds in `bytes`, one after the other; it stops
/// where the bytes end.
pub open spec fn read_stream(bytes: Seq<u8>) -> Seq<ShortItem>
    decreases bytes.len(),
{
    if bytes.len() == 0 {
        Seq::empty()
    } else {
        let (item, length) = decode_item(bytes);
        if length > bytes.len() {
            Seq::empty()
        } else {
            seq![item] + read_stream(bytes.skip(length))
        }
    }
}

/// A canonical item is read back as it was written, whatever follows it.
pub proof fn lemma_decode_item(item: ShortItem, rest: Seq<u8>)
    requires
        item.is_canonical(),
    ensures
        decode_item(item.bytes() + rest) == (item, item.bytes().len() as int),
        item.bytes().len() >= 1,
{
    match item.data {
        ItemData::Empty => {
            let bytes = item.bytes() + rest;
            assert(bytes[0] == item.prefix);
        },
        ItemData::Unsigned(value) => {
            lemma_read_unsigned(item.prefix, value, rest);
        },
        ItemData::Signed(value) => {
            lemma_read_signed(item.prefix, value, rest);
        },
    }
}

/// A list of canonical items is read back from its bytes as it was written.
pub proof fn lemma_stream_reads_back(items: Seq<ShortItem>)
    requires
        all_canonical(items),
    ensures
        read_stream(stream_bytes(items)) == items,
    decreases items.len(),
{
    if items.len() == 0 {
        assert(read_stream(stream_bytes(items)) =~= items);
    } else {
        let first = items[0];
        let rest = stream_bytes(items.skip(1));
        let bytes = stream_bytes(items);
        assert(first.is_canonical());
        lemma_decode_item(first, rest);
        assert(bytes.skip(first.bytes().len() as int) =~= rest);
        assert forall|i: int| 0 <= i < items.skip(1).len() implies (#[trigger] items.skip(
            1,
        )[i]).is_canonical() by {
            assert(items.skip(1)[i] == items[i + 1]);
        }
        lemma_stream_reads_back(items.skip(1));
        assert(seq![first] + items.skip(1) =~= items);
    }
}


} // verus!
