//! The bits of a report that a collection occupies, and the table that holds
//! them for every collection, report ID and report type.

use vstd::prelude::*;
use crate::blob::{PreparsedData, caps_info_of, caps_of, nodes_count};
use crate::error::WinError;
use crate::typedefs::{Caps, ReportType};

verus! {

/// The number of report IDs: a report ID is a byte.
pub const REPORT_IDS: usize = 256;

/// The number of table entries of one collection: one for each report ID and
/// report type.
pub const ENTRIES_PER_NODE: usize = 768;

/// The first and the last bit that is occupied, or neither where no bit is.
#[derive(Clone, Copy, Debug, PartialEq, Eq)]
pub struct BitRange {
    pub first_bit: Option<i64>,
    pub last_bit: Option<i64>,
}

/// The smaller of two optional bits; an absent bit gives way to a present one.
pub open spec fn min_bit(a: Option<i64>, b: Option<i64>) -> Option<i64> {
    match (a, b) {
        (None, _) => b,
        (_, None) => a,
        (Some(x), Some(y)) => if x <= y {
            a
        } else {
            b
        },
    }
}

/// The greater of two optional bits; an absent bit gives way to a present one.
pub open spec fn max_bit(a: Option<i64>, b: Option<i64>) -> Option<i64> {
    match (a, b) {
        (None, _) => b,
        (_, None) => a,
        (Some(x), Some(y)) => if x >= y {
            a
        } else {
            b
        },
    }
}

fn lower(a: Option<i64>, b: Option<i64>) -> (r: Option<i64>)
    ensures
        r == min_bit(a, b),
{
    match (a, b) {
        (None, _) => b,
        (_, None) => a,
        (Some(x), Some(y)) => if x <= y {
            a
        } else {
            b
        },
    }
}

fn upper(a: Option<i64>, b: Option<i64>) -> (r: Option<i64>)
    ensures
        r == max_bit(a, b),
{
    match (a, b) {
        (None, _) => b,
        (_, None) => a,
        (Some(x), Some(y)) => if x >= y {
            a
        } else {
            b
        },
    }
}

impl BitRange {
    /// The range that occupies no bit.
    pub open spec fn vacant() -> BitRange {
        BitRange { first_bit: None, last_bit: None }
    }

    /// The range of one capability record.
    pub open spec fn of(caps: Caps) -> BitRange {
        BitRange {
            first_bit: Some(caps.spec_first_bit() as i64),
            last_bit: Some(caps.spec_last_bit() as i64),
        }
    }

    /// The least range that holds both `self` and `other`.
    pub open spec fn widened(self, other: BitRange) -> BitRange {
        BitRange {
            first_bit: min_bit(self.first_bit, other.first_bit),
            last_bit: max_bit(self.last_bit, other.last_bit),
        }
    }

    /// Whether `self` starts no later and ends no earlier than `other`, as far
    /// as `other` has bits.
    pub open spec fn covers(self, other: BitRange) -> bool {
        &&& other.first_bit matches Some(theirs) ==> self.first_bit matches Some(ours) && ours
            <= theirs
        &&& other.last_bit matches Some(theirs) ==> self.last_bit matches Some(ours) && ours
            >= theirs
    }

    pub fn empty() -> (r: BitRange)
        ensures
            r == BitRange::vacant(),
    {
        BitRange { first_bit: None, last_bit: None }
    }

    /// The range of one capability record: from its first bit to its last.
    pub fn of_caps(caps: &Caps) -> (r: BitRange)
        ensures
            r == BitRange::of(*caps),
    {
        BitRange { first_bit: Some(caps.first_bit()), last_bit: Some(caps.last_bit()) }
    }

    /// The least range that holds both `self` and `other`.
    pub fn widen(self, other: BitRange) -> (r: BitRange)
        ensures
            r == self.widened(other),
    {
        BitRange {
            first_bit: lower(self.first_bit, other.first_bit),
            last_bit: upper(self.last_bit, other.last_bit),
        }
    }
}

impl Default for BitRange {
    /// The range that occupies no bit.
    fn default() -> (r: BitRange)
        ensures
            r == BitRange::vacant(),
    {
        BitRange { first_bit: None, last_bit: None }
    }
}

/// Widening is insensitive to order and repetition.
pub proof fn lemma_widened_laws(a: BitRange, b: BitRange, c: BitRange)
    ensures
        a.widened(b) == b.widened(a),
        a.widened(b).widened(c) == a.widened(b.widened(c)),
        a.widened(a) == a,
        a.widened(BitRange::vacant()) == a,
        BitRange::vacant().widened(a) == a,
        a.widened(b).covers(a),
        a.widened(b).covers(b),
{
}

/// What keys a table entry: the collection, the report ID, the report type.
pub type RangeKey = (int, int, ReportType);

/// The keys of a table for `nodes` collections.
pub open spec fn is_key(nodes: nat, key: RangeKey) -> bool {
    0 <= key.0 < nodes && 0 <= key.1 < REPORT_IDS
}

/// The place of a key's entry in the table.
pub open spec fn slot(key: RangeKey) -> int {
    (key.0 * 256 + key.1) * 3 + key.2.ordinal()
}

proof fn lemma_slot(nodes: nat, a: RangeKey, b: RangeKey)
    requires
        is_key(nodes, a),
        is_key(nodes, b),
    ensures
        0 <= slot(a) < nodes * 768,
        slot(a) == slot(b) ==> a == b,
{
    assert(key_ordinal_bound(a.2) && key_ordinal_bound(b.2));
    if slot(a) == slot(b) {
        assert(a.2.ordinal() == b.2.ordinal());
        assert(a.2 == b.2);
    }
}

spec fn key_ordinal_bound(rt: ReportType) -> bool {
    0 <= rt.ordinal() < 3
}

/// One bit range for every collection, report ID and report type.
pub struct BitRangeTable {
    entries: Vec<BitRange>,
    nodes: usize,
}

impl View for BitRangeTable {
    type V = Map<RangeKey, BitRange>;

    closed spec fn view(&self) -> Map<RangeKey, BitRange> {
        Map::new(|key: RangeKey| is_key(self.nodes as nat, key), |key: RangeKey| self.entries@[slot(key)])
    }
}

impl BitRangeTable {
    #[verifier::type_invariant]
    spec fn inv(self) -> bool {
        self.nodes <= u16::MAX && self.entries@.len() == self.nodes * 768
    }

    /// The number of collections that the table has entries for.
    pub closed spec fn nodes(&self) -> nat {
        self.nodes as nat
    }

    /// The table has an entry for every key, and for nothing else.
    pub proof fn lemma_keys(&self)
        ensures
            forall|key: RangeKey| #[trigger] self@.dom().contains(key) <==> is_key(self.nodes(), key),
    {
    }

    /// A table in which every range is vacant.
    pub fn new(nodes: usize) -> (table: BitRangeTable)
        requires
            nodes <= u16::MAX,
        ensures
            table.nodes() == nodes,
            forall|key: RangeKey| is_key(nodes as nat, key) ==> #[trigger] table@[key] == BitRange::vacant(),
    {
        let total: usize = nodes * ENTRIES_PER_NODE;
        let mut entries: Vec<BitRange> = Vec::new();
        let mut i: usize = 0;
        while i < total
            invariant
                i <= total,
                entries@.len() == i,
                forall|j: int| 0 <= j < i ==> entries@[j] == BitRange::vacant(),
            decreases total - i,
        {
            entries.push(BitRange::empty());
            i = i + 1;
        }
        let table = BitRangeTable { entries, nodes };
        proof {
            assert forall|key: RangeKey| is_key(nodes as nat, key) implies #[trigger] table@[key]
                == BitRange::vacant() by {
                lemma_slot(nodes as nat, key, key);
            }
        }
        table
    }

    /// The number of collections that the table has entries for.
    pub fn number_of_nodes(&self) -> (nodes: usize)
        ensures
            nodes == self.nodes(),
            nodes <= u16::MAX,
    {
        proof {
            use_type_invariant(self);
        }
        self.nodes
    }

    /// The range of collection `c` for report `report_id` of type `rt`.
    pub fn get(&self, c: usize, report_id: u8, rt: ReportType) -> (range: BitRange)
        requires
            c < self.nodes(),
        ensures
            range == self@[(c as int, report_id as int, rt)],
    {
        proof {
            use_type_invariant(self);
            lemma_slot(self.nodes as nat, (c as int, report_id as int, rt), (c as int, report_id as int, rt));
        }
        self.entries[(c * 256 + report_id as usize) * 3 + rt.index()]
    }

    /// Widens the range of collection `c` for report `report_id` of type `rt`
    /// so that it holds `with` too.
    pub fn widen(&mut self, c: usize, report_id: u8, rt: ReportType, with: BitRange)
        requires
            c < old(self).nodes(),
        ensures
            final(self).nodes() == old(self).nodes(),
            final(self)@ == old(self)@.insert(
                (c as int, report_id as int, rt),
                old(self)@[(c as int, report_id as int, rt)].widened(with),
            ),
    {
        proof {
            use_type_invariant(&*self);
        }
        let ghost key: RangeKey = (c as int, report_id as int, rt);
        let ghost before = self@;
        let ghost nodes = self.nodes as nat;
        proof {
            lemma_slot(nodes, key, key);
        }
        let at: usize = (c * 256 + report_id as usize) * 3 + rt.index();
        let wider = self.entries[at].widen(with);
        self.entries[at] = wider;
        proof {
            assert forall|other: RangeKey| is_key(nodes, other) && other != key implies self@[other]
                == before[other] by {
                lemma_slot(nodes, other, key);
            }
            assert(self@ =~= before.insert(key, before[key].widened(with)));
        }
    }

    /// Widens every range of collection `into` so that it holds the range of
    /// collection `from` for the same report ID and report type.
    pub fn merge_node(&mut self, into: usize, from: usize)
        requires
            into < old(self).nodes(),
            from < old(self).nodes(),
            into != from,
        ensures
            final(self).nodes() == old(self).nodes(),
            forall|key: RangeKey|
                is_key(old(self).nodes(), key) ==> #[trigger] final(self)@[key] == (if key.0
                    == into {
                    old(self)@[key].widened(old(self)@[(from as int, key.1, key.2)])
                } else {
                    old(self)@[key]
                }),
    {
        let ghost before = self@;
        let ghost nodes = self.nodes();
        let mut id: usize = 0;
        while id < REPORT_IDS
            invariant
                id <= REPORT_IDS,
                into < nodes,
                from < nodes,
                into != from,
                self.nodes() == nodes,
                forall|key: RangeKey|
                    is_key(nodes, key) ==> #[trigger] self@[key] == (if key.0 == into && key.1
                        < id {
                        before[key].widened(before[(from as int, key.1, key.2)])
                    } else {
                        before[key]
                    }),
            decreases REPORT_IDS - id,
        {
            let mut t: usize = 0;
            while t < 3
                invariant
                    id < REPORT_IDS,
                    t <= 3,
                    into < nodes,
                    from < nodes,
                    into != from,
                    self.nodes() == nodes,
                    forall|key: RangeKey|
                        is_key(nodes, key) ==> #[trigger] self@[key] == (if key.0 == into && (key.1
                            < id || (key.1 == id && key.2.ordinal() < t)) {
                            before[key].widened(before[(from as int, key.1, key.2)])
                        } else {
                            before[key]
                        }),
                decreases 3 - t,
            {
                let rt = ReportType::from_index(t);
                let theirs = self.get(from, id as u8, rt);
                assert(is_key(nodes, (from as int, id as int, rt)));
                self.widen(into, id as u8, rt, theirs);
                t = t + 1;
            }
            id = id + 1;
        }
    }
}

/// The range that the capability records from index `lo` up to, not
/// including, `hi` give to collection `c` in report `report_id`: the least
/// range that holds every record among them that belongs to that collection
/// and that report.
pub open spec fn direct_upto(caps: Seq<Caps>, lo: int, hi: int, c: int, report_id: int) -> BitRange
    decreases hi - lo,
{
    if hi <= lo {
        BitRange::vacant()
    } else {
        let rest = direct_upto(caps, lo, hi - 1, c, report_id);
        if gives_to(caps, hi - 1, c, report_id) {
            rest.widened(BitRange::of(caps[hi - 1]))
        } else {
            rest
        }
    }
}

/// Record `j` belongs to collection `c` and to report `report_id`.
pub open spec fn gives_to(caps: Seq<Caps>, j: int, c: int, report_id: int) -> bool {
    caps[j].link_collection == c && caps[j].report_id == report_id
}

/// The first and the last bit of a record are the bounds of its range.
pub proof fn lemma_range_of_record(caps: Caps)
    ensures
        BitRange::of(caps).first_bit == Some(caps.spec_first_bit() as i64),
        BitRange::of(caps).last_bit == Some(caps.spec_last_bit() as i64),
        caps.spec_first_bit() as i64 == caps.spec_first_bit(),
        caps.spec_last_bit() as i64 == caps.spec_last_bit(),
{
    let size = caps.report_size as int;
    let count = caps.report_count as int;
    assert(0 <= size * count <= 65535 * 65535) by (nonlinear_arith)
        requires
            0 <= size <= 65535,
            0 <= count <= 65535,
    ;
}

/// The direct range of a key holds the range of every record that belongs to
/// the key.
pub proof fn lemma_direct_covers_record(
    caps: Seq<Caps>,
    lo: int,
    hi: int,
    c: int,
    report_id: int,
    j: int,
)
    requires
        lo <= j < hi,
        gives_to(caps, j, c, report_id),
    ensures
        direct_upto(caps, lo, hi, c, report_id).covers(BitRange::of(caps[j])),
    decreases hi - lo,
{
    if j < hi - 1 {
        lemma_direct_covers_record(caps, lo, hi - 1, c, report_id, j);
    }
}

/// The direct range of a key is no wider than its records make it: each of
/// its bounds is the bound of a record that belongs to the key, and it is
/// vacant where no record does.
pub proof fn lemma_direct_is_attained(caps: Seq<Caps>, lo: int, hi: int, c: int, report_id: int)
    ensures
        match direct_upto(caps, lo, hi, c, report_id).first_bit {
            Some(first) => exists|j: int|
                lo <= j < hi && #[trigger] gives_to(caps, j, c, report_id)
                    && caps[j].spec_first_bit() == first,
            None => forall|j: int| lo <= j < hi ==> !#[trigger] gives_to(caps, j, c, report_id),
        },
        match direct_upto(caps, lo, hi, c, report_id).last_bit {
            Some(last) => exists|j: int|
                lo <= j < hi && #[trigger] gives_to(caps, j, c, report_id)
                    && caps[j].spec_last_bit() == last,
            None => forall|j: int| lo <= j < hi ==> !#[trigger] gives_to(caps, j, c, report_id),
        },
    decreases hi - lo,
{
    if hi > lo {
        lemma_direct_is_attained(caps, lo, hi - 1, c, report_id);
        lemma_range_of_record(caps[hi - 1]);
        let rest = direct_upto(caps, lo, hi - 1, c, report_id);
        let all = direct_upto(caps, lo, hi, c, report_id);
        if gives_to(caps, hi - 1, c, report_id) {
            if all.first_bit != rest.first_bit {
                assert(gives_to(caps, hi - 1, c, report_id) && caps[hi - 1].spec_first_bit()
                    == all.first_bit->0);
            } else {
                let first = all.first_bit->0;
                let j = choose|j: int|
                    lo <= j < hi - 1 && #[trigger] gives_to(caps, j, c, report_id)
                        && caps[j].spec_first_bit() == first;
                assert(lo <= j < hi && gives_to(caps, j, c, report_id));
            }
            if all.last_bit != rest.last_bit {
                assert(gives_to(caps, hi - 1, c, report_id) && caps[hi - 1].spec_last_bit()
                    == all.last_bit->0);
            } else {
                let last = all.last_bit->0;
                let j = choose|j: int|
                    lo <= j < hi - 1 && #[trigger] gives_to(caps, j, c, report_id)
                        && caps[j].spec_last_bit() == last;
                assert(lo <= j < hi && gives_to(caps, j, c, report_id));
            }
        } else {
            if let Some(first) = all.first_bit {
                let j = choose|j: int|
                    lo <= j < hi - 1 && #[trigger] gives_to(caps, j, c, report_id)
                        && caps[j].spec_first_bit() == first;
                assert(lo <= j < hi && gives_to(caps, j, c, report_id));
            }
            if let Some(last) = all.last_bit {
                let j = choose|j: int|
                    lo <= j < hi - 1 && #[trigger] gives_to(caps, j, c, report_id)
                        && caps[j].spec_last_bit() == last;
                assert(lo <= j < hi && gives_to(caps, j, c, report_id));
            }
        }
    }
}

/// The range that the capability records of a blob give to a key directly.
pub open spec fn direct_range(bytes: Seq<u8>, key: RangeKey) -> BitRange {
    let info = caps_info_of(bytes, key.2.ordinal());
    direct_upto(caps_of(bytes), info.first_cap as int, info.last_cap as int, key.0, key.1)
}

/// The table of the ranges that the capability records of a blob give to each
/// key directly.
pub open spec fn direct_ranges(bytes: Seq<u8>) -> Map<RangeKey, BitRange> {
    Map::new(
        |key: RangeKey| is_key(nodes_count(bytes) as nat, key),
        |key: RangeKey| direct_range(bytes, key),
    )
}

/// Index `i` lies in the index range of the report type at position `rt`.
pub open spec fn in_index_range(bytes: Seq<u8>, rt: int, i: int) -> bool {
    0 <= rt < 3 && caps_info_of(bytes, rt).first_cap <= i < caps_info_of(bytes, rt).last_cap
}

/// Every capability record that a report type's index range holds belongs to
/// a collection that exists.
pub open spec fn caps_attached(bytes: Seq<u8>) -> bool {
    forall|rt: int, i: int| #[trigger]
        in_index_range(bytes, rt, i) ==> caps_of(bytes)[i].link_collection < nodes_count(bytes)
}

/// Builds the table of the ranges that the capability records give to each
/// key directly: for each report type, each record of its index range widens
/// the entry of its collection and report ID.
///
/// Fails where a record names a collection that the blob does not have.
pub fn index_bit_ranges(blob: &PreparsedData) -> (r: Result<BitRangeTable, WinError>)
    ensures
        r is Ok <==> caps_attached(blob@),
        r matches Ok(table) ==> table.nodes() == blob.nodes().len() && table@ == direct_ranges(
            blob@,
        ),
        r matches Err(e) ==> e == WinError::InvalidPreparsedData,
{
    let n: usize = blob.number_of_nodes();
    let mut table = BitRangeTable::new(n);
    let ghost caps = blob.caps();
    let mut t: usize = 0;
    while t < 3
        invariant
            t <= 3,
            table.nodes() == n,
            n == blob.nodes().len(),
            caps == blob.caps(),
            forall|key: RangeKey|
                is_key(n as nat, key) ==> #[trigger] table@[key] == (if key.2.ordinal() < t {
                    direct_range(blob@, key)
                } else {
                    BitRange::vacant()
                }),
            forall|rt: int, i: int| #[trigger]
                in_index_range(blob@, rt, i) && rt < t ==> caps[i].link_collection < n,
        decreases 3 - t,
    {
        let rt = ReportType::from_index(t);
        let info = blob.caps_info(rt);
        let first: usize = info.first_cap as usize;
        let last: usize = info.last_cap as usize;
        let mut i: usize = first;
        while i < last
            invariant
                t < 3,
                rt.ordinal() == t,
                info == caps_info_of(blob@, t as int),
                first == info.first_cap,
                last == info.last_cap,
                first <= i,
                i <= last || i == first,
                last <= caps.len(),
                table.nodes() == n,
                n == blob.nodes().len(),
                caps == blob.caps(),
                forall|key: RangeKey|
                    is_key(n as nat, key) ==> #[trigger] table@[key] == (if key.2.ordinal() < t {
                        direct_range(blob@, key)
                    } else if key.2.ordinal() == t {
                        direct_upto(caps, first as int, i as int, key.0, key.1)
                    } else {
                        BitRange::vacant()
                    }),
                forall|rt: int, i: int| #[trigger]
                    in_index_range(blob@, rt, i) && rt < t ==> caps[i].link_collection < n,
                forall|j: int| first <= j < i ==> (#[trigger] caps[j]).link_collection < n,
            decreases last - i,
        {
            let cap = blob.cap(i);
            if cap.link_collection as usize >= n {
                proof {
                    assert(in_index_range(blob@, t as int, i as int));
                }
                return Err(WinError::InvalidPreparsedData);
            }
            table.widen(cap.link_collection as usize, cap.report_id, rt, BitRange::of_caps(&cap));
            i = i + 1;
        }
        proof {
            assert forall|key: RangeKey| is_key(n as nat, key) && key.2.ordinal() == t implies direct_upto(
                caps,
                first as int,
                i as int,
                key.0,
                key.1,
            ) == direct_range(blob@, key) by {
                assert(key.2 == rt);
            }
        }
        t = t + 1;
    }
    proof {
        table.lemma_keys();
        assert(table@ =~= direct_ranges(blob@));
    }
    Ok(table)
}

} // verus!
