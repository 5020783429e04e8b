//! The zone-map index: one fixed-width record per block and column.
//!
//! A record has 40 bytes: the offset of the block in the data file, its
//! compressed size and its decompressed size, each as a big-endian 64-bit
//! integer, then the zone values of the smallest and of the largest value of
//! the block, eight bytes each.

use crate::bytes::{be_u64, lemma_u64_be_round_trip, read_u64_be, u64_be_bytes, u64_from_be};
use crate::data::{DType, DValue, Scalar};
use vstd::prelude::*;
use vstd::utf8::encode_utf8;

verus! {

/// The number of bytes of an index record.
pub const INDEX_ENTRY_BYTES: usize = 40;

/// The zone value of a block: an integer in full, or the first eight bytes
/// of a text.
#[derive(Debug, Clone, Copy, PartialEq, Eq)]
pub enum IndexValue {
    Uint64(u64),
    String([u8; 8]),
}

/// One index record.
#[derive(Debug, Clone, Copy, PartialEq, Eq)]
pub struct IndexEntry {
    /// Where the block starts in the data file.
    pub start_position: u64,
    /// The number of bytes of the block in the data file.
    pub compressed_size: u64,
    /// The number of bytes of the block once it is decompressed.
    pub decompressed_size: u64,
    /// The zone value of the smallest value of the block.
    pub min: IndexValue,
    /// The zone value of the largest value of the block.
    pub max: IndexValue,
}

/// The mathematical value of an [`IndexValue`].
pub enum Zone {
    Number(u64),
    Prefix(Seq<u8>),
}

/// The mathematical value of an [`IndexEntry`].
pub struct Entry {
    pub start_position: u64,
    pub compressed_size: u64,
    pub decompressed_size: u64,
    pub min: Zone,
    pub max: Zone,
}

/// The first eight bytes of `text`, with zero bytes behind a shorter text.
pub open spec fn text_zone(text: Seq<u8>) -> Seq<u8> {
    Seq::new(
        8,
        |i: int|
            if i < text.len() {
                text[i]
            } else {
                0u8
            },
    )
}

impl Zone {
    /// The zone value that stands for `v`: exact for an integer, a prefix
    /// for a text.
    pub open spec fn of(v: Scalar) -> Zone {
        match v {
            Scalar::Number(n) => Zone::Number(n),
            Scalar::Text(s) => Zone::Prefix(text_zone(encode_utf8(s))),
        }
    }

    /// The eight bytes that a zone value is stored as.
    pub open spec fn bytes(self) -> Seq<u8> {
        match self {
            Zone::Number(n) => be_u64(n),
            Zone::Prefix(p) => p,
        }
    }

    /// The zone value of a column of type `dtype` that is stored as the
    /// first eight bytes of `bytes`.
    pub open spec fn parse(bytes: Seq<u8>, dtype: DType) -> Zone {
        match dtype {
            DType::Uint64 => Zone::Number(u64_from_be(bytes.subrange(0, 8))),
            DType::String => Zone::Prefix(bytes.subrange(0, 8)),
        }
    }

    /// Whether the zone value is one of a column of type `dtype`.
    pub open spec fn fits(self, dtype: DType) -> bool {
        match self {
            Zone::Number(_) => dtype == DType::Uint64,
            Zone::Prefix(p) => dtype == DType::String && p.len() == 8,
        }
    }
}

impl Entry {
    /// The 40 bytes that a record is stored as.
    pub open spec fn bytes(self) -> Seq<u8> {
        be_u64(self.start_position) + be_u64(self.compressed_size) + be_u64(
            self.decompressed_size,
        ) + self.min.bytes() + self.max.bytes()
    }

    /// The record of a column of type `dtype` that is stored as the first 40
    /// bytes of `bytes`.
    pub open spec fn parse(bytes: Seq<u8>, dtype: DType) -> Entry {
        Entry {
            start_position: u64_from_be(bytes.subrange(0, 8)),
            compressed_size: u64_from_be(bytes.subrange(8, 16)),
            decompressed_size: u64_from_be(bytes.subrange(16, 24)),
            min: Zone::parse(bytes.subrange(24, 32), dtype),
            max: Zone::parse(bytes.subrange(32, 40), dtype),
        }
    }

    /// Whether both zone values are of a column of type `dtype`.
    pub open spec fn fits(self, dtype: DType) -> bool {
        self.min.fits(dtype) && self.max.fits(dtype)
    }
}

impl View for IndexValue {
    type V = Zone;

    open spec fn view(&self) -> Zone {
        match self {
            IndexValue::Uint64(n) => Zone::Number(*n),
            IndexValue::String(p) => Zone::Prefix(p@),
        }
    }
}

impl View for IndexEntry {
    type V = Entry;

    open spec fn view(&self) -> Entry {
        Entry {
            start_position: self.start_position,
            compressed_size: self.compressed_size,
            decompressed_size: self.decompressed_size,
            min: self.min@,
            max: self.max@,
        }
    }
}

impl IndexValue {
    /// The zone value that stands for `value`.
    pub fn from_dvalue(value: &DValue) -> (zone: IndexValue)
        ensures
            zone@ == Zone::of(value@),
            zone@.fits(value@.dtype()),
    {
        match value {
            DValue::String(s) => {
                let mut bytes: [u8; 8] = [0u8; 8];
                let text: &[u8] = s.as_str().as_bytes();
                let mut i: usize = 0;
                while i < 8 && i < text.len()
                    invariant
                        i <= 8,
                        i <= text@.len(),
                        forall|j: int| 0 <= j < i ==> bytes@[j] == text@[j],
                        forall|j: int| i <= j < 8 ==> bytes@[j] == 0u8,
                    decreases 8 - i,
                {
                    bytes[i] = text[i];
                    i = i + 1;
                }
                assert(bytes@ =~= text_zone(text@));
                IndexValue::String(bytes)
            },
            DValue::Uint64(n) => IndexValue::Uint64(*n),
        }
    }

    /// The eight bytes that the zone value is stored as.
    pub fn to_bytes(&self) -> (bytes: [u8; 8])
        ensures
            bytes@ == self@.bytes(),
    {
        match self {
            IndexValue::String(s) => *s,
            IndexValue::Uint64(u) => u64_be_bytes(*u),
        }
    }

    /// Stores the zone value in the eight bytes of `bytes`.
    pub fn write_bytes(&self, bytes: &mut [u8])
        requires
            old(bytes)@.len() == 8,
        ensures
            final(bytes)@ == self@.bytes(),
    {
        let stored: [u8; 8] = self.to_bytes();
        let mut i: usize = 0;
        while i < 8
            invariant
                i <= 8,
                bytes@.len() == 8,
                stored@ == self@.bytes(),
                forall|j: int| 0 <= j < i ==> bytes@[j] == stored@[j],
            decreases 8 - i,
        {
            bytes[i] = stored[i];
            i = i + 1;
        }
        assert(bytes@ =~= stored@);
    }

    /// The zone value of a column of type `dtype` that is stored as the eight
    /// bytes of `bytes`.
    pub fn from_bytes(bytes: &[u8], dtype: &DType) -> (zone: IndexValue)
        requires
            bytes@.len() == 8,
        ensures
            zone@ == Zone::parse(bytes@, *dtype),
            zone@.fits(*dtype),
    {
        match dtype {
            DType::String => {
                let mut s_bytes: [u8; 8] = [0u8; 8];
                let mut i: usize = 0;
                while i < 8
                    invariant
                        i <= 8,
                        bytes@.len() == 8,
                        forall|j: int| 0 <= j < i ==> s_bytes@[j] == bytes@[j],
                    decreases 8 - i,
                {
                    s_bytes[i] = bytes[i];
                    i = i + 1;
                }
                assert(s_bytes@ =~= bytes@.subrange(0, 8));
                IndexValue::String(s_bytes)
            },
            DType::Uint64 => IndexValue::Uint64(read_u64_be(bytes, 0)),
        }
    }
}

impl IndexEntry {
    /// The 40 bytes that the record is stored as.
    pub fn to_bytes(&self) -> (bytes: [u8; 40])
        ensures
            bytes@ == self@.bytes(),
    {
        let start: [u8; 8] = u64_be_bytes(self.start_position);
        let compressed: [u8; 8] = u64_be_bytes(self.compressed_size);
        let decompressed: [u8; 8] = u64_be_bytes(self.decompressed_size);
        let mut min: [u8; 8] = [0u8; 8];
        self.min.write_bytes(&mut min);
        let mut max: [u8; 8] = [0u8; 8];
        self.max.write_bytes(&mut max);
        let mut bytes: [u8; 40] = [0u8; 40];
        let mut i: usize = 0;
        while i < 8
            invariant
                i <= 8,
                forall|j: int| 0 <= j < i ==> bytes@[j] == start@[j],
                forall|j: int| 0 <= j < i ==> bytes@[8 + j] == compressed@[j],
                forall|j: int| 0 <= j < i ==> bytes@[16 + j] == decompressed@[j],
                forall|j: int| 0 <= j < i ==> bytes@[24 + j] == min@[j],
                forall|j: int| 0 <= j < i ==> bytes@[32 + j] == max@[j],
            decreases 8 - i,
        {
            bytes[i] = start[i];
            bytes[8 + i] = compressed[i];
            bytes[16 + i] = decompressed[i];
            bytes[24 + i] = min[i];
            bytes[32 + i] = max[i];
            i = i + 1;
        }
        assert(bytes@ =~= start@ + compressed@ + decompressed@ + min@ + max@);
        bytes
    }

    /// The record of a column of type `dtype` that is stored as `bytes`.
    pub fn from_bytes(bytes: &[u8; 40], dtype: &DType) -> (entry: IndexEntry)
        ensures
            entry@ == Entry::parse(bytes@, *dtype),
            entry@.fits(*dtype),
    {
        let all: &[u8] = bytes.as_slice();
        let start_position: u64 = read_u64_be(all, 0);
        let compressed_size: u64 = read_u64_be(all, 8);
        let decompressed_size: u64 = read_u64_be(all, 16);
        let min = IndexValue::from_bytes(&all[24..32], dtype);
        let max = IndexValue::from_bytes(&all[32..40], dtype);
        IndexEntry { start_position, compressed_size, decompressed_size, min, max }
    }
}

/// A text zone value holds the first bytes of the text, at most eight, and
/// zero bytes behind them.
pub proof fn lemma_text_zone_prefix(text: Seq<u8>)
    ensures
        text_zone(text).len() == 8,
        text.len() >= 8 ==> text_zone(text) == text.take(8),
        text.len() < 8 ==> text_zone(text).take(text.len() as int) == text,
        forall|i: int| text.len() <= i < 8 ==> text_zone(text)[i] == 0u8,
{
    if text.len() >= 8 {
        assert(text_zone(text) =~= text.take(8));
    } else {
        assert(text_zone(text).take(text.len() as int) =~= text);
    }
}

/// The zone value of an integer is the integer itself.
pub proof fn lemma_number_zone_exact(n: u64)
    ensures
        Zone::of(Scalar::Number(n)) == Zone::Number(n),
        Zone::parse(Zone::of(Scalar::Number(n)).bytes(), DType::Uint64) == Zone::Number(n),
{
    lemma_u64_be_round_trip(n);
    assert(be_u64(n).subrange(0, 8) =~= be_u64(n));
}

/// A zone value that was stored is read back as it was.
pub proof fn lemma_zone_round_trip(zone: Zone, dtype: DType)
    requires
        zone.fits(dtype),
    ensures
        zone.bytes().len() == 8,
        Zone::parse(zone.bytes(), dtype) == zone,
{
    match zone {
        Zone::Number(n) => {
            lemma_u64_be_round_trip(n);
            assert(be_u64(n).subrange(0, 8) =~= be_u64(n));
        },
        Zone::Prefix(p) => {
            assert(p.subrange(0, 8) =~= p);
        },
    }
}

/// A record that was stored is read back as it was, whatever follows it.
pub proof fn lemma_entry_round_trip(entry: Entry, dtype: DType, rest: Seq<u8>)
    requires
        entry.fits(dtype),
    ensures
        entry.bytes().len() == INDEX_ENTRY_BYTES,
        Entry::parse(entry.bytes() + rest, dtype) == entry,
{
    let bytes = entry.bytes() + rest;
    lemma_u64_be_round_trip(entry.start_position);
    lemma_u64_be_round_trip(entry.compressed_size);
    lemma_u64_be_round_trip(entry.decompressed_size);
    lemma_zone_round_trip(entry.min, dtype);
    lemma_zone_round_trip(entry.max, dtype);
    assert(bytes.subrange(0, 8) =~= be_u64(entry.start_position));
    assert(bytes.subrange(8, 16) =~= be_u64(entry.compressed_size));
    assert(bytes.subrange(16, 24) =~= be_u64(entry.decompressed_size));
    assert(bytes.subrange(24, 32) =~= entry.min.bytes());
    assert(bytes.subrange(32, 40) =~= entry.max.bytes());
}

/// The zone value of a value takes eight bytes and is one of a column of
/// the value's type.
pub proof fn lemma_zone_of(v: Scalar)
    ensures
        Zone::of(v).bytes().len() == 8,
        Zone::of(v).fits(v.dtype()),
{
    match v {
        Scalar::Number(n) => {
            assert(be_u64(n).len() == 8);
        },
        Scalar::Text(s) => {
            assert(text_zone(encode_utf8(s)).len() == 8);
        },
    }
}

/// A record whose zone values take eight bytes each takes 40 bytes.
pub proof fn lemma_entry_len(entry: Entry)
    requires
        entry.min.bytes().len() == 8,
        entry.max.bytes().len() == 8,
    ensures
        entry.bytes().len() == INDEX_ENTRY_BYTES,
{
    assert(be_u64(entry.start_position).len() == 8);
    assert(be_u64(entry.compressed_size).len() == 8);
    assert(be_u64(entry.decompressed_size).len() == 8);
}

} // verus!
