//! The block: an immutable run of key-value entries with an offset index,
//! and its encoding as bytes.

use bytes::Bytes;
use vstd::prelude::*;
use vstd::slice::slice_to_vec;

use crate::buffer::{
    bytes_contents, bytes_from_vec, bytes_get_u16, bytes_len, bytes_mut_contents,
    bytes_mut_freeze, bytes_mut_put_u16, bytes_mut_put_u8, bytes_mut_with_capacity,
    bytes_split_to, bytes_to_vec,
};
use crate::layout::{
    entries_bytes, entry_end, entry_fits, entry_start, key_end, layout_entries, layout_ok,
    lemma_boundary_grows, lemma_data_bounded, lemma_entry_at_bytes, lemma_entry_start_none,
    lemma_layout_is_entries, lemma_layout_ok_iff_offsets_match, lemma_layout_walk, Entry,
};
use crate::wire::{be16, join_u8s_to_u16, lemma_be16_inverse, split_u16_to_u8s, u16_at};

pub mod builder;
pub mod iterator;

pub use builder::BlockBuilder;
pub use iterator::BlockIterator;

verus! {

/// What a block holds, as sequences.
pub struct BlockView {
    pub data: Seq<u8>,
    pub offsets: Seq<u16>,
}

impl BlockView {
    /// The offsets address the data exactly, entry by entry.
    pub open spec fn wf(self) -> bool {
        layout_ok(self.data, self.offsets)
    }

    /// The entries of the block, in stored order.
    pub open spec fn entries(self) -> Seq<Entry> {
        layout_entries(self.data, self.offsets)
    }

    /// The block on the wire: the data, then each offset as two big-endian
    /// bytes, then the number of entries as two big-endian bytes.
    pub open spec fn encoding(self) -> Seq<u8> {
        self.data + offsets_bytes(self.offsets) + be16(self.offsets.len() as u16)
    }
}

/// An offset table on the wire: two big-endian bytes per offset.
pub open spec fn offsets_bytes(offsets: Seq<u16>) -> Seq<u8> {
    Seq::new(2 * offsets.len(), |j: int| be16(offsets[j / 2])[j % 2])
}

/// The entry count that the last two bytes of an encoded block declare.
pub open spec fn declared_count(bytes: Seq<u8>) -> nat {
    u16_at(bytes, bytes.len() - 2) as nat
}

/// The length of the data region that the declared count leaves; negative
/// when the offset table alone would not fit.
pub open spec fn region_len(bytes: Seq<u8>) -> int {
    bytes.len() - 2 - 2 * declared_count(bytes)
}

/// The data region of an encoded block.
pub open spec fn decoded_data(bytes: Seq<u8>) -> Seq<u8> {
    bytes.subrange(0, region_len(bytes))
}

/// The offset table of an encoded block.
pub open spec fn decoded_offsets(bytes: Seq<u8>) -> Seq<u16> {
    Seq::new(declared_count(bytes), |i: int| u16_at(bytes, region_len(bytes) + 2 * i))
}

/// Why a byte string is not an encoded block.
#[derive(Debug, Clone, Copy, PartialEq, Eq)]
pub enum DecodeError {
    /// The declared entry count asks for more bytes than the input has: the
    /// offset table does not fit, or reading that many entries from the front
    /// runs past the data region.
    Truncated,
    /// The entries fit, but the offset table does not point at their starts,
    /// or bytes are left over between the last entry and the offset table.
    Misaligned,
}

/// What decoding `bytes` gives.
///
/// Fewer than two bytes stand for the empty block. Otherwise the last two
/// bytes declare the entry count, the offset table precedes them, and the
/// data region is everything before the table; the result is a block only
/// if that many entries, read from the front, fill the region exactly and
/// start where the table says.
pub open spec fn decoded(bytes: Seq<u8>) -> Result<BlockView, DecodeError> {
    if bytes.len() < 2 {
        Ok(BlockView { data: Seq::empty(), offsets: Seq::empty() })
    } else if region_len(bytes) < 0 || entry_start(decoded_data(bytes), declared_count(bytes))
        is None {
        Err(DecodeError::Truncated)
    } else {
        let block = BlockView { data: decoded_data(bytes), offsets: decoded_offsets(bytes) };
        if block.wf() {
            Ok(block)
        } else {
            Err(DecodeError::Misaligned)
        }
    }
}

/// A block is the smallest unit of read and caching: entries in key order,
/// laid out back to back in `data`, with the start of each in `offsets`.
#[derive(Debug, Clone, PartialEq, Eq)]
pub struct Block {
    pub data: Vec<u8>,
    pub offsets: Vec<u16>,
}

impl View for Block {
    type V = BlockView;

    open spec fn view(&self) -> BlockView {
        BlockView { data: self.data@, offsets: self.offsets@ }
    }
}

impl Block {
    /// Encodes the block: the data, the offsets, then the entry count.
    pub fn encode(&self) -> (out: Bytes)
        requires
            self@.wf(),
        ensures
            bytes_contents(out) == self@.encoding(),
    {
        proof {
            lemma_data_bounded(self.data@, self.offsets@);
        }
        let elements: u16 = self.offsets.len() as u16;
        let mut buf = bytes_mut_with_capacity(self.data.len() + 2 * self.offsets.len() + 2);
        let mut i: usize = 0;
        while i < self.data.len()
            invariant
                i <= self.data@.len(),
                bytes_mut_contents(buf) == self.data@.take(i as int),
            decreases self.data@.len() - i,
        {
            bytes_mut_put_u8(&mut buf, self.data[i]);
            assert(self.data@.take(i as int).push(self.data@[i as int]) =~= self.data@.take(
                i + 1,
            ));
            i += 1;
        }
        assert(self.data@.take(i as int) =~= self.data@);
        let mut j: usize = 0;
        assert(offsets_bytes(self.offsets@.take(0)) =~= Seq::<u8>::empty());
        assert(self.data@ + Seq::<u8>::empty() =~= self.data@);
        while j < self.offsets.len()
            invariant
                j <= self.offsets@.len(),
                bytes_mut_contents(buf) == self.data@ + offsets_bytes(self.offsets@.take(j as int)),
            decreases self.offsets@.len() - j,
        {
            bytes_mut_put_u16(&mut buf, self.offsets[j]);
            proof {
                lemma_offsets_bytes_push(self.offsets@.take(j as int), self.offsets@[j as int]);
                assert(self.offsets@.take(j as int).push(self.offsets@[j as int])
                    =~= self.offsets@.take(j + 1));
            }
            j += 1;
        }
        assert(self.offsets@.take(j as int) =~= self.offsets@);
        bytes_mut_put_u16(&mut buf, elements);
        bytes_mut_freeze(buf)
    }

    /// Decodes a block from its encoding.
    ///
    /// An input of fewer than two bytes gives the empty block. Any other
    /// input is taken apart as `decoded` describes and rejected unless it is
    /// the encoding of a well-formed block.
    pub fn decode(data: &[u8]) -> (result: Result<Block, DecodeError>)
        ensures
            match result {
                Ok(block) => decoded(data@) == Ok::<BlockView, DecodeError>(block@) && block@.wf(),
                Err(e) => decoded(data@) == Err::<BlockView, DecodeError>(e),
            },
    {
        let data_len: usize = data.len();
        if data_len < 2 {
            let block = Block { data: Vec::new(), offsets: Vec::new() };
            assert(block@ == (BlockView { data: Seq::empty(), offsets: Seq::empty() }));
            return Ok(block);
        }
        let elements: u16 = join_u8s_to_u16(data[data_len - 2], data[data_len - 1]);
        let count: usize = elements as usize;
        let table_len: usize = 2 * count + 2;
        if table_len > data_len {
            return Err(DecodeError::Truncated);
        }
        let region_size: usize = data_len - table_len;
        let ghost region = decoded_data(data@);
        let mut rest: Bytes = bytes_from_vec(slice_to_vec(data));
        let mut cursor: Bytes = bytes_split_to(&mut rest, region_size);

        let mut offsets: Vec<u16> = Vec::new();
        let mut i: usize = 0;
        while i < count
            invariant
                i <= count,
                count == declared_count(data@),
                region_size == region_len(data@),
                data_len == data@.len(),
                region_size + 2 * count + 2 == data_len,
                offsets@.len() == i,
                bytes_contents(rest) == data@.subrange(region_size + 2 * i, data_len as int),
                forall|j: int|
                    0 <= j < i ==> offsets@[j] == u16_at(data@, region_size + 2 * j),
            decreases count - i,
        {
            let offset: u16 = bytes_get_u16(&mut rest);
            assert(data@.subrange(region_size + 2 * i, data_len as int).subrange(
                2,
                data_len - region_size - 2 * i,
            ) =~= data@.subrange(region_size + 2 * (i + 1), data_len as int));
            offsets.push(offset);
            i += 1;
        }
        assert(offsets@ =~= decoded_offsets(data@));

        let mut block_data: Vec<u8> = Vec::new();
        let mut aligned: bool = true;
        let mut pos: usize = 0;
        let mut i: usize = 0;
        assert(region.subrange(0, region_size as int) =~= region);
        assert(region.subrange(0, 0) =~= Seq::<u8>::empty());
        while i < count
            invariant
                i <= count,
                count == offsets@.len(),
                count == declared_count(data@),
                data@.len() >= 2,
                region_len(data@) >= 0,
                region == decoded_data(data@),
                pos <= region_size,
                region_size == region.len(),
                region_size <= usize::MAX - 2,
                entry_start(region, i as nat) == Some(pos as int),
                bytes_contents(cursor) == region.subrange(pos as int, region_size as int),
                block_data@ == region.subrange(0, pos as int),
                aligned <==> forall|j: int|
                    0 <= j < i ==> entry_start(region, j as nat) == Some(
                        #[trigger] offsets@[j] as int,
                    ),
            decreases count - i,
        {
            let ghost start = pos as int;
            if bytes_len(&cursor) < 2 {
                proof {
                    assert(!entry_fits(region, start));
                    lemma_entry_start_none(region, (i + 1) as nat, count as nat);
                }
                return Err(DecodeError::Truncated);
            }
            let key_len: u16 = bytes_get_u16(&mut cursor);
            assert(key_len == u16_at(region, start));
            if bytes_len(&cursor) < key_len as usize {
                proof {
                    assert(!entry_fits(region, start));
                    lemma_entry_start_none(region, (i + 1) as nat, count as nat);
                }
                return Err(DecodeError::Truncated);
            }
            let key: Bytes = bytes_split_to(&mut cursor, key_len as usize);
            if bytes_len(&cursor) < 2 {
                proof {
                    assert(!entry_fits(region, start));
                    lemma_entry_start_none(region, (i + 1) as nat, count as nat);
                }
                return Err(DecodeError::Truncated);
            }
            let value_len: u16 = bytes_get_u16(&mut cursor);
            assert(value_len == u16_at(region, key_end(region, start)));
            if bytes_len(&cursor) < value_len as usize {
                proof {
                    assert(!entry_fits(region, start));
                    lemma_entry_start_none(region, (i + 1) as nat, count as nat);
                }
                return Err(DecodeError::Truncated);
            }
            let value: Bytes = bytes_split_to(&mut cursor, value_len as usize);
            assert(entry_fits(region, start));
            let ghost end = entry_end(region, start);
            assert(end == start + 4 + key_len + value_len);
            assert(bytes_contents(cursor) =~= region.subrange(end, region_size as int));

            if offsets[i] as usize != pos {
                aligned = false;
            }
            let (key_high, key_low) = split_u16_to_u8s(key_len);
            block_data.push(key_high);
            block_data.push(key_low);
            let key_bytes: Vec<u8> = bytes_to_vec(&key);
            block_data.extend_from_slice(key_bytes.as_slice());
            let (value_high, value_low) = split_u16_to_u8s(value_len);
            block_data.push(value_high);
            block_data.push(value_low);
            let value_bytes: Vec<u8> = bytes_to_vec(&value);
            block_data.extend_from_slice(value_bytes.as_slice());
            proof {
                lemma_be16_inverse(0, region[start], region[start + 1]);
                lemma_be16_inverse(
                    0,
                    region[key_end(region, start)],
                    region[key_end(region, start) + 1],
                );
                assert(block_data@ =~= region.subrange(0, end));
            }
            pos = pos + 4 + key_len as usize + value_len as usize;
            i += 1;
        }
        proof {
            lemma_layout_ok_iff_offsets_match(region, offsets@);
        }
        if !aligned || pos != region_size {
            return Err(DecodeError::Misaligned);
        }
        assert(block_data@ =~= region);
        Ok(Block { data: block_data, offsets })
    }
}

/// The block that holds exactly `entries`: the entries back to back, and for
/// each the length of what precedes it.
pub open spec fn block_of(entries: Seq<Entry>) -> BlockView {
    BlockView {
        data: entries_bytes(entries),
        offsets: Seq::new(entries.len(), |i: int| entries_bytes(entries.take(i)).len() as u16),
    }
}

/// A well-formed block is determined by its entries: its data is the entries
/// laid out back to back, each offset is the length of the entries before
/// it, and every field is short enough for its length prefix.
pub proof fn lemma_block_is_its_entries(block: BlockView)
    requires
        block.wf(),
    ensures
        block == block_of(block.entries()),
        forall|i: int| 0 <= i < block.entries().len() ==> (#[trigger] block.entries()[i]).fields_fit(),
{
    let entries = block.entries();
    let n = block.offsets.len() as int;
    lemma_layout_is_entries(block.data, block.offsets, n);
    assert(entries.take(n) =~= entries);
    assert(block.data.subrange(0, block.data.len() as int) =~= block.data);
    assert forall|i: int| 0 <= i < n implies block.offsets[i] == #[trigger] block_of(
        entries,
    ).offsets[i] by {
        lemma_layout_is_entries(block.data, block.offsets, i);
        lemma_boundary_grows(block.data, block.offsets, i);
    }
    assert(block.offsets =~= block_of(entries).offsets);
    assert forall|i: int| 0 <= i < entries.len() implies (#[trigger] entries[i]).fields_fit() by {
        assert(entry_fits(block.data, block.offsets[i] as int));
        lemma_entry_at_bytes(block.data, block.offsets[i] as int);
    }
}

/// Round trip. Decoding the encoding of a well-formed block gives the block
/// back, data and offsets alike.
pub proof fn lemma_decode_encode(block: BlockView)
    requires
        block.wf(),
    ensures
        decoded(block.encoding()) == Ok::<BlockView, DecodeError>(block),
{
    let bytes = block.encoding();
    let n = block.offsets.len();
    let table = offsets_bytes(block.offsets);
    lemma_be16_inverse(n as u16, 0, 0);
    assert(bytes.len() == block.data.len() + 2 * n + 2);
    assert(bytes[bytes.len() - 2] == be16(n as u16)[0]);
    assert(bytes[bytes.len() - 1] == be16(n as u16)[1]);
    assert(declared_count(bytes) == n);
    assert(region_len(bytes) == block.data.len());
    assert(decoded_data(bytes) =~= block.data);
    assert forall|i: int| 0 <= i < n implies #[trigger] decoded_offsets(bytes)[i]
        == block.offsets[i] by {
        lemma_be16_inverse(block.offsets[i], 0, 0);
        assert(bytes[block.data.len() + 2 * i] == table[2 * i]);
        assert(bytes[block.data.len() + 2 * i + 1] == table[2 * i + 1]);
    }
    assert(decoded_offsets(bytes) =~= block.offsets);
    lemma_layout_walk(block.data, block.offsets, n);
}

/// Whatever decodes to a block is that block's encoding, unless it is one
/// of the inputs too short to hold an entry count.
pub proof fn lemma_encode_decode(bytes: Seq<u8>)
    requires
        bytes.len() >= 2,
        decoded(bytes) is Ok,
    ensures
        decoded(bytes)->Ok_0.wf(),
        decoded(bytes)->Ok_0.encoding() == bytes,
{
    let block = decoded(bytes)->Ok_0;
    let n = declared_count(bytes);
    let r = region_len(bytes);
    assert forall|j: int| 0 <= j < 2 * n implies #[trigger] offsets_bytes(block.offsets)[j]
        == bytes[r + j] by {
        let i = j / 2;
        lemma_be16_inverse(0, bytes[r + 2 * i], bytes[r + 2 * i + 1]);
    }
    lemma_be16_inverse(0, bytes[bytes.len() - 2], bytes[bytes.len() - 1]);
    assert(block.encoding() =~= bytes);
}

/// The table of a sequence with one more offset is the old table followed by
/// that offset's two bytes.
pub proof fn lemma_offsets_bytes_push(offsets: Seq<u16>, last: u16)
    ensures
        offsets_bytes(offsets.push(last)) == offsets_bytes(offsets) + be16(last),
{
    assert(offsets_bytes(offsets.push(last)) =~= offsets_bytes(offsets) + be16(last));
}

} // verus!
