//! The table: encoded blocks back to back, a directory that locates them,
//! and a pointer to the directory.

use vstd::prelude::*;
use vstd::slice::{slice_subrange, slice_to_vec};

use crate::block::{block_of, DecodeError};
use crate::buffer::{vec_put_u16, vec_put_u32};
use crate::key::{key_le, key_lt, keys_sorted, keys_strictly_sorted};
use crate::layout::{entry_keys, Entry, MAX_FIELD_LEN};
use crate::wire::{
    be16, be32, join_u8s_to_u16, join_u8s_to_u32, lemma_be16_inverse, lemma_be32_inverse,
    u16_at, u32_at,
};

pub mod builder;

pub use builder::SsTableBuilder;

verus! {

/// The largest block offset that a directory record can hold.
pub const MAX_BLOCK_OFFSET: usize = 0xffff_ffff;

/// What a directory record holds, as mathematics.
pub struct BlockMetaView {
    pub offset: nat,
    pub first_key: Seq<u8>,
    pub last_key: Seq<u8>,
}

impl BlockMetaView {
    /// The offset fits four bytes and each key fits its length prefix.
    pub open spec fn fits(self) -> bool {
        &&& self.offset <= MAX_BLOCK_OFFSET
        &&& self.first_key.len() <= MAX_FIELD_LEN
        &&& self.last_key.len() <= MAX_FIELD_LEN
    }

    /// The record on the wire: the block's offset as four big-endian bytes,
    /// then the first key and the last key, each behind its two-byte length.
    pub open spec fn bytes(self) -> Seq<u8> {
        be32(self.offset as u32) + be16(self.first_key.len() as u16) + self.first_key + be16(
            self.last_key.len() as u16,
        ) + self.last_key
    }
}

/// Locates one block within a table and tells its key range.
#[derive(Debug, Clone, PartialEq, Eq)]
pub struct BlockMeta {
    /// Where the block starts within the table's block region.
    pub offset: usize,
    /// The first key of the block.
    pub first_key: Vec<u8>,
    /// The last key of the block.
    pub last_key: Vec<u8>,
}

impl View for BlockMeta {
    type V = BlockMetaView;

    open spec fn view(&self) -> BlockMetaView {
        BlockMetaView {
            offset: self.offset as nat,
            first_key: self.first_key@,
            last_key: self.last_key@,
        }
    }
}

/// The records of a directory, each by its view.
pub open spec fn metas_view(metas: Seq<BlockMeta>) -> Seq<BlockMetaView> {
    Seq::new(metas.len(), |i: int| metas[i]@)
}

/// A directory on the wire: its records back to back, in order.
pub open spec fn directory_bytes(metas: Seq<BlockMetaView>) -> Seq<u8>
    decreases metas.len(),
{
    if metas.len() == 0 {
        Seq::empty()
    } else {
        metas[0].bytes() + directory_bytes(metas.skip(1))
    }
}

/// The length of the first key of the record at the front of `bytes`.
pub open spec fn front_first_len(bytes: Seq<u8>) -> int {
    u16_at(bytes, 4) as int
}

/// The length of the last key of the record at the front of `bytes`.
pub open spec fn front_last_len(bytes: Seq<u8>) -> int {
    u16_at(bytes, 6 + front_first_len(bytes)) as int
}

/// The length of the record at the front of `bytes`.
pub open spec fn front_len(bytes: Seq<u8>) -> int {
    8 + front_first_len(bytes) + front_last_len(bytes)
}

/// A whole record stands at the front of `bytes`.
pub open spec fn front_fits(bytes: Seq<u8>) -> bool {
    &&& 6 <= bytes.len()
    &&& 8 + front_first_len(bytes) <= bytes.len()
    &&& front_len(bytes) <= bytes.len()
}

/// The record at the front of `bytes`.
pub open spec fn front_record(bytes: Seq<u8>) -> BlockMetaView {
    BlockMetaView {
        offset: u32_at(bytes, 0) as nat,
        first_key: bytes.subrange(6, 6 + front_first_len(bytes)),
        last_key: bytes.subrange(8 + front_first_len(bytes), front_len(bytes)),
    }
}

/// The records that `bytes` spells when read front to back until nothing is
/// left; `None` when a record runs past the end.
pub open spec fn parse_directory(bytes: Seq<u8>) -> Option<Seq<BlockMetaView>>
    decreases bytes.len(),
{
    if bytes.len() == 0 {
        Some(Seq::empty())
    } else if !front_fits(bytes) {
        None
    } else {
        match parse_directory(bytes.skip(front_len(bytes))) {
            Some(rest) => Some(seq![front_record(bytes)] + rest),
            None => None,
        }
    }
}

/// `parsed` followed by what remains to be parsed, if that succeeds.
pub open spec fn parsed_then(
    parsed: Seq<BlockMetaView>,
    rest: Option<Seq<BlockMetaView>>,
) -> Option<Seq<BlockMetaView>> {
    match rest {
        Some(more) => Some(parsed + more),
        None => None,
    }
}

/// Encoded blocks back to back: the block region of a table whose blocks
/// hold `blocks`.
pub open spec fn blocks_bytes(blocks: Seq<Seq<Entry>>) -> Seq<u8>
    decreases blocks.len(),
{
    if blocks.len() == 0 {
        Seq::empty()
    } else {
        blocks_bytes(blocks.drop_last()) + block_of(blocks.last()).encoding()
    }
}

/// The directory record of block `i`: where its encoding starts within the
/// block region, and its first and last key.
pub open spec fn meta_of(blocks: Seq<Seq<Entry>>, i: int) -> BlockMetaView {
    BlockMetaView {
        offset: blocks_bytes(blocks.take(i)).len(),
        first_key: blocks[i].first().key,
        last_key: blocks[i].last().key,
    }
}

/// The directory of a table whose blocks hold `blocks`.
pub open spec fn blocks_metas(blocks: Seq<Seq<Entry>>) -> Seq<BlockMetaView> {
    Seq::new(blocks.len(), |i: int| meta_of(blocks, i))
}

/// A table on the wire: the block region, the directory, and the position
/// of the directory as four big-endian bytes.
pub open spec fn table_bytes(blocks: Seq<Seq<Entry>>) -> Seq<u8> {
    blocks_bytes(blocks) + directory_bytes(blocks_metas(blocks)) + be32(
        blocks_bytes(blocks).len() as u32,
    )
}

/// The entries of all blocks, in order.
pub open spec fn all_entries(blocks: Seq<Seq<Entry>>) -> Seq<Entry>
    decreases blocks.len(),
{
    if blocks.len() == 0 {
        Seq::empty()
    } else {
        all_entries(blocks.drop_last()) + blocks.last()
    }
}

/// A block's worth of entries: at least one, each with fields that fit
/// their length prefixes.
pub open spec fn block_entries_ok(entries: Seq<Entry>) -> bool {
    &&& entries.len() > 0
    &&& forall|j: int| 0 <= j < entries.len() ==> (#[trigger] entries[j]).fields_fit()
}

/// Every block holds a block's worth of entries.
pub open spec fn blocks_ok(blocks: Seq<Seq<Entry>>) -> bool {
    forall|i: int| 0 <= i < blocks.len() ==> block_entries_ok(#[trigger] blocks[i])
}

/// An immutable table: its bytes, its directory, and its key range.
#[derive(Debug, Clone, PartialEq, Eq)]
pub struct SsTable {
    /// The table as it is stored.
    pub data: Vec<u8>,
    /// One record per block, in block order.
    pub block_meta: Vec<BlockMeta>,
    /// Where the directory starts within `data`.
    pub block_meta_offset: usize,
    /// The table's identifier.
    pub id: usize,
    /// The first key of the table.
    pub first_key: Vec<u8>,
    /// The last key of the table.
    pub last_key: Vec<u8>,
}

impl BlockMeta {
    /// Appends the directory for `block_meta` to `buf`, record by record.
    pub fn encode_block_meta(block_meta: &[BlockMeta], buf: &mut Vec<u8>)
        requires
            forall|i: int| 0 <= i < block_meta@.len() ==> (#[trigger] block_meta@[i])@.fits(),
        ensures
            final(buf)@ == old(buf)@ + directory_bytes(metas_view(block_meta@)),
    {
        let ghost metas = metas_view(block_meta@);
        let ghost start = buf@;
        let mut i: usize = 0;
        assert(metas.take(0) =~= Seq::<BlockMetaView>::empty());
        assert(start + Seq::<u8>::empty() =~= start);
        while i < block_meta.len()
            invariant
                i <= block_meta@.len(),
                metas == metas_view(block_meta@),
                forall|i: int| 0 <= i < block_meta@.len() ==> (#[trigger] block_meta@[i])@.fits(),
                buf@ == start + directory_bytes(metas.take(i as int)),
            decreases block_meta@.len() - i,
        {
            let meta = &block_meta[i];
            let ghost before = buf@;
            assert(meta@.fits());
            vec_put_u32(buf, meta.offset as u32);
            vec_put_u16(buf, meta.first_key.len() as u16);
            buf.extend_from_slice(meta.first_key.as_slice());
            vec_put_u16(buf, meta.last_key.len() as u16);
            buf.extend_from_slice(meta.last_key.as_slice());
            proof {
                assert(buf@ =~= before + meta@.bytes());
                lemma_directory_bytes_push(metas.take(i as int), meta@);
                assert(metas.take(i as int).push(meta@) =~= metas.take(i + 1));
                assert(start + directory_bytes(metas.take(i as int)) + meta@.bytes() =~= start
                    + (directory_bytes(metas.take(i as int)) + meta@.bytes()));
            }
            i += 1;
        }
        assert(metas.take(i as int) =~= metas);
    }

    /// Reads a directory back: the records that `bytes` spells, or an error
    /// when a record runs past the end of `bytes`.
    pub fn decode_block_meta(bytes: &[u8]) -> (result: Result<Vec<BlockMeta>, DecodeError>)
        ensures
            match result {
                Ok(metas) => parse_directory(bytes@) == Some(metas_view(metas@)),
                Err(e) => e == DecodeError::Truncated && parse_directory(bytes@) is None,
            },
    {
        let len: usize = bytes.len();
        let mut metas: Vec<BlockMeta> = Vec::new();
        let mut pos: usize = 0;
        assert(bytes@.skip(0) =~= bytes@);
        assert(metas_view(metas@) =~= Seq::<BlockMetaView>::empty());
        assert(parse_directory(bytes@) == parsed_then(metas_view(metas@), parse_directory(bytes@)))
            by {
            if let Some(all) = parse_directory(bytes@) {
                assert(Seq::<BlockMetaView>::empty() + all =~= all);
            }
        }
        while pos < len
            invariant
                pos <= len,
                len == bytes@.len(),
                parse_directory(bytes@) == parsed_then(
                    metas_view(metas@),
                    parse_directory(bytes@.skip(pos as int)),
                ),
            decreases len - pos,
        {
            let ghost rest = bytes@.skip(pos as int);
            let ghost parsed = metas_view(metas@);
            if len - pos < 6 {
                return Err(DecodeError::Truncated);
            }
            let offset: u32 = join_u8s_to_u32(
                bytes[pos],
                bytes[pos + 1],
                bytes[pos + 2],
                bytes[pos + 3],
            );
            let first_len: usize = join_u8s_to_u16(bytes[pos + 4], bytes[pos + 5]) as usize;
            assert(first_len == front_first_len(rest));
            if len - pos - 6 < first_len + 2 {
                return Err(DecodeError::Truncated);
            }
            let first_start: usize = pos + 6;
            let last_at: usize = first_start + first_len;
            let last_len: usize = join_u8s_to_u16(bytes[last_at], bytes[last_at + 1]) as usize;
            assert(last_len == front_last_len(rest));
            if len - last_at - 2 < last_len {
                return Err(DecodeError::Truncated);
            }
            let last_start: usize = last_at + 2;
            let end: usize = last_start + last_len;
            let meta = BlockMeta {
                offset: offset as usize,
                first_key: slice_to_vec(slice_subrange(bytes, first_start, last_at)),
                last_key: slice_to_vec(slice_subrange(bytes, last_start, end)),
            };
            proof {
                assert(front_fits(rest));
                assert(offset == u32_at(rest, 0));
                assert(meta@.first_key =~= front_record(rest).first_key);
                assert(meta@.last_key =~= front_record(rest).last_key);
                assert(meta@ == front_record(rest));
                assert(rest.skip(front_len(rest)) =~= bytes@.skip(end as int));
                assert(metas_view(metas@.push(meta)) =~= parsed.push(meta@));
                if let Some(more) = parse_directory(bytes@.skip(end as int)) {
                    assert(parsed + (seq![meta@] + more) =~= parsed.push(meta@) + more);
                }
            }
            metas.push(meta);
            pos = end;
        }
        assert(bytes@.skip(pos as int) =~= Seq::<u8>::empty());
        assert(metas_view(metas@) + Seq::<BlockMetaView>::empty() =~= metas_view(metas@));
        Ok(metas)
    }
}

/// A directory with one more record is the old directory followed by that
/// record.
pub proof fn lemma_directory_bytes_push(metas: Seq<BlockMetaView>, last: BlockMetaView)
    ensures
        directory_bytes(metas.push(last)) == directory_bytes(metas) + last.bytes(),
    decreases metas.len(),
{
    let all = metas.push(last);
    if metas.len() == 0 {
        assert(all.skip(1) =~= Seq::<BlockMetaView>::empty());
        assert(directory_bytes(all.skip(1)) =~= Seq::<u8>::empty());
        assert(all[0] == last);
        assert(directory_bytes(all) =~= last.bytes());
        assert(directory_bytes(metas) + last.bytes() =~= last.bytes());
    } else {
        lemma_directory_bytes_push(metas.skip(1), last);
        assert(all.skip(1) =~= metas.skip(1).push(last));
        assert(metas[0].bytes() + (directory_bytes(metas.skip(1)) + last.bytes())
            =~= metas[0].bytes() + directory_bytes(metas.skip(1)) + last.bytes());
    }
}

/// Where the parts of five sequences laid end to end, and a tail, are found
/// in the whole.
proof fn lemma_parts(a: Seq<u8>, b: Seq<u8>, c: Seq<u8>, d: Seq<u8>, e: Seq<u8>, tail: Seq<u8>)
    ensures
        ({
            let all = a + b + c + d + e + tail;
            let at_b = a.len() as int;
            let at_c = at_b + b.len();
            let at_d = at_c + c.len();
            let at_e = at_d + d.len();
            let at_tail = at_e + e.len();
            &&& all.len() == at_tail + tail.len()
            &&& all.subrange(0, at_b) == a
            &&& all.subrange(at_b, at_c) == b
            &&& all.subrange(at_c, at_d) == c
            &&& all.subrange(at_d, at_e) == d
            &&& all.subrange(at_e, at_tail) == e
            &&& all.skip(at_tail) == tail
        }),
{
    let all = a + b + c + d + e + tail;
    let at_b = a.len() as int;
    let at_c = at_b + b.len();
    let at_d = at_c + c.len();
    let at_e = at_d + d.len();
    let at_tail = at_e + e.len();
    assert(all.subrange(0, at_b) =~= a);
    assert(all.subrange(at_b, at_c) =~= b);
    assert(all.subrange(at_c, at_d) =~= c);
    assert(all.subrange(at_d, at_e) =~= d);
    assert(all.subrange(at_e, at_tail) =~= e);
    assert(all.skip(at_tail) =~= tail);
}

/// A record that fits its fields, followed by anything, reads back as
/// itself and leaves what followed.
pub proof fn lemma_front_record(meta: BlockMetaView, tail: Seq<u8>)
    requires
        meta.fits(),
    ensures
        front_fits(meta.bytes() + tail),
        front_len(meta.bytes() + tail) == meta.bytes().len(),
        front_record(meta.bytes() + tail) == meta,
        (meta.bytes() + tail).skip(meta.bytes().len() as int) == tail,
{
    let bytes = meta.bytes() + tail;
    let k1 = meta.first_key.len() as int;
    let k2 = meta.last_key.len() as int;
    let a = be32(meta.offset as u32);
    let b = be16(k1 as u16);
    let d = be16(k2 as u16);
    lemma_parts(a, b, meta.first_key, d, meta.last_key, tail);
    lemma_be32_inverse(meta.offset as u32);
    lemma_be16_inverse(k1 as u16, 0, 0);
    lemma_be16_inverse(k2 as u16, 0, 0);
    assert(a.len() == 4 && b.len() == 2 && d.len() == 2);
    let head = bytes.subrange(0, 4);
    assert(head[0] == bytes[0] && head[1] == bytes[1] && head[2] == bytes[2] && head[3]
        == bytes[3]);
    assert(u32_at(bytes, 0) == meta.offset);
    let first_len = bytes.subrange(4, 6);
    assert(first_len[0] == bytes[4] && first_len[1] == bytes[5]);
    assert(front_first_len(bytes) == k1);
    let last_len = bytes.subrange(6 + k1, 8 + k1);
    assert(last_len[0] == bytes[6 + k1] && last_len[1] == bytes[7 + k1]);
    assert(front_last_len(bytes) == k2);
}

/// Directory round trip. Reading back an encoded directory gives its
/// records, in order.
pub proof fn lemma_parse_directory_bytes(metas: Seq<BlockMetaView>)
    requires
        forall|i: int| 0 <= i < metas.len() ==> (#[trigger] metas[i]).fits(),
    ensures
        parse_directory(directory_bytes(metas)) == Some(metas),
    decreases metas.len(),
{
    if metas.len() == 0 {
        assert(metas =~= Seq::<BlockMetaView>::empty());
    } else {
        let rest = metas.skip(1);
        assert forall|i: int| 0 <= i < rest.len() implies (#[trigger] rest[i]).fits() by {
            assert(rest[i] == metas[i + 1]);
        }
        lemma_parse_directory_bytes(rest);
        lemma_front_record(metas[0], directory_bytes(rest));
        assert(seq![metas[0]] + rest =~= metas);
    }
}

/// The blocks up to `i`, then block `i`, are the blocks up to `i + 1`.
pub proof fn lemma_take_next(blocks: Seq<Seq<Entry>>, i: int)
    requires
        0 <= i < blocks.len(),
    ensures
        all_entries(blocks.take(i + 1)) == all_entries(blocks.take(i)) + blocks[i],
        blocks_bytes(blocks.take(i + 1)) == blocks_bytes(blocks.take(i)) + block_of(
            blocks[i],
        ).encoding(),
{
    assert(blocks.take(i + 1).drop_last() =~= blocks.take(i));
    assert(blocks.take(i + 1).last() == blocks[i]);
}

/// The entries of the first `i` blocks are the first entries of all, and
/// their encodings the first bytes of the block region.
pub proof fn lemma_take_is_prefix(blocks: Seq<Seq<Entry>>, i: int, j: int)
    requires
        0 <= i <= j <= blocks.len(),
    ensures
        all_entries(blocks.take(i)).len() <= all_entries(blocks.take(j)).len(),
        all_entries(blocks.take(j)).take(all_entries(blocks.take(i)).len() as int) == all_entries(
            blocks.take(i),
        ),
        blocks_bytes(blocks.take(i)).len() <= blocks_bytes(blocks.take(j)).len(),
    decreases j - i,
{
    let short = all_entries(blocks.take(i));
    if i == j {
        assert(short.take(short.len() as int) =~= short);
    } else {
        lemma_take_is_prefix(blocks, i, j - 1);
        lemma_take_next(blocks, j - 1);
        let mid = all_entries(blocks.take(j - 1));
        assert((mid + blocks[j - 1]).take(short.len() as int) =~= mid.take(short.len() as int));
    }
}

/// Entry `k` of block `i` is found, among all entries, after the entries of
/// the blocks before it; and all entries of block `i` come before those of
/// any later block.
pub proof fn lemma_entry_position(blocks: Seq<Seq<Entry>>, i: int, k: int)
    requires
        0 <= i < blocks.len(),
        0 <= k < blocks[i].len(),
    ensures
        all_entries(blocks.take(i)).len() + blocks[i].len() <= all_entries(blocks).len(),
        all_entries(blocks)[all_entries(blocks.take(i)).len() + k] == blocks[i][k],
        forall|j: int|
            i < j <= blocks.len() ==> all_entries(blocks.take(i)).len() + blocks[i].len()
                <= #[trigger] all_entries(blocks.take(j)).len(),
{
    let n = blocks.len() as int;
    let before = all_entries(blocks.take(i));
    assert(blocks.take(n) =~= blocks);
    lemma_take_next(blocks, i);
    lemma_take_is_prefix(blocks, i + 1, n);
    let upto = all_entries(blocks.take(i + 1));
    assert(all_entries(blocks).take(upto.len() as int)[before.len() + k] == (before
        + blocks[i])[before.len() + k]);
    assert forall|j: int| i < j <= blocks.len() implies before.len() + blocks[i].len()
        <= #[trigger] all_entries(blocks.take(j)).len() by {
        lemma_take_is_prefix(blocks, i + 1, j);
    }
}

/// Table assembly, ordered input. When the keys come in order, each block's
/// first key is at most its last, and each block's last key is at most the
/// first key of every later block: the directory's ranges are increasing.
pub proof fn lemma_ranges_increase(blocks: Seq<Seq<Entry>>, i: int, j: int)
    requires
        blocks_ok(blocks),
        keys_sorted(entry_keys(all_entries(blocks))),
        0 <= i < j < blocks.len(),
    ensures
        key_le(blocks_metas(blocks)[i].first_key, blocks_metas(blocks)[i].last_key),
        key_le(blocks_metas(blocks)[i].last_key, blocks_metas(blocks)[j].first_key),
        key_le(blocks_metas(blocks)[j].first_key, blocks_metas(blocks)[j].last_key),
{
    let all = all_entries(blocks);
    let keys = entry_keys(all);
    let at_i = all_entries(blocks.take(i)).len() as int;
    let at_j = all_entries(blocks.take(j)).len() as int;
    let last_i = blocks[i].len() - 1;
    let last_j = blocks[j].len() - 1;
    assert(block_entries_ok(blocks[i]) && block_entries_ok(blocks[j]));
    lemma_entry_position(blocks, i, 0);
    lemma_entry_position(blocks, i, last_i);
    lemma_entry_position(blocks, j, 0);
    lemma_entry_position(blocks, j, last_j);
    assert(keys[at_i] == blocks[i].first().key);
    assert(keys[at_i + last_i] == blocks[i].last().key);
    assert(keys[at_j] == blocks[j].first().key);
    assert(keys[at_j + last_j] == blocks[j].last().key);
    crate::key::lemma_key_lt_irreflexive(keys[at_i]);
    crate::key::lemma_key_lt_irreflexive(keys[at_j]);
}

/// Table assembly, strictly ordered input. When each key is strictly before
/// the next, each block's last key is strictly before the first key of
/// every later block: the directory's ranges are pairwise disjoint.
pub proof fn lemma_ranges_disjoint(blocks: Seq<Seq<Entry>>, i: int, j: int)
    requires
        blocks_ok(blocks),
        keys_strictly_sorted(entry_keys(all_entries(blocks))),
        0 <= i < j < blocks.len(),
    ensures
        key_lt(blocks_metas(blocks)[i].last_key, blocks_metas(blocks)[j].first_key),
{
    let all = all_entries(blocks);
    let keys = entry_keys(all);
    let at_i = all_entries(blocks.take(i)).len() as int;
    let at_j = all_entries(blocks.take(j)).len() as int;
    let last_i = blocks[i].len() - 1;
    assert(block_entries_ok(blocks[i]) && block_entries_ok(blocks[j]));
    lemma_entry_position(blocks, i, last_i);
    lemma_entry_position(blocks, j, 0);
    assert(keys[at_i + last_i] == blocks[i].last().key);
    assert(keys[at_j] == blocks[j].first().key);
}

/// Block range. When the keys come in order, the first and last key of a
/// block's record bound every key in that block.
pub proof fn lemma_block_range(blocks: Seq<Seq<Entry>>, i: int, k: int)
    requires
        blocks_ok(blocks),
        keys_sorted(entry_keys(all_entries(blocks))),
        0 <= i < blocks.len(),
        0 <= k < blocks[i].len(),
    ensures
        key_le(blocks_metas(blocks)[i].first_key, blocks[i][k].key),
        key_le(blocks[i][k].key, blocks_metas(blocks)[i].last_key),
{
    let keys = entry_keys(all_entries(blocks));
    let at_i = all_entries(blocks.take(i)).len() as int;
    let last = blocks[i].len() - 1;
    lemma_entry_position(blocks, i, 0);
    lemma_entry_position(blocks, i, k);
    lemma_entry_position(blocks, i, last);
    assert(keys[at_i] == blocks[i].first().key);
    assert(keys[at_i + k] == blocks[i][k].key);
    assert(keys[at_i + last] == blocks[i].last().key);
    crate::key::lemma_key_lt_irreflexive(keys[at_i + k]);
}

/// Table range. The first key of the first block and the last key of the
/// last block are the first and the last key added; when the keys come in
/// order they bound every key of the table.
pub proof fn lemma_table_range(blocks: Seq<Seq<Entry>>, k: int)
    requires
        blocks_ok(blocks),
        blocks.len() > 0,
        0 <= k < all_entries(blocks).len(),
    ensures
        blocks.first().first() == all_entries(blocks).first(),
        blocks.last().last() == all_entries(blocks).last(),
        keys_sorted(entry_keys(all_entries(blocks))) ==> key_le(
            blocks.first().first().key,
            all_entries(blocks)[k].key,
        ) && key_le(all_entries(blocks)[k].key, blocks.last().last().key),
{
    let all = all_entries(blocks);
    let keys = entry_keys(all);
    let last_block = blocks.len() - 1;
    assert(block_entries_ok(blocks[0]) && block_entries_ok(blocks[last_block]));
    lemma_entry_position(blocks, 0, 0);
    assert(blocks.take(0) =~= Seq::<Seq<Entry>>::empty());
    lemma_entry_position(blocks, last_block, blocks[last_block].len() - 1);
    lemma_take_next(blocks, last_block);
    assert(blocks.take(last_block + 1) =~= blocks);
    if keys_sorted(keys) {
        crate::key::lemma_key_lt_irreflexive(keys[k]);
        assert(keys[0] == all[0].key);
        assert(keys[k] == all[k].key);
        assert(keys[all.len() - 1] == all[all.len() - 1].key);
    }
}

} // verus!
