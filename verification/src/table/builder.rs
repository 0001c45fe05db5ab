//! Cutting a sorted stream of entries into blocks and laying out the table.

use vstd::prelude::*;
use vstd::slice::slice_to_vec;

use crate::block::builder::block_takes;
use crate::block::{block_of, lemma_block_is_its_entries, BlockBuilder};
use crate::buffer::{bytes_to_vec, vec_put_u32};
use crate::layout::{Entry, MAX_FIELD_LEN};
use crate::table::{
    all_entries, block_entries_ok, blocks_bytes, blocks_metas, blocks_ok, lemma_take_is_prefix,
    meta_of, metas_view, table_bytes, BlockMeta, BlockMetaView, SsTable,
    MAX_BLOCK_OFFSET,
};

verus! {

/// Why a table could not be built.
#[derive(Debug, Clone, Copy, PartialEq, Eq)]
pub enum BuildError {
    /// No entry was ever added: there is nothing to build a table from.
    Empty,
    /// The blocks take more bytes than a four-byte position can address.
    TooLarge,
}

/// Builds a table from key-value pairs added in key order.
pub struct SsTableBuilder {
    /// The block that is being filled.
    builder: BlockBuilder,
    /// The first key of the block being filled; empty while it is empty.
    first_key: Vec<u8>,
    /// The last key of the block being filled; empty while it is empty.
    last_key: Vec<u8>,
    /// The finished blocks, encoded, back to back.
    data: Vec<u8>,
    /// One record per finished block.
    meta: Vec<BlockMeta>,
    /// The byte budget of each block.
    block_size: usize,
    /// The entries of each finished block.
    blocks: Ghost<Seq<Seq<Entry>>>,
}

impl SsTableBuilder {
    /// The entries of the finished blocks, block by block.
    pub closed spec fn finished(&self) -> Seq<Seq<Entry>> {
        self.blocks@
    }

    /// The entries of the block that is being filled.
    pub closed spec fn open(&self) -> Seq<Entry> {
        self.builder.entries()
    }

    /// The byte budget of each block.
    pub closed spec fn budget(&self) -> nat {
        self.block_size as nat
    }

    /// All entries added so far, in the order they were added.
    pub open spec fn entries(&self) -> Seq<Entry> {
        all_entries(self.finished()) + self.open()
    }

    /// The blocks of the table that `build` would lay out now.
    pub open spec fn blocks(&self) -> Seq<Seq<Entry>> {
        self.finished().push(self.open())
    }

    /// The concrete state stands for the finished blocks and the open one.
    closed spec fn inv(&self) -> bool {
        &&& self.builder.wf()
        &&& self.builder.budget() == self.block_size
        &&& self.builder@ == block_of(self.builder.entries())
        &&& blocks_ok(self.blocks@)
        &&& self.data@ == blocks_bytes(self.blocks@)
        &&& metas_view(self.meta@) == blocks_metas(self.blocks@)
        &&& self.first_key@ == if self.open().len() == 0 {
            Seq::<u8>::empty()
        } else {
            self.open().first().key
        }
        &&& self.last_key@ == if self.open().len() == 0 {
            Seq::<u8>::empty()
        } else {
            self.open().last().key
        }
    }

    /// The builder is consistent, and unless nothing was ever added the
    /// open block holds an entry.
    pub closed spec fn wf(&self) -> bool {
        &&& self.inv()
        &&& self.blocks@.len() > 0 ==> self.open().len() > 0
    }

    /// Creates a builder whose blocks each get the given byte budget.
    pub fn new(block_size: usize) -> (builder: Self)
        ensures
            builder.wf(),
            builder.budget() == block_size,
            builder.finished() == Seq::<Seq<Entry>>::empty(),
            builder.open() == Seq::<Entry>::empty(),
    {
        let builder = Self {
            builder: BlockBuilder::new(block_size),
            first_key: Vec::new(),
            last_key: Vec::new(),
            data: Vec::new(),
            meta: Vec::new(),
            block_size,
            blocks: Ghost(Seq::empty()),
        };
        assert(metas_view(builder.meta@) =~= blocks_metas(builder.blocks@));
        builder
    }

    /// Finishes the open block: encodes it after the finished ones, records
    /// where it starts and its key range, and opens an empty block.
    fn replace_block_builder(&mut self)
        requires
            old(self).inv(),
            old(self).open().len() > 0,
        ensures
            final(self).inv(),
            final(self).budget() == old(self).budget(),
            final(self).finished() == old(self).finished().push(old(self).open()),
            final(self).open() == Seq::<Entry>::empty(),
    {
        let ghost blocks = self.blocks@;
        let ghost open = self.open();
        let mut old_builder = BlockBuilder::new(self.block_size);
        std::mem::swap(&mut self.builder, &mut old_builder);
        let block = old_builder.build();
        let mut first_key: Vec<u8> = Vec::new();
        std::mem::swap(&mut self.first_key, &mut first_key);
        let mut last_key: Vec<u8> = Vec::new();
        std::mem::swap(&mut self.last_key, &mut last_key);
        let meta = BlockMeta { offset: self.data.len(), first_key, last_key };
        let encoded = bytes_to_vec(&block.encode());
        proof {
            lemma_block_is_its_entries(block@);
            lemma_push_block(blocks, open);
            assert(meta@ == meta_of(blocks.push(open), blocks.len() as int));
            assert(metas_view(self.meta@.push(meta)) =~= metas_view(self.meta@).push(meta@));
        }
        self.meta.push(meta);
        self.data.extend_from_slice(encoded.as_slice());
        proof {
            self.blocks = Ghost(blocks.push(open));
            assert(self.data@ =~= blocks_bytes(blocks) + block_of(open).encoding());
        }
    }

    /// Adds a key-value pair to the table. When the open block is full it
    /// is finished first, and the pair starts the next block.
    pub fn add(&mut self, key: &[u8], value: &[u8])
        requires
            old(self).wf(),
            key@.len() <= MAX_FIELD_LEN,
            value@.len() <= MAX_FIELD_LEN,
        ensures
            final(self).wf(),
            final(self).budget() == old(self).budget(),
            final(self).entries() == old(self).entries().push(Entry { key: key@, value: value@ }),
            block_takes(old(self).open(), old(self).budget(), key@, value@) ==> {
                &&& final(self).finished() == old(self).finished()
                &&& final(self).open() == old(self).open().push(Entry { key: key@, value: value@ })
            },
            !block_takes(old(self).open(), old(self).budget(), key@, value@) ==> {
                &&& final(self).finished() == old(self).finished().push(old(self).open())
                &&& final(self).open() == seq![Entry { key: key@, value: value@ }]
            },
    {
        let ghost entry = Entry { key: key@, value: value@ };
        let ghost blocks = self.blocks@;
        let ghost open = self.open();
        let mut fresh: bool = self.builder.is_empty();
        let inserted: bool = self.builder.add(key, value);
        if !inserted {
            self.replace_block_builder();
            let again: bool = self.builder.add(key, value);
            assert(again);
            fresh = true;
            proof {
                lemma_push_block(blocks, open);
                assert(Seq::<Entry>::empty().push(entry) =~= seq![entry]);
                assert(all_entries(blocks) + open + seq![entry] =~= (all_entries(blocks)
                    + open).push(entry));
            }
        } else {
            assert(all_entries(blocks) + open.push(entry) =~= (all_entries(blocks) + open).push(
                entry,
            ));
        }
        if fresh {
            self.first_key = slice_to_vec(key);
        }
        self.last_key = slice_to_vec(key);
    }

    /// The bytes of the blocks finished so far; the open block is not
    /// counted.
    pub fn estimated_size(&self) -> (size: usize)
        requires
            self.wf(),
        ensures
            size == blocks_bytes(self.finished()).len(),
    {
        self.data.len()
    }

    /// Finishes the open block and lays out the table: the blocks, the
    /// directory, and the position of the directory.
    pub fn build(self, id: usize) -> (result: Result<SsTable, BuildError>)
        requires
            self.wf(),
        ensures
            match result {
                Ok(table) => {
                    &&& self.entries().len() > 0
                    &&& blocks_ok(self.blocks())
                    &&& all_entries(self.blocks()) == self.entries()
                    &&& blocks_bytes(self.blocks()).len() <= MAX_BLOCK_OFFSET
                    &&& table.data@ == table_bytes(self.blocks())
                    &&& metas_view(table.block_meta@) == blocks_metas(self.blocks())
                    &&& table.block_meta_offset == blocks_bytes(self.blocks()).len()
                    &&& table.id == id
                    &&& table.first_key@ == self.entries().first().key
                    &&& table.last_key@ == self.entries().last().key
                },
                Err(BuildError::Empty) => self.entries().len() == 0,
                Err(BuildError::TooLarge) => {
                    &&& self.entries().len() > 0
                    &&& blocks_bytes(self.blocks()).len() > MAX_BLOCK_OFFSET
                },
            },
    {
        let ghost finished = self.finished();
        let ghost open = self.open();
        let ghost blocks = self.blocks();
        let mut this = self;
        if this.builder.is_empty() {
            assert(all_entries(finished) + open =~= Seq::<Entry>::empty());
            return Err(BuildError::Empty);
        }
        this.replace_block_builder();
        let meta_offset: usize = this.data.len();
        if meta_offset > MAX_BLOCK_OFFSET {
            return Err(BuildError::TooLarge);
        }
        proof {
            lemma_build_facts(finished, open, metas_view(this.meta@));
        }
        let count: usize = this.meta.len();
        let sst_first_key: Vec<u8> = slice_to_vec(this.meta[0].first_key.as_slice());
        let sst_last_key: Vec<u8> = slice_to_vec(this.meta[count - 1].last_key.as_slice());
        let mut final_data: Vec<u8> = this.data;
        assert forall|i: int| 0 <= i < this.meta@.len() implies (#[trigger] this.meta@[i])@.fits() by {
            assert(this.meta@[i]@ == metas_view(this.meta@)[i]);
        }
        BlockMeta::encode_block_meta(this.meta.as_slice(), &mut final_data);
        vec_put_u32(&mut final_data, meta_offset as u32);
        Ok(
            SsTable {
                data: final_data,
                block_meta: this.meta,
                block_meta_offset: meta_offset,
                id,
                first_key: sst_first_key,
                last_key: sst_last_key,
            },
        )
    }
}

/// What `build` relies on once the last block is finished: the directory
/// has a record per block, each fits its fields, and the first and last
/// record hold the first and last key added.
proof fn lemma_build_facts(
    finished: Seq<Seq<Entry>>,
    open: Seq<Entry>,
    metas: Seq<BlockMetaView>,
)
    requires
        blocks_ok(finished.push(open)),
        blocks_bytes(finished.push(open)).len() <= MAX_BLOCK_OFFSET,
        metas == blocks_metas(finished.push(open)),
    ensures
        metas.len() == finished.len() + 1,
        forall|i: int| 0 <= i < metas.len() ==> (#[trigger] metas[i]).fits(),
        (all_entries(finished) + open).len() > 0,
        all_entries(finished.push(open)) == all_entries(finished) + open,
        metas.first().first_key == (all_entries(finished) + open).first().key,
        metas.last().last_key == (all_entries(finished) + open).last().key,
{
    let blocks = finished.push(open);
    lemma_metas_fit(blocks);
    lemma_push_block(finished, open);
    assert(block_entries_ok(blocks[finished.len() as int]));
    crate::table::lemma_table_range(blocks, 0);
}

/// What one more block adds: its entries after all entries, its encoding
/// after the block region, and its record after the directory, which is
/// otherwise unchanged.
proof fn lemma_push_block(blocks: Seq<Seq<Entry>>, last: Seq<Entry>)
    ensures
        all_entries(blocks.push(last)) == all_entries(blocks) + last,
        blocks_bytes(blocks.push(last)) == blocks_bytes(blocks) + block_of(last).encoding(),
        blocks_metas(blocks.push(last)) == blocks_metas(blocks).push(
            meta_of(blocks.push(last), blocks.len() as int),
        ),
        meta_of(blocks.push(last), blocks.len() as int).offset == blocks_bytes(blocks).len(),
        blocks_ok(blocks) && block_entries_ok(last) ==> blocks_ok(blocks.push(last)),
{
    let all = blocks.push(last);
    assert(all.drop_last() =~= blocks);
    assert(all.take(blocks.len() as int) =~= blocks);
    assert forall|i: int| 0 <= i < blocks.len() implies meta_of(all, i) == meta_of(blocks, i) by {
        assert(all.take(i) =~= blocks.take(i));
    }
    assert(blocks_metas(all) =~= blocks_metas(blocks).push(meta_of(all, blocks.len() as int)));
}

/// Every record of the directory fits its fields once the block region can
/// be addressed by four bytes.
proof fn lemma_metas_fit(blocks: Seq<Seq<Entry>>)
    requires
        blocks_ok(blocks),
        blocks_bytes(blocks).len() <= MAX_BLOCK_OFFSET,
    ensures
        forall|i: int| 0 <= i < blocks.len() ==> (#[trigger] blocks_metas(blocks)[i]).fits(),
{
    let n = blocks.len() as int;
    assert(blocks.take(n) =~= blocks);
    assert forall|i: int| 0 <= i < n implies (#[trigger] blocks_metas(blocks)[i]).fits() by {
        lemma_take_is_prefix(blocks, i, n);
        assert(block_entries_ok(blocks[i]));
    }
}

} // verus!
