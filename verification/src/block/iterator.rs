//! A cursor over the entries of one block.

use std::sync::Arc;
use vstd::prelude::*;
use vstd::slice::{slice_subrange, slice_to_vec};

use crate::block::{Block, BlockView};
use crate::key::{key_le, key_less, key_lt, keys_sorted, lemma_key_le_transitive};
use crate::layout::{entry_fits, entry_keys, key_at, Entry};
use crate::wire::join_u8s_to_u16;

verus! {

/// Iterates on a block.
pub struct BlockIterator {
    /// The block that is read.
    block: Arc<Block>,
    /// The key of the current entry; empty when the iterator is invalid.
    key: Vec<u8>,
    /// The index of the current entry; the number of entries once exhausted.
    idx: usize,
}

/// The index that `next` moves to from `index` in a block of `len` entries.
pub open spec fn advance(len: nat, index: nat) -> nat {
    if index < len {
        index + 1
    } else {
        index
    }
}

/// The entries that a reader sees who, starting at `index`, takes the
/// current entry and moves on until the iterator is no longer valid.
pub open spec fn scan(entries: Seq<Entry>, index: nat) -> Seq<Entry>
    decreases entries.len() - index,
{
    if index < entries.len() {
        seq![entries[index as int]] + scan(entries, advance(entries.len(), index))
    } else {
        Seq::empty()
    }
}

/// `index` is where a seek for `key` comes to rest: every entry before it
/// has a smaller key, and the entry at it, if there is one, does not.
pub open spec fn is_seek_position(entries: Seq<Entry>, key: Seq<u8>, index: nat) -> bool {
    &&& index <= entries.len()
    &&& forall|j: int| 0 <= j < index ==> key_lt((#[trigger] entries[j]).key, key)
    &&& index < entries.len() ==> key_le(key, entries[index as int].key)
}

impl BlockIterator {
    /// The block that is read.
    pub closed spec fn block(&self) -> BlockView {
        self.block@
    }

    /// The index of the current entry; the number of entries once exhausted.
    pub closed spec fn index(&self) -> nat {
        self.idx as nat
    }

    /// The key that `key` hands out.
    pub closed spec fn cached_key(&self) -> Seq<u8> {
        self.key@
    }

    /// The entries of the block, in stored order.
    pub open spec fn entries(&self) -> Seq<Entry> {
        self.block().entries()
    }

    /// The iterator stands on an entry.
    pub open spec fn valid(&self) -> bool {
        self.index() < self.entries().len()
    }

    /// The block is well formed, the index is within it or just past its
    /// end, and the cached key is the current entry's.
    pub open spec fn wf(&self) -> bool {
        &&& self.block().wf()
        &&& self.index() <= self.entries().len()
        &&& self.cached_key() == if self.valid() {
            self.entries()[self.index() as int].key
        } else {
            Seq::<u8>::empty()
        }
    }

    fn new(block: Arc<Block>) -> (iter: Self)
        ensures
            iter.block() == block@,
            iter.index() == 0,
            iter.cached_key() == Seq::<u8>::empty(),
    {
        Self { block, key: Vec::new(), idx: 0 }
    }

    /// Creates a block iterator and seeks to the first entry.
    pub fn create_and_seek_to_first(block: Arc<Block>) -> (iter: Self)
        requires
            block@.wf(),
        ensures
            iter.wf(),
            iter.block() == block@,
            iter.index() == 0,
    {
        let mut iterator = Self::new(block);
        iterator.seek_to_first();
        iterator
    }

    /// Creates a block iterator and seeks to the first key that is at least
    /// `key`.
    pub fn create_and_seek_to_key(block: Arc<Block>, key: &[u8]) -> (iter: Self)
        requires
            block@.wf(),
        ensures
            iter.wf(),
            iter.block() == block@,
            is_seek_position(iter.entries(), key@, iter.index()),
    {
        let mut iterator = Self::new(block);
        iterator.seek_to_key(key);
        iterator
    }

    /// Returns the key of the current entry; the empty key when the
    /// iterator is invalid.
    pub fn key(&self) -> (key: &[u8])
        ensures
            key@ == self.cached_key(),
            self.wf() && self.valid() ==> key@ == self.entries()[self.index() as int].key,
            self.wf() && !self.valid() ==> key@ == Seq::<u8>::empty(),
    {
        self.key.as_slice()
    }

    /// Returns the value of the current entry, read from the block's data.
    pub fn value(&self) -> (value: &[u8])
        requires
            self.wf(),
            self.valid(),
        ensures
            value@ == self.entries()[self.index() as int].value,
    {
        let start: usize = self.block.offsets[self.idx] as usize;
        assert(entry_fits(self.block@.data, start as int));
        let kl_high: u8 = self.block.data[start];
        let kl_low: u8 = self.block.data[start + 1];
        let kl: usize = join_u8s_to_u16(kl_high, kl_low) as usize;
        let length_at: usize = start + 2 + kl;

        let vl_high: u8 = self.block.data[length_at];
        let vl_low: u8 = self.block.data[length_at + 1];
        let vl: usize = join_u8s_to_u16(vl_high, vl_low) as usize;
        let start_idx: usize = length_at + 2;
        let end_idx: usize = start_idx + vl;
        slice_subrange(self.block.data.as_slice(), start_idx, end_idx)
    }

    /// Returns true if the iterator stands on an entry.
    pub fn is_valid(&self) -> (valid: bool)
        ensures
            valid == self.valid(),
    {
        self.idx < self.block.offsets.len()
    }

    fn extract_key(&self, start_idx: usize) -> (key: Vec<u8>)
        requires
            entry_fits(self.block().data, start_idx as int),
        ensures
            key@ == key_at(self.block().data, start_idx as int),
    {
        assert(self.block().data == self.block.data@);
        assert(start_idx + 2 <= self.block.data.len());
        let kl_high: u8 = self.block.data[start_idx];
        let kl_low: u8 = self.block.data[start_idx + 1];
        let kl: usize = join_u8s_to_u16(kl_high, kl_low) as usize;
        let start: usize = start_idx + 2;
        let end_idx: usize = start + kl;
        slice_to_vec(slice_subrange(self.block.data.as_slice(), start, end_idx))
    }

    /// Seeks to the first entry in the block.
    pub fn seek_to_first(&mut self)
        requires
            old(self).block().wf(),
        ensures
            final(self).wf(),
            final(self).block() == old(self).block(),
            final(self).index() == 0,
    {
        self.idx = 0;
        if self.block.offsets.len() == 0 {
            self.key = Vec::new();
        } else {
            let start: usize = self.block.offsets[0] as usize;
            assert(entry_fits(self.block@.data, start as int));
            self.key = self.extract_key(start);
        }
    }

    /// Moves to the next entry in the block; does nothing once the iterator
    /// is invalid.
    pub fn next(&mut self)
        requires
            old(self).wf(),
        ensures
            final(self).wf(),
            final(self).block() == old(self).block(),
            final(self).index() == advance(old(self).entries().len(), old(self).index()),
    {
        if !self.is_valid() {
            return ;
        }
        self.idx += 1;
        if self.idx < self.block.offsets.len() {
            let start: usize = self.block.offsets[self.idx] as usize;
            assert(entry_fits(self.block@.data, start as int));
            self.key = self.extract_key(start);
        } else {
            self.key = Vec::new();
        }
    }

    /// Seeks to the first entry whose key is at least `key`; the iterator is
    /// invalid afterwards if there is none.
    pub fn seek_to_key(&mut self, key: &[u8])
        requires
            old(self).block().wf(),
        ensures
            final(self).wf(),
            final(self).block() == old(self).block(),
            is_seek_position(final(self).entries(), key@, final(self).index()),
    {
        self.seek_to_first();
        while self.is_valid() && key_less(self.key(), key)
            invariant
                self.wf(),
                self.block() == old(self).block(),
                forall|j: int|
                    0 <= j < self.index() ==> key_lt((#[trigger] self.entries()[j]).key, key@),
            decreases self.entries().len() - self.index(),
        {
            self.next();
        }
    }
}

/// Reading from `index` on visits the entries from `index` to the end, each
/// once, in stored order.
pub proof fn lemma_scan_is_suffix(entries: Seq<Entry>, index: nat)
    requires
        index <= entries.len(),
    ensures
        scan(entries, index) == entries.skip(index as int),
    decreases entries.len() - index,
{
    if index < entries.len() {
        lemma_scan_is_suffix(entries, index + 1);
        assert(seq![entries[index as int]] + entries.skip(index as int + 1) =~= entries.skip(
            index as int,
        ));
    } else {
        assert(entries.skip(index as int) =~= Seq::<Entry>::empty());
    }
}

/// A full scan, from the first entry until the iterator turns invalid,
/// visits every entry of the block exactly once, the last one included, in
/// the order in which the entries are stored.
pub proof fn lemma_full_scan(block: BlockView)
    ensures
        scan(block.entries(), 0) == block.entries(),
        scan(block.entries(), 0).len() == block.offsets.len(),
{
    lemma_scan_is_suffix(block.entries(), 0);
    assert(block.entries().skip(0) =~= block.entries());
}

/// A seek for a key that no stored key is smaller than comes to rest on the
/// first entry.
pub proof fn lemma_seek_below_first(entries: Seq<Entry>, key: Seq<u8>, index: nat)
    requires
        entries.len() > 0,
        key_le(key, entries[0].key),
        is_seek_position(entries, key, index),
    ensures
        index == 0,
{
    if index > 0 {
        assert(key_lt(entries[0].key, key));
    }
}

/// A seek for a key larger than every stored key leaves the iterator
/// invalid.
pub proof fn lemma_seek_above_all(entries: Seq<Entry>, key: Seq<u8>, index: nat)
    requires
        forall|j: int| 0 <= j < entries.len() ==> key_lt((#[trigger] entries[j]).key, key),
        is_seek_position(entries, key, index),
    ensures
        index == entries.len(),
{
    if index < entries.len() {
        assert(key_lt(entries[index as int].key, key));
    }
}

/// In a block whose keys are in order, a seek splits the entries: those
/// before the resting place have smaller keys, and all from it on have keys
/// that are at least the one sought.
pub proof fn lemma_seek_splits_sorted(entries: Seq<Entry>, key: Seq<u8>, index: nat, j: int)
    requires
        keys_sorted(entry_keys(entries)),
        is_seek_position(entries, key, index),
        index <= j < entries.len(),
    ensures
        key_le(key, entries[j].key),
{
    let keys = entry_keys(entries);
    if index < j {
        assert(key_le(keys[index as int], keys[j]));
        lemma_key_le_transitive(key, entries[index as int].key, entries[j].key);
    }
}

/// A seek comes to rest at one index only.
pub proof fn lemma_seek_position_unique(entries: Seq<Entry>, key: Seq<u8>, a: nat, b: nat)
    requires
        is_seek_position(entries, key, a),
        is_seek_position(entries, key, b),
    ensures
        a == b,
{
    if a < b {
        assert(key_lt(entries[a as int].key, key));
    }
    if b < a {
        assert(key_lt(entries[b as int].key, key));
    }
}

} // verus!
