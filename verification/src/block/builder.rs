//! Packing entries into a block under a byte budget.

use vstd::prelude::*;
use vstd::slice::slice_to_vec;

use crate::block::{block_of, lemma_block_is_its_entries, Block, BlockView};
use crate::layout::{
    entries_bytes, entry_fits, key_at, layout_entries, layout_ok, lemma_append_entry,
    lemma_data_bounded, Entry, ENTRY_OVERHEAD, MAX_FIELD_LEN, MAX_OFFSET, OFFSET_SLOT,
};
use crate::wire::split_u16_to_u8s;

verus! {

/// The size that decides whether one more entry is let into a block that
/// holds `entries`: the data so far, the new entry with its two length
/// prefixes, and one new slot in the offset table.
pub open spec fn projected_size(entries: Seq<Entry>, key: Seq<u8>, value: Seq<u8>) -> int {
    entries_bytes(entries).len() + ENTRY_OVERHEAD + key.len() + value.len() + OFFSET_SLOT
}

/// Whether a block that holds `entries` takes one more under `budget`. The
/// first entry is always taken. A later one is taken when the projected
/// size stays within the budget and the entry's start can still be written
/// as a two-byte offset.
pub open spec fn block_takes(entries: Seq<Entry>, budget: nat, key: Seq<u8>, value: Seq<u8>) -> bool {
    entries.len() == 0 || (projected_size(entries, key, value) <= budget && entries_bytes(
        entries,
    ).len() <= MAX_OFFSET)
}

/// Builds a block, one entry at a time.
pub struct BlockBuilder {
    /// Where each entry starts within `data`.
    offsets: Vec<u16>,
    /// The entries accepted so far, laid out back to back.
    data: Vec<u8>,
    /// The byte budget.
    block_size: usize,
    /// The key of the first entry, empty until there is one.
    first_key: Vec<u8>,
}

impl View for BlockBuilder {
    type V = BlockView;

    /// The block that `build` would return now.
    closed spec fn view(&self) -> BlockView {
        BlockView { data: self.data@, offsets: self.offsets@ }
    }
}

impl BlockBuilder {
    /// The byte budget the builder was made with.
    pub closed spec fn budget(&self) -> nat {
        self.block_size as nat
    }

    /// The entries accepted so far, in the order they were added.
    pub open spec fn entries(&self) -> Seq<Entry> {
        self@.entries()
    }

    /// The block so far is well formed and the first key is on record.
    pub closed spec fn wf(&self) -> bool {
        &&& layout_ok(self.data@, self.offsets@)
        &&& self.first_key@ == if self.offsets@.len() == 0 {
            Seq::<u8>::empty()
        } else {
            key_at(self.data@, 0)
        }
    }

    /// Whether `add` takes the entry now.
    pub open spec fn accepts(&self, key: Seq<u8>, value: Seq<u8>) -> bool {
        block_takes(self.entries(), self.budget(), key, value)
    }

    /// Creates an empty builder with the given byte budget.
    pub fn new(block_size: usize) -> (builder: Self)
        ensures
            builder.wf(),
            builder.budget() == block_size,
            builder@.data == Seq::<u8>::empty(),
            builder@.offsets == Seq::<u16>::empty(),
            builder.entries() == Seq::<Entry>::empty(),
            builder@ == block_of(builder.entries()),
    {
        let builder = Self {
            offsets: Vec::new(),
            data: Vec::new(),
            block_size,
            first_key: Vec::new(),
        };
        assert(builder.entries() =~= Seq::<Entry>::empty());
        proof {
            lemma_block_is_its_entries(builder@);
        }
        builder
    }

    /// Adds a key-value pair to the block. Returns false, and changes
    /// nothing, when the block is full.
    #[must_use]
    pub fn add(&mut self, key: &[u8], value: &[u8]) -> (accepted: bool)
        requires
            old(self).wf(),
            key@.len() <= MAX_FIELD_LEN,
            value@.len() <= MAX_FIELD_LEN,
        ensures
            final(self).wf(),
            final(self).budget() == old(self).budget(),
            accepted == old(self).accepts(key@, value@),
            accepted ==> final(self).entries() == old(self).entries().push(
                Entry { key: key@, value: value@ },
            ),
            final(self)@ == block_of(final(self).entries()),
            !accepted ==> *final(self) == *old(self),
    {
        let ghost entry = Entry { key: key@, value: value@ };
        let ghost old_data = self.data@;
        let ghost old_offsets = self.offsets@;
        proof {
            lemma_before_add(old_data, old_offsets);
        }
        if self.offsets.is_empty() {
            self.first_key = slice_to_vec(key);
        } else {
            let data_length: usize = self.data.len();
            if data_length + ENTRY_OVERHEAD + key.len() + value.len() + OFFSET_SLOT
                > self.block_size {
                return false;
            }
            if data_length > MAX_OFFSET {
                return false;
            }
        }
        append_entry(&mut self.data, &mut self.offsets, key, value);
        proof {
            lemma_after_add(old_data, old_offsets, entry);
        }
        true
    }

    /// Checks whether no key-value pair has been added.
    pub fn is_empty(&self) -> (empty: bool)
        ensures
            empty == (self@.offsets.len() == 0),
            empty == (self.entries().len() == 0),
    {
        self.offsets.is_empty()
    }

    /// Finalizes the block.
    pub fn build(self) -> (block: Block)
        requires
            self.wf(),
        ensures
            block@ == self@,
            block@.wf(),
            block@.entries() == self.entries(),
            block@ == block_of(self.entries()),
    {
        proof {
            lemma_block_is_its_entries(self@);
        }
        Block { data: self.data, offsets: self.offsets }
    }
}

/// Records the current end of `data` as the next offset, then appends the
/// key and the value to `data`, each behind its two-byte length.
fn append_entry(data: &mut Vec<u8>, offsets: &mut Vec<u16>, key: &[u8], value: &[u8])
    requires
        old(data)@.len() <= MAX_OFFSET,
        key@.len() <= MAX_FIELD_LEN,
        value@.len() <= MAX_FIELD_LEN,
    ensures
        final(data)@ == old(data)@ + (Entry { key: key@, value: value@ }).bytes(),
        final(offsets)@ == old(offsets)@.push(old(data)@.len() as u16),
{
    let offset: u16 = data.len() as u16;
    offsets.push(offset);

    let (high, low) = split_u16_to_u8s(key.len() as u16);
    data.push(high);
    data.push(low);
    data.extend_from_slice(key);

    let (high_v, low_v) = split_u16_to_u8s(value.len() as u16);
    data.push(high_v);
    data.push(low_v);
    data.extend_from_slice(value);
    assert(data@ =~= old(data)@ + (Entry { key: key@, value: value@ }).bytes());
}

/// What a well-formed block tells before an entry is added: its data is
/// its entries laid out, is empty when there are none, and is bounded by
/// the reach of the offsets.
proof fn lemma_before_add(data: Seq<u8>, offsets: Seq<u16>)
    requires
        layout_ok(data, offsets),
    ensures
        data == entries_bytes(layout_entries(data, offsets)),
        (BlockView { data, offsets }) == block_of(layout_entries(data, offsets)),
        offsets.len() == 0 ==> data.len() == 0,
        data.len() <= MAX_OFFSET + ENTRY_OVERHEAD + 2 * MAX_FIELD_LEN,
        offsets.len() * 4 <= data.len(),
{
    lemma_block_is_its_entries(BlockView { data, offsets });
    lemma_data_bounded(data, offsets);
}

/// What holds once an entry's bytes and offset have been appended.
proof fn lemma_after_add(data: Seq<u8>, offsets: Seq<u16>, entry: Entry)
    requires
        layout_ok(data, offsets),
        data.len() <= MAX_OFFSET,
        entry.fields_fit(),
    ensures
        ({
            let data2 = data + entry.bytes();
            let offsets2 = offsets.push(data.len() as u16);
            &&& layout_ok(data2, offsets2)
            &&& layout_entries(data2, offsets2) == layout_entries(data, offsets).push(entry)
            &&& (BlockView { data: data2, offsets: offsets2 }) == block_of(
                layout_entries(data2, offsets2),
            )
            &&& key_at(data2, 0) == if offsets.len() == 0 {
                entry.key
            } else {
                key_at(data, 0)
            }
        }),
{
    let data2 = data + entry.bytes();
    let offsets2 = offsets.push(data.len() as u16);
    lemma_append_entry(data, offsets, entry);
    lemma_block_is_its_entries(BlockView { data: data2, offsets: offsets2 });
    if offsets.len() > 0 {
        assert(entry_fits(data, offsets[0] as int));
        assert(key_at(data2, 0) =~= key_at(data, 0));
    } else {
        assert(entry_fits(data2, offsets2[0] as int));
        assert(layout_entries(data2, offsets2)[0] == entry);
    }
}

/// Budget enforcement. A builder that holds an entry takes another exactly
/// when the projected size stays within the budget; an empty builder takes
/// any entry. Left out are the builders whose data has outgrown what a
/// two-byte offset can address while the budget would still admit the entry:
/// those refuse it.
pub proof fn lemma_budget_enforcement(
    entries: Seq<Entry>,
    budget: nat,
    key: Seq<u8>,
    value: Seq<u8>,
)
    requires
        entries_bytes(entries).len() <= MAX_OFFSET || projected_size(entries, key, value) > budget,
    ensures
        entries.len() == 0 ==> block_takes(entries, budget, key, value),
        entries.len() > 0 ==> (block_takes(entries, budget, key, value) <==> projected_size(
            entries,
            key,
            value,
        ) <= budget),
{
}

/// A budget of at most 65,541 bytes never meets the addressing limit: the
/// projected size alone decides.
pub proof fn lemma_small_budget_decides(
    entries: Seq<Entry>,
    budget: nat,
    key: Seq<u8>,
    value: Seq<u8>,
)
    requires
        budget <= MAX_OFFSET + ENTRY_OVERHEAD + OFFSET_SLOT,
    ensures
        block_takes(entries, budget, key, value) <==> entries.len() == 0 || projected_size(
            entries,
            key,
            value,
        ) <= budget,
{
}

} // verus!
