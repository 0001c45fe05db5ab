//! The byte layout of a block, as mathematics.
//!
//! A block keeps its entries back to back in `data`, each as a two-byte key
//! length, the key, a two-byte value length and the value; `offsets` records
//! where each entry starts. Everything here is a statement about a pair of
//! sequences, independent of how a block is stored or built.

use vstd::prelude::*;

use crate::wire::{be16, lemma_be16_inverse, u16_at};

verus! {

/// The longest key or value that a two-byte length prefix can describe.
pub const MAX_FIELD_LEN: usize = 0xffff;

/// The largest entry start that a two-byte offset can record.
pub const MAX_OFFSET: usize = 0xffff;

/// The most entries that the two-byte count of an encoded block can declare.
pub const MAX_ENTRIES: usize = 0xffff;

/// The bytes an entry's two length prefixes take.
pub const ENTRY_OVERHEAD: usize = 4;

/// The bytes one slot of the offset table takes.
pub const OFFSET_SLOT: usize = 2;

/// One key-value pair.
pub struct Entry {
    pub key: Seq<u8>,
    pub value: Seq<u8>,
}

impl Entry {
    /// Both fields are short enough for their length prefixes.
    pub open spec fn fields_fit(self) -> bool {
        self.key.len() <= MAX_FIELD_LEN && self.value.len() <= MAX_FIELD_LEN
    }

    /// The entry as it is laid out in a block's data.
    pub open spec fn bytes(self) -> Seq<u8> {
        be16(self.key.len() as u16) + self.key + be16(self.value.len() as u16) + self.value
    }
}

/// The keys of `entries`, in order.
pub open spec fn entry_keys(entries: Seq<Entry>) -> Seq<Seq<u8>> {
    Seq::new(entries.len(), |i: int| entries[i].key)
}

/// The entries laid out back to back, first to last.
pub open spec fn entries_bytes(entries: Seq<Entry>) -> Seq<u8>
    decreases entries.len(),
{
    if entries.len() == 0 {
        Seq::empty()
    } else {
        entries_bytes(entries.drop_last()) + entries.last().bytes()
    }
}

/// Where the key of the entry starting at `off` ends.
pub open spec fn key_end(data: Seq<u8>, off: int) -> int {
    off + 2 + u16_at(data, off)
}

/// Where the entry starting at `off` ends.
pub open spec fn entry_end(data: Seq<u8>, off: int) -> int {
    key_end(data, off) + 2 + u16_at(data, key_end(data, off))
}

/// An entry starting at `off` lies wholly within `data`.
pub open spec fn entry_fits(data: Seq<u8>, off: int) -> bool {
    &&& 0 <= off
    &&& off + 2 <= data.len()
    &&& key_end(data, off) + 2 <= data.len()
    &&& entry_end(data, off) <= data.len()
}

/// The key of the entry starting at `off`.
pub open spec fn key_at(data: Seq<u8>, off: int) -> Seq<u8> {
    data.subrange(off + 2, key_end(data, off))
}

/// The value of the entry starting at `off`.
pub open spec fn value_at(data: Seq<u8>, off: int) -> Seq<u8> {
    data.subrange(key_end(data, off) + 2, entry_end(data, off))
}

/// The entry starting at `off`.
pub open spec fn entry_at(data: Seq<u8>, off: int) -> Entry {
    Entry { key: key_at(data, off), value: value_at(data, off) }
}

/// The `i`-th entry boundary: the start of entry `i`, or the end of the data
/// once `i` has passed the last entry.
pub open spec fn boundary(data: Seq<u8>, offsets: Seq<u16>, i: int) -> int {
    if i < offsets.len() {
        offsets[i] as int
    } else {
        data.len() as int
    }
}

/// The offsets address the data exactly: the first entry starts at zero,
/// every entry fits, and each ends where the next begins, the last at the end
/// of the data. The count fits the two-byte field that stores it.
pub open spec fn layout_ok(data: Seq<u8>, offsets: Seq<u16>) -> bool {
    &&& offsets.len() <= MAX_ENTRIES
    &&& boundary(data, offsets, 0) == 0
    &&& forall|i: int|
        0 <= i < offsets.len() ==> #[trigger] entry_fits(data, offsets[i] as int) && entry_end(
            data,
            offsets[i] as int,
        ) == boundary(data, offsets, i + 1)
}

/// The entries that the offsets address, in offset order.
pub open spec fn layout_entries(data: Seq<u8>, offsets: Seq<u16>) -> Seq<Entry> {
    Seq::new(offsets.len(), |i: int| entry_at(data, offsets[i] as int))
}

/// Where the `i`-th entry starts when entries are read one after another from
/// the front of `data`; `None` once one of the entries before it fails to fit.
pub open spec fn entry_start(data: Seq<u8>, i: nat) -> Option<int>
    decreases i,
{
    if i == 0 {
        Some(0)
    } else {
        match entry_start(data, (i - 1) as nat) {
            Some(p) => if entry_fits(data, p) {
                Some(entry_end(data, p))
            } else {
                None
            },
            None => None,
        }
    }
}

/// Reading front to back finds the entries exactly where `offsets` says, and
/// ends at the end of the data.
pub open spec fn offsets_match(data: Seq<u8>, offsets: Seq<u16>) -> bool {
    &&& entry_start(data, offsets.len()) == Some(data.len() as int)
    &&& forall|i: int|
        0 <= i < offsets.len() ==> entry_start(data, i as nat) == Some(#[trigger] offsets[i] as int)
}

/// Once reading front to back has failed, it stays failed.
pub proof fn lemma_entry_start_none(data: Seq<u8>, i: nat, j: nat)
    requires
        i <= j,
        entry_start(data, i) is None,
    ensures
        entry_start(data, j) is None,
    decreases j,
{
    if i < j {
        lemma_entry_start_none(data, i, (j - 1) as nat);
    }
}

/// Every entry takes at least its four bytes of length prefixes, so the
/// `i`-th boundary is at least `4 * i`, and boundaries stay within the data.
pub proof fn lemma_boundary_grows(data: Seq<u8>, offsets: Seq<u16>, i: int)
    requires
        layout_ok(data, offsets),
        0 <= i <= offsets.len(),
    ensures
        4 * i <= boundary(data, offsets, i) <= data.len(),
    decreases i,
{
    if i > 0 {
        lemma_boundary_grows(data, offsets, i - 1);
        let off = offsets[i - 1] as int;
        assert(entry_fits(data, off));
        assert(entry_end(data, off) == boundary(data, offsets, i));
    }
}

/// Under a sound layout the data ends with the last entry, which starts
/// within reach of a two-byte offset: the data is empty without entries and
/// never longer than the largest offset plus the longest entry.
pub proof fn lemma_data_bounded(data: Seq<u8>, offsets: Seq<u16>)
    requires
        layout_ok(data, offsets),
    ensures
        offsets.len() == 0 ==> data.len() == 0,
        4 * offsets.len() <= data.len() <= MAX_OFFSET + ENTRY_OVERHEAD + 2 * MAX_FIELD_LEN,
{
    lemma_boundary_grows(data, offsets, offsets.len() as int);
    if offsets.len() > 0 {
        let last = offsets[offsets.len() - 1] as int;
        assert(entry_fits(data, last));
    }
}

/// Under a sound layout, reading front to back meets every boundary.
pub proof fn lemma_layout_walk(data: Seq<u8>, offsets: Seq<u16>, i: nat)
    requires
        layout_ok(data, offsets),
        i <= offsets.len(),
    ensures
        entry_start(data, i) == Some(boundary(data, offsets, i as int)),
    decreases i,
{
    if i > 0 {
        lemma_layout_walk(data, offsets, (i - 1) as nat);
        let off = offsets[i - 1] as int;
        assert(entry_fits(data, off));
    }
}

/// A layout is sound exactly when front-to-back reading agrees with the
/// offsets and the count fits its field.
pub proof fn lemma_layout_ok_iff_offsets_match(data: Seq<u8>, offsets: Seq<u16>)
    ensures
        layout_ok(data, offsets) <==> offsets.len() <= MAX_ENTRIES && offsets_match(data, offsets),
{
    if layout_ok(data, offsets) {
        lemma_layout_walk(data, offsets, offsets.len());
        assert forall|i: int| 0 <= i < offsets.len() implies entry_start(data, i as nat) == Some(
            #[trigger] offsets[i] as int,
        ) by {
            lemma_layout_walk(data, offsets, i as nat);
        }
    }
    if offsets.len() <= MAX_ENTRIES && offsets_match(data, offsets) {
        assert forall|i: int| 0 <= i < offsets.len() implies #[trigger] entry_fits(
            data,
            offsets[i] as int,
        ) && entry_end(data, offsets[i] as int) == boundary(data, offsets, i + 1) by {
            let next = entry_start(data, (i + 1) as nat);
            assert(entry_start(data, i as nat) == Some(offsets[i] as int));
            if i + 1 < offsets.len() {
                assert(next == Some(offsets[i + 1] as int));
            } else {
                assert(next == Some(data.len() as int));
            }
        }
        if offsets.len() > 0 {
            assert(entry_start(data, 0) == Some(offsets[0] as int));
        }
    }
}

/// Appending an entry's bytes to the data, and the old data length to the
/// offsets, keeps the layout sound and adds exactly that entry at the end.
pub proof fn lemma_append_entry(data: Seq<u8>, offsets: Seq<u16>, entry: Entry)
    requires
        layout_ok(data, offsets),
        data.len() <= MAX_OFFSET,
        entry.fields_fit(),
    ensures
        layout_ok(data + entry.bytes(), offsets.push(data.len() as u16)),
        layout_entries(data + entry.bytes(), offsets.push(data.len() as u16)) == layout_entries(
            data,
            offsets,
        ).push(entry),
{
    let n = offsets.len() as int;
    let start = data.len() as int;
    let data2 = data + entry.bytes();
    let offsets2 = offsets.push(start as u16);
    lemma_boundary_grows(data, offsets, n);
    lemma_be16_inverse(entry.key.len() as u16, 0, 0);
    lemma_be16_inverse(entry.value.len() as u16, 0, 0);
    assert(u16_at(data2, start) == entry.key.len());
    assert(key_end(data2, start) == start + 2 + entry.key.len());
    assert(u16_at(data2, key_end(data2, start)) == entry.value.len());
    assert(entry_end(data2, start) == data2.len());
    assert(key_at(data2, start) =~= entry.key);
    assert(value_at(data2, start) =~= entry.value);
    assert forall|i: int| 0 <= i < n implies entry_fits(data2, offsets[i] as int) && entry_end(
        data2,
        offsets[i] as int,
    ) == entry_end(data, offsets[i] as int) && entry_at(data2, offsets[i] as int) == entry_at(
        data,
        offsets[i] as int,
    ) by {
        let off = offsets[i] as int;
        assert(entry_fits(data, off));
        assert(u16_at(data2, off) == u16_at(data, off));
        assert(u16_at(data2, key_end(data, off)) == u16_at(data, key_end(data, off)));
        assert(key_at(data2, off) =~= key_at(data, off));
        assert(value_at(data2, off) =~= value_at(data, off));
    }
    assert forall|i: int| 0 <= i < offsets2.len() implies #[trigger] entry_fits(
        data2,
        offsets2[i] as int,
    ) && entry_end(data2, offsets2[i] as int) == boundary(data2, offsets2, i + 1) by {
        if i < n {
            assert(offsets2[i] == offsets[i]);
            assert(entry_fits(data, offsets[i] as int));
        }
    }
    assert(layout_entries(data2, offsets2) =~= layout_entries(data, offsets).push(entry)) by {
        assert forall|i: int| 0 <= i < n implies layout_entries(data2, offsets2)[i]
            == layout_entries(data, offsets)[i] by {
            assert(offsets2[i] == offsets[i]);
        }
    }
}

/// An entry that fits is spelled by the bytes between its start and its end,
/// and its fields are short enough for their prefixes.
pub proof fn lemma_entry_at_bytes(data: Seq<u8>, off: int)
    requires
        entry_fits(data, off),
    ensures
        entry_at(data, off).fields_fit(),
        entry_at(data, off).bytes() == data.subrange(off, entry_end(data, off)),
{
    let mid = key_end(data, off);
    let entry = entry_at(data, off);
    lemma_be16_inverse(0, data[off], data[off + 1]);
    lemma_be16_inverse(0, data[mid], data[mid + 1]);
    assert(entry.key.len() == u16_at(data, off));
    assert(entry.value.len() == u16_at(data, mid));
    assert(be16(entry.key.len() as u16) =~= data.subrange(off, off + 2));
    assert(be16(entry.value.len() as u16) =~= data.subrange(mid, mid + 2));
    assert(entry.bytes() =~= data.subrange(off, entry_end(data, off)));
}

/// Under a sound layout the first `i` entries, laid out back to back, are
/// the data up to the `i`-th boundary; for `i` the number of entries, all of
/// the data.
pub proof fn lemma_layout_is_entries(data: Seq<u8>, offsets: Seq<u16>, i: int)
    requires
        layout_ok(data, offsets),
        0 <= i <= offsets.len(),
    ensures
        entries_bytes(layout_entries(data, offsets).take(i)) == data.subrange(
            0,
            boundary(data, offsets, i),
        ),
    decreases i,
{
    let entries = layout_entries(data, offsets);
    lemma_boundary_grows(data, offsets, i);
    if i == 0 {
        assert(entries.take(0) =~= Seq::<Entry>::empty());
        assert(data.subrange(0, 0) =~= Seq::<u8>::empty());
    } else {
        lemma_layout_is_entries(data, offsets, i - 1);
        lemma_boundary_grows(data, offsets, i - 1);
        let off = offsets[i - 1] as int;
        let end = entry_end(data, off);
        assert(entry_fits(data, off));
        assert(end == boundary(data, offsets, i));
        lemma_entry_at_bytes(data, off);
        assert(entries.take(i).drop_last() =~= entries.take(i - 1));
        assert(entries.take(i).last() == entry_at(data, off));
        assert(data.subrange(0, off) + data.subrange(off, end) =~= data.subrange(0, end));
    }
}

} // verus!
