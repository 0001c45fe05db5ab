use std::sync::Arc;

use mini_lsm::block::{Block, BlockIterator, DecodeError};
use mini_lsm::table::builder::BuildError;
use mini_lsm::table::{BlockMeta, SsTable, SsTableBuilder};

fn key_of(i: usize) -> Vec<u8> {
    format!("key_{:03}", i).into_bytes()
}

fn value_of(i: usize) -> Vec<u8> {
    format!("value_{:010}", i).into_bytes()
}

fn table_of(count: usize, block_size: usize) -> SsTable {
    let mut builder = SsTableBuilder::new(block_size);
    for i in 0..count {
        builder.add(&key_of(i), &value_of(i));
    }
    builder.build(7).unwrap()
}

fn block_bytes(table: &SsTable, index: usize) -> &[u8] {
    let start = table.block_meta[index].offset;
    let end = match table.block_meta.get(index + 1) {
        Some(next) => next.offset,
        None => table.block_meta_offset,
    };
    &table.data[start..end]
}

#[test]
fn build_without_entries_fails() {
    let builder = SsTableBuilder::new(16);
    assert_eq!(builder.build(0), Err(BuildError::Empty));
}

#[test]
fn single_entry_table_is_laid_out_exactly() {
    let mut builder = SsTableBuilder::new(16);
    builder.add(b"a", b"1");
    let table = builder.build(3).unwrap();
    let expected: Vec<u8> = vec![
        0, 1, b'a', 0, 1, b'1', // the entry
        0, 0, // its offset
        0, 1, // the entry count
        0, 0, 0, 0, // directory: the block's offset
        0, 1, b'a', // first key
        0, 1, b'a', // last key
        0, 0, 0, 10, // where the directory starts
    ];
    assert_eq!(table.data, expected);
    assert_eq!(table.block_meta_offset, 10);
    assert_eq!(table.id, 3);
    assert_eq!(table.first_key, b"a");
    assert_eq!(table.last_key, b"a");
    assert_eq!(
        table.block_meta,
        vec![BlockMeta { offset: 0, first_key: b"a".to_vec(), last_key: b"a".to_vec() }]
    );
}

#[test]
fn small_budget_yields_several_blocks() {
    let table = table_of(100, 64);
    assert!(table.block_meta.len() > 1);
    // An entry takes 4 + 7 + 16 = 27 bytes; two make 54 and a third would
    // project to 54 + 27 + 2 > 64: two entries per block.
    assert_eq!(table.block_meta.len(), 50);
    for (index, meta) in table.block_meta.iter().enumerate() {
        assert_eq!(meta.first_key, key_of(2 * index));
        assert_eq!(meta.last_key, key_of(2 * index + 1));
        assert_eq!(meta.offset, index * 60);
    }
}

#[test]
fn block_ranges_are_disjoint_and_increasing() {
    let table = table_of(257, 100);
    assert!(table.block_meta.len() > 1);
    for meta in &table.block_meta {
        assert!(meta.first_key <= meta.last_key);
    }
    for pair in table.block_meta.windows(2) {
        assert!(pair[0].last_key < pair[1].first_key);
        assert!(pair[0].offset < pair[1].offset);
    }
}

#[test]
fn table_range_is_the_first_and_last_key_added() {
    let table = table_of(257, 100);
    assert_eq!(table.first_key, key_of(0));
    assert_eq!(table.last_key, key_of(256));
    assert_eq!(table.first_key, table.block_meta[0].first_key);
    assert_eq!(table.last_key, table.block_meta.last().unwrap().last_key);
}

#[test]
fn table_ends_with_the_directory_position() {
    let table = table_of(100, 64);
    let len = table.data.len();
    let pointer = u32::from_be_bytes([
        table.data[len - 4],
        table.data[len - 3],
        table.data[len - 2],
        table.data[len - 1],
    ]);
    assert_eq!(pointer as usize, table.block_meta_offset);
    assert_eq!(table.block_meta_offset, 50 * 60);
}

#[test]
fn directory_reads_back_from_the_table() {
    let table = table_of(100, 64);
    let directory = &table.data[table.block_meta_offset..table.data.len() - 4];
    assert_eq!(BlockMeta::decode_block_meta(directory), Ok(table.block_meta.clone()));
}

#[test]
fn blocks_read_back_from_the_table() {
    let table = table_of(101, 200);
    let mut next = 0;
    for index in 0..table.block_meta.len() {
        let block = Arc::new(Block::decode(block_bytes(&table, index)).unwrap());
        let mut iter = BlockIterator::create_and_seek_to_first(block);
        assert_eq!(iter.key(), &table.block_meta[index].first_key[..]);
        let mut last = Vec::new();
        while iter.is_valid() {
            assert_eq!(iter.key(), &key_of(next)[..]);
            assert_eq!(iter.value(), &value_of(next)[..]);
            last = iter.key().to_vec();
            next += 1;
            iter.next();
        }
        assert_eq!(last, table.block_meta[index].last_key);
    }
    assert_eq!(next, 101);
}

#[test]
fn estimated_size_counts_finished_blocks_only() {
    let mut builder = SsTableBuilder::new(64);
    assert_eq!(builder.estimated_size(), 0);
    builder.add(&key_of(0), &value_of(0));
    builder.add(&key_of(1), &value_of(1));
    assert_eq!(builder.estimated_size(), 0);
    builder.add(&key_of(2), &value_of(2));
    // Two entries of 27 bytes, two offsets, the count.
    assert_eq!(builder.estimated_size(), 60);
    builder.add(&key_of(3), &value_of(3));
    assert_eq!(builder.estimated_size(), 60);
    builder.add(&key_of(4), &value_of(4));
    assert_eq!(builder.estimated_size(), 120);
}

#[test]
fn oversized_entry_gets_a_block_of_its_own() {
    let mut builder = SsTableBuilder::new(32);
    builder.add(b"a", b"1");
    builder.add(b"b", &[b'x'; 500]);
    builder.add(b"c", b"3");
    let table = builder.build(0).unwrap();
    assert_eq!(table.block_meta.len(), 3);
    assert_eq!(table.block_meta[1].first_key, b"b");
    assert_eq!(table.block_meta[1].last_key, b"b");
    let block = Arc::new(Block::decode(block_bytes(&table, 1)).unwrap());
    let iter = BlockIterator::create_and_seek_to_first(block);
    assert_eq!(iter.value(), &[b'x'; 500][..]);
}

#[test]
fn empty_first_key_is_kept_as_the_range_start() {
    let mut builder = SsTableBuilder::new(4096);
    builder.add(b"", b"0");
    builder.add(b"a", b"1");
    builder.add(b"b", b"2");
    let table = builder.build(0).unwrap();
    assert_eq!(table.block_meta.len(), 1);
    assert_eq!(table.first_key, b"");
    assert_eq!(table.block_meta[0].first_key, b"");
    assert_eq!(table.last_key, b"b");
}

#[test]
fn duplicate_keys_may_straddle_blocks() {
    let mut builder = SsTableBuilder::new(16);
    builder.add(b"k", b"1");
    builder.add(b"k", b"2");
    builder.add(b"k", b"3");
    let table = builder.build(0).unwrap();
    assert!(table.block_meta.len() > 1);
    for pair in table.block_meta.windows(2) {
        assert!(pair[0].last_key <= pair[1].first_key);
    }
}

#[test]
fn directory_record_is_offset_then_keys() {
    let metas = vec![
        BlockMeta { offset: 0, first_key: b"a".to_vec(), last_key: b"bc".to_vec() },
        BlockMeta { offset: 0x0102_0304, first_key: Vec::new(), last_key: b"z".to_vec() },
    ];
    let mut buf = vec![0xee];
    BlockMeta::encode_block_meta(&metas, &mut buf);
    let expected: Vec<u8> = vec![
        0xee, // what was there before
        0, 0, 0, 0, 0, 1, b'a', 0, 2, b'b', b'c', // first record
        1, 2, 3, 4, 0, 0, 0, 1, b'z', // second record
    ];
    assert_eq!(buf, expected);
    assert_eq!(BlockMeta::decode_block_meta(&buf[1..]), Ok(metas));
}

#[test]
fn empty_directory_is_no_bytes() {
    let mut buf = Vec::new();
    BlockMeta::encode_block_meta(&[], &mut buf);
    assert!(buf.is_empty());
    assert_eq!(BlockMeta::decode_block_meta(&[]), Ok(Vec::new()));
}

#[test]
fn directory_with_a_cut_record_is_rejected() {
    let metas = vec![BlockMeta { offset: 9, first_key: b"abc".to_vec(), last_key: b"abd".to_vec() }];
    let mut buf = Vec::new();
    BlockMeta::encode_block_meta(&metas, &mut buf);
    for cut in 1..buf.len() {
        assert_eq!(BlockMeta::decode_block_meta(&buf[..cut]), Err(DecodeError::Truncated));
    }
    assert_eq!(BlockMeta::decode_block_meta(&buf), Ok(metas));
}

#[test]
fn directory_keeps_the_longest_keys() {
    let metas = vec![BlockMeta {
        offset: 0xffff_ffff,
        first_key: vec![1u8; 65535],
        last_key: vec![2u8; 65535],
    }];
    let mut buf = Vec::new();
    BlockMeta::encode_block_meta(&metas, &mut buf);
    assert_eq!(buf.len(), 8 + 2 * 65535);
    assert_eq!(&buf[..6], &[0xff, 0xff, 0xff, 0xff, 0xff, 0xff]);
    assert_eq!(BlockMeta::decode_block_meta(&buf), Ok(metas));
}
