use std::sync::Arc;

use mini_lsm::block::{Block, BlockBuilder, BlockIterator, DecodeError};

fn three_entry_block() -> Block {
    let mut builder = BlockBuilder::new(4096);
    assert!(builder.add(b"a", b"1"));
    assert!(builder.add(b"b", b"2"));
    assert!(builder.add(b"c", b"3"));
    builder.build()
}

fn numbered_block(count: usize) -> Block {
    let mut builder = BlockBuilder::new(1 << 20);
    for i in 0..count {
        let key = format!("key_{:05}", i * 5);
        let value = format!("value_{}", i);
        assert!(builder.add(key.as_bytes(), value.as_bytes()));
    }
    builder.build()
}

#[test]
fn builder_is_empty_until_first_add() {
    let mut builder = BlockBuilder::new(4096);
    assert!(builder.is_empty());
    assert!(builder.add(b"a", b"1"));
    assert!(!builder.is_empty());
}

#[test]
fn block_of_three_entries_iterates_in_order() {
    let block = Arc::new(three_entry_block());
    let mut iter = BlockIterator::create_and_seek_to_first(block);
    let expected: [(&[u8], &[u8]); 3] = [(b"a", b"1"), (b"b", b"2"), (b"c", b"3")];
    for (key, value) in expected {
        assert!(iter.is_valid());
        assert_eq!(iter.key(), key);
        assert_eq!(iter.value(), value);
        iter.next();
    }
    assert!(!iter.is_valid());
}

#[test]
fn builder_lays_entries_out_back_to_back() {
    let block = three_entry_block();
    assert_eq!(
        block.data,
        vec![0, 1, b'a', 0, 1, b'1', 0, 1, b'b', 0, 1, b'2', 0, 1, b'c', 0, 1, b'3']
    );
    assert_eq!(block.offsets, vec![0, 6, 12]);
}

#[test]
fn encode_appends_offsets_and_count() {
    let block = three_entry_block();
    let encoded = block.encode();
    let mut expected = block.data.clone();
    expected.extend_from_slice(&[0, 0, 0, 6, 0, 12, 0, 3]);
    assert_eq!(&encoded[..], &expected[..]);
}

#[test]
fn encode_writes_big_endian_offsets() {
    let mut builder = BlockBuilder::new(4096);
    assert!(builder.add(&[7u8; 300], b""));
    assert!(builder.add(b"z", b"y"));
    let block = builder.build();
    assert_eq!(block.offsets, vec![0, 304]);
    assert_eq!(&block.data[..2], &[1, 44]);
    let encoded = block.encode();
    let tail = &encoded[encoded.len() - 6..];
    assert_eq!(tail, &[0, 0, 1, 48, 0, 2]);
}

#[test]
fn encode_of_empty_block_is_the_count_alone() {
    let block = BlockBuilder::new(16).build();
    assert_eq!(&block.encode()[..], &[0, 0]);
}

#[test]
fn decode_inverts_encode() {
    let block = three_entry_block();
    let decoded = Block::decode(&block.encode()).unwrap();
    assert_eq!(decoded, block);
}

#[test]
fn decode_inverts_encode_for_many_entries() {
    let block = numbered_block(500);
    let decoded = Block::decode(&block.encode()).unwrap();
    assert_eq!(decoded.data, block.data);
    assert_eq!(decoded.offsets, block.offsets);
}

#[test]
fn decode_inverts_encode_for_empty_key_and_value() {
    let mut builder = BlockBuilder::new(64);
    assert!(builder.add(b"", b""));
    assert!(builder.add(b"", b"v"));
    let block = builder.build();
    assert_eq!(block.data, vec![0, 0, 0, 0, 0, 0, 0, 1, b'v']);
    assert_eq!(Block::decode(&block.encode()).unwrap(), block);
}

#[test]
fn decode_of_short_input_is_the_empty_block() {
    for input in [&[][..], &[0x00][..], &[0xff][..]] {
        let block = Block::decode(input).unwrap();
        assert!(block.data.is_empty());
        assert!(block.offsets.is_empty());
    }
}

#[test]
fn decode_of_zero_count_is_the_empty_block() {
    let block = Block::decode(&[0, 0]).unwrap();
    assert!(block.data.is_empty());
    assert!(block.offsets.is_empty());
}

#[test]
fn decode_rejects_count_without_room_for_offsets() {
    assert_eq!(Block::decode(&[0, 5]), Err(DecodeError::Truncated));
    assert_eq!(Block::decode(&[0, 0, 0, 2]), Err(DecodeError::Truncated));
    assert_eq!(Block::decode(&[0xff, 0xff]), Err(DecodeError::Truncated));
}

#[test]
fn decode_rejects_entry_running_past_the_data() {
    // One entry declared; its key claims nine bytes, the data has one.
    assert_eq!(Block::decode(&[0, 9, b'a', 0, 0, 0, 1]), Err(DecodeError::Truncated));
    // The key fits, the value length is cut off.
    assert_eq!(Block::decode(&[0, 1, b'a', 0, 0, 0, 0, 1]), Err(DecodeError::Truncated));
    // The value claims two bytes, the data has one.
    assert_eq!(
        Block::decode(&[0, 1, b'a', 0, 2, b'1', 0, 0, 0, 1]),
        Err(DecodeError::Truncated)
    );
    // One entry declared and no data at all.
    assert_eq!(Block::decode(&[0, 0, 0, 1]), Err(DecodeError::Truncated));
}

#[test]
fn decode_rejects_truncated_encoding() {
    let encoded = three_entry_block().encode();
    assert_eq!(Block::decode(&encoded[4..]), Err(DecodeError::Truncated));
}

#[test]
fn decode_rejects_offsets_off_the_entries() {
    let mut encoded = three_entry_block().encode().to_vec();
    let at = encoded.len() - 5;
    encoded[at] = 7;
    assert_eq!(Block::decode(&encoded), Err(DecodeError::Misaligned));
}

#[test]
fn decode_rejects_bytes_left_over_after_the_entries() {
    let block = three_entry_block();
    let mut bytes = block.data.clone();
    bytes.push(0xaa);
    bytes.extend_from_slice(&[0, 0, 0, 6, 0, 12, 0, 3]);
    assert_eq!(Block::decode(&bytes), Err(DecodeError::Misaligned));
    assert_eq!(Block::decode(&[0xaa, 0, 0]), Err(DecodeError::Misaligned));
}

#[test]
fn decoded_block_iterates_like_the_built_one() {
    let block = numbered_block(40);
    let decoded = Arc::new(Block::decode(&block.encode()).unwrap());
    let mut iter = BlockIterator::create_and_seek_to_first(decoded);
    for i in 0..40 {
        assert!(iter.is_valid());
        assert_eq!(iter.key(), format!("key_{:05}", i * 5).as_bytes());
        assert_eq!(iter.value(), format!("value_{}", i).as_bytes());
        iter.next();
    }
    assert!(!iter.is_valid());
}

#[test]
fn full_scan_visits_every_entry_once() {
    for count in [0usize, 1, 2, 17, 100] {
        let block = Arc::new(numbered_block(count));
        let mut iter = BlockIterator::create_and_seek_to_first(block.clone());
        let mut visited = 0;
        while iter.is_valid() {
            assert_eq!(iter.key(), format!("key_{:05}", visited * 5).as_bytes());
            visited += 1;
            iter.next();
        }
        assert_eq!(visited, block.offsets.len());
        assert_eq!(visited, count);
    }
}

#[test]
fn last_entry_is_valid() {
    let block = Arc::new(three_entry_block());
    let mut iter = BlockIterator::create_and_seek_to_first(block);
    iter.next();
    iter.next();
    assert!(iter.is_valid());
    assert_eq!(iter.key(), b"c");
    assert_eq!(iter.value(), b"3");
}

#[test]
fn next_on_exhausted_iterator_changes_nothing() {
    let block = Arc::new(three_entry_block());
    let mut iter = BlockIterator::create_and_seek_to_key(block, b"d");
    assert!(!iter.is_valid());
    assert_eq!(iter.key(), b"");
    iter.next();
    assert!(!iter.is_valid());
    assert_eq!(iter.key(), b"");
}

#[test]
fn iterator_over_empty_block_is_invalid() {
    let block = Arc::new(BlockBuilder::new(16).build());
    let mut iter = BlockIterator::create_and_seek_to_first(block.clone());
    assert!(!iter.is_valid());
    assert_eq!(iter.key(), b"");
    iter.seek_to_key(b"a");
    assert!(!iter.is_valid());
    let iter = BlockIterator::create_and_seek_to_key(block, b"");
    assert!(!iter.is_valid());
}

#[test]
fn seek_to_first_rewinds() {
    let block = Arc::new(three_entry_block());
    let mut iter = BlockIterator::create_and_seek_to_key(block, b"c");
    assert_eq!(iter.key(), b"c");
    iter.seek_to_first();
    assert!(iter.is_valid());
    assert_eq!(iter.key(), b"a");
    assert_eq!(iter.value(), b"1");
}

#[test]
fn seek_lands_on_the_key_when_present() {
    let block = Arc::new(numbered_block(50));
    for i in 0..50 {
        let key = format!("key_{:05}", i * 5);
        let iter = BlockIterator::create_and_seek_to_key(block.clone(), key.as_bytes());
        assert!(iter.is_valid());
        assert_eq!(iter.key(), key.as_bytes());
        assert_eq!(iter.value(), format!("value_{}", i).as_bytes());
    }
}

#[test]
fn seek_lands_on_the_next_larger_key_when_absent() {
    let block = Arc::new(numbered_block(50));
    let mut iter = BlockIterator::create_and_seek_to_first(block);
    for i in 0..49 {
        let target = format!("key_{:05}", i * 5 + 1);
        iter.seek_to_key(target.as_bytes());
        assert!(iter.is_valid());
        assert_eq!(iter.key(), format!("key_{:05}", (i + 1) * 5).as_bytes());
        assert_eq!(iter.value(), format!("value_{}", i + 1).as_bytes());
    }
}

#[test]
fn seek_below_the_first_key_lands_on_the_first_entry() {
    let block = Arc::new(numbered_block(10));
    let iter = BlockIterator::create_and_seek_to_key(block.clone(), b"a");
    assert!(iter.is_valid());
    assert_eq!(iter.key(), b"key_00000");
    let iter = BlockIterator::create_and_seek_to_key(block, b"");
    assert!(iter.is_valid());
    assert_eq!(iter.key(), b"key_00000");
}

#[test]
fn seek_above_every_key_is_invalid() {
    let block = Arc::new(numbered_block(10));
    let iter = BlockIterator::create_and_seek_to_key(block.clone(), b"key_00046");
    assert!(!iter.is_valid());
    let iter = BlockIterator::create_and_seek_to_key(block, b"z");
    assert!(!iter.is_valid());
}

#[test]
fn seek_treats_a_prefix_as_smaller() {
    let mut builder = BlockBuilder::new(4096);
    assert!(builder.add(b"ab", b"1"));
    assert!(builder.add(b"abc", b"2"));
    assert!(builder.add(b"abd", b"3"));
    let block = Arc::new(builder.build());
    let iter = BlockIterator::create_and_seek_to_key(block.clone(), b"abc");
    assert_eq!(iter.key(), b"abc");
    let iter = BlockIterator::create_and_seek_to_key(block.clone(), b"abb");
    assert_eq!(iter.key(), b"abc");
    let iter = BlockIterator::create_and_seek_to_key(block.clone(), b"a");
    assert_eq!(iter.key(), b"ab");
    let iter = BlockIterator::create_and_seek_to_key(block, b"abcd");
    assert_eq!(iter.key(), b"abd");
}

#[test]
fn seek_with_duplicate_keys_lands_on_the_first_of_them() {
    let mut builder = BlockBuilder::new(4096);
    assert!(builder.add(b"a", b"1"));
    assert!(builder.add(b"b", b"2"));
    assert!(builder.add(b"b", b"3"));
    assert!(builder.add(b"c", b"4"));
    let block = Arc::new(builder.build());
    let iter = BlockIterator::create_and_seek_to_key(block, b"b");
    assert_eq!(iter.key(), b"b");
    assert_eq!(iter.value(), b"2");
}

#[test]
fn first_add_is_taken_whatever_the_budget() {
    let mut builder = BlockBuilder::new(0);
    assert!(builder.add(&[1u8; 1000], &[2u8; 1000]));
    assert!(!builder.is_empty());
    let block = builder.build();
    assert_eq!(block.offsets, vec![0]);
    assert_eq!(block.data.len(), 2004);
}

#[test]
fn add_is_refused_exactly_when_the_projected_size_exceeds_the_budget() {
    // Each entry takes 6 bytes of data; one more needs the data so far plus 8.
    let mut builder = BlockBuilder::new(20);
    assert!(builder.add(b"a", b"1")); // first: always taken
    assert!(builder.add(b"b", b"2")); // 6 + 8 = 14 <= 20
    assert!(builder.add(b"c", b"3")); // 12 + 8 = 20 <= 20
    assert!(!builder.add(b"d", b"4")); // 18 + 8 = 26 > 20
    assert!(!builder.add(b"", b"")); // 18 + 6 = 24 > 20
    assert_eq!(builder.build().offsets, vec![0, 6, 12]);

    let mut builder = BlockBuilder::new(19);
    assert!(builder.add(b"a", b"1"));
    assert!(builder.add(b"b", b"2"));
    assert!(!builder.add(b"c", b"3")); // 12 + 8 = 20 > 19
    assert!(builder.add(b"c", b"")); // 12 + 7 = 19 <= 19
}

#[test]
fn refused_add_leaves_the_builder_as_it_was() {
    let mut builder = BlockBuilder::new(14);
    assert!(builder.add(b"a", b"1"));
    assert!(builder.add(b"b", b"2"));
    assert!(!builder.add(b"c", b"3"));
    let block = builder.build();
    assert_eq!(block.data, vec![0, 1, b'a', 0, 1, b'1', 0, 1, b'b', 0, 1, b'2']);
    assert_eq!(block.offsets, vec![0, 6]);
}

#[test]
fn add_is_refused_once_the_data_outgrows_two_byte_offsets() {
    let mut builder = BlockBuilder::new(1 << 30);
    assert!(builder.add(&[b'k'; 65535], &[b'v'; 65535]));
    assert!(!builder.add(b"z", b"1"));
    let block = builder.build();
    assert_eq!(block.offsets, vec![0]);
    assert_eq!(block.data.len(), 4 + 2 * 65535);
    assert_eq!(Block::decode(&block.encode()).unwrap(), block);
}

#[test]
fn add_takes_an_entry_starting_at_the_last_addressable_offset() {
    let mut builder = BlockBuilder::new(1 << 30);
    assert!(builder.add(&[b'k'; 65531], b""));
    assert!(builder.add(b"z", b"1"));
    let block = builder.build();
    assert_eq!(block.offsets, vec![0, 65535]);
    let block = Arc::new(block);
    let mut iter = BlockIterator::create_and_seek_to_first(block.clone());
    iter.next();
    assert_eq!(iter.key(), b"z");
    assert_eq!(iter.value(), b"1");
    assert_eq!(Block::decode(&block.encode()).unwrap(), *block);
}

#[test]
fn longest_fields_survive_the_round_trip() {
    let key = vec![0xabu8; 65535];
    let value = vec![0xcdu8; 65535];
    let mut builder = BlockBuilder::new(16);
    assert!(builder.add(&key, &value));
    let block = builder.build();
    assert_eq!(&block.data[..2], &[0xff, 0xff]);
    let decoded = Arc::new(Block::decode(&block.encode()).unwrap());
    let iter = BlockIterator::create_and_seek_to_first(decoded);
    assert_eq!(iter.key(), &key[..]);
    assert_eq!(iter.value(), &value[..]);
}
