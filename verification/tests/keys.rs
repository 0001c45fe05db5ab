use mini_lsm::key::key_less;
use mini_lsm::wire::{join_u8s_to_u16, split_u16_to_u8s};

#[test]
fn key_less_orders_byte_by_byte() {
    assert!(key_less(b"a", b"b"));
    assert!(!key_less(b"b", b"a"));
    assert!(key_less(b"ab", b"b"));
    assert!(key_less(b"abc", b"abd"));
    assert!(!key_less(b"abd", b"abc"));
    assert!(key_less(&[0x7f], &[0x80]));
    assert!(key_less(&[0x00], &[0xff]));
}

#[test]
fn key_less_puts_a_prefix_first() {
    assert!(key_less(b"", b"a"));
    assert!(key_less(b"a", b"aa"));
    assert!(!key_less(b"aa", b"a"));
    assert!(key_less(b"a", &[b'a', 0]));
}

#[test]
fn key_less_is_strict() {
    assert!(!key_less(b"", b""));
    assert!(!key_less(b"abc", b"abc"));
}

#[test]
fn key_less_agrees_with_slice_order() {
    let keys: [&[u8]; 7] = [b"", b"a", b"aa", b"ab", b"b", &[0xff], &[0xff, 0x00]];
    for a in keys {
        for b in keys {
            assert_eq!(key_less(a, b), a < b);
        }
    }
}

#[test]
fn split_gives_high_then_low_byte() {
    assert_eq!(split_u16_to_u8s(0x1234), (0x12, 0x34));
    assert_eq!(split_u16_to_u8s(0), (0, 0));
    assert_eq!(split_u16_to_u8s(0xffff), (0xff, 0xff));
    assert_eq!(split_u16_to_u8s(255), (0, 255));
    assert_eq!(split_u16_to_u8s(256), (1, 0));
}

#[test]
fn join_inverts_split() {
    for value in [0u16, 1, 255, 256, 0x1234, 0xff00, 0xffff] {
        let (high, low) = split_u16_to_u8s(value);
        assert_eq!(join_u8s_to_u16(high, low), value);
    }
    assert_eq!(join_u8s_to_u16(0x12, 0x34), 0x1234);
}

#[test]
fn join_of_four_bytes_is_big_endian() {
    assert_eq!(mini_lsm::wire::join_u8s_to_u32(1, 2, 3, 4), 0x0102_0304);
    assert_eq!(mini_lsm::wire::join_u8s_to_u32(0, 0, 0, 0), 0);
    assert_eq!(mini_lsm::wire::join_u8s_to_u32(0xff, 0xff, 0xff, 0xff), u32::MAX);
    assert_eq!(mini_lsm::wire::join_u8s_to_u32(0, 0, 1, 0), 256);
}
