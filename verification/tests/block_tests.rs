use petro_meg::crypto::{pad, round_down_to_block, round_up_to_block, Key, BLOCK_SIZE};
use petro_meg::encoding::{push_u16_le, push_u32_le, read_u16_le, read_u32_le};

#[test]
fn block_rounding() {
    assert_eq!(BLOCK_SIZE, 16);
    assert_eq!(round_up_to_block(0), 0);
    assert_eq!(round_up_to_block(1), 16);
    assert_eq!(round_up_to_block(16), 16);
    assert_eq!(round_up_to_block(17), 32);
    assert_eq!(round_down_to_block(15), 0);
    assert_eq!(round_down_to_block(33), 32);
}

#[test]
fn padding() {
    let mut v = vec![9u8; 13];
    pad(&mut v);
    assert_eq!(v.len(), 16);
    assert_eq!(&v[13..], &[3, 3, 3]);
    let mut w = vec![1u8; 16];
    pad(&mut w);
    assert_eq!(w, vec![1u8; 16]);
}

#[test]
fn little_endian_fields() {
    let mut out = Vec::new();
    push_u16_le(&mut out, 0x1234);
    push_u32_le(&mut out, 0xDEADBEEF);
    assert_eq!(out, vec![0x34, 0x12, 0xEF, 0xBE, 0xAD, 0xDE]);
    assert_eq!(read_u16_le(&out, 0), 0x1234);
    assert_eq!(read_u32_le(&out, 2), 0xDEADBEEF);
}

#[test]
fn key_debug_string_is_upper_hex() {
    let mut key = [0u8; 16];
    let mut iv = [0u8; 16];
    for i in 0..16 {
        key[i] = i as u8;
        iv[i] = 0xF0 + i as u8;
    }
    let k = Key::new(key, iv);
    assert_eq!(
        k.debug_string(),
        "Key { key: 000102030405060708090A0B0C0D0E0F, iv: F0F1F2F3F4F5F6F7F8F9FAFBFCFDFEFF }"
    );
}
