use unplug::wire::{
    get_i16_be, get_i32_be, get_u32_le, get_u8, put_bytes, put_i16_be, put_i32_be, put_i32_le,
    put_u32_le, put_u8,
};

#[test]
fn reads_big_endian_i32() {
    let bytes = [0x00, 0x12, 0x34, 0x56, 0x78];
    assert_eq!(get_i32_be(&bytes, 1), Some(0x1234_5678));
    assert_eq!(get_i32_be(&bytes, 0), Some(0x0012_3456));
}

#[test]
fn reads_negative_i32() {
    let bytes = [0xff, 0xff, 0xff, 0xff];
    assert_eq!(get_i32_be(&bytes, 0), Some(-1));
    let bytes = [0x80, 0x00, 0x00, 0x00];
    assert_eq!(get_i32_be(&bytes, 0), Some(i32::MIN));
}

#[test]
fn reads_big_endian_i16() {
    let bytes = [0x12, 0x34, 0xff, 0xfe];
    assert_eq!(get_i16_be(&bytes, 0), Some(0x1234));
    assert_eq!(get_i16_be(&bytes, 2), Some(-2));
}

#[test]
fn reads_little_endian_u32() {
    let bytes = [0x78, 0x56, 0x34, 0x12, 0xff];
    assert_eq!(get_u32_le(&bytes, 0), Some(0x1234_5678));
    assert_eq!(get_u32_le(&bytes, 1), Some(0xff12_3456));
}

#[test]
fn reads_stop_at_the_end() {
    let bytes = [1, 2, 3, 4];
    assert_eq!(get_i32_be(&bytes, 1), None);
    assert_eq!(get_i32_be(&bytes, usize::MAX), None);
    assert_eq!(get_i16_be(&bytes, 3), None);
    assert_eq!(get_u32_le(&bytes, 4), None);
    assert_eq!(get_u8(&bytes, 3), Some(4));
    assert_eq!(get_u8(&bytes, 4), None);
}

#[test]
fn writes_big_endian() {
    let mut out = vec![9u8];
    put_i32_be(&mut out, 0x1234_5678);
    put_i16_be(&mut out, -2);
    put_i32_be(&mut out, -1);
    assert_eq!(out, vec![9, 0x12, 0x34, 0x56, 0x78, 0xff, 0xfe, 0xff, 0xff, 0xff, 0xff]);
}

#[test]
fn writes_little_endian() {
    let mut out = Vec::new();
    put_u32_le(&mut out, 0x1234_5678);
    put_i32_le(&mut out, -2);
    assert_eq!(out, vec![0x78, 0x56, 0x34, 0x12, 0xfe, 0xff, 0xff, 0xff]);
}

#[test]
fn writes_plain_bytes() {
    let mut out = vec![1u8];
    put_u8(&mut out, 2);
    put_bytes(&mut out, &[3, 4]);
    assert_eq!(out, vec![1, 2, 3, 4]);
}

#[test]
fn written_values_read_back() {
    for n in [0i32, 1, -1, 255, 256, -256, i32::MAX, i32::MIN, 0x0102_0304] {
        let mut out = vec![0u8; 3];
        put_i32_be(&mut out, n);
        assert_eq!(get_i32_be(&out, 3), Some(n));
    }
    for n in [0i16, 1, -1, 255, 256, i16::MAX, i16::MIN] {
        let mut out = Vec::new();
        put_i16_be(&mut out, n);
        assert_eq!(get_i16_be(&out, 0), Some(n));
    }
    for n in [0u32, 1, 255, 256, u32::MAX, 0x0102_0304] {
        let mut out = Vec::new();
        put_u32_le(&mut out, n);
        assert_eq!(get_u32_le(&out, 0), Some(n));
    }
}
