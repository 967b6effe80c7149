use ferrumc::error::ProtocolError;
use ferrumc::primitive::{
    decode_bool, decode_i16, decode_i32, decode_i64, decode_i8, decode_u16, decode_u32,
    decode_u64, decode_u8, encode_bool, encode_i16, encode_i32, encode_i64, encode_i8,
    encode_u16, encode_u32, encode_u64, encode_u8,
};
use ferrumc::text::{decode_string, encode_string};
use ferrumc::varint::{decode_varint, decode_varlong, encode_varint, encode_varlong, read_var};

#[test]
fn bool_round_trip() {
    for x in [false, true] {
        let mut out = Vec::new();
        encode_bool(x, &mut out);
        assert_eq!(out.len(), 1);
        assert_eq!(decode_bool(&out, 0), Ok((x, 1)));
    }
    assert_eq!(decode_bool(&[7], 0), Ok((true, 1)));
    assert_eq!(decode_bool(&[], 0), Err(ProtocolError::ShortRead));
}

#[test]
fn small_ints_round_trip() {
    for x in [0u8, 1, 127, 128, u8::MAX] {
        let mut out = Vec::new();
        encode_u8(x, &mut out);
        assert_eq!(decode_u8(&out, 0), Ok((x, 1)));
    }
    for x in [0i8, -1, i8::MIN, i8::MAX] {
        let mut out = Vec::new();
        encode_i8(x, &mut out);
        assert_eq!(decode_i8(&out, 0), Ok((x, 1)));
    }
    for x in [0u16, 1, 0x1234, u16::MAX] {
        let mut out = Vec::new();
        encode_u16(x, &mut out);
        assert_eq!(decode_u16(&out, 0), Ok((x, 2)));
    }
    for x in [0i16, -1, i16::MIN, i16::MAX, 4096] {
        let mut out = Vec::new();
        encode_i16(x, &mut out);
        assert_eq!(decode_i16(&out, 0), Ok((x, 2)));
    }
}

#[test]
fn wide_ints_round_trip() {
    for x in [0u32, 1, 0xDEAD_BEEF, u32::MAX] {
        let mut out = Vec::new();
        encode_u32(x, &mut out);
        assert_eq!(decode_u32(&out, 0), Ok((x, 4)));
    }
    for x in [0i32, -1, i32::MIN, i32::MAX] {
        let mut out = Vec::new();
        encode_i32(x, &mut out);
        assert_eq!(decode_i32(&out, 0), Ok((x, 4)));
    }
    for x in [0u64, 1, u64::MAX] {
        let mut out = Vec::new();
        encode_u64(x, &mut out);
        assert_eq!(decode_u64(&out, 0), Ok((x, 8)));
    }
    for x in [0i64, -1, i64::MIN, i64::MAX] {
        let mut out = Vec::new();
        encode_i64(x, &mut out);
        assert_eq!(decode_i64(&out, 0), Ok((x, 8)));
    }
}

#[test]
fn ints_are_big_endian() {
    let mut out = Vec::new();
    encode_i16(4096, &mut out);
    encode_i32(-2, &mut out);
    encode_u16(0x1234, &mut out);
    assert_eq!(out, vec![0x10, 0x00, 0xFF, 0xFF, 0xFF, 0xFE, 0x12, 0x34]);
    assert_eq!(decode_i32(&out, 2), Ok((-2, 6)));
    assert_eq!(decode_u16(&out, 6), Ok((0x1234, 8)));
}

#[test]
fn short_reads_fail() {
    assert_eq!(decode_i32(&[1, 2, 3], 0), Err(ProtocolError::ShortRead));
    assert_eq!(decode_i64(&[0; 8], 1), Err(ProtocolError::ShortRead));
    assert_eq!(decode_u16(&[1, 2], 2), Err(ProtocolError::ShortRead));
}

fn varint_len(x: i32) -> usize {
    let mut out = Vec::new();
    encode_varint(x, &mut out);
    assert_eq!(decode_varint(&out, 0), Ok((x, out.len())));
    out.len()
}

#[test]
fn varint_boundaries() {
    assert_eq!(varint_len(0), 1);
    assert_eq!(varint_len(127), 1);
    assert_eq!(varint_len(128), 2);
    assert_eq!(varint_len(255), 2);
    assert_eq!(varint_len((1 << 21) - 1), 3);
    assert_eq!(varint_len(1 << 21), 4);
    assert_eq!(varint_len(u32::MAX as i32), 5);
    assert_eq!(varint_len(i32::MIN), 5);
    assert_eq!(varint_len(i32::MAX), 5);
}

#[test]
fn varint_exact_bytes() {
    let mut out = Vec::new();
    encode_varint(300, &mut out);
    assert_eq!(out, vec![0xAC, 0x02]);
    let mut out = Vec::new();
    encode_varint(-1, &mut out);
    assert_eq!(out, vec![0xFF, 0xFF, 0xFF, 0xFF, 0x0F]);
}

#[test]
fn varlong_boundaries() {
    for (x, n) in [(0i64, 1usize), (127, 1), (128, 2), (i64::MAX, 9), (-1, 10), (i64::MIN, 10)] {
        let mut out = Vec::new();
        encode_varlong(x, &mut out);
        assert_eq!(out.len(), n);
        assert_eq!(decode_varlong(&out, 0), Ok((x, n)));
    }
}

#[test]
fn varint_errors() {
    assert_eq!(decode_varint(&[0x80; 5], 0), Err(ProtocolError::VarNumberTooLong));
    assert_eq!(decode_varint(&[0x80, 0x80], 0), Err(ProtocolError::ShortRead));
    assert_eq!(decode_varint(&[], 0), Err(ProtocolError::ShortRead));
    assert_eq!(decode_varlong(&[0xFF; 10], 0), Err(ProtocolError::VarNumberTooLong));
    assert_eq!(decode_varlong(&[0xFF; 9], 0), Err(ProtocolError::ShortRead));
    assert_eq!(read_var(&[0x81, 0x01, 0x55], 0, 5), Ok((129, 2)));
}

#[test]
fn string_round_trip() {
    for s in ["", "minecraft:stone", "héllo ☃"] {
        let mut out = Vec::new();
        encode_string(s, &mut out);
        out.push(0x42);
        let (t, p) = decode_string(&out, 0).unwrap();
        assert_eq!(t, s);
        assert_eq!(p, out.len() - 1);
    }
    let mut out = Vec::new();
    encode_string("ab", &mut out);
    assert_eq!(out, vec![2, b'a', b'b']);
}

#[test]
fn string_invalid_utf8() {
    assert_eq!(decode_string(&[2, 0xC3, 0x28], 0), Err(ProtocolError::InvalidUtf8));
    assert_eq!(decode_string(&[1, 0xFF, b'x'], 0), Err(ProtocolError::InvalidUtf8));
}

#[test]
fn string_short_payload() {
    assert_eq!(decode_string(&[3, b'a', b'b'], 0), Err(ProtocolError::ShortRead));
    assert_eq!(decode_string(&[0xFF, 0xFF, 0xFF, 0xFF, 0x0F], 0), Err(ProtocolError::ShortRead));
    assert_eq!(decode_string(&[0x80], 0), Err(ProtocolError::ShortRead));
}
