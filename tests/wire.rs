use ferrumc::light::{full_light_array, BitSet, LightArray};
use ferrumc::packet::{BlockEntity, ChunkDataAndUpdateLight};
use ferrumc::varint::{var_step, varint_of, varlong_of, VarStep};

#[test]
fn bitset_wire_form() {
    let mut out = Vec::new();
    BitSet::first_n(24).encode(&mut out);
    assert_eq!(out, vec![1, 0, 0, 0, 0, 0, 0xFF, 0xFF, 0xFF]);
    let mut out = Vec::new();
    BitSet::empty().encode(&mut out);
    assert_eq!(out, vec![0]);
}

#[test]
fn light_array_wire_form() {
    let mut out = Vec::new();
    LightArray { data: vec![1, 2, 3] }.encode(&mut out);
    assert_eq!(out, vec![3, 1, 2, 3]);
    let mut out = Vec::new();
    full_light_array().encode(&mut out);
    assert_eq!(&out[..2], &[0x80, 0x10]);
    assert_eq!(out.len(), 2 + 2048);
    assert!(out[2..].iter().all(|&b| b == 0xFF));
}

#[test]
fn block_entity_wire_form() {
    let mut out = Vec::new();
    BlockEntity { packed_xz: 0x3A, y: -2, type_id: 300, data: vec![0x0A, 0x00] }.encode(&mut out);
    assert_eq!(out, vec![0x3A, 0xFF, 0xFE, 0xAC, 0x02, 0x0A, 0x00]);
}

#[test]
fn stub_packet_wire_form() {
    let p = ChunkDataAndUpdateLight::new(1, -1).unwrap();
    let heightmaps = vec![0x0A, 0x00, 0x00, 0x00];
    let mut out = Vec::new();
    p.encode(&heightmaps, &mut out);
    assert_eq!(&out[..13], &[0x24, 0, 0, 0, 1, 0xFF, 0xFF, 0xFF, 0xFF, 0x0A, 0x00, 0x00, 0x00]);
    let data_len = p.data.len();
    let mut prefix = Vec::new();
    ferrumc::varint::encode_varint(data_len as i32, &mut prefix);
    assert_eq!(&out[13..13 + prefix.len()], &prefix[..]);
    let after_data = 13 + prefix.len() + data_len;
    assert_eq!(&out[13 + prefix.len()..after_data], &p.data[..]);
    let rest = &out[after_data..];
    assert_eq!(rest[0], 0);
    let masks = [1u8, 0, 0, 0, 0, 0, 0xFF, 0xFF, 0xFF];
    assert_eq!(&rest[1..10], &masks);
    assert_eq!(&rest[10..19], &masks);
    assert_eq!(&rest[19..21], &[0, 0]);
    assert_eq!(rest[21], 24);
    let one_array = 2 + 2048;
    assert_eq!(rest.len(), 22 + 24 * one_array + 1 + 24 * one_array);
    assert_eq!(rest[22 + 24 * one_array], 24);
}

#[test]
fn var_step_walks_a_varint() {
    assert_eq!(var_step(0, 0, 0xAC, 5), VarStep::More(0x2C));
    assert_eq!(var_step(0x2C, 1, 0x02, 5), VarStep::Done(300));
    assert_eq!(var_step(0, 4, 0x80, 5), VarStep::TooLong);
    assert_eq!(var_step(0, 0, 0x7F, 1), VarStep::Done(127));
}

#[test]
fn varint_of_truncates_and_signs() {
    assert_eq!(varint_of(0xFFFF_FFFF), -1);
    assert_eq!(varint_of(0x1_0000_0005), 5);
    assert_eq!(varint_of(0x7FFF_FFFF), i32::MAX);
    assert_eq!(varlong_of(0xFFFF_FFFF_FFFF_FFFF), -1);
    assert_eq!(varlong_of(u64::MAX as u128 + 8), 7);
}
