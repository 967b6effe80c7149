use ferrumc::packing::{pack_entries, unpack_entries};

#[test]
fn pack_round_trip_all_widths() {
    for bits in 1u64..=63 {
        let limit = 1u64 << bits;
        let values: Vec<u64> = (0..200u64).map(|i| (i.wrapping_mul(0x9E37_79B9_7F4A_7C15)) % limit).collect();
        let words = pack_entries(&values, bits);
        let per = (64 / bits) as usize;
        assert_eq!(words.len(), (values.len() + per - 1) / per);
        assert_eq!(unpack_entries(&words, bits, values.len()), values);
    }
}

#[test]
fn pack_fifteen_bit_word() {
    let words = pack_entries(&vec![1, 1, 1, 1, 1], 15);
    assert_eq!(words, vec![1 | 1 << 15 | 1 << 30 | 1 << 45, 1]);
}

#[test]
fn pack_no_straddling() {
    let words = pack_entries(&vec![0b111; 22], 3);
    assert_eq!(words.len(), 2);
    assert_eq!(words[0], (1u64 << 63) - 1);
    assert_eq!(words[1], 0b111);
}

#[test]
fn pack_masks_wide_values() {
    assert_eq!(pack_entries(&vec![0xFF, 0x1], 4), vec![0xF | 0x1 << 4]);
}

#[test]
fn pack_empty() {
    assert!(pack_entries(&Vec::new(), 15).is_empty());
    assert!(unpack_entries(&Vec::new(), 15, 0).is_empty());
}
