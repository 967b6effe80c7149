use ferrumc::chunk::{
    create_basic_chunk, create_block_states, get_biome_id, get_block_state_id, serialize_biomes,
    serialize_block_states, BlockStates, Biomes, Palette,
};
use ferrumc::error::ProtocolError;
use ferrumc::light::BitSet;
use ferrumc::packet::ChunkDataAndUpdateLight;

fn palette_of(names: &[&str]) -> Vec<Palette> {
    names.iter().map(|n| Palette { name: n.to_string(), properties: None }).collect()
}

#[test]
fn registry_lookups() {
    assert_eq!(get_block_state_id("minecraft:air"), 0);
    assert_eq!(get_block_state_id("minecraft:stone"), 1);
    assert_eq!(get_block_state_id("minecraft:grass_block"), 9);
    assert_eq!(get_block_state_id("minecraft:oak_log"), 131);
    assert_eq!(get_block_state_id("minecraft:unknown"), 0);
    assert_eq!(get_biome_id("minecraft:plains"), 1);
    assert_eq!(get_biome_id("minecraft:desert"), 0);
}

#[test]
fn block_state_palette_bytes() {
    let bs = BlockStates { data: Some(vec![5]), palette: Some(palette_of(&["minecraft:air", "minecraft:stone"])) };
    let bytes = serialize_block_states(&bs).unwrap();
    assert_eq!(bytes, vec![0x10, 0x00, 15, 2, 0, 1, 1, 0, 0, 0, 0, 0, 0, 0, 5]);
}

#[test]
fn block_states_missing_parts() {
    let no_palette = BlockStates { data: Some(vec![]), palette: None };
    assert_eq!(serialize_block_states(&no_palette), Err(ProtocolError::MissingSectionData));
    let no_data = BlockStates { data: None, palette: Some(Vec::new()) };
    assert_eq!(serialize_block_states(&no_data), Err(ProtocolError::MissingSectionData));
}

#[test]
fn biome_bytes() {
    let b = Biomes { palette: vec!["minecraft:plains".to_string()] };
    let bytes = serialize_biomes(&b);
    let mut expected = vec![1u8, 1, 1, 64];
    expected.extend(std::iter::repeat(0u8).take(512));
    assert_eq!(bytes, expected);
}

#[test]
fn biome_bits_follow_palette_size() {
    for (n, bits) in [(0usize, 1u8), (1, 1), (2, 1), (3, 2), (4, 2), (5, 3), (9, 4), (16, 4), (17, 5)] {
        let b = Biomes { palette: vec!["minecraft:plains".to_string(); n] };
        assert_eq!(serialize_biomes(&b)[0], bits);
    }
}

#[test]
fn block_states_from_layers() {
    let bs = create_block_states(vec![vec![1, 0, 1], vec![2]], palette_of(&["minecraft:air"]));
    assert_eq!(bs.data, Some(vec![1 | 1 << 30, 2]));
    assert_eq!(bs.palette.unwrap().len(), 1);
}

#[test]
fn stub_chunk_shape() {
    let chunk = create_basic_chunk(3, -7);
    assert_eq!((chunk.x_pos, chunk.z_pos, chunk.y_pos), (3, -7, -4));
    let sections = chunk.sections.unwrap();
    assert_eq!(sections.len(), 24);
    for (i, s) in sections.iter().enumerate() {
        assert_eq!(s.y as i32, i as i32 - 4);
        let bs = s.block_states.as_ref().unwrap();
        assert_eq!(bs.data.as_ref().unwrap().len(), 1024);
        assert_eq!(bs.data.as_ref().unwrap()[0], 1 | 1 << 15 | 1 << 30 | 1 << 45);
        assert_eq!(bs.palette.as_ref().unwrap()[1].name, "minecraft:stone");
        assert_eq!(s.biomes.as_ref().unwrap().palette, vec!["minecraft:plains".to_string()]);
    }
}

#[test]
fn stub_packet_is_fully_lit() {
    let p = ChunkDataAndUpdateLight::new(0, 0).unwrap();
    assert_eq!(p.packet_id, 0x24);
    assert_eq!((p.chunk_x, p.chunk_z), (0, 0));
    assert_eq!(p.sky_light_mask.words, vec![0xFF_FFFF]);
    assert_eq!(p.block_light_mask.words, vec![0xFF_FFFF]);
    assert_eq!(p.sky_light_mask.words[0].count_ones(), 24);
    assert!(p.empty_sky_light_mask.words.is_empty());
    assert!(p.empty_block_light_mask.words.is_empty());
    assert_eq!(p.sky_light_array_count, 24);
    assert_eq!(p.block_light_array_count, 24);
    assert_eq!(p.sky_light_arrays.len(), 24);
    assert_eq!(p.block_light_arrays.len(), 24);
    for a in p.sky_light_arrays.iter().chain(p.block_light_arrays.iter()) {
        assert_eq!(a.data, vec![0xFF; 2048]);
    }
    assert_eq!(p.block_entities_count, 0);
    assert!(p.block_entities.is_empty());
    let section_len = 2 + 1 + 1 + 2 + 2 + 1024 * 8 + 1 + 1 + 1 + 1 + 64 * 8;
    assert_eq!(p.data.len(), 24 * section_len);
}

#[test]
fn missing_biomes_fail_packet() {
    let mut chunk = create_basic_chunk(1, 2);
    chunk.sections.as_mut().unwrap()[5].biomes = None;
    assert_eq!(ChunkDataAndUpdateLight::from_chunk(chunk).err(), Some(ProtocolError::MissingSectionData));
}

#[test]
fn missing_block_states_fail_packet() {
    let mut chunk = create_basic_chunk(1, 2);
    chunk.sections.as_mut().unwrap()[23].block_states = None;
    assert_eq!(ChunkDataAndUpdateLight::from_chunk(chunk).err(), Some(ProtocolError::MissingSectionData));
    let mut chunk = create_basic_chunk(1, 2);
    chunk.sections = None;
    assert_eq!(ChunkDataAndUpdateLight::from_chunk(chunk).err(), Some(ProtocolError::MissingSectionData));
}

#[test]
fn bitset_constructors() {
    assert_eq!(BitSet::first_n(1).words, vec![1]);
    assert_eq!(BitSet::first_n(64).words, vec![u64::MAX]);
    assert!(BitSet::empty().words.is_empty());
}
