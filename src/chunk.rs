use vstd::prelude::*;
use vstd::utf8::{encode_utf8, encode_utf8_decode_utf8};

use crate::error::ProtocolError;
use crate::packing::{pack_entries, packed};
use crate::primitive::{be_bytes, encode_i16, encode_i64, lemma_casts_64, signed_of, unsigned_of};
use crate::varint::{encode_varint, varint_bytes};

verus! {

/// Width of one packed block-state entry.
pub const BLOCK_BITS: u64 = 15;

/// Voxels in one section (16 x 16 x 16).
pub const SECTION_VOLUME: usize = 4096;

/// Block-state properties of a palette entry.
pub struct Properties {
    pub axis: Option<String>,
}

/// One palette entry: a block-state name and its properties.
pub struct Palette {
    pub name: String,
    pub properties: Option<Properties>,
}

/// A section's block states: its palette and the packed per-voxel indices.
pub struct BlockStates {
    pub data: Option<Vec<i64>>,
    pub palette: Option<Vec<Palette>>,
}

/// A section's biomes, by name.
pub struct Biomes {
    pub palette: Vec<String>,
}

/// One 16 x 16 x 16 slab of a chunk.
pub struct Section {
    pub block_states: Option<BlockStates>,
    pub biomes: Option<Biomes>,
    pub y: i8,
    pub block_light: Option<Vec<u8>>,
    pub sky_light: Option<Vec<u8>>,
}

/// Height maps of a chunk column.
pub struct Heightmaps {
    pub motion_blocking_no_leaves: Option<Vec<i64>>,
    pub motion_blocking: Option<Vec<i64>>,
    pub ocean_floor: Option<Vec<i64>>,
    pub world_surface: Option<Vec<i64>>,
}

/// Structure starts of a chunk (none are tracked).
pub struct Starts {}

/// Structure references of a chunk (none are tracked).
pub struct References {}

/// Structures of a chunk.
pub struct Structures {
    pub starts: Starts,
    pub references: References,
}

/// A column of sections at one (x, z) position.
pub struct Chunk {
    pub status: String,
    pub data_version: i32,
    pub heightmaps: Option<Heightmaps>,
    pub is_light_on: Option<i8>,
    pub inhabited_time: Option<i64>,
    pub y_pos: i32,
    pub x_pos: i32,
    pub z_pos: i32,
    pub structures: Option<Structures>,
    pub last_update: Option<i64>,
    pub sections: Option<Vec<Section>>,
}

/// The registry identifier of a block-state name; unknown names give 0.
pub open spec fn block_state_id(name: Seq<char>) -> i32 {
    if name == "minecraft:air"@ {
        0
    } else if name == "minecraft:stone"@ {
        1
    } else if name == "minecraft:grass_block"@ {
        9
    } else if name == "minecraft:oak_log"@ {
        131
    } else {
        0
    }
}

/// The registry identifier of a biome name; unknown names give 0.
pub open spec fn biome_id(name: Seq<char>) -> i32 {
    if name == "minecraft:plains"@ {
        1
    } else {
        0
    }
}

/// The pieces of `parts` one after another.
pub open spec fn concat_all(parts: Seq<Seq<u8>>) -> Seq<u8>
    decreases parts.len(),
{
    if parts.len() == 0 {
        Seq::empty()
    } else {
        concat_all(parts.drop_last()) + parts.last()
    }
}

/// Whether two strings hold the same characters.
fn same_text(a: &str, b: &str) -> (r: bool)
    ensures
        r == (a@ == b@),
{
    let x = a.as_bytes();
    let y = b.as_bytes();
    proof {
        encode_utf8_decode_utf8(a@);
        encode_utf8_decode_utf8(b@);
    }
    if x.len() != y.len() {
        return false;
    }
    let mut i: usize = 0;
    while i < x.len()
        invariant
            x@.len() == y@.len(),
            x@ == encode_utf8(a@),
            y@ == encode_utf8(b@),
            i <= x@.len(),
            forall|j: int| 0 <= j < i ==> x@[j] == y@[j],
        decreases x@.len() - i,
    {
        if x[i] != y[i] {
            assert(x@ != y@);
            return false;
        }
        i = i + 1;
    }
    assert(x@ =~= y@);
    true
}

/// Looks up the registry identifier of a block-state name.
pub fn get_block_state_id(block_name: &str) -> (r: i32)
    ensures
        r == block_state_id(block_name@),
{
    if same_text(block_name, "minecraft:air") {
        0
    } else if same_text(block_name, "minecraft:stone") {
        1
    } else if same_text(block_name, "minecraft:grass_block") {
        9
    } else if same_text(block_name, "minecraft:oak_log") {
        131
    } else {
        0
    }
}

/// Looks up the registry identifier of a biome name.
pub fn get_biome_id(biome: &str) -> (r: i32)
    ensures
        r == biome_id(biome@),
{
    if same_text(biome, "minecraft:plains") {
        1
    } else {
        0
    }
}


proof fn lemma_concat_step(parts: Seq<Seq<u8>>, i: int)
    requires
        0 <= i < parts.len(),
    ensures
        concat_all(parts.take(i + 1)) == concat_all(parts.take(i)) + parts[i],
{
    assert(parts.take(i + 1).drop_last() =~= parts.take(i));
}

proof fn lemma_concat_whole(parts: Seq<Seq<u8>>)
    ensures
        parts.take(parts.len() as int) == parts,
        parts.take(0) == Seq::<Seq<u8>>::empty(),
        concat_all(Seq::<Seq<u8>>::empty()) == Seq::<u8>::empty(),
{
    assert(parts.take(parts.len() as int) =~= parts);
    assert(parts.take(0) =~= Seq::<Seq<u8>>::empty());
}

/// The VarInt identifiers of a block-state palette, in palette order.
pub open spec fn palette_ids_wire(p: Seq<Palette>) -> Seq<u8> {
    concat_all(Seq::new(p.len(), |i: int| varint_bytes(block_state_id(p[i].name@))))
}

/// The VarInt identifiers of a biome palette, in palette order.
pub open spec fn biome_ids_wire(p: Seq<String>) -> Seq<u8> {
    concat_all(Seq::new(p.len(), |i: int| varint_bytes(biome_id(p[i]@))))
}

/// 64-bit numbers, each as 8 big-endian bytes.
pub open spec fn longs_wire(d: Seq<i64>) -> Seq<u8> {
    concat_all(Seq::new(d.len(), |i: int| be_bytes(unsigned_of(d[i] as int, 8), 8)))
}

/// The serialized block states of a section: the non-air count 4096 as an
/// i16, the entry width, the palette length and identifiers, then the data
/// word count and the words.
pub open spec fn block_states_wire(p: Seq<Palette>, d: Seq<i64>) -> Seq<u8> {
    be_bytes(4096, 2) + seq![BLOCK_BITS as u8] + varint_bytes(p.len() as i32) + palette_ids_wire(p)
        + varint_bytes(d.len() as i32) + longs_wire(d)
}

/// Bits needed to index a palette of `n` entries: the ceiling of log2(n), at
/// least 1.
pub open spec fn palette_bits(n: nat) -> nat
    decreases n,
{
    if n <= 2 {
        1
    } else {
        1 + palette_bits(((n + 1) / 2) as nat)
    }
}

/// The serialized biomes of a section: the entry width, the palette length
/// and identifiers, then 64 zero words (every voxel on the first biome).
pub open spec fn biomes_wire(p: Seq<String>) -> Seq<u8> {
    seq![palette_bits(p.len()) as u8] + varint_bytes(p.len() as i32) + biome_ids_wire(p)
        + varint_bytes(64) + longs_wire(Seq::new(64, |i: int| 0i64))
}

/// Lengths of a section's block-state palette and data that a VarInt can carry.
pub open spec fn block_states_fit(bs: BlockStates) -> bool {
    &&& bs.palette matches Some(p) ==> p@.len() <= i32::MAX
    &&& bs.data matches Some(d) ==> d@.len() <= i32::MAX
}

fn write_palette_ids(out: &mut Vec<u8>, palette: &Vec<Palette>)
    ensures
        final(out)@ == old(out)@ + palette_ids_wire(palette@),
{
    let ghost parts = Seq::new(palette@.len(), |i: int| varint_bytes(block_state_id(palette@[i].name@)));
    proof {
        lemma_concat_whole(parts);
    }
    let mut i: usize = 0;
    while i < palette.len()
        invariant
            parts == Seq::new(palette@.len(), |i: int| varint_bytes(block_state_id(palette@[i].name@))),
            i <= palette@.len(),
            out@ == old(out)@ + concat_all(parts.take(i as int)),
        decreases palette@.len() - i,
    {
        let id = get_block_state_id(palette[i].name.as_str());
        encode_varint(id, out);
        proof {
            lemma_concat_step(parts, i as int);
        }
        assert(out@ =~= old(out)@ + concat_all(parts.take(i + 1)));
        i = i + 1;
    }
    proof {
        lemma_concat_whole(parts);
    }
}

fn write_biome_ids(out: &mut Vec<u8>, palette: &Vec<String>)
    ensures
        final(out)@ == old(out)@ + biome_ids_wire(palette@),
{
    let ghost parts = Seq::new(palette@.len(), |i: int| varint_bytes(biome_id(palette@[i]@)));
    proof {
        lemma_concat_whole(parts);
    }
    let mut i: usize = 0;
    while i < palette.len()
        invariant
            parts == Seq::new(palette@.len(), |i: int| varint_bytes(biome_id(palette@[i]@))),
            i <= palette@.len(),
            out@ == old(out)@ + concat_all(parts.take(i as int)),
        decreases palette@.len() - i,
    {
        let id = get_biome_id(palette[i].as_str());
        encode_varint(id, out);
        proof {
            lemma_concat_step(parts, i as int);
        }
        assert(out@ =~= old(out)@ + concat_all(parts.take(i + 1)));
        i = i + 1;
    }
    proof {
        lemma_concat_whole(parts);
    }
}

fn write_longs(out: &mut Vec<u8>, data: &Vec<i64>)
    ensures
        final(out)@ == old(out)@ + longs_wire(data@),
{
    let ghost parts = Seq::new(data@.len(), |i: int| be_bytes(unsigned_of(data@[i] as int, 8), 8));
    proof {
        lemma_concat_whole(parts);
    }
    let mut i: usize = 0;
    while i < data.len()
        invariant
            parts == Seq::new(data@.len(), |i: int| be_bytes(unsigned_of(data@[i] as int, 8), 8)),
            i <= data@.len(),
            out@ == old(out)@ + concat_all(parts.take(i as int)),
        decreases data@.len() - i,
    {
        encode_i64(data[i], out);
        proof {
            lemma_concat_step(parts, i as int);
        }
        assert(out@ =~= old(out)@ + concat_all(parts.take(i + 1)));
        i = i + 1;
    }
    proof {
        lemma_concat_whole(parts);
    }
}

/// Serializes a section's block states; fails with `MissingSectionData` when
/// the palette or the data is absent.
pub fn serialize_block_states(block_states: &BlockStates) -> (r: Result<Vec<u8>, ProtocolError>)
    requires
        block_states_fit(*block_states),
    ensures
        block_states.palette is None || block_states.data is None ==> r == Err::<Vec<u8>, _>(
            ProtocolError::MissingSectionData,
        ),
        block_states.palette is Some && block_states.data is Some ==> r is Ok,
        r matches Ok(bytes) ==> bytes@ == block_states_wire(
            block_states.palette->Some_0@,
            block_states.data->Some_0@,
        ),
{
    let mut data: Vec<u8> = Vec::new();
    let non_air_blocks: i16 = 4096;
    encode_i16(non_air_blocks, &mut data);
    let palettes = match &block_states.palette {
        Some(p) => p,
        None => return Err(ProtocolError::MissingSectionData),
    };
    let block_data = match &block_states.data {
        Some(d) => d,
        None => return Err(ProtocolError::MissingSectionData),
    };
    data.push(BLOCK_BITS as u8);
    encode_varint(palettes.len() as i32, &mut data);
    write_palette_ids(&mut data, palettes);
    encode_varint(block_data.len() as i32, &mut data);
    write_longs(&mut data, block_data);
    assert(data@ =~= block_states_wire(palettes@, block_data@));
    Ok(data)
}

proof fn lemma_palette_bits_bound(n: nat, k: nat)
    requires
        k >= 1,
        n <= pow2(k),
    ensures
        1 <= palette_bits(n) <= k,
    decreases n,
{
    if n > 2 {
        assert(pow2(k) == 2 * pow2((k - 1) as nat));
        if k == 1 {
            assert(pow2(0) == 1);
        }
        lemma_palette_bits_bound(((n + 1) / 2) as nat, (k - 1) as nat);
    }
}

/// 2 to the power `n`.
pub open spec fn pow2(n: nat) -> nat
    decreases n,
{
    if n == 0 {
        1
    } else {
        2 * pow2((n - 1) as nat)
    }
}

/// The entry width for a palette of `len` entries.
fn bits_for_palette(len: usize) -> (b: u8)
    ensures
        b == palette_bits(len as nat),
{
    proof {
        reveal_with_fuel(pow2, 65);
        assert(pow2(64) == 0x1_0000_0000_0000_0000);
        lemma_palette_bits_bound(len as nat, 64);
    }
    let mut b: u8 = 1;
    let mut m: usize = len;
    while m > 2
        invariant
            palette_bits(len as nat) == (b - 1) + palette_bits(m as nat),
            palette_bits(len as nat) <= 64,
            b >= 1,
        decreases m,
    {
        assert(m / 2 + m % 2 == (m as nat + 1) / 2);
        m = m / 2 + m % 2;
        b = b + 1;
    }
    b
}

/// Serializes a section's biomes, every voxel on the first palette entry.
pub fn serialize_biomes(biomes: &Biomes) -> (r: Vec<u8>)
    requires
        biomes.palette@.len() <= i32::MAX,
    ensures
        r@ == biomes_wire(biomes.palette@),
{
    let mut data: Vec<u8> = Vec::new();
    let palette_len = biomes.palette.len();
    let bits_per_biome = bits_for_palette(palette_len);
    data.push(bits_per_biome);
    encode_varint(palette_len as i32, &mut data);
    write_biome_ids(&mut data, &biomes.palette);
    let mut biome_data: Vec<i64> = Vec::new();
    while biome_data.len() < 64
        invariant
            biome_data@.len() <= 64,
            forall|i: int| 0 <= i < biome_data@.len() ==> biome_data@[i] == 0,
        decreases 64 - biome_data@.len(),
    {
        biome_data.push(0);
    }
    assert(biome_data@ =~= Seq::new(64, |i: int| 0i64));
    encode_varint(biome_data.len() as i32, &mut data);
    write_longs(&mut data, &biome_data);
    assert(data@ =~= biomes_wire(biomes.palette@));
    data
}


/// Block indices widened to 64 bits.
pub open spec fn widen(layer: Seq<u8>) -> Seq<u64> {
    Seq::new(layer.len(), |i: int| layer[i] as u64)
}

/// Every layer packed `BLOCK_BITS` bits per entry, the layers' words one
/// after another (each layer starts a fresh word).
pub open spec fn layers_words(layers: Seq<Seq<u8>>) -> Seq<u64>
    decreases layers.len(),
{
    if layers.len() == 0 {
        Seq::empty()
    } else {
        layers_words(layers.drop_last()) + packed(widen(layers.last()), BLOCK_BITS)
    }
}

/// Words with the same bits, read as signed numbers.
pub open spec fn as_signed_words(w: Seq<u64>) -> Seq<i64> {
    Seq::new(w.len(), |i: int| signed_of(w[i] as nat, 8) as i64)
}

/// The layers of `chunk_data` as sequences of bytes.
pub open spec fn layers_view(chunk_data: Seq<Vec<u8>>) -> Seq<Seq<u8>> {
    Seq::new(chunk_data.len(), |i: int| chunk_data[i]@)
}

/// Builds a section's block states from per-voxel palette indices, one
/// packed run of `BLOCK_BITS`-bit entries per layer.
pub fn create_block_states(chunk_data: Vec<Vec<u8>>, palette: Vec<Palette>) -> (r: BlockStates)
    ensures
        r.palette == Some(palette),
        r.data matches Some(d) && d@ == as_signed_words(layers_words(layers_view(chunk_data@))),
{
    let ghost layers = layers_view(chunk_data@);
    let mut data: Vec<i64> = Vec::new();
    let mut li: usize = 0;
    assert(layers.take(0) =~= Seq::<Seq<u8>>::empty());
    assert(data@ =~= as_signed_words(layers_words(layers.take(0))));
    while li < chunk_data.len()
        invariant
            layers == layers_view(chunk_data@),
            li <= chunk_data@.len(),
            data@ == as_signed_words(layers_words(layers.take(li as int))),
        decreases chunk_data@.len() - li,
    {
        let layer = &chunk_data[li];
        let mut wide: Vec<u64> = Vec::new();
        let mut k: usize = 0;
        while k < layer.len()
            invariant
                k <= layer@.len(),
                wide@ =~= widen(layer@.take(k as int)),
            decreases layer@.len() - k,
        {
            wide.push(layer[k] as u64);
            k = k + 1;
            assert(wide@ =~= widen(layer@.take(k as int)));
        }
        assert(layer@.take(layer@.len() as int) =~= layer@);
        let words = pack_entries(&wide, BLOCK_BITS);
        let ghost before = data@;
        let mut j: usize = 0;
        while j < words.len()
            invariant
                j <= words@.len(),
                data@ =~= before + as_signed_words(words@.take(j as int)),
            decreases words@.len() - j,
        {
            proof {
                lemma_casts_64(0, words@[j as int]);
            }
            data.push(words[j] as i64);
            j = j + 1;
            assert(data@ =~= before + as_signed_words(words@.take(j as int)));
        }
        assert(words@.take(words@.len() as int) =~= words@);
        assert(layers.take(li + 1).drop_last() =~= layers.take(li as int));
        assert(layers.take(li + 1).last() == chunk_data@[li as int]@);
        assert(data@ =~= as_signed_words(layers_words(layers.take(li + 1))));
        li = li + 1;
    }
    assert(layers.take(chunk_data@.len() as int) =~= layers);
    BlockStates { data: Some(data), palette: Some(palette) }
}

/// A vector of `n` copies of `v`.
fn filled(v: u8, n: usize) -> (r: Vec<u8>)
    ensures
        r@ == Seq::new(n as nat, |i: int| v),
{
    let mut out: Vec<u8> = Vec::new();
    while out.len() < n
        invariant
            out@.len() <= n,
            forall|i: int| 0 <= i < out@.len() ==> out@[i] == v,
        decreases n - out@.len(),
    {
        out.push(v);
    }
    assert(out@ =~= Seq::new(n as nat, |i: int| v));
    out
}

/// The number of sections in a chunk column.
pub const SECTIONS: usize = 24;

/// The lowest section index of a column.
pub const LOWEST_SECTION: i8 = -4;

/// Every part that serializing `c` needs is present.
pub open spec fn chunk_complete(c: Chunk) -> bool {
    &&& c.heightmaps is Some
    &&& c.sections is Some
    &&& forall|i: int| 0 <= i < c.sections->Some_0@.len() ==> section_complete(#[trigger] c.sections->Some_0@[i])
}

/// A section has its block-state palette and data and its biomes.
pub open spec fn section_complete(s: Section) -> bool {
    &&& s.block_states matches Some(bs) && bs.palette is Some && bs.data is Some
    &&& s.biomes is Some
}

/// Every palette and data array of `c` has a length that a VarInt can carry.
pub open spec fn chunk_fits(c: Chunk) -> bool {
    c.sections matches Some(ss) ==> forall|i: int| 0 <= i < ss@.len() ==> section_fits(#[trigger] ss@[i])
}

/// A section's palettes and data have lengths that a VarInt can carry.
pub open spec fn section_fits(s: Section) -> bool {
    &&& s.block_states matches Some(bs) ==> block_states_fit(bs)
    &&& s.biomes matches Some(b) ==> b.palette@.len() <= i32::MAX
}

/// The two-entry stub palette: air, then stone.
fn stub_palette() -> (r: Vec<Palette>)
    ensures
        r@.len() == 2,
        r@[0].name@ == "minecraft:air"@,
        r@[1].name@ == "minecraft:stone"@,
{
    let mut palette: Vec<Palette> = Vec::new();
    palette.push(Palette { name: "minecraft:air".to_owned(), properties: None });
    palette.push(Palette { name: "minecraft:stone".to_owned(), properties: None });
    palette
}

/// Builds a stub chunk at (`chunk_x`, `chunk_z`): `SECTIONS` sections from
/// `LOWEST_SECTION` up, every voxel stone, plains biome, fully lit, with flat
/// height maps.
pub fn create_basic_chunk(chunk_x: i32, chunk_z: i32) -> (r: Chunk)
    ensures
        r.x_pos == chunk_x,
        r.z_pos == chunk_z,
        r.y_pos == LOWEST_SECTION,
        chunk_complete(r),
        chunk_fits(r),
        r.sections->Some_0@.len() == SECTIONS,
        forall|i: int| 0 <= i < SECTIONS ==> stub_section(#[trigger] r.sections->Some_0@[i], i),
{
    let mut sections: Vec<Section> = Vec::new();
    let mut k: usize = 0;
    while k < SECTIONS
        invariant
            k <= SECTIONS,
            sections@.len() == k,
            forall|i: int| 0 <= i < k ==> stub_section(#[trigger] sections@[i], i),
        decreases SECTIONS - k,
    {
        let mut chunk_data: Vec<Vec<u8>> = Vec::new();
        chunk_data.push(filled(1, SECTION_VOLUME));
        let ghost layers = layers_view(chunk_data@);
        let block_states = create_block_states(chunk_data, stub_palette());
        proof {
            assert(layers.drop_last() =~= Seq::<Seq<u8>>::empty());
            assert(widen(layers.last()) =~= Seq::new(4096, |i: int| 1u64));
            assert(layers_words(Seq::<Seq<u8>>::empty()) == Seq::<u64>::empty());
            assert(layers_words(layers) == layers_words(layers.drop_last()) + packed(
                widen(layers.last()),
                BLOCK_BITS,
            ));
            assert(layers_words(layers) =~= packed(Seq::new(4096, |i: int| 1u64), BLOCK_BITS));
        }
        let mut biome_palette: Vec<String> = Vec::new();
        biome_palette.push("minecraft:plains".to_owned());
        let section = Section {
            block_states: Some(block_states),
            biomes: Some(Biomes { palette: biome_palette }),
            y: (k as i8) + LOWEST_SECTION,
            block_light: Some(filled(0xf, 2048)),
            sky_light: Some(filled(0xf, 2048)),
        };
        sections.push(section);
        k = k + 1;
    }
    let mut motion_blocking: Vec<i64> = Vec::new();
    let mut world_surface: Vec<i64> = Vec::new();
    while motion_blocking.len() < 37
        invariant
            motion_blocking@.len() == world_surface@.len(),
            motion_blocking@.len() <= 37,
        decreases 37 - motion_blocking@.len(),
    {
        motion_blocking.push(0);
        world_surface.push(0);
    }
    Chunk {
        status: "full".to_owned(),
        data_version: 3465,
        heightmaps: Some(
            Heightmaps {
                motion_blocking_no_leaves: None,
                motion_blocking: Some(motion_blocking),
                ocean_floor: None,
                world_surface: Some(world_surface),
            },
        ),
        is_light_on: Some(1),
        inhabited_time: Some(0),
        y_pos: LOWEST_SECTION as i32,
        x_pos: chunk_x,
        z_pos: chunk_z,
        structures: Some(Structures { starts: Starts {  }, references: References {  } }),
        last_update: Some(0),
        sections: Some(sections),
    }
}

/// Section `i` of the stub chunk: height `LOWEST_SECTION + i`, palette air
/// and stone with every voxel on stone, plains biome.
pub open spec fn stub_section(s: Section, i: int) -> bool {
    &&& s.y == LOWEST_SECTION + i
    &&& s.block_states matches Some(bs) && bs.palette matches Some(p) && bs.data matches Some(d)
        && p@.len() == 2 && p@[0].name@ == "minecraft:air"@ && p@[1].name@ == "minecraft:stone"@
        && d@ == as_signed_words(packed(Seq::new(4096, |j: int| 1u64), BLOCK_BITS))
    &&& s.biomes matches Some(b) && b.palette@.len() == 1 && b.palette@[0]@ == "minecraft:plains"@
}

} // verus!
