use vstd::prelude::*;

use crate::chunk::{
    as_signed_words, biome_ids_wire, biomes_wire, block_states_wire, chunk_complete, chunk_fits,
    concat_all, create_basic_chunk, longs_wire, palette_bits, palette_ids_wire, section_complete,
    section_fits, serialize_biomes, serialize_block_states, stub_section, Chunk, Heightmaps,
    Section, BLOCK_BITS, SECTIONS,
};
use crate::packing::packed;
use crate::error::ProtocolError;
use crate::light::{bitset_wire, full_light, full_light_arrays, light_array_wire, BitSet, LightArray};
use crate::primitive::{append_bytes, be_bytes, encode_i16, encode_i32, encode_u8, unsigned_of};
use crate::varint::{encode_varint, varint_bytes};

verus! {

/// Packet identifier of the chunk-data-and-light packet.
pub const CHUNK_DATA_PACKET_ID: i32 = 0x24;

/// A block entity inside a chunk packet; `data` is its tag-tree payload.
pub struct BlockEntity {
    pub packed_xz: u8,
    pub y: i16,
    pub type_id: i32,
    pub data: Vec<u8>,
}

/// The outgoing chunk packet: a column's blocks, biomes and light.
pub struct ChunkDataAndUpdateLight {
    pub packet_id: i32,
    pub chunk_x: i32,
    pub chunk_z: i32,
    pub heightmaps: Heightmaps,
    pub data: Vec<u8>,
    pub block_entities_count: i32,
    pub block_entities: Vec<BlockEntity>,
    pub sky_light_mask: BitSet,
    pub block_light_mask: BitSet,
    pub empty_sky_light_mask: BitSet,
    pub empty_block_light_mask: BitSet,
    pub sky_light_array_count: i32,
    pub sky_light_arrays: Vec<LightArray>,
    pub block_light_array_count: i32,
    pub block_light_arrays: Vec<LightArray>,
}

/// The serialized block states and biomes of a complete section.
pub open spec fn section_wire(s: Section) -> Seq<u8> {
    block_states_wire(
        s.block_states->Some_0.palette->Some_0@,
        s.block_states->Some_0.data->Some_0@,
    ) + biomes_wire(s.biomes->Some_0.palette@)
}

/// The serialized sections, bottom to top.
pub open spec fn sections_wire(ss: Seq<Section>) -> Seq<u8> {
    concat_all(Seq::new(ss.len(), |i: int| section_wire(ss[i])))
}

/// The serialized data of one stub section: non-air count 4096, width
/// `BLOCK_BITS`, palette of air (0) and stone (1), the packed all-stone
/// words, then width 1, palette of plains (1) and 64 zero words.
pub open spec fn stub_section_wire() -> Seq<u8> {
    let words = as_signed_words(packed(Seq::new(4096, |j: int| 1u64), BLOCK_BITS));
    be_bytes(4096, 2) + seq![BLOCK_BITS as u8] + varint_bytes(2) + (varint_bytes(0) + varint_bytes(1))
        + varint_bytes(words.len() as i32) + longs_wire(words) + (seq![1u8] + varint_bytes(1)
        + varint_bytes(1) + varint_bytes(64) + longs_wire(Seq::new(64, |i: int| 0i64)))
}

proof fn lemma_stub_section_wire(s: Section, i: int)
    requires
        stub_section(s, i),
    ensures
        section_wire(s) == stub_section_wire(),
{
    reveal_strlit("minecraft:air");
    reveal_strlit("minecraft:stone");
    let p = s.block_states->Some_0.palette->Some_0@;
    let d = s.block_states->Some_0.data->Some_0@;
    let b = s.biomes->Some_0.palette@;
    let ids = Seq::new(p.len(), |i: int| varint_bytes(crate::chunk::block_state_id(p[i].name@)));
    assert(p[1].name@ != "minecraft:air"@) by {
        assert(p[1].name@[10] != "minecraft:air"@[10]);
    }
    assert(ids.drop_last().drop_last() =~= Seq::<Seq<u8>>::empty());
    assert(ids.drop_last().last() == varint_bytes(0));
    assert(ids.last() == varint_bytes(1));
    assert(concat_all(ids) == concat_all(ids.drop_last()) + ids.last());
    assert(concat_all(ids.drop_last()) == concat_all(ids.drop_last().drop_last()) + ids.drop_last().last());
    assert(concat_all(ids.drop_last().drop_last()) == Seq::<u8>::empty());
    assert(palette_ids_wire(p) =~= varint_bytes(0) + varint_bytes(1));
    let bids = Seq::new(b.len(), |i: int| varint_bytes(crate::chunk::biome_id(b[i]@)));
    assert(bids.drop_last() =~= Seq::<Seq<u8>>::empty());
    assert(concat_all(bids) == concat_all(bids.drop_last()) + bids.last());
    assert(concat_all(bids.drop_last()) == Seq::<u8>::empty());
    assert(biome_ids_wire(b) =~= varint_bytes(1));
    assert(palette_bits(1) == 1);
    assert(section_wire(s) =~= stub_section_wire());
}

impl ChunkDataAndUpdateLight {
    /// Every section fully lit: both light masks hold the `SECTIONS` indices,
    /// the empty masks hold none, and there is one full array per section.
    pub open spec fn fully_lit(&self) -> bool {
        &&& forall|i: nat| self.sky_light_mask.has(i) <==> i < SECTIONS
        &&& forall|i: nat| self.block_light_mask.has(i) <==> i < SECTIONS
        &&& forall|i: nat| !self.empty_sky_light_mask.has(i)
        &&& forall|i: nat| !self.empty_block_light_mask.has(i)
        &&& self.sky_light_array_count == SECTIONS
        &&& self.block_light_array_count == SECTIONS
        &&& self.sky_light_arrays@.len() == SECTIONS
        &&& self.block_light_arrays@.len() == SECTIONS
        &&& forall|i: int| 0 <= i < SECTIONS ==> full_light(#[trigger] self.sky_light_arrays@[i])
        &&& forall|i: int| 0 <= i < SECTIONS ==> full_light(#[trigger] self.block_light_arrays@[i])
    }

    /// Assembles the packet for `chunk`: its sections serialized bottom to
    /// top, no block entities, every section fully lit. Fails with
    /// `MissingSectionData`, and builds nothing, when the height maps, the
    /// sections, or any section's block states or biomes are absent.
    pub fn from_chunk(chunk: Chunk) -> (r: Result<Self, ProtocolError>)
        requires
            chunk_fits(chunk),
        ensures
            r is Err <==> !chunk_complete(chunk),
            r is Err ==> r == Err::<Self, _>(ProtocolError::MissingSectionData),
            r matches Ok(p) ==> {
                &&& p.packet_id == CHUNK_DATA_PACKET_ID
                &&& p.chunk_x == chunk.x_pos
                &&& p.chunk_z == chunk.z_pos
                &&& p.heightmaps == chunk.heightmaps->Some_0
                &&& p.data@ == sections_wire(chunk.sections->Some_0@)
                &&& p.block_entities_count == 0
                &&& p.block_entities@.len() == 0
                &&& p.fully_lit()
            },
    {
        let sections = match &chunk.sections {
            Some(s) => s,
            None => return Err(ProtocolError::MissingSectionData),
        };
        let ghost ss = sections@;
        assert(chunk.sections->Some_0@ == ss);
        let ghost parts = Seq::new(ss.len(), |i: int| section_wire(ss[i]));
        let mut data: Vec<u8> = Vec::new();
        let mut i: usize = 0;
        assert(parts.take(0) =~= Seq::<Seq<u8>>::empty());
        assert(data@ =~= concat_all(parts.take(0)));
        while i < sections.len()
            invariant
                ss == sections@,
                chunk.sections is Some,
                chunk.sections->Some_0@ == ss,
                parts == Seq::new(ss.len(), |i: int| section_wire(ss[i])),
                chunk_fits(chunk),
                i <= ss.len(),
                forall|j: int| 0 <= j < i ==> section_complete(#[trigger] ss[j]),
                data@ == concat_all(parts.take(i as int)),
            decreases ss.len() - i,
        {
            let section = &sections[i];
            assert(section_fits(ss[i as int]));
            let block_states = match &section.block_states {
                Some(b) => b,
                None => return Err(ProtocolError::MissingSectionData),
            };
            let block_states_data = match serialize_block_states(block_states) {
                Ok(d) => d,
                Err(e) => return Err(e),
            };
            let biomes = match &section.biomes {
                Some(b) => b,
                None => return Err(ProtocolError::MissingSectionData),
            };
            let biomes_data = serialize_biomes(biomes);
            let ghost before = data@;
            let mut k: usize = 0;
            while k < block_states_data.len()
                invariant
                    k <= block_states_data@.len(),
                    data@ == before + block_states_data@.take(k as int),
                decreases block_states_data@.len() - k,
            {
                data.push(block_states_data[k]);
                k = k + 1;
                assert(data@ =~= before + block_states_data@.take(k as int));
            }
            let ghost middle = data@;
            k = 0;
            while k < biomes_data.len()
                invariant
                    k <= biomes_data@.len(),
                    data@ == middle + biomes_data@.take(k as int),
                decreases biomes_data@.len() - k,
            {
                data.push(biomes_data[k]);
                k = k + 1;
                assert(data@ =~= middle + biomes_data@.take(k as int));
            }
            assert(block_states_data@.take(block_states_data@.len() as int) =~= block_states_data@);
            assert(biomes_data@.take(biomes_data@.len() as int) =~= biomes_data@);
            assert(parts.take(i + 1).drop_last() =~= parts.take(i as int));
            assert(data@ =~= concat_all(parts.take(i + 1)));
            i = i + 1;
        }
        assert(parts.take(ss.len() as int) =~= parts);
        let heightmaps = match chunk.heightmaps {
            Some(h) => h,
            None => return Err(ProtocolError::MissingSectionData),
        };
        Ok(ChunkDataAndUpdateLight {
            packet_id: CHUNK_DATA_PACKET_ID,
            chunk_x: chunk.x_pos,
            chunk_z: chunk.z_pos,
            heightmaps,
            data,
            block_entities_count: 0,
            block_entities: Vec::new(),
            sky_light_mask: BitSet::first_n(SECTIONS),
            block_light_mask: BitSet::first_n(SECTIONS),
            empty_sky_light_mask: BitSet::empty(),
            empty_block_light_mask: BitSet::empty(),
            sky_light_array_count: SECTIONS as i32,
            sky_light_arrays: full_light_arrays(SECTIONS),
            block_light_array_count: SECTIONS as i32,
            block_light_arrays: full_light_arrays(SECTIONS),
        })
    }

    /// Builds the packet for the stub chunk at (`chunk_x`, `chunk_z`).
    pub fn new(chunk_x: i32, chunk_z: i32) -> (r: Result<Self, ProtocolError>)
        ensures
            r matches Ok(p) && p.packet_id == CHUNK_DATA_PACKET_ID && p.chunk_x == chunk_x
                && p.chunk_z == chunk_z && p.block_entities_count == 0
                && p.block_entities@.len() == 0 && p.fully_lit() && p.data@ == concat_all(
                Seq::new(SECTIONS as nat, |i: int| stub_section_wire()),
            ),
    {
        let chunk = create_basic_chunk(chunk_x, chunk_z);
        let ghost ss = chunk.sections->Some_0@;
        proof {
            assert forall|i: int| 0 <= i < SECTIONS implies section_wire(ss[i]) == stub_section_wire() by {
                lemma_stub_section_wire(ss[i], i);
            }
            assert(Seq::new(ss.len(), |i: int| section_wire(ss[i])) =~= Seq::new(
                SECTIONS as nat,
                |i: int| stub_section_wire(),
            ));
        }
        Self::from_chunk(chunk)
    }
}


/// A block entity on the wire: packed x/z, y as an i16, the type as a VarInt,
/// then its tag-tree payload.
pub open spec fn block_entity_wire(e: BlockEntity) -> Seq<u8> {
    be_bytes(e.packed_xz as nat, 1) + be_bytes(unsigned_of(e.y as int, 2), 2) + varint_bytes(e.type_id)
        + e.data@
}

/// Light arrays one after another, each with its own length prefix.
pub open spec fn light_arrays_wire(v: Seq<LightArray>) -> Seq<u8> {
    concat_all(Seq::new(v.len(), |i: int| light_array_wire(v[i])))
}

/// Block entities one after another.
pub open spec fn block_entities_wire(v: Seq<BlockEntity>) -> Seq<u8> {
    concat_all(Seq::new(v.len(), |i: int| block_entity_wire(v[i])))
}

impl BlockEntity {
    /// Appends the block entity in its wire form.
    pub fn encode(&self, out: &mut Vec<u8>)
        ensures
            final(out)@ == old(out)@ + block_entity_wire(*self),
    {
        encode_u8(self.packed_xz, out);
        encode_i16(self.y, out);
        encode_varint(self.type_id, out);
        append_bytes(out, self.data.as_slice());
        assert(final(out)@ =~= old(out)@ + block_entity_wire(*self));
    }
}

fn encode_light_arrays(v: &Vec<LightArray>, out: &mut Vec<u8>)
    requires
        forall|i: int| 0 <= i < v@.len() ==> (#[trigger] v@[i]).data@.len() <= i32::MAX,
    ensures
        final(out)@ == old(out)@ + light_arrays_wire(v@),
{
    let ghost parts = Seq::new(v@.len(), |i: int| light_array_wire(v@[i]));
    let mut i: usize = 0;
    assert(parts.take(0) =~= Seq::<Seq<u8>>::empty());
    assert(out@ =~= old(out)@ + concat_all(parts.take(0)));
    while i < v.len()
        invariant
            parts == Seq::new(v@.len(), |i: int| light_array_wire(v@[i])),
            forall|i: int| 0 <= i < v@.len() ==> (#[trigger] v@[i]).data@.len() <= i32::MAX,
            i <= v@.len(),
            out@ == old(out)@ + concat_all(parts.take(i as int)),
        decreases v@.len() - i,
    {
        v[i].encode(out);
        assert(parts.take(i + 1).drop_last() =~= parts.take(i as int));
        assert(out@ =~= old(out)@ + concat_all(parts.take(i + 1)));
        i = i + 1;
    }
    assert(parts.take(v@.len() as int) =~= parts);
}

fn encode_block_entities(v: &Vec<BlockEntity>, out: &mut Vec<u8>)
    ensures
        final(out)@ == old(out)@ + block_entities_wire(v@),
{
    let ghost parts = Seq::new(v@.len(), |i: int| block_entity_wire(v@[i]));
    let mut i: usize = 0;
    assert(parts.take(0) =~= Seq::<Seq<u8>>::empty());
    assert(out@ =~= old(out)@ + concat_all(parts.take(0)));
    while i < v.len()
        invariant
            parts == Seq::new(v@.len(), |i: int| block_entity_wire(v@[i])),
            i <= v@.len(),
            out@ == old(out)@ + concat_all(parts.take(i as int)),
        decreases v@.len() - i,
    {
        v[i].encode(out);
        assert(parts.take(i + 1).drop_last() =~= parts.take(i as int));
        assert(out@ =~= old(out)@ + concat_all(parts.take(i + 1)));
        i = i + 1;
    }
    assert(parts.take(v@.len() as int) =~= parts);
}

/// The packet on the wire, with `heightmaps` the tag-tree encoding of its
/// height maps: id, x and z, height maps, the length-prefixed section data,
/// the block entities, the four masks, then the two lists of light arrays,
/// each after its count.
pub open spec fn packet_wire(p: ChunkDataAndUpdateLight, heightmaps: Seq<u8>) -> Seq<u8> {
    varint_bytes(p.packet_id) + be_bytes(unsigned_of(p.chunk_x as int, 4), 4) + be_bytes(
        unsigned_of(p.chunk_z as int, 4),
        4,
    ) + heightmaps + varint_bytes(p.data@.len() as i32) + p.data@ + varint_bytes(
        p.block_entities_count,
    ) + block_entities_wire(p.block_entities@) + bitset_wire(p.sky_light_mask.words@)
        + bitset_wire(p.block_light_mask.words@) + bitset_wire(p.empty_sky_light_mask.words@)
        + bitset_wire(p.empty_block_light_mask.words@) + varint_bytes(p.sky_light_array_count)
        + light_arrays_wire(p.sky_light_arrays@) + varint_bytes(p.block_light_array_count)
        + light_arrays_wire(p.block_light_arrays@)
}

impl ChunkDataAndUpdateLight {
    /// Every length in the packet fits in a VarInt.
    pub open spec fn fits(&self) -> bool {
        &&& self.data@.len() <= i32::MAX
        &&& self.sky_light_mask.words@.len() <= i32::MAX
        &&& self.block_light_mask.words@.len() <= i32::MAX
        &&& self.empty_sky_light_mask.words@.len() <= i32::MAX
        &&& self.empty_block_light_mask.words@.len() <= i32::MAX
        &&& forall|i: int| 0 <= i < self.sky_light_arrays@.len() ==> (
        #[trigger] self.sky_light_arrays@[i]).data@.len() <= i32::MAX
        &&& forall|i: int| 0 <= i < self.block_light_arrays@.len() ==> (
        #[trigger] self.block_light_arrays@[i]).data@.len() <= i32::MAX
    }

    /// Appends the packet in its wire form; `heightmaps` is the tag-tree
    /// encoding of its height maps.
    #[verifier::rlimit(40)]
    pub fn encode(&self, heightmaps: &[u8], out: &mut Vec<u8>)
        requires
            self.fits(),
        ensures
            final(out)@ == old(out)@ + packet_wire(*self, heightmaps@),
    {
        encode_varint(self.packet_id, out);
        encode_i32(self.chunk_x, out);
        encode_i32(self.chunk_z, out);
        append_bytes(out, heightmaps);
        encode_varint(self.data.len() as i32, out);
        append_bytes(out, self.data.as_slice());
        encode_varint(self.block_entities_count, out);
        encode_block_entities(&self.block_entities, out);
        self.sky_light_mask.encode(out);
        self.block_light_mask.encode(out);
        self.empty_sky_light_mask.encode(out);
        self.empty_block_light_mask.encode(out);
        encode_varint(self.sky_light_array_count, out);
        encode_light_arrays(&self.sky_light_arrays, out);
        encode_varint(self.block_light_array_count, out);
        encode_light_arrays(&self.block_light_arrays, out);
        assert(final(out)@ =~= old(out)@ + packet_wire(*self, heightmaps@));
    }
}

} // verus!
