use vstd::prelude::*;

use crate::chunk::concat_all;
use crate::primitive::{append_bytes, be_bytes, encode_u64};
use crate::varint::{encode_varint, varint_bytes};

verus! {

/// A set of section indices, one bit each, in 64-bit words, low bits first.
pub struct BitSet {
    pub words: Vec<u64>,
}

impl BitSet {
    /// Whether index `i` is in the set.
    pub open spec fn has(&self, i: nat) -> bool {
        &&& i / 64 < self.words@.len()
        &&& (self.words@[(i / 64) as int] >> ((i % 64) as u64)) & 1 == 1
    }

    /// The set with no index.
    pub fn empty() -> (r: BitSet)
        ensures
            forall|i: nat| !r.has(i),
            r.words@.len() == 0,
    {
        BitSet { words: Vec::new() }
    }

    /// The set of the indices below `n`.
    pub fn first_n(n: usize) -> (r: BitSet)
        requires
            1 <= n <= 64,
        ensures
            forall|i: nat| r.has(i) <==> i < n,
            r.words@.len() == 1,
    {
        let sh = n as u64;
        assert(sh < 64 ==> (1u64 << sh) >= 1) by (bit_vector);
        let word: u64 = if n == 64 {
            0xFFFF_FFFF_FFFF_FFFF
        } else {
            (1u64 << sh) - 1
        };
        let ghost m = n as u64;
        assert(forall|i: u64| i < 64 ==> (((word >> i) & 1 == 1) <==> i < m)) by (bit_vector)
            requires
                1 <= m <= 64,
                word == if m == 64 { 0xFFFF_FFFF_FFFF_FFFFu64 } else { ((1u64 << m) - 1) as u64 },
        ;
        let mut words: Vec<u64> = Vec::new();
        words.push(word);
        let r = BitSet { words };
        assert forall|i: nat| r.has(i) <==> i < n by {
            if i < 64 {
                assert(i / 64 == 0 && i % 64 == i);
                assert(((word >> (i as u64)) & 1 == 1) <==> (i as u64) < m);
            }
        }
        r
    }
}

/// A bit set on the wire: its word count as a VarInt, then each word as 8
/// big-endian bytes.
pub open spec fn bitset_wire(words: Seq<u64>) -> Seq<u8> {
    varint_bytes(words.len() as i32) + concat_all(Seq::new(words.len(), |i: int| be_bytes(words[i] as nat, 8)))
}

impl BitSet {
    /// Appends the set in its wire form.
    pub fn encode(&self, out: &mut Vec<u8>)
        requires
            self.words@.len() <= i32::MAX,
        ensures
            final(out)@ == old(out)@ + bitset_wire(self.words@),
    {
        encode_varint(self.words.len() as i32, out);
        let ghost start = out@;
        let ghost parts = Seq::new(self.words@.len(), |i: int| be_bytes(self.words@[i] as nat, 8));
        let mut i: usize = 0;
        assert(parts.take(0) =~= Seq::<Seq<u8>>::empty());
        assert(out@ =~= start + concat_all(parts.take(0)));
        while i < self.words.len()
            invariant
                parts == Seq::new(self.words@.len(), |i: int| be_bytes(self.words@[i] as nat, 8)),
                i <= self.words@.len(),
                out@ == start + concat_all(parts.take(i as int)),
            decreases self.words@.len() - i,
        {
            encode_u64(self.words[i], out);
            assert(parts.take(i + 1).drop_last() =~= parts.take(i as int));
            assert(out@ =~= start + concat_all(parts.take(i + 1)));
            i = i + 1;
        }
        assert(parts.take(self.words@.len() as int) =~= parts);
        assert(final(out)@ =~= old(out)@ + bitset_wire(self.words@));
    }
}

/// A light array on the wire: its byte length as a VarInt, then the bytes.
pub open spec fn light_array_wire(a: LightArray) -> Seq<u8> {
    varint_bytes(a.data@.len() as i32) + a.data@
}

impl LightArray {
    /// Appends the array, prefixed with its length.
    pub fn encode(&self, out: &mut Vec<u8>)
        requires
            self.data@.len() <= i32::MAX,
        ensures
            final(out)@ == old(out)@ + light_array_wire(*self),
    {
        encode_varint(self.data.len() as i32, out);
        append_bytes(out, self.data.as_slice());
        assert(final(out)@ =~= old(out)@ + light_array_wire(*self));
    }
}

/// One section's light levels, two voxels per byte.
pub struct LightArray {
    pub data: Vec<u8>,
}

/// Bytes in one section's light array.
pub const LIGHT_ARRAY_LEN: usize = 2048;

/// A light array at full brightness: every nibble 15.
pub open spec fn full_light(a: LightArray) -> bool {
    a.data@ == Seq::new(LIGHT_ARRAY_LEN as nat, |i: int| 0xFFu8)
}

/// A fully lit array for one section.
pub fn full_light_array() -> (r: LightArray)
    ensures
        full_light(r),
{
    let mut data: Vec<u8> = Vec::new();
    while data.len() < LIGHT_ARRAY_LEN
        invariant
            data@.len() <= LIGHT_ARRAY_LEN,
            forall|i: int| 0 <= i < data@.len() ==> data@[i] == 0xFF,
        decreases LIGHT_ARRAY_LEN - data@.len(),
    {
        data.push(0xFF);
    }
    assert(data@ =~= Seq::new(LIGHT_ARRAY_LEN as nat, |i: int| 0xFFu8));
    LightArray { data }
}

/// `n` fully lit arrays, one per section.
pub fn full_light_arrays(n: usize) -> (r: Vec<LightArray>)
    ensures
        r@.len() == n,
        forall|i: int| 0 <= i < n ==> full_light(#[trigger] r@[i]),
{
    let mut arrays: Vec<LightArray> = Vec::new();
    while arrays.len() < n
        invariant
            arrays@.len() <= n,
            forall|i: int| 0 <= i < arrays@.len() ==> full_light(#[trigger] arrays@[i]),
        decreases n - arrays@.len(),
    {
        arrays.push(full_light_array());
    }
    arrays
}

} // verus!
