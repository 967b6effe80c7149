use vstd::arithmetic::div_mod::lemma_mod_breakdown;
use vstd::prelude::*;

use crate::error::ProtocolError;

verus! {

/// 256 to the power `n`.
pub open spec fn pow256(n: nat) -> nat
    decreases n,
{
    if n == 0 {
        1
    } else {
        256 * pow256((n - 1) as nat)
    }
}

/// The low `n` bytes of `v`, most significant first.
pub open spec fn be_bytes(v: nat, n: nat) -> Seq<u8>
    decreases n,
{
    if n == 0 {
        Seq::empty()
    } else {
        be_bytes(v / 256, (n - 1) as nat).push((v % 256) as u8)
    }
}

/// The number that the bytes of `s` spell, most significant first.
pub open spec fn be_value(s: Seq<u8>) -> nat
    decreases s.len(),
{
    if s.len() == 0 {
        0
    } else {
        be_value(s.drop_last()) * 256 + s.last() as nat
    }
}

/// The two's-complement bit pattern of `x` on `n` bytes.
pub open spec fn unsigned_of(x: int, n: nat) -> nat {
    if x >= 0 {
        x as nat
    } else {
        (x + pow256(n)) as nat
    }
}

/// The signed number whose two's-complement pattern on `n` bytes is `u`.
pub open spec fn signed_of(u: nat, n: nat) -> int {
    if 2 * u < pow256(n) {
        u as int
    } else {
        u - pow256(n)
    }
}

/// What remains of `buf` from `pos` on.
pub open spec fn rest_of(buf: Seq<u8>, pos: usize) -> Seq<u8> {
    buf.subrange(pos as int, buf.len() as int)
}

proof fn lemma_pow256_facts()
    ensures
        pow256(1) == 256,
        pow256(2) == 0x1_0000,
        pow256(4) == 0x1_0000_0000,
        pow256(8) == 0x1_0000_0000_0000_0000,
{
    reveal_with_fuel(pow256, 9);
}

proof fn lemma_be_bytes_len(v: nat, n: nat)
    ensures
        be_bytes(v, n).len() == n,
    decreases n,
{
    if n > 0 {
        lemma_be_bytes_len(v / 256, (n - 1) as nat);
    }
}

/// Reading back the `n` bytes written for `v` gives `v` modulo `256^n`; after
/// them the rest of the input is untouched.
pub proof fn lemma_be_round_trip(v: nat, n: nat, rest: Seq<u8>)
    ensures
        (be_bytes(v, n) + rest).take(n as int) == be_bytes(v, n),
        be_value(be_bytes(v, n)) == v % pow256(n),
    decreases n,
{
    lemma_be_bytes_len(v, n);
    assert((be_bytes(v, n) + rest).take(n as int) =~= be_bytes(v, n));
    if n > 0 {
        lemma_be_round_trip(v / 256, (n - 1) as nat, rest);
        assert(be_bytes(v, n).drop_last() =~= be_bytes(v / 256, (n - 1) as nat));
        lemma_pow_mono(0, (n - 1) as nat);
        assert(pow256(0) == 1);
        lemma_mod_breakdown(v as int, 256, pow256((n - 1) as nat) as int);
        assert(pow256(n) == 256 * pow256((n - 1) as nat));
    } else {
        assert(pow256(0) == 1);
    }
}

/// A signed number survives the trip through its bit pattern.
pub proof fn lemma_signed_round_trip(x: int, n: nat)
    requires
        n >= 1,
        -pow256(n) <= 2 * x < pow256(n),
    ensures
        unsigned_of(x, n) < pow256(n),
        signed_of(unsigned_of(x, n), n) == x,
{
}

/// A signed number written on `n` bytes reads back as itself, whatever
/// follows it.
pub proof fn lemma_signed_field_round_trip(x: int, n: nat, rest: Seq<u8>)
    requires
        n >= 1,
        -pow256(n) <= 2 * x < pow256(n),
    ensures
        be_signed(be_bytes(unsigned_of(x, n), n) + rest, n) == x,
{
    lemma_signed_round_trip(x, n);
    lemma_be_round_trip(unsigned_of(x, n), n, rest);
    lemma_pow_mono(0, n);
    assert(pow256(0) == 1);
    vstd::arithmetic::div_mod::lemma_small_mod(unsigned_of(x, n), pow256(n));
}

proof fn lemma_be_value_bound(s: Seq<u8>)
    ensures
        be_value(s) < pow256(s.len()),
    decreases s.len(),
{
    if s.len() > 0 {
        lemma_be_value_bound(s.drop_last());
        let a = be_value(s.drop_last());
        let p = pow256((s.len() - 1) as nat);
        let l = s.last() as nat;
        assert(a * 256 + l < 256 * p) by (nonlinear_arith)
            requires
                a < p,
                l < 256,
        ;
    }
}

/// Appends the low `n` bytes of `v`, most significant first.
pub fn write_be(out: &mut Vec<u8>, v: u64, n: usize)
    requires
        n <= 8,
    ensures
        final(out)@ == old(out)@ + be_bytes(v as nat, n as nat),
    decreases n,
{
    if n > 0 {
        write_be(out, v / 256, n - 1);
        out.push((v % 256) as u8);
        assert(final(out)@ =~= old(out)@ + be_bytes(v as nat, n as nat));
    } else {
        assert(old(out)@ + be_bytes(v as nat, 0) =~= old(out)@);
    }
}

/// Reads an `n`-byte big-endian number at `pos`; fails with `ShortRead` when
/// fewer than `n` bytes remain.
pub fn read_be(buf: &[u8], pos: usize, n: usize) -> (r: Result<(u64, usize), ProtocolError>)
    requires
        pos <= buf@.len(),
        n <= 8,
    ensures
        rest_of(buf@, pos).len() < n <==> r == Err::<(u64, usize), _>(ProtocolError::ShortRead),
        rest_of(buf@, pos).len() >= n ==> r is Ok,
        r matches Ok((v, p)) ==> v == be_value(rest_of(buf@, pos).take(n as int)) && p == pos + n,
        r matches Ok((v, _)) ==> v < pow256(n as nat),
{
    if buf.len() - pos < n {
        return Err(ProtocolError::ShortRead);
    }
    let ghost s = rest_of(buf@, pos);
    let len = buf.len();
    let mut acc: u64 = 0;
    let mut i: usize = 0;
    proof {
        lemma_pow256_facts();
        assert(s.take(0) =~= Seq::<u8>::empty());
    }
    while i < n
        invariant
            s == rest_of(buf@, pos),
            pos + n <= len,
            len == buf@.len(),
            n <= 8,
            i <= n,
            acc == be_value(s.take(i as int)),
            pow256(8) == 0x1_0000_0000_0000_0000,
        decreases n - i,
    {
        proof {
            lemma_be_value_bound(s.take(i as int));
            lemma_pow_mono(i as nat, 7);
            assert(acc * 256 + 255 < pow256(8)) by (nonlinear_arith)
                requires
                    acc < pow256(i as nat),
                    pow256(i as nat) <= pow256(7),
                    pow256(8) == 256 * pow256(7),
            ;
        }
        let b = buf[pos + i];
        assert(s.take(i + 1).drop_last() =~= s.take(i as int));
        assert(b == s.take(i + 1).last());
        acc = acc * 256 + b as u64;
        i = i + 1;
    }
    proof {
        lemma_be_value_bound(s.take(n as int));
    }
    Ok((acc, pos + n))
}

proof fn lemma_pow_mono(a: nat, b: nat)
    requires
        a <= b,
    ensures
        pow256(a) <= pow256(b),
    decreases b,
{
    if a < b {
        lemma_pow_mono(a, (b - 1) as nat);
    }
}


/// The value held by the first `n` bytes of `s`, read as a signed number.
pub open spec fn be_signed(s: Seq<u8>, n: nat) -> int {
    signed_of(be_value(s.take(n as int)), n)
}

/// Shape of the outcome of reading an `n`-byte field at `pos`: `ShortRead`
/// exactly when fewer than `n` bytes remain, and otherwise a value and the
/// position just after the field.
pub open spec fn fixed_read<T>(buf: Seq<u8>, pos: usize, n: nat, r: Result<(T, usize), ProtocolError>) -> bool {
    &&& rest_of(buf, pos).len() < n <==> r == Err::<(T, usize), _>(ProtocolError::ShortRead)
    &&& rest_of(buf, pos).len() >= n ==> (r matches Ok((_, p)) && p == pos + n)
}

/// The `n` bytes of the field at `pos`.
pub open spec fn field(buf: Seq<u8>, pos: usize, n: nat) -> Seq<u8> {
    rest_of(buf, pos).take(n as int)
}

proof fn lemma_casts_8(x: i8, v: u64)
    ensures
        (x as u8) as int == unsigned_of(x as int, 1),
        v < 0x100 ==> ((v as u8) as i8) as int == signed_of(v as nat, 1),
{
    lemma_pow256_facts();
    assert((x as u8) as int == if x >= 0 { x as int } else { x as int + 0x100 }) by (bit_vector);
    assert(v < 0x100 ==> ((v as u8) as i8) as int == if v < 0x80 { v as int } else { v as int - 0x100 }) by (bit_vector);
}

proof fn lemma_casts_16(x: i16, v: u64)
    ensures
        (x as u16) as int == unsigned_of(x as int, 2),
        v < 0x1_0000 ==> ((v as u16) as i16) as int == signed_of(v as nat, 2),
{
    lemma_pow256_facts();
    assert((x as u16) as int == if x >= 0 { x as int } else { x as int + 0x1_0000 }) by (bit_vector);
    assert(v < 0x1_0000 ==> ((v as u16) as i16) as int == if v < 0x8000 { v as int } else { v as int - 0x1_0000 }) by (bit_vector);
}

proof fn lemma_casts_32(x: i32, v: u64)
    ensures
        (x as u32) as int == unsigned_of(x as int, 4),
        v < 0x1_0000_0000 ==> ((v as u32) as i32) as int == signed_of(v as nat, 4),
{
    lemma_pow256_facts();
    assert((x as u32) as int == if x >= 0 { x as int } else { x as int + 0x1_0000_0000 }) by (bit_vector);
    assert(v < 0x1_0000_0000 ==> ((v as u32) as i32) as int == if v < 0x8000_0000 { v as int } else { v as int - 0x1_0000_0000 }) by (bit_vector);
}

pub(crate) proof fn lemma_casts_64(x: i64, v: u64)
    ensures
        (x as u64) as int == unsigned_of(x as int, 8),
        (v as i64) as int == signed_of(v as nat, 8),
{
    lemma_pow256_facts();
    assert((x as u64) as int == if x >= 0 { x as int } else { x as int + 0x1_0000_0000_0000_0000 }) by (bit_vector);
    assert((v as i64) as int == if v < 0x8000_0000_0000_0000 { v as int } else { v as int - 0x1_0000_0000_0000_0000 }) by (bit_vector);
}

/// Appends `bytes` as they are.
pub fn append_bytes(out: &mut Vec<u8>, bytes: &[u8])
    ensures
        final(out)@ == old(out)@ + bytes@,
{
    let mut i: usize = 0;
    while i < bytes.len()
        invariant
            i <= bytes@.len(),
            out@ == old(out)@ + bytes@.take(i as int),
        decreases bytes@.len() - i,
    {
        out.push(bytes[i]);
        i = i + 1;
        assert(out@ =~= old(out)@ + bytes@.take(i as int));
    }
    assert(bytes@.take(bytes@.len() as int) =~= bytes@);
}

/// Appends a boolean as one byte, 1 for true and 0 for false.
pub fn encode_bool(x: bool, out: &mut Vec<u8>)
    ensures
        final(out)@ == old(out)@.push(if x { 1u8 } else { 0u8 }),
{
    out.push(if x { 1u8 } else { 0u8 });
}

/// Reads a boolean: any byte but 0 is true.
pub fn decode_bool(buf: &[u8], pos: usize) -> (r: Result<(bool, usize), ProtocolError>)
    requires
        pos <= buf@.len(),
    ensures
        fixed_read(buf@, pos, 1, r),
        r matches Ok((v, _)) ==> v == (field(buf@, pos, 1)[0] != 0),
{
    let r0 = read_be(buf, pos, 1);
    let (v, p) = match r0 {
        Ok((v, p)) => (v, p),
        Err(e) => return Err(e),
    };
    proof {
        let s = rest_of(buf@, pos).take(1);
        assert(s.drop_last() =~= Seq::<u8>::empty());
        assert(be_value(Seq::<u8>::empty()) == 0);
        assert(be_value(s) == s[0]);
    }
    Ok((v != 0, p))
}

/// Appends an unsigned byte.
pub fn encode_u8(x: u8, out: &mut Vec<u8>)
    ensures
        final(out)@ == old(out)@ + be_bytes(x as nat, 1),
{
    write_be(out, x as u64, 1);
}

/// Reads an unsigned byte.
pub fn decode_u8(buf: &[u8], pos: usize) -> (r: Result<(u8, usize), ProtocolError>)
    requires
        pos <= buf@.len(),
    ensures
        fixed_read(buf@, pos, 1, r),
        r matches Ok((v, _)) ==> v == be_value(field(buf@, pos, 1)) as u8,
{
    let r0 = read_be(buf, pos, 1);
    let (v, p) = match r0 {
        Ok((v, p)) => (v, p),
        Err(e) => return Err(e),
    };
    proof { lemma_pow256_facts(); }
Ok((v as u8, p))
}

/// Appends a signed byte in two's complement.
pub fn encode_i8(x: i8, out: &mut Vec<u8>)
    ensures
        final(out)@ == old(out)@ + be_bytes(unsigned_of(x as int, 1), 1),
{
    proof { lemma_casts_8(x, 0); }
    write_be(out, (x as u8) as u64, 1);
}

/// Reads a signed byte.
pub fn decode_i8(buf: &[u8], pos: usize) -> (r: Result<(i8, usize), ProtocolError>)
    requires
        pos <= buf@.len(),
    ensures
        fixed_read(buf@, pos, 1, r),
        r matches Ok((v, _)) ==> v == be_signed(field(buf@, pos, 1), 1) as i8,
{
    let r0 = read_be(buf, pos, 1);
    let (v, p) = match r0 {
        Ok((v, p)) => (v, p),
        Err(e) => return Err(e),
    };
    proof {
        lemma_pow256_facts();
        lemma_casts_8(0, v);
        let s = rest_of(buf@, pos).take(1);
        assert(s.take(1) =~= s);
    }
    Ok(((v as u8) as i8, p))
}

/// Appends a 16-bit unsigned number, big-endian.
pub fn encode_u16(x: u16, out: &mut Vec<u8>)
    ensures
        final(out)@ == old(out)@ + be_bytes(x as nat, 2),
{
    write_be(out, x as u64, 2);
}

/// Reads a 16-bit unsigned number, big-endian.
pub fn decode_u16(buf: &[u8], pos: usize) -> (r: Result<(u16, usize), ProtocolError>)
    requires
        pos <= buf@.len(),
    ensures
        fixed_read(buf@, pos, 2, r),
        r matches Ok((v, _)) ==> v == be_value(field(buf@, pos, 2)) as u16,
{
    let r0 = read_be(buf, pos, 2);
    let (v, p) = match r0 {
        Ok((v, p)) => (v, p),
        Err(e) => return Err(e),
    };
    proof { lemma_pow256_facts(); }
    Ok((v as u16, p))
}

/// Appends a 16-bit signed number, big-endian two's complement.
pub fn encode_i16(x: i16, out: &mut Vec<u8>)
    ensures
        final(out)@ == old(out)@ + be_bytes(unsigned_of(x as int, 2), 2),
{
    proof { lemma_casts_16(x, 0); }
    write_be(out, (x as u16) as u64, 2);
}

/// Reads a 16-bit signed number, big-endian two's complement.
pub fn decode_i16(buf: &[u8], pos: usize) -> (r: Result<(i16, usize), ProtocolError>)
    requires
        pos <= buf@.len(),
    ensures
        fixed_read(buf@, pos, 2, r),
        r matches Ok((v, _)) ==> v == be_signed(field(buf@, pos, 2), 2) as i16,
{
    let r0 = read_be(buf, pos, 2);
    let (v, p) = match r0 {
        Ok((v, p)) => (v, p),
        Err(e) => return Err(e),
    };
    proof {
        lemma_pow256_facts();
        lemma_casts_16(0, v);
        let s = rest_of(buf@, pos).take(2);
        assert(s.take(2) =~= s);
    }
    Ok(((v as u16) as i16, p))
}

/// Appends a 32-bit unsigned number, big-endian.
pub fn encode_u32(x: u32, out: &mut Vec<u8>)
    ensures
        final(out)@ == old(out)@ + be_bytes(x as nat, 4),
{
    write_be(out, x as u64, 4);
}

/// Reads a 32-bit unsigned number, big-endian.
pub fn decode_u32(buf: &[u8], pos: usize) -> (r: Result<(u32, usize), ProtocolError>)
    requires
        pos <= buf@.len(),
    ensures
        fixed_read(buf@, pos, 4, r),
        r matches Ok((v, _)) ==> v == be_value(field(buf@, pos, 4)) as u32,
{
    let r0 = read_be(buf, pos, 4);
    let (v, p) = match r0 {
        Ok((v, p)) => (v, p),
        Err(e) => return Err(e),
    };
    proof { lemma_pow256_facts(); }
    Ok((v as u32, p))
}

/// Appends a 32-bit signed number, big-endian two's complement.
pub fn encode_i32(x: i32, out: &mut Vec<u8>)
    ensures
        final(out)@ == old(out)@ + be_bytes(unsigned_of(x as int, 4), 4),
{
    proof { lemma_casts_32(x, 0); }
    write_be(out, (x as u32) as u64, 4);
}

/// Reads a 32-bit signed number, big-endian two's complement.
pub fn decode_i32(buf: &[u8], pos: usize) -> (r: Result<(i32, usize), ProtocolError>)
    requires
        pos <= buf@.len(),
    ensures
        fixed_read(buf@, pos, 4, r),
        r matches Ok((v, _)) ==> v == be_signed(field(buf@, pos, 4), 4) as i32,
{
    let r0 = read_be(buf, pos, 4);
    let (v, p) = match r0 {
        Ok((v, p)) => (v, p),
        Err(e) => return Err(e),
    };
    proof {
        lemma_pow256_facts();
        lemma_casts_32(0, v);
        let s = rest_of(buf@, pos).take(4);
        assert(s.take(4) =~= s);
    }
    Ok(((v as u32) as i32, p))
}

/// Appends a 64-bit unsigned number, big-endian.
pub fn encode_u64(x: u64, out: &mut Vec<u8>)
    ensures
        final(out)@ == old(out)@ + be_bytes(x as nat, 8),
{
    write_be(out, x, 8);
}

/// Reads a 64-bit unsigned number, big-endian.
pub fn decode_u64(buf: &[u8], pos: usize) -> (r: Result<(u64, usize), ProtocolError>)
    requires
        pos <= buf@.len(),
    ensures
        fixed_read(buf@, pos, 8, r),
        r matches Ok((v, _)) ==> v == be_value(field(buf@, pos, 8)) as u64,
{
    read_be(buf, pos, 8)
}

/// Appends a 64-bit signed number, big-endian two's complement.
pub fn encode_i64(x: i64, out: &mut Vec<u8>)
    ensures
        final(out)@ == old(out)@ + be_bytes(unsigned_of(x as int, 8), 8),
{
    proof { lemma_casts_64(x, 0); }
    write_be(out, x as u64, 8);
}

/// Reads a 64-bit signed number, big-endian two's complement.
pub fn decode_i64(buf: &[u8], pos: usize) -> (r: Result<(i64, usize), ProtocolError>)
    requires
        pos <= buf@.len(),
    ensures
        fixed_read(buf@, pos, 8, r),
        r matches Ok((v, _)) ==> v == be_signed(field(buf@, pos, 8), 8) as i64,
{
    let r0 = read_be(buf, pos, 8);
    let (v, p) = match r0 {
        Ok((v, p)) => (v, p),
        Err(e) => return Err(e),
    };
    proof {
        lemma_casts_64(0, v);
        let s = rest_of(buf@, pos).take(8);
        assert(s.take(8) =~= s);
    }
    Ok((v as i64, p))
}

} // verus!
