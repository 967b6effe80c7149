use vstd::prelude::*;

use crate::error::ProtocolError;
use crate::primitive::{lemma_signed_round_trip, pow256, rest_of, signed_of, unsigned_of};

verus! {

/// 128 to the power `n`.
pub open spec fn pow128(n: nat) -> nat
    decreases n,
{
    if n == 0 {
        1
    } else {
        128 * pow128((n - 1) as nat)
    }
}

/// The 7-bit-group encoding of `v`: least significant group first, the high bit
/// of every byte but the last set.
pub open spec fn var_bytes(v: nat) -> Seq<u8>
    decreases v,
{
    if v < 128 {
        seq![v as u8]
    } else {
        seq![(v % 128 + 128) as u8] + var_bytes(v / 128)
    }
}

/// The number carried by a run of groups, least significant first; the
/// continuation bits are ignored.
pub open spec fn groups_value(s: Seq<u8>) -> nat
    decreases s.len(),
{
    if s.len() == 0 {
        0
    } else {
        (s[0] % 128) as nat + 128 * groups_value(s.drop_first())
    }
}

/// `n` bytes at the front of `s` form a complete number of at most `max`
/// groups: all of them but the last have the continuation bit set.
pub open spec fn var_complete(s: Seq<u8>, max: nat, n: nat) -> bool {
    &&& 1 <= n <= max
    &&& n <= s.len()
    &&& s[n - 1] < 128
    &&& forall|j: int| 0 <= j < n - 1 ==> s[j] >= 128
}

/// The first `max` bytes of `s` all have the continuation bit set.
pub open spec fn var_too_long(s: Seq<u8>, max: nat) -> bool {
    &&& max <= s.len()
    &&& forall|j: int| 0 <= j < max ==> s[j] >= 128
}

/// `s` ends, before `max` bytes, inside a number.
pub open spec fn var_cut_short(s: Seq<u8>, max: nat) -> bool {
    &&& s.len() < max
    &&& forall|j: int| 0 <= j < s.len() ==> s[j] >= 128
}


proof fn lemma_var_bytes_shape(v: nat)
    ensures
        var_bytes(v).len() >= 1,
        var_bytes(v).last() < 128,
        forall|j: int| 0 <= j < var_bytes(v).len() - 1 ==> var_bytes(v)[j] >= 128,
        groups_value(var_bytes(v)) == v,
        forall|k: nat| k >= 1 && v < pow128(k) ==> var_bytes(v).len() <= k,
    decreases v,
{
    if v < 128 {
        assert(var_bytes(v).drop_first() =~= Seq::<u8>::empty());
        assert(groups_value(Seq::<u8>::empty()) == 0);
    } else {
        let t = var_bytes(v / 128);
        lemma_var_bytes_shape(v / 128);
        assert(var_bytes(v).drop_first() =~= t);
        assert forall|k: nat| k >= 1 && v < pow128(k) implies var_bytes(v).len() <= k by {
            assert(pow128(k) == 128 * pow128((k - 1) as nat));
            assert(v / 128 < pow128((k - 1) as nat));
            if k == 1 {
                assert(pow128(0) == 1);
            }
        }
        assert forall|j: int| 0 <= j < var_bytes(v).len() - 1 implies var_bytes(v)[j] >= 128 by {
            if j > 0 {
                assert(var_bytes(v)[j] == t[j - 1]);
            }
        }
    }
}

proof fn lemma_groups_value_push(s: Seq<u8>, b: u8)
    ensures
        groups_value(s.push(b)) == groups_value(s) + (b % 128) as nat * pow128(s.len()),
    decreases s.len(),
{
    if s.len() == 0 {
        assert(s.push(b).drop_first() =~= Seq::<u8>::empty());
        assert(groups_value(Seq::<u8>::empty()) == 0);
        assert(pow128(0) == 1);
    } else {
        assert(s.push(b).drop_first() =~= s.drop_first().push(b));
        assert(s.push(b)[0] == s[0]);
        lemma_groups_value_push(s.drop_first(), b);
        let p = pow128((s.len() - 1) as nat);
        assert(pow128(s.len()) == 128 * p);
        let x = (b % 128) as nat;
        assert(128 * (groups_value(s.drop_first()) + x * p) == 128 * groups_value(s.drop_first())
            + x * (128 * p)) by (nonlinear_arith);
    }
}

proof fn lemma_groups_value_bound(s: Seq<u8>)
    ensures
        groups_value(s) < pow128(s.len()),
    decreases s.len(),
{
    if s.len() > 0 {
        lemma_groups_value_bound(s.drop_first());
        let g = groups_value(s.drop_first());
        let p = pow128((s.len() - 1) as nat);
        assert(128 * g + 127 < 128 * p) by (nonlinear_arith)
            requires
                g < p,
        ;
    }
}

/// Reads one variable-length number of at most `max` groups from `buf`,
/// starting at `pos`, and returns the number and how many bytes it took.
pub fn read_var(buf: &[u8], pos: usize, max: usize) -> (r: Result<(u128, usize), ProtocolError>)
    requires
        pos <= buf@.len(),
        1 <= max <= 10,
    ensures
        ({
            let s = buf@.subrange(pos as int, buf@.len() as int);
            &&& (r == Err::<(u128, usize), _>(ProtocolError::VarNumberTooLong)) <==> var_too_long(
                s,
                max as nat,
            )
            &&& (r == Err::<(u128, usize), _>(ProtocolError::ShortRead)) <==> var_cut_short(
                s,
                max as nat,
            )
            &&& r is Ok || r == Err::<(u128, usize), _>(ProtocolError::VarNumberTooLong) || r == Err::<
                (u128, usize),
                _,
            >(ProtocolError::ShortRead)
            &&& (r matches Ok((v, n)) ==> var_complete(s, max as nat, n as nat) && v
                == groups_value(s.take(n as int)))
            &&& forall|n: nat| var_complete(s, max as nat, n) ==> (r matches Ok((_, m)) && m == n)
        }),
{
    let ghost s = buf@.subrange(pos as int, buf@.len() as int);
    let mut acc: u128 = 0;
    let mut mult: u128 = 1;
    let mut i: usize = 0;
    proof {
        reveal_with_fuel(pow128, 11);
        assert(s.take(0) =~= Seq::<u8>::empty());
    }
    loop
        invariant
            s == buf@.subrange(pos as int, buf@.len() as int),
            pos <= buf@.len(),
            1 <= max <= 10,
            i <= max,
            i <= s.len(),
            forall|j: int| 0 <= j < i ==> s[j] >= 128,
            acc == groups_value(s.take(i as int)),
            mult == pow128(i as nat),
            mult <= pow128(10),
        decreases max - i,
    {
        if i == max {
            return Err(ProtocolError::VarNumberTooLong);
        }
        if i == buf.len() - pos {
            return Err(ProtocolError::ShortRead);
        }
        let b = buf[pos + i];
        assert(b == s[i as int]);
        assert(s.take(i + 1) =~= s.take(i as int).push(b));
        proof {
            lemma_groups_value_push(s.take(i as int), b);
            lemma_groups_value_bound(s.take(i as int));
            reveal_with_fuel(pow128, 11);
            assert(pow128(10) == 1180591620717411303424);
            assert(pow128((i + 1) as nat) == 128 * pow128(i as nat));
            assert(pow128((i + 1) as nat) <= pow128(10)) by {
                lemma_pow128_mono((i + 1) as nat, 10);
            }
            assert((b % 128) as nat * mult + acc < pow128((i + 1) as nat)) by (nonlinear_arith)
                requires
                    acc < mult,
                    b % 128 < 128,
                    pow128((i + 1) as nat) == 128 * mult,
            ;
        }
        acc = acc + (b % 128) as u128 * mult;
        if b < 128 {
            return Ok((acc, i + 1));
        }
        mult = mult * 128;
        i = i + 1;
    }
}

proof fn lemma_pow128_mono(a: nat, b: nat)
    requires
        a <= b,
    ensures
        pow128(a) <= pow128(b),
    decreases b,
{
    if a < b {
        lemma_pow128_mono(a, (b - 1) as nat);
    }
}


/// Appends the 7-bit-group encoding of `v`.
pub fn write_var(out: &mut Vec<u8>, v: u64)
    ensures
        final(out)@ == old(out)@ + var_bytes(v as nat),
{
    let mut rest: u64 = v;
    while rest >= 128
        invariant
            out@ + var_bytes(rest as nat) == old(out)@ + var_bytes(v as nat),
        decreases rest,
    {
        let ghost before = out@;
        out.push((rest % 128 + 128) as u8);
        assert(var_bytes(rest as nat) == seq![(rest % 128 + 128) as u8] + var_bytes((rest / 128) as nat));
        assert(out@ + var_bytes((rest / 128) as nat) =~= before + var_bytes(rest as nat));
        rest = rest / 128;
    }
    out.push(rest as u8);
    assert(var_bytes(rest as nat) == seq![rest as u8]);
    assert(final(out)@ =~= old(out)@ + var_bytes(v as nat));
}

/// The bytes of a VarInt: the 32-bit pattern of `x` in 7-bit groups.
pub open spec fn varint_bytes(x: i32) -> Seq<u8> {
    var_bytes(unsigned_of(x as int, 4))
}

/// The bytes of a VarLong: the 64-bit pattern of `x` in 7-bit groups.
pub open spec fn varlong_bytes(x: i64) -> Seq<u8> {
    var_bytes(unsigned_of(x as int, 8))
}

/// Appends `x` as a VarInt.
pub fn encode_varint(x: i32, out: &mut Vec<u8>)
    ensures
        final(out)@ == old(out)@ + varint_bytes(x),
{
    assert((x as u32) as int == if x >= 0 { x as int } else { x as int + 0x1_0000_0000 }) by (bit_vector);
    proof {
        reveal_with_fuel(pow256, 5);
    }
    write_var(out, (x as u32) as u64);
}

/// Appends `x` as a VarLong.
pub fn encode_varlong(x: i64, out: &mut Vec<u8>)
    ensures
        final(out)@ == old(out)@ + varlong_bytes(x),
{
    assert((x as u64) as int == if x >= 0 { x as int } else { x as int + 0x1_0000_0000_0000_0000 }) by (bit_vector);
    proof {
        reveal_with_fuel(pow256, 9);
    }
    write_var(out, x as u64);
}


/// The VarInt that a complete run of groups carries: the low 32 bits of its
/// number, as a signed value.
pub open spec fn varint_value(g: Seq<u8>) -> i32 {
    signed_of(groups_value(g) % pow256(4), 4) as i32
}

/// The VarLong that a complete run of groups carries: the low 64 bits of its
/// number, as a signed value.
pub open spec fn varlong_value(g: Seq<u8>) -> i64 {
    signed_of(groups_value(g) % pow256(8), 8) as i64
}

/// The VarInt carried by the number `value`: its low 32 bits, signed.
pub fn varint_of(value: u128) -> (r: i32)
    ensures
        r == signed_of(value as nat % pow256(4), 4),
{
    let low: u64 = (value % 0x1_0000_0000) as u64;
    proof {
        reveal_with_fuel(pow256, 5);
        assert(low < 0x1_0000_0000);
        assert(((low as u32) as i32) as int == if low < 0x8000_0000 { low as int } else { low as int - 0x1_0000_0000 }) by (bit_vector)
            requires
                low < 0x1_0000_0000,
        ;
    }
    (low as u32) as i32
}

/// The VarLong carried by the number `value`: its low 64 bits, signed.
pub fn varlong_of(value: u128) -> (r: i64)
    ensures
        r == signed_of(value as nat % pow256(8), 8),
{
    let low: u64 = (value % 0x1_0000_0000_0000_0000) as u64;
    proof {
        reveal_with_fuel(pow256, 9);
        assert((low as i64) as int == if low < 0x8000_0000_0000_0000 { low as int } else { low as int - 0x1_0000_0000_0000_0000 }) by (bit_vector);
    }
    low as i64
}

/// What reading one more byte of a variable-length number leads to.
#[derive(Debug, Clone, Copy, PartialEq, Eq, Structural)]
pub enum VarStep {
    /// The byte had its continuation bit set: more bytes follow.
    More(u128),
    /// The byte ended the number, whose value this is.
    Done(u128),
    /// The number would need more groups than allowed.
    TooLong,
}

/// Takes in byte number `groups` (from 0) of a variable-length number of at
/// most `max` groups, `value` being the number that the earlier bytes carry;
/// a stream reader calls it once per byte as the bytes arrive.
pub fn var_step(value: u128, groups: usize, byte: u8, max: usize) -> (r: VarStep)
    requires
        groups < max <= 10,
        value < pow128(groups as nat),
    ensures
        ({
            let next = value + (byte % 128) as nat * pow128(groups as nat);
            &&& byte < 128 ==> r == VarStep::Done(next as u128)
            &&& byte >= 128 && groups + 1 < max ==> r == VarStep::More(next as u128)
            &&& byte >= 128 && groups + 1 == max ==> r == VarStep::TooLong
            &&& next < pow128((groups + 1) as nat)
        }),
{
    let mut mult: u128 = 1;
    let mut k: usize = 0;
    proof {
        reveal_with_fuel(pow128, 11);
        lemma_pow128_mono(groups as nat, 9);
    }
    while k < groups
        invariant
            k <= groups < 10,
            mult == pow128(k as nat),
            pow128(groups as nat) <= pow128(9),
            pow128(9) == 0x8000_0000_0000_0000,
        decreases groups - k,
    {
        proof {
            lemma_pow128_mono((k + 1) as nat, groups as nat);
        }
        mult = mult * 128;
        k = k + 1;
    }
    assert((byte % 128) as nat * mult + value < 128 * mult && 128 * mult <= 0x40_0000_0000_0000_0000)
        by (nonlinear_arith)
        requires
            value < mult,
            byte % 128 < 128,
            mult <= 0x8000_0000_0000_0000,
    ;
    assert(pow128((groups + 1) as nat) == 128 * pow128(groups as nat));
    let next = value + (byte % 128) as u128 * mult;
    if byte < 128 {
        VarStep::Done(next)
    } else if groups + 1 == max {
        VarStep::TooLong
    } else {
        VarStep::More(next)
    }
}

/// Reads a VarInt (at most 5 groups) at `pos`; returns it and the position
/// after it.
pub fn decode_varint(buf: &[u8], pos: usize) -> (r: Result<(i32, usize), ProtocolError>)
    requires
        pos <= buf@.len(),
    ensures
        ({
            let s = rest_of(buf@, pos);
            &&& (r == Err::<(i32, usize), _>(ProtocolError::VarNumberTooLong)) <==> var_too_long(s, 5)
            &&& (r == Err::<(i32, usize), _>(ProtocolError::ShortRead)) <==> var_cut_short(s, 5)
            &&& r is Ok || r == Err::<(i32, usize), _>(ProtocolError::VarNumberTooLong) || r == Err::<
                (i32, usize),
                _,
            >(ProtocolError::ShortRead)
            &&& forall|n: nat| var_complete(s, 5, n) ==> r == Ok::<_, ProtocolError>(
                (varint_value(s.take(n as int)), (pos + n) as usize),
            )
            &&& r matches Ok((v, p)) ==> pos < p && var_complete(s, 5, (p - pos) as nat) && v
                == varint_value(s.take(p - pos))
        }),
{
    let len = buf.len();
    let r0 = read_var(buf, pos, 5);
    let (v, n) = match r0 {
        Ok((v, n)) => (v, n),
        Err(e) => return Err(e),
    };
    assert(pos + n <= len);
    Ok((varint_of(v), pos + n))
}

/// Reads a VarLong (at most 10 groups) at `pos`; returns it and the position
/// after it.
pub fn decode_varlong(buf: &[u8], pos: usize) -> (r: Result<(i64, usize), ProtocolError>)
    requires
        pos <= buf@.len(),
    ensures
        ({
            let s = rest_of(buf@, pos);
            &&& (r == Err::<(i64, usize), _>(ProtocolError::VarNumberTooLong)) <==> var_too_long(s, 10)
            &&& (r == Err::<(i64, usize), _>(ProtocolError::ShortRead)) <==> var_cut_short(s, 10)
            &&& r is Ok || r == Err::<(i64, usize), _>(ProtocolError::VarNumberTooLong) || r == Err::<
                (i64, usize),
                _,
            >(ProtocolError::ShortRead)
            &&& forall|n: nat| var_complete(s, 10, n) ==> r == Ok::<_, ProtocolError>(
                (varlong_value(s.take(n as int)), (pos + n) as usize),
            )
            &&& r matches Ok((v, p)) ==> pos < p && var_complete(s, 10, (p - pos) as nat) && v
                == varlong_value(s.take(p - pos))
        }),
{
    let len = buf.len();
    let r0 = read_var(buf, pos, 10);
    let (v, n) = match r0 {
        Ok((v, n)) => (v, n),
        Err(e) => return Err(e),
    };
    assert(pos + n <= len);
    Ok((varlong_of(v), pos + n))
}

/// Decoding the bytes of a VarInt, whatever follows them, gives it back and
/// takes exactly its bytes, of which there are at most 5.
pub proof fn lemma_varint_round_trip(x: i32, rest: Seq<u8>)
    ensures
        varint_bytes(x).len() <= 5,
        var_complete(varint_bytes(x) + rest, 5, varint_bytes(x).len()),
        (varint_bytes(x) + rest).take(varint_bytes(x).len() as int) == varint_bytes(x),
        varint_value(varint_bytes(x)) == x,
{
    let u = unsigned_of(x as int, 4);
    let b = varint_bytes(x);
    reveal_with_fuel(pow256, 5);
    reveal_with_fuel(pow128, 6);
    lemma_signed_round_trip(x as int, 4);
    lemma_var_bytes_shape(u);
    assert(pow256(4) == 0x1_0000_0000);
    assert(pow128(5) == 0x8_0000_0000);
    assert(u < pow128(5));
    assert(b.len() <= 5);
    assert((b + rest).take(b.len() as int) =~= b);
    assert forall|j: int| 0 <= j < b.len() - 1 implies (b + rest)[j] >= 128 by {
        assert((b + rest)[j] == b[j]);
    }
    assert((b + rest)[b.len() - 1] == b.last());
}

/// Decoding the bytes of a VarLong, whatever follows them, gives it back and
/// takes exactly its bytes, of which there are at most 10.
pub proof fn lemma_varlong_round_trip(x: i64, rest: Seq<u8>)
    ensures
        varlong_bytes(x).len() <= 10,
        var_complete(varlong_bytes(x) + rest, 10, varlong_bytes(x).len()),
        (varlong_bytes(x) + rest).take(varlong_bytes(x).len() as int) == varlong_bytes(x),
        varlong_value(varlong_bytes(x)) == x,
{
    let u = unsigned_of(x as int, 8);
    let b = varlong_bytes(x);
    reveal_with_fuel(pow256, 9);
    reveal_with_fuel(pow128, 11);
    lemma_signed_round_trip(x as int, 8);
    lemma_var_bytes_shape(u);
    assert(pow256(8) == 0x1_0000_0000_0000_0000);
    assert(pow128(10) == 0x40_0000_0000_0000_0000);
    assert(u < pow128(10));
    assert(b.len() <= 10);
    assert((b + rest).take(b.len() as int) =~= b);
    assert forall|j: int| 0 <= j < b.len() - 1 implies (b + rest)[j] >= 128 by {
        assert((b + rest)[j] == b[j]);
    }
    assert((b + rest)[b.len() - 1] == b.last());
}

} // verus!
