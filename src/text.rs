use vstd::prelude::*;
use vstd::utf8::{decode_utf8, encode_utf8, encode_utf8_decode_utf8, encode_utf8_valid_utf8, valid_utf8};

use crate::error::ProtocolError;
use crate::primitive::rest_of;
use crate::varint::{
    decode_varint, encode_varint, lemma_varint_round_trip, var_complete, var_cut_short,
    var_too_long, varint_bytes, varint_value,
};

verus! {

/// Relies on `String::from_utf8`: it succeeds exactly when the bytes are
/// valid UTF-8, and the string then holds the characters they encode.
#[verifier::external_body]
fn utf8_to_string(bytes: Vec<u8>) -> (r: Option<String>)
    ensures
        r is Some <==> valid_utf8(bytes@),
        r matches Some(s) ==> s@ == decode_utf8(bytes@),
{
    String::from_utf8(bytes).ok()
}

/// The bytes of a string on the wire: its UTF-8 byte length as a VarInt, then
/// the UTF-8 bytes.
pub open spec fn string_bytes(s: Seq<char>) -> Seq<u8> {
    varint_bytes(encode_utf8(s).len() as i32) + encode_utf8(s)
}

/// What decoding a string from `s` gives, once its length prefix is known to
/// take `n` bytes: `ShortRead` when the declared length is negative or more
/// bytes are declared than remain, `InvalidUtf8` when the declared bytes are
/// not UTF-8, and otherwise the string and how many bytes it took in all.
pub open spec fn string_outcome(s: Seq<u8>, n: nat, r: Result<(String, nat), ProtocolError>) -> bool {
    let len = varint_value(s.take(n as int)) as int;
    if len < 0 || s.len() < n + len {
        r == Err::<(String, nat), _>(ProtocolError::ShortRead)
    } else if !valid_utf8(s.subrange(n as int, n + len)) {
        r == Err::<(String, nat), _>(ProtocolError::InvalidUtf8)
    } else {
        r matches Ok((t, m)) && t@ == decode_utf8(s.subrange(n as int, n + len)) && m == n + len
    }
}

/// Appends a string: its UTF-8 byte length as a VarInt, then the bytes.
pub fn encode_string(s: &str, out: &mut Vec<u8>)
    requires
        encode_utf8(s@).len() <= i32::MAX,
    ensures
        final(out)@ == old(out)@ + string_bytes(s@),
{
    let bytes = s.as_bytes();
    encode_varint(bytes.len() as i32, out);
    let ghost before = out@;
    let mut i: usize = 0;
    while i < bytes.len()
        invariant
            i <= bytes@.len(),
            out@ == before + bytes@.take(i as int),
        decreases bytes@.len() - i,
    {
        out.push(bytes[i]);
        i = i + 1;
        assert(out@ =~= before + bytes@.take(i as int));
    }
    assert(bytes@.take(bytes@.len() as int) =~= bytes@);
    assert(final(out)@ =~= old(out)@ + string_bytes(s@));
}

/// Reads a string at `pos`: a VarInt byte length, then exactly that many
/// bytes, which must be UTF-8. Returns the string and the position after it.
pub fn decode_string(buf: &[u8], pos: usize) -> (r: Result<(String, usize), ProtocolError>)
    requires
        pos <= buf@.len(),
    ensures
        ({
            let s = rest_of(buf@, pos);
            &&& var_too_long(s, 5) ==> r == Err::<(String, usize), _>(ProtocolError::VarNumberTooLong)
            &&& var_cut_short(s, 5) ==> r == Err::<(String, usize), _>(ProtocolError::ShortRead)
            &&& forall|n: nat| var_complete(s, 5, n) ==> string_outcome(
                s,
                n,
                match r {
                    Ok((t, p)) => Ok((t, (p - pos) as nat)),
                    Err(e) => Err(e),
                },
            )
        }),
{
    let ghost s = rest_of(buf@, pos);
    let (len, start) = match decode_varint(buf, pos) {
        Ok(x) => x,
        Err(e) => return Err(e),
    };
    let ghost n = (start - pos) as nat;
    if len < 0 || buf.len() - start < len as usize {
        return Err(ProtocolError::ShortRead);
    }
    let end = start + len as usize;
    let mut payload: Vec<u8> = Vec::new();
    let mut i: usize = start;
    while i < end
        invariant
            start <= i <= end,
            end <= buf@.len(),
            payload@ == buf@.subrange(start as int, i as int),
        decreases end - i,
    {
        payload.push(buf[i]);
        i = i + 1;
        assert(payload@ =~= buf@.subrange(start as int, i as int));
    }
    assert(payload@ =~= s.subrange(n as int, n + len));
    match utf8_to_string(payload) {
        Some(text) => Ok((text, end)),
        None => Err(ProtocolError::InvalidUtf8),
    }
}


/// Decoding the bytes of a string, whatever follows them, gives the string
/// back and takes exactly its bytes.
pub proof fn lemma_string_round_trip(t: Seq<char>, rest: Seq<u8>)
    requires
        encode_utf8(t).len() <= i32::MAX,
    ensures
        var_complete(string_bytes(t) + rest, 5, varint_bytes(encode_utf8(t).len() as i32).len()),
        forall|r: Result<(String, nat), ProtocolError>|
            string_outcome(string_bytes(t) + rest, varint_bytes(encode_utf8(t).len() as i32).len(), r)
                <==> (r matches Ok((u, m)) && u@ == t && m == string_bytes(t).len()),
{
    let eb = encode_utf8(t);
    let vb = varint_bytes(eb.len() as i32);
    let s = string_bytes(t) + rest;
    let n = vb.len();
    lemma_varint_round_trip(eb.len() as i32, eb + rest);
    assert(s =~= vb + (eb + rest));
    encode_utf8_valid_utf8(t);
    encode_utf8_decode_utf8(t);
    assert(s.take(n as int) =~= vb);
    assert(s.subrange(n as int, (n + eb.len()) as int) =~= eb);
}

} // verus!
