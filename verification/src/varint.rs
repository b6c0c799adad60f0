use crate::Error;
use vstd::prelude::*;

verus! {

/// The LEB128-style encoding of an unsigned integer: seven bits per byte,
/// least significant group first, high bit set on every byte but the last.
pub open spec fn varint_encode(n: nat) -> Seq<u8>
    decreases n,
{
    if n < 128 {
        seq![n as u8]
    } else {
        seq![(128 + n % 128) as u8] + varint_encode(n / 128)
    }
}

/// Decodes a varint from the front of a byte string. Returns the value and
/// the number of bytes consumed, or nothing when the bytes are exhausted
/// before a final byte arrives or the value leaves the u32 range.
pub open spec fn varint_decode(bytes: Seq<u8>) -> Option<(nat, nat)>
    decreases bytes.len(),
{
    if bytes.len() == 0 {
        None
    } else if bytes[0] < 128 {
        Some((bytes[0] as nat, 1))
    } else {
        match varint_decode(bytes.drop_first()) {
            Some((v, c)) => {
                let value = (bytes[0] - 128) as nat + 128 * v;
                if value < 0x1_0000_0000 {
                    Some((value, (c + 1) as nat))
                } else {
                    None
                }
            },
            None => None,
        }
    }
}

/// Appends the encoding of `n` to `out`.
pub fn varint_write(n: u32, out: &mut Vec<u8>)
    ensures
        final(out)@ == old(out)@ + varint_encode(n as nat),
    decreases n,
{
    if n < 128 {
        out.push(n as u8);
        assert(out@ =~= old(out)@ + varint_encode(n as nat));
    } else {
        let ghost prev = out@;
        out.push((128 + n % 128) as u8);
        varint_write(n / 128, out);
        assert(out@ =~= prev + varint_encode(n as nat));
    }
}

/// Decodes a varint starting at `pos`. On success returns the value and the
/// position just past the varint's last byte.
pub fn varint_read(bytes: &Vec<u8>, pos: usize) -> (r: Result<(u32, usize), Error>)
    requires
        pos <= bytes@.len(),
    ensures
        match r {
            Ok((v, end)) => {
                &&& varint_decode(bytes@.skip(pos as int)) == Some((v as nat, (end - pos) as nat))
                &&& pos < end <= bytes@.len()
            },
            Err(e) => varint_decode(bytes@.skip(pos as int)) is None && e is Serialization,
        },
    decreases bytes@.len() - pos,
{
    if pos == bytes.len() {
        return Err(Error::Serialization);
    }
    let b = bytes[pos];
    if b < 128 {
        assert(bytes@.skip(pos as int)[0] == b);
        return Ok((b as u32, pos + 1));
    }
    let low = (b - 128) as u32;
    match varint_read(bytes, pos + 1) {
        Ok((v, end)) => {
            assert(bytes@.skip(pos as int).drop_first() =~= bytes@.skip(pos as int + 1));
            if v > (u32::MAX - low) / 128 {
                proof {
                    assert(128 * (v as nat) > (u32::MAX - low) as nat) by (nonlinear_arith)
                        requires
                            v as nat > ((u32::MAX - low) / 128) as nat,
                            ((u32::MAX - low) / 128) as nat == ((u32::MAX - low) as nat) / 128,
                    {
                    }
                }
                Err(Error::Serialization)
            } else {
                proof {
                    assert(128 * (v as nat) <= (u32::MAX - low) as nat) by (nonlinear_arith)
                        requires
                            v as nat <= ((u32::MAX - low) / 128) as nat,
                            ((u32::MAX - low) / 128) as nat == ((u32::MAX - low) as nat) / 128,
                    {
                    }
                }
                Ok((low + 128 * v, end))
            }
        },
        Err(e) => {
            assert(bytes@.skip(pos as int).drop_first() =~= bytes@.skip(pos as int + 1));
            Err(e)
        },
    }
}

/// A decoded varint is in u32 range and consumed between one byte and the
/// whole input.
pub proof fn lemma_varint_decode_bound(bytes: Seq<u8>)
    ensures
        varint_decode(bytes) matches Some((v, c)) ==> v < 0x1_0000_0000 && 1 <= c <= bytes.len(),
    decreases bytes.len(),
{
    if bytes.len() > 0 && bytes[0] >= 128 {
        lemma_varint_decode_bound(bytes.drop_first());
    }
}

/// Decoding undoes encoding: the value comes back exactly, whatever follows
/// the encoded bytes.
pub proof fn lemma_varint_roundtrip(n: nat, rest: Seq<u8>)
    requires
        n < 0x1_0000_0000,
    ensures
        varint_decode(varint_encode(n) + rest) == Some((n, varint_encode(n).len())),
    decreases n,
{
    let all = varint_encode(n) + rest;
    if n < 128 {
        assert(all[0] == n as u8);
    } else {
        lemma_varint_roundtrip(n / 128, rest);
        assert(all[0] == (128 + n % 128) as u8);
        assert(all.drop_first() =~= varint_encode(n / 128) + rest);
        assert((all[0] - 128) as nat + 128 * (n / 128) == n);
    }
}

} // verus!
