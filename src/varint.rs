//! The 1- to 4-byte length prefix of a leaf's value: the count of leading
//! zero bits of the first byte gives the length, the rest is big-endian.

use crate::error::Error;
use vstd::prelude::*;

verus! {

/// The largest value a varint holds: 2^27 - 1.
pub const MAX_VARINT_VAL: u32 = 0x7FF_FFFF;

/// The encoding of `v` (below 2^27).
pub open spec fn varint_bytes(v: u32) -> Seq<u8> {
    if v < 0x40 {
        seq![(v | 0x40) as u8]
    } else if v < 0x2000 {
        seq![((v | 0x2000) >> 8u32) as u8, v as u8]
    } else if v < 0x10_0000 {
        seq![((v | 0x10_0000) >> 16u32) as u8, (v >> 8u32) as u8, v as u8]
    } else {
        seq![((v | 0x800_0000) >> 24u32) as u8, (v >> 16u32) as u8, (v >> 8u32) as u8, v as u8]
    }
}

/// What decoding `s` gives: the value and the number of bytes it took, or
/// the error for a first byte that starts no varint (or for input that
/// ends too soon).
pub open spec fn varint_decode(s: Seq<u8>) -> Result<(u32, nat), Error> {
    if s.len() == 0 {
        Err(Error::Io)
    } else {
        let a = s[0];
        if a >= 0x80 || a < 0x08 {
            Err(Error::Varint(a as u32))
        } else if a >= 0x40 {
            Ok(((a & 0x3f) as u32, 1nat))
        } else if a >= 0x20 {
            if s.len() < 2 {
                Err(Error::Io)
            } else {
                Ok(((((a & 0x1f) as u32) << 8u32) | s[1] as u32, 2nat))
            }
        } else if a >= 0x10 {
            if s.len() < 3 {
                Err(Error::Io)
            } else {
                Ok(((((a & 0x0f) as u32) << 16u32) | ((s[1] as u32) << 8u32) | s[2] as u32, 3nat))
            }
        } else {
            if s.len() < 4 {
                Err(Error::Io)
            } else {
                Ok(
                    (
                        (((a & 0x07) as u32) << 24u32) | ((s[1] as u32) << 16u32) | ((s[2] as u32)
                            << 8u32) | s[3] as u32,
                        4nat,
                    ),
                )
            }
        }
    }
}

/// Appends the encoding of `value` to `out` and returns its length, or
/// fails with `Error::Varint(value)` for a value of 2^27 or more.
pub fn write(out: &mut Vec<u8>, value: u32) -> (r: Result<u64, Error>)
    ensures
        value <= MAX_VARINT_VAL ==> r == Ok::<u64, Error>(varint_bytes(value).len() as u64)
            && final(out)@ == old(out)@ + varint_bytes(value),
        value > MAX_VARINT_VAL ==> r == Err::<u64, Error>(Error::Varint(value)) && final(out)@
            == old(out)@,
{
    let ghost before = out@;
    if value < 0x40 {
        out.push((value | 0x40) as u8);
        assert(out@ =~= before + varint_bytes(value));
        Ok(1)
    } else if value < 0x2000 {
        let x = value | 0x2000;
        out.push((x >> 8) as u8);
        out.push(value as u8);
        assert(out@ =~= before + varint_bytes(value));
        Ok(2)
    } else if value < 0x10_0000 {
        let x = value | 0x10_0000;
        out.push((x >> 16) as u8);
        out.push((value >> 8) as u8);
        out.push(value as u8);
        assert(out@ =~= before + varint_bytes(value));
        Ok(3)
    } else if value < 0x800_0000 {
        let x = value | 0x800_0000;
        out.push((x >> 24) as u8);
        out.push((value >> 16) as u8);
        out.push((value >> 8) as u8);
        out.push(value as u8);
        assert(out@ =~= before + varint_bytes(value));
        Ok(4)
    } else {
        Err(Error::Varint(value))
    }
}

/// Decodes the varint at the start of `buf[pos..]`: its value and length.
pub fn read(buf: &[u8], pos: usize) -> (r: Result<(u32, u64), Error>)
    ensures
        pos >= buf@.len() ==> r == Err::<(u32, u64), Error>(Error::Io),
        pos < buf@.len() ==> match varint_decode(buf@.subrange(pos as int, buf@.len() as int)) {
            Ok((v, n)) => r == Ok::<(u32, u64), Error>((v, n as u64)),
            Err(e) => r == Err::<(u32, u64), Error>(e),
        },
{
    if pos >= buf.len() {
        return Err(Error::Io);
    }
    let ghost s = buf@.subrange(pos as int, buf@.len() as int);
    let n = buf.len() - pos;
    let a = buf[pos];
    assert(s[0] == a);
    if a >= 0x80 || a < 0x08 {
        Err(Error::Varint(a as u32))
    } else if a >= 0x40 {
        Ok(((a & 0x3F) as u32, 1))
    } else if a >= 0x20 {
        if n < 2 {
            return Err(Error::Io);
        }
        assert(s[1] == buf@[pos + 1]);
        let b = buf[pos + 1] as u32;
        Ok(((((a & 0x1F) as u32) << 8) | b, 2))
    } else if a >= 0x10 {
        if n < 3 {
            return Err(Error::Io);
        }
        assert(s[1] == buf@[pos + 1]);
        assert(s[2] == buf@[pos + 2]);
        let b = buf[pos + 1] as u32;
        let c = buf[pos + 2] as u32;
        Ok(((((a & 0x0F) as u32) << 16) | (b << 8) | c, 3))
    } else {
        if n < 4 {
            return Err(Error::Io);
        }
        assert(s[1] == buf@[pos + 1]);
        assert(s[2] == buf@[pos + 2]);
        assert(s[3] == buf@[pos + 3]);
        let b = buf[pos + 1] as u32;
        let c = buf[pos + 2] as u32;
        let d = buf[pos + 3] as u32;
        Ok(((((a & 0x07) as u32) << 24) | (b << 16) | (c << 8) | d, 4))
    }
}

/// A successful decode reads only a prefix: more bytes after it change
/// nothing.
pub proof fn lemma_varint_decode_extend(s: Seq<u8>, t: Seq<u8>)
    requires
        varint_decode(s) is Ok,
    ensures
        varint_decode(s + t) == varint_decode(s),
{
    let u = s + t;
    assert(u[0] == s[0]);
    if s.len() >= 2 {
        assert(u[1] == s[1]);
    }
    if s.len() >= 3 {
        assert(u[2] == s[2]);
    }
    if s.len() >= 4 {
        assert(u[3] == s[3]);
    }
}

/// Decoding the encoding of any value up to 2^27 - 1 gives the value back,
/// whatever follows it; its first byte has the top bit clear, and its
/// length is 1, 2, 3 or 4 bytes as the value is below 2^6, 2^13, 2^20 or
/// 2^27.
pub proof fn lemma_varint_round_trip(v: u32, rest: Seq<u8>)
    requires
        v <= MAX_VARINT_VAL,
    ensures
        varint_decode(varint_bytes(v) + rest) == Ok::<(u32, nat), Error>(
            (v, varint_bytes(v).len()),
        ),
        varint_bytes(v)[0] < 0x80,
        varint_bytes(v).len() == if v < 0x40 {
            1nat
        } else if v < 0x2000 {
            2nat
        } else if v < 0x10_0000 {
            3nat
        } else {
            4nat
        },
{
    let s = varint_bytes(v) + rest;
    if v < 0x40 {
        assert(((v | 0x40) as u8) >= 0x40 && ((v | 0x40) as u8) < 0x80 && (((v | 0x40) as u8) & 0x3f)
            as u32 == v) by (bit_vector)
            requires
                v < 0x40,
        ;
    } else if v < 0x2000 {
        assert(s[1] == v as u8);
        assert((((v | 0x2000) >> 8u32) as u8) >= 0x20 && (((v | 0x2000) >> 8u32) as u8) < 0x40 && ((((
        ((v | 0x2000) >> 8u32) as u8) & 0x1f) as u32) << 8u32) | (v as u8) as u32 == v) by (bit_vector)
            requires
                0x40 <= v < 0x2000,
        ;
    } else if v < 0x10_0000 {
        assert(s[1] == (v >> 8u32) as u8);
        assert(s[2] == v as u8);
        assert((((v | 0x10_0000) >> 16u32) as u8) >= 0x10 && (((v | 0x10_0000) >> 16u32) as u8) < 0x20
            && ((((((v | 0x10_0000) >> 16u32) as u8) & 0x0f) as u32) << 16u32) | ((((v >> 8u32) as u8)
            as u32) << 8u32) | (v as u8) as u32 == v) by (bit_vector)
            requires
                0x2000 <= v < 0x10_0000,
        ;
    } else {
        assert(s[1] == (v >> 16u32) as u8);
        assert(s[2] == (v >> 8u32) as u8);
        assert(s[3] == v as u8);
        assert((((v | 0x800_0000) >> 24u32) as u8) >= 0x08 && (((v | 0x800_0000) >> 24u32) as u8)
            < 0x10 && ((((((v | 0x800_0000) >> 24u32) as u8) & 0x07) as u32) << 24u32) | ((((v
            >> 16u32) as u8) as u32) << 16u32) | ((((v >> 8u32) as u8) as u32) << 8u32) | (v as u8)
            as u32 == v) by (bit_vector)
            requires
                0x10_0000 <= v < 0x800_0000,
        ;
    }
}

} // verus!
