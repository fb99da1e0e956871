//! Disk pointers: offsets into an image, stored as five little-endian
//! bytes, with zero for "none".

use crate::error::Error;
use vstd::prelude::*;

verus! {

/// The five bytes of `v`, least significant first.
pub open spec fn dp_bytes(v: u64) -> Seq<u8> {
    seq![v as u8, (v >> 8u64) as u8, (v >> 16u64) as u8, (v >> 24u64) as u8, (v >> 32u64) as u8]
}

/// The pointer stored in the five bytes of `s` at `pos`.
pub open spec fn dp_at(s: Seq<u8>, pos: int) -> u64 {
    (s[pos] as u64) | ((s[pos + 1] as u64) << 8u64) | ((s[pos + 2] as u64) << 16u64) | ((s[pos
        + 3] as u64) << 24u64) | ((s[pos + 4] as u64) << 32u64)
}

/// The largest offset five bytes hold.
pub const DP_MAX: u64 = 0xFF_FFFF_FFFF;

/// The size of a pointer on disk.
pub const DP_SIZE: usize = 5;

/// A disk pointer.
#[derive(Clone, Copy, Debug, PartialEq, Eq, Structural)]
pub struct Dp(pub u64);

impl Dp {
    /// Whether this is the null pointer.
    pub fn is_null(self) -> (r: bool)
        ensures
            r == (self.0 == 0),
    {
        self.0 == 0
    }

    /// The null pointer.
    pub fn null() -> (r: Dp)
        ensures
            r.0 == 0,
    {
        Dp(0)
    }

    /// The size of a pointer on disk.
    pub fn size() -> (r: usize)
        ensures
            r == 5,
    {
        DP_SIZE
    }

    /// Reads the pointer at `buf[pos..pos + 5]`; fails with `Error::Io`
    /// when the bytes run out.
    pub fn read(buf: &[u8], pos: usize) -> (r: Result<Dp, Error>)
        ensures
            pos + 5 <= buf@.len() ==> r == Ok::<Dp, Error>(Dp(dp_at(buf@, pos as int))),
            pos + 5 > buf@.len() ==> r == Err::<Dp, Error>(Error::Io),
    {
        if buf.len() < 5 || pos > buf.len() - 5 {
            return Err(Error::Io);
        }
        let v = (buf[pos] as u64) | ((buf[pos + 1] as u64) << 8) | ((buf[pos + 2] as u64) << 16) | ((
        buf[pos + 3] as u64) << 24) | ((buf[pos + 4] as u64) << 32);
        Ok(Dp(v))
    }

    /// Reads `n` pointers, one after another, from `buf[pos..]`.
    pub fn read_n(buf: &[u8], pos: usize, n: usize) -> (r: Result<Vec<Dp>, Error>)
        requires
            n <= 7,
        ensures
            pos + 5 * n <= buf@.len() ==> (r matches Ok(v) && v@.len() == n && forall|j: int|
                0 <= j < n ==> #[trigger] v@[j] == Dp(dp_at(buf@, pos + 5 * j))),
            pos + 5 * n > buf@.len() ==> r == Err::<Vec<Dp>, Error>(Error::Io),
    {
        if pos > buf.len() || buf.len() - pos < 5 * n {
            return Err(Error::Io);
        }
        let mut out: Vec<Dp> = Vec::new();
        let mut j: usize = 0;
        while j < n
            invariant
                0 <= j <= n <= 7,
                pos + 5 * n <= buf@.len(),
                buf@.len() == buf.len(),
                buf.len() <= usize::MAX,
                out@.len() == j,
                forall|i: int| 0 <= i < j ==> #[trigger] out@[i] == Dp(dp_at(buf@, pos + 5 * i)),
            decreases n - j,
        {
            let dp = Dp::read(buf, pos + 5 * j);
            out.push(dp.unwrap());
            j += 1;
        }
        Ok(out)
    }

    /// Appends this pointer's five bytes to `out`.
    pub fn write(self, out: &mut Vec<u8>)
        ensures
            final(out)@ == old(out)@ + dp_bytes(self.0),
    {
        let v = self.0;
        let ghost before = out@;
        out.push(v as u8);
        out.push((v >> 8) as u8);
        out.push((v >> 16) as u8);
        out.push((v >> 24) as u8);
        out.push((v >> 32) as u8);
        assert(out@ =~= before + dp_bytes(v));
    }

    /// Overwrites `out[pos..pos + 5]` with this pointer's bytes.
    pub fn patch(self, out: &mut Vec<u8>, pos: usize)
        requires
            pos + 5 <= old(out)@.len(),
        ensures
            final(out)@.len() == old(out)@.len(),
            forall|i: int|
                0 <= i < old(out)@.len() && !(pos <= i < pos + 5) ==> #[trigger] final(out)@[i]
                    == old(out)@[i],
            final(out)@.subrange(pos as int, pos + 5) == dp_bytes(self.0),
            self.0 <= DP_MAX ==> dp_at(final(out)@, pos as int) == self.0,
    {
        let v = self.0;
        let len = out.len();
        assert(pos + 5 <= len);
        out.set(pos, v as u8);
        out.set(pos + 1, (v >> 8) as u8);
        out.set(pos + 2, (v >> 16) as u8);
        out.set(pos + 3, (v >> 24) as u8);
        out.set(pos + 4, (v >> 32) as u8);
        assert(out@.subrange(pos as int, pos + 5) =~= dp_bytes(v));
        proof {
            if v <= DP_MAX {
                lemma_dp_round_trip(v);
                let o = out@;
                assert(o[pos as int] == dp_bytes(v)[0]);
                assert(o[pos + 1] == dp_bytes(v)[1]);
                assert(o[pos + 2] == dp_bytes(v)[2]);
                assert(o[pos + 3] == dp_bytes(v)[3]);
                assert(o[pos + 4] == dp_bytes(v)[4]);
            }
        }
    }
}

/// The null pointer is five zero bytes.
pub proof fn lemma_dp_null()
    ensures
        dp_bytes(0) == Seq::new(5, |i: int| 0u8),
{
    assert((0u64 as u8) == 0 && ((0u64 >> 8u64) as u8) == 0 && ((0u64 >> 16u64) as u8) == 0 && ((
    0u64 >> 24u64) as u8) == 0 && ((0u64 >> 32u64) as u8) == 0) by (bit_vector);
    assert(dp_bytes(0) =~= Seq::new(5, |i: int| 0u8));
}

/// A pointer inside a prefix reads the same in the whole.
pub proof fn lemma_dp_at_prefix(a: Seq<u8>, b: Seq<u8>, at: int)
    requires
        0 <= at,
        at + 5 <= b.len() <= a.len(),
        a.subrange(0, b.len() as int) == b,
    ensures
        dp_at(a, at) == dp_at(b, at),
{
    assert(a[at] == a.subrange(0, b.len() as int)[at]);
    assert(a[at + 1] == a.subrange(0, b.len() as int)[at + 1]);
    assert(a[at + 2] == a.subrange(0, b.len() as int)[at + 2]);
    assert(a[at + 3] == a.subrange(0, b.len() as int)[at + 3]);
    assert(a[at + 4] == a.subrange(0, b.len() as int)[at + 4]);
}

/// Reading back the five bytes of a pointer gives the pointer.
pub proof fn lemma_dp_round_trip(v: u64)
    requires
        v <= DP_MAX,
    ensures
        dp_at(dp_bytes(v), 0) == v,
{
    assert(((v as u8) as u64) | ((((v >> 8u64) as u8) as u64) << 8u64) | ((((v >> 16u64) as u8)
        as u64) << 16u64) | ((((v >> 24u64) as u8) as u64) << 24u64) | ((((v >> 32u64) as u8)
        as u64) << 32u64) == v) by (bit_vector)
        requires
            v <= 0xFF_FFFF_FFFFu64,
    ;
}

} // verus!
