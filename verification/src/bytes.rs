//! Little-endian integer fields of the page format.
//!
//! A page stores its 16-bit header fields, offsets and record lengths, and
//! its 64-bit child pointers least-significant byte first. The functions
//! here are the only place the byte order is spelled out.

use vstd::prelude::*;

verus! {

/// The two bytes of `x`, least-significant first.
pub open spec fn le16(x: u16) -> Seq<u8> {
    seq![(x % 256) as u8, (x / 256) as u8]
}

/// The eight bytes of `x`, least-significant first.
pub open spec fn le64(x: u64) -> Seq<u8> {
    seq![
        (x % 256) as u8,
        (x / 256 % 256) as u8,
        (x / 0x10000 % 256) as u8,
        (x / 0x1000000 % 256) as u8,
        (x / 0x100000000 % 256) as u8,
        (x / 0x10000000000 % 256) as u8,
        (x / 0x1000000000000 % 256) as u8,
        (x / 0x100000000000000) as u8,
    ]
}

/// Appends the two little-endian bytes of `x` to `out`.
pub fn push_le16(out: &mut Vec<u8>, x: u16)
    ensures
        final(out)@ == old(out)@ + le16(x),
{
    out.push((x % 256) as u8);
    out.push((x / 256) as u8);
    proof {
        assert(out@ =~= old(out)@ + le16(x));
    }
}

/// Appends the eight little-endian bytes of `x` to `out`.
pub fn push_le64(out: &mut Vec<u8>, x: u64)
    ensures
        final(out)@ == old(out)@ + le64(x),
{
    out.push((x % 256) as u8);
    out.push((x / 256 % 256) as u8);
    out.push((x / 0x10000 % 256) as u8);
    out.push((x / 0x1000000 % 256) as u8);
    out.push((x / 0x100000000 % 256) as u8);
    out.push((x / 0x10000000000 % 256) as u8);
    out.push((x / 0x1000000000000 % 256) as u8);
    out.push((x / 0x100000000000000) as u8);
    proof {
        assert(out@ =~= old(out)@ + le64(x));
    }
}

/// Appends a copy of `src` to `out`.
pub fn append_bytes(out: &mut Vec<u8>, src: &Vec<u8>)
    ensures
        final(out)@ == old(out)@ + src@,
{
    let mut i: usize = 0;
    while i < src.len()
        invariant
            i <= src@.len(),
            out@ == old(out)@ + src@.subrange(0, i as int),
        decreases src@.len() - i,
    {
        out.push(src[i]);
        proof {
            assert(out@ =~= old(out)@ + src@.subrange(0, i as int + 1));
        }
        i = i + 1;
    }
    proof {
        assert(out@ =~= old(out)@ + src@);
    }
}

/// Reads a 16-bit little-endian field at `pos`.
pub fn read_u16(b: &Vec<u8>, pos: usize) -> (r: u16)
    requires
        pos + 2 <= b@.len(),
    ensures
        r == b@[pos as int] as u16 + b@[pos as int + 1] as u16 * 256,
{
    let n = b.len();
    proof {
        assert(pos + 2 <= n);
    }
    b[pos] as u16 + b[pos + 1] as u16 * 256
}

/// Reads a 64-bit little-endian field at `pos`.
pub fn read_u64(b: &Vec<u8>, pos: usize) -> (r: u64)
    requires
        pos + 8 <= b@.len(),
    ensures
        r == b@[pos as int] as u64
            + b@[pos as int + 1] as u64 * 256
            + b@[pos as int + 2] as u64 * 0x10000
            + b@[pos as int + 3] as u64 * 0x1000000
            + b@[pos as int + 4] as u64 * 0x100000000
            + b@[pos as int + 5] as u64 * 0x10000000000
            + b@[pos as int + 6] as u64 * 0x1000000000000
            + b@[pos as int + 7] as u64 * 0x100000000000000,
{
    let n = b.len();
    proof {
        assert(pos + 8 <= n);
    }
    b[pos] as u64
        + b[pos + 1] as u64 * 256
        + b[pos + 2] as u64 * 0x10000
        + b[pos + 3] as u64 * 0x1000000
        + b[pos + 4] as u64 * 0x100000000
        + b[pos + 5] as u64 * 0x10000000000
        + b[pos + 6] as u64 * 0x1000000000000
        + b[pos + 7] as u64 * 0x100000000000000
}

} // verus!
