//! Little-endian word access over byte buffers: every multi-byte integer of
//! the file format is a little-endian u32.
use vstd::prelude::*;

verus! {

/// The four little-endian bytes of `x`.
pub open spec fn u32_le_bytes(x: u32) -> Seq<u8> {
    seq![
        (x & 0xff) as u8,
        ((x >> 8) & 0xff) as u8,
        ((x >> 16) & 0xff) as u8,
        ((x >> 24) & 0xff) as u8,
    ]
}

/// The u32 read from four little-endian bytes.
pub open spec fn u32_from_le(b0: u8, b1: u8, b2: u8, b3: u8) -> u32 {
    (b0 as u32) | (b1 as u32) << 8 | (b2 as u32) << 16 | (b3 as u32) << 24
}

/// The u32 at byte offset `pos` of `d`.
pub open spec fn u32_at(d: Seq<u8>, pos: int) -> u32
    recommends
        0 <= pos,
        pos + 4 <= d.len(),
{
    u32_from_le(d[pos], d[pos + 1], d[pos + 2], d[pos + 3])
}

pub proof fn lemma_u32_le_roundtrip(x: u32)
    ensures
        u32_from_le(
            (x & 0xff) as u8,
            ((x >> 8) & 0xff) as u8,
            ((x >> 16) & 0xff) as u8,
            ((x >> 24) & 0xff) as u8,
        ) == x,
{
    assert((((x & 0xff) as u8) as u32) | ((((x >> 8) & 0xff) as u8) as u32) << 8 | ((((x >> 16)
        & 0xff) as u8) as u32) << 16 | ((((x >> 24) & 0xff) as u8) as u32) << 24 == x)
        by (bit_vector);
}

pub proof fn lemma_u32_le_inverse(b0: u8, b1: u8, b2: u8, b3: u8)
    ensures
        u32_le_bytes(u32_from_le(b0, b1, b2, b3)) == seq![b0, b1, b2, b3],
{
    let x = u32_from_le(b0, b1, b2, b3);
    assert((((b0 as u32) | (b1 as u32) << 8 | (b2 as u32) << 16 | (b3 as u32) << 24) & 0xff) as u8
        == b0) by (bit_vector);
    assert(((((b0 as u32) | (b1 as u32) << 8 | (b2 as u32) << 16 | (b3 as u32) << 24) >> 8)
        & 0xff) as u8 == b1) by (bit_vector);
    assert(((((b0 as u32) | (b1 as u32) << 8 | (b2 as u32) << 16 | (b3 as u32) << 24) >> 16)
        & 0xff) as u8 == b2) by (bit_vector);
    assert(((((b0 as u32) | (b1 as u32) << 8 | (b2 as u32) << 16 | (b3 as u32) << 24) >> 24)
        & 0xff) as u8 == b3) by (bit_vector);
    assert(u32_le_bytes(x) =~= seq![b0, b1, b2, b3]);
}

/// Read the little-endian u32 at `pos`.
pub fn read_u32_le(d: &Vec<u8>, pos: usize) -> (r: u32)
    requires
        pos + 4 <= d@.len(),
    ensures
        r == u32_at(d@, pos as int),
{
    let n = d.len();
    let b0 = d[pos];
    let b1 = d[pos + 1];
    let b2 = d[pos + 2];
    let b3 = d[pos + 3];
    (b0 as u32) | (b1 as u32) << 8 | (b2 as u32) << 16 | (b3 as u32) << 24
}

/// Append the four little-endian bytes of `x`.
pub fn push_u32_le(out: &mut Vec<u8>, x: u32)
    ensures
        final(out)@ == old(out)@ + u32_le_bytes(x),
{
    out.push((x & 0xff) as u8);
    out.push(((x >> 8) & 0xff) as u8);
    out.push(((x >> 16) & 0xff) as u8);
    out.push(((x >> 24) & 0xff) as u8);
    proof {
        assert(out@ =~= old(out)@ + u32_le_bytes(x));
    }
}

/// Append `n` zero bytes.
pub fn push_zeros(out: &mut Vec<u8>, n: usize)
    ensures
        final(out)@ == old(out)@ + zeros(n as int),
{
    let mut i: usize = 0;
    while i < n
        invariant
            i <= n,
            out@ == old(out)@ + zeros(i as int),
        decreases n - i,
    {
        out.push(0);
        proof {
            assert(old(out)@ + zeros(i + 1) =~= (old(out)@ + zeros(i as int)).push(0u8));
        }
        i = i + 1;
    }
    proof {
        assert(out@ =~= old(out)@ + zeros(n as int));
    }
}

/// `n` zero bytes.
pub open spec fn zeros(n: int) -> Seq<u8> {
    Seq::new(n as nat, |i: int| 0u8)
}

/// Copy `d[from..to]` out as a fresh vector.
pub fn copy_range(d: &Vec<u8>, from: usize, to: usize) -> (r: Vec<u8>)
    requires
        from <= to <= d@.len(),
    ensures
        r@ == d@.subrange(from as int, to as int),
{
    let mut out: Vec<u8> = Vec::new();
    let mut i: usize = from;
    while i < to
        invariant
            from <= i <= to <= d@.len(),
            out@ == d@.subrange(from as int, i as int),
        decreases to - i,
    {
        out.push(d[i]);
        proof {
            assert(d@.subrange(from as int, i + 1) =~= d@.subrange(from as int, i as int).push(
                d@[i as int],
            ));
        }
        i = i + 1;
    }
    out
}

/// Do the bytes of `pat` stand at offset `pos` of `d`?
pub fn bytes_at_eq(d: &Vec<u8>, pos: usize, pat: &Vec<u8>) -> (r: bool)
    ensures
        r == (pos + pat@.len() <= d@.len() && d@.subrange(
            pos as int,
            pos + pat@.len(),
        ) == pat@),
{
    if pos > d.len() || d.len() - pos < pat.len() {
        return false;
    }
    let dn = d.len();
    let mut i: usize = 0;
    while i < pat.len()
        invariant
            dn == d@.len(),
            pos + pat@.len() <= d@.len(),
            i <= pat@.len(),
            forall|j: int| 0 <= j < i ==> d@[pos + j] == pat@[j],
        decreases pat@.len() - i,
    {
        if d[pos + i] != pat[i] {
            proof {
                assert(d@.subrange(pos as int, pos + pat@.len())[i as int] == d@[pos + i]);
            }
            return false;
        }
        i = i + 1;
    }
    proof {
        assert(d@.subrange(pos as int, pos + pat@.len()) =~= pat@);
    }
    true
}

/// Append all of `src` to `out`.
pub fn push_bytes(out: &mut Vec<u8>, src: &Vec<u8>)
    ensures
        final(out)@ == old(out)@ + src@,
{
    let mut i: usize = 0;
    while i < src.len()
        invariant
            i <= src@.len(),
            out@ == old(out)@ + src@.take(i as int),
        decreases src@.len() - i,
    {
        out.push(src[i]);
        proof {
            assert(old(out)@ + src@.take(i + 1) =~= (old(out)@ + src@.take(i as int)).push(
                src@[i as int],
            ));
        }
        i = i + 1;
    }
    proof {
        assert(src@.take(src@.len() as int) =~= src@);
    }
}

} // verus!
