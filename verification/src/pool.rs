//! The data-pool codec: the length-prefixed, word-aligned cells that hold
//! encoded strings and integer literals inside an action's trailing data
//! area, and the heuristic that tells text cells from integer cells.
use vstd::prelude::*;

use crate::stcm2::trim_trailing_zeros;
use crate::words::{push_u32_le, push_zeros, read_u32_le, u32_at, u32_le_bytes, zeros, copy_range};
use crate::Error;

verus! {

/// One decoded data-pool cell.
#[derive(Clone, PartialEq, Eq, Debug)]
pub enum StringType {
    /// A canonical text cell: the payload minus its 1–4 trailing zero bytes.
    Text(Vec<u8>),
    /// A 4-byte integer cell written with header type 0.
    Type0U32(u32),
    /// A 4-byte integer cell written with header type 1.
    Type1U32(u32),
}

impl StringType {
    /// The header type word the cell was (or would be) written with.
    pub fn type_(&self) -> (r: u32)
        ensures
            r == match *self {
                StringType::Text(_) => 0u32,
                StringType::Type0U32(_) => 0u32,
                StringType::Type1U32(_) => 1u32,
            },
    {
        match self {
            StringType::Text(_) => 0,
            StringType::Type0U32(_) => 0,
            StringType::Type1U32(_) => 1,
        }
    }
}

/// A 4-byte payload that looks like a legitimate script constant: such a
/// word is left to the text path rather than printed as an integer.
pub open spec fn addr_like(n: u32) -> bool {
    (0x100000 <= n && n < 0x1000000) || n == 28783
}

/// The cell header at `pos` is sound: room for the four header words, type
/// 0 or 1, the constant-one word, a length that is four times the quad
/// length, and room for the payload.
pub open spec fn cell_shape_ok(d: Seq<u8>, pos: int) -> bool {
    &&& 0 <= pos
    &&& pos + 16 < d.len()
    &&& (u32_at(d, pos) == 0 || u32_at(d, pos) == 1)
    &&& u32_at(d, pos + 8) == 1
    &&& u32_at(d, pos + 12) as int == 4 * (u32_at(d, pos + 4) as int)
    &&& pos + 16 + u32_at(d, pos + 12) as int <= d.len()
}

/// The payload bytes of the cell at `pos`.
pub open spec fn cell_payload(d: Seq<u8>, pos: int) -> Seq<u8> {
    d.subrange(pos + 16, pos + 16 + u32_at(d, pos + 12) as int)
}

/// The offset just past the cell at `pos`.
pub open spec fn cell_end(d: Seq<u8>, pos: int) -> int {
    pos + 16 + u32_at(d, pos + 12) as int
}

/// The heuristic: a 4-byte payload is an integer cell when its type word is
/// 1 or its value does not look like a script constant.
pub open spec fn cell_is_int(d: Seq<u8>, pos: int) -> bool {
    u32_at(d, pos + 12) == 4 && (u32_at(d, pos) == 1 || !addr_like(u32_at(d, pos + 16)))
}

/// The count of trailing zero bytes of the cell's payload.
pub open spec fn cell_nzero(d: Seq<u8>, pos: int) -> int {
    cell_payload(d, pos).len() - trim_trailing_zeros(cell_payload(d, pos)).len()
}

/// The whole cell at `pos` decodes: either as an integer, or as canonical
/// text (type 0, padded with one to four trailing zero bytes).
pub open spec fn cell_valid(d: Seq<u8>, pos: int) -> bool {
    &&& cell_shape_ok(d, pos)
    &&& (cell_is_int(d, pos) || (u32_at(d, pos) == 0 && 1 <= cell_nzero(d, pos) <= 4))
}

/// Decode the data-pool cell at offset `addr` of `data`: validate the
/// header, classify integer against text by the heuristic, and strip the
/// canonical zero padding of a text cell. Returns the cell and the offset
/// just past it.
pub fn decode_string(data: &Vec<u8>, addr: u32) -> (r: Result<(StringType, usize), Error>)
    requires
        addr <= data@.len(),
    ensures
        match r {
            Ok((st, end)) => {
                &&& cell_valid(data@, addr as int)
                &&& end == cell_end(data@, addr as int)
                &&& match st {
                    StringType::Text(v) => !cell_is_int(data@, addr as int) && v@
                        == trim_trailing_zeros(cell_payload(data@, addr as int)),
                    StringType::Type0U32(n) => cell_is_int(data@, addr as int) && u32_at(
                        data@,
                        addr as int,
                    ) == 0 && n == u32_at(data@, addr as int + 16),
                    StringType::Type1U32(n) => cell_is_int(data@, addr as int) && u32_at(
                        data@,
                        addr as int,
                    ) == 1 && n == u32_at(data@, addr as int + 16),
                }
            },
            Err(e) => e == Error::BadCell && !cell_valid(data@, addr as int),
        },
{
    let pos = addr as usize;
    if data.len() - pos <= 16 {
        return Err(Error::BadCell);
    }
    let type_ = read_u32_le(data, pos);
    if !(type_ == 0 || type_ == 1) {
        return Err(Error::BadCell);
    }
    let qlen = read_u32_le(data, pos + 4);
    let one = read_u32_le(data, pos + 8);
    if one != 1 {
        return Err(Error::BadCell);
    }
    let len = read_u32_le(data, pos + 12);
    if !(len % 4 == 0 && qlen == len / 4) {
        return Err(Error::BadCell);
    }
    let len_us = len as usize;
    if data.len() - pos - 16 < len_us {
        return Err(Error::BadCell);
    }
    proof {
        assert(cell_shape_ok(data@, addr as int));
    }
    let payload_start = pos + 16;
    let end = payload_start + len_us;

    if len == 4 {
        let n = read_u32_le(data, payload_start);
        proof {
            assert(n == u32_at(data@, addr as int + 16));
        }
        if type_ == 1 || !((0x100000 <= n && n < 0x1000000) || n == 28783) {
            if type_ == 0 {
                return Ok((StringType::Type0U32(n), end));
            } else {
                return Ok((StringType::Type1U32(n), end));
            }
        }
    }
    if type_ != 0 {
        return Err(Error::BadCell);
    }

    // strip the canonical padding: all trailing zero bytes, which must
    // number one to four
    let ghost p = cell_payload(data@, addr as int);
    let mut cut: usize = end;
    proof {
        crate::stcm2::lemma_trim_trailing_zeros(p);
        assert(p.take(p.len() as int) =~= p);
        assert(p =~= data@.subrange(payload_start as int, end as int));
    }
    while cut > payload_start && data[cut - 1] == 0
        invariant
            payload_start <= cut <= end,
            end <= data@.len(),
            payload_start == addr + 16,
            p == cell_payload(data@, addr as int),
            end == cell_end(data@, addr as int),
            forall|i: int| cut <= i < end ==> data@[i] == 0,
            trim_trailing_zeros(p) == trim_trailing_zeros(p.take(cut - payload_start)),
            forall|i: int| 0 <= i < p.len() ==> p[i] == data@[payload_start + i],
        decreases cut,
    {
        proof {
            assert(p.take(cut - payload_start).drop_last() =~= p.take(cut - 1 - payload_start));
        }
        cut = cut - 1;
    }
    proof {
        crate::stcm2::lemma_trim_trailing_zeros(p);
        let k = cut - payload_start;
        assert(p.take(k as int).len() == k);
        if k > 0 {
            assert(p.take(k as int)[k - 1] == data@[cut - 1]);
        }
        assert(trim_trailing_zeros(p.take(k as int)) == p.take(k as int));
        assert(trim_trailing_zeros(p) == p.take(k as int));
    }
    let nzero = end - cut;
    if !(1 <= nzero && nzero <= 4) {
        return Err(Error::BadCell);
    }
    let text = copy_range(data, payload_start, cut);
    proof {
        assert(text@ =~= trim_trailing_zeros(p));
    }
    Ok((StringType::Text(text), end))
}

/// The bytes of an integer or pre-aligned cell: the four header words, then
/// the payload unchanged.
pub open spec fn bytestring_cell(type_: u32, p: Seq<u8>) -> Seq<u8>
    recommends
        p.len() % 4 == 0,
        p.len() <= u32::MAX,
{
    u32_le_bytes(type_) + u32_le_bytes((p.len() / 4) as u32) + u32_le_bytes(1) + u32_le_bytes(
        p.len() as u32,
    ) + p
}

/// The bytes of a canonical text cell: the header, the encoded text, then
/// one to four zero bytes, as many as pad the payload to the next multiple
/// of four.
pub open spec fn text_cell_nzero(n: int) -> int {
    4 - n % 4
}

pub open spec fn text_cell(p: Seq<u8>) -> Seq<u8>
    recommends
        p.len() + text_cell_nzero(p.len() as int) <= u32::MAX,
{
    let total = p.len() + text_cell_nzero(p.len() as int);
    u32_le_bytes(0) + u32_le_bytes((total / 4) as u32) + u32_le_bytes(1) + u32_le_bytes(
        total as u32,
    ) + p + zeros(text_cell_nzero(p.len() as int))
}

/// Append a pre-aligned cell: the payload must already be a multiple of
/// four bytes, and is written with no padding.
pub fn encode_bytestring(type_: u32, inner: &Vec<u8>, buffer: &mut Vec<u8>) -> (r: Result<
    (),
    Error,
>)
    ensures
        match r {
            Ok(()) => inner@.len() % 4 == 0 && inner@.len() <= u32::MAX
                && final(buffer)@ == old(buffer)@ + bytestring_cell(type_, inner@),
            Err(e) => (e == Error::BadCell && !(inner@.len() % 4 == 0)
                || e == Error::Overflow && inner@.len() > u32::MAX)
                && final(buffer)@ == old(buffer)@,
        },
{
    if inner.len() % 4 != 0 {
        return Err(Error::BadCell);
    }
    if inner.len() > u32::MAX as usize {
        return Err(Error::Overflow);
    }
    push_u32_le(buffer, type_);
    push_u32_le(buffer, (inner.len() / 4) as u32);
    push_u32_le(buffer, 1);
    push_u32_le(buffer, inner.len() as u32);
    crate::words::push_bytes(buffer, inner);
    proof {
        assert(buffer@ =~= old(buffer)@ + bytestring_cell(type_, inner@));
    }
    Ok(())
}

/// Append a canonical text cell around an already-encoded payload: header,
/// payload, then the canonical one-to-four zero padding.
pub fn encode_text_cell(payload: &Vec<u8>, buffer: &mut Vec<u8>) -> (r: Result<(), Error>)
    ensures
        match r {
            Ok(()) => payload@.len() + text_cell_nzero(payload@.len() as int) <= u32::MAX
                && final(buffer)@ == old(buffer)@ + text_cell(payload@),
            Err(e) => e == Error::Overflow && payload@.len() + text_cell_nzero(
                payload@.len() as int,
            ) > u32::MAX && final(buffer)@ == old(buffer)@,
        },
{
    let nzero: usize = 4 - payload.len() % 4;
    if payload.len() > u32::MAX as usize - nzero {
        return Err(Error::Overflow);
    }
    let total = payload.len() + nzero;
    push_u32_le(buffer, 0);
    push_u32_le(buffer, (total / 4) as u32);
    push_u32_le(buffer, 1);
    push_u32_le(buffer, total as u32);
    crate::words::push_bytes(buffer, payload);
    push_zeros(buffer, nzero);
    proof {
        assert(buffer@ =~= old(buffer)@ + text_cell(payload@));
    }
    Ok(())
}

/// Appending zero bytes does not change what trimming leaves.
pub proof fn lemma_trim_append_zeros(p: Seq<u8>, n: int)
    requires
        n >= 0,
    ensures
        trim_trailing_zeros(p + zeros(n)) == trim_trailing_zeros(p),
    decreases n,
{
    if n == 0 {
        assert(p + zeros(0) =~= p);
    } else {
        let w = p + zeros(n);
        assert(w[w.len() - 1] == 0);
        assert(w.drop_last() =~= p + zeros(n - 1));
        lemma_trim_append_zeros(p, n - 1);
    }
}

/// A sequence that does not end in zero is already trimmed.
pub proof fn lemma_trim_noop(p: Seq<u8>)
    requires
        p.len() == 0 || p[p.len() - 1] != 0,
    ensures
        trim_trailing_zeros(p) == p,
{
}

/// Every encoded cell's total size is a multiple of four: the alignment
/// invariant of the data pool.
pub proof fn lemma_cell_alignment(type_: u32, p: Seq<u8>)
    ensures
        text_cell(p).len() == 16 + p.len() + text_cell_nzero(p.len() as int),
        text_cell(p).len() % 4 == 0,
        p.len() % 4 == 0 ==> bytestring_cell(type_, p).len() == 16 + p.len()
            && bytestring_cell(type_, p).len() % 4 == 0,
{
}

/// Decoding an encoded canonical text cell recovers the text exactly,
/// wherever the cell sits in the pool. The one caveat is the integer
/// heuristic: a four-byte payload must still look like a script constant,
/// or the decoder prints it as an integer instead (which re-encodes to the
/// same bytes, so the file still round-trips).
pub proof fn lemma_text_cell_roundtrip(before: Seq<u8>, p: Seq<u8>, after: Seq<u8>)
    requires
        p.len() > 0,
        p[p.len() - 1] != 0,
        p.len() + text_cell_nzero(p.len() as int) <= u32::MAX,
        p.len() + text_cell_nzero(p.len() as int) > 4 || ({
            let q = p + zeros(text_cell_nzero(p.len() as int));
            addr_like(crate::words::u32_from_le(q[0], q[1], q[2], q[3]))
        }),
    ensures
        ({
            let d = before + text_cell(p) + after;
            let pos = before.len() as int;
            &&& cell_valid(d, pos)
            &&& !cell_is_int(d, pos)
            &&& trim_trailing_zeros(cell_payload(d, pos)) == p
            &&& cell_end(d, pos) == pos + text_cell(p).len()
        }),
{
    let nz = text_cell_nzero(p.len() as int);
    let total = p.len() + nz;
    let c = text_cell(p);
    let d = before + c + after;
    let pos = before.len() as int;
    assert(c.len() == 16 + total);
    assert forall|i: int| 0 <= i < c.len() implies d[pos + i] == c[i] by {}
    assert(d[pos] == c[0] && d[pos + 1] == c[1] && d[pos + 2] == c[2] && d[pos + 3] == c[3]);
    crate::words::lemma_u32_le_roundtrip(0);
    crate::words::lemma_u32_le_roundtrip(1);
    crate::words::lemma_u32_le_roundtrip((total / 4) as u32);
    crate::words::lemma_u32_le_roundtrip(total as u32);
    assert(u32_at(d, pos) == 0);
    assert(u32_at(d, pos + 4) == (total / 4) as u32);
    assert(u32_at(d, pos + 8) == 1);
    assert(u32_at(d, pos + 12) == total as u32);
    assert(cell_shape_ok(d, pos));
    let payload = cell_payload(d, pos);
    assert(payload =~= p + zeros(nz));
    lemma_trim_append_zeros(p, nz);
    lemma_trim_noop(p);
    assert(cell_nzero(d, pos) == nz);
    if total == 4 {
        assert(p.len() < 4);
        assert(payload[0] == p[0]);
        assert(payload.len() == 4);
        if p.len() >= 2 {
            assert(payload[1] == p[1]);
        } else {
            assert(payload[1] == 0);
        }
        if p.len() >= 3 {
            assert(payload[2] == p[2]);
        } else {
            assert(payload[2] == 0);
        }
        assert(payload[3] == 0);
        assert(u32_at(d, pos + 16) == crate::words::u32_from_le(
            payload[0],
            payload[1],
            payload[2],
            payload[3],
        ));
        assert(!cell_is_int(d, pos));
    } else {
        assert(!cell_is_int(d, pos));
    }
}

/// Decoding an encoded four-byte integer cell recovers the value and the
/// header type exactly, wherever the cell sits in the pool.
pub proof fn lemma_int_cell_roundtrip(before: Seq<u8>, type_: u32, v: u32, after: Seq<u8>)
    requires
        type_ == 0 || type_ == 1,
        type_ == 1 || !addr_like(v),
    ensures
        ({
            let d = before + bytestring_cell(type_, u32_le_bytes(v)) + after;
            let pos = before.len() as int;
            &&& cell_valid(d, pos)
            &&& cell_is_int(d, pos)
            &&& u32_at(d, pos) == type_
            &&& u32_at(d, pos + 16) == v
            &&& cell_end(d, pos) == pos + 20
        }),
{
    let c = bytestring_cell(type_, u32_le_bytes(v));
    let d = before + c + after;
    let pos = before.len() as int;
    assert(c.len() == 20);
    assert forall|i: int| 0 <= i < c.len() implies d[pos + i] == c[i] by {}
    crate::words::lemma_u32_le_roundtrip(type_);
    crate::words::lemma_u32_le_roundtrip(1);
    crate::words::lemma_u32_le_roundtrip(4);
    crate::words::lemma_u32_le_roundtrip(v);
    assert(u32_at(d, pos) == type_);
    assert(u32_at(d, pos + 4) == 1);
    assert(u32_at(d, pos + 8) == 1);
    assert(u32_at(d, pos + 12) == 4);
    assert(u32_at(d, pos + 16) == v);
    assert(cell_shape_ok(d, pos));
    assert(cell_is_int(d, pos));
}

} // verus!
