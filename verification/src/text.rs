//! The text-codec boundary: the byte/text conversions the data pool needs,
//! with the two supported encodings behind trusted wrappers, and the
//! lossless "marked" decoding that escapes undecodable bytes.
use vstd::prelude::*;

use base64::Engine;

use crate::escape::StrUnit;

verus! {

/// The text encoding the data pool's strings are written in.
#[derive(Clone, Copy, PartialEq, Eq, Structural, Debug)]
pub enum Encoding {
    Utf8,
    ShiftJis,
}

/// What Shift-JIS encoding returns for a char sequence; the result depends
/// on the chars alone.
pub uninterp spec fn sjis_enc(s: Seq<char>) -> Seq<u8>;

/// What one decoding step returns on a byte suffix: the text decoded from
/// the maximal clean prefix, that prefix's length, and the length of the
/// malformed byte run that follows it. Deterministic in the bytes.
pub uninterp spec fn utf8_step(b: Seq<u8>) -> (Seq<char>, nat, nat);

pub uninterp spec fn sjis_step(b: Seq<u8>) -> (Seq<char>, nat, nat);

/// The bytes a char sequence encodes to in the given encoding.
pub open spec fn enc_bytes(e: Encoding, s: Seq<char>) -> Seq<u8> {
    match e {
        Encoding::Utf8 => vstd::utf8::encode_utf8(s),
        Encoding::ShiftJis => sjis_enc(s),
    }
}

/// One decoding step of the given encoding.
pub open spec fn step_of(e: Encoding, b: Seq<u8>) -> (Seq<char>, nat, nat) {
    match e {
        Encoding::Utf8 => utf8_step(b),
        Encoding::ShiftJis => sjis_step(b),
    }
}

/// Relies on encoding_rs's `SHIFT_JIS` encoder: the output is a function of
/// the chars (unmappable chars are replaced deterministically), and empty
/// input gives empty output.
#[verifier::external_body]
fn encode_sjis_chars(chars: &Vec<char>) -> (r: Vec<u8>)
    ensures
        r@ == sjis_enc(chars@),
        chars@.len() == 0 ==> r@.len() == 0,
{
    let s: String = chars.iter().collect();
    let (b, _, _) = encoding_rs::SHIFT_JIS.encode(&s);
    b.into_owned()
}

/// Relies on encoding_rs's UTF-8 decoder (`new_decoder_without_bom_handling`
/// and `decode_to_string_without_replacement` with `last` set): it decodes a
/// clean prefix, then reports the malformed bytes that stopped it; a second
/// run on the same bytes returns the same split. The prefix is maximal:
/// wholly valid input decodes with no malformed run, and where one is
/// reported, no valid scalar starts at the split.
#[verifier::external_body]
fn decode_step_utf8(data: &Vec<u8>, start: usize) -> (r: (String, usize, usize))
    requires
        start <= data@.len(),
    ensures
        (r.0@, r.1 as nat, r.2 as nat) == utf8_step(data@.skip(start as int)),
        start + r.1 + r.2 <= data@.len(),
        r.2 == 0 <==> start + r.1 == data@.len(),
        vstd::utf8::valid_utf8(data@.skip(start as int).take(r.1 as int)),
        r.0@ == vstd::utf8::decode_utf8(data@.skip(start as int).take(r.1 as int)),
        vstd::utf8::valid_utf8(data@.skip(start as int)) ==> r.2 == 0,
        r.2 != 0 ==> !vstd::utf8::valid_first_scalar(
            data@.skip(start as int).skip(r.1 as int),
        ),
{
    let mut dec = encoding_rs::UTF_8.new_decoder_without_bom_handling();
    let mut s = String::new();
    let mut pos = start;
    loop {
        let (res, n) = dec.decode_to_string_without_replacement(&data[pos..], &mut s, true);
        pos += n;
        match res {
            encoding_rs::DecoderResult::InputEmpty => return (s, pos - start, 0),
            encoding_rs::DecoderResult::OutputFull => s.reserve(16),
            encoding_rs::DecoderResult::Malformed(nm, p) => {
                let m = nm as usize + p as usize;
                return (s, pos.saturating_sub(start + m) , m);
            },
        }
    }
}

/// Relies on encoding_rs's Shift-JIS decoder, exactly as the UTF-8 one.
#[verifier::external_body]
fn decode_step_sjis(data: &Vec<u8>, start: usize) -> (r: (String, usize, usize))
    requires
        start <= data@.len(),
    ensures
        (r.0@, r.1 as nat, r.2 as nat) == sjis_step(data@.skip(start as int)),
        start + r.1 + r.2 <= data@.len(),
        r.2 == 0 <==> start + r.1 == data@.len(),
{
    let mut dec = encoding_rs::SHIFT_JIS.new_decoder_without_bom_handling();
    let mut s = String::new();
    let mut pos = start;
    loop {
        let (res, n) = dec.decode_to_string_without_replacement(&data[pos..], &mut s, true);
        pos += n;
        match res {
            encoding_rs::DecoderResult::InputEmpty => return (s, pos - start, 0),
            encoding_rs::DecoderResult::OutputFull => s.reserve(16),
            encoding_rs::DecoderResult::Malformed(nm, p) => {
                let m = nm as usize + p as usize;
                return (s, pos.saturating_sub(start + m), m);
            },
        }
    }
}

/// Relies on std's `FromIterator for String`: collecting chars gives the
/// string of exactly those chars.
#[verifier::external_body]
pub(crate) fn chars_to_string(v: &Vec<char>) -> (r: String)
    ensures
        r@ == v@,
{
    v.iter().collect()
}

/// Relies on std's `str::chars`: the chars of a string are its view.
#[verifier::external_body]
pub(crate) fn str_to_chars(s: &str) -> (r: Vec<char>)
    ensures
        r@ == s@,
{
    s.chars().collect()
}

/// What unpadded standard base64 encoding returns; a function of the bytes.
pub uninterp spec fn b64e(b: Seq<u8>) -> Seq<char>;

/// Relies on base64's `BASE64_STANDARD_NO_PAD.encode`: deterministic,
/// injective (base64 text decodes to one byte string), empty iff the input
/// is empty.
#[verifier::external_body]
pub(crate) fn b64_encode(b: &Vec<u8>) -> (r: String)
    ensures
        r@ == b64e(b@),
        b@.len() == 0 <==> r@.len() == 0,
        forall|o: Seq<u8>| b64e(o) == r@ ==> o == b@,
{
    base64::prelude::BASE64_STANDARD_NO_PAD.encode(b)
}

/// Relies on base64's `BASE64_STANDARD_NO_PAD.decode`: it accepts exactly
/// the canonical unpadded encodings (no padding allowed, trailing bits must
/// be zero), so success means the input is the encoding of the result.
#[verifier::external_body]
pub(crate) fn b64_decode(s: &str) -> (r: Option<Vec<u8>>)
    ensures
        match r {
            Some(v) => s@ == b64e(v@),
            None => forall|bs: Seq<u8>| s@ != b64e(bs),
        },
{
    base64::prelude::BASE64_STANDARD_NO_PAD.decode(s).ok()
}

/// A single text unit and a single raw unit.
pub open spec fn mk_ch(c: char) -> StrUnit {
    StrUnit::Ch(c)
}

pub open spec fn mk_raw(b: u8) -> StrUnit {
    StrUnit::Raw(b)
}

/// The char a text unit carries.
pub open spec fn ch_of(u: StrUnit) -> char {
    u->Ch_0
}

/// The unit sequence of a decoded text run.
pub open spec fn ch_units(t: Seq<char>) -> Seq<StrUnit>
    decreases t.len(),
{
    if t.len() == 0 {
        seq![]
    } else {
        ch_units(t.drop_last()).push(mk_ch(t.last()))
    }
}

/// The unit sequence of a malformed byte run.
pub open spec fn raw_units(b: Seq<u8>) -> Seq<StrUnit>
    decreases b.len(),
{
    if b.len() == 0 {
        seq![]
    } else {
        raw_units(b.drop_last()).push(mk_raw(b.last()))
    }
}

/// Text and raw units grow one element at a time.
pub proof fn lemma_ch_units_take(t: Seq<char>, j: int)
    requires
        0 <= j < t.len(),
    ensures
        ch_units(t.take(j + 1)) == ch_units(t.take(j)).push(StrUnit::Ch(t[j])),
{
    assert(t.take(j + 1).drop_last() =~= t.take(j));
    assert(t.take(j + 1).last() == t[j]);
}

pub proof fn lemma_ch_units_empty(pre: Seq<StrUnit>, t: Seq<char>)
    ensures
        pre + ch_units(t.take(0)) == pre,
{
    assert(t.take(0).len() == 0);
    assert(pre + ch_units(t.take(0)) =~= pre);
}

pub proof fn lemma_raw_units_grow(b: Seq<u8>, lo: int, hi: int)
    requires
        0 <= lo <= hi < b.len(),
    ensures
        raw_units(b.subrange(lo, hi + 1)) == raw_units(b.subrange(lo, hi)).push(
            StrUnit::Raw(b[hi]),
        ),
{
    assert(b.subrange(lo, hi + 1).drop_last() =~= b.subrange(lo, hi));
    assert(b.subrange(lo, hi + 1).last() == b[hi]);
}

pub proof fn lemma_raw_units_empty(pre: Seq<StrUnit>, b: Seq<u8>, lo: int)
    requires
        0 <= lo <= b.len(),
    ensures
        pre + raw_units(b.subrange(lo, lo)) == pre,
{
    assert(b.subrange(lo, lo).len() == 0);
    assert(pre + raw_units(b.subrange(lo, lo)) =~= pre);
}

/// The lossless decoding of a byte string: decode a clean prefix, keep the
/// malformed bytes raw, repeat.
pub open spec fn marked_units(e: Encoding, b: Seq<u8>) -> Seq<StrUnit>
    decreases b.len(),
{
    if b.len() == 0 {
        seq![]
    } else {
        let (t, n, m) = step_of(e, b);
        let adv = if 1 <= n + m <= b.len() {
            (n + m) as int
        } else {
            b.len() as int
        };
        let t2 = if adv == n + m {
            t
        } else {
            seq![]
        };
        let raw = if adv == n + m {
            b.subrange(n as int, adv)
        } else {
            b
        };
        ch_units(t2) + raw_units(raw) + marked_units(e, b.skip(adv))
    }
}

/// Decode a whole byte string losslessly: text where the encoding decodes,
/// raw byte units where it does not; wholly valid UTF-8 input decodes to
/// its chars with no raw unit at all.
pub fn decode_marked(e: Encoding, data: &Vec<u8>) -> (r: Vec<StrUnit>)
    ensures
        r@ == marked_units(e, data@),
        e == Encoding::Utf8 && vstd::utf8::valid_utf8(data@) ==> r@ == ch_units(
            vstd::utf8::decode_utf8(data@),
        ),
{
    let mut out: Vec<StrUnit> = Vec::new();
    let mut pos: usize = 0;
    let dn = data.len();
    proof {
        assert(data@.skip(0) =~= data@);
    }
    while pos < data.len()
        invariant
            dn == data@.len(),
            pos <= data@.len(),
            marked_units(e, data@) == out@ + marked_units(e, data@.skip(pos as int)),
            e == Encoding::Utf8 && vstd::utf8::valid_utf8(data@) ==> (pos == 0 && out@.len() == 0)
                || (pos == data@.len() && out@ == ch_units(vstd::utf8::decode_utf8(data@))),
        decreases data@.len() - pos,
    {
        let ghost su = data@.skip(pos as int);
        proof {
            if e == Encoding::Utf8 && vstd::utf8::valid_utf8(data@) {
                assert(pos == 0);
                assert(su =~= data@);
            }
        }
        let step = match e {
            Encoding::Utf8 => decode_step_utf8(data, pos),
            Encoding::ShiftJis => decode_step_sjis(data, pos),
        };
        let (txt, n, m) = step;
        proof {
            assert((txt@, n as nat, m as nat) == step_of(e, su));
        }
        let ghost pre = out@;
        let chars = str_to_chars(txt.as_str());
        let mut j: usize = 0;
        proof {
            lemma_ch_units_empty(pre, chars@);
        }
        while j < chars.len()
            invariant
                j <= chars@.len(),
                out@ == pre + ch_units(chars@.take(j as int)),
            decreases chars@.len() - j,
        {
            out.push(StrUnit::Ch(chars[j]));
            proof {
                lemma_ch_units_take(chars@, j as int);
            }
            j = j + 1;
        }
        proof {
            assert(chars@.take(chars@.len() as int) =~= chars@);
        }
        let mut k: usize = 0;
        let ghost pre2 = out@;
        proof {
            lemma_raw_units_empty(pre2, data@, pos + n);
        }
        while k < m
            invariant
                dn == data@.len(),
                k <= m,
                pos + n + m <= data@.len(),
                out@ == pre2 + raw_units(data@.subrange(pos + n, pos + n + k)),
            decreases m - k,
        {
            out.push(StrUnit::Raw(data[pos + n + k]));
            proof {
                lemma_raw_units_grow(data@, pos + n, pos + n + k);
            }
            k = k + 1;
        }
        proof {
            let adv = n + m;
            if m == 0 {
                assert(pos + n == data@.len());
                assert(n == su.len());
            }
            assert(1 <= adv <= su.len());
            assert(su.subrange(n as int, adv as int) =~= data@.subrange(pos + n, pos + n + m));
            assert(su.skip(adv as int) =~= data@.skip(pos + adv));
            assert(marked_units(e, su) == ch_units(txt@) + raw_units(
                su.subrange(n as int, adv as int),
            ) + marked_units(e, su.skip(adv as int)));
            assert(ch_units(txt@) == ch_units(chars@));
            assert(pre + (ch_units(chars@) + raw_units(data@.subrange(pos + n, pos + n + m))
                + marked_units(e, data@.skip(pos + adv))) =~= out@ + marked_units(
                e,
                data@.skip(pos + adv),
            ));
        }
        proof {
            if e == Encoding::Utf8 && vstd::utf8::valid_utf8(data@) {
                assert(m == 0);
                assert(pos + n == data@.len());
                assert(data@.take(n as int) =~= data@);
                assert(txt@ == vstd::utf8::decode_utf8(data@));
                assert(out@ =~= ch_units(vstd::utf8::decode_utf8(data@)));
            }
        }
        pos = pos + n + m;
    }
    proof {
        assert(data@.skip(data@.len() as int) =~= Seq::<u8>::empty());
        assert(out@ =~= marked_units(e, data@));
        if e == Encoding::Utf8 && vstd::utf8::valid_utf8(data@) && pos == 0 {
            assert(data@.len() == 0);
            assert(out@ =~= ch_units(vstd::utf8::decode_utf8(data@)));
        }
    }
    out
}

/// The chars of the leading text run of a unit sequence.
pub open spec fn lead_chars(us: Seq<StrUnit>) -> Seq<char>
    decreases us.len(),
{
    if us.len() > 0 && us[0] is Ch {
        seq![ch_of(us[0])] + lead_chars(us.drop_first())
    } else {
        seq![]
    }
}

/// The length of the leading text run.
pub open spec fn lead_len(us: Seq<StrUnit>) -> int
    decreases us.len(),
{
    if us.len() > 0 && us[0] is Ch {
        1 + lead_len(us.drop_first())
    } else {
        0
    }
}

/// The bytes a unit sequence encodes to: each maximal text run through the
/// codec, each raw byte spliced verbatim.
pub open spec fn units_bytes(e: Encoding, us: Seq<StrUnit>) -> Seq<u8>
    decreases us.len(),
{
    if us.len() == 0 {
        seq![]
    } else if us[0] is Raw {
        seq![us[0]->Raw_0] + units_bytes(e, us.drop_first())
    } else {
        let k = if 1 <= lead_len(us) <= us.len() {
            lead_len(us)
        } else {
            1
        };
        enc_bytes(e, lead_chars(us)) + units_bytes(e, us.skip(k))
    }
}

pub proof fn lemma_lead_len_bounds(us: Seq<StrUnit>)
    ensures
        0 <= lead_len(us) <= us.len(),
        lead_chars(us).len() == lead_len(us),
        us.len() > 0 && us[0] is Ch ==> lead_len(us) >= 1,
        forall|i: int| 0 <= i < lead_len(us) ==> us[i] is Ch && ch_of(#[trigger] us[i]) == lead_chars(us)[i],
        lead_len(us) < us.len() ==> us[lead_len(us)] is Raw,
    decreases us.len(),
{
    if us.len() > 0 && us[0] is Ch {
        lemma_lead_len_bounds(us.drop_first());
        assert forall|i: int| 0 <= i < lead_len(us) implies us[i] is Ch && ch_of(
            #[trigger] us[i],
        ) == lead_chars(us)[i] by {
            if i > 0 {
                assert(us.drop_first()[i - 1] == us[i]);
                assert(ch_of(us.drop_first()[i - 1]) == lead_chars(us.drop_first())[i - 1]);
                assert(lead_chars(us)[i] == lead_chars(us.drop_first())[i - 1]);
            }
        }
    }
}

/// Encode a unit sequence back to pool bytes: the inverse of the marked
/// decoding's escape discipline.
pub fn encode_units(e: Encoding, us: &Vec<StrUnit>) -> (r: Vec<u8>)
    ensures
        r@ == units_bytes(e, us@),
{
    let mut out: Vec<u8> = Vec::new();
    let mut i: usize = 0;
    proof {
        assert(us@.skip(0) =~= us@);
    }
    while i < us.len()
        invariant
            i <= us@.len(),
            units_bytes(e, us@) == out@ + units_bytes(e, us@.skip(i as int)),
        decreases us@.len() - i,
    {
        let ghost su = us@.skip(i as int);
        let ghost pre = out@;
        proof {
            assert(su[0] == us@[i as int]);
        }
        match us[i] {
            StrUnit::Raw(b) => {
                out.push(b);
                proof {
                    assert(su.drop_first() =~= us@.skip(i + 1));
                    assert(units_bytes(e, su) == seq![b] + units_bytes(e, us@.skip(i + 1)));
                    assert(pre + (seq![b] + units_bytes(e, us@.skip(i + 1))) =~= out@
                        + units_bytes(e, us@.skip(i + 1)));
                }
                i = i + 1;
            },
            StrUnit::Ch(_) => {
                proof {
                    lemma_lead_len_bounds(su);
                }
                let mut run: Vec<char> = Vec::new();
                let mut j: usize = i;
                let ghost k = lead_len(su);
                while j < us.len() && matches!(us[j], StrUnit::Ch(_))
                    invariant
                        i <= j <= us@.len(),
                        su == us@.skip(i as int),
                        k == lead_len(su),
                        lead_chars(su).len() == k,
                        0 <= k <= su.len(),
                        j - i <= k,
                        forall|t: int|
                            0 <= t < k ==> su[t] is Ch && ch_of(#[trigger] su[t]) == lead_chars(
                                su,
                            )[t],
                        k < su.len() ==> su[k] is Raw,
                        run@ == lead_chars(su).take(j - i),
                    decreases us@.len() - j,
                {
                    proof {
                        assert(su[j - i] == us@[j as int]);
                        if j - i == k {
                            assert(su[k] is Ch);
                            assert(k < su.len() ==> su[k] is Raw);
                            assert(k == su.len());
                            assert(false);
                        }
                    }
                    let c = match us[j] {
                        StrUnit::Ch(c) => c,
                        StrUnit::Raw(_) => '\0',
                    };
                    run.push(c);
                    proof {
                        assert(ch_of(su[j - i]) == lead_chars(su)[j - i]);
                        assert(c == ch_of(su[j - i]));
                        assert(lead_chars(su).take(j + 1 - i) =~= lead_chars(su).take(
                            j - i,
                        ).push(ch_of(su[j - i])));
                    }
                    j = j + 1;
                }
                proof {
                    if j - i < k {
                        assert(su[j - i] is Ch);
                        assert(j < us@.len());
                        assert(false);
                    }
                    assert(j - i == k);
                    assert(run@ =~= lead_chars(su));
                }
                let enc = encode_chars(e, &run);
                crate::words::push_bytes(&mut out, &enc);
                proof {
                    assert(su.skip(k) =~= us@.skip(i + k));
                    assert(units_bytes(e, su) == enc_bytes(e, lead_chars(su)) + units_bytes(
                        e,
                        us@.skip(i + k),
                    ));
                    assert(pre + (enc_bytes(e, lead_chars(su)) + units_bytes(
                        e,
                        us@.skip(i + k),
                    )) =~= out@ + units_bytes(e, us@.skip(i + k)));
                }
                i = j;
            },
        }
    }
    proof {
        assert(us@.skip(us@.len() as int) =~= Seq::<StrUnit>::empty());
        assert(out@ =~= units_bytes(e, us@));
    }
    out
}

/// Encode chars in the given encoding: UTF-8 in verified code, Shift-JIS
/// through its trusted encoder.
pub fn encode_chars(e: Encoding, chars: &Vec<char>) -> (r: Vec<u8>)
    ensures
        r@ == enc_bytes(e, chars@),
{
    match e {
        Encoding::ShiftJis => encode_sjis_chars(chars),
        Encoding::Utf8 => {
            let mut out: Vec<u8> = Vec::new();
            let mut i: usize = 0;
            proof {
                assert(chars@.skip(0) =~= chars@);
            }
            while i < chars.len()
                invariant
                    i <= chars@.len(),
                    vstd::utf8::encode_utf8(chars@) == out@ + vstd::utf8::encode_utf8(
                        chars@.skip(i as int),
                    ),
                decreases chars@.len() - i,
            {
                let ghost su = chars@.skip(i as int);
                let ghost pre = out@;
                proof {
                    assert(su[0] == chars@[i as int]);
                    assert(su.drop_first() =~= chars@.skip(i + 1));
                }
                crate::escape::push_char_utf8(&mut out, chars[i]);
                proof {
                    assert(vstd::utf8::encode_utf8(su) == vstd::utf8::encode_scalar(
                        chars@[i as int] as u32,
                    ) + vstd::utf8::encode_utf8(chars@.skip(i + 1)));
                    assert(pre + (vstd::utf8::encode_scalar(chars@[i as int] as u32)
                        + vstd::utf8::encode_utf8(chars@.skip(i + 1))) =~= out@
                        + vstd::utf8::encode_utf8(chars@.skip(i + 1)));
                }
                i = i + 1;
            }
            proof {
                assert(chars@.skip(chars@.len() as int) =~= Seq::<char>::empty());
                assert(out@ =~= vstd::utf8::encode_utf8(chars@));
            }
            out
        },
    }
}

} // verus!
