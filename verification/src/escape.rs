//! The textual escape grammars and number syntax shared by both directions:
//! `\xHH` label escapes, the string-literal escapes (`\xHH`, `\XHH`, `\"`,
//! `\\`), and hexadecimal / decimal u32 parsing and formatting.
use vstd::prelude::*;

use crate::Error;

verus! {

/// The value of a hex digit char of either case, or 16 when it is none.
pub open spec fn hex_digit_val(c: char) -> int {
    if '0' <= c && c <= '9' {
        c as int - '0' as int
    } else if 'a' <= c && c <= 'f' {
        c as int - 'a' as int + 10
    } else if 'A' <= c && c <= 'F' {
        c as int - 'A' as int + 10
    } else {
        16
    }
}

/// A char a label token may carry verbatim: printable ASCII except space
/// and backslash.
pub open spec fn is_label_char_c(c: char) -> bool {
    ('!' <= c && c <= '[') || (']' <= c && c <= '~')
}

/// A lowercase hex digit, as the label and byte escapes require.
pub open spec fn is_lhex(c: char) -> bool {
    ('0' <= c && c <= '9') || ('a' <= c && c <= 'f')
}

/// The number a digit string denotes, most significant digit first.
pub open spec fn digits_value(s: Seq<char>, radix: int) -> int
    decreases s.len(),
{
    if s.len() == 0 {
        0
    } else {
        digits_value(s.drop_last(), radix) * radix + hex_digit_val(s[s.len() - 1])
    }
}

/// A valid unsigned number token: an optional leading `+`, then at least
/// one digit of the radix.
pub open spec fn number_body(s: Seq<char>) -> Seq<char> {
    if s.len() > 0 && s[0] == '+' {
        s.drop_first()
    } else {
        s
    }
}

pub open spec fn valid_number(s: Seq<char>, radix: int) -> bool {
    let b = number_body(s);
    b.len() > 0 && forall|i: int|
        0 <= i < b.len() ==> hex_digit_val(#[trigger] b[i]) < radix
}

/// The value of a number token.
pub open spec fn number_value(s: Seq<char>, radix: int) -> int {
    digits_value(number_body(s), radix)
}

/// The exec digit test and value, one digit at a time.
fn hex_digit(c: char, radix: u32) -> (r: Option<u32>)
    requires
        radix == 10 || radix == 16,
    ensures
        match r {
            Some(v) => hex_digit_val(c) == v && v < radix,
            None => hex_digit_val(c) >= radix,
        },
{
    let v: u32;
    if '0' <= c && c <= '9' {
        v = c as u32 - '0' as u32;
    } else if 'a' <= c && c <= 'f' {
        v = c as u32 - 'a' as u32 + 10;
    } else if 'A' <= c && c <= 'F' {
        v = c as u32 - 'A' as u32 + 10;
    } else {
        return None;
    }
    if v < radix {
        Some(v)
    } else {
        None
    }
}

/// Parse an unsigned number token of the given radix, as the assembler's
/// numeric operands require: `Ok` exactly on a valid token whose value fits
/// a u32.
pub fn parse_u32(s: &Vec<char>, radix: u32) -> (r: Result<u32, Error>)
    requires
        radix == 10 || radix == 16,
    ensures
        match r {
            Ok(v) => valid_number(s@, radix as int) && v == number_value(s@, radix as int)
                && number_value(s@, radix as int) <= u32::MAX,
            Err(e) => e == Error::Overflow && !(valid_number(s@, radix as int) && number_value(
                s@,
                radix as int,
            ) <= u32::MAX),
        },
{
    let ghost b = number_body(s@);
    let mut i: usize = 0;
    if s.len() > 0 && s[0] == '+' {
        i = 1;
    }
    if i == s.len() {
        return Err(Error::Overflow);
    }
    proof {
        assert(b =~= s@.skip(i as int));
    }
    let start = i;
    let mut acc: u64 = 0;
    while i < s.len()
        invariant
            radix == 10 || radix == 16,
            start <= i <= s@.len(),
            start < s@.len(),
            b == number_body(s@),
            b == s@.skip(start as int),
            forall|j: int| start <= j < i ==> hex_digit_val(#[trigger] s@[j]) < radix,
            acc == digits_value(b.take(i - start), radix as int),
            acc <= u32::MAX,
        decreases s@.len() - i,
    {
        let d = match hex_digit(s[i], radix) {
            Some(d) => d,
            None => {
                proof {
                    assert(b[i - start] == s@[i as int]);
                }
                return Err(Error::Overflow);
            },
        };
        proof {
            assert(b.take(i + 1 - start).drop_last() =~= b.take(i - start));
            assert(b.take(i + 1 - start)[i - start] == s@[i as int]);
            assert(acc * (radix as u64) <= 0xffffffffu64 * 16) by (nonlinear_arith)
                requires
                    acc <= 0xffffffffu64,
                    radix <= 16,
            ;
        }
        let next: u64 = acc * radix as u64 + d as u64;
        proof {
            assert(next == digits_value(b.take(i + 1 - start), radix as int));
        }
        if next > u32::MAX as u64 {
            proof {
                lemma_digits_value_monotone(b, i + 1 - start, radix as int);
            }
            return Err(Error::Overflow);
        }
        acc = next;
        i = i + 1;
    }
    proof {
        assert(b.take(b.len() as int) =~= b);
    }
    Ok(acc as u32)
}

/// A longer digit string never denotes a smaller number: if a prefix is
/// already too large, the whole token is.
pub proof fn lemma_digits_value_monotone(s: Seq<char>, k: int, radix: int)
    requires
        0 <= k <= s.len(),
        radix >= 1,
        forall|i: int| 0 <= i < s.len() ==> hex_digit_val(#[trigger] s[i]) >= 0,
    ensures
        digits_value(s, radix) >= digits_value(s.take(k), radix),
    decreases s.len() - k,
{
    if k < s.len() {
        lemma_digits_value_monotone(s, k + 1, radix);
        assert(s.take(k + 1).drop_last() =~= s.take(k));
        assert(digits_value(s.take(k + 1), radix) == digits_value(s.take(k), radix) * radix
            + hex_digit_val(s[k]));
        lemma_digits_value_nonneg(s.take(k), radix);
        assert(digits_value(s.take(k), radix) * radix >= digits_value(s.take(k), radix))
            by (nonlinear_arith)
            requires
                radix >= 1,
                digits_value(s.take(k), radix) >= 0,
        ;
    } else {
        assert(s.take(k) =~= s);
    }
}

pub proof fn lemma_digits_value_nonneg(s: Seq<char>, radix: int)
    requires
        radix >= 1,
    ensures
        digits_value(s, radix) >= 0,
    decreases s.len(),
{
    if s.len() > 0 {
        lemma_digits_value_nonneg(s.drop_last(), radix);
        if hex_digit_val(s[s.len() - 1]) >= 0 {
            assert(digits_value(s.drop_last(), radix) * radix >= 0) by (nonlinear_arith)
                requires
                    radix >= 1,
                    digits_value(s.drop_last(), radix) >= 0,
            ;
        }
    }
}

/// The lowercase hex digit char of a value below 16.
pub open spec fn lhex_char(v: int) -> char {
    if v < 10 {
        (('0' as int + v) as u8) as char
    } else {
        (('a' as int + v - 10) as u8) as char
    }
}

/// The uppercase hex digit char of a value below 16.
pub open spec fn uhex_char(v: int) -> char {
    if v < 10 {
        (('0' as int + v) as u8) as char
    } else {
        (('A' as int + v - 10) as u8) as char
    }
}

pub fn lhex_digit(v: u32) -> (c: char)
    requires
        v < 16,
    ensures
        c == lhex_char(v as int),
{
    if v < 10 {
        (48u8 + v as u8) as char
    } else {
        (97u8 + (v - 10) as u8) as char
    }
}

fn uhex_digit(v: u32) -> (c: char)
    requires
        v < 16,
    ensures
        c == uhex_char(v as int),
{
    if v < 10 {
        (48u8 + v as u8) as char
    } else {
        (65u8 + (v - 10) as u8) as char
    }
}

/// The uppercase hex digits of `v`, no leading zeros, empty for zero.
pub open spec fn uhex_digits(v: int) -> Seq<char>
    decreases v,
{
    if v <= 0 {
        seq![]
    } else {
        uhex_digits(v / 16).push(uhex_char(v % 16))
    }
}

/// The hexadecimal rendering of `v`, uppercase, `0` included.
pub open spec fn fmt_hex_spec(v: int) -> Seq<char> {
    if v == 0 {
        seq!['0']
    } else {
        uhex_digits(v)
    }
}

/// The decimal digits of `v`, no leading zeros, empty for zero.
pub open spec fn dec_digits(v: int) -> Seq<char>
    decreases v,
{
    if v <= 0 {
        seq![]
    } else {
        dec_digits(v / 10).push((('0' as int + v % 10) as u8) as char)
    }
}

/// The decimal rendering of `v`, `0` included.
pub open spec fn fmt_dec_spec(v: int) -> Seq<char> {
    if v == 0 {
        seq!['0']
    } else {
        dec_digits(v)
    }
}

/// Append the uppercase hex rendering of `v`.
pub fn push_hex_u32(out: &mut Vec<char>, v: u32)
    ensures
        final(out)@ == old(out)@ + fmt_hex_spec(v as int),
{
    if v == 0 {
        out.push('0');
        proof {
            assert(out@ =~= old(out)@ + fmt_hex_spec(v as int));
        }
        return ;
    }
    let mut digits: Vec<char> = Vec::new();
    let mut x = v;
    while x > 0
        invariant
            digits@.len() <= 8,
            uhex_digits(v as int) =~= uhex_digits(x as int) + digits@.reverse(),
            x > 0 || digits@.len() > 0,
        decreases x,
    {
        let ghost pre = digits@;
        digits.push(uhex_digit(x % 16));
        proof {
            assert(digits@.reverse() =~= seq![uhex_char(x as int % 16)] + pre.reverse());
            assert(uhex_digits(x as int) == uhex_digits(x as int / 16).push(
                uhex_char(x as int % 16),
            ));
            assert(uhex_digits(x as int / 16) + digits@.reverse() =~= uhex_digits(x as int)
                + pre.reverse());
            if digits@.len() > 8 {
                lemma_uhex_digits_len(v as int);
                assert(false);
            }
        }
        x = x / 16;
    }
    let mut i: usize = digits.len();
    proof {
        assert(uhex_digits(v as int) =~= digits@.reverse());
    }
    while i > 0
        invariant
            i <= digits@.len(),
            out@ == old(out)@ + digits@.reverse().take(digits@.len() - i),
        decreases i,
    {
        i = i - 1;
        out.push(digits[i]);
        proof {
            assert(digits@.reverse()[digits@.len() - i - 1] == digits@[i as int]);
            assert(out@ =~= old(out)@ + digits@.reverse().take(digits@.len() - i));
        }
    }
    proof {
        assert(digits@.reverse().take(digits@.len() as int) =~= digits@.reverse());
    }
}

/// At most eight hex digits render any u32.
pub proof fn lemma_uhex_digits_len(v: int)
    requires
        v <= u32::MAX,
    ensures
        uhex_digits(v).len() <= 8,
    decreases v,
{
    if v > 0 {
        assert(pow16(0) == 1);
        assert(pow16(1) == 16);
        assert(pow16(2) == 256);
        assert(pow16(3) == 4096);
        assert(pow16(4) == 0x10000);
        assert(pow16(5) == 0x100000);
        assert(pow16(6) == 0x1000000);
        assert(pow16(7) == 0x10000000);
        assert(pow16(8) == 0x100000000);
        lemma_uhex_digits_len8(v, 8);
    }
}

proof fn lemma_uhex_digits_len8(v: int, k: nat)
    requires
        0 <= v,
        v < pow16(k),
    ensures
        uhex_digits(v).len() <= k,
    decreases k,
{
    if v > 0 {
        assert(k > 0);
        lemma_uhex_digits_len8(v / 16, (k - 1) as nat);
    }
}

pub open spec fn pow16(k: nat) -> int
    decreases k,
{
    if k == 0 {
        1
    } else {
        16 * pow16((k - 1) as nat)
    }
}

/// Append the decimal rendering of `v`.
pub fn push_dec_u32(out: &mut Vec<char>, v: u32)
    ensures
        final(out)@ == old(out)@ + fmt_dec_spec(v as int),
{
    if v == 0 {
        out.push('0');
        proof {
            assert(out@ =~= old(out)@ + fmt_dec_spec(v as int));
        }
        return ;
    }
    let mut digits: Vec<char> = Vec::new();
    let mut x = v;
    while x > 0
        invariant
            digits@.len() <= 10,
            dec_digits(v as int) =~= dec_digits(x as int) + digits@.reverse(),
            x > 0 || digits@.len() > 0,
        decreases x,
    {
        let ghost pre = digits@;
        digits.push((48u8 + (x % 10) as u8) as char);
        proof {
            assert(digits@.reverse() =~= seq![(('0' as int + x as int % 10) as u8) as char]
                + pre.reverse());
            assert(dec_digits(x as int) == dec_digits(x as int / 10).push(
                (('0' as int + x as int % 10) as u8) as char,
            ));
            assert(dec_digits(x as int / 10) + digits@.reverse() =~= dec_digits(x as int)
                + pre.reverse());
            if digits@.len() > 10 {
                lemma_dec_digits_len(v as int);
                assert(false);
            }
        }
        x = x / 10;
    }
    let mut i: usize = digits.len();
    proof {
        assert(dec_digits(v as int) =~= digits@.reverse());
    }
    while i > 0
        invariant
            i <= digits@.len(),
            out@ == old(out)@ + digits@.reverse().take(digits@.len() - i),
        decreases i,
    {
        i = i - 1;
        out.push(digits[i]);
        proof {
            assert(digits@.reverse()[digits@.len() - i - 1] == digits@[i as int]);
            assert(out@ =~= old(out)@ + digits@.reverse().take(digits@.len() - i));
        }
    }
    proof {
        assert(digits@.reverse().take(digits@.len() as int) =~= digits@.reverse());
    }
}

/// At most ten decimal digits render any u32.
pub proof fn lemma_dec_digits_len(v: int)
    requires
        v <= u32::MAX,
    ensures
        dec_digits(v).len() <= 10,
    decreases v,
{
    if v > 0 {
        assert(pow10(0) == 1);
        assert(pow10(1) == 10);
        assert(pow10(2) == 100);
        assert(pow10(3) == 1000);
        assert(pow10(4) == 10000);
        assert(pow10(5) == 100000);
        assert(pow10(6) == 1000000);
        assert(pow10(7) == 10000000);
        assert(pow10(8) == 100000000);
        assert(pow10(9) == 1000000000);
        assert(pow10(10) == 10000000000);
        lemma_dec_digits_len10(v, 10);
    }
}

proof fn lemma_dec_digits_len10(v: int, k: nat)
    requires
        0 <= v,
        v < pow10(k),
    ensures
        dec_digits(v).len() <= k,
    decreases k,
{
    if v > 0 {
        assert(k > 0);
        lemma_dec_digits_len10(v / 10, (k - 1) as nat);
    }
}

pub open spec fn pow10(k: nat) -> int
    decreases k,
{
    if k == 0 {
        1
    } else {
        10 * pow10((k - 1) as nat)
    }
}

/// Append the UTF-8 bytes of one char.
pub fn push_char_utf8(out: &mut Vec<u8>, c: char)
    ensures
        final(out)@ == old(out)@ + vstd::utf8::encode_scalar(c as u32),
{
    proof {
        vstd::utf8::char_is_scalar(c);
    }
    let v = c as u32;
    if v <= 0x7F {
        out.push((v & 0x7F) as u8);
    } else if v <= 0x7FF {
        out.push(0xC0u8 | ((v >> 6) & 0x1F) as u8);
        out.push(0x80u8 | (v & 0x3F) as u8);
    } else if v <= 0xFFFF {
        out.push(0xE0u8 | ((v >> 12) & 0x0F) as u8);
        out.push(0x80u8 | ((v >> 6) & 0x3F) as u8);
        out.push(0x80u8 | (v & 0x3F) as u8);
    } else {
        out.push(0xF0u8 | ((v >> 18) & 0x7) as u8);
        out.push(0x80u8 | ((v >> 12) & 0x3F) as u8);
        out.push(0x80u8 | ((v >> 6) & 0x3F) as u8);
        out.push(0x80u8 | (v & 0x3F) as u8);
    }
    proof {
        assert(out@ =~= old(out)@ + vstd::utf8::encode_scalar(c as u32));
    }
}

/// A byte a label may carry verbatim: printable ASCII except space and
/// backslash.
pub open spec fn is_label_byte(b: u8) -> bool {
    (0x21 <= b && b <= 0x5B) || (0x5D <= b && b <= 0x7E)
}

/// The bytes a label token denotes: each `\xHH` escape is the byte `HH`,
/// and every other char contributes its UTF-8 bytes.
pub open spec fn label_bytes(s: Seq<char>) -> Seq<u8>
    decreases s.len(),
{
    if s.len() == 0 {
        seq![]
    } else if s.len() >= 4 && s[0] == '\\' && s[1] == 'x' && is_lhex(s[2]) && is_lhex(s[3]) {
        seq![(hex_digit_val(s[2]) * 16 + hex_digit_val(s[3])) as u8] + label_bytes(s.skip(4))
    } else {
        vstd::utf8::encode_scalar(s[0] as u32) + label_bytes(s.skip(1))
    }
}

/// Decode a label token to the raw name bytes it denotes.
pub fn decode_label(s: &Vec<char>) -> (r: Vec<u8>)
    ensures
        r@ == label_bytes(s@),
{
    let mut out: Vec<u8> = Vec::new();
    let mut i: usize = 0;
    proof {
        assert(s@.skip(0) =~= s@);
    }
    while i < s.len()
        invariant
            i <= s@.len(),
            label_bytes(s@) == out@ + label_bytes(s@.skip(i as int)),
        decreases s@.len() - i,
    {
        let ghost su = s@.skip(i as int);
        proof {
            assert(su.len() == s@.len() - i);
            assert(su[0] == s@[i as int]);
            if su.len() >= 4 {
                assert(su[1] == s@[i + 1]);
                assert(su[2] == s@[i + 2]);
                assert(su[3] == s@[i + 3]);
            }
        }
        let c = s[i];
        if c == '\\' && s.len() - i > 3 && s[i + 1] == 'x' && hexpair_ok(s[i + 2], s[i + 3]) {
            let b = hexpair_val(s[i + 2], s[i + 3]);
            out.push(b);
            proof {
                assert(su.skip(4) =~= s@.skip(i + 4));
                assert(label_bytes(su) == seq![b] + label_bytes(su.skip(4)));
                assert(out@ + label_bytes(s@.skip(i + 4)) =~= label_bytes(s@));
            }
            i = i + 4;
        } else {
            let ghost pre = out@;
            push_char_utf8(&mut out, c);
            proof {
                assert(su.skip(1) =~= s@.skip(i + 1));
                assert(label_bytes(su) == vstd::utf8::encode_scalar(c as u32) + label_bytes(
                    su.skip(1),
                ));
                assert(out@ + label_bytes(s@.skip(i + 1)) =~= label_bytes(s@));
            }
            i = i + 1;
        }
    }
    proof {
        assert(s@.skip(s@.len() as int) =~= Seq::<char>::empty());
        assert(out@ =~= label_bytes(s@));
    }
    out
}

/// Both chars of an escaped byte are lowercase hex.
fn hexpair_ok(h1: char, h2: char) -> (r: bool)
    ensures
        r == (is_lhex(h1) && is_lhex(h2)),
{
    (('0' <= h1 && h1 <= '9') || ('a' <= h1 && h1 <= 'f')) && (('0' <= h2 && h2 <= '9') || ('a'
        <= h2 && h2 <= 'f'))
}

/// The byte an escaped lowercase hex pair denotes.
fn hexpair_val(h1: char, h2: char) -> (b: u8)
    requires
        is_lhex(h1),
        is_lhex(h2),
    ensures
        b == hex_digit_val(h1) * 16 + hex_digit_val(h2),
{
    let v1: u32 = if '0' <= h1 && h1 <= '9' {
        h1 as u32 - '0' as u32
    } else {
        h1 as u32 - 'a' as u32 + 10
    };
    let v2: u32 = if '0' <= h2 && h2 <= '9' {
        h2 as u32 - '0' as u32
    } else {
        h2 as u32 - 'a' as u32 + 10
    };
    (v1 * 16 + v2) as u8
}

/// The chars that print a raw label name: a label byte stands for itself,
/// anything else is written `\xHH`.
pub open spec fn label_chars(b: Seq<u8>) -> Seq<char>
    decreases b.len(),
{
    if b.len() == 0 {
        seq![]
    } else if is_label_byte(b[0]) {
        seq![b[0] as char] + label_chars(b.drop_first())
    } else {
        seq!['\\', 'x', lhex_char(b[0] as int / 16), lhex_char(b[0] as int % 16)] + label_chars(
            b.drop_first(),
        )
    }
}

/// Print a raw label name with every non-printable byte escaped.
pub fn label_to_string(label: &Vec<u8>) -> (r: Vec<char>)
    ensures
        r@ == label_chars(label@),
{
    let mut out: Vec<char> = Vec::new();
    let mut i: usize = 0;
    proof {
        assert(label@.skip(0) =~= label@);
    }
    while i < label.len()
        invariant
            i <= label@.len(),
            label_chars(label@) == out@ + label_chars(label@.skip(i as int)),
        decreases label@.len() - i,
    {
        let b = label[i];
        let ghost pre = out@;
        let ghost su = label@.skip(i as int);
        proof {
            assert(su[0] == label@[i as int]);
            assert(su.drop_first() =~= label@.skip(i + 1));
        }
        if (0x21 <= b && b <= 0x5B) || (0x5D <= b && b <= 0x7E) {
            out.push(b as char);
            proof {
                assert(label_chars(su) == seq![b as char] + label_chars(label@.skip(i + 1)));
                assert(pre + (seq![b as char] + label_chars(label@.skip(i + 1))) =~= out@
                    + label_chars(label@.skip(i + 1)));
            }
        } else {
            out.push('\\');
            out.push('x');
            out.push(lhex_digit(b as u32 / 16));
            out.push(lhex_digit(b as u32 % 16));
            proof {
                let esc = seq![
                    '\\',
                    'x',
                    lhex_char(b as int / 16),
                    lhex_char(b as int % 16),
                ];
                assert(label_chars(su) == esc + label_chars(label@.skip(i + 1)));
                assert(pre + (esc + label_chars(label@.skip(i + 1))) =~= out@ + label_chars(
                    label@.skip(i + 1),
                ));
            }
        }
        i = i + 1;
    }
    proof {
        assert(label@.skip(label@.len() as int) =~= Seq::<u8>::empty());
        assert(out@ =~= label_chars(label@));
    }
    out
}

/// Printing a label and decoding the printed form recovers the raw bytes:
/// disassembled labels re-assemble to the same names.
pub proof fn lemma_label_roundtrip(b: Seq<u8>)
    ensures
        label_bytes(label_chars(b)) == b,
    decreases b.len(),
{
    if b.len() > 0 {
        lemma_label_roundtrip(b.drop_first());
        if is_label_byte(b[0]) {
            let c = b[0] as char;
            let s = label_chars(b);
            assert(s[0] == c);
            assert(c != '\\');
            assert(s.skip(1) =~= label_chars(b.drop_first()));
            let v = b[0] as u32;
            assert(c as u32 == v);
            assert(v & 0x7F == v) by (bit_vector)
                requires
                    v <= 0x7E,
            ;
            assert(vstd::utf8::encode_scalar(c as u32) =~= seq![b[0]]);
            assert(label_bytes(s) =~= seq![b[0]] + label_bytes(s.skip(1)));
            assert(label_bytes(s) =~= b);
        } else {
            let s = label_chars(b);
            let h1 = lhex_char(b[0] as int / 16);
            let h2 = lhex_char(b[0] as int % 16);
            lemma_lhex_char_val(b[0] as int / 16);
            lemma_lhex_char_val(b[0] as int % 16);
            assert(s.len() >= 4);
            assert(s[0] == '\\' && s[1] == 'x' && s[2] == h1 && s[3] == h2);
            assert(s.skip(4) =~= label_chars(b.drop_first()));
            assert(hex_digit_val(h1) * 16 + hex_digit_val(h2) == b[0]);
            assert(label_bytes(s) =~= seq![b[0]] + label_bytes(s.skip(4)));
            assert(label_bytes(s) =~= b);
        }
    }
}

/// A printed lowercase hex digit reads back as its value.
pub proof fn lemma_lhex_char_val(v: int)
    requires
        0 <= v < 16,
    ensures
        is_lhex(lhex_char(v)),
        hex_digit_val(lhex_char(v)) == v,
{
}

/// One unit of an unescaped string literal: a char to run through the text
/// codec, or a raw byte spliced into the encoded stream as it stands.
#[derive(Clone, Copy, PartialEq, Eq, Structural, Debug)]
pub enum StrUnit {
    /// A char of the text, `\xHH` escapes already folded to their char.
    Ch(char),
    /// A `\XHH` escape: one raw byte that bypasses the text codec.
    Raw(u8),
}

/// The units a quoted string literal's inner text denotes, or `None` when
/// an escape is malformed: `\"` and `\\` fold to the quoted char, `\xHH`
/// and `\XHH` both to the raw byte `HH`, spliced into the encoded stream
/// past the text codec, and a backslash followed by anything else is an
/// error.
pub open spec fn unescape_units(s: Seq<char>) -> Option<Seq<StrUnit>>
    decreases s.len(),
{
    if s.len() == 0 {
        Some(seq![])
    } else if s[0] == '\\' {
        if s.len() >= 2 && (s[1] == '"' || s[1] == '\\') {
            match unescape_units(s.skip(2)) {
                Some(rest) => Some(seq![StrUnit::Ch(s[1])] + rest),
                None => None,
            }
        } else if s.len() >= 4 && (s[1] == 'x' || s[1] == 'X') && is_lhex(s[2]) && is_lhex(s[3]) {
            match unescape_units(s.skip(4)) {
                Some(rest) => Some(
                    seq![StrUnit::Raw((hex_digit_val(s[2]) * 16 + hex_digit_val(s[3])) as u8)]
                        + rest,
                ),
                None => None,
            }
        } else {
            None
        }
    } else {
        match unescape_units(s.skip(1)) {
            Some(rest) => Some(seq![StrUnit::Ch(s[0])] + rest),
            None => None,
        }
    }
}

/// Unescape a string literal's inner text to its units, failing on a
/// malformed escape.
pub fn unescape_string(s: &Vec<char>) -> (r: Option<Vec<StrUnit>>)
    ensures
        match r {
            Some(us) => unescape_units(s@) == Some(us@),
            None => unescape_units(s@) is None,
        },
{
    let mut out: Vec<StrUnit> = Vec::new();
    let mut i: usize = 0;
    proof {
        assert(s@.skip(0) =~= s@);
    }
    while i < s.len()
        invariant
            i <= s@.len(),
            match unescape_units(s@.skip(i as int)) {
                Some(rest) => unescape_units(s@) == Some(out@ + rest),
                None => unescape_units(s@) is None,
            },
        decreases s@.len() - i,
    {
        let ghost su = s@.skip(i as int);
        proof {
            assert(su[0] == s@[i as int]);
            if su.len() >= 2 {
                assert(su[1] == s@[i + 1]);
            }
            if su.len() >= 4 {
                assert(su[2] == s@[i + 2]);
                assert(su[3] == s@[i + 3]);
            }
        }
        let c = s[i];
        let ghost pre = out@;
        if c == '\\' {
            if i + 1 < s.len() && (s[i + 1] == '"' || s[i + 1] == '\\') {
                let u = StrUnit::Ch(s[i + 1]);
                out.push(u);
                proof {
                    assert(su.skip(2) =~= s@.skip(i + 2));
                    if unescape_units(s@.skip(i + 2)) is Some {
                        let rest = unescape_units(s@.skip(i + 2)).unwrap();
                        assert(unescape_units(su) == Some(seq![u] + rest));
                        assert(out@ == pre.push(u));
                        lemma_cons_push(pre, u, rest);
                    }
                }
                i = i + 2;
            } else if s.len() - i > 3 && (s[i + 1] == 'x' || s[i + 1] == 'X') && hexpair_ok(
                s[i + 2],
                s[i + 3],
            ) {
                let b = hexpair_val(s[i + 2], s[i + 3]);
                let u = StrUnit::Raw(b);
                out.push(u);
                proof {
                    assert(su.skip(4) =~= s@.skip(i + 4));
                    if unescape_units(s@.skip(i + 4)) is Some {
                        let rest = unescape_units(s@.skip(i + 4)).unwrap();
                        assert(unescape_units(su) == Some(seq![u] + rest));
                        assert(out@ == pre.push(u));
                        lemma_cons_push(pre, u, rest);
                    }
                }
                i = i + 4;
            } else {
                return None;
            }
        } else {
            let u = StrUnit::Ch(c);
            out.push(u);
            proof {
                assert(su.skip(1) =~= s@.skip(i + 1));
                if unescape_units(s@.skip(i + 1)) is Some {
                    let rest = unescape_units(s@.skip(i + 1)).unwrap();
                    assert(c != '\\');
                    assert(unescape_units(su) == Some(seq![u] + rest));
                    assert(out@ == pre.push(u));
                    lemma_cons_push(pre, u, rest);
                }
            }
            i = i + 1;
        }
    }
    proof {
        assert(s@.skip(s@.len() as int) =~= Seq::<char>::empty());
        assert(out@ + Seq::<StrUnit>::empty() =~= out@);
    }
    Some(out)
}

/// Consing one unit onto the rest, after the prefix, is pushing the unit
/// onto the prefix.
proof fn lemma_cons_push(pre: Seq<StrUnit>, u: StrUnit, rest: Seq<StrUnit>)
    ensures
        pre + (seq![u] + rest) == pre.push(u) + rest,
{
    assert(pre + (seq![u] + rest) =~= pre.push(u) + rest);
}

} // verus!
