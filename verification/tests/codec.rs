use stcm2tool::escape::{decode_label, label_to_string, parse_u32, unescape_string, StrUnit};
use stcm2tool::pool::{decode_string, encode_bytestring, encode_text_cell, StringType};
use stcm2tool::stcm2::{from_bytes, Parameter};
use stcm2tool::text::{decode_marked, encode_units, Encoding};
use stcm2tool::Error;

fn chars(s: &str) -> Vec<char> {
    s.chars().collect()
}

#[test]
fn text_cell_encodes_with_minimal_padding() {
    // "AB" encodes to a 4-byte payload with two zero bytes of padding
    let mut buf: Vec<u8> = Vec::new();
    encode_text_cell(&vec![0x41, 0x42], &mut buf).unwrap();
    assert_eq!(
        buf,
        vec![0, 0, 0, 0, 1, 0, 0, 0, 1, 0, 0, 0, 4, 0, 0, 0, 0x41, 0x42, 0x00, 0x00]
    );
    assert_eq!(buf.len() % 4, 0);
}

#[test]
fn short_text_cell_decodes_as_integer() {
    // the heuristic: a 4-byte payload that does not look like a script
    // constant prints as an integer, and 0x4241 is no such constant
    let mut buf: Vec<u8> = Vec::new();
    encode_text_cell(&vec![0x41, 0x42], &mut buf).unwrap();
    let (st, end) = decode_string(&buf, 0).unwrap();
    assert_eq!(end, buf.len());
    assert_eq!(st, StringType::Type0U32(0x4241));
}

#[test]
fn long_text_cell_decodes_as_text() {
    let mut buf: Vec<u8> = Vec::new();
    encode_text_cell(&vec![b'H', b'E', b'L', b'L', b'O'], &mut buf).unwrap();
    assert_eq!(buf.len(), 16 + 8);
    let (st, end) = decode_string(&buf, 0).unwrap();
    assert_eq!(end, buf.len());
    assert_eq!(st, StringType::Text(b"HELLO".to_vec()));
}

#[test]
fn integer_cell_roundtrips() {
    let mut buf: Vec<u8> = Vec::new();
    encode_bytestring(1, &0x12345u32.to_le_bytes().to_vec(), &mut buf).unwrap();
    let (st, end) = decode_string(&buf, 0).unwrap();
    assert_eq!(end, 20);
    assert_eq!(st, StringType::Type1U32(0x12345));
}

#[test]
fn misaligned_bytestring_is_refused() {
    let mut buf: Vec<u8> = Vec::new();
    let r = encode_bytestring(0, &vec![1, 2, 3], &mut buf);
    assert_eq!(r.unwrap_err(), Error::BadCell);
    assert!(buf.is_empty());
}

#[test]
fn bad_cell_header_is_refused() {
    // type word 7 is no cell type
    let buf = vec![7u8, 0, 0, 0, 1, 0, 0, 0, 1, 0, 0, 0, 4, 0, 0, 0, 1, 2, 3, 4];
    assert_eq!(decode_string(&buf, 0).unwrap_err(), Error::BadCell);
}

#[test]
fn non_canonical_padding_is_refused() {
    // an 8-byte payload with no trailing zero at all is not canonical text
    let buf = vec![
        0u8, 0, 0, 0, 2, 0, 0, 0, 1, 0, 0, 0, 8, 0, 0, 0, b'A', b'B', b'C', b'D', b'E', b'F',
        b'G', b'H',
    ];
    assert_eq!(decode_string(&buf, 0).unwrap_err(), Error::BadCell);
}

#[test]
fn label_escape_roundtrip() {
    let raw: Vec<u8> = vec![b'a', 0x00, b'z', 0xFF, b' '];
    let printed = label_to_string(&raw);
    let back = decode_label(&printed);
    assert_eq!(back, raw);
    let shown: String = printed.into_iter().collect();
    assert_eq!(shown, "a\\x00z\\xff\\x20");
}

#[test]
fn string_escapes_unescape() {
    // \xHH and \XHH both denote a raw byte spliced past the text codec
    let units = unescape_string(&chars("a\\\"b\\\\c\\x41\\Xff")).unwrap();
    assert_eq!(
        units,
        vec![
            StrUnit::Ch('a'),
            StrUnit::Ch('"'),
            StrUnit::Ch('b'),
            StrUnit::Ch('\\'),
            StrUnit::Ch('c'),
            StrUnit::Raw(0x41),
            StrUnit::Raw(0xff),
        ]
    );
}

#[test]
fn escape_byte_bypasses_the_codec() {
    // a \xff escape contributes the literal byte FF, not the two bytes the
    // codec would write for the char U+00FF
    let units = unescape_string(&chars("\\xff")).unwrap();
    assert_eq!(units, vec![StrUnit::Raw(0xff)]);
    assert_eq!(encode_units(Encoding::Utf8, &units), vec![0xff]);
}

#[test]
fn unknown_escape_is_malformed() {
    assert!(unescape_string(&chars("a\\qb")).is_none());
}

#[test]
fn encode_units_splices_raw_bytes() {
    let units = vec![StrUnit::Ch('A'), StrUnit::Raw(0xfe), StrUnit::Ch('B')];
    let bytes = encode_units(Encoding::Utf8, &units);
    assert_eq!(bytes, vec![0x41, 0xfe, 0x42]);
}

#[test]
fn encode_units_utf8_multibyte() {
    let units = vec![StrUnit::Ch('\u{00E9}')];
    let bytes = encode_units(Encoding::Utf8, &units);
    assert_eq!(bytes, vec![0xC3, 0xA9]);
}

#[test]
fn decode_marked_escapes_bad_bytes() {
    let units = decode_marked(Encoding::Utf8, &vec![0x41, 0xff, 0x42]);
    assert_eq!(
        units,
        vec![StrUnit::Ch('A'), StrUnit::Raw(0xff), StrUnit::Ch('B')]
    );
}

#[test]
fn decode_marked_roundtrips_clean_text() {
    let bytes = vec![0x68, 0x69, 0xC3, 0xA9];
    let units = decode_marked(Encoding::Utf8, &bytes);
    assert_eq!(encode_units(Encoding::Utf8, &units), bytes);
}

#[test]
fn parse_u32_hex_and_decimal() {
    assert_eq!(parse_u32(&chars("2A"), 16).unwrap(), 0x2A);
    assert_eq!(parse_u32(&chars("ff"), 16).unwrap(), 255);
    assert_eq!(parse_u32(&chars("105"), 10).unwrap(), 105);
    assert_eq!(parse_u32(&chars("+7"), 10).unwrap(), 7);
    assert_eq!(parse_u32(&chars("4294967295"), 10).unwrap(), u32::MAX);
    assert!(parse_u32(&chars("4294967296"), 10).is_err());
    assert!(parse_u32(&chars(""), 10).is_err());
    assert!(parse_u32(&chars("12x"), 16).is_err());
}

#[test]
fn parameter_classification_priority() {
    // the marker wins over every range test
    let p = Parameter::parse([0xffffff41, 7, 0xff000000], 200, 8, 4).unwrap();
    assert!(matches!(p, Parameter::ActionRef(7)));
    // inside the action's own data window
    let p = Parameter::parse([203, 0x40000000, 0xff000000], 200, 8, 4).unwrap();
    assert!(matches!(p, Parameter::DataPointer(3)));
    // inside the global pool window, which starts at offset 92
    let p = Parameter::parse([93, 0x40000000, 0x40000000], 200, 8, 4).unwrap();
    assert!(matches!(p, Parameter::GlobalDataPointer(1)));
    // anything else is a literal
    let p = Parameter::parse([5, 0x40000000, 0x40000000], 200, 8, 4).unwrap();
    assert!(matches!(p, Parameter::Value(5)));
    // a word that is no filler refuses the whole operand
    let r = Parameter::parse([5, 6, 0x40000000], 200, 8, 4);
    assert_eq!(r.unwrap_err(), Error::BadParameter);
}

#[test]
fn decode_rejects_bad_magic() {
    assert_eq!(
        from_bytes(vec![0u8; 200]).unwrap_err(),
        Error::BadMagic
    );
}

#[test]
fn decode_rejects_short_buffer() {
    assert_eq!(from_bytes(vec![0u8; 10]).unwrap_err(), Error::Truncated);
}

fn assembled_pair() -> Vec<u8> {
    let text = ".tag \"TEST\"\n.global_data \n.code_start\nfoo: call bar\nbar: return\n";
    let lines: Vec<Vec<char>> = text.lines().map(|l| l.chars().collect()).collect();
    let mn: Vec<(Vec<char>, u32)> = vec![("return".chars().collect(), 0u32)];
    stcm2tool::assembler::assemble(&lines, Encoding::Utf8, &mn).unwrap()
}

#[test]
fn decode_rejects_length_mismatch() {
    let mut bytes = assembled_pair();
    // the first record's stored length, too small for its own header
    bytes[116..120].copy_from_slice(&8u32.to_le_bytes());
    assert_eq!(from_bytes(bytes).unwrap_err(), Error::LengthMismatch);
}

#[test]
fn decode_rejects_unknown_export() {
    let mut bytes = assembled_pair();
    // the first export entry's address, pointed at no action
    bytes[184..188].copy_from_slice(&999u32.to_le_bytes());
    assert_eq!(from_bytes(bytes).unwrap_err(), Error::UnknownExport);
}

#[test]
fn decode_rejects_duplicate_export() {
    let mut bytes = assembled_pair();
    // both export entries claim the first action
    bytes[224..228].copy_from_slice(&104u32.to_le_bytes());
    assert_eq!(from_bytes(bytes).unwrap_err(), Error::DuplicateExport);
}

#[test]
fn decode_rejects_bad_call_flag() {
    let mut bytes = assembled_pair();
    // a call flag word that is neither zero nor one
    bytes[104..108].copy_from_slice(&5u32.to_le_bytes());
    assert_eq!(from_bytes(bytes).unwrap_err(), Error::BadParameter);
}

#[test]
fn action_len_counts_layout() {
    let bytes = assembled_pair();
    let s = from_bytes(bytes).unwrap();
    assert_eq!(s.actions[0].1.len(), 16);
    assert_eq!(s.actions[1].1.len(), 16);
}

#[test]
fn label_modes_trim_padding() {
    let bytes = assembled_pair();
    let s = from_bytes(bytes).unwrap();
    let act = &s.actions[0].1;
    // the stored name is zero padded to 32 bytes; both modes strip it here
    assert_eq!(act.export.as_ref().unwrap().len(), 32);
    assert_eq!(act.label(false).unwrap(), b"foo".to_vec());
    assert_eq!(act.label(true).unwrap(), b"foo".to_vec());
}

#[test]
fn shift_jis_encode_through_units() {
    let units = vec![StrUnit::Ch('\u{3042}')];
    let bytes = encode_units(Encoding::ShiftJis, &units);
    assert_eq!(bytes, vec![0x82, 0xA0]);
}

#[test]
fn shift_jis_decode_marked() {
    let units = decode_marked(Encoding::ShiftJis, &vec![0x82, 0xA0, 0x41]);
    assert_eq!(units, vec![StrUnit::Ch('\u{3042}'), StrUnit::Ch('A')]);
}
