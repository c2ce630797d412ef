use stcm2tool::stcm2::{from_bytes, Parameter};
use stcm2tool::text::Encoding;

fn lines_of(s: &str) -> Vec<Vec<char>> {
    s.lines().map(|l| l.chars().collect()).collect()
}

fn default_mnemonics() -> Vec<(Vec<char>, u32)> {
    vec![("return".chars().collect(), 0u32)]
}

fn assemble_str(s: &str) -> Result<Vec<u8>, stcm2tool::Error> {
    let lines = lines_of(s);
    stcm2tool::assembler::assemble(&lines, Encoding::Utf8, &default_mnemonics())
}

#[test]
fn two_action_call_scenario() {
    let text = ".tag \"TEST\"\n.global_data \n.code_start\nfoo: call bar\nbar: return\n";
    let bytes = assemble_str(text).expect("assembles");
    let s = from_bytes(bytes).expect("decodes");
    assert_eq!(s.global_data.len(), 0);
    assert_eq!(s.actions.len(), 2);
    let (a0, act0) = &s.actions[0];
    let (a1, act1) = &s.actions[1];
    // addresses are absolute file offsets: the code section starts at 104
    // and the records are 16 bytes each here
    assert_eq!(*a0, 104);
    assert_eq!(*a1, 120);
    assert!(act0.call);
    // the call target is the second action's absolute address, 16 past the
    // code base
    assert_eq!(act0.opcode, *a1);
    assert!(!act1.call);
    assert_eq!(act1.opcode, 0);
    assert_eq!(act0.label(false).unwrap(), b"foo".to_vec());
    assert_eq!(act1.label(false).unwrap(), b"bar".to_vec());
}

#[test]
fn binary_roundtrip_through_text() {
    let text = ".tag \"TEST\"\n.global_data AAECAw\n.code_start\nfoo: call bar\n\
                raw 2A, 11, [bar], [global_data+1], \"hello\", =5, @=12345678h\nbar: return\n";
    let bytes = assemble_str(text).expect("assembles");
    let s = from_bytes(bytes.clone()).expect("decodes");
    let out = stcm2tool::disasm::disassemble(s, &default_mnemonics(), Encoding::Utf8, false, true)
        .expect("disassembles");
    let out_s: String = out.into_iter().collect();
    let bytes2 = assemble_str(&out_s).expect("re-assembles");
    assert_eq!(bytes, bytes2, "round trip is byte-for-byte");
}

#[test]
fn roundtrip_with_junk_bytes() {
    // trailing junk bytes in the data pool survive the junk flag
    let text = ".tag \"TEST\"\n.global_data \n.code_start\nraw 7 ! ////\nreturn\n";
    let bytes = assemble_str(text).expect("assembles");
    let s = from_bytes(bytes.clone()).expect("decodes");
    let out = stcm2tool::disasm::disassemble(s, &default_mnemonics(), Encoding::Utf8, false, true)
        .expect("disassembles");
    let out_s: String = out.into_iter().collect();
    let bytes2 = assemble_str(&out_s).expect("re-assembles");
    assert_eq!(bytes, bytes2);
}

#[test]
fn autolabels_are_stable() {
    // fn_ and local_ labels resolve but are never exported, so the
    // disassembler re-infers them from the addresses
    let text = ".tag \"TEST\"\n.global_data \n.code_start\nentry: call fn_a\nraw 5, [local_b]\nfn_a: return\nlocal_b: return\n";
    let bytes = assemble_str(text).expect("assembles");
    let s1 = from_bytes(bytes.clone()).expect("decodes");
    let s2 = from_bytes(bytes).expect("decodes");
    let d1 = stcm2tool::disasm::disassemble(s1, &default_mnemonics(), Encoding::Utf8, false, false)
        .expect("disassembles");
    let d2 = stcm2tool::disasm::disassemble(s2, &default_mnemonics(), Encoding::Utf8, false, false)
        .expect("disassembles");
    let t1: String = d1.into_iter().collect();
    let t2: String = d2.into_iter().collect();
    assert_eq!(t1, t2, "two disassemblies assign identical labels");
    assert!(t1.contains("fn_94"));
    assert!(t1.contains("local_A4"));
}

#[test]
fn address_annotations_are_ignored() {
    let plain = ".tag \"TEST\"\n.global_data \n.code_start\nfoo: call bar\nbar: return\n";
    let annotated = "000000 .tag \"TEST\"\n.global_data \n.code_start\n000068 foo: call bar\n000078 bar: return\n";
    let b1 = assemble_str(plain).expect("assembles");
    let b2 = assemble_str(annotated).expect("assembles");
    assert_eq!(b1, b2);
}

#[test]
fn unresolved_label_fails() {
    let text = ".tag \"TEST\"\n.global_data \n.code_start\ncall nowhere\n";
    let r = assemble_str(text);
    assert_eq!(r.unwrap_err(), stcm2tool::Error::UnresolvedLabel);
}

#[test]
fn bad_base64_global_data_fails() {
    let text = ".tag \"TEST\"\n.global_data !!!\n.code_start\nreturn\n";
    let r = assemble_str(text);
    assert_eq!(r.unwrap_err(), stcm2tool::Error::BadBase64(1));
}

#[test]
fn malformed_escape_fails() {
    let text = ".tag \"TEST\"\n.global_data \n.code_start\nraw 1, \"a\\qb\"\n";
    let r = assemble_str(text);
    assert_eq!(r.unwrap_err(), stcm2tool::Error::MalformedEscape(3));
}

#[test]
fn bad_op_fails() {
    let text = ".tag \"TEST\"\n.global_data \n.code_start\nnonsense op\n";
    let r = assemble_str(text);
    assert_eq!(r.unwrap_err(), stcm2tool::Error::Syntax(3));
}

#[test]
fn bad_number_fails() {
    let text = ".tag \"TEST\"\n.global_data \n.code_start\nraw ZZ\n";
    let r = assemble_str(text);
    assert_eq!(r.unwrap_err(), stcm2tool::Error::Overflow);
}

#[test]
fn local_labels_are_not_exported() {
    let text = ".tag \"TEST\"\n.global_data \n.code_start\nlocal_1: call local_1\nreturn\n";
    let bytes = assemble_str(text).expect("assembles");
    let s = from_bytes(bytes).expect("decodes");
    assert!(s.actions[0].1.export.is_none(), "local_ labels never reach the export table");
}

#[test]
fn filler_follows_tag_family() {
    // a tag starting with L writes the 0x40000000 filler words
    let text = ".tag \"L2\"\n.global_data \n.code_start\nraw 1, 2A\n";
    let bytes = assemble_str(text).expect("assembles");
    // the record starts at 104: header 16 bytes, then the operand words
    let w1 = u32::from_le_bytes(bytes[124..128].try_into().unwrap());
    assert_eq!(w1, 0x40000000);
    let text2 = ".tag \"TEST\"\n.global_data \n.code_start\nraw 1, 2A\n";
    let bytes2 = assemble_str(text2).expect("assembles");
    let w2 = u32::from_le_bytes(bytes2[124..128].try_into().unwrap());
    assert_eq!(w2, 0xff000000);
}

#[test]
fn value_operand_roundtrips_exactly() {
    let text = ".tag \"TEST\"\n.global_data \n.code_start\nraw 12, DEAD, 1\nreturn\n";
    let bytes = assemble_str(text).expect("assembles");
    let s = from_bytes(bytes).expect("decodes");
    let act = &s.actions[0].1;
    assert_eq!(act.opcode, 0x12);
    assert_eq!(act.params.len(), 2);
    assert!(matches!(act.params[0], Parameter::Value(0xDEAD)));
    assert!(matches!(act.params[1], Parameter::Value(1)));
}

#[test]
fn global_data_pointer_operand() {
    let text = ".tag \"TEST\"\n.global_data AAECAw\n.code_start\nraw 3, [global_data+2]\nreturn\n";
    let bytes = assemble_str(text).expect("assembles");
    let s = from_bytes(bytes).expect("decodes");
    assert_eq!(s.global_data, vec![0u8, 1, 2, 3]);
    let act = &s.actions[0].1;
    assert!(matches!(act.params[0], Parameter::GlobalDataPointer(2)));
}

#[test]
fn file_length_is_backpatched() {
    let text = ".tag \"TEST\"\n.global_data \n.code_start\nreturn\n";
    let bytes = assemble_str(text).expect("assembles");
    // the final trailer's length word sits 60 bytes from the end
    let at = bytes.len() - 60;
    let total = u32::from_le_bytes(bytes[at..at + 4].try_into().unwrap());
    assert_eq!(total as usize, bytes.len());
}

#[test]
fn escapes_roundtrip_through_text() {
    // a control char travels as \x07, an undecodable byte as \Xff
    let text = ".tag \"TEST\"\n.global_data \n.code_start\nraw 9, \"abcd\\x07\\Xff\"\nreturn\n";
    let bytes = assemble_str(text).expect("assembles");
    let s = from_bytes(bytes.clone()).expect("decodes");
    let out = stcm2tool::disasm::disassemble(s, &default_mnemonics(), Encoding::Utf8, false, true)
        .expect("disassembles");
    let out_s: String = out.into_iter().collect();
    assert!(out_s.contains("\\x07"));
    assert!(out_s.contains("\\Xff"));
    let bytes2 = assemble_str(&out_s).expect("re-assembles");
    assert_eq!(bytes, bytes2);
}
