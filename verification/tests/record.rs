use conject_macro::record::{read_record, record_name, write_record};

fn bytes(types: &[&str]) -> Vec<Vec<u8>> {
    types.iter().map(|t| t.as_bytes().to_vec()).collect()
}

#[test]
fn record_name_is_base32_of_the_key_digest() {
    assert_eq!(record_name(b""), b"NRRCOLQHXMAUEYVYEF2WFFOFRU".to_vec());
    let name = record_name(b"lib1::Module1");
    assert_eq!(name.len(), 26);
    assert!(name.iter().all(|c| c.is_ascii_uppercase() || (b'2'..=b'7').contains(c)));
    assert_ne!(name, record_name(b"lib1::Module2"));
}

#[test]
fn record_text_is_one_base64_line_per_type() {
    assert_eq!(write_record(&bytes(&["A", "lib::Dep", "Vec<u8>"])), b"QQ==\nbGliOjpEZXA=\nVmVjPHU4Pg==".to_vec());
    assert_eq!(write_record(&bytes(&["A"])), b"QQ==".to_vec());
    assert_eq!(write_record(&Vec::new()), Vec::<u8>::new());
}

#[test]
fn reading_a_record_gives_back_what_was_written() {
    let types = bytes(&["A", "lib::Dep", "Vec<u8>", "::conject::Named<T, u8>"]);
    assert_eq!(read_record(&write_record(&types)), types);
    assert_eq!(read_record(&write_record(&Vec::new())), Vec::<Vec<u8>>::new());
}

#[test]
fn reading_a_record_skips_empty_and_foreign_lines() {
    let text = b"QQ==\n\nnot base64!\nABC\nbGliOjpEZXA=\n";
    assert_eq!(read_record(text), bytes(&["A", "lib::Dep"]));
    assert_eq!(read_record(b""), Vec::<Vec<u8>>::new());
}
