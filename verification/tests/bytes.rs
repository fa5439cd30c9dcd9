use wrasm::studio::bytes::{hex, hex_masked};

#[test]
fn formats_bytes() {
    assert_eq!(hex(&[0x48, 0xc7, 0xc0, 0x2a, 0, 0, 0]), "48 c7 c0 2a 00 00 00");
}

#[test]
fn empty_is_empty() {
    assert_eq!(hex(&[]), "");
}


#[test]
fn open_bytes_are_shown_as_question_marks() {
    assert_eq!(hex_masked(&[0xe8, 0, 0, 0, 0], &[false, true, true, true, true]), "e8 ?? ?? ?? ??");
    assert_eq!(hex_masked(&[0xc3], &[]), "c3");
}
