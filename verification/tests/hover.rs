use wrasm::studio::hover::token_at;
use wrasm::studio::syntax::TokKind;

#[test]
fn finds_the_constant_under_the_caret() {
    let line = "mov eax, OPEN_EXISTING";
    let t = token_at(line, 12).expect("a token at col 12");
    assert_eq!(t.kind, TokKind::Constant);
    assert_eq!(&line[t.start..t.end], "OPEN_EXISTING");
}

#[test]
fn finds_the_register() {
    let line = "mov rax, 1";
    let t = token_at(line, 4).unwrap();
    assert_eq!(t.kind, TokKind::Register);
    assert_eq!(&line[t.start..t.end], "rax");
}

#[test]
fn gap_between_tokens_is_none() {
    // The space at col 3 belongs to no token.
    assert!(token_at("mov rax", 3).is_none());
}
