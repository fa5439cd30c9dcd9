use wrasm::studio::syntax::{lex, lex_line, TokKind};

/// Collect (kind, text) pairs for easy assertions.
fn toks(line: &str) -> Vec<(TokKind, &str)> {
    lex_line(line).into_iter().map(|t| (t.kind, &line[t.start..t.end])).collect()
}

#[test]
fn mnemonic_register_number() {
    assert_eq!(
        toks("mov rax, 42"),
        vec![
            (TokKind::Mnemonic, "mov"),
            (TokKind::Register, "rax"),
            (TokKind::Punct, ","),
            (TokKind::Number, "42"),
        ]
    );
}

#[test]
fn comment_to_end_of_line() {
    let t = toks("ret ; done here");
    assert_eq!(t[0], (TokKind::Mnemonic, "ret"));
    assert_eq!(t[1], (TokKind::Comment, "; done here"));
}

#[test]
fn comment_hash_not_inside_brackets() {
    // '#' at top level is a comment; inside [] it would not be — but no real
    // operand uses '#', so just check the top-level case.
    let t = toks("nop # tail");
    assert_eq!(t[1], (TokKind::Comment, "# tail"));
}

#[test]
fn label_only_and_with_instruction() {
    assert_eq!(toks("main:"), vec![(TokKind::Label, "main"), (TokKind::Punct, ":")]);
    assert_eq!(
        toks("main: ret"),
        vec![(TokKind::Label, "main"), (TokKind::Punct, ":"), (TokKind::Mnemonic, "ret")]
    );
}

#[test]
fn directive_and_global_name() {
    assert_eq!(
        toks(".globl main"),
        vec![(TokKind::Directive, ".globl"), (TokKind::Ident, "main")]
    );
}

#[test]
fn registers_all_classes() {
    for r in ["rax", "eax", "ax", "al", "r15d", "xmm0", "ymm15", "zmm31", "rip"] {
        let line = format!("push {r}");
        let t = lex_line(&line);
        assert_eq!(t[1].kind, TokKind::Register, "{r} should be a register");
    }
}

#[test]
fn invoke_is_a_keyword_and_func_is_ident() {
    assert_eq!(
        toks("invoke ExitProcess, 7"),
        vec![
            (TokKind::Keyword, "invoke"),
            (TokKind::Ident, "ExitProcess"),
            (TokKind::Punct, ","),
            (TokKind::Number, "7"),
        ]
    );
}

#[test]
fn upper_snake_operand_is_constant() {
    let t = toks("mov eax, OPEN_EXISTING");
    assert_eq!(t[3], (TokKind::Constant, "OPEN_EXISTING"));
}

#[test]
fn struct_field_is_ident_not_constant() {
    // Mixed case (RECT.right) is not UPPER_SNAKE, so it's a plain ident.
    let t = toks("mov eax, [rcx + RECT.right]");
    assert!(t.iter().any(|&(k, s)| k == TokKind::Ident && s == "RECT.right"), "{t:?}");
    assert!(t.iter().any(|&(k, s)| k == TokKind::Register && s == "rcx"));
}

#[test]
fn hex_and_sizeof_and_string() {
    assert_eq!(toks("mov rax, 0x1F")[3], (TokKind::Number, "0x1F"));
    let s = toks("invoke ExitProcess, sizeof(RECT)");
    assert!(s.iter().any(|&(k, t)| k == TokKind::Keyword && t == "sizeof"));
    assert!(s.iter().any(|&(k, t)| k == TokKind::Constant && t == "RECT"));
    assert_eq!(toks(".asciz \"hi\"")[1], (TokKind::String, "\"hi\""));
}

#[test]
fn size_prefixed_memory() {
    let t = toks("mov qword ptr [rax], 1");
    assert_eq!(t[1], (TokKind::Keyword, "qword"));
    assert_eq!(t[2], (TokKind::Keyword, "ptr"));
    assert_eq!(t[3], (TokKind::Punct, "["));
    assert_eq!(t[4], (TokKind::Register, "rax"));
}

#[test]
fn spans_are_exact_byte_offsets() {
    let line = "mov rax, 42";
    for t in lex_line(line) {
        assert!(t.start < t.end && t.end <= line.len());
    }
    // The register token slices back to exactly "rax".
    let reg = lex_line(line).into_iter().find(|t| t.kind == TokKind::Register).unwrap();
    assert_eq!(&line[reg.start..reg.end], "rax");
}

#[test]
fn blank_and_whitespace_lines_have_no_tokens() {
    assert!(lex_line("").is_empty());
    assert!(lex_line("    \t  ").is_empty());
}

#[test]
fn whole_buffer_lexes_per_line() {
    let rows = lex("main:\n  mov rax, 1\n  ret\n");
    assert_eq!(rows.len(), 3);
    assert_eq!(rows[0][0].kind, TokKind::Label);
    assert_eq!(rows[1][0].kind, TokKind::Mnemonic);
    assert_eq!(rows[2][0].kind, TokKind::Mnemonic);
}
