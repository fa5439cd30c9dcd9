use wrasm::studio::complete::{context, CompletionKind};

#[test]
fn function_after_invoke() {
    let line = "invoke Crea";
    let c = context(line, line.len());
    assert_eq!(c.kind, CompletionKind::Function);
    assert_eq!(c.prefix, "Crea");
    assert_eq!(&line[c.start..line.len()], "Crea");
}

#[test]
fn function_with_empty_prefix_right_after_invoke() {
    let c = context("invoke ", 7);
    assert_eq!(c.kind, CompletionKind::Function);
    assert_eq!(c.prefix, "");
}

#[test]
fn second_operand_is_a_symbol_not_a_function() {
    let line = "invoke ExitProcess, OPEN";
    let c = context(line, line.len());
    assert_eq!(c.kind, CompletionKind::Symbol);
    assert_eq!(c.prefix, "OPEN");
}

#[test]
fn struct_field_after_dot() {
    let line = "mov eax, [rcx + RECT.ri";
    let c = context(line, line.len());
    assert_eq!(c.kind, CompletionKind::Field { ty: "RECT".to_string() });
    assert_eq!(c.prefix, "ri");
    assert_eq!(&line[c.start..line.len()], "ri");
}

#[test]
fn field_with_empty_prefix_right_after_dot() {
    let line = "mov eax, [rcx + RECT.";
    let c = context(line, line.len());
    assert_eq!(c.kind, CompletionKind::Field { ty: "RECT".to_string() });
    assert_eq!(c.prefix, "");
}

#[test]
fn typing_the_mnemonic_offers_nothing() {
    assert_eq!(context("mo", 2).kind, CompletionKind::Nothing);
}

#[test]
fn invoke_after_a_label() {
    let line = "main: invoke Crea";
    let c = context(line, line.len());
    assert_eq!(c.kind, CompletionKind::Function);
    assert_eq!(c.prefix, "Crea");
}

#[test]
fn empty_line_offers_nothing() {
    assert_eq!(context("", 0).kind, CompletionKind::Nothing);
}

#[test]
fn generic_operand_is_a_symbol() {
    let line = "mov rax, GetSt";
    let c = context(line, line.len());
    assert_eq!(c.kind, CompletionKind::Symbol);
    assert_eq!(c.prefix, "GetSt");
}


#[test]
fn the_prefix_ends_at_the_cursor() {
    let line = "  mov rax, GetSt, x";
    let c = context(line, 16);
    assert_eq!(c.prefix, "GetSt");
    assert_eq!(c.start + c.prefix.len(), 16);
}

#[test]
fn a_cursor_within_a_character_takes_the_whole_ones_before_it() {
    let line = "mov rax, é";
    let c = context(line, 10);
    assert_eq!(c.prefix, "");
}
