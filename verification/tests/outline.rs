use wrasm::studio::outline::{classified, labels, line_of, LabelKind};

const SRC: &str = "\
.globl main
main:
    mov rax, 1
    jmp done
loop_body:
    dec rax
done:
    ret
";

#[test]
fn collects_labels_with_line_numbers() {
    assert_eq!(
        labels(SRC),
        vec![
            ("main".to_string(), 1),
            ("loop_body".to_string(), 4),
            ("done".to_string(), 6),
        ]
    );
}

#[test]
fn go_to_definition() {
    assert_eq!(line_of(SRC, "done"), Some(6));
    assert_eq!(line_of(SRC, "nope"), None);
}

#[test]
fn a_jmp_target_is_not_a_definition() {
    // `jmp done` references done; only the `done:` line is a definition.
    let defs = labels(SRC);
    assert_eq!(defs.iter().filter(|(n, _)| n == "done").count(), 1);
}

#[test]
fn classified_separates_code_and_data_labels() {
    let src = "\
.globl main
banner BYTE \"hi\", 0
buf BYTE 64 dup(0)
freq real8 1.5
COUNT equ 10
LIMIT = 20
main:
    mov rax, 1
    mov dword ptr [rsp], 0
    ret
table:
    .quad 1, 2, 3
proc helper uses rbx
    ret
APPEND macro chr
    inc rcx
endm";
    let found = classified(src);
    let got: Vec<(&str, LabelKind)> =
        found.iter().map(|l| (l.name.as_str(), l.kind)).collect();
    assert_eq!(
        got,
        vec![
            ("banner", LabelKind::Data),
            ("buf", LabelKind::Data),
            ("freq", LabelKind::Data),
            ("COUNT", LabelKind::Data),
            ("LIMIT", LabelKind::Data),
            ("main", LabelKind::Code),     // followed by an instruction
            ("table", LabelKind::Data),    // followed by `.quad`
            ("helper", LabelKind::Code),   // proc
            ("APPEND", LabelKind::Code),   // macro
        ]
    );
    // The `mov dword ptr` size override must NOT register as a data label.
    assert!(classified(src).iter().all(|l| l.name != "mov"));
}
