use wrasm::winkb::library::scan_was;

#[test]
fn sweeps_public_module_symbols_with_signatures_and_docs() {
    let src = "\
module Canvas
.DATA
dstBase   QWORD ?            ; private — lowercase, skipped
Palette   DWORD 0           ; public data
.CODE
; ---- Blit: opaque rectangular copy ----
proc Blit frame in rcx rdx r8 r9
    ret
endproc
; a private helper
proc blitEx
    ret
endproc
endmodule
mov dword ptr [rip + x], 1   ; outside any module — ignored
";
    let syms = scan_was("library/blit.was", src);
    let names: Vec<&str> = syms.iter().map(|s| s.name.as_str()).collect();
    assert_eq!(names, ["Palette", "Blit"], "only PUBLIC, in-module symbols");

    let blit = syms.iter().find(|s| s.name == "Blit").unwrap();
    assert_eq!(blit.module, "Canvas");
    assert_eq!(blit.file, "library/blit.was");
    assert_eq!(blit.kind, "proc");
    assert_eq!(blit.signature, "in rcx rdx r8 r9 · frame");
    assert_eq!(blit.summary, "Blit: opaque rectangular copy");

    let pal = syms.iter().find(|s| s.name == "Palette").unwrap();
    assert_eq!(pal.kind, "data");
    assert_eq!(pal.signature, "DWORD");
}

#[test]
fn equates_and_a_dword_ptr_override() {
    let src = "module M\nCANVAS_W equ 320\n  mov dword ptr [rip + p], 1\nendmodule\n";
    let syms = scan_was("f.was", src);
    // CANVAS_W is a public equate; the `mov dword ptr` line defines nothing.
    assert_eq!(syms.len(), 1);
    assert_eq!(syms[0].kind, "equate");
    assert_eq!(syms[0].signature, "320");
}


#[test]
fn text_without_a_module_defines_nothing() {
    assert!(scan_was("f.was", "proc Blit\nendproc\nCount DWORD 0\n").is_empty());
}

#[test]
fn labels_macros_and_ends_of_modules() {
    let src = "module M\nStart: mov rax, 1\nmacro Twice x\nendmodule\nAfter:\n";
    let syms = scan_was("f.was", src);
    let got: Vec<(&str, &str, usize)> =
        syms.iter().map(|s| (s.name.as_str(), s.kind.as_str(), s.line)).collect();
    assert_eq!(got, vec![("Start", "label", 2), ("Twice", "macro", 3)]);
}

#[test]
fn a_name_may_begin_with_a_letter_outside_ascii() {
    // A label whose first letter is no ASCII capital is private, but it is a label.
    let syms = scan_was("f.was", "module M\nÉtat: nop\nendmodule\n");
    assert!(syms.is_empty());
}
