use wrasm::was::inliner::{
    classify, elide_dead_frames, optimize, parse, remove_dead_cont_labels, render, Kind,
};


fn line_kind(s: &str) -> Kind {
    let c: Vec<char> = s.chars().collect();
    classify(&c)
}

#[test]
fn round_trip_is_identity() {
    let samples = [
        "Helper:\n  push rbx\n mov rbx, rcx\nloop:\n dec rbx\n jnz loop\n  pop rbx\n  ret\n",
        ".code\n  call Foo\n  mov rax, 1\n  ret\n",
        "; a comment\nL1:\n  jmp L1\n",
        "  call [rax]\n  call rdx\n", // indirect calls stay Other
    ];
    for s in samples {
        assert_eq!(render(&parse(s)), s, "round-trip must be identity for:\n{s}");
        let (out, origin) = optimize(s, 6);
        assert_eq!(out, s, "optimize identity for:\n{s}");
        assert_eq!(origin, (0..s.lines().count()).collect::<Vec<_>>());
    }
}

#[test]
fn inlines_a_leaf_proc_with_per_site_labels() {
    // Foo: a small unframed leaf with an internal loop, called twice from Bar
    // (Bar is framed → complex=1 → never inlined, always kept).
    let code = "Foo:\n; @wfi Foo 0\n  push rbx\n  mov rbx, rcx\nfloop:\n  dec rbx\n  jnz floop\n  pop rbx\n  ret\n; @wfi-end Foo\nBar:\n; @wfi Bar 1\n  mov rcx, 5\n  call Foo\n  call Foo\n  ret\n; @wfi-end Bar\n";
    let (out, origin) = optimize(code, 8);
    assert_eq!(origin.len(), out.lines().count(), "origin maps every output line");
    assert!(!out.contains("@wfi"), "markers stripped:\n{out}");
    assert!(!out.contains("call Foo"), "both calls inlined:\n{out}");
    assert!(!out.lines().any(|l| l.trim() == "Foo:"), "dead Foo def DCE'd:\n{out}");
    assert!(out.lines().any(|l| l.trim() == "Bar:"), "framed Bar kept:\n{out}");
    // internal label uniquified per site; its backward jump renamed to match
    assert!(out.contains("floop__wfi1:") && out.contains("floop__wfi2:"), "per-site labels:\n{out}");
    assert!(out.contains("jnz floop__wfi1") && out.contains("jnz floop__wfi2"), "renamed jumps:\n{out}");
    // cleanup: dead continuation labels stripped. Both framings stay here —
    // the elision is conservative: rbx is live across each pop (the next body's
    // push / Bar's ret), so neither pair is *proven* dead.
    assert!(!out.contains("__wfi_cont"), "dead continuation labels removed:\n{out}");
    assert_eq!(out.matches("push rbx").count(), 2, "both framings kept (rbx live):\n{out}");
    assert_eq!(out.matches("pop rbx").count(), 2, "both framings kept (rbx live):\n{out}");
    assert!(out.contains("inline Foo") && out.contains("end Foo"), "visible inline markers:\n{out}");
}

#[test]
fn dead_continuation_labels_removed() {
    // a `__wfi_cont` label nothing jumps to is dropped; a jumped-to one stays
    let labs = parse("  jmp __wfi_cont_5\n__wfi_cont_5:\n__wfi_cont_9:\n");
    let (c, _) = remove_dead_cont_labels(&labs, &(0..3).collect());
    let txt = render(&c);
    assert!(txt.contains("__wfi_cont_5:"), "live cont kept:\n{txt}");
    assert!(!txt.contains("__wfi_cont_9:"), "dead cont removed:\n{txt}");
}

#[test]
fn elide_dead_frames_when_provably_dead() {
    // an inlined region whose `pop rbx` is at once overwritten by the enclosing
    // proc's own epilogue `pop rbx` → the framing pair is dead → elided.
    let dead = parse("  ; \u{2500}\u{2500} inline Foo\n  push rbx\n  mov rbx, 7\n  pop rbx\n  ; \u{2500}\u{2500} end Foo\n  pop rbx\n  ret\n");
    let (out, _) = elide_dead_frames(&dead, &(0..7).collect());
    let txt = render(&out);
    assert_eq!(txt.matches("push rbx").count(), 0, "dead frame push elided:\n{txt}");
    assert_eq!(txt.matches("pop rbx").count(), 1, "only the enclosing epilogue pop remains:\n{txt}");

    // but kept when the restored value is read afterwards (live)
    let live = parse("  ; \u{2500}\u{2500} inline Foo\n  push rbx\n  mov rbx, 7\n  pop rbx\n  ; \u{2500}\u{2500} end Foo\n  mov rax, rbx\n  ret\n");
    let (out2, _) = elide_dead_frames(&live, &(0..7).collect());
    let txt2 = render(&out2);
    assert_eq!(txt2.matches("push rbx").count(), 1, "live frame kept:\n{txt2}");
}

#[test]
fn classify_recognizes_the_shapes() {
    assert_eq!(line_kind("Foo:"), Kind::Label("Foo".into()));
    assert_eq!(line_kind("  call Helper"), Kind::Call("Helper".into()));
    assert_eq!(line_kind("  jnz loop"), Kind::Jump("loop".into()));
    assert_eq!(line_kind("  ret"), Kind::Ret);
    // not labels/calls we can splice:
    assert_eq!(line_kind("  call [rax]"), Kind::Other);
    assert_eq!(line_kind("  call rdx"), Kind::Other);
    assert_eq!(line_kind("  mov rax, rbx"), Kind::Other);
    assert_eq!(line_kind("; @marker"), Kind::Other);
}


#[test]
fn a_large_body_is_not_spliced() {
    let code = "Foo:\n; @wfi Foo 0\n  nop\n  nop\n  nop\n  ret\n; @wfi-end Foo\nBar:\n; @wfi Bar 1\n  call Foo\n  ret\n; @wfi-end Bar\n";
    let (out, _) = optimize(code, 2);
    assert!(out.contains("call Foo") && out.lines().any(|l| l == "Foo:"), "{out}");
    let (out, _) = optimize(code, 8);
    assert!(!out.contains("call Foo"), "{out}");
}

#[test]
fn every_output_line_comes_from_an_input_line() {
    let code = "Foo:\n; @wfi Foo 0\n  nop\n  ret\n; @wfi-end Foo\nBar:\n; @wfi Bar 1\n  call Foo\n  ret\n; @wfi-end Bar\n";
    let (out, origin) = optimize(code, 8);
    assert_eq!(origin.len(), out.lines().count());
    assert!(origin.iter().all(|&o| o < code.lines().count()), "{origin:?}");
}
