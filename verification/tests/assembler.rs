use wrasm::was::blocks;
use wrasm::was::calls;
use wrasm::was::calls::{guid_to_bytes, proc_frame_size};
use wrasm::was::check;
use wrasm::was::cli::{check_report, is_program, object_report_line, parse_args, program_report_line};
use wrasm::was::clobber::clobber_diags;
use wrasm::was::contract;
use wrasm::was::contract::{proc_contract_diags, ProcHdr};
use wrasm::was::data;
use wrasm::was::data::{emit_string_block, StringAccum};
use wrasm::was::diag::Diag;
use wrasm::was::graph::{expand_includes_graph, print_include_graph, Expansion};
use wrasm::was::includes::{com_bindings, expand_includes, IncludeFile, IncludeStop};
use wrasm::was::lex;
use wrasm::was::lex::split_line_tag;
use wrasm::was::lower::{lower, lower_mapped};
use wrasm::was::macros;
use wrasm::was::operands;
use wrasm::was::regs;
use wrasm::winkb::kb::{
    Directive, EnumType, Field, Func, Instruction, Interface, Kb, Layout, Method, NameClass, NameRow,
    NamedValue, Param, SizedType, Value,
};


fn func(name: &str, dll: &str, params: &[(&str, &str)]) -> Func {
    Func {
        name: name.into(),
        dll: Some(dll.into()),
        callconv: Some("platformapi".into()),
        aw_family: None,
        ret: "BOOL".into(),
        doc_url: None,
        params: params
            .iter()
            .enumerate()
            .map(|(i, p)| Param {
                ordinal: i as i64 + 1,
                name: p.0.into(),
                ty: p.1.into(),
                type_kind: "native".into(),
                related: vec![],
            })
            .collect(),
    }
}

fn value(name: &str, source: &str, v: i64) -> NamedValue {
    NamedValue {
        name: name.into(),
        value: Value { source: source.into(), i64v: v, bits: v as u64, namespace: None },
    }
}

fn layout(name: &str, size: i64, fields: &[(&str, i64, &str)]) -> Layout {
    Layout {
        name: name.into(),
        kind: "struct".into(),
        size,
        align: 4,
        fields: fields
            .iter()
            .map(|f| Field { name: f.0.into(), offset: f.1, ty: f.2.into() })
            .collect(),
    }
}

fn interface(name: &str, base: Option<&str>, first: i64, methods: &[(&str, &[&str])]) -> Interface {
    Interface {
        name: name.into(),
        iid: Some("310d36a0-d2e7-4c0a-aa04-6a9d23b8886a".into()),
        base: base.map(|b| b.to_string()),
        methods: methods
            .iter()
            .enumerate()
            .map(|(i, m)| Method {
                vtable_index: first + i as i64,
                name: m.0.into(),
                params: m.1.iter().map(|p| p.to_string()).collect(),
            })
            .collect(),
    }
}

fn row(class: NameClass, name: &str, kind: &str, detail: &str) -> NameRow {
    NameRow { class, name: name.into(), kind: kind.into(), detail: detail.into() }
}

/// A small knowledge base with the names that the tests speak of.
fn kb() -> Kb {
    let mut create_file = func(
        "CreateFileW",
        "KERNEL32.dll",
        &[
            ("lpFileName", "PCWSTR"),
            ("dwDesiredAccess", "u32"),
            ("dwShareMode", "FILE_SHARE_MODE"),
            ("lpSecurityAttributes", "SECURITY_ATTRIBUTES*"),
            ("dwCreationDisposition", "FILE_CREATION_DISPOSITION"),
            ("dwFlagsAndAttributes", "u32"),
            ("hTemplateFile", "HANDLE"),
        ],
    );
    create_file.params[4].type_kind = "enum".into();
    create_file.params[4].related = vec![("CREATE_NEW".into(), 1), ("OPEN_EXISTING".into(), 3)];
    Kb {
        functions: vec![
            create_file,
            func("Sleep", "KERNEL32.dll", &[("dwMilliseconds", "u32")]),
            func("GetTickCount", "KERNEL32.dll", &[]),
            func("ExitProcess", "KERNEL32.dll", &[("uExitCode", "u32")]),
            func(
                "MessageBoxW",
                "USER32.dll",
                &[("hWnd", "HWND"), ("lpText", "PCWSTR"), ("lpCaption", "PCWSTR"), ("uType", "u32")],
            ),
        ],
        values: vec![
            value("CREATE_NEW", "enum", 1),
            value("OPEN_EXISTING", "enum", 3),
            value("FILE_SHARE_READ", "const", 1),
            value("MB_OK", "const", 0),
        ],
        layouts: vec![
            layout(
                "RECT",
                16,
                &[("left", 0, "i32"), ("top", 4, "i32"), ("right", 8, "i32"), ("bottom", 12, "i32")],
            ),
            layout("D2D1_ELLIPSE", 16, &[("point", 0, "D2D_POINT_2F"), ("radiusX", 8, "f32"), ("radiusY", 12, "f32")]),
            layout("DXGI_MODE_DESC", 28, &[("Width", 0, "u32"), ("Height", 4, "u32"), ("Format", 16, "DXGI_FORMAT")]),
            layout(
                "DXGI_SWAP_CHAIN_DESC",
                72,
                &[
                    ("BufferDesc", 0, "Windows.Win32.Graphics.Dxgi.Common.DXGI_MODE_DESC"),
                    ("BufferUsage", 36, "u32"),
                    ("BufferCount", 40, "u32"),
                    ("OutputWindow", 48, "HWND"),
                ],
            ),
        ],
        sizes: vec![
            SizedType { name: "RECT".into(), bits: 128 },
            SizedType { name: "D2D1_ELLIPSE".into(), bits: 128 },
            SizedType { name: "DXGI_MODE_DESC".into(), bits: 224 },
            SizedType { name: "DXGI_SWAP_CHAIN_DESC".into(), bits: 576 },
        ],
        interfaces: vec![
            interface(
                "IUnknown",
                None,
                0,
                &[("QueryInterface", &["Guid*", "void**"]), ("AddRef", &[]), ("Release", &[])],
            ),
            interface("IDXGIDeviceSubObject", Some("Windows.Win32.System.Com.IUnknown"), 7, &[("GetDevice", &["Guid*", "void**"])]),
            interface(
                "IDXGISwapChain",
                Some("Windows.Win32.Graphics.Dxgi.IDXGIDeviceSubObject"),
                8,
                &[("Present", &["u32", "u32"]), ("GetBuffer", &["u32", "Guid*", "void**"])],
            ),
            interface(
                "ID2D1RenderTarget",
                Some("Windows.Win32.System.Com.IUnknown"),
                20,
                &[("DrawEllipse", &["D2D1_ELLIPSE*", "ID2D1Brush", "f32", "ID2D1StrokeStyle"])],
            ),
            interface("ID2D1HwndRenderTarget", Some("Windows.Win32.Graphics.Direct2D.ID2D1RenderTarget"), 57, &[]),
        ],
        enums: vec![EnumType { type_id: 7, members: vec![("CREATE_NEW".into(), 1), ("OPEN_EXISTING".into(), 3)] }],
        instructions: vec![Instruction {
            mnemonic: "mov".into(),
            category: "data".into(),
            flags: "none".into(),
            summary: "copy".into(),
            description: "Copies the source.".into(),
        }],
        directives: vec![Directive {
            name: "invoke".into(),
            category: "call".into(),
            syntax: "invoke Func, args".into(),
            summary: "call a function".into(),
            description: "Calls an imported function.".into(),
        }],
        names: vec![
            row(NameClass::Function, "CreateFileW", "function", "KERNEL32.dll"),
            row(NameClass::Function, "CreateFileMappingW", "function", "KERNEL32.dll"),
            row(NameClass::Function, "ExitProcess", "function", "KERNEL32.dll"),
            row(NameClass::Constant, "OPEN_EXISTING", "enum-val", "enum"),
            row(NameClass::Constant, "FILE_SHARE_READ", "constant", "const"),
            row(NameClass::Type, "RECT", "struct", "Windows.Win32.Foundation.RECT"),
        ],
    }
}


fn chars(s: &str) -> Vec<char> {
    s.chars().collect()
}

fn text(s: &[char]) -> &'static str {
    s.iter().collect::<String>().leak()
}

fn split_top_commas(s: &str) -> Vec<&'static str> {
    lex::split_top_commas(&chars(s)).iter().map(|p| text(p)).collect()
}

fn parse_proc(s: &str) -> ProcHdr {
    contract::parse_proc(&chars(s))
}

fn call_arg_count(s: &str) -> Option<usize> {
    calls::call_arg_count(&chars(s))
}

fn float_arg(s: &str) -> Option<(bool, &'static str)> {
    calls::float_arg(&chars(s)).map(|(d, a)| (d, text(a)))
}

fn read_sizeof_arg(s: &str) -> (usize, &'static str) {
    let c = chars(s);
    let (n, a) = operands::read_sizeof_arg(&c);
    (n, text(a))
}

fn is_register(s: &str) -> bool {
    regs::is_register(&chars(s))
}

fn vtable_index_of(kb: &Kb, iface: &str, method: &str) -> Option<i64> {
    operands::vtable_index_of(kb, &chars(iface), &chars(method))
}

fn split_condition(s: &str) -> Option<(&'static str, &'static str, &'static str)> {
    blocks::split_condition(&chars(s)).map(|(a, op, b)| (text(a), op, text(b)))
}

fn cond_branch(relop: &str, want: bool) -> Option<&'static str> {
    blocks::cond_branch(&chars(relop), want)
}

fn parse_macro_def(s: &str) -> Option<(String, Vec<String>)> {
    macros::parse_macro_def(&chars(s))
}

fn is_endm(s: &str) -> bool {
    macros::is_endm(&chars(s))
}

fn macro_names(s: &str) -> Vec<String> {
    macros::macro_names(&chars(s))
}

fn parse_data_line(s: &str) -> Option<(Option<&'static str>, &'static str, &'static str)> {
    data::parse_data_line(&chars(s)).map(|(l, k, v)| (l.map(|l| text(l)), text(k), text(v)))
}

fn check(src: &str, kb: &Kb) -> Vec<Diag> {
    check::check(src, kb, None)
}

/// The findings where the assembler refuses the lowered line that holds `word`.
fn check_refused(src: &str, kb: &Kb, word: &str) -> Vec<Diag> {
    let low = lower(src, kb).unwrap();
    let at = low.lines().position(|l| l.contains(word)).unwrap();
    let message = format!("line {}: encode `{}`: unknown mnemonic", at + 1, low.lines().nth(at).unwrap().trim());
    check::check(src, kb, Some(&message))
}

#[test]
fn split_commas_respects_brackets() {
    let p = split_top_commas("Func, [rsp + 8], 0x10, msg");
    assert_eq!(p, vec!["Func", " [rsp + 8]", " 0x10", " msg"]);
}

#[test]
fn proc_parses_and_contract_checks() {
    let h = parse_proc("add3 uses rbx rsi in rcx rdx out rax");
    assert_eq!(h.name, "add3");
    assert_eq!(h.uses, ["rbx", "rsi"]);
    assert_eq!(h.ins, ["rcx", "rdx"]);
    assert_eq!(h.outs, ["rax"]);
    assert!(!h.frame);
    assert!(parse_proc("f uses rbx frame").frame);

    // `uses` check: modifies a callee-saved register it didn't declare
    let bad = ".code\nproc f uses rbx in rcx\n  mov rsi, rcx\nendproc\n";
    let d = proc_contract_diags(bad);
    assert_eq!(d.len(), 1, "{d:?}");
    assert!(d[0].message.contains("rsi") && d[0].line == 3, "{d:?}");

    // declared → clean; volatile scratch (rcx written, r10 zeroed) is free
    let ok = ".code\nproc f uses rbx rsi in rcx rdx\n  mov rsi, rcx\n  mov rbx, rdx\n  mov rcx, 1\n  xor r10, r10\nendproc\n";
    assert!(proc_contract_diags(ok).is_empty(), "{:?}", proc_contract_diags(ok));
}

#[test]
fn proc_in_out_and_frame_balance_checks() {
    // `in`: reads rcx but never sets it and didn't declare it
    let undecl = ".code\nproc f uses rbx\n  mov rbx, rcx\nendproc\n";
    let d = proc_contract_diags(undecl);
    assert!(d.iter().any(|x| x.message.contains("reads `rcx`") && x.message.contains("in rcx")), "{d:?}");
    // declaring it clears the warning
    assert!(proc_contract_diags(".code\nproc f uses rbx in rcx\n  mov rbx, rcx\nendproc\n")
        .iter().all(|x| !x.message.contains("reads")));

    // `out`: declared but never written
    let unset = ".code\nproc f out rax\n  nop\nendproc\n";
    assert!(proc_contract_diags(unset).iter().any(|x| x.message.contains("out rax") && x.message.contains("never sets")), "");

    // frame balance: a stray push before a call breaks the alignment
    let stray = ".code\nproc f frame\n  push rcx\n  invoke Sleep, 0\nendproc\n";
    assert!(proc_contract_diags(stray).iter().any(|x| x.message.contains("off the frame level")), "");
    // balanced push/pop around no call → fine
    let balanced = ".code\nproc f frame\n  push rcx\n  pop rcx\n  invoke Sleep, 0\nendproc\n";
    assert!(proc_contract_diags(balanced).iter().all(|x| !x.message.contains("frame level")), "{:?}", proc_contract_diags(balanced));
}

#[test]
fn framed_proc_sizing_and_lean_calls() {
    // arg counts (incl. the COM `this`)
    assert_eq!(call_arg_count("invoke Foo, a, b"), Some(2));
    assert_eq!(call_arg_count("comcall obj, I, M, a, b"), Some(3));
    assert_eq!(call_arg_count("p.Draw(3, 0)"), Some(3));
    assert_eq!(call_arg_count("mov rax, 1"), None);
    // frame size: 32 shadow + outgoing stack args, rounded to 16 (the proc
    // aligns itself, so size doesn't depend on the saved-register count).
    assert_eq!(proc_frame_size(2), 32); // ≤4 args → shadow only
    assert_eq!(proc_frame_size(4), 32);
    assert_eq!(proc_frame_size(5), 48); // 1 stack arg
    assert_eq!(proc_frame_size(7), 64); // 3 stack args

    // A framed proc aligns once (rbp anchor); the call inside drops its own
    // ceremony and must not re-align.
    let kb = kb();
    let low = lower(".code\nproc w uses rbx frame\n  invoke Sleep, 0\nendproc\n", &kb).unwrap();
    assert!(low.contains("and rsp, -16") && low.contains("mov rsp, rbp"), "robust frame:\n{low}");
    let body = low.split("sub rsp, 32").nth(1).unwrap();
    assert!(!body.contains("and rsp, -16"), "the lean call must not re-align:\n{body}");
    assert!(body.contains("call Sleep"));
}

#[test]
fn float_args_marshal_to_xmm() {
    assert_eq!(float_arg("real4 [rip + x]"), Some((false, "[rip + x]")));
    assert_eq!(float_arg("f64 rax"), Some((true, "rax")));
    assert_eq!(float_arg("[rip + x]"), None);
    let kb = kb();
    // a real4 register-position arg → movss into that position's xmm
    let low = lower(".data\nf DWORD 0\n.code\n.globl m\nm:\n  invoke Sleep, real4 [rip + f]\n", &kb).unwrap();
    assert!(low.contains("movss xmm0, [rip + f]"), "float → xmm0:\n{low}");

    // and auto-detected from the db: ID2D1RenderTarget::DrawEllipse's strokeWidth
    // is `f32`, so a plain arg in slot 3 marshals to xmm3 with no annotation.
    let src = ".data\ncomobj p : ID2D1HwndRenderTarget\nb QWORD ?\nw DWORD 0\ne struct D2D1_ELLIPSE\nends\n.code\n.globl m\nm:\n  p.DrawEllipse(e, [rip + b], [rip + w], 0)\n";
    let dl = lower(src, &kb).unwrap();
    assert!(dl.contains("movss xmm3, [rip + w]"), "auto float→xmm3:\n{dl}");
}

#[test]
fn clobber_check_catches_the_bug_and_spares_correct_code() {
    // BUG: stash a pointer in rcx, call (clobbers rcx), then dereference rcx.
    let bug = ".code\nf:\n  lea rcx, [rip + buf]\n  invoke GetTickCount\n  mov rax, [rcx]\n  ret\n";
    let d = clobber_diags(bug);
    assert_eq!(d.len(), 1, "exactly one warning: {d:?}");
    assert!(d[0].line == 5 && d[0].message.contains("rcx"), "{d:?}");

    // Correct patterns — must stay silent:
    let cases = [
        // saved in a non-volatile register
        ".code\nf:\n  lea rbx, [rip + b]\n  invoke GetTickCount\n  mov rax, [rbx]\n  ret\n",
        // using the return value (rax) after a call is the idiom
        ".code\nf:\n  invoke GetTickCount\n  mov rsi, rax\n  ret\n",
        // reloaded before use
        ".code\nf:\n  invoke GetTickCount\n  lea rcx, [rip + b]\n  mov rax, [rcx]\n  ret\n",
        // the zeroing idiom is a write, not a read
        ".code\nf:\n  invoke GetTickCount\n  xor rcx, rcx\n  mov [rcx], al\n  ret\n",
        // cdq writes rdx, so reading edx after is fine
        ".code\nf:\n  invoke GetTickCount\n  mov eax, 7\n  cdq\n  xor eax, edx\n  ret\n",
        // a plain call to a local function isn't assumed to clobber
        ".code\nf:\n  mov rcx, 5\n  call helper\n  mov [rcx], al\n  ret\n",
        // a proc's trailing invoke must NOT taint the NEXT proc's argument
        // reads — `proc`/`endproc` is a fresh function (its `in` regs are live)
        "proc a frame\n  invoke ReleaseDC, rcx, rdx\nendproc\nproc b in rcx rdx\n  mov rsi, rcx\n  mov rdi, rdx\nendproc\n",
    ];
    for (i, c) in cases.iter().enumerate() {
        assert!(clobber_diags(c).is_empty(), "case {i} should be clean: {:?}", clobber_diags(c));
    }
}

#[test]
fn guid_to_bytes_is_mixed_endian() {
    // IDXGISwapChain's IID: Data1/2/3 little-endian, Data4 as written.
    let b = guid_to_bytes("310d36a0-d2e7-4c0a-aa04-6a9d23b8886a").unwrap();
    assert_eq!(
        b,
        [
            0xa0, 0x36, 0x0d, 0x31, // Data1 LE
            0xe7, 0xd2, // Data2 LE
            0x0a, 0x4c, // Data3 LE
            0xaa, 0x04, 0x6a, 0x9d, 0x23, 0xb8, 0x88, 0x6a, // Data4
        ]
    );
    assert!(guid_to_bytes("not-a-guid").is_err());
}

#[test]
fn ascii_string_block_is_verbatim_text_plus_newlines() {
    let acc = StringAccum {
        lines: vec!["float4 c0;".to_string(), "return c0;".to_string()],
        wide: false,
        end_kw: ".endasciistring",
    };
    assert_eq!(
        emit_string_block(&acc),
        "  .ascii \"float4 c0;\\n\"\n  .ascii \"return c0;\\n\"\n"
    );
}

#[test]
fn ascii_string_block_escapes_quotes_and_backslashes() {
    // raw line  a"b\c  →  a \" b \\ c  inside the `.ascii` literal.
    let acc = StringAccum {
        lines: vec!["a\"b\\c".to_string()],
        wide: false,
        end_kw: ".endasciistring",
    };
    assert_eq!(emit_string_block(&acc), "  .ascii \"a\\\"b\\\\c\\n\"\n");
}

#[test]
fn wide_string_block_emits_utf16le_words() {
    let acc = StringAccum {
        lines: vec!["Hi".to_string()],
        wide: true,
        end_kw: ".endwidestring",
    };
    // 'H'=72, 'i'=105, then the line-ending newline 10.
    assert_eq!(emit_string_block(&acc), "  .word 72, 105, 10\n");
}

#[test]
fn sizeof_arg_parsing() {
    assert_eq!(read_sizeof_arg("(RECT) , rax").1, "RECT");
    assert_eq!(read_sizeof_arg(" POINT)").1, "POINT");
}

#[test]
fn registers_recognized() {
    assert!(is_register("rcx") && is_register("eax") && is_register("xmm3"));
    assert!(!is_register("MB_OK") && !is_register("main"));
}

#[test]
fn split_line_tag_peels_the_prefix() {
    let (n, rest) = split_line_tag("line 7: encode `xyzzy rax`: unknown mnemonic");
    assert_eq!(n, Some(7));
    assert_eq!(rest, "encode `xyzzy rax`: unknown mnemonic");
    // No tag → message returned verbatim, no line.
    assert_eq!(split_line_tag("boom"), (None, "boom".to_string()));
    assert_eq!(split_line_tag("line 7"), (None, "line 7".to_string()));
    assert_eq!(split_line_tag("line x: y"), (None, "line x: y".to_string()));
}

#[test]
fn comcall_resolves_via_base_chain() {
    let kb = kb();
    // Present is the interface's own slot (8); Release is inherited from
    // IUnknown (2), found by walking the base chain.
    assert_eq!(vtable_index_of(&kb, "IDXGISwapChain", "Present"), Some(8));
    assert_eq!(vtable_index_of(&kb, "IDXGISwapChain", "Release"), Some(2));
    let low = lower("main:\n  comcall [rip+p], IDXGISwapChain, Present, 1, 0\n", &kb).unwrap();
    assert!(low.contains("mov rax, [rcx]"), "loads vtable: {low}");
    assert!(low.contains("call qword ptr [rax + 64]"), "calls vtbl[8]: {low}");
}

#[test]
fn struct_instance_lays_out_nested_fields_at_db_offsets() {
    let kb = kb();
    let src = "scd struct DXGI_SWAP_CHAIN_DESC\n  BufferDesc.Format = 87\n  BufferCount = 2\nends\n";
    let low = lower(src, &kb).unwrap();
    assert!(low.contains("scd:"), "labelled: {low}");
    assert!(low.contains("BufferDesc.Format @ 16"), "nested offset resolved: {low}");
    assert!(low.contains("BufferCount @ 40"), "top-level offset: {low}");
}

#[test]
fn typed_pointer_method_call_desugars_to_comcall() {
    let kb = kb();
    let src = "comobj pSwap : IDXGISwapChain\nmain:\n  pSwap.Present(1, 0)\n  pSwap.Release()\n";
    let low = lower(src, &kb).unwrap();
    assert!(low.contains("pSwap:") && low.contains(".zero 8"), "pointer slot: {low}");
    assert!(low.contains("mov rcx, [rip + pSwap]"), "loads the pointer: {low}");
    assert!(low.contains("call qword ptr [rax + 64]"), "Present is vtbl[8]: {low}");
    assert!(low.contains("call qword ptr [rax + 16]"), "Release is vtbl[2]: {low}");
    // a bad method on a typed pointer is an editor diagnostic
    let diags = check("comobj p : IDXGISwapChain\np.Nope()\n", &kb);
    assert!(diags.iter().any(|d| d.message.contains("no method 'Nope'")), "{diags:?}");
}

#[test]
fn check_locates_encode_error_at_its_source_line() {
    let kb = kb();
    // Bogus mnemonic on line 4 (1-based).
    let src = ".globl main\nmain:\n  mov eax, 1\n  xyzzy rax, rbx\n  ret\n";
    let diags = check_refused(src, &kb, "xyzzy");
    assert!(diags.iter().any(|d| d.line == 4), "want a diag on line 4: {diags:?}");
    assert!(!diags.iter().any(|d| d.line == 0), "no whole-file fallback expected: {diags:?}");
}

#[test]
fn check_maps_encode_error_back_through_invoke_expansion() {
    let kb = kb();
    // The `invoke` on line 3 expands to the whole Win64 call sequence (~13
    // lowered lines); the bad mnemonic on line 4 must still map back to 4.
    let src = ".globl main\nmain:\n  invoke ExitProcess, 7\n  xyzzy rax\n  ret\n";
    let diags = check_refused(src, &kb, "xyzzy");
    assert!(diags.iter().any(|d| d.line == 4), "want a diag on line 4: {diags:?}");
    assert!(!diags.iter().any(|d| d.line == 0), "{diags:?}");
}

#[test]
fn check_clean_source_has_no_whole_file_diag() {
    let kb = kb();
    let src = ".globl main\nmain:\n  invoke ExitProcess, 0\n  ret\n";
    let diags = check(src, &kb);
    assert!(diags.is_empty(), "clean source should not flag anything: {diags:?}");
}

#[test]
fn condition_parsing_and_branches() {
    assert_eq!(split_condition("al <= 'z'"), Some(("al ", "<=", " 'z'")));
    assert_eq!(split_condition("rcx < 26"), Some(("rcx ", "<", " 26")));
    assert_eq!(split_condition("eax s>= 0"), Some(("eax ", "s>=", " 0")));
    assert_eq!(split_condition("eax s< 0"), Some(("eax ", "s<", " 0")));
    assert!(split_condition("al z").is_none());
    // The branch is taken when the condition is `want`; `s` picks signed.
    assert_eq!(cond_branch("<=", false), Some("ja")); // unsigned exit
    assert_eq!(cond_branch("s<", false), Some("jge")); // signed exit
    assert_eq!(cond_branch("s<", true), Some("jl")); // signed, condition holds
    assert!(cond_branch("~~", false).is_none());
}

#[test]
fn while_loop_lowers_to_branches_and_labels() {
    let kb = kb();
    let src = ".globl main\nmain:\n  mov al, 'a'\n  .while al <= 'z'\n    inc al\n  .endw\n  ret\n";
    let low = lower(src, &kb).expect("lower");
    for want in ["__while0_top:", "cmp al, 'z'", "ja __while0_end", "jmp __while0_top", "__while0_end:"] {
        assert!(low.contains(want), "expansion missing {want:?}:\n{low}");
    }
}

#[test]
fn if_elseif_else_lowers_and_assembles() {
    let kb = kb();
    let src = ".globl main\nmain:\n  mov al, 5\n  .if al == 1\n    mov bl, 10\n  .elseif al == 5\n    mov bl, 20\n  .else\n    mov bl, 30\n  .endif\n  ret\n";
    let low = lower(src, &kb).expect("lower");
    for want in [
        "cmp al, 1", "jne __if0_1", "__if0_1:", "cmp al, 5", "jne __if0_2", "__if0_2:",
        "jmp __if0_end", "__if0_end:",
    ] {
        assert!(low.contains(want), "if-expansion missing {want:?}:\n{low}");
    }
}

#[test]
fn repeat_until_lowers_and_assembles() {
    let kb = kb();
    let src = ".globl main\nmain:\n  xor cl, cl\n  .repeat\n    inc cl\n  .until cl == 10\n  ret\n";
    let low = lower(src, &kb).expect("lower");
    for want in ["__repeat0_top:", "__repeat0_test:", "cmp cl, 10", "jne __repeat0_top", "__repeat0_end:"] {
        assert!(low.contains(want), "repeat-expansion missing {want:?}:\n{low}");
    }
}

#[test]
fn break_targets_the_inner_loop_through_an_if() {
    let kb = kb();
    let src = ".globl main\nmain:\n  mov al, 'a'\n  .while al <= 'z'\n    .if al == 'm'\n      .break\n    .endif\n    inc al\n  .endw\n  ret\n";
    let low = lower(src, &kb).expect("lower");
    // `.break` inside the `.if` inside the `.while` jumps to the while's end.
    assert!(low.contains("jmp __while0_end"), "break -> loop end:\n{low}");
}

#[test]
fn for_loop_lowers_and_assembles() {
    let kb = kb();
    let src = ".globl main\nmain:\n  .for cl = 0 to 9\n    nop\n  .endfor\n  ret\n";
    let low = lower(src, &kb).expect("lower");
    for want in [
        "mov cl, 0", "__for0_top:", "cmp cl, 9", "ja __for0_end", "__for0_cont:", "inc cl",
        "jmp __for0_top", "__for0_end:",
    ] {
        assert!(low.contains(want), "for-expansion missing {want:?}:\n{low}");
    }
}

#[test]
fn forever_with_break_if_lowers_and_assembles() {
    let kb = kb();
    let src = ".globl main\nmain:\n  xor al, al\n  .forever\n    inc al\n    .break if al == 5\n  .endfor\n  ret\n";
    let low = lower(src, &kb).expect("lower");
    for want in ["__forever0_top:", "cmp al, 5", "je __forever0_end", "jmp __forever0_top", "__forever0_end:"] {
        assert!(low.contains(want), "forever/break-if missing {want:?}:\n{low}");
    }
}

#[test]
fn continue_if_targets_the_loop_test() {
    let kb = kb();
    let src = ".globl main\nmain:\n  mov al, 'a'\n  .while al <= 'z'\n    inc al\n    .continue if al == 'm'\n    nop\n  .endw\n  ret\n";
    let low = lower(src, &kb).expect("lower");
    assert!(low.contains("je __while0_top"), "continue if -> loop test:\n{low}");
}

#[test]
fn signed_while_uses_a_signed_branch() {
    let kb = kb();
    let src = ".globl main\nmain:\n  mov eax, 3\n  .while eax s> 0\n    nop\n  .endw\n  ret\n";
    let low = lower(src, &kb).expect("lower");
    assert!(low.contains("jle __while0_end"), "signed `s>` exits with jle:\n{low}");
}

#[test]
fn macro_header_and_names() {
    assert_eq!(
        parse_macro_def("PUSH2 MACRO a, b").unwrap(),
        ("PUSH2".to_string(), vec!["a".to_string(), "b".to_string()])
    );
    assert_eq!(parse_macro_def("NOARGS MACRO").unwrap(), ("NOARGS".to_string(), vec![]));
    assert!(parse_macro_def("mov rax, rbx").is_none());
    assert!(is_endm("ENDM") && is_endm("endm") && !is_endm("ret"));
    assert_eq!(macro_names("FOO MACRO x\n  nop\nENDM\n  FOO 1\n"), vec!["FOO".to_string()]);
}

#[test]
fn macro_expands_args_and_definition_emits_no_code() {
    let kb = kb();
    let src = ".globl main\nPUSH2 MACRO a, b\n  push a\n  push b\nENDM\nmain:\n  PUSH2 rcx, rdx\n  ret\n";
    let low = lower(src, &kb).expect("lower");
    assert!(low.contains("push rcx") && low.contains("push rdx"), "args substituted:\n{low}");
    assert!(!low.contains("MACRO"), "definition must emit nothing:\n{low}");
    assert!(!low.contains("PUSH2"), "invocation must be gone:\n{low}");
}

#[test]
fn macro_can_use_high_level_constructs_twice() {
    let kb = kb();
    // A macro that loops; invoked twice → two independent loops (fresh ids).
    let src = ".globl main\nCOUNTDOWN MACRO n\n  mov al, n\n  .while al > 0\n    sub al, 1\n  .endw\nENDM\nmain:\n  COUNTDOWN 3\n  COUNTDOWN 5\n  ret\n";
    let low = lower(src, &kb).expect("lower");
    assert!(low.contains("__while0_top:") && low.contains("__while1_top:"), "two loops:\n{low}");
    assert!(low.contains("mov al, 3") && low.contains("mov al, 5"), "args substituted:\n{low}");
}

#[test]
fn macro_local_labels_unique_per_expansion() {
    let kb = kb();
    // A macro with a `LOCAL` label, invoked twice — no duplicate-symbol error.
    let src = ".globl main\nSKIP MACRO\n  LOCAL done\n  jmp done\ndone:\nENDM\nmain:\n  SKIP\n  SKIP\n  ret\n";
    let low = lower(src, &kb).expect("lower");
    assert!(low.contains("done__m0") && low.contains("done__m1"), "unique locals:\n{low}");
}

#[test]
fn macro_arg_count_mismatch_errors() {
    let kb = kb();
    let err = lower("M MACRO a, b\n  nop\nENDM\nmain:\n  M 1\n", &kb).unwrap_err();
    assert!(format!("{err:#}").contains("expects 2"), "{err:#}");
}

#[test]
fn data_line_detection() {
    assert_eq!(parse_data_line("msg BYTE \"Hi\", 0"), Some((Some("msg"), "BYTE", "\"Hi\", 0")));
    assert_eq!(parse_data_line("count DWORD 0"), Some((Some("count"), "DWORD", "0")));
    assert_eq!(parse_data_line("WORD 1, 2"), Some((None, "WORD", "1, 2")));
    // A size-prefixed memory operand must NOT be read as data.
    assert_eq!(parse_data_line("mov BYTE PTR [rax], 1"), None);
    assert_eq!(parse_data_line("mov rax, rbx"), None);
}

#[test]
fn data_lowers_and_assembles() {
    let kb = kb();
    let src = ".globl main\nmain:\n  lea rax, [rip + msg]\n  ret\nmsg BYTE \"Hi\", 0\ncount DWORD 7\ntable QWORD 1, 2\n";
    let low = lower(src, &kb).expect("lower");
    assert!(low.contains("msg:") && low.contains(".ascii \"Hi\"") && low.contains(".byte 0"), "{low}");
    assert!(low.contains("count:") && low.contains(".long 7"), "{low}");
    assert!(low.contains("table:") && low.contains(".quad 1") && low.contains(".quad 2"), "{low}");
}

#[test]
fn wide_string_encodes_utf16() {
    let kb = kb();
    let low = lower("wmsg WCHAR \"Hi\", 0\n", &kb).expect("lower");
    assert!(low.contains(".word 72, 105"), "utf-16 code units:\n{low}");
}

#[test]
fn data_dup_and_uninitialized() {
    let kb = kb();
    let low = lower("buf BYTE 8 dup(0)\npad WORD ?\n", &kb).expect("lower");
    assert!(low.contains(".zero 8"), "dup(0) -> zero: {low}");
    assert!(low.contains(".zero 2"), "? -> zero of the field width: {low}");
}

#[test]
fn data_size_validation_flags_overflow() {
    let kb = kb();
    let diags = check("x BYTE 256\ny WORD 70000\nz DWORD 0xFF\n", &kb);
    assert!(diags.iter().any(|d| d.line == 1 && d.message.contains("BYTE")), "{diags:?}");
    assert!(diags.iter().any(|d| d.line == 2 && d.message.contains("WORD")), "{diags:?}");
    assert!(!diags.iter().any(|d| d.line == 3), "0xFF fits a DWORD: {diags:?}");
}

#[test]
fn mismatched_block_closers_error() {
    let kb = kb();
    assert!(lower("main:\n  .if al == 1\n  .endw\n", &kb).is_err(), ".endw must not close .if");
    assert!(lower("main:\n  .endif\n", &kb).is_err(), ".endif without .if");
    assert!(lower("main:\n  .endfor\n", &kb).is_err(), ".endfor without .for/.forever");
    assert!(lower("main:\n  .break\n", &kb).is_err(), ".break outside a loop");
    assert!(lower("main:\n  .until al == 1\n", &kb).is_err(), ".until without .repeat");
}


#[test]
fn each_error_of_a_lowering() {
    let kb = kb();
    let cases = [
        ("A MACRO\nB MACRO\nENDM\nENDM\n", "line 2: nested macro definition is not supported"),
        ("A MACRO\n nop\n", "macro definition without `ENDM`"),
        ("A MACRO\n A\nENDM\n A\n", "macro expansion too deep (recursive macro?)"),
        ("A MACRO x\n nop\nENDM\n A\n", "macro `A` expects 1 argument(s), got 0"),
        ("x DWORD \"text\"\n", "a string needs a BYTE or WCHAR field, not DWORD"),
        ("s struct RECT\n left\nends\n", "struct field needs `name = value`, got `left`"),
        ("s struct RECT\n left = 1\n", "struct s is missing its `ends`"),
        ("s struct NOPE\nends\n", "struct: unknown type 'NOPE'"),
        ("s struct RECT\n nope = 1\nends\n", "RECT has no field 'nope'"),
        ("s struct RECT\n left = 1\n left = 2\nends\n", "struct s: field 'left' overlaps an earlier field"),
        (".if al == 1\n.endif\n.elseif al == 2\n", "line 3: `.elseif` without an open `.if`"),
        (".else\n", "line 1: `.else` without an open `.if`"),
        (".endif\n", "line 1: `.endif` without an open `.if`"),
        (".endw\n", "line 1: `.endw` without an open `.while`"),
        (".until al == 1\n", "line 1: `.until` without an open `.repeat`"),
        (".for cl\n", "line 1: `.for` wants `reg = start to end`"),
        (".for cl = 1\n", "line 1: `.for` wants `start to end`"),
        (".endfor\n", "line 1: `.endfor` without an open `.for`/`.forever`"),
        ("proc a\nproc b\n", "line 2: `proc` inside a `proc`"),
        ("proc\n", "line 1: `proc` needs a name"),
        ("endproc\n", "line 1: `endproc` without an open `proc`"),
        (".ret\n", "line 1: `.ret` outside a `proc`"),
        (".break\n", "line 1: `.break` outside a loop"),
        (".forever\n.continue maybe\n.endfor\n", "line 2: `.continue` expects nothing or `if <cond>`"),
        (".if al\n.endif\n", "condition wants `reg <relop> value`, got `al`"),
        ("  mov rax, sizeof(NOPE)\n", "sizeof: unknown type 'NOPE'"),
        ("  invoke\n", "invoke: missing function name"),
        ("  comcall rax, IUnknown\n", "comcall needs at least: object, interface, method"),
        ("  comcall rax, IUnknown, Nope\n", "comcall: interface 'IUnknown' has no method 'Nope'"),
        ("  iid INope\n", "iid: unknown interface 'INope'"),
    ];
    for (src, want) in cases {
        match lower(src, &kb) {
            Ok(t) => panic!("{src:?} lowered to {t:?}"),
            Err(e) => assert!(e.contains(want), "{src:?}: {e:?}, want {want:?}"),
        }
    }
    assert!(guid_to_bytes("12").unwrap_err().contains("malformed GUID '12' (need 32 hex digits)"));
}

#[test]
fn a_lowered_line_knows_its_source_line() {
    let kb = kb();
    let (low, map) = lower_mapped("main:\n  invoke ExitProcess, 7\n  ret\n", &kb).unwrap();
    assert_eq!(map.len(), low.lines().count());
    assert!(map.windows(2).all(|w| w[0] <= w[1]), "{map:?}");
    let at = low.lines().position(|l| l.trim() == "call ExitProcess").unwrap();
    assert_eq!(map[at], 2);
    assert_eq!(*map.last().unwrap(), 3);
}

#[test]
fn names_of_the_knowledge_base_are_resolved() {
    let kb = kb();
    let low = lower("  mov eax, OPEN_EXISTING\n  mov ecx, sizeof(RECT)\n  mov edx, [rbx + RECT.right]\n", &kb).unwrap();
    assert!(low.contains("mov eax, 3"), "{low}");
    assert!(low.contains("mov ecx, 16"), "{low}");
    assert!(low.contains("[rbx + 8]"), "{low}");
}

#[test]
fn a_label_hides_a_constant() {
    let low = lower("OPEN_EXISTING:\n  lea rax, OPEN_EXISTING\n", &kb()).unwrap();
    assert!(low.contains("lea rax, OPEN_EXISTING"), "{low}");
}

#[test]
fn an_interface_id_is_laid_out() {
    let low = lower("  iid IUnknown\n", &kb()).unwrap();
    assert!(low.contains("  .long 0x310d36a0\n  .word 0xd2e7\n  .word 0x4c0a\n  .byte 0xaa\n"), "{low}");
}

#[test]
fn a_near_constant_is_suggested() {
    let d = check("  mov eax, OPEN_EXISTNG\n", &kb());
    assert!(d.iter().any(|d| d.line == 1 && d.message.contains("did you mean 'OPEN_EXISTING'?")), "{d:?}");
}

#[test]
fn a_wrong_field_is_found() {
    let d = check("  mov eax, [rcx + RECT.lefd]\n", &kb());
    assert!(d.iter().any(|d| d.message.contains("RECT has no field 'lefd'")), "{d:?}");
}

#[test]
fn an_unknown_interface_is_found() {
    let d = check("  comcall rax, INope, Go\n  iid INope\n", &kb());
    assert_eq!(d.iter().filter(|d| d.message == "unknown interface 'INope'").count(), 2, "{d:?}");
}

#[test]
fn a_count_of_arguments_is_held_to_the_signature() {
    let d = check("  invoke MessageBoxW, 0, 0\n", &kb());
    assert!(d.iter().any(|d| d.line == 1 && d.message == "MessageBoxW takes 4 argument(s), got 2"), "{d:?}");
}

#[test]
fn included_files_are_spliced_in() {
    let file = |dir: &str, path: &str, content: &str| IncludeFile {
        dir: dir.into(),
        path: path.into(),
        name: path.into(),
        content: content.into(),
        sub_dir: "lib".into(),
    };
    let files = vec![
        file("", "lib/a.was", "  nop\n.include \"b.was\"\n"),
        file("lib", "b.was", "  ret\n"),
    ];
    assert_eq!(expand_includes("main:\n.include \"lib/a.was\"\n", "", &files).unwrap(), "main:\n  nop\n  ret\n");
    match expand_includes(".include \"gone.was\"\n", "src", &files) {
        Err(IncludeStop::Missing { dir, path }) => assert_eq!((dir.as_str(), path.as_str()), ("src", "gone.was")),
        other => panic!("{other:?}"),
    }
    let cycle = vec![file("lib", "a.was", ".include \"a.was\"\n")];
    assert!(matches!(expand_includes(".include \"a.was\"\n", "lib", &cycle), Err(IncludeStop::TooDeep)));
}

#[test]
fn bindings_come_in_order() {
    let src = "comobj pSwap : IDXGISwapChain\ncomobj pBack : IUnknown ; the back buffer\n";
    assert_eq!(
        com_bindings(src),
        vec![("pBack".to_string(), "IUnknown".to_string()), ("pSwap".to_string(), "IDXGISwapChain".to_string())]
    );
}

#[test]
fn the_command_line_is_read() {
    let args = |v: &[&str]| -> Vec<String> { v.iter().map(|s| s.to_string()).collect() };
    let o = parse_args(&args(&["a.was", "-o", "a.exe", "--entry", "start"])).unwrap();
    assert_eq!(o.input.as_deref(), Some("a.was"));
    assert_eq!(o.output.as_deref(), Some("a.exe"));
    assert_eq!(o.entry, "start");
    assert!(!o.check && !o.emit_text);
    assert!(parse_args(&args(&["a.was", "--check"])).unwrap().check);
    assert!(parse_args(&args(&["--help"])).is_none());
}

#[test]
fn what_was_written_is_reported() {
    assert!(is_program("out/A.EXE") && !is_program("a.obj"));
    let d = Diag { line: 2, col: 3, message: "no".into() };
    assert_eq!(check_report("a.was", &vec![d]), "a.was:2:3: no\na.was: 1 issue(s)\n");
    assert_eq!(check_report("a.was", &vec![]), "a.was: ok\n");
    assert_eq!(
        program_report_line("a.exe", 1024, "main", &[("ExitProcess".into(), "KERNEL32.dll".into())]),
        "wrote a.exe: 1024 bytes, entry 'main', imports {\"ExitProcess\": \"KERNEL32.dll\"}"
    );
    assert_eq!(
        object_report_line("a.obj", 12, 1, 2, &["Sl\"eep".into()]),
        "wrote a.obj: 12 bytes .text, 1 symbol(s), 2 reloc(s), externs [\"Sl\\\"eep\"]"
    );
}

#[test]
fn wide_characters_become_surrogate_pairs() {
    let low = lower("w WCHAR \"é😀\", 0\n", &kb()).unwrap();
    assert!(low.contains(".word 233, 55357, 56832"), "{low}");
}

#[test]
fn letters_outside_ascii_belong_to_words() {
    // A word goes on through letters of any script, so `é` keeps `rcx` apart.
    let d = clobber_diags(".code\nf:\n  invoke GetTickCount\n  mov rax, [rcxé]\n  ret\n");
    assert!(d.is_empty(), "{d:?}");
}

#[test]
fn a_lowering_of_plain_text_is_that_text() {
    let src = ".globl main\nmain:\n mov eax, 1\n  ret\n";
    assert_eq!(lower(src, &kb()).unwrap(), src);
}

#[test]
fn the_included_files_are_a_tree() {
    let g = Expansion {
        text: String::new(),
        files: vec!["a.was".into(), "b.inc".into(), "c.inc".into()],
        line_file: vec![0, 1, 2, 2, 0],
        edges: vec![(0, 1, 2), (1, 2, 1)],
    };
    assert_eq!(
        print_include_graph(&g),
        "a.was  [2 lines]\n  b.inc  [1 lines, .include at parent:2]\n    c.inc  [2 lines, .include at parent:1]\n\n3 files, 5 expanded lines\n"
    );
}

#[test]
fn the_tree_of_includes_is_found() {
    let file = |dir: &str, path: &str, content: &str| IncludeFile {
        dir: dir.into(),
        path: path.into(),
        name: format!("{dir}/{path}"),
        content: content.into(),
        sub_dir: "lib".into(),
    };
    let files = vec![
        file("src", "a.was", "  nop\n.include \"b.was\"\n  int3\n"),
        file("lib", "b.was", "  ret\n"),
        file("src", "empty.was", ""),
    ];
    let src = "main:\n.include \"a.was\"\n.include \"a.was\"\n  hlt\n";
    let g = expand_includes_graph(src, "src/main.was", "src", &files).unwrap();
    assert_eq!(g.text, expand_includes(src, "src", &files).unwrap());
    assert_eq!(g.files, vec!["src/main.was", "src/a.was", "lib/b.was", "src/a.was", "lib/b.was"]);
    assert_eq!(g.line_file, vec![0, 1, 2, 1, 3, 4, 3, 0]);
    assert_eq!(g.line_file.len(), g.text.lines().count());
    assert_eq!(g.edges, vec![(0, 1, 2), (1, 2, 2), (0, 3, 3), (3, 4, 2)]);
    let first = ".include \"empty.was\"\n.include \"empty.was\"\n";
    let g = expand_includes_graph(first, "m", "src", &files).unwrap();
    assert_eq!((g.text.as_str(), g.line_file.len(), g.files.len()), ("\n", 1, 3));
    match expand_includes_graph(".include \"gone.was\"\n", "m", "src", &files) {
        Err(IncludeStop::Missing { dir, path }) => assert_eq!((dir.as_str(), path.as_str()), ("src", "gone.was")),
        other => panic!("{other:?}"),
    }
}

#[test]
fn lines_of_the_lowered_text_keep_their_order() {
    let src = ".globl main\nmain:\n.asciistring\na\nb\n.endasciistring\n  invoke GetStdHandle, -11\n  ret\n";
    let (text, map) = lower_mapped(src, &kb()).unwrap();
    assert_eq!(map.len(), text.matches('\n').count());
    assert!(map.contains(&0));
    let shown: Vec<usize> = map.iter().copied().filter(|n| *n != 0).collect();
    assert!(shown.windows(2).all(|w| w[0] <= w[1]), "{map:?}");
    for (line, n) in text.lines().zip(&map) {
        assert_eq!(*n == 0, line.contains(".ascii") || line.contains(".byte"), "{line} {n}");
    }
}
