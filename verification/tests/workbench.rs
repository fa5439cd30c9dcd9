use wrasm::studio::cards::{add_recent, card_query, equate_card, find_equate, lang_word, EquateDef};
use wrasm::studio::doc::{Caret, Doc};
use wrasm::studio::followup::{
    build_outcome, built_notice, diag_color, export_notice, read_recent, run_notice, save_notice, tok_color,
    window_title, write_recent,
};
use wrasm::studio::lang::{Diag, Emit, Response, Severity};
use wrasm::studio::listing::{
    buffer_listing, empty_listing, import_map, isolated_listing, listing_text, object_info, program_info, reloc_mask,
    show_imports, show_list, Encoded,
};
use wrasm::studio::outline::{Label, LabelKind};
use wrasm::studio::repl::{default_out, read_command, show_findings, Command};
use wrasm::studio::script::{key_char, map_key, read_verb, verb_arity, Verb};
use wrasm::studio::session::{
    find_matches, line_feeds, Act, Pending, Session, KEY_A, KEY_BACK, KEY_C, KEY_DOWN, KEY_ENTER, KEY_ESCAPE, KEY_LEFT,
    KEY_RIGHT, KEY_S, KEY_V, KEY_X, KEY_Y, KEY_Z, STARTER,
};
use wrasm::studio::syntax::TokKind;
use wrasm::studio::tips::{bound_interface, interface_methods};
use wrasm::studio::words::{find_bracket, find_partner, opens_block, word_end, word_left, word_right, word_start};
use wrasm::winkb::distance::levenshtein;
use wrasm::winkb::import::read_table;
use wrasm::winkb::report::{
    complete_report, interface_report, layout_report, print_func, resolve_report, search_report, skeleton_report,
};
use wrasm::winkb::suggest::{escape_like, matches_like, rank_names};
use wrasm::winkb::kb::{
    Directive, EnumType, Field, Func, Instruction, Interface, Kb, Layout, Method, NameClass, NameRow,
    NamedValue, Param, SizedType, Value,
};
fn func(name: &str, dll: &str, params: &[(&str, &str)]) -> Func {
    Func {
        name: name.into(),
        dll: Some(dll.into()),
        callconv: Some("platformapi".into()),
        aw_family: None,
        ret: "BOOL".into(),
        doc_url: None,
        params: params
            .iter()
            .enumerate()
            .map(|(i, p)| Param {
                ordinal: i as i64 + 1,
                name: p.0.into(),
                ty: p.1.into(),
                type_kind: "native".into(),
                related: vec![],
            })
            .collect(),
    }
}

fn value(name: &str, source: &str, v: i64) -> NamedValue {
    NamedValue {
        name: name.into(),
        value: Value { source: source.into(), i64v: v, bits: v as u64, namespace: None },
    }
}

fn layout(name: &str, size: i64, fields: &[(&str, i64, &str)]) -> Layout {
    Layout {
        name: name.into(),
        kind: "struct".into(),
        size,
        align: 4,
        fields: fields
            .iter()
            .map(|f| Field { name: f.0.into(), offset: f.1, ty: f.2.into() })
            .collect(),
    }
}

fn interface(name: &str, base: Option<&str>, first: i64, methods: &[(&str, &[&str])]) -> Interface {
    Interface {
        name: name.into(),
        iid: Some("310d36a0-d2e7-4c0a-aa04-6a9d23b8886a".into()),
        base: base.map(|b| b.to_string()),
        methods: methods
            .iter()
            .enumerate()
            .map(|(i, m)| Method {
                vtable_index: first + i as i64,
                name: m.0.into(),
                params: m.1.iter().map(|p| p.to_string()).collect(),
            })
            .collect(),
    }
}

fn row(class: NameClass, name: &str, kind: &str, detail: &str) -> NameRow {
    NameRow { class, name: name.into(), kind: kind.into(), detail: detail.into() }
}

/// A small knowledge base with the names that the tests speak of.
fn kb() -> Kb {
    let mut create_file = func(
        "CreateFileW",
        "KERNEL32.dll",
        &[
            ("lpFileName", "PCWSTR"),
            ("dwDesiredAccess", "u32"),
            ("dwShareMode", "FILE_SHARE_MODE"),
            ("lpSecurityAttributes", "SECURITY_ATTRIBUTES*"),
            ("dwCreationDisposition", "FILE_CREATION_DISPOSITION"),
            ("dwFlagsAndAttributes", "u32"),
            ("hTemplateFile", "HANDLE"),
        ],
    );
    create_file.params[4].type_kind = "enum".into();
    create_file.params[4].related = vec![("CREATE_NEW".into(), 1), ("OPEN_EXISTING".into(), 3)];
    Kb {
        functions: vec![
            create_file,
            func("Sleep", "KERNEL32.dll", &[("dwMilliseconds", "u32")]),
            func("GetTickCount", "KERNEL32.dll", &[]),
            func("ExitProcess", "KERNEL32.dll", &[("uExitCode", "u32")]),
            func(
                "MessageBoxW",
                "USER32.dll",
                &[("hWnd", "HWND"), ("lpText", "PCWSTR"), ("lpCaption", "PCWSTR"), ("uType", "u32")],
            ),
        ],
        values: vec![
            value("CREATE_NEW", "enum", 1),
            value("OPEN_EXISTING", "enum", 3),
            value("FILE_SHARE_READ", "const", 1),
            value("MB_OK", "const", 0),
        ],
        layouts: vec![
            layout(
                "RECT",
                16,
                &[("left", 0, "i32"), ("top", 4, "i32"), ("right", 8, "i32"), ("bottom", 12, "i32")],
            ),
            layout("D2D1_ELLIPSE", 16, &[("point", 0, "D2D_POINT_2F"), ("radiusX", 8, "f32"), ("radiusY", 12, "f32")]),
            layout("DXGI_MODE_DESC", 28, &[("Width", 0, "u32"), ("Height", 4, "u32"), ("Format", 16, "DXGI_FORMAT")]),
            layout(
                "DXGI_SWAP_CHAIN_DESC",
                72,
                &[
                    ("BufferDesc", 0, "Windows.Win32.Graphics.Dxgi.Common.DXGI_MODE_DESC"),
                    ("BufferUsage", 36, "u32"),
                    ("BufferCount", 40, "u32"),
                    ("OutputWindow", 48, "HWND"),
                ],
            ),
        ],
        sizes: vec![
            SizedType { name: "RECT".into(), bits: 128 },
            SizedType { name: "D2D1_ELLIPSE".into(), bits: 128 },
            SizedType { name: "DXGI_MODE_DESC".into(), bits: 224 },
            SizedType { name: "DXGI_SWAP_CHAIN_DESC".into(), bits: 576 },
        ],
        interfaces: vec![
            interface(
                "IUnknown",
                None,
                0,
                &[("QueryInterface", &["Guid*", "void**"]), ("AddRef", &[]), ("Release", &[])],
            ),
            interface("IDXGIDeviceSubObject", Some("Windows.Win32.System.Com.IUnknown"), 7, &[("GetDevice", &["Guid*", "void**"])]),
            interface(
                "IDXGISwapChain",
                Some("Windows.Win32.Graphics.Dxgi.IDXGIDeviceSubObject"),
                8,
                &[("Present", &["u32", "u32"]), ("GetBuffer", &["u32", "Guid*", "void**"])],
            ),
            interface(
                "ID2D1RenderTarget",
                Some("Windows.Win32.System.Com.IUnknown"),
                20,
                &[("DrawEllipse", &["D2D1_ELLIPSE*", "ID2D1Brush", "f32", "ID2D1StrokeStyle"])],
            ),
            interface("ID2D1HwndRenderTarget", Some("Windows.Win32.Graphics.Direct2D.ID2D1RenderTarget"), 57, &[]),
        ],
        enums: vec![EnumType { type_id: 7, members: vec![("CREATE_NEW".into(), 1), ("OPEN_EXISTING".into(), 3)] }],
        instructions: vec![Instruction {
            mnemonic: "mov".into(),
            category: "data".into(),
            flags: "none".into(),
            summary: "copy".into(),
            description: "Copies the source.".into(),
        }],
        directives: vec![Directive {
            name: "invoke".into(),
            category: "call".into(),
            syntax: "invoke Func, args".into(),
            summary: "call a function".into(),
            description: "Calls an imported function.".into(),
        }],
        names: vec![
            row(NameClass::Function, "CreateFileW", "function", "KERNEL32.dll"),
            row(NameClass::Function, "CreateFileMappingW", "function", "KERNEL32.dll"),
            row(NameClass::Function, "ExitProcess", "function", "KERNEL32.dll"),
            row(NameClass::Constant, "OPEN_EXISTING", "enum-val", "enum"),
            row(NameClass::Constant, "FILE_SHARE_READ", "constant", "const"),
            row(NameClass::Type, "RECT", "struct", "Windows.Win32.Foundation.RECT"),
        ],
    }
}

fn chars(s: &str) -> Vec<char> {
    s.chars().collect()
}

fn strings(v: &[&str]) -> Vec<String> {
    v.iter().map(|s| s.to_string()).collect()
}

// ── the session ──

#[test]
fn typed_characters_enter_the_document() {
    let mut s = Session::new("");
    for c in "mov".chars() {
        s.on_char(c as u32);
    }
    assert_eq!(s.doc.text(), "mov");
    assert_eq!(s.doc.caret, Caret { row: 0, col: 3 });
    s.on_char('é' as u32);
    s.on_char(0x1F600);
    assert_eq!(s.doc.text(), "mové😀");
}

#[test]
fn a_surrogate_is_no_character() {
    let mut s = Session::new("a");
    s.on_char(0xD800);
    assert_eq!(s.doc.text(), "a");
}

#[test]
fn undo_and_redo_by_keys() {
    let mut s = Session::new("");
    s.on_char('a' as u32);
    assert!(matches!(s.on_key(KEY_Z, true, false), Act::Edited));
    assert_eq!(s.doc.text(), "");
    assert!(matches!(s.on_key(KEY_Y, true, false), Act::Edited));
    assert_eq!(s.doc.text(), "a");
}

#[test]
fn the_clipboard_keys() {
    let mut s = Session::new("abc\ndef");
    s.on_key(KEY_A, true, false);
    match s.on_key(KEY_C, true, false) {
        Act::Copy(t) => assert_eq!(t, "abc\ndef"),
        other => panic!("{other:?}"),
    }
    match s.on_key(KEY_X, true, false) {
        Act::Cut(t) => assert_eq!(t, "abc\ndef"),
        other => panic!("{other:?}"),
    }
    assert_eq!(s.doc.text(), "");
    assert!(matches!(s.on_key(KEY_V, true, false), Act::Paste));
    s.paste("x\r\ny");
    assert_eq!(s.doc.text(), "x\ny");
    assert!(matches!(s.on_key(KEY_S, true, false), Act::SaveFile));
}

#[test]
fn shift_and_an_arrow_select() {
    let mut s = Session::new("abc");
    s.on_key(KEY_RIGHT, false, true);
    s.on_key(KEY_RIGHT, false, true);
    assert_eq!(s.doc.selected_text().as_deref(), Some("ab"));
    s.on_key(KEY_LEFT, false, false);
    assert_eq!(s.doc.selected_text(), None);
}

#[test]
fn menu_commands() {
    let mut s = Session::new("a");
    assert!(matches!(s.on_command(0x100), Act::NewFile));
    assert!(matches!(s.on_command(0x120), Act::Build));
    assert!(matches!(s.on_command(0x203), Act::OpenRecent(3)));
    assert!(matches!(s.on_command(0x1), Act::Nothing));
}

#[test]
fn only_an_awaited_reply_is_taken() {
    let mut s = Session::new("a");
    s.pending.check = 4;
    let diag = Diag { line: 1, col: 1, message: "no".into(), severity: Severity::Error };
    s.apply_reply(Response::Check { id: 3, diags: vec![diag.clone()] });
    assert!(s.diags.is_empty());
    s.apply_reply(Response::Check { id: 4, diags: vec![diag.clone()] });
    assert_eq!(s.diags, vec![diag]);
}

#[test]
fn line_ends_become_line_feeds() {
    assert_eq!(line_feeds("a\r\nb\nc"), "a\nb\nc");
}

#[test]
fn labels_that_begin_with_the_query_come_first() {
    let label = |name: &str, line: usize| Label { name: name.into(), line, kind: LabelKind::Code };
    let all = vec![label("xloop", 1), label("loop", 5), label("main", 7)];
    let names: Vec<String> = find_matches(&all, &chars("LOOP")).iter().map(|l| l.name.clone()).collect();
    assert_eq!(names, vec!["loop", "xloop"]);
    assert_eq!(find_matches(&all, &[]).len(), 3);
}

// ── what follows ──

#[test]
fn candidates_are_asked_for_where_a_name_is_begun() {
    let mut s = Session::new("  invoke Cre");
    s.doc.set_caret(0, 12);
    assert_eq!(s.completion_question(), Some(("  invoke Cre".to_string(), 12)));
    s.doc.set_caret(0, 9);
    assert_eq!(s.completion_question(), None);
    let mut s = Session::new("mo");
    s.doc.set_caret(0, 2);
    assert_eq!(s.completion_question(), None);
}

#[test]
fn the_card_follows_the_caret() {
    let mut s = Session::new("comobj pSwap : IDXGISwapChain\n  pSwap.Present(1, 0)");
    s.refresh_bindings();
    assert_eq!(s.binds, vec![("pSwap".to_string(), "IDXGISwapChain".to_string())]);
    s.doc.set_caret(1, 4);
    assert_eq!(s.card_request("").as_deref(), Some("IDXGISwapChain::Present"));
    assert_eq!(s.card_request("IDXGISwapChain::Present"), None);
    s.search_active = true;
    assert_eq!(s.card_request(""), None);
    s.search = chars("  RECT ");
    assert_eq!(s.search_request().as_deref(), Some("RECT"));
    s.search = chars("  ");
    assert_eq!(s.search_request(), None);
}

#[test]
fn an_opened_text_has_no_history() {
    let mut s = Session::new("old");
    s.on_char('x' as u32);
    s.open_text("a\r\nb\rc");
    assert_eq!(s.doc.text(), "a\nb\nc");
    assert_eq!(s.doc.caret, Caret { row: 0, col: 0 });
    assert!(!s.doc.undo());
}

#[test]
fn builds_are_told_of() {
    let done = Response::Assembled { id: 1, emit: Emit::Exe, bytes: vec![0x4d], info: "exe".into() };
    assert_eq!(build_outcome(Some(done)), Ok((vec![0x4d], "exe".to_string())));
    let error = Response::Error { id: 1, message: "no".into() };
    assert_eq!(build_outcome(Some(error)), Err("build error: no".to_string()));
    assert!(build_outcome(None).unwrap_err().contains("timed out"));
    assert_eq!(built_notice("a.exe", "exe", None), "built a.exe — exe");
    assert_eq!(built_notice("a.exe", "exe", Some("full")), "build ok (exe) but write failed: full");
    assert_eq!(run_notice("a.exe", None), "running a.exe");
    assert_eq!(run_notice("a.exe", Some("gone")), "launch failed: gone");
    assert_eq!(save_notice("a.was", None), "saved a.was");
    assert_eq!(export_notice("a.lst", Some("full")), "export failed: full");
    assert_eq!(window_title(None), "RASM Studio — untitled");
    assert_eq!(window_title(Some("a.was")), "RASM Studio — a.was");
}

#[test]
fn recent_files_are_stored_and_read_back() {
    let recent = strings(&["a.was", "dir/b.was"]);
    assert_eq!(read_recent(&write_recent(&recent)), recent);
    assert_eq!(read_recent("a\n\nb\r\n"), strings(&["a", "b"]));
}

#[test]
fn kinds_have_their_colours() {
    assert_eq!(tok_color(TokKind::Comment), 0x6A_99_55);
    assert_eq!(tok_color(TokKind::Register), 0x9C_DC_FE);
    assert_eq!(diag_color(Severity::Warn), 0xE5_C0_7B);
}

// ── scripts ──

#[test]
fn keys_are_named() {
    assert_eq!(map_key("Ctrl+S"), Some((KEY_S, true, false)));
    assert_eq!(map_key("shift+enter"), Some((KEY_ENTER, false, true)));
    assert_eq!(map_key("esc"), Some((KEY_ESCAPE, false, false)));
    assert_eq!(map_key("hyper"), None);
    assert_eq!(key_char(KEY_A, false), Some('a' as u32));
    assert_eq!(key_char(KEY_A, true), Some('A' as u32));
    assert_eq!(key_char(KEY_DOWN, false), None);
    assert_eq!(key_char(KEY_BACK, false), Some(8));
}

#[test]
fn verbs_are_read() {
    assert_eq!(verb_arity("drag"), Some((4, 4)));
    assert_eq!(verb_arity("assert-eq"), Some((2, 3)));
    assert_eq!(verb_arity("frobnicate"), None);
    assert!(matches!(read_verb("caret", &strings(&["2", "3"])), Ok(Verb::Caret { row: 2, col: 3 })));
    assert!(matches!(read_verb("type", &strings(&["hi"])), Ok(Verb::Type(t)) if t == "hi"));
    assert!(matches!(read_verb("assert", &strings(&["1"])), Ok(Verb::Held)));
    assert!(matches!(read_verb("assert-eq", &strings(&["a", "a"])), Ok(Verb::Held)));
}

#[test]
fn each_error_of_a_verb() {
    let err = |name: &str, args: &[&str]| read_verb(name, &strings(args)).unwrap_err();
    assert_eq!(err("caret", &["2", "x"]), "argument 2 must be an integer");
    assert_eq!(err("assert", &["0"]), "assertion failed: 0");
    assert_eq!(err("assert", &["False", "no luck"]), "no luck");
    assert_eq!(err("assert-eq", &["a", "b"]), "expected `b`, got `a`");
    assert_eq!(err("assert-eq", &["a", "b", "row"]), "row: expected `b`, got `a`");
    assert_eq!(err("collapse", &["left"]), "unknown pane: left (assistant|output)");
    assert_eq!(err("splitter", &["x", "1"]), "splitter: expected col|row, got x");
    assert_eq!(err("move", &["a", "1"]), "argument 1 must be a number");
    assert_eq!(err("drag", &["1", "2.5", "-3e1", "four"]), "argument 4 must be a number");
    assert_eq!(err("splitter", &["x", "wide"]), "argument 2 must be a number");
    assert_eq!(err("key", &["hyper"]), "unknown key: hyper");
}

#[test]
fn a_script_types_and_presses_keys() {
    let mut s = Session::new("");
    s.script_type("ab");
    let (vk, ctrl, shift) = map_key("backspace").unwrap();
    s.script_key(vk, ctrl, shift);
    assert_eq!(s.doc.text(), "a");
}

#[test]
fn a_script_reads_the_session_back() {
    let mut s = Session::new("one\ntwo\nmain:");
    s.doc.set_caret(1, 2);
    s.notice = "built".into();
    let value = |s: &Session, name: &str, args: &[&str]| {
        s.script_value(&read_verb(name, &strings(args)).unwrap())
    };
    assert_eq!(value(&s, "text", &[]).as_deref(), Some("one\ntwo\nmain:"));
    assert_eq!(value(&s, "line", &["1"]).as_deref(), Some("two"));
    assert_eq!(value(&s, "line", &["9"]).as_deref(), Some(""));
    assert_eq!(value(&s, "linecount", &[]).as_deref(), Some("3"));
    assert_eq!(value(&s, "caret-row", &[]).as_deref(), Some("1"));
    assert_eq!(value(&s, "caret-col", &[]).as_deref(), Some("2"));
    assert_eq!(value(&s, "notice", &[]).as_deref(), Some("built"));
    assert_eq!(value(&s, "find-active", &[]).as_deref(), Some("0"));
    assert_eq!(value(&s, "find-count", &[]).as_deref(), Some("0"));
    assert_eq!(value(&s, "find-selected", &[]).as_deref(), Some(""));
    assert_eq!(value(&s, "new", &[]), None);
}

// ── the prompt ──

#[test]
fn commands_are_read() {
    assert!(matches!(read_command("  "), Command::Skip));
    assert!(matches!(read_command(":q"), Command::Quit));
    assert!(matches!(read_command(":frame CreateFileW"), Command::Frame(f) if f == "CreateFileW"));
    assert!(matches!(read_command(":suggest X"), Command::Suggest(n) if n == "X"));
    assert!(matches!(read_command(":check a.was"), Command::Check(f) if f == "a.was"));
    match read_command(":obj a.was b.obj") {
        Command::Assemble { emit, file, out } => {
            assert_eq!((emit, file.as_str(), out.as_deref()), (Emit::Obj, "a.was", Some("b.obj")))
        }
        other => panic!("{other:?}"),
    }
    assert!(matches!(read_command(":exe"), Command::Usage(u) if u == "usage: :exe <file> [out]"));
    assert!(matches!(read_command("RECT"), Command::Card(q) if q == "RECT"));
    assert_eq!(default_out("dir/a.was", Emit::Exe), "dir/a.exe");
}

#[test]
fn findings_are_shown() {
    assert_eq!(show_findings("a.was", &vec![]), "ok — no issues\n");
    let d = |line| Diag { line, col: 2, message: "no".into(), severity: Severity::Error };
    assert_eq!(show_findings("a.was", &vec![d(3), d(0)]), "a.was:3:2: no\na.was: no\n");
}

// ── cards ──

#[test]
fn the_word_of_a_card() {
    assert_eq!(lang_word("mov rax, OPEN_EXISTING", 12).as_deref(), Some("OPEN_EXISTING"));
    assert_eq!(lang_word("mov rax, 1", 9), None);
    let binds = [("pSwap".to_string(), "IDXGISwapChain".to_string())];
    assert_eq!(bound_interface(&binds, "pSwap"), Some("IDXGISwapChain"));
    assert_eq!(bound_interface(&binds, "p"), None);
    let q = card_query("  invoke Sleep, 1", 10, &binds);
    assert_eq!(q.as_deref(), Some("Sleep"));
}

#[test]
fn an_equate_has_a_card() {
    let e = EquateDef { name: "W".into(), expr: "2 - 5".into(), value: -3, line: 4 };
    let all = vec![e];
    let found = find_equate(&all, &chars("W")).unwrap();
    let card = equate_card(found);
    assert!(card.contains("`W = 2 - 5` = **-3**") && card.contains("Defined at line **4**"), "{card}");
    assert!(find_equate(&all, &chars("w")).is_none());
    let mut s = Session::new("a\nb\nc\nW = 2 - 5\n  mov eax, W");
    assert!(s.goto_equate(&all, 4, 11));
    assert_eq!(s.doc.caret.row, 3);
}

#[test]
fn recent_files_are_few_and_distinct() {
    let mut recent: Vec<String> = vec![];
    for i in 0..12 {
        recent = add_recent(&recent, &format!("f{i}"));
    }
    recent = add_recent(&recent, "f7");
    assert_eq!(recent.len(), 9);
    assert_eq!(recent[0], "f7");
    assert_eq!(recent.iter().filter(|f| f.as_str() == "f7").count(), 1);
}

// ── listings ──

#[test]
fn a_listing_follows_the_map() {
    let m = Encoded { code: vec![0xe8, 0, 0, 0, 0, 0xc3], relocs: vec![(1, 4)] };
    assert_eq!(reloc_mask(&m), vec![false, true, true, true, true, false]);
    let rows = buffer_listing("call X\nret\n", &[1, 3], &m, &[(0, 5), (5, 1)], 3);
    assert_eq!(rows.len(), 3);
    assert_eq!(rows[0][0].0, vec![0xe8, 0, 0, 0, 0]);
    assert_eq!(rows[0][0].2, "call X");
    assert!(rows[1].is_empty());
    assert_eq!(rows[2][0].0, vec![0xc3]);
    let rows = buffer_listing("call X\nret\n", &[1, 1], &m, &[(0, 5), (5, 1)], 2);
    let doc = Doc::from_str("invoke X\nnop");
    assert_eq!(
        listing_text(&doc, &rows),
        "   1  invoke X\n      e8 ?? ?? ?? ??            call X\n      c3                        ret\n   2  nop\n"
    );
    assert_eq!(empty_listing(2), vec![vec![], vec![]]);
}

#[test]
fn lines_that_encode_alone_are_listed_alone() {
    let rows = isolated_listing("nop\nbad\n", &[1, 2], &[Some(Encoded { code: vec![0x90], relocs: vec![] }), None], 2);
    assert_eq!(rows[0][0].0, vec![0x90]);
    assert!(rows[1][0].0.is_empty());
}

#[test]
fn imports_are_resolved_by_the_knowledge_base() {
    let kb = kb();
    let imports = import_map(&kb, &strings(&["Sleep"])).unwrap();
    assert_eq!(imports, vec![("Sleep".to_string(), "KERNEL32.dll".to_string())]);
    assert!(import_map(&kb, &strings(&["NoSuch"])).unwrap_err().contains("NoSuch"));
    assert_eq!(show_list(&strings(&["a", "b\"c"])), "[\"a\", \"b\\\"c\"]");
    assert_eq!(show_imports(&imports), "{\"Sleep\": \"KERNEL32.dll\"}");
    assert!(object_info(12, 1, 2, &strings(&["Sleep"])).contains("12"));
    assert!(program_info(512, &imports).contains("512"));
}

// ── words and brackets ──

#[test]
fn words_are_bounded() {
    let l = chars("mov rax_1, é2");
    assert_eq!(word_start(&l, 6), 4);
    assert_eq!(word_end(&l, 6), 9);
    assert_eq!(word_right(&l, 0), 4);
    assert_eq!(word_left(&l, 4), 0);
    assert_eq!(word_end(&l, 11), 13);
}

#[test]
fn brackets_have_partners() {
    let l = chars("a(b[c]d)");
    assert_eq!(find_bracket(&l, 1), Some(1));
    assert_eq!(find_partner(&l, 1), Some(7));
    assert_eq!(find_partner(&l, 7), Some(1));
    assert_eq!(find_partner(&l, 3), Some(5));
    assert!(opens_block(&chars(".while al < 3")) && !opens_block(&chars("mov al, 3")));
}

// ── the knowledge base on the command line ──

#[test]
fn methods_come_in_slot_order() {
    let m = interface_methods(&kb(), "IDXGISwapChain");
    let slots: Vec<i64> = m.iter().map(|m| m.1).collect();
    assert_eq!(slots, vec![0, 1, 2, 7, 8, 9]);
    assert_eq!(m[4].0, "Present");
}

#[test]
fn reports_name_what_was_found() {
    let kb = kb();
    let (text, n) = search_report(&kb, "CreateFile").unwrap();
    assert_eq!(n, 2);
    assert!(text.contains("CreateFileW"), "{text}");
    let (text, n) = complete_report(&kb, "FILE_", "constant").unwrap();
    assert_eq!(n, 1);
    assert!(text.contains("FILE_SHARE_READ"), "{text}");
    assert!(resolve_report(&kb, "OPEN_EXISTING").contains("3"));
    let f = print_func(&kb.functions[0]);
    assert!(f.contains("CreateFileW") && f.contains("dwShareMode"), "{f}");
    let l = layout_report(&kb.layouts[0]);
    assert!(l.contains("RECT") && l.contains("bottom"), "{l}");
    let i = interface_report(&kb.interfaces[2]);
    assert!(i.contains("IDXGISwapChain") && i.contains("Present"), "{i}");
    let s = skeleton_report(&kb, &kb.layouts[0]);
    assert!(s.contains("left") && s.contains("RECT"), "{s}");
}

#[test]
fn tables_are_read() {
    let t = read_table("# comment\n\nMOV\tmovabs\tdata\tnone\tcopy\tCopies.\nbroken line\n");
    assert_eq!(t.entries, 1);
    let names: Vec<&str> = t.rows.iter().map(|r| r.name.as_str()).collect();
    assert_eq!(names, vec!["mov", "movabs"]);
    assert_eq!(t.rows[1].description, "Copies.");
    assert_eq!(t.skipped.len(), 1);
}

#[test]
fn near_names_are_ranked_by_distance() {
    assert_eq!(levenshtein("kitten", "sitting"), 3);
    assert_eq!(levenshtein("", "abc"), 3);
    let v = rank_names("abcd", &strings(&["xxxx", "abce", "abcd"]));
    assert_eq!(v, vec!["abce"]);
    assert!(matches_like(&chars("a%c"), &chars("abbc")));
    assert!(!matches_like(&chars("a_c"), &chars("abbc")));
    assert_eq!(escape_like("50%_x"), "50\\%\\_x");
}

#[test]
fn a_new_session_is_untouched() {
    let mut s = Session::new("ab");
    assert_eq!((s.doc.text().as_str(), s.doc.caret(), s.doc.selection()), ("ab", Caret { row: 0, col: 0 }, None));
    assert!(!s.doc.undo() && !s.doc.redo());
    assert!(s.search.is_empty() && s.find_query.is_empty() && s.find_labels.is_empty() && s.binds.is_empty());
    assert!(s.comp.is_empty() && s.diags.is_empty() && s.rows.is_empty());
    assert_eq!((s.comp_sel, s.comp_start, s.find_sel), (0, 0, 0));
    assert!(!s.search_active && !s.find_active);
    assert_eq!((s.notice.as_str(), s.card.as_str()), ("", ""));
    assert_eq!(s.pending, Pending { check: 0, listing: 0, card: 0, complete: 0 });
    s.on_char('x' as u32);
    assert_eq!(s.doc.text(), "xab");
}

#[test]
fn the_editor_starts_on_the_macro() {
    let s = Session::start(STARTER, false);
    assert_eq!(s.doc.text(), STARTER.trim_end());
    assert_eq!(s.doc.caret(), Caret { row: 2, col: 2 });
    assert!(s.doc.line(2).starts_with("APPEND MACRO chr"));
    assert_eq!(s.notice, "knowledge db not found — set WINKB_DB; editing + highlighting only");
    assert!(s.card.starts_with("# RASM Studio\n\nType assembly on the left."));
    assert!(s.card.ends_with("Try moving the caret onto `ExitProcess`.\n"));
    let s = Session::start("a\ncomobj pSwap : IDXGISwapChain\n\n", true);
    assert_eq!((s.doc.caret(), s.notice.as_str()), (Caret { row: 1, col: 2 }, ""));
    assert_eq!(s.binds, vec![("pSwap".to_string(), "IDXGISwapChain".to_string())]);
}

#[test]
fn typing_into_an_opened_text_is_undone() {
    let mut s = Session::new("old");
    s.on_char('x' as u32);
    s.open_text("a");
    s.on_char('y' as u32);
    assert_eq!(s.doc.text(), "ya");
    assert!(s.doc.undo());
    assert_eq!(s.doc.text(), "a");
}
