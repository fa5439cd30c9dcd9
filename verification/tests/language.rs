use wrasm::studio::inbox::Inbox;
use wrasm::studio::lang::{
    card_reply, check_reply, coalesce_superseded, frame_reply, handle, line_bytes_reply, Emit, Request, Response,
    Severity, Step, Work,
};
use wrasm::winkb::kb::{
    Directive, EnumType, Field, Func, Instruction, Interface, Kb, Layout, Method, NameClass, NameRow,
    NamedValue, Param, SizedType, Value,
};


fn func(name: &str, dll: &str, params: &[(&str, &str)]) -> Func {
    Func {
        name: name.into(),
        dll: Some(dll.into()),
        callconv: Some("platformapi".into()),
        aw_family: None,
        ret: "BOOL".into(),
        doc_url: None,
        params: params
            .iter()
            .enumerate()
            .map(|(i, p)| Param {
                ordinal: i as i64 + 1,
                name: p.0.into(),
                ty: p.1.into(),
                type_kind: "native".into(),
                related: vec![],
            })
            .collect(),
    }
}

fn value(name: &str, source: &str, v: i64) -> NamedValue {
    NamedValue {
        name: name.into(),
        value: Value { source: source.into(), i64v: v, bits: v as u64, namespace: None },
    }
}

fn layout(name: &str, size: i64, fields: &[(&str, i64, &str)]) -> Layout {
    Layout {
        name: name.into(),
        kind: "struct".into(),
        size,
        align: 4,
        fields: fields
            .iter()
            .map(|f| Field { name: f.0.into(), offset: f.1, ty: f.2.into() })
            .collect(),
    }
}

fn interface(name: &str, base: Option<&str>, first: i64, methods: &[(&str, &[&str])]) -> Interface {
    Interface {
        name: name.into(),
        iid: Some("310d36a0-d2e7-4c0a-aa04-6a9d23b8886a".into()),
        base: base.map(|b| b.to_string()),
        methods: methods
            .iter()
            .enumerate()
            .map(|(i, m)| Method {
                vtable_index: first + i as i64,
                name: m.0.into(),
                params: m.1.iter().map(|p| p.to_string()).collect(),
            })
            .collect(),
    }
}

fn row(class: NameClass, name: &str, kind: &str, detail: &str) -> NameRow {
    NameRow { class, name: name.into(), kind: kind.into(), detail: detail.into() }
}

/// A small knowledge base with the names that the tests speak of.
fn kb() -> Kb {
    let mut create_file = func(
        "CreateFileW",
        "KERNEL32.dll",
        &[
            ("lpFileName", "PCWSTR"),
            ("dwDesiredAccess", "u32"),
            ("dwShareMode", "FILE_SHARE_MODE"),
            ("lpSecurityAttributes", "SECURITY_ATTRIBUTES*"),
            ("dwCreationDisposition", "FILE_CREATION_DISPOSITION"),
            ("dwFlagsAndAttributes", "u32"),
            ("hTemplateFile", "HANDLE"),
        ],
    );
    create_file.params[4].type_kind = "enum".into();
    create_file.params[4].related = vec![("CREATE_NEW".into(), 1), ("OPEN_EXISTING".into(), 3)];
    Kb {
        functions: vec![
            create_file,
            func("Sleep", "KERNEL32.dll", &[("dwMilliseconds", "u32")]),
            func("GetTickCount", "KERNEL32.dll", &[]),
            func("ExitProcess", "KERNEL32.dll", &[("uExitCode", "u32")]),
            func(
                "MessageBoxW",
                "USER32.dll",
                &[("hWnd", "HWND"), ("lpText", "PCWSTR"), ("lpCaption", "PCWSTR"), ("uType", "u32")],
            ),
        ],
        values: vec![
            value("CREATE_NEW", "enum", 1),
            value("OPEN_EXISTING", "enum", 3),
            value("FILE_SHARE_READ", "const", 1),
            value("MB_OK", "const", 0),
        ],
        layouts: vec![
            layout(
                "RECT",
                16,
                &[("left", 0, "i32"), ("top", 4, "i32"), ("right", 8, "i32"), ("bottom", 12, "i32")],
            ),
            layout("D2D1_ELLIPSE", 16, &[("point", 0, "D2D_POINT_2F"), ("radiusX", 8, "f32"), ("radiusY", 12, "f32")]),
            layout("DXGI_MODE_DESC", 28, &[("Width", 0, "u32"), ("Height", 4, "u32"), ("Format", 16, "DXGI_FORMAT")]),
            layout(
                "DXGI_SWAP_CHAIN_DESC",
                72,
                &[
                    ("BufferDesc", 0, "Windows.Win32.Graphics.Dxgi.Common.DXGI_MODE_DESC"),
                    ("BufferUsage", 36, "u32"),
                    ("BufferCount", 40, "u32"),
                    ("OutputWindow", 48, "HWND"),
                ],
            ),
        ],
        sizes: vec![
            SizedType { name: "RECT".into(), bits: 128 },
            SizedType { name: "D2D1_ELLIPSE".into(), bits: 128 },
            SizedType { name: "DXGI_MODE_DESC".into(), bits: 224 },
            SizedType { name: "DXGI_SWAP_CHAIN_DESC".into(), bits: 576 },
        ],
        interfaces: vec![
            interface(
                "IUnknown",
                None,
                0,
                &[("QueryInterface", &["Guid*", "void**"]), ("AddRef", &[]), ("Release", &[])],
            ),
            interface("IDXGIDeviceSubObject", Some("Windows.Win32.System.Com.IUnknown"), 7, &[("GetDevice", &["Guid*", "void**"])]),
            interface(
                "IDXGISwapChain",
                Some("Windows.Win32.Graphics.Dxgi.IDXGIDeviceSubObject"),
                8,
                &[("Present", &["u32", "u32"]), ("GetBuffer", &["u32", "Guid*", "void**"])],
            ),
            interface(
                "ID2D1RenderTarget",
                Some("Windows.Win32.System.Com.IUnknown"),
                20,
                &[("DrawEllipse", &["D2D1_ELLIPSE*", "ID2D1Brush", "f32", "ID2D1StrokeStyle"])],
            ),
            interface("ID2D1HwndRenderTarget", Some("Windows.Win32.Graphics.Direct2D.ID2D1RenderTarget"), 57, &[]),
        ],
        enums: vec![EnumType { type_id: 7, members: vec![("CREATE_NEW".into(), 1), ("OPEN_EXISTING".into(), 3)] }],
        instructions: vec![Instruction {
            mnemonic: "mov".into(),
            category: "data".into(),
            flags: "none".into(),
            summary: "copy".into(),
            description: "Copies the source.".into(),
        }],
        directives: vec![Directive {
            name: "invoke".into(),
            category: "call".into(),
            syntax: "invoke Func, args".into(),
            summary: "call a function".into(),
            description: "Calls an imported function.".into(),
        }],
        names: vec![
            row(NameClass::Function, "CreateFileW", "function", "KERNEL32.dll"),
            row(NameClass::Function, "CreateFileMappingW", "function", "KERNEL32.dll"),
            row(NameClass::Function, "ExitProcess", "function", "KERNEL32.dll"),
            row(NameClass::Constant, "OPEN_EXISTING", "enum-val", "enum"),
            row(NameClass::Constant, "FILE_SHARE_READ", "constant", "const"),
            row(NameClass::Type, "RECT", "struct", "Windows.Win32.Foundation.RECT"),
        ],
    }
}


/// The worker's side of a conversation, without the thread.
struct Lang {
    kb: Kb,
}

fn lang() -> Lang {
    Lang { kb: kb() }
}

impl Lang {
    fn answer(&self, req: Request) -> Option<Response> {
        match handle(&self.kb, req) {
            Step::Reply(r) => Some(r),
            Step::Ask(Work::Check { id, src }) => Some(check_reply(&self.kb, id, &src, None)),
            Step::Ask(_) => None,
        }
    }

    fn check_src(&self, src: &str) -> Option<Response> {
        self.answer(Request::Check { id: 1, src: src.into() })
    }

    fn assemble(&self, src: &str, emit: Emit) -> Option<Response> {
        self.answer(Request::Assemble { id: 1, src: src.into(), emit })
    }

    fn suggest(&self, name: &str) -> Option<Response> {
        self.answer(Request::Suggest { id: 1, name: name.into() })
    }

    fn complete(&self, line: &str, cursor: usize, binds: Vec<(String, String)>) -> Option<Response> {
        self.answer(Request::Complete { id: 1, line: line.into(), cursor, binds })
    }

    fn hover(&self, line: &str, cursor: usize) -> Option<Response> {
        self.answer(Request::Hover { id: 1, line: line.into(), cursor })
    }

    fn signature(&self, line: &str, cursor: usize) -> Option<Response> {
        self.answer(Request::Signature { id: 1, line: line.into(), cursor })
    }
}

#[test]
fn check_flags_bad_arity() {
    let l = lang();
    let src = ".globl main\nmain:\n  invoke MessageBoxW, 0, 0\n  ret\n";
    match l.check_src(src) {
        Some(Response::Check { diags, .. }) => {
            assert!(diags.iter().any(|d| d.message.contains("argument")), "{diags:?}")
        }
        other => panic!("{other:?}"),
    }
}

#[test]
fn check_clean_source_is_empty() {
    let l = lang();
    let src = ".globl main\nmain:\n  mov eax, 5\n  ret\n";
    match l.check_src(src) {
        Some(Response::Check { diags, .. }) => assert!(diags.is_empty(), "{diags:?}"),
        other => panic!("{other:?}"),
    }
}

#[test]
fn assemble_asm_passes_through_lowered_text() {
    let l = lang();
    let src = ".globl main\nmain:\n  invoke ExitProcess, 7\n  ret\n";
    match l.assemble(src, Emit::Asm) {
        Some(Response::Assembled { bytes, emit, .. }) => {
            assert_eq!(emit, Emit::Asm);
            let txt = String::from_utf8(bytes).unwrap();
            assert!(txt.contains("ExitProcess"), "{txt}");
        }
        other => panic!("{other:?}"),
    }
}

#[test]
fn suggest_did_you_mean() {
    let l = lang();
    match l.suggest("OPEN_EXISTNG") {
        Some(Response::Suggest { names, .. }) => {
            assert!(names.iter().any(|n| n == "OPEN_EXISTING"), "{names:?}")
        }
        other => panic!("{other:?}"),
    }
}

#[test]
fn complete_after_invoke_lists_functions() {
    let l = lang();
    let line = "invoke CreateFil";
    match l.complete(line, line.len(), vec![]) {
        Some(Response::Completions { items, replace_start, .. }) => {
            assert_eq!(replace_start, 7, "replaces the typed name");
            assert!(items.iter().any(|c| c.name == "CreateFileW"), "{items:?}");
            assert!(items.iter().all(|c| c.kind == "function"));
        }
        other => panic!("{other:?}"),
    }
}

#[test]
fn complete_struct_field_after_dot() {
    let l = lang();
    let line = "mov eax, [rcx + RECT.";
    match l.complete(line, line.len(), vec![]) {
        Some(Response::Completions { items, .. }) => {
            let names: Vec<_> = items.iter().map(|c| c.name.as_str()).collect();
            assert!(names.contains(&"left") && names.contains(&"right"), "{names:?}");
        }
        other => panic!("{other:?}"),
    }
}

#[test]
fn complete_after_typed_pointer_lists_interface_methods() {
    let l = lang();
    // `pSwap` is a typed pointer to IDXGISwapChain → `pSwap.` offers methods.
    let binds = vec![("pSwap".to_string(), "IDXGISwapChain".to_string())];
    match l.complete("  pSwap.", 8, binds) {
        Some(Response::Completions { items, .. }) => {
            assert!(items.iter().any(|c| c.name == "Present"), "own method: {items:?}");
            assert!(items.iter().any(|c| c.name == "Release"), "inherited method: {items:?}");
            assert!(items.iter().all(|c| c.kind == "method"));
        }
        other => panic!("{other:?}"),
    }
}

#[test]
fn complete_offers_nothing_for_the_mnemonic() {
    let l = lang();
    match l.complete("mo", 2, vec![]) {
        Some(Response::Completions { items, .. }) => assert!(items.is_empty()),
        other => panic!("{other:?}"),
    }
}

#[test]
fn hover_resolves_a_constant_value() {
    let l = lang();
    let line = "mov eax, OPEN_EXISTING";
    match l.hover(line, 12) {
        Some(Response::Tip { markdown: Some(md), .. }) => {
            assert!(md.contains("OPEN_EXISTING") && md.contains("0x"), "{md}")
        }
        other => panic!("{other:?}"),
    }
}

#[test]
fn hover_on_a_register_is_empty() {
    let l = lang();
    match l.hover("mov rax, 1", 4) {
        Some(Response::Tip { markdown, .. }) => assert!(markdown.is_none()),
        other => panic!("{other:?}"),
    }
}

#[test]
fn signature_marks_the_active_param() {
    let l = lang();
    // caret after the first comma -> param 0 (lpFileName) is active/bold.
    let line = "invoke CreateFileW, rcx";
    match l.signature(line, line.len()) {
        Some(Response::Tip { markdown: Some(md), .. }) => {
            assert!(md.contains("CreateFileW"), "{md}");
            assert!(md.contains("**"), "an active param is marked: {md}");
        }
        other => panic!("{other:?}"),
    }
}

fn req_id(r: &Request) -> u64 {
    match r {
        Request::Card { id, .. }
        | Request::Frame { id, .. }
        | Request::Check { id, .. }
        | Request::Assemble { id, .. }
        | Request::Suggest { id, .. }
        | Request::Complete { id, .. }
        | Request::Hover { id, .. }
        | Request::Signature { id, .. }
        | Request::LineBytes { id, .. }
        | Request::Listing { id, .. } => *id,
        Request::Shutdown => 0,
    }
}

#[test]
fn coalesce_keeps_last_live_read_drops_earlier() {
    let batch = vec![
        Request::Complete { id: 1, line: "a".into(), cursor: 1, binds: vec![] },
        Request::Card { id: 2, query: "RECT".into() },
        Request::Complete { id: 3, line: "ab".into(), cursor: 2, binds: vec![] },
        Request::Hover { id: 4, line: "x".into(), cursor: 0 },
    ];
    let ids: Vec<u64> = coalesce_superseded(batch).iter().map(req_id).collect();
    // Complete#1 superseded by #3; Card and the lone Hover survive; order kept.
    assert_eq!(ids, vec![2, 3, 4]);
}

#[test]
fn coalesce_never_drops_explicit_actions() {
    let batch = vec![
        Request::Card { id: 1, query: "A".into() },
        Request::Card { id: 2, query: "B".into() },
        Request::Assemble { id: 3, src: String::new(), emit: Emit::Obj },
    ];
    let ids: Vec<u64> = coalesce_superseded(batch).iter().map(req_id).collect();
    assert_eq!(ids, vec![1, 2, 3], "explicit actions are never coalesced");
}

#[test]
fn coalesce_collapses_a_typing_burst_to_the_latest() {
    let batch: Vec<Request> = (0..5)
        .map(|i| Request::Complete { id: i, line: "x".repeat(i as usize + 1), cursor: 1, binds: vec![] })
        .collect();
    let kept = coalesce_superseded(batch);
    assert_eq!(kept.len(), 1);
    assert_eq!(req_id(&kept[0]), 4, "only the newest keystroke survives");
}

#[test]
fn complete_function_prefix() {
    let kb = kb();
    let hits = kb.complete("CreateFile", "function", 50).unwrap();
    assert!(hits.iter().any(|c| c.name == "CreateFileW"), "{hits:?}");
    assert!(hits.iter().all(|c| c.kind == "function" && c.name.starts_with("CreateFile")));
}

#[test]
fn complete_constant_scope_excludes_functions() {
    let kb = kb();
    let hits = kb.complete("FILE_SHARE_", "constant", 50).unwrap();
    assert!(hits.iter().any(|c| c.name == "FILE_SHARE_READ"), "{hits:?}");
    assert!(hits.iter().all(|c| c.kind != "function"));
}

#[test]
fn complete_unknown_scope_is_empty() {
    let kb = kb();
    assert!(kb.complete("X", "bogus", 10).unwrap().is_empty());
}


#[test]
fn only_the_last_of_each_kind_survives() {
    let batch = vec![
        Request::Hover { id: 1, line: "a".into(), cursor: 0 },
        Request::Check { id: 2, src: "a".into() },
        Request::Hover { id: 3, line: "b".into(), cursor: 0 },
        Request::Check { id: 4, src: "b".into() },
        Request::Frame { id: 5, func: "Sleep".into() },
        Request::Frame { id: 6, func: "Sleep".into() },
    ];
    let ids: Vec<u64> = coalesce_superseded(batch).iter().map(req_id).collect();
    assert_eq!(ids, vec![3, 4, 5, 6]);
}

#[test]
fn cards_and_frames_are_asked_for() {
    let kb = kb();
    match handle(&kb, Request::Card { id: 9, query: "RECT".into() }) {
        Step::Ask(Work::Card { id, query }) => assert_eq!((id, query.as_str()), (9, "RECT")),
        other => panic!("{other:?}"),
    }
    match handle(&kb, Request::Frame { id: 10, func: "Sleep".into() }) {
        Step::Ask(Work::Frame { id, func }) => assert_eq!((id, func.as_str()), (10, "Sleep")),
        other => panic!("{other:?}"),
    }
    assert!(matches!(card_reply(9, Ok("# RECT".into())), Response::Card { id: 9, .. }));
    assert!(matches!(card_reply(9, Err("gone".into())), Response::Error { id: 9, .. }));
    assert!(matches!(frame_reply(10, Ok(None)), Response::Frame { id: 10, line: None }));
    assert!(matches!(frame_reply(10, Err("gone".into())), Response::Error { id: 10, .. }));
}

#[test]
fn an_object_is_asked_for_with_the_lowered_text() {
    let kb = kb();
    let src = "main:\n  invoke ExitProcess, 7\n".to_string();
    match handle(&kb, Request::Assemble { id: 3, src, emit: Emit::Obj }) {
        Step::Ask(Work::Encode { id, lowered, emit }) => {
            assert_eq!((id, emit), (3, Emit::Obj));
            assert!(lowered.contains("call ExitProcess"), "{lowered}");
        }
        other => panic!("{other:?}"),
    }
}

#[test]
fn a_source_that_does_not_lower_is_answered_at_once() {
    let kb = kb();
    match handle(&kb, Request::Assemble { id: 3, src: ".endif\n".into(), emit: Emit::Exe }) {
        Step::Reply(Response::Error { id: 3, message }) => assert!(message.contains("`.endif`"), "{message}"),
        other => panic!("{other:?}"),
    }
    match handle(&kb, Request::LineBytes { id: 4, line: ".endif".into() }) {
        Step::Reply(Response::LineBytes { id: 4, bytes }) => assert!(bytes.is_empty()),
        other => panic!("{other:?}"),
    }
    match handle(&kb, Request::Listing { id: 5, src: "nop\n.endif\n".into() }) {
        Step::Reply(Response::Listing { id: 5, rows }) => {
            assert_eq!(rows.len(), 2);
            assert!(rows.iter().all(|r| r.is_empty()));
        }
        other => panic!("{other:?}"),
    }
}

#[test]
fn a_listing_is_asked_for_with_its_map() {
    let kb = kb();
    match handle(&kb, Request::Listing { id: 5, src: "main:\n  ret\n".into() }) {
        Step::Ask(Work::List { id, lowered, src_map, lines }) => {
            assert_eq!((id, lines), (5, 2));
            assert_eq!(lowered, "main:\n  ret\n");
            assert_eq!(src_map, vec![1, 2]);
        }
        other => panic!("{other:?}"),
    }
}

#[test]
fn line_bytes_are_handed_on() {
    match line_bytes_reply(7, Some(vec![0xc3])) {
        Response::LineBytes { id, bytes } => assert_eq!((id, bytes), (7, vec![0xc3])),
        other => panic!("{other:?}"),
    }
    assert!(matches!(line_bytes_reply(7, None), Response::LineBytes { bytes, .. } if bytes.is_empty()));
}

#[test]
fn a_refused_line_is_an_error() {
    let kb = kb();
    match check_reply(&kb, 2, "main:\n  xyzzy\n", Some("line 2: unknown mnemonic")) {
        Response::Check { id, diags } => {
            assert_eq!(id, 2);
            assert!(diags.iter().any(|d| d.line == 2 && d.severity == Severity::Error), "{diags:?}");
        }
        other => panic!("{other:?}"),
    }
}

#[test]
fn a_reply_carries_its_id() {
    let l = lang();
    assert_eq!(l.hover("mov rax, 1", 4).unwrap().id(), 1);
    assert_eq!(line_bytes_reply(77, None).id(), 77);
}

#[test]
fn a_signature_shows_each_parameter() {
    let l = lang();
    match l.signature("invoke CreateFileW, rcx, ", 25) {
        Some(Response::Tip { markdown: Some(md), .. }) => {
            for p in ["lpFileName", "dwDesiredAccess", "hTemplateFile"] {
                assert!(md.contains(p), "{md}");
            }
            assert!(md.contains("**"), "{md}");
        }
        other => panic!("{other:?}"),
    }
    assert!(matches!(l.signature("invoke Unknown, rcx", 19), Some(Response::Tip { markdown: None, .. })));
}

#[test]
fn a_search_finds_names_by_a_fragment() {
    let kb = kb();
    let hits = kb.search("ileshare", 10).unwrap();
    assert!(hits.is_empty(), "{hits:?}");
    let hits = kb.search("SHARE", 10).unwrap();
    assert!(hits.iter().any(|h| h.name == "FILE_SHARE_READ"), "{hits:?}");
    assert!(kb.search("e", 2).unwrap().len() <= 2);
    let hits = kb.search("file_share", 10).unwrap();
    assert!(hits.iter().any(|h| h.name == "FILE_SHARE_READ"), "{hits:?}");
}

#[test]
fn a_fragment_has_no_wildcards() {
    let kb = kb();
    assert!(kb.search("FILE_SH_RE", 10).unwrap().is_empty());
    assert!(kb.search("C_eateFile", 10).unwrap().is_empty());
    assert!(kb.search("Create%W", 10).unwrap().is_empty());
    assert!(kb.search("_", 50).unwrap().iter().all(|h| h.name.contains('_')));
}

#[test]
fn single_entries_are_found_by_name() {
    let kb = kb();
    assert_eq!(kb.instruction("mov").unwrap().summary, "copy");
    assert!(kb.instruction("nope").is_none());
    assert_eq!(kb.directive("invoke").unwrap().category, "call");
    assert_eq!(kb.enum_members(7), vec![("CREATE_NEW".to_string(), 1), ("OPEN_EXISTING".to_string(), 3)]);
    assert!(kb.enum_members(8).is_empty());
    let snippet = kb.snippet("ExitProcess").unwrap();
    assert!(snippet.contains("ExitProcess") && snippet.contains("uExitCode"), "{snippet}");
    assert!(kb.snippet("Nope").is_none());
}

#[test]
fn async_replies_correlate_by_id() {
    let mut inbox = Inbox::new();
    let a = inbox.next_number();
    let b = inbox.next_number();
    let waited = inbox.next_number();
    assert!(inbox.receive(waited, card_reply(a, Ok("RECT".into()))).is_none());
    assert!(inbox.receive(waited, Response::Suggest { id: b, names: vec![] }).is_none());
    let mut seen = std::collections::HashSet::new();
    for _ in 0..2 {
        let r = inbox.take().expect("a reply");
        seen.insert(r.id());
    }
    assert!(seen.contains(&a) && seen.contains(&b), "ids {a},{b} seen {seen:?}");
}

#[test]
fn poll_is_nonblocking_when_idle() {
    assert!(Inbox::new().take().is_none());
}

#[test]
fn sync_call_preserves_a_pending_async_reply() {
    let mut inbox = Inbox::new();
    let async_id = inbox.next_number();
    let sync_id = inbox.next_number();
    // The async reply arrives while the sync one is waited for.
    assert!(inbox.receive(sync_id, card_reply(async_id, Ok("RECT".into()))).is_none());
    let own = inbox.receive(sync_id, Response::Suggest { id: sync_id, names: vec![] });
    assert!(matches!(own, Some(Response::Suggest { .. })));
    let mut found = false;
    for _ in 0..3 {
        if let Some(r) = inbox.take() {
            if r.id() == async_id {
                found = true;
                break;
            }
        }
    }
    assert!(found, "async card reply id {async_id} was lost across a sync call()");
}

#[test]
fn kept_replies_come_in_the_order_of_arrival() {
    let mut inbox = Inbox::new();
    for id in 5..9 {
        inbox.receive(1, line_bytes_reply(id, None));
    }
    let mut ids = vec![];
    while let Some(r) = inbox.take() {
        ids.push(r.id());
    }
    assert_eq!(ids, vec![5, 6, 7, 8]);
}

#[test]
fn a_pattern_that_is_too_long_is_refused() {
    let kb = kb();
    let why = Err("LIKE or GLOB pattern too complex".to_string());
    assert!(kb.search(&"a".repeat(49_998), 10).unwrap().is_empty());
    assert_eq!(kb.search(&"a".repeat(49_999), 10).map(|v| v.len()), why);
    assert!(kb.search(&"a".repeat(49_999), 0).unwrap().is_empty());
    assert!(kb.search(&"_".repeat(24_999), 10).unwrap().is_empty());
    assert_eq!(kb.search(&"_".repeat(25_000), 10).map(|v| v.len()), why);
    assert!(kb.complete(&"a".repeat(49_999), "all", 10).unwrap().is_empty());
    assert_eq!(kb.complete(&"a".repeat(50_000), "all", 10).map(|v| v.len()), why);
    assert_eq!(kb.complete(&"_".repeat(25_000), "function", 10).map(|v| v.len()), why);
    assert!(kb.complete(&"a".repeat(50_000), "bogus", 10).unwrap().is_empty());
}
