//! Lowering: each source line becomes the plain assembler lines it stands for,
//! with a map from every lowered line back to its source line.
use crate::text;
use crate::was::blocks;
use crate::was::calls;
use crate::was::contract;
use crate::was::data;
use crate::was::decls;
use crate::was::lex;
use crate::was::macros;
use crate::was::operands;
use crate::text::{
    chars_of, copy_of, index_of, index_of_text, index_of_ws, is, is_ignoring_case, lines_of,
    push_all, push_dec, push_str, push_text, string_of, trimmed, trimmed_end, trimmed_start,
};
use crate::was::blocks::{
    Block, BlockView, clause_label_text, cond_jump, find_proc, frame_of, in_framed_proc,
    innermost_targets, numbered_text, proc_epilogue, proc_prologue,
};
use crate::was::calls::{emit_iid, expand_comcall, expand_invoke};
use crate::was::contract::parse_proc;
use crate::was::data::{StringAccum, emit_string_block, lower_data, parse_data_line};
use crate::was::decls::{
    MethodCall, collect_com_objs, collect_labels, emit_struct, include_path, parse_method_call,
    parse_struct_open, push_copy,
};
use crate::was::lex::{after_keyword, leading_label, without_comment};
use crate::was::macros::expand_macros;
use crate::was::operands::resolve_operands;
use crate::winkb::kb::Kb;
use vstd::prelude::*;
use vstd::slice::slice_subrange;

verus! {

// ── instructions ────────────────────────────────────────────────────────────

/// An instruction line with its operands resolved, behind its label `name` if it
/// has one.
pub open spec fn instruction_text(
    kb: &Kb,
    labels: Seq<Seq<char>>,
    prefix: Seq<char>,
    rest: Seq<char>,
) -> Result<Seq<char>, Seq<char>> {
    let w = text::find_ws(rest);
    let mnem = rest.take(w);
    let ops = text::trim_start(rest.skip(w));
    if ops.len() == 0 {
        Ok(prefix + mnem)
    } else {
        match operands::resolved(kb, labels, ops) {
            Ok(r) => Ok(prefix + mnem + " "@ + r),
            Err(m) => Err(m),
        }
    }
}

/// What stands behind the label `name` that `t` begins with.
pub open spec fn behind_name(t: Seq<char>, name: Seq<char>) -> Seq<char> {
    let after = text::trim_start(t.skip(name.len() as int));
    text::trim_start(
        if after.len() > 0 && after[0] == ':' {
            after.skip(1)
        } else {
            after
        },
    )
}

/// One instruction line rewritten: a label is kept, identifiers are resolved.
pub open spec fn rewritten(kb: &Kb, labels: Seq<Seq<char>>, line: Seq<char>) -> Result<
    Seq<char>,
    Seq<char>,
> {
    let rest = text::trim_end(line);
    let t = text::trim_start(rest);
    match lex::label_of(t) {
        Some(name) => {
            let after = behind_name(t, name);
            if after.len() == 0 {
                Ok(name + ":"@)
            } else {
                instruction_text(kb, labels, name + ": "@, after)
            }
        },
        None => instruction_text(kb, labels, Seq::empty(), rest),
    }
}

fn write_instruction(
    prefix: Vec<char>,
    rest: &[char],
    kb: &Kb,
    labels: &Vec<Vec<char>>,
) -> (r: Result<Vec<char>, String>)
    ensures
        operands::result_view(r) == instruction_text(kb, text::texts(labels@), prefix@, rest@),
{
    let w: usize = index_of_ws(rest);
    let mnem = slice_subrange(rest, 0, w);
    let ops = trimmed_start(slice_subrange(rest, w, rest.len()));
    let mut o = prefix;
    push_all(&mut o, mnem);
    if ops.len() == 0 {
        return Ok(o);
    }
    match resolve_operands(ops, kb, labels) {
        Ok(res) => {
            push_str(&mut o, " ");
            push_all(&mut o, &res);
            Ok(o)
        },
        Err(m) => Err(m),
    }
}

/// The name of a label is at the front of the text it is read from.
proof fn lemma_label_len(t: Seq<char>)
    ensures
        lex::label_of(t) matches Some(n) ==> n.len() <= t.len(),
{
    text::lemma_first_from(t, text::eq_char(':'), 0);
    let head = t.take(text::find(t, ':'));
    text::lemma_first_from(head, text::not_ws(), 0);
    let u = text::trim_start(head);
    text::lemma_last_below(u, text::not_ws(), u.len() as int);
}

/// Resolve operand identifiers on one instruction line, keeping a `label:`
/// prefix.
pub fn rewrite_line(line: &[char], kb: &Kb, labels: &Vec<Vec<char>>) -> (r: Result<
    Vec<char>,
    String,
>)
    ensures
        operands::result_view(r) == rewritten(kb, text::texts(labels@), line@),
{
    let rest = trimmed_end(line);
    let t = trimmed_start(rest);
    match leading_label(t) {
        Some(name) => {
            proof {
                lemma_label_len(t@);
            }
            let after0 = trimmed_start(slice_subrange(t, name.len(), t.len()));
            let after1 = if after0.len() > 0 && after0[0] == ':' {
                slice_subrange(after0, 1, after0.len())
            } else {
                after0
            };
            let after = trimmed_start(after1);
            let mut prefix = copy_of(name);
            if after.len() == 0 {
                push_str(&mut prefix, ":");
                return Ok(prefix);
            }
            push_str(&mut prefix, ": ");
            write_instruction(prefix, after, kb, labels)
        },
        None => {
            let none: Vec<char> = Vec::new();
            assert(none@ =~= Seq::empty());
            write_instruction(none, rest, kb, labels)
        },
    }
}

// ── the state ───────────────────────────────────────────────────────────────

/// What lowering carries from line to line: the counter that makes block labels
/// unique, the open blocks, and an open struct instance (its label, its type and
/// its fields) or string block (its lines and whether it is wide).
pub struct LowerView {
    pub ctr: int,
    pub stack: Seq<BlockView>,
    pub open_struct: Option<(Seq<char>, Seq<char>, Seq<(Seq<char>, Seq<char>)>)>,
    pub open_string: Option<(Seq<Seq<char>>, bool)>,
}

/// What one line lowers to: its text, whether that is pure data without a source
/// line to show, and the state behind it.
pub struct LineView {
    pub text: Seq<char>,
    pub silent: bool,
    pub st: LowerView,
}

/// What lowering knows of the whole source.
pub struct SourceView {
    pub labels: Seq<Seq<char>>,
    pub objs: Seq<(Seq<char>, Seq<char>)>,
    pub lines: Seq<Seq<char>>,
}

/// An error on a source line, tagged with the line.
pub open spec fn line_error(line: int, what: Seq<char>) -> Seq<char> {
    "line "@ + text::signed_dec(line) + ": "@ + what
}

/// An error inside a source line, tagged with the line and its text.
pub open spec fn tagged(line: int, raw: Seq<char>, cause: Seq<char>) -> Seq<char> {
    "line "@ + text::signed_dec(line) + ": `"@ + text::trim(raw) + "`: "@ + cause
}

/// A line that lowers to the text `r`, or fails with a tagged error.
pub open spec fn line_or_tagged(
    r: Result<Seq<char>, Seq<char>>,
    line: int,
    raw: Seq<char>,
    st: LowerView,
) -> Result<LineView, Seq<char>> {
    match r {
        Ok(t) => Ok(LineView { text: t, silent: false, st }),
        Err(m) => Err(tagged(line, raw, m)),
    }
}

/// A line that lowers to the text `t`.
pub open spec fn plain(t: Seq<char>, st: LowerView) -> Result<LineView, Seq<char>> {
    Ok(LineView { text: t, silent: false, st })
}

/// The directive that ends a string block.
pub open spec fn string_end(wide: bool) -> Seq<char> {
    if wide {
        ".endwidestring"@
    } else {
        ".endasciistring"@
    }
}

/// A line inside the string block with the lines `ls`: captured verbatim, up to
/// the matching end directive, which turns the block into data.
pub open spec fn string_block_line(st: LowerView, ls: Seq<Seq<char>>, wide: bool, raw: Seq<char>) -> LineView {
    if text::same_ignoring_case(text::trim(raw), string_end(wide)) {
        LineView {
            text: data::string_block(ls, wide),
            silent: true,
            st: LowerView { open_string: None, ..st },
        }
    } else {
        LineView {
            text: Seq::empty(),
            silent: false,
            st: LowerView { open_string: Some((ls.push(raw), wide)), ..st },
        }
    }
}

/// A line inside a struct instance: a field, or its end, which lays it out.
pub open spec fn struct_block_line(
    kb: &Kb,
    st: LowerView,
    acc: (Seq<char>, Seq<char>, Seq<(Seq<char>, Seq<char>)>),
    t: Seq<char>,
    line: int,
) -> Result<LineView, Seq<char>> {
    let (label, ty, fields) = acc;
    if t == "ends"@ || t == "endstruct"@ {
        match decls::struct_text(kb, label, ty, fields) {
            Ok(s) => plain(s, LowerView { open_struct: None, ..st }),
            Err(m) => Err(line_error(line, "struct "@ + label + ": "@ + m)),
        }
    } else if t.len() == 0 {
        plain(Seq::empty(), LowerView { open_struct: Some(acc), ..st })
    } else {
        let eq = text::find(t, '=');
        if eq < t.len() {
            plain(
                Seq::empty(),
                LowerView {
                    open_struct: Some(
                        (label, ty, fields.push((text::trim(t.take(eq)), text::trim(t.skip(eq + 1))))),
                    ),
                    ..st
                },
            )
        } else {
            Err(line_error(line, "struct field needs `name = value`, got `"@ + t + "`"@))
        }
    }
}

/// The `comcall` operands of a typed method call.
pub open spec fn method_operands(c: MethodCall) -> Seq<char> {
    let head = "[rip + "@ + c.obj + "], "@ + c.iface + ", "@ + c.method;
    if c.args.len() == 0 {
        head
    } else {
        head + ", "@ + c.args
    }
}

/// A line that calls out: `invoke`, `comcall`, `iid`, `comobj`, or a typed method
/// call. `None` if `t` is no such line.
pub open spec fn call_line(
    kb: &Kb,
    src: SourceView,
    st: LowerView,
    t: Seq<char>,
    raw: Seq<char>,
    line: int,
) -> Option<Result<LineView, Seq<char>>> {
    match lex::strip_keyword(t, "invoke"@) {
        Some(rest) => Some(
            line_or_tagged(calls::invoke_text(kb, src.labels, rest, blocks::framed(st.stack)), line, raw, st),
        ),
        None => match lex::strip_keyword(t, "comcall"@) {
            Some(rest) => Some(
                line_or_tagged(calls::comcall_text(kb, src.labels, rest, blocks::framed(st.stack)), line, raw, st),
            ),
            None => match lex::strip_keyword(t, "iid"@) {
                Some(rest) => Some(line_or_tagged(calls::iid_text(kb, rest), line, raw, st)),
                None => match lex::strip_keyword(t, "comobj"@) {
                    Some(rest) => {
                        let name = text::trim(rest.take(text::find(rest, ':')));
                        Some(plain(name + ":\n  .zero 8\n"@, st))
                    },
                    None => match decls::method_call(t, src.objs) {
                        Some(c) => Some(
                            line_or_tagged(
                                calls::comcall_text(
                                    kb,
                                    src.labels,
                                    method_operands(c),
                                    blocks::framed(st.stack),
                                ),
                                line,
                                raw,
                                st,
                            ),
                        ),
                        None => None,
                    },
                },
            },
        },
    }
}

/// The state with one more block open, and its id used up.
pub open spec fn with_block(st: LowerView, b: BlockView) -> LowerView {
    LowerView { ctr: st.ctr + 1, stack: st.stack.push(b), ..st }
}

/// The state without its innermost block.
pub open spec fn without_block(st: LowerView) -> LowerView {
    LowerView {
        stack: if st.stack.len() > 0 {
            st.stack.drop_last()
        } else {
            st.stack
        },
        ..st
    }
}

/// The innermost block.
pub open spec fn top(st: LowerView) -> Option<BlockView> {
    if st.stack.len() > 0 {
        Some(st.stack.last())
    } else {
        None
    }
}

/// A line of an `.if` block. `None` if `t` is none.
pub open spec fn if_line(
    kb: &Kb,
    src: SourceView,
    st: LowerView,
    t: Seq<char>,
    raw: Seq<char>,
    line: int,
) -> Option<Result<LineView, Seq<char>>> {
    match lex::strip_keyword(t, ".if"@) {
        Some(cond) => Some(
            line_or_tagged(
                blocks::condition_text(kb, src.labels, cond, blocks::clause_label(st.ctr, 1), false),
                line,
                raw,
                with_block(st, BlockView::If { id: st.ctr, next: 1, else_seen: false }),
            ),
        ),
        None => match lex::strip_keyword(t, ".elseif"@) {
            Some(cond) => Some(
                match top(st) {
                    Some(BlockView::If { id, next, else_seen: false }) => line_or_tagged(
                        calls::chain(
                            Ok(
                                blocks::numbered("  jmp __if"@, id, "_end\n"@) + blocks::clause_label(id, next)
                                    + ":\n"@,
                            ),
                            blocks::condition_text(
                                kb,
                                src.labels,
                                cond,
                                blocks::clause_label(id, next + 1),
                                false,
                            ),
                        ),
                        line,
                        raw,
                        LowerView {
                            stack: st.stack.drop_last().push(
                                BlockView::If { id, next: next + 1, else_seen: false },
                            ),
                            ..st
                        },
                    ),
                    _ => Err(line_error(line, "`.elseif` without an open `.if`"@)),
                },
            ),
            None => if t == ".else"@ {
                Some(
                    match top(st) {
                        Some(BlockView::If { id, next, else_seen: false }) => plain(
                            blocks::numbered("  jmp __if"@, id, "_end\n"@) + blocks::clause_label(id, next)
                                + ":\n"@,
                            LowerView {
                                stack: st.stack.drop_last().push(
                                    BlockView::If { id, next, else_seen: true },
                                ),
                                ..st
                            },
                        ),
                        _ => Err(line_error(line, "`.else` without an open `.if`"@)),
                    },
                )
            } else if t == ".endif"@ {
                Some(
                    match top(st) {
                        Some(BlockView::If { id, next, else_seen }) => plain(
                            (if else_seen {
                                Seq::empty()
                            } else {
                                blocks::clause_label(id, next) + ":\n"@
                            }) + blocks::numbered("__if"@, id, "_end:\n"@),
                            without_block(st),
                        ),
                        _ => Err(line_error(line, "`.endif` without an open `.if`"@)),
                    },
                )
            } else {
                None
            },
        },
    }
}

/// A line of a `.while` or `.repeat` block. `None` if `t` is none.
pub open spec fn while_line(
    kb: &Kb,
    src: SourceView,
    st: LowerView,
    t: Seq<char>,
    raw: Seq<char>,
    line: int,
) -> Option<Result<LineView, Seq<char>>> {
    match lex::strip_keyword(t, ".while"@) {
        Some(cond) => Some(
            line_or_tagged(
                calls::chain(
                    Ok(blocks::numbered("__while"@, st.ctr, "_top:\n"@)),
                    blocks::condition_text(
                        kb,
                        src.labels,
                        cond,
                        blocks::numbered("__while"@, st.ctr, "_end"@),
                        false,
                    ),
                ),
                line,
                raw,
                with_block(st, BlockView::While { id: st.ctr }),
            ),
        ),
        None => if t == ".endw"@ {
            Some(
                match top(st) {
                    Some(BlockView::While { id }) => plain(
                        blocks::numbered("  jmp __while"@, id, "_top\n"@) + blocks::numbered(
                            "__while"@,
                            id,
                            "_end:\n"@,
                        ),
                        without_block(st),
                    ),
                    _ => Err(line_error(line, "`.endw` without an open `.while`"@)),
                },
            )
        } else if t == ".repeat"@ {
            Some(
                plain(
                    blocks::numbered("__repeat"@, st.ctr, "_top:\n"@),
                    with_block(st, BlockView::Repeat { id: st.ctr }),
                ),
            )
        } else {
            match lex::strip_keyword(t, ".until"@) {
                Some(cond) => Some(
                    match top(st) {
                        Some(BlockView::Repeat { id }) => line_or_tagged(
                            calls::chain(
                                Ok(blocks::numbered("__repeat"@, id, "_test:\n"@)),
                                calls::chain(
                                    blocks::condition_text(
                                        kb,
                                        src.labels,
                                        cond,
                                        blocks::numbered("__repeat"@, id, "_top"@),
                                        false,
                                    ),
                                    Ok(blocks::numbered("__repeat"@, id, "_end:\n"@)),
                                ),
                            ),
                            line,
                            raw,
                            without_block(st),
                        ),
                        _ => Err(line_error(line, "`.until` without an open `.repeat`"@)),
                    },
                ),
                None => None,
            }
        },
    }
}

/// The opening of a `.for` loop: the register, set to the start, and the test
/// against the end. Its operands are resolved without a line tag.
pub open spec fn for_line(kb: &Kb, src: SourceView, st: LowerView, rest: Seq<char>, line: int) -> Result<
    LineView,
    Seq<char>,
> {
    let eq = text::find(rest, '=');
    let range = rest.skip(eq + 1);
    let to = text::find_text(range, " to "@);
    if eq >= rest.len() {
        Err(line_error(line, "`.for` wants `reg = start to end`"@))
    } else if to < 0 {
        Err(line_error(line, "`.for` wants `start to end`"@))
    } else {
        match operands::resolved(kb, src.labels, text::trim(rest.take(eq))) {
            Err(m) => Err(m),
            Ok(reg) => match operands::resolved(kb, src.labels, text::trim(range.take(to))) {
                Err(m) => Err(m),
                Ok(start) => match operands::resolved(kb, src.labels, text::trim(range.skip(to + 4))) {
                    Err(m) => Err(m),
                    Ok(end) => plain(
                        "  mov "@ + reg + ", "@ + start + blocks::numbered(
                            "\n__for"@,
                            st.ctr,
                            "_top:\n"@,
                        ) + "  cmp "@ + reg + ", "@ + end + blocks::numbered(
                            "\n  ja __for"@,
                            st.ctr,
                            "_end\n"@,
                        ),
                        with_block(st, BlockView::For { id: st.ctr, reg }),
                    ),
                },
            },
        }
    }
}

/// `.break` or `.continue` (`brk` selects which), perhaps with an `if <cond>`.
pub open spec fn jump_line(
    kb: &Kb,
    src: SourceView,
    st: LowerView,
    rest: Seq<char>,
    brk: bool,
    raw: Seq<char>,
    line: int,
) -> Result<LineView, Seq<char>> {
    let word = if brk {
        "break"@
    } else {
        "continue"@
    };
    match blocks::innermost_loop(st.stack) {
        None => Err(line_error(line, "`."@ + word + "` outside a loop"@)),
        Some((cont, end)) => {
            let target = if brk {
                end
            } else {
                cont
            };
            let r = text::trim(rest);
            if r.len() == 0 {
                plain("  jmp "@ + target + "\n"@, st)
            } else {
                match lex::strip_keyword(r, "if"@) {
                    Some(cond) => line_or_tagged(
                        blocks::condition_text(kb, src.labels, cond, target, true),
                        line,
                        raw,
                        st,
                    ),
                    None => Err(
                        line_error(line, "`."@ + word + "` expects nothing or `if <cond>`"@),
                    ),
                }
            }
        },
    }
}

/// A line of a `.for` or `.forever` block, or one that leaves a loop. `None` if
/// `t` is none.
pub open spec fn loop_line(
    kb: &Kb,
    src: SourceView,
    st: LowerView,
    t: Seq<char>,
    raw: Seq<char>,
    line: int,
) -> Option<Result<LineView, Seq<char>>> {
    match lex::strip_keyword(t, ".for"@) {
        Some(rest) => Some(for_line(kb, src, st, rest, line)),
        None => if t == ".forever"@ {
            Some(
                plain(
                    blocks::numbered("__forever"@, st.ctr, "_top:\n"@),
                    with_block(st, BlockView::Forever { id: st.ctr }),
                ),
            )
        } else if t == ".endfor"@ {
            Some(
                match top(st) {
                    Some(BlockView::For { id, reg }) => plain(
                        blocks::numbered("__for"@, id, "_cont:\n  inc "@) + reg + blocks::numbered(
                            "\n  jmp __for"@,
                            id,
                            "_top\n"@,
                        ) + blocks::numbered("__for"@, id, "_end:\n"@),
                        without_block(st),
                    ),
                    Some(BlockView::Forever { id }) => plain(
                        blocks::numbered("  jmp __forever"@, id, "_top\n"@) + blocks::numbered(
                            "__forever"@,
                            id,
                            "_end:\n"@,
                        ),
                        without_block(st),
                    ),
                    _ => Err(line_error(line, "`.endfor` without an open `.for`/`.forever`"@)),
                },
            )
        } else {
            match lex::strip_keyword(t, ".break"@) {
                Some(rest) => Some(jump_line(kb, src, st, rest, true, raw, line)),
                None => match lex::strip_keyword(t, ".continue"@) {
                    Some(rest) => Some(jump_line(kb, src, st, rest, false, raw, line)),
                    None => None,
                },
            }
        },
    }
}

/// A `proc` header.
pub open spec fn proc_open_line(src: SourceView, st: LowerView, rest: Seq<char>, line: int) -> Result<
    LineView,
    Seq<char>,
> {
    let h = contract::proc_header(rest);
    let frame = if h.frame {
        blocks::frame_from(src.lines, line, 0)
    } else {
        0
    };
    if blocks::innermost_proc(st.stack) is Some {
        Err(line_error(line, "`proc` inside a `proc` — close the first with `endproc`"@))
    } else if h.name.len() == 0 {
        Err(line_error(line, "`proc` needs a name"@))
    } else {
        plain(
            blocks::prologue(h.name, h.uses, frame),
            LowerView { stack: st.stack.push(BlockView::Proc { uses: h.uses, frame }), ..st },
        )
    }
}

/// A line of a procedure: its header, its end, or a return from it. `None` if `t`
/// is none.
pub open spec fn proc_line(src: SourceView, st: LowerView, t: Seq<char>, line: int) -> Option<
    Result<LineView, Seq<char>>,
> {
    match lex::strip_keyword(t, "proc"@) {
        Some(rest) => Some(proc_open_line(src, st, rest, line)),
        None => if t == "endproc"@ {
            Some(
                match top(st) {
                    Some(BlockView::Proc { uses, frame }) => plain(
                        blocks::epilogue(uses, frame),
                        without_block(st),
                    ),
                    _ => Err(line_error(line, "`endproc` without an open `proc`"@)),
                },
            )
        } else if t == ".ret"@ || t == "ret"@ {
            Some(
                match blocks::innermost_proc(st.stack) {
                    Some((uses, frame)) => plain(blocks::epilogue(uses, frame), st),
                    None => if t == ".ret"@ {
                        Err(line_error(line, "`.ret` outside a `proc`"@))
                    } else {
                        plain("  ret\n"@, st)
                    },
                },
            )
        } else {
            None
        },
    }
}

/// Any other line: an unexpanded include is a no-op, an assembler directive
/// passes through, data is lowered, and an instruction has its operands resolved.
pub open spec fn other_line(
    kb: &Kb,
    src: SourceView,
    st: LowerView,
    body: Seq<char>,
    t: Seq<char>,
    raw: Seq<char>,
    line: int,
) -> Result<LineView, Seq<char>> {
    if decls::included_file(raw) is Some {
        plain("\n"@, st)
    } else if t[0] == '.' {
        plain(body + "\n"@, st)
    } else {
        match data::data_line(t) {
            Some(d) => line_or_tagged(data::data_text(kb, src.labels, d), line, raw, st),
            None => line_or_tagged(
                calls::chain(rewritten(kb, src.labels, body), Ok("\n"@)),
                line,
                raw,
                st,
            ),
        }
    }
}

/// What the source line `raw`, numbered `line`, lowers to.
#[verifier::opaque]
pub open spec fn lower_line(kb: &Kb, src: SourceView, st: LowerView, raw: Seq<char>, line: int) -> Result<
    LineView,
    Seq<char>,
> {
    let body = lex::strip_comment(raw);
    let t = text::trim(body);
    match st.open_string {
        Some((ls, wide)) => Ok(string_block_line(st, ls, wide, raw)),
        None => if text::same_ignoring_case(t, ".asciistring"@) {
            plain(Seq::empty(), LowerView { open_string: Some((Seq::empty(), false)), ..st })
        } else if text::same_ignoring_case(t, ".widestring"@) {
            plain(Seq::empty(), LowerView { open_string: Some((Seq::empty(), true)), ..st })
        } else {
            match st.open_struct {
                Some(acc) => struct_block_line(kb, st, acc, t, line),
                None => if t.len() == 0 {
                    plain("\n"@, st)
                } else {
                    match decls::struct_open(t) {
                        Some((label, ty)) => plain(
                            Seq::empty(),
                            LowerView { open_struct: Some((label, ty, Seq::empty())), ..st },
                        ),
                        None => code_line(kb, src, st, body, t, raw, line),
                    }
                },
            }
        },
    }
}

/// What a line outside string blocks and struct instances lowers to.
#[verifier::opaque]
pub open spec fn code_line(
    kb: &Kb,
    src: SourceView,
    st: LowerView,
    body: Seq<char>,
    t: Seq<char>,
    raw: Seq<char>,
    line: int,
) -> Result<LineView, Seq<char>> {
    match call_line(kb, src, st, t, raw, line) {
        Some(r) => r,
        None => match if_line(kb, src, st, t, raw, line) {
            Some(r) => r,
            None => match while_line(kb, src, st, t, raw, line) {
                Some(r) => r,
                None => match loop_line(kb, src, st, t, raw, line) {
                    Some(r) => r,
                    None => match proc_line(src, st, t, line) {
                        Some(r) => r,
                        None => other_line(kb, src, st, body, t, raw, line),
                    },
                },
            },
        },
    }
}

// ── whole sources ───────────────────────────────────────────────────────────

/// How many line feeds `s` holds.
pub open spec fn line_feeds(s: Seq<char>) -> nat
    decreases s.len(),
{
    if s.len() == 0 {
        0
    } else {
        line_feeds(s.drop_last()) + if s.last() == '\n' {
            1nat
        } else {
            0nat
        }
    }
}

/// The lowered text so far, the source line of each of its lines, and the state.
pub struct Lowered {
    pub text: Seq<char>,
    pub map: Seq<int>,
    pub st: LowerView,
}

/// The start of lowering.
pub open spec fn not_lowered() -> Lowered {
    Lowered {
        text: Seq::empty(),
        map: Seq::empty(),
        st: LowerView { ctr: 0, stack: Seq::empty(), open_struct: None, open_string: None },
    }
}

/// The lowered text with the line `l`, from the source line `line`, added.
pub open spec fn add_line(low: Lowered, l: LineView, line: int) -> Lowered {
    Lowered {
        text: low.text + l.text,
        map: low.map + Seq::new(
            line_feeds(l.text),
            |i: int|
                if l.silent {
                    0
                } else {
                    line
                },
        ),
        st: l.st,
    }
}

/// The first `n` lines of the source lowered.
pub open spec fn lower_lines(kb: &Kb, src: SourceView, n: nat) -> Result<Lowered, Seq<char>>
    decreases n,
{
    if n == 0 {
        Ok(not_lowered())
    } else {
        match lower_lines(kb, src, (n - 1) as nat) {
            Err(m) => Err(m),
            Ok(low) => match lower_line(kb, src, low.st, src.lines[n - 1], n as int) {
                Err(m) => Err(m),
                Ok(l) => Ok(add_line(low, l, n as int)),
            },
        }
    }
}

/// The names of the bound COM objects.
pub open spec fn object_names(objs: Seq<(Seq<char>, Seq<char>)>) -> Seq<Seq<char>> {
    Seq::new(objs.len(), |i: int| objs[i].0)
}

/// What lowering knows of the source `src`.
pub open spec fn source_view(src: Seq<char>) -> SourceView {
    let objs = decls::com_objects(text::lines(src));
    SourceView {
        labels: decls::labels_in(text::lines(src)) + object_names(objs),
        objs,
        lines: text::lines(src),
    }
}

/// The macro-free source `src` lowered: the text, and the source line of each of
/// its lines (0 where there is none to show).
pub open spec fn lowering(kb: &Kb, src: Seq<char>) -> Result<(Seq<char>, Seq<int>), Seq<char>> {
    let sv = source_view(src);
    match lower_lines(kb, sv, sv.lines.len()) {
        Err(m) => Err(m),
        Ok(low) => match low.st.open_struct {
            Some((label, _, _)) => Err("struct "@ + label + " is missing its `ends`"@),
            None => match low.st.open_string {
                Some((_, wide)) => Err(
                    "string block is missing its `"@ + string_end(wide) + "`"@,
                ),
                None => Ok((low.text, low.map)),
            },
        },
    }
}

/// The source line that the line `n` of a text comes from, by the map `map` of
/// that text; 0 where the map has none.
pub open spec fn mapped(map: Seq<int>, n: int) -> int {
    if 1 <= n <= map.len() {
        map[n - 1]
    } else {
        0
    }
}

/// The source `src` lowered, macros first.
pub open spec fn full_lowering(kb: &Kb, src: Seq<char>) -> Result<
    (Seq<char>, Seq<int>),
    Seq<char>,
> {
    match macros::macro_expansion(src) {
        Err(m) => Err(m),
        Ok((expanded, emap)) => match lowering(kb, expanded) {
            Err(m) => Err(m),
            Ok((text, lmap)) => Ok((text, lmap.map_values(|n: int| mapped(emap, n)))),
        },
    }
}

// ── lowering ────────────────────────────────────────────────────────────────

/// The state of lowering in machine terms.
struct LowerState {
    ctr: usize,
    stack: Vec<Block>,
    open_struct: Option<(Vec<char>, Vec<char>, Vec<(Vec<char>, Vec<char>)>)>,
    open_string: Option<(Vec<String>, bool)>,
}

impl LowerState {
    spec fn shown(self) -> LowerView {
        LowerView {
            ctr: self.ctr as int,
            stack: blocks::stack_view(self.stack@),
            open_struct: match self.open_struct {
                Some((l, t, f)) => Some((l@, t@, macros::pair_texts(f@))),
                None => None,
            },
            open_string: match self.open_string {
                Some((l, w)) => Some((text::strings(l@), w)),
                None => None,
            },
        }
    }

    /// After `n` lines, the block counter and the clause numbers are at most `n`.
    spec fn within(self, n: int) -> bool {
        &&& self.ctr <= n
        &&& forall|i: int|
            0 <= i < self.stack@.len() ==> (#[trigger] self.stack@[i] matches Block::If {
                next,
                ..
            } ==> next <= n)
    }
}

/// What lowering knows of the whole source, in machine terms.
struct Source<'a> {
    labels: Vec<Vec<char>>,
    objs: Vec<(Vec<char>, Vec<char>)>,
    lines: Vec<&'a [char]>,
}

impl<'a> Source<'a> {
    spec fn shown(self) -> SourceView {
        SourceView {
            labels: text::texts(self.labels@),
            objs: macros::pair_texts(self.objs@),
            lines: text::slices(self.lines@),
        }
    }
}

/// The outcome of a line that may not be of the kind asked for.
spec fn outcome(
    r: Option<Result<Vec<char>, String>>,
    before: LowerState,
    after: LowerState,
    want: Option<Result<LineView, Seq<char>>>,
    n: int,
) -> bool {
    match r {
        None => want is None && after == before,
        Some(Ok(p)) => want == Some(
            Ok::<LineView, Seq<char>>(LineView { text: p@, silent: false, st: after.shown() }),
        ) && after.within(n),
        Some(Err(m)) => want == Some(Err::<LineView, Seq<char>>(m@)),
    }
}

/// The outcome of a line.
spec fn sure_outcome(
    r: Result<Vec<char>, String>,
    after: LowerState,
    want: Result<LineView, Seq<char>>,
    n: int,
) -> bool {
    match r {
        Ok(p) => want == Ok::<LineView, Seq<char>>(
            LineView { text: p@, silent: false, st: after.shown() },
        ) && after.within(n),
        Err(m) => want == Err::<LineView, Seq<char>>(m@),
    }
}

fn line_error_text(line: usize, what: &str) -> (m: String)
    ensures
        m@ == line_error(line as int, what@),
{
    let mut m = "line ".to_owned();
    push_dec(&mut m, line as i128);
    m.append(": ");
    m.append(what);
    m
}

fn tagged_text(line: usize, raw: &[char], cause: String) -> (m: String)
    ensures
        m@ == tagged(line as int, raw@, cause@),
{
    let mut m = "line ".to_owned();
    push_dec(&mut m, line as i128);
    m.append(": `");
    push_text(&mut m, trimmed(raw));
    m.append("`: ");
    m.append(cause.as_str());
    m
}

/// The result with its error tagged by the line.
fn tag(r: Result<Vec<char>, String>, line: usize, raw: &[char]) -> (t: Result<Vec<char>, String>)
    ensures
        (match t {
            Ok(p) => operands::result_view(r) == Ok::<Seq<char>, Seq<char>>(p@),
            Err(m) => operands::result_view(r) matches Err(c) && m@ == tagged(line as int, raw@, c),
        }),
{
    match r {
        Ok(p) => Ok(p),
        Err(c) => Err(tagged_text(line, raw, c)),
    }
}

/// A text in front of a result.
fn prepend(head: Vec<char>, r: Result<Vec<char>, String>) -> (t: Result<Vec<char>, String>)
    ensures
        operands::result_view(t) == operands::put_before(head@, operands::result_view(r)),
{
    match r {
        Ok(p) => {
            let mut o = head;
            push_all(&mut o, &p);
            Ok(o)
        },
        Err(m) => Err(m),
    }
}

proof fn lemma_within_grows(st: LowerState, n: int, m: int)
    requires
        st.within(n),
        n <= m,
    ensures
        st.within(m),
{
}

fn lower_call(kb: &Kb, src: &Source, st: &LowerState, t: &[char], raw: &[char], line: usize) -> (r:
    Option<Result<Vec<char>, String>>)
    requires
        st.within(line - 1),
    ensures
        outcome(
            r,
            *st,
            *st,
            call_line(kb, src.shown(), st.shown(), t@, raw@, line as int),
            line as int,
        ),
{
    proof {
        lemma_within_grows(*st, line - 1, line as int);
    }
    match after_keyword(t, "invoke") {
        Some(rest) => {
            let f = in_framed_proc(&st.stack);
            return Some(tag(expand_invoke(rest, kb, &src.labels, f), line, raw));
        },
        None => {},
    }
    match after_keyword(t, "comcall") {
        Some(rest) => {
            let f = in_framed_proc(&st.stack);
            return Some(tag(expand_comcall(rest, kb, &src.labels, f), line, raw));
        },
        None => {},
    }
    match after_keyword(t, "iid") {
        Some(rest) => {
            return Some(tag(emit_iid(rest, kb), line, raw));
        },
        None => {},
    }
    match after_keyword(t, "comobj") {
        Some(rest) => {
            let colon: usize = index_of(rest, ':');
            let mut o = copy_of(trimmed(slice_subrange(rest, 0, colon)));
            push_str(&mut o, ":\n  .zero 8\n");
            return Some(Ok(o));
        },
        None => {},
    }
    match parse_method_call(t, &src.objs) {
        Some((obj, iface, method, args)) => {
            let mut o = chars_of("[rip + ");
            push_all(&mut o, obj);
            push_str(&mut o, "], ");
            push_all(&mut o, iface);
            push_str(&mut o, ", ");
            push_all(&mut o, method);
            if args.len() > 0 {
                push_str(&mut o, ", ");
                push_all(&mut o, args);
            }
            let f = in_framed_proc(&st.stack);
            Some(tag(expand_comcall(&o, kb, &src.labels, f), line, raw))
        },
        None => None,
    }
}

/// Open a block under the next id.
fn open_block(st: &mut LowerState, b: Block)
    requires
        old(st).ctr < usize::MAX,
    ensures
        final(st).shown() == with_block(old(st).shown(), b@),
        final(st).ctr == old(st).ctr + 1,
        final(st).stack@ == old(st).stack@.push(b),
        final(st).open_struct == old(st).open_struct,
        final(st).open_string == old(st).open_string,
{
    st.ctr = st.ctr + 1;
    let ghost before = blocks::stack_view(st.stack@);
    st.stack.push(b);
    assert(blocks::stack_view(st.stack@) =~= before.push(b@));
}

/// Close the innermost block.
fn close_block(st: &mut LowerState) -> (r: Option<Block>)
    ensures
        (match r {
            Some(b) => top(old(st).shown()) == Some(b@),
            None => top(old(st).shown()) is None,
        }),
        final(st).shown() == without_block(old(st).shown()),
        r matches Some(b) ==> old(st).stack@.len() > 0 && b == old(st).stack@.last()
            && final(st).stack@ == old(st).stack@.drop_last(),
        r is None ==> final(st).stack@ == old(st).stack@,
        final(st).ctr == old(st).ctr,
        final(st).open_struct == old(st).open_struct,
        final(st).open_string == old(st).open_string,
{
    let ghost before = st.stack@;
    let r = st.stack.pop();
    proof {
        if before.len() > 0 {
            assert(blocks::stack_view(st.stack@) =~= blocks::stack_view(before).drop_last());
        } else {
            assert(blocks::stack_view(st.stack@) =~= blocks::stack_view(before));
        }
    }
    r
}

/// Put a changed block back.
fn reopen_block(st: &mut LowerState, b: Block)
    ensures
        final(st).shown() == (LowerView { stack: old(st).shown().stack.push(b@), ..old(st).shown() }),
        final(st).stack@ == old(st).stack@.push(b),
        final(st).ctr == old(st).ctr,
        final(st).open_struct == old(st).open_struct,
        final(st).open_string == old(st).open_string,
{
    let ghost before = blocks::stack_view(st.stack@);
    st.stack.push(b);
    assert(blocks::stack_view(st.stack@) =~= before.push(b@));
}

fn lower_if(kb: &Kb, src: &Source, st: &mut LowerState, t: &[char], raw: &[char], line: usize) -> (r:
    Option<Result<Vec<char>, String>>)
    requires
        old(st).within(line - 1),
        1 <= line,
    ensures
        outcome(
            r,
            *old(st),
            *final(st),
            if_line(kb, src.shown(), old(st).shown(), t@, raw@, line as int),
            line as int,
        ),
{
    match after_keyword(t, ".if") {
        Some(cond) => {
            let id: usize = st.ctr;
            open_block(st, Block::If { id, next: 1, else_seen: false });
            let target = clause_label_text(id, 1);
            return Some(tag(cond_jump(cond, &target, false, kb, &src.labels), line, raw));
        },
        None => {},
    }
    match after_keyword(t, ".elseif") {
        Some(cond) => {
            let b = close_block(st);
            return Some(
                match b {
                    Some(Block::If { id, next, else_seen }) => {
                        if else_seen {
                            Err(line_error_text(line, "`.elseif` without an open `.if`"))
                        } else {
                            assert(old(st).stack@[old(st).stack@.len() - 1] is If);
                            reopen_block(st, Block::If { id, next: next + 1, else_seen: false });
                            let mut o = numbered_text("  jmp __if", id, "_end\n");
                            let c = clause_label_text(id, next as u128);
                            push_all(&mut o, &c);
                            push_str(&mut o, ":\n");
                            let target = clause_label_text(id, next as u128 + 1);
                            let j = cond_jump(cond, &target, false, kb, &src.labels);
                            tag(prepend(o, j), line, raw)
                        }
                    },
                    _ => Err(line_error_text(line, "`.elseif` without an open `.if`")),
                },
            );
        },
        None => {},
    }
    if is(t, ".else") {
        let b = close_block(st);
        return Some(
            match b {
                Some(Block::If { id, next, else_seen }) => {
                    if else_seen {
                        Err(line_error_text(line, "`.else` without an open `.if`"))
                    } else {
                        assert(old(st).stack@[old(st).stack@.len() - 1] is If);
                        reopen_block(st, Block::If { id, next, else_seen: true });
                        let mut o = numbered_text("  jmp __if", id, "_end\n");
                        let c = clause_label_text(id, next as u128);
                        push_all(&mut o, &c);
                        push_str(&mut o, ":\n");
                        Ok(o)
                    }
                },
                _ => Err(line_error_text(line, "`.else` without an open `.if`")),
            },
        );
    }
    if is(t, ".endif") {
        let b = close_block(st);
        return Some(
            match b {
                Some(Block::If { id, next, else_seen }) => {
                    let mut o: Vec<char> = Vec::new();
                    if !else_seen {
                        o = clause_label_text(id, next as u128);
                        push_str(&mut o, ":\n");
                    }
                    let e = numbered_text("__if", id, "_end:\n");
                    push_all(&mut o, &e);
                    assert(o@ =~= (if else_seen {
                        Seq::empty()
                    } else {
                        blocks::clause_label(id as int, next as int) + ":\n"@
                    }) + blocks::numbered("__if"@, id as int, "_end:\n"@));
                    Ok(o)
                },
                _ => Err(line_error_text(line, "`.endif` without an open `.if`")),
            },
        );
    }
    None
}

fn lower_while(kb: &Kb, src: &Source, st: &mut LowerState, t: &[char], raw: &[char], line: usize) -> (r:
    Option<Result<Vec<char>, String>>)
    requires
        old(st).within(line - 1),
        1 <= line,
    ensures
        outcome(
            r,
            *old(st),
            *final(st),
            while_line(kb, src.shown(), old(st).shown(), t@, raw@, line as int),
            line as int,
        ),
{
    match after_keyword(t, ".while") {
        Some(cond) => {
            let id: usize = st.ctr;
            open_block(st, Block::While { id });
            let o = numbered_text("__while", id, "_top:\n");
            let target = numbered_text("__while", id, "_end");
            let j = cond_jump(cond, &target, false, kb, &src.labels);
            return Some(tag(prepend(o, j), line, raw));
        },
        None => {},
    }
    if is(t, ".endw") {
        let b = close_block(st);
        return Some(
            match b {
                Some(Block::While { id }) => {
                    let mut o = numbered_text("  jmp __while", id, "_top\n");
                    let e = numbered_text("__while", id, "_end:\n");
                    push_all(&mut o, &e);
                    Ok(o)
                },
                _ => Err(line_error_text(line, "`.endw` without an open `.while`")),
            },
        );
    }
    if is(t, ".repeat") {
        let id: usize = st.ctr;
        open_block(st, Block::Repeat { id });
        return Some(Ok(numbered_text("__repeat", id, "_top:\n")));
    }
    match after_keyword(t, ".until") {
        Some(cond) => {
            let b = close_block(st);
            Some(
                match b {
                    Some(Block::Repeat { id }) => {
                        let o = numbered_text("__repeat", id, "_test:\n");
                        let target = numbered_text("__repeat", id, "_top");
                        let j = match cond_jump(cond, &target, false, kb, &src.labels) {
                            Ok(p) => {
                                let mut q = p;
                                let e = numbered_text("__repeat", id, "_end:\n");
                                push_all(&mut q, &e);
                                Ok(q)
                            },
                            Err(m) => Err(m),
                        };
                        tag(prepend(o, j), line, raw)
                    },
                    _ => Err(line_error_text(line, "`.until` without an open `.repeat`")),
                },
            )
        },
        None => None,
    }
}

fn lower_for(kb: &Kb, src: &Source, st: &mut LowerState, rest: &[char], line: usize) -> (r: Result<
    Vec<char>,
    String,
>)
    requires
        old(st).within(line - 1),
        1 <= line,
    ensures
        sure_outcome(
            r,
            *final(st),
            for_line(kb, src.shown(), old(st).shown(), rest@, line as int),
            line as int,
        ),
{
    let eq: usize = index_of(rest, '=');
    if eq >= rest.len() {
        return Err(line_error_text(line, "`.for` wants `reg = start to end`"));
    }
    let range = slice_subrange(rest, eq + 1, rest.len());
    let pat = chars_of(" to ");
    proof {
        reveal_strlit(" to ");
    }
    let to: usize = match index_of_text(range, &pat) {
        Some(p) => p,
        None => return Err(line_error_text(line, "`.for` wants `start to end`")),
    };
    let size: usize = range.len();
    assert(to + 4 <= size);
    let reg = match resolve_operands(trimmed(slice_subrange(rest, 0, eq)), kb, &src.labels) {
        Ok(x) => x,
        Err(m) => return Err(m),
    };
    let start = match resolve_operands(trimmed(slice_subrange(range, 0, to)), kb, &src.labels) {
        Ok(x) => x,
        Err(m) => return Err(m),
    };
    let end = match resolve_operands(
        trimmed(slice_subrange(range, to + 4, size)),
        kb,
        &src.labels,
    ) {
        Ok(x) => x,
        Err(m) => return Err(m),
    };
    let id: usize = st.ctr;
    let mut o = chars_of("  mov ");
    push_all(&mut o, &reg);
    push_str(&mut o, ", ");
    push_all(&mut o, &start);
    let a = numbered_text("\n__for", id, "_top:\n");
    push_all(&mut o, &a);
    push_str(&mut o, "  cmp ");
    push_all(&mut o, &reg);
    push_str(&mut o, ", ");
    push_all(&mut o, &end);
    let b = numbered_text("\n  ja __for", id, "_end\n");
    push_all(&mut o, &b);
    open_block(st, Block::For { id, reg });
    Ok(o)
}

/// Lower `.break`/`.continue` (`brk` selects which) with an optional `if <cond>`
/// suffix: a `jmp` to the innermost loop's end or continue target, or a `cmp` and
/// the branch taken when the condition holds.
fn loop_jump(
    rest: &[char],
    brk: bool,
    st: &LowerState,
    kb: &Kb,
    src: &Source,
    line: usize,
    raw: &[char],
) -> (r: Result<Vec<char>, String>)
    requires
        st.within(line - 1),
    ensures
        sure_outcome(
            r,
            *st,
            jump_line(kb, src.shown(), st.shown(), rest@, brk, raw@, line as int),
            line as int,
        ),
{
    proof {
        lemma_within_grows(*st, line - 1, line as int);
    }
    let (cont, end) = match innermost_targets(&st.stack) {
        Some(x) => x,
        None => {
            let mut w = "`.".to_owned();
            w.append(
                if brk {
                    "break"
                } else {
                    "continue"
                },
            );
            w.append("` outside a loop");
            return Err(line_error_text(line, w.as_str()));
        },
    };
    let target = if brk {
        end
    } else {
        cont
    };
    let rr = trimmed(rest);
    if rr.len() == 0 {
        let mut o = chars_of("  jmp ");
        push_all(&mut o, &target);
        push_str(&mut o, "\n");
        return Ok(o);
    }
    match after_keyword(rr, "if") {
        Some(cond) => tag(cond_jump(cond, &target, true, kb, &src.labels), line, raw),
        None => {
            let mut w = "`.".to_owned();
            w.append(
                if brk {
                    "break"
                } else {
                    "continue"
                },
            );
            w.append("` expects nothing or `if <cond>`");
            Err(line_error_text(line, w.as_str()))
        },
    }
}

fn lower_loop(kb: &Kb, src: &Source, st: &mut LowerState, t: &[char], raw: &[char], line: usize) -> (r:
    Option<Result<Vec<char>, String>>)
    requires
        old(st).within(line - 1),
        1 <= line,
    ensures
        outcome(
            r,
            *old(st),
            *final(st),
            loop_line(kb, src.shown(), old(st).shown(), t@, raw@, line as int),
            line as int,
        ),
{
    match after_keyword(t, ".for") {
        Some(rest) => return Some(lower_for(kb, src, st, rest, line)),
        None => {},
    }
    if is(t, ".forever") {
        let id: usize = st.ctr;
        open_block(st, Block::Forever { id });
        return Some(Ok(numbered_text("__forever", id, "_top:\n")));
    }
    if is(t, ".endfor") {
        let b = close_block(st);
        return Some(
            match b {
                Some(Block::For { id, reg }) => {
                    let mut o = numbered_text("__for", id, "_cont:\n  inc ");
                    push_all(&mut o, &reg);
                    let a = numbered_text("\n  jmp __for", id, "_top\n");
                    push_all(&mut o, &a);
                    let e = numbered_text("__for", id, "_end:\n");
                    push_all(&mut o, &e);
                    Ok(o)
                },
                Some(Block::Forever { id }) => {
                    let mut o = numbered_text("  jmp __forever", id, "_top\n");
                    let e = numbered_text("__forever", id, "_end:\n");
                    push_all(&mut o, &e);
                    Ok(o)
                },
                _ => Err(line_error_text(line, "`.endfor` without an open `.for`/`.forever`")),
            },
        );
    }
    match after_keyword(t, ".break") {
        Some(rest) => return Some(loop_jump(rest, true, st, kb, src, line, raw)),
        None => {},
    }
    match after_keyword(t, ".continue") {
        Some(rest) => return Some(loop_jump(rest, false, st, kb, src, line, raw)),
        None => {},
    }
    None
}

fn lower_proc(src: &Source, st: &mut LowerState, t: &[char], line: usize) -> (r: Option<
    Result<Vec<char>, String>,
>)
    requires
        old(st).within(line - 1),
        1 <= line <= src.lines@.len(),
    ensures
        outcome(
            r,
            *old(st),
            *final(st),
            proc_line(src.shown(), old(st).shown(), t@, line as int),
            line as int,
        ),
{
    match after_keyword(t, "proc") {
        Some(rest) => {
            if find_proc(&st.stack).is_some() {
                return Some(
                    Err(
                        line_error_text(
                            line,
                            "`proc` inside a `proc` — close the first with `endproc`",
                        ),
                    ),
                );
            }
            let h = parse_proc(rest);
            if h.name.as_str().unicode_len() == 0 {
                return Some(Err(line_error_text(line, "`proc` needs a name")));
            }
            let frame: u128 = if h.frame {
                frame_of(&src.lines, line)
            } else {
                0
            };
            let o = proc_prologue(h.name.as_str(), &h.uses, frame);
            reopen_block(st, Block::Proc { uses: h.uses, frame });
            return Some(Ok(o));
        },
        None => {},
    }
    if is(t, "endproc") {
        let b = close_block(st);
        return Some(
            match b {
                Some(Block::Proc { uses, frame }) => Ok(proc_epilogue(&uses, frame)),
                _ => Err(line_error_text(line, "`endproc` without an open `proc`")),
            },
        );
    }
    if is(t, ".ret") || is(t, "ret") {
        return Some(
            match find_proc(&st.stack) {
                Some(i) => match &st.stack[i] {
                    Block::Proc { uses, frame } => Ok(proc_epilogue(uses, *frame)),
                    _ => Ok(Vec::new()),
                },
                None => if is(t, ".ret") {
                    Err(line_error_text(line, "`.ret` outside a `proc`"))
                } else {
                    Ok(chars_of("  ret\n"))
                },
            },
        );
    }
    None
}

fn lower_other(
    kb: &Kb,
    src: &Source,
    st: &LowerState,
    body: &[char],
    t: &[char],
    raw: &[char],
    line: usize,
) -> (r: Result<Vec<char>, String>)
    requires
        st.within(line - 1),
        t@.len() > 0,
    ensures
        sure_outcome(
            r,
            *st,
            other_line(kb, src.shown(), st.shown(), body@, t@, raw@, line as int),
            line as int,
        ),
{
    proof {
        lemma_within_grows(*st, line - 1, line as int);
    }
    if include_path(raw).is_some() {
        return Ok(chars_of("\n"));
    }
    if t[0] == '.' {
        let mut o = copy_of(body);
        push_str(&mut o, "\n");
        return Ok(o);
    }
    match parse_data_line(t) {
        Some((label, kw, values)) => {
            proof {
                lemma_data_kind(t@);
            }
            tag(lower_data(label, kw, values, kb, &src.labels), line, raw)
        },
        None => {
            let p = match rewrite_line(body, kb, &src.labels) {
                Ok(x) => {
                    let mut o = x;
                    push_str(&mut o, "\n");
                    Ok(o)
                },
                Err(m) => Err(m),
            };
            tag(p, line, raw)
        },
    }
}

/// A recognised data definition has a known type.
proof fn lemma_data_kind(t: Seq<char>)
    ensures
        data::data_line(t) matches Some(d) ==> data::data_kind(d.kw) is Some,
{
}

fn lower_code(
    kb: &Kb,
    src: &Source,
    st: &mut LowerState,
    body: &[char],
    t: &[char],
    raw: &[char],
    line: usize,
) -> (r: Result<Vec<char>, String>)
    requires
        old(st).within(line - 1),
        1 <= line <= src.lines@.len(),
        t@.len() > 0,
    ensures
        sure_outcome(
            r,
            *final(st),
            code_line(kb, src.shown(), old(st).shown(), body@, t@, raw@, line as int),
            line as int,
        ),
{
    proof {
        reveal(code_line);
    }
    match lower_call(kb, src, st, t, raw, line) {
        Some(r) => return r,
        None => {},
    }
    match lower_if(kb, src, st, t, raw, line) {
        Some(r) => return r,
        None => {},
    }
    match lower_while(kb, src, st, t, raw, line) {
        Some(r) => return r,
        None => {},
    }
    match lower_loop(kb, src, st, t, raw, line) {
        Some(r) => return r,
        None => {},
    }
    match lower_proc(src, st, t, line) {
        Some(r) => return r,
        None => {},
    }
    lower_other(kb, src, st, body, t, raw, line)
}

/// A line inside a struct instance.
fn lower_struct_line(
    kb: &Kb,
    st: &mut LowerState,
    acc: (Vec<char>, Vec<char>, Vec<(Vec<char>, Vec<char>)>),
    t: &[char],
    line: usize,
) -> (r: Result<Vec<char>, String>)
    requires
        old(st).within(line - 1),
    ensures
        sure_outcome(
            r,
            *final(st),
            struct_block_line(
                kb,
                old(st).shown(),
                (acc.0@, acc.1@, macros::pair_texts(acc.2@)),
                t@,
                line as int,
            ),
            line as int,
        ),
{
    let (label, ty, fields) = acc;
    if is(t, "ends") || is(t, "endstruct") {
        st.open_struct = None;
        return match emit_struct(kb, &label, &ty, &fields) {
            Ok(p) => Ok(p),
            Err(m) => {
                let mut w = "struct ".to_owned();
                push_text(&mut w, &label);
                w.append(": ");
                w.append(m.as_str());
                Err(line_error_text(line, w.as_str()))
            },
        };
    }
    let none: Vec<char> = Vec::new();
    assert(none@ =~= Seq::empty());
    if t.len() == 0 {
        st.open_struct = Some((label, ty, fields));
        return Ok(none);
    }
    let eq: usize = index_of(t, '=');
    if eq >= t.len() {
        let mut w = "struct field needs `name = value`, got `".to_owned();
        push_text(&mut w, t);
        w.append("`");
        return Err(line_error_text(line, w.as_str()));
    }
    let a = copy_of(trimmed(slice_subrange(t, 0, eq)));
    let b = copy_of(trimmed(slice_subrange(t, eq + 1, t.len())));
    let mut fields = fields;
    let ghost before = macros::pair_texts(fields@);
    fields.push((a, b));
    assert(macros::pair_texts(fields@) =~= before.push((a@, b@)));
    st.open_struct = Some((label, ty, fields));
    Ok(none)
}

/// One source line lowered: its text and whether that is silent.
fn lower_one(kb: &Kb, src: &Source, st: &mut LowerState, raw: &[char], line: usize) -> (r: Result<
    (Vec<char>, bool),
    String,
>)
    requires
        old(st).within(line - 1),
        1 <= line <= src.lines@.len(),
    ensures
        (match r {
            Ok((p, silent)) => lower_line(
                kb,
                src.shown(),
                old(st).shown(),
                raw@,
                line as int,
            ) == Ok::<LineView, Seq<char>>(LineView { text: p@, silent, st: final(st).shown() })
                && final(st).within(line as int),
            Err(m) => lower_line(kb, src.shown(), old(st).shown(), raw@, line as int) == Err::<
                LineView,
                Seq<char>,
            >(m@),
        }),
{
    proof {
        reveal(lower_line);
    }
    let body = without_comment(raw);
    let t = trimmed(body);
    let none: Vec<char> = Vec::new();
    assert(none@ =~= Seq::empty());
    let open_string = st.open_string.take();
    match open_string {
        Some((ls, wide)) => {
            let end_kw = if wide {
                ".endwidestring"
            } else {
                ".endasciistring"
            };
            if is_ignoring_case(trimmed(raw), end_kw) {
                let acc = StringAccum { lines: ls, wide, end_kw };
                let b = emit_string_block(&acc);
                return Ok((chars_of(b.as_str()), true));
            }
            let mut ls = ls;
            let ghost before = text::strings(ls@);
            ls.push(string_of(raw));
            assert(text::strings(ls@) =~= before.push(raw@));
            st.open_string = Some((ls, wide));
            return Ok((none, false));
        },
        None => {},
    }
    if is_ignoring_case(t, ".asciistring") || is_ignoring_case(t, ".widestring") {
        let wide = !is_ignoring_case(t, ".asciistring");
        let ls: Vec<String> = Vec::new();
        assert(text::strings(ls@) =~= Seq::empty());
        st.open_string = Some((ls, wide));
        return Ok((none, false));
    }
    let open_struct = st.open_struct.take();
    match open_struct {
        Some(acc) => {
            return match lower_struct_line(kb, st, acc, t, line) {
                Ok(p) => Ok((p, false)),
                Err(m) => Err(m),
            };
        },
        None => {},
    }
    if t.len() == 0 {
        return Ok((chars_of("\n"), false));
    }
    match parse_struct_open(t) {
        Some((label, ty)) => {
            let fs: Vec<(Vec<char>, Vec<char>)> = Vec::new();
            assert(macros::pair_texts(fs@) =~= Seq::empty());
            st.open_struct = Some((copy_of(label), copy_of(ty), fs));
            return Ok((none, false));
        },
        None => {},
    }
    match lower_code(kb, src, st, body, t, raw, line) {
        Ok(p) => Ok((p, false)),
        Err(m) => Err(m),
    }
}

proof fn lemma_line_feeds_bound(s: Seq<char>)
    ensures
        line_feeds(s) <= s.len(),
    decreases s.len(),
{
    if s.len() > 0 {
        lemma_line_feeds_bound(s.drop_last());
    }
}

/// How many line feeds `s` holds.
fn count_line_feeds(s: &[char]) -> (r: usize)
    ensures
        r == line_feeds(s@),
{
    let mut n: usize = 0;
    let mut i: usize = 0;
    while i < s.len()
        invariant
            i <= s@.len(),
            n <= i,
            n == line_feeds(s@.take(i as int)),
        decreases s@.len() - i,
    {
        assert(s@.take(i as int + 1).drop_last() =~= s@.take(i as int));
        if s[i] == '\n' {
            n += 1;
        }
        i += 1;
    }
    assert(s@.take(s@.len() as int) =~= s@);
    n
}

proof fn lemma_lines_error(kb: &Kb, src: SourceView, i: nat, n: nat, m: Seq<char>)
    requires
        i <= n,
        lower_lines(kb, src, i) == Err::<Lowered, Seq<char>>(m),
    ensures
        lower_lines(kb, src, n) == Err::<Lowered, Seq<char>>(m),
    decreases n,
{
    if i < n {
        lemma_lines_error(kb, src, i, (n - 1) as nat, m);
    }
}

fn source_of<'a>(src: &'a [char]) -> (r: Source<'a>)
    ensures
        r.shown() == source_view(src@),
{
    let objs = collect_com_objs(src);
    let mut labels = collect_labels(src);
    let ghost lv = text::texts(labels@);
    let ghost ov = macros::pair_texts(objs@);
    let mut i: usize = 0;
    while i < objs.len()
        invariant
            ov == macros::pair_texts(objs@),
            i <= objs@.len(),
            text::texts(labels@) =~= lv + object_names(ov).take(i as int),
        decreases objs@.len() - i,
    {
        push_copy(&mut labels, &objs[i].0);
        i += 1;
    }
    assert(object_names(ov).take(ov.len() as int) =~= object_names(ov));
    let lines = lines_of(src);
    Source { labels, objs, lines }
}

/// Lower already-macro-expanded `src`: the text, and the 1-based expanded line of
/// each lowered line.
pub fn lower_expanded(src: &[char], kb: &Kb) -> (r: Result<(Vec<char>, Vec<usize>), String>)
    ensures
        (match r {
            Ok((t, m)) => lowering(kb, src@) == Ok::<(Seq<char>, Seq<int>), Seq<char>>(
                (t@, macros::map_view(m@)),
            ),
            Err(m) => lowering(kb, src@) == Err::<(Seq<char>, Seq<int>), Seq<char>>(m@),
        }),
{
    let source = source_of(src);
    let ghost sv = source_view(src@);
    let mut st = LowerState {
        ctr: 0,
        stack: Vec::new(),
        open_struct: None,
        open_string: None,
    };
    let mut out: Vec<char> = Vec::new();
    let mut map: Vec<usize> = Vec::new();
    assert(blocks::stack_view(st.stack@) =~= Seq::empty());
    assert(macros::map_view(map@) =~= Seq::empty());
    let mut i: usize = 0;
    while i < source.lines.len()
        invariant
            sv == source_view(src@),
            source.shown() == sv,
            i <= source.lines@.len(),
            st.within(i as int),
            lower_lines(kb, sv, i as nat) == Ok::<Lowered, Seq<char>>(
                Lowered { text: out@, map: macros::map_view(map@), st: st.shown() },
            ),
        decreases source.lines@.len() - i,
    {
        let raw = source.lines[i];
        assert(sv.lines[i as int] == raw@);
        assert(sv.lines.len() == source.lines@.len());
        match lower_one(kb, &source, &mut st, raw, i + 1) {
            Ok((p, silent)) => {
                let n: usize = count_line_feeds(&p);
                let num: usize = if silent {
                    0
                } else {
                    i + 1
                };
                push_all(&mut out, &p);
                let ghost before = macros::map_view(map@);
                let mut k: usize = 0;
                while k < n
                    invariant
                        k <= n,
                        macros::map_view(map@) =~= before + Seq::new(k as nat, |j: int| num as int),
                    decreases n - k,
                {
                    let ghost m1 = macros::map_view(map@);
                    map.push(num);
                    assert(macros::map_view(map@) =~= m1.push(num as int));
                    assert(Seq::new((k + 1) as nat, |j: int| num as int) =~= Seq::new(
                        k as nat,
                        |j: int| num as int,
                    ).push(num as int));
                    k += 1;
                }
                assert(macros::map_view(map@) =~= before + Seq::new(
                    line_feeds(p@),
                    |j: int|
                        if silent {
                            0
                        } else {
                            i + 1
                        },
                ));
            },
            Err(m) => {
                proof {
                    lemma_lines_error(kb, sv, (i + 1) as nat, sv.lines.len(), m@);
                }
                return Err(m);
            },
        }
        i += 1;
    }
    match st.open_struct {
        Some((label, _, _)) => {
            let mut m = "struct ".to_owned();
            push_text(&mut m, &label);
            m.append(" is missing its `ends`");
            return Err(m);
        },
        None => {},
    }
    match st.open_string {
        Some((_, wide)) => {
            let mut m = "string block is missing its `".to_owned();
            m.append(
                if wide {
                    ".endwidestring"
                } else {
                    ".endasciistring"
                },
            );
            m.append("`");
            return Err(m);
        },
        None => {},
    }
    Ok((out, map))
}

/// Lower `src`, also returning a map from each lowered line (0-based) back to the
/// 1-based source line it came from. User macros are expanded first; the two line
/// maps compose, so a macro's body still maps back to the invocation.
pub fn lower_mapped(src: &str, kb: &Kb) -> (r: Result<(String, Vec<usize>), String>)
    ensures
        (match r {
            Ok((t, m)) => full_lowering(kb, src@) == Ok::<(Seq<char>, Seq<int>), Seq<char>>(
                (t@, macros::map_view(m@)),
            ),
            Err(m) => full_lowering(kb, src@) == Err::<(Seq<char>, Seq<int>), Seq<char>>(m@),
        }),
{
    let sc = chars_of(src);
    let (expanded, emap) = match expand_macros(&sc) {
        Ok(x) => x,
        Err(m) => return Err(m),
    };
    let (text, lmap) = match lower_expanded(&expanded, kb) {
        Ok(x) => x,
        Err(m) => return Err(m),
    };
    let ghost want = macros::map_view(lmap@).map_values(|n: int| mapped(macros::map_view(emap@), n));
    let mut map: Vec<usize> = Vec::new();
    let mut i: usize = 0;
    while i < lmap.len()
        invariant
            want == macros::map_view(lmap@).map_values(|n: int| mapped(macros::map_view(emap@), n)),
            i <= lmap@.len(),
            macros::map_view(map@) =~= want.take(i as int),
        decreases lmap@.len() - i,
    {
        let n: usize = lmap[i];
        let v: usize = if 1 <= n && n <= emap.len() {
            emap[n - 1]
        } else {
            0
        };
        assert(v == mapped(macros::map_view(emap@), n as int));
        let ghost before = macros::map_view(map@);
        map.push(v);
        assert(macros::map_view(map@) =~= before.push(v as int));
        i += 1;
    }
    assert(macros::map_view(map@) =~= want);
    Ok((string_of(&text), map))
}

/// Lower `src` to assembler-ready Intel-syntax text.
pub fn lower(src: &str, kb: &Kb) -> (r: Result<String, String>)
    ensures
        (match r {
            Ok(t) => full_lowering(kb, src@) matches Ok((x, _)) && x == t@,
            Err(m) => full_lowering(kb, src@) == Err::<(Seq<char>, Seq<int>), Seq<char>>(m@),
        }),
{
    match lower_mapped(src, kb) {
        Ok((t, _)) => Ok(t),
        Err(m) => Err(m),
    }
}

} // verus!
