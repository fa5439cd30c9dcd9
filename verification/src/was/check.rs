//! Semantic checks of a source: argument counts, unknown names, values that do
//! not fit, and where the assembler's own complaint belongs.
use crate::text;
use crate::was::clobber;
use crate::was::contract;
use crate::was::data;
use crate::was::decls;
use crate::was::diag;
use crate::was::lex;
use crate::was::lower;
use crate::was::macros;
use crate::was::operands;
use crate::was::regs;
use crate::winkb::distance;
use crate::text::{
    byte_offset, char_is_alpha, char_is_digit, char_is_upper, chars_of, indent_of, index_of,
    index_of_text, is, is_ignoring_case, last_index_of_text, lines_of, push_dec, push_text,
    signed_dec_of, string_of, trimmed,
};
use crate::was::clobber::clobber_diags;
use crate::was::contract::proc_contract_diags;
use crate::was::data::{data_type, data_value_i64, fits_width, parse_data_line};
use crate::was::decls::{
    collect_com_objs, collect_labels, include_path, parse_method_call, push_copy,
};
use crate::was::diag::{Diag, DiagView, append_diags, push_diag};
use crate::was::lex::{after_keyword, split_line_tag, split_top_commas, without_comment};
use crate::was::lower::lower_mapped;
use crate::was::macros::{end_of_literal, is_endm, macro_names, parse_macro_def};
use crate::was::operands::{end_of_dotted, field_path, is_known, vtable_index_of};
use crate::was::regs::is_register;
use crate::winkb::distance::levenshtein;
use crate::winkb::kb::{Field, Kb, Layout, Value};
use vstd::prelude::*;
use vstd::slice::slice_subrange;

verus! {

// ── identifiers ─────────────────────────────────────────────────────────────

/// Looks like a Windows constant: upper-case snake or all caps, with a letter.
pub open spec fn constant_like(s: Seq<char>) -> bool {
    &&& s.len() > 2
    &&& exists|i: int| 0 <= i < s.len() && text::is_alpha(#[trigger] s[i])
    &&& forall|i: int|
        0 <= i < s.len() ==> text::is_upper(#[trigger] s[i]) || text::is_digit(s[i]) || s[i] == '_'
}

pub fn is_constant_like(s: &[char]) -> (r: bool)
    ensures
        r == constant_like(s@),
{
    if s.len() <= 2 {
        return false;
    }
    let mut letter = false;
    let mut i: usize = 0;
    while i < s.len()
        invariant
            i <= s@.len(),
            letter == exists|j: int| 0 <= j < i && text::is_alpha(#[trigger] s@[j]),
            forall|j: int|
                0 <= j < i ==> text::is_upper(#[trigger] s@[j]) || text::is_digit(s@[j]) || s@[j] == '_',
        decreases s@.len() - i,
    {
        let c = s[i];
        if !(char_is_upper(c) || char_is_digit(c) || c == '_') {
            assert(!(text::is_upper(s@[i as int]) || text::is_digit(s@[i as int]) || s@[i as int] == '_'));
            return false;
        }
        if char_is_alpha(c) {
            assert(text::is_alpha(s@[i as int]));
            letter = true;
        }
        i += 1;
    }
    letter
}

/// The position of the first field of `v` from `i` on whose name is nearest to
/// `head`, `best` being the nearest so far.
pub open spec fn nearest_from(v: Seq<Field>, head: Seq<char>, i: int, best: int) -> int
    decreases v.len() - i,
{
    if i >= v.len() {
        best
    } else if distance::text_distance(head, v[i].name@) < distance::text_distance(head, v[best].name@) {
        nearest_from(v, head, i + 1, i)
    } else {
        nearest_from(v, head, i + 1, best)
    }
}

/// The suggestion for a misspelt field.
pub open spec fn field_hint(l: Layout, lhs: Seq<char>, field: Seq<char>) -> Seq<char> {
    let head = field.take(text::find(field, '.'));
    if l.fields@.len() == 0 {
        Seq::empty()
    } else {
        " — did you mean '"@ + lhs + "."@ + l.fields@[nearest_from(
            l.fields@,
            head,
            1,
            0,
        )].name@ + "'?"@
    }
}

/// The nearest of two names is one of those compared, and no earlier one is
/// nearer.
proof fn lemma_nearest(v: Seq<Field>, head: Seq<char>, i: int, best: int)
    requires
        0 <= best < i <= v.len(),
    ensures
        0 <= nearest_from(v, head, i, best) < v.len(),
    decreases v.len() - i,
{
    if i < v.len() {
        if distance::text_distance(head, v[i].name@) < distance::text_distance(head, v[best].name@) {
            lemma_nearest(v, head, i + 1, i);
        } else {
            lemma_nearest(v, head, i + 1, best);
        }
    }
}

/// The finding on the identifier `tok` at the byte column `col`, if there is one:
/// a field that its struct does not have, or an unknown constant with a near one.
pub open spec fn ident_finding(
    kb: &Kb,
    labels: Seq<Seq<char>>,
    tok: Seq<char>,
    line: int,
    col: int,
) -> Seq<DiagView> {
    let dot = text::find(tok, '.');
    if dot < tok.len() {
        let lhs = tok.take(dot);
        let field = tok.skip(dot + 1);
        match kb.spec_layout(lhs) {
            Some(l) => if !regs::names_register(lhs) && !labels.contains(lhs) && field.len() > 0
                && operands::path_offset(kb, lhs, field) is None {
                seq![
                    DiagView {
                        line,
                        col,
                        message: lhs + " has no field '"@ + field + "'"@ + field_hint(
                            l,
                            lhs,
                            field,
                        ),
                    },
                ]
            } else {
                Seq::empty()
            },
            None => Seq::empty(),
        }
    } else if constant_like(tok) && !labels.contains(tok) && kb.spec_resolve(tok).len() == 0
        && kb.spec_suggest(tok, 1).len() > 0 {
        seq![
            DiagView {
                line,
                col,
                message: "unknown constant '"@ + tok + "' — did you mean '"@ + kb.spec_suggest(
                    tok,
                    1,
                )[0] + "'?"@,
            },
        ]
    } else {
        Seq::empty()
    }
}

/// The findings on the identifiers of `body` from `i` on; literals are passed
/// over.
pub open spec fn ident_findings_from(
    kb: &Kb,
    labels: Seq<Seq<char>>,
    body: Seq<char>,
    line: int,
    i: int,
) -> Seq<DiagView>
    decreases body.len() - i,
    via ident_findings_decreases
{
    if i < 0 || i >= body.len() {
        Seq::empty()
    } else if body[i] == '\'' || body[i] == '"' {
        ident_findings_from(kb, labels, body, line, macros::literal_end(body, i))
    } else if text::is_alpha(body[i]) || body[i] == '_' {
        let e = operands::dotted_end(body, i);
        ident_finding(
            kb,
            labels,
            body.subrange(i, e),
            line,
            (text::byte_len(body.take(i)) + 1) as int,
        ) + ident_findings_from(kb, labels, body, line, e)
    } else {
        ident_findings_from(kb, labels, body, line, i + 1)
    }
}

#[via_fn]
proof fn ident_findings_decreases(
    kb: &Kb,
    labels: Seq<Seq<char>>,
    body: Seq<char>,
    line: int,
    i: int,
) {
    if 0 <= i < body.len() {
        text::lemma_first_from(body, text::eq_char(body[i]), i + 1);
        let p = |c: char| !text::is_ident(c) && c != '.';
        text::lemma_first_from(body, p, i);
    }
}

fn nearest_field(v: &Vec<Field>, head: &str) -> (r: usize)
    requires
        v@.len() > 0,
    ensures
        r == nearest_from(v@, head@, 1, 0),
        r < v@.len(),
{
    let mut best: usize = 0;
    let mut d: usize = levenshtein(head, v[0].name.as_str());
    let mut i: usize = 1;
    while i < v.len()
        invariant
            best < v@.len(),
            1 <= i <= v@.len(),
            d == distance::text_distance(head@, v@[best as int].name@),
            nearest_from(v@, head@, 1, 0) == nearest_from(v@, head@, i as int, best as int),
        decreases v@.len() - i,
    {
        let e: usize = levenshtein(head, v[i].name.as_str());
        if e < d {
            best = i;
            d = e;
        }
        i += 1;
    }
    best
}

fn check_ident(
    tok: &[char],
    line: usize,
    col: usize,
    kb: &Kb,
    labels: &Vec<Vec<char>>,
    diags: &mut Vec<Diag>,
)
    ensures
        diag::diags_view(final(diags)@) == diag::diags_view(old(diags)@) + ident_finding(
            kb,
            text::texts(labels@),
            tok@,
            line as int,
            col as int,
        ),
{
    let ghost before = diag::diags_view(diags@);
    let dot: usize = index_of(tok, '.');
    if dot < tok.len() {
        let lhs = slice_subrange(tok, 0, dot);
        let field = slice_subrange(tok, dot + 1, tok.len());
        match kb.layout(lhs) {
            Some(l) => {
                if !is_register(lhs) && !is_known(labels, lhs) && field.len() > 0 && field_path(
                    kb,
                    lhs,
                    field,
                ).is_none() {
                    let mut m = string_of(lhs);
                    m.append(" has no field '");
                    push_text(&mut m, field);
                    m.append("'");
                    let ghost m0 = m@;
                    if l.fields.len() > 0 {
                        let head = string_of(slice_subrange(field, 0, index_of(field, '.')));
                        let k: usize = nearest_field(&l.fields, head.as_str());
                        let mut h = " — did you mean '".to_owned();
                        push_text(&mut h, lhs);
                        h.append(".");
                        h.append(l.fields[k].name.as_str());
                        h.append("'?");
                        m.append(h.as_str());
                    } else {
                        assert(m@ =~= m0 + Seq::<char>::empty());
                    }
                    push_diag(diags, line, col, m);
                    assert(diag::diags_view(diags@) =~= before + ident_finding(
                        kb,
                        text::texts(labels@),
                        tok@,
                        line as int,
                        col as int,
                    ));
                    return;
                }
            },
            None => {},
        }
        assert(diag::diags_view(diags@) =~= before + Seq::<DiagView>::empty());
        return;
    }
    if is_constant_like(tok) && !is_known(labels, tok) {
        let vals = kb.resolve(tok);
        let ghost vv = vals@.map_values(|v: &Value| *v);
        assert(vv.len() == vals@.len());
        if vals.len() == 0 {
            let name = string_of(tok);
            let s = kb.suggest(name.as_str(), 1);
            assert(text::strings(s@).len() == s@.len());
            if s.len() > 0 {
                assert(text::strings(s@)[0] == s@[0]@);
                let mut m = "unknown constant '".to_owned();
                push_text(&mut m, tok);
                m.append("' — did you mean '");
                m.append(s[0].as_str());
                m.append("'?");
                push_diag(diags, line, col, m);
                assert(diag::diags_view(diags@) =~= before + ident_finding(
                    kb,
                    text::texts(labels@),
                    tok@,
                    line as int,
                    col as int,
                ));
                return;
            }
        }
    }
    assert(diag::diags_view(diags@) =~= before + Seq::<DiagView>::empty());
}

/// Flag `Struct.field` typos and unknown constant-like identifiers.
fn check_idents(
    body: &[char],
    line: usize,
    kb: &Kb,
    labels: &Vec<Vec<char>>,
    diags: &mut Vec<Diag>,
)
    requires
        text::byte_len(body@) <= usize::MAX,
    ensures
        diag::diags_view(final(diags)@) == diag::diags_view(old(diags)@) + ident_findings_from(
            kb,
            text::texts(labels@),
            body@,
            line as int,
            0,
        ),
{
    let ghost lv = text::texts(labels@);
    let ghost want = diag::diags_view(diags@) + ident_findings_from(kb, lv, body@, line as int, 0);
    let mut i: usize = 0;
    while i < body.len()
        invariant
            text::byte_len(body@) <= usize::MAX,
            lv == text::texts(labels@),
            i <= body@.len(),
            diag::diags_view(diags@) + ident_findings_from(kb, lv, body@, line as int, i as int)
                =~= want,
        decreases body@.len() - i,
    {
        let c = body[i];
        if c == '\'' || c == '"' {
            i = end_of_literal(body, i);
        } else if char_is_alpha(c) || c == '_' {
            let e: usize = end_of_dotted(body, i);
            let tok = slice_subrange(body, i, e);
            let ghost before = diag::diags_view(diags@);
            proof {
                text::lemma_byte_len_take(body@, i as int, i as int + 1);
            }
            let col: usize = byte_offset(body, i) + 1;
            check_ident(tok, line, col, kb, labels, diags);
            let ghost rest = ident_findings_from(kb, lv, body@, line as int, e as int);
            let ghost f = ident_finding(kb, lv, tok@, line as int, col as int);
            assert(before + f + rest =~= before + (f + rest));
            i = e;
        } else {
            i += 1;
        }
    }
    assert(diag::diags_view(diags@) =~= want);
}

// ── lines ───────────────────────────────────────────────────────────────────

/// The byte column of the first occurrence of `p` in `body`; 1 where there is
/// none.
pub open spec fn col_of(body: Seq<char>, p: Seq<char>) -> int {
    if text::find_text(body, p) >= 0 {
        (text::byte_len(body.take(text::find_text(body, p))) + 1) as int
    } else {
        1
    }
}

/// The byte column of the last occurrence of `p` in `body`; 1 where there is
/// none.
pub open spec fn last_col_of(body: Seq<char>, p: Seq<char>) -> int {
    if text::rfind_text(body, p) >= 0 {
        (text::byte_len(body.take(text::rfind_text(body, p))) + 1) as int
    } else {
        1
    }
}

fn find_col(body: &[char], p: &[char]) -> (r: usize)
    requires
        text::byte_len(body@) < usize::MAX,
    ensures
        r == col_of(body@, p@),
{
    match index_of_text(body, p) {
        Some(i) => byte_offset(body, i) + 1,
        None => 1,
    }
}

fn find_last_col(body: &[char], p: &[char]) -> (r: usize)
    requires
        text::byte_len(body@) < usize::MAX,
    ensures
        r == last_col_of(body@, p@),
{
    match last_index_of_text(body, p) {
        Some(i) => byte_offset(body, i) + 1,
        None => 1,
    }
}

/// The finding on the number of arguments of `invoke <rest>`.
pub open spec fn invoke_finding(kb: &Kb, body: Seq<char>, rest: Seq<char>, line: int) -> Seq<
    DiagView,
> {
    let parts = lex::split_commas(rest);
    let func = text::trim(parts[0]);
    let nargs = if func.len() == 0 {
        0
    } else {
        parts.len() - 1
    };
    match kb.spec_function(func) {
        Some(f) => if f.params@.len() != nargs {
            seq![
                DiagView {
                    line,
                    col: col_of(body, func),
                    message: func + " takes "@ + text::signed_dec(f.params@.len() as int)
                        + " argument(s), got "@ + text::signed_dec(nargs),
                },
            ]
        } else {
            Seq::empty()
        },
        None => Seq::empty(),
    }
}

pub open spec fn unknown_interface(body: Seq<char>, iface: Seq<char>, line: int) -> DiagView {
    DiagView {
        line,
        col: col_of(body, iface),
        message: "unknown interface '"@ + iface + "'"@,
    }
}

pub open spec fn unknown_method(
    body: Seq<char>,
    iface: Seq<char>,
    method: Seq<char>,
    line: int,
) -> DiagView {
    DiagView {
        line,
        col: last_col_of(body, method),
        message: iface + " has no method '"@ + method + "'"@,
    }
}

/// The finding on an interface that must exist.
pub open spec fn interface_finding(kb: &Kb, body: Seq<char>, iface: Seq<char>, line: int) -> Seq<
    DiagView,
> {
    if kb.spec_interface(iface) is None {
        seq![unknown_interface(body, iface, line)]
    } else {
        Seq::empty()
    }
}

/// The finding on a method that must exist.
pub open spec fn method_finding(
    kb: &Kb,
    body: Seq<char>,
    iface: Seq<char>,
    method: Seq<char>,
    line: int,
) -> Seq<DiagView> {
    if operands::com_method(kb, iface, method) is None {
        seq![unknown_method(body, iface, method, line)]
    } else {
        Seq::empty()
    }
}

/// The finding on `comcall <rest>`: the interface and the method must exist.
pub open spec fn comcall_finding(kb: &Kb, body: Seq<char>, rest: Seq<char>, line: int) -> Seq<
    DiagView,
> {
    let parts = lex::split_commas(rest);
    if parts.len() < 3 {
        Seq::empty()
    } else {
        let iface = text::trim(parts[1]);
        let method = text::trim(parts[2]);
        if kb.spec_interface(iface) is None {
            seq![unknown_interface(body, iface, line)]
        } else {
            method_finding(kb, body, iface, method, line)
        }
    }
}

/// The findings on the values `vals` from `i` on that do not fit their field.
pub open spec fn width_findings_from(
    body: Seq<char>,
    kw: Seq<char>,
    width: int,
    vals: Seq<Seq<char>>,
    line: int,
    i: int,
) -> Seq<DiagView>
    decreases vals.len() - i,
{
    if i >= vals.len() {
        Seq::empty()
    } else {
        let v = text::trim(vals[i]);
        let rest = width_findings_from(body, kw, width, vals, line, i + 1);
        match data::literal_value(v) {
            Some(n) => if data::fits(n, width as nat) {
                rest
            } else {
                seq![
                    DiagView {
                        line,
                        col: col_of(body, v),
                        message: text::signed_dec(n) + " doesn't fit a "@ + text::signed_dec(width)
                            + "-byte "@ + kw + " field"@,
                    },
                ] + rest
            },
            None => rest,
        }
    }
}

/// The state of the scan: whether a macro definition is open, and a string block
/// (and whether it is a wide one).
pub struct CheckScan {
    pub in_macro: bool,
    pub open_string: Option<bool>,
}

/// What a line of code, `t` within `body`, is flagged for.
pub open spec fn code_findings(
    kb: &Kb,
    labels: Seq<Seq<char>>,
    objs: Seq<(Seq<char>, Seq<char>)>,
    body: Seq<char>,
    t: Seq<char>,
    line: int,
) -> Seq<DiagView> {
    let first = match lex::strip_keyword(t, "invoke"@) {
        Some(rest) => invoke_finding(kb, body, rest, line),
        None => Seq::empty(),
    };
    first + match lex::strip_keyword(t, "comcall"@) {
        Some(rest) => comcall_finding(kb, body, rest, line),
        None => match lex::strip_keyword(t, "iid"@) {
            Some(rest) => interface_finding(kb, body, text::trim(rest), line),
            None => match lex::strip_keyword(t, "comobj"@) {
                Some(rest) => if text::find(rest, ':') < rest.len() {
                    interface_finding(kb, body, text::trim(rest.skip(text::find(rest, ':') + 1)), line)
                } else {
                    Seq::empty()
                },
                None => match decls::method_call(t, objs) {
                    Some(c) => method_finding(kb, body, c.iface, c.method, line),
                    None => match data::data_line(t) {
                        Some(d) => width_findings_from(
                            body,
                            d.kw,
                            (data::data_kind(d.kw)->0).1,
                            lex::split_commas(d.values),
                            line,
                            0,
                        ),
                        None => if t[0] == '.' {
                            Seq::empty()
                        } else {
                            ident_findings_from(kb, labels, body, line, 0)
                        },
                    },
                },
            },
        },
    }
}

/// What the line `raw` is flagged for, and the scan behind it. The text of string
/// blocks and macro definitions is not code; includes and procedure boundaries
/// are looked at elsewhere.
pub open spec fn check_line(
    kb: &Kb,
    labels: Seq<Seq<char>>,
    objs: Seq<(Seq<char>, Seq<char>)>,
    st: CheckScan,
    raw: Seq<char>,
    line: int,
) -> (Seq<DiagView>, CheckScan) {
    let body = lex::strip_comment(raw);
    let t = text::trim(body);
    match st.open_string {
        Some(wide) => (
            Seq::empty(),
            if text::same_ignoring_case(text::trim(raw), lower::string_end(wide)) {
                CheckScan { open_string: None, ..st }
            } else {
                st
            },
        ),
        None => if text::same_ignoring_case(t, ".asciistring"@) {
            (Seq::empty(), CheckScan { open_string: Some(false), ..st })
        } else if text::same_ignoring_case(t, ".widestring"@) {
            (Seq::empty(), CheckScan { open_string: Some(true), ..st })
        } else if decls::included_file(raw) is Some || t.len() == 0 {
            (Seq::empty(), st)
        } else if macros::macro_header(t) is Some {
            (Seq::empty(), CheckScan { in_macro: true, ..st })
        } else if text::same_ignoring_case(t, "endm"@) {
            (Seq::empty(), CheckScan { in_macro: false, ..st })
        } else if st.in_macro || lex::strip_keyword(t, "proc"@) is Some || t == "endproc"@ {
            (Seq::empty(), st)
        } else {
            (code_findings(kb, labels, objs, body, t, line), st)
        },
    }
}

/// The findings on the lines `v`, numbered from 1, and the scan behind them.
pub open spec fn check_lines(
    kb: &Kb,
    labels: Seq<Seq<char>>,
    objs: Seq<(Seq<char>, Seq<char>)>,
    v: Seq<Seq<char>>,
) -> (Seq<DiagView>, CheckScan)
    decreases v.len(),
{
    if v.len() == 0 {
        (Seq::empty(), CheckScan { in_macro: false, open_string: None })
    } else {
        let (before, st) = check_lines(kb, labels, objs, v.drop_last());
        let (found, st1) = check_line(kb, labels, objs, st, v.last(), v.len() as int);
        (before + found, st1)
    }
}

/// The names that are no unknown constants: labels, macros and COM objects.
pub open spec fn known_names(src: Seq<char>) -> Seq<Seq<char>> {
    decls::labels_in(text::lines(src)) + macros::names_defined(text::lines(src)) + lower::object_names(decls::com_objects(text::lines(src)))
}

/// The semantic findings on `src`.
pub open spec fn semantic_findings(kb: &Kb, src: Seq<char>) -> Seq<DiagView> {
    check_lines(kb, known_names(src), decls::com_objects(text::lines(src)), text::lines(src)).0
}

// ── the assembler's complaint ───────────────────────────────────────────────

/// A finding on `line` of `src` (0 for the whole file): its column is that of the
/// first character that is no white space.
pub open spec fn located(src: Seq<char>, line: int, message: Seq<char>) -> DiagView {
    DiagView {
        line,
        col: if line == 0 {
            0
        } else if line <= text::lines(src).len() {
            contract::start_col(text::lines(src)[line - 1])
        } else {
            1
        },
        message,
    }
}

/// The finding on lowering and assembling `src`: a lowering error carries its
/// source line; the assembler's complaint `refused` about the lowered text
/// carries a lowered line, which is mapped back.
pub open spec fn build_findings(kb: &Kb, src: Seq<char>, refused: Option<Seq<char>>) -> Seq<
    DiagView,
> {
    match lower::full_lowering(kb, src) {
        Err(m) => {
            let (line, msg) = lex::line_tag(m);
            seq![
                located(
                    src,
                    match line {
                        Some(n) => n,
                        None => 0,
                    },
                    msg,
                ),
            ]
        },
        Ok((_, map)) => match refused {
            None => Seq::empty(),
            Some(m) => {
                let (lowered, msg) = lex::line_tag(m);
                seq![
                    located(
                        src,
                        match lowered {
                            Some(n) => if n == 0 {
                                lower::mapped(map, 1)
                            } else {
                                lower::mapped(map, n)
                            },
                            None => 0,
                        },
                        msg,
                    ),
                ]
            },
        },
    }
}

/// All findings on `src`.
pub open spec fn all_findings(kb: &Kb, src: Seq<char>, refused: Option<Seq<char>>) -> Seq<
    DiagView,
> {
    semantic_findings(kb, src) + build_findings(kb, src, refused) + clobber::clobber_report(src)
        + contract::contract_findings(src)
}

// ── the scan ────────────────────────────────────────────────────────────────

/// Flag the number of arguments of an `invoke`.
fn check_invoke(kb: &Kb, body: &[char], rest: &[char], line: usize, diags: &mut Vec<Diag>)
    requires
        text::byte_len(body@) < usize::MAX,
    ensures
        diag::diags_view(final(diags)@) == diag::diags_view(old(diags)@) + invoke_finding(
            kb,
            body@,
            rest@,
            line as int,
        ),
{
    let ghost before = diag::diags_view(diags@);
    let parts = split_top_commas(rest);
    assert(text::slices(parts@)[0] == parts@[0]@);
    assert(lex::split_commas(rest@).len() == parts@.len());
    let func = trimmed(parts[0]);
    let nargs: usize = if func.len() == 0 {
        0
    } else {
        parts.len() - 1
    };
    match kb.function(func) {
        Some(f) => {
            if f.params.len() != nargs {
                let col: usize = find_col(body, func);
                let mut m = string_of(func);
                m.append(" takes ");
                push_dec(&mut m, f.params.len() as i128);
                m.append(" argument(s), got ");
                push_dec(&mut m, nargs as i128);
                push_diag(diags, line, col, m);
                assert(diag::diags_view(diags@) =~= before + invoke_finding(
                    kb,
                    body@,
                    rest@,
                    line as int,
                ));
                return;
            }
        },
        None => {},
    }
    assert(diag::diags_view(diags@) =~= before + Seq::<DiagView>::empty());
}

fn flag_interface(body: &[char], iface: &[char], line: usize, diags: &mut Vec<Diag>)
    requires
        text::byte_len(body@) < usize::MAX,
    ensures
        diag::diags_view(final(diags)@) == diag::diags_view(old(diags)@) + seq![
            unknown_interface(body@, iface@, line as int),
        ],
{
    let ghost before = diag::diags_view(diags@);
    let col: usize = find_col(body, iface);
    let mut m = "unknown interface '".to_owned();
    push_text(&mut m, iface);
    m.append("'");
    push_diag(diags, line, col, m);
    assert(diag::diags_view(diags@) =~= before + seq![unknown_interface(body@, iface@, line as int)]);
}

fn check_interface(kb: &Kb, body: &[char], iface: &[char], line: usize, diags: &mut Vec<Diag>)
    requires
        text::byte_len(body@) < usize::MAX,
    ensures
        diag::diags_view(final(diags)@) == diag::diags_view(old(diags)@) + interface_finding(
            kb,
            body@,
            iface@,
            line as int,
        ),
{
    if kb.interface(iface).is_none() {
        flag_interface(body, iface, line, diags);
    } else {
        assert(diag::diags_view(diags@) =~= diag::diags_view(diags@) + Seq::<DiagView>::empty());
    }
}

fn check_method(
    kb: &Kb,
    body: &[char],
    iface: &[char],
    method: &[char],
    line: usize,
    diags: &mut Vec<Diag>,
)
    requires
        text::byte_len(body@) < usize::MAX,
    ensures
        diag::diags_view(final(diags)@) == diag::diags_view(old(diags)@) + method_finding(
            kb,
            body@,
            iface@,
            method@,
            line as int,
        ),
{
    let ghost before = diag::diags_view(diags@);
    if vtable_index_of(kb, iface, method).is_none() {
        let col: usize = find_last_col(body, method);
        let mut m = string_of(iface);
        m.append(" has no method '");
        push_text(&mut m, method);
        m.append("'");
        push_diag(diags, line, col, m);
        assert(diag::diags_view(diags@) =~= before + method_finding(
            kb,
            body@,
            iface@,
            method@,
            line as int,
        ));
    } else {
        assert(diag::diags_view(diags@) =~= before + Seq::<DiagView>::empty());
    }
}

fn check_comcall(kb: &Kb, body: &[char], rest: &[char], line: usize, diags: &mut Vec<Diag>)
    requires
        text::byte_len(body@) < usize::MAX,
    ensures
        diag::diags_view(final(diags)@) == diag::diags_view(old(diags)@) + comcall_finding(
            kb,
            body@,
            rest@,
            line as int,
        ),
{
    let parts = split_top_commas(rest);
    let ghost pv = lex::split_commas(rest@);
    assert(pv.len() == parts@.len());
    if parts.len() < 3 {
        assert(diag::diags_view(diags@) =~= diag::diags_view(diags@) + Seq::<DiagView>::empty());
        return;
    }
    assert(pv[1] == parts@[1]@ && pv[2] == parts@[2]@);
    let iface = trimmed(parts[1]);
    let method = trimmed(parts[2]);
    if kb.interface(iface).is_none() {
        flag_interface(body, iface, line, diags);
    } else {
        check_method(kb, body, iface, method, line, diags);
    }
}

fn check_widths(
    body: &[char],
    kw: &[char],
    width: usize,
    values: &[char],
    line: usize,
    diags: &mut Vec<Diag>,
)
    requires
        text::byte_len(body@) < usize::MAX,
        width >= 1,
    ensures
        diag::diags_view(final(diags)@) == diag::diags_view(old(diags)@) + width_findings_from(
            body@,
            kw@,
            width as int,
            lex::split_commas(values@),
            line as int,
            0,
        ),
{
    let parts = split_top_commas(values);
    let ghost pv = lex::split_commas(values@);
    let ghost want = diag::diags_view(diags@) + width_findings_from(
        body@,
        kw@,
        width as int,
        pv,
        line as int,
        0,
    );
    let mut i: usize = 0;
    while i < parts.len()
        invariant
            text::byte_len(body@) < usize::MAX,
            width >= 1,
            text::slices(parts@) == pv,
            i <= parts@.len(),
            diag::diags_view(diags@) + width_findings_from(
                body@,
                kw@,
                width as int,
                pv,
                line as int,
                i as int,
            ) =~= want,
        decreases parts@.len() - i,
    {
        assert(pv[i as int] == parts@[i as int]@);
        let v = trimmed(parts[i]);
        match data_value_i64(v) {
            Some(n) => {
                if !fits_width(n, width) {
                    let ghost before = diag::diags_view(diags@);
                    let col: usize = find_col(body, v);
                    let d = signed_dec_of(n);
                    let mut m = string_of(&d);
                    m.append(" doesn't fit a ");
                    push_dec(&mut m, width as i128);
                    m.append("-byte ");
                    push_text(&mut m, kw);
                    m.append(" field");
                    push_diag(diags, line, col, m);
                    let ghost rest = width_findings_from(
                        body@,
                        kw@,
                        width as int,
                        pv,
                        line as int,
                        i + 1,
                    );
                    let ghost x = DiagView { line: line as int, col: col as int, message: m@ };
                    assert(before.push(x) + rest =~= before + (seq![x] + rest));
                }
            },
            None => {},
        }
        i += 1;
    }
    assert(diag::diags_view(diags@) =~= want);
}

fn check_code(
    kb: &Kb,
    labels: &Vec<Vec<char>>,
    objs: &Vec<(Vec<char>, Vec<char>)>,
    body: &[char],
    t: &[char],
    line: usize,
    diags: &mut Vec<Diag>,
)
    requires
        text::byte_len(body@) < usize::MAX,
        t@.len() > 0,
    ensures
        diag::diags_view(final(diags)@) == diag::diags_view(old(diags)@) + code_findings(
            kb,
            text::texts(labels@),
            macros::pair_texts(objs@),
            body@,
            t@,
            line as int,
        ),
{
    let ghost before = diag::diags_view(diags@);
    match after_keyword(t, "invoke") {
        Some(rest) => check_invoke(kb, body, rest, line, diags),
        None => {},
    }
    let ghost first = match lex::strip_keyword(t@, "invoke"@) {
        Some(rest) => invoke_finding(kb, body@, rest, line as int),
        None => Seq::empty(),
    };
    assert(diag::diags_view(diags@) =~= before + first);
    check_rest(kb, labels, objs, body, t, line, diags, Ghost(before), Ghost(first));
}

fn check_rest(
    kb: &Kb,
    labels: &Vec<Vec<char>>,
    objs: &Vec<(Vec<char>, Vec<char>)>,
    body: &[char],
    t: &[char],
    line: usize,
    diags: &mut Vec<Diag>,
    Ghost(before): Ghost<Seq<DiagView>>,
    Ghost(first): Ghost<Seq<DiagView>>,
)
    requires
        text::byte_len(body@) < usize::MAX,
        t@.len() > 0,
        diag::diags_view(old(diags)@) == before + first,
        first == (match lex::strip_keyword(t@, "invoke"@) {
            Some(rest) => invoke_finding(kb, body@, rest, line as int),
            None => Seq::empty(),
        }),
    ensures
        diag::diags_view(final(diags)@) == before + code_findings(
            kb,
            text::texts(labels@),
            macros::pair_texts(objs@),
            body@,
            t@,
            line as int,
        ),
{
    let ghost want = before + code_findings(
        kb,
        text::texts(labels@),
        macros::pair_texts(objs@),
        body@,
        t@,
        line as int,
    );
    match after_keyword(t, "comcall") {
        Some(rest) => {
            check_comcall(kb, body, rest, line, diags);
            assert(diag::diags_view(diags@) =~= want);
            return;
        },
        None => {},
    }
    match after_keyword(t, "iid") {
        Some(rest) => {
            check_interface(kb, body, trimmed(rest), line, diags);
            assert(diag::diags_view(diags@) =~= want);
            return;
        },
        None => {},
    }
    match after_keyword(t, "comobj") {
        Some(rest) => {
            let colon: usize = index_of(rest, ':');
            if colon < rest.len() {
                let iface = trimmed(slice_subrange(rest, colon + 1, rest.len()));
                check_interface(kb, body, iface, line, diags);
            }
            assert(diag::diags_view(diags@) =~= want);
            return;
        },
        None => {},
    }
    match parse_method_call(t, objs) {
        Some((_, iface, method, _)) => {
            check_method(kb, body, iface, method, line, diags);
            assert(diag::diags_view(diags@) =~= want);
            return;
        },
        None => {},
    }
    match parse_data_line(t) {
        Some((_, kw, values)) => {
            match data_type(kw) {
                Some((_, width, _)) => {
                    check_widths(body, kw, width, values, line, diags);
                },
                None => {},
            }
            assert(diag::diags_view(diags@) =~= want);
            return;
        },
        None => {},
    }
    if t[0] != '.' {
        check_idents(body, line, kb, labels, diags);
    }
    assert(diag::diags_view(diags@) =~= want);
}

proof fn lemma_body_bytes(raw: Seq<char>)
    ensures
        text::byte_len(lex::strip_comment(raw)) <= text::byte_len(raw),
{
    lex::lemma_comment_from(raw, 0, 0, None);
    text::lemma_byte_len_take(raw, lex::comment_from(raw, 0, 0, None), raw.len() as int);
    assert(raw.take(raw.len() as int) =~= raw);
}

/// The names that are no unknown constants.
fn collect_known(src: &[char], objs: &Vec<(Vec<char>, Vec<char>)>) -> (r: Vec<Vec<char>>)
    requires
        macros::pair_texts(objs@) == decls::com_objects(text::lines(src@)),
    ensures
        text::texts(r@) == known_names(src@),
{
    let mut labels = collect_labels(src);
    let ghost lv = text::texts(labels@);
    let names = macro_names(src);
    let ghost nv = text::strings(names@);
    let mut i: usize = 0;
    while i < names.len()
        invariant
            nv == text::strings(names@),
            i <= names@.len(),
            text::texts(labels@) =~= lv + nv.take(i as int),
        decreases names@.len() - i,
    {
        let c = chars_of(names[i].as_str());
        push_copy(&mut labels, &c);
        i += 1;
    }
    let ghost ov = lower::object_names(macros::pair_texts(objs@));
    let ghost lv2 = text::texts(labels@);
    assert(lv2 =~= lv + nv);
    let mut k: usize = 0;
    while k < objs.len()
        invariant
            ov == lower::object_names(macros::pair_texts(objs@)),
            k <= objs@.len(),
            text::texts(labels@) =~= lv2 + ov.take(k as int),
        decreases objs@.len() - k,
    {
        push_copy(&mut labels, &objs[k].0);
        k += 1;
    }
    assert(text::texts(labels@) =~= known_names(src@));
    labels
}

/// The semantic findings: argument counts, unknown constants with a "did you
/// mean", bad struct fields, interfaces and methods, values that do not fit.
pub fn check_semantics(src: &str, kb: &Kb) -> (r: Vec<Diag>)
    requires
        text::byte_len(src@) < usize::MAX,
    ensures
        diag::diags_view(r@) == semantic_findings(kb, src@),
{
    let text = chars_of(src);
    let objs = collect_com_objs(&text);
    let labels = collect_known(&text, &objs);
    let lv = lines_of(&text);
    let ghost all = text::lines(src@);
    let ghost kn = known_names(src@);
    let ghost ov = decls::com_objects(all);
    proof {
        text::lemma_lines_bytes(src@);
    }
    let mut diags: Vec<Diag> = Vec::new();
    assert(diag::diags_view(diags@) =~= Seq::empty());
    let mut in_macro = false;
    let mut open_string: Option<bool> = None;
    let mut i: usize = 0;
    while i < lv.len()
        invariant
            text::slices(lv@) == all,
            i <= lv@.len(),
            text::texts(labels@) == kn,
            macros::pair_texts(objs@) == ov,
            text::byte_len(src@) < usize::MAX,
            forall|k: int| 0 <= k < all.len() ==> text::byte_len(#[trigger] all[k]) <= text::byte_len(src@),
            check_lines(kb, kn, ov, all.take(i as int)) == (
                diag::diags_view(diags@),
                CheckScan { in_macro, open_string },
            ),
        decreases lv@.len() - i,
    {
        let raw = lv[i];
        let ghost before = diag::diags_view(diags@);
        proof {
            assert(all[i as int] == raw@);
            assert(all.take(i as int + 1).drop_last() =~= all.take(i as int));
            assert(all.take(i as int + 1).last() == raw@);
            lemma_body_bytes(raw@);
            assert(before + Seq::<DiagView>::empty() =~= before);
        }
        i = i + 1;
        let line: usize = i;
        let body = without_comment(raw);
        let t = trimmed(body);
        match open_string {
            Some(wide) => {
                let end_kw = if wide {
                    ".endwidestring"
                } else {
                    ".endasciistring"
                };
                if is_ignoring_case(trimmed(raw), end_kw) {
                    open_string = None;
                }
                continue;
            },
            None => {},
        }
        if is_ignoring_case(t, ".asciistring") {
            open_string = Some(false);
            continue;
        }
        if is_ignoring_case(t, ".widestring") {
            open_string = Some(true);
            continue;
        }
        if include_path(raw).is_some() || t.len() == 0 {
            continue;
        }
        if parse_macro_def(t).is_some() {
            in_macro = true;
            continue;
        }
        if is_endm(t) {
            in_macro = false;
            continue;
        }
        if in_macro || after_keyword(t, "proc").is_some() || is(t, "endproc") {
            continue;
        }
        check_code(kb, &labels, &objs, body, t, line, &mut diags);
    }
    assert(all.take(all.len() as int) =~= all);
    diags
}

/// A finding on `line` of `src`.
fn locate(src: &[char], line: usize, message: String) -> (r: Diag)
    requires
        text::byte_len(src@) < usize::MAX,
    ensures
        r@ == located(src@, line as int, message@),
{
    if line == 0 {
        return Diag { line, col: 0, message };
    }
    let lv = lines_of(src);
    assert(text::slices(lv@).len() == lv@.len());
    if line <= lv.len() {
        let raw = lv[line - 1];
        assert(text::slices(lv@)[line - 1] == raw@);
        proof {
            text::lemma_lines_bytes(src@);
        }
        let col: usize = byte_offset(raw, indent_of(raw)) + 1;
        return Diag { line, col, message };
    }
    Diag { line, col: 1, message }
}

/// The finding on lowering and assembling `src`, given the assembler's complaint
/// about the lowered text, if it has one.
pub fn check_build(src: &str, kb: &Kb, refused: Option<&str>) -> (r: Option<Diag>)
    requires
        text::byte_len(src@) < usize::MAX,
    ensures
        (match r {
            Some(d) => seq![d@],
            None => Seq::empty(),
        }) == build_findings(
            kb,
            src@,
            match refused {
                Some(m) => Some(m@),
                None => None,
            },
        ),
{
    let sc = chars_of(src);
    match lower_mapped(src, kb) {
        Err(m) => {
            let (line, msg) = split_line_tag(m.as_str());
            let n: usize = match line {
                Some(n) => n,
                None => 0,
            };
            Some(locate(&sc, n, msg))
        },
        Ok((_, map)) => match refused {
            None => None,
            Some(m) => {
                let (lowered, msg) = split_line_tag(m);
                let line: usize = match lowered {
                    Some(n) => {
                        let k: usize = if n == 0 {
                            0
                        } else {
                            n - 1
                        };
                        if k < map.len() {
                            map[k]
                        } else {
                            0
                        }
                    },
                    None => 0,
                };
                Some(locate(&sc, line, msg))
            },
        },
    }
}

/// Check `src` and return diagnostics: the semantic ones, then the first problem
/// in lowering or assembling it (`refused` is the assembler's complaint about the
/// lowered text, if it has one), then the registers clobbered by calls and the
/// procedure contracts. An empty result means clean.
pub fn check(src: &str, kb: &Kb, refused: Option<&str>) -> (r: Vec<Diag>)
    requires
        text::byte_len(src@) < usize::MAX,
    ensures
        diag::diags_view(r@) == all_findings(
            kb,
            src@,
            match refused {
                Some(m) => Some(m@),
                None => None,
            },
        ),
{
    let mut diags = check_semantics(src, kb);
    let ghost a = diag::diags_view(diags@);
    let ghost b = build_findings(
        kb,
        src@,
        match refused {
            Some(m) => Some(m@),
            None => None,
        },
    );
    match check_build(src, kb, refused) {
        Some(d) => {
            let Diag { line, col, message } = d;
            push_diag(&mut diags, line, col, message);
            assert(diag::diags_view(diags@) =~= a + b);
        },
        None => {
            assert(diag::diags_view(diags@) =~= a + b);
        },
    }
    let c = clobber_diags(src);
    append_diags(&mut diags, c);
    let p = proc_contract_diags(src);
    append_diags(&mut diags, p);
    diags
}

} // verus!
