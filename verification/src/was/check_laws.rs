//! What the source check reports: a finding stands on every line that does not fit the
//! knowledge base, and on nothing else.
use crate::text;
use crate::was::check;
use crate::was::clobber_laws;
use crate::was::data;
use crate::was::decls;
use crate::was::lex;
use crate::was::macros;
use crate::was::operands;
use crate::was::regs;
use crate::was::data::DataLine;
use crate::was::diag::DiagView;
use crate::winkb::kb::Kb;
use vstd::prelude::*;

verus! {

// ── which lines are checked ─────────────────────────────────────────────────

/// The string block that is open behind the first `k` lines: whether it is a wide one.
pub open spec fn string_open(v: Seq<Seq<char>>, k: int) -> Option<bool>
    decreases k,
{
    if k <= 0 {
        None
    } else {
        let t = clobber_laws::statement(v[k - 1]);
        match string_open(v, k - 1) {
            Some(wide) => if text::same_ignoring_case(
                text::trim(v[k - 1]),
                if wide {
                    ".endwidestring"@
                } else {
                    ".endasciistring"@
                },
            ) {
                None
            } else {
                Some(wide)
            },
            None => if text::same_ignoring_case(t, ".asciistring"@) {
                Some(false)
            } else if text::same_ignoring_case(t, ".widestring"@) {
                Some(true)
            } else {
                None
            },
        }
    }
}

/// Line `k` says something outside of string blocks that is no string opener, include or
/// blank line.
pub open spec fn says(v: Seq<Seq<char>>, k: int) -> bool {
    let t = clobber_laws::statement(v[k]);
    &&& string_open(v, k) is None
    &&& !text::same_ignoring_case(t, ".asciistring"@)
    &&& !text::same_ignoring_case(t, ".widestring"@)
    &&& decls::included_file(v[k]) is None
    &&& t.len() > 0
}

/// Whether the first `k` lines leave a macro definition open.
pub open spec fn definition_open(v: Seq<Seq<char>>, k: int) -> bool
    decreases k,
{
    if k <= 0 {
        false
    } else if says(v, k - 1) && macros::macro_header(clobber_laws::statement(v[k - 1])) is Some {
        true
    } else if says(v, k - 1) && text::same_ignoring_case(
        clobber_laws::statement(v[k - 1]),
        "endm"@,
    ) {
        false
    } else {
        definition_open(v, k - 1)
    }
}

/// Line `k` is checked: it says something, and is neither part of a macro definition nor the
/// start or the end of a procedure.
pub open spec fn checked(v: Seq<Seq<char>>, k: int) -> bool {
    let t = clobber_laws::statement(v[k]);
    &&& says(v, k)
    &&& macros::macro_header(t) is None
    &&& !text::same_ignoring_case(t, "endm"@)
    &&& !definition_open(v, k)
    &&& lex::strip_keyword(t, "proc"@) is None
    &&& t != "endproc"@
}

// ── what does not fit ───────────────────────────────────────────────────────

/// An `invoke` of a known function with another number of arguments than it has parameters.
pub open spec fn wrong_arity(kb: &Kb, body: Seq<char>, line: int, d: DiagView) -> bool {
    lex::strip_keyword(text::trim(body), "invoke"@) matches Some(rest) && {
        let parts = lex::split_commas(rest);
        let func = text::trim(parts[0]);
        let given = if func.len() == 0 {
            0
        } else {
            parts.len() - 1
        };
        kb.spec_function(func) matches Some(f) && f.params@.len() != given && d == (DiagView {
            line,
            col: check::col_of(body, func),
            message: func + " takes "@ + text::signed_dec(f.params@.len() as int)
                + " argument(s), got "@ + text::signed_dec(given),
        })
    }
}

/// The interface that a line names: the second part of a `comcall`, the operand of an `iid`,
/// or what stands behind the colon of a `comobj`.
pub open spec fn named_interface(t: Seq<char>) -> Option<Seq<char>> {
    match lex::strip_keyword(t, "comcall"@) {
        Some(rest) => if lex::split_commas(rest).len() >= 3 {
            Some(text::trim(lex::split_commas(rest)[1]))
        } else {
            None
        },
        None => match lex::strip_keyword(t, "iid"@) {
            Some(rest) => Some(text::trim(rest)),
            None => match lex::strip_keyword(t, "comobj"@) {
                Some(rest) => if rest.contains(':') {
                    Some(text::trim(rest.skip(text::find(rest, ':') + 1)))
                } else {
                    None
                },
                None => None,
            },
        },
    }
}

/// A line that names an interface that is not known.
pub open spec fn no_such_interface(kb: &Kb, body: Seq<char>, line: int, d: DiagView) -> bool {
    named_interface(text::trim(body)) matches Some(iface) && kb.spec_interface(iface) is None && d
        == (DiagView {
        line,
        col: check::col_of(body, iface),
        message: "unknown interface '"@ + iface + "'"@,
    })
}

/// The line begins with a keyword that is checked by itself.
pub open spec fn com_keyword(t: Seq<char>) -> bool {
    lex::strip_keyword(t, "comcall"@) is Some || lex::strip_keyword(t, "iid"@) is Some
        || lex::strip_keyword(t, "comobj"@) is Some
}

/// The interface and the method that a line calls: by a `comcall` through a known interface,
/// or on a declared object.
pub open spec fn called_method(
    kb: &Kb,
    objs: Seq<(Seq<char>, Seq<char>)>,
    t: Seq<char>,
) -> Option<(Seq<char>, Seq<char>)> {
    match lex::strip_keyword(t, "comcall"@) {
        Some(rest) => {
            let parts = lex::split_commas(rest);
            if parts.len() >= 3 && kb.spec_interface(text::trim(parts[1])) is Some {
                Some((text::trim(parts[1]), text::trim(parts[2])))
            } else {
                None
            }
        },
        None => if com_keyword(t) {
            None
        } else {
            match decls::method_call(t, objs) {
                Some(c) => Some((c.iface, c.method)),
                None => None,
            }
        },
    }
}

/// A line that calls a method that its interface and the bases of that do not have.
pub open spec fn no_such_method(
    kb: &Kb,
    objs: Seq<(Seq<char>, Seq<char>)>,
    body: Seq<char>,
    line: int,
    d: DiagView,
) -> bool {
    called_method(kb, objs, text::trim(body)) matches Some((iface, method)) && operands::com_method(
        kb,
        iface,
        method,
    ) is None && d == (DiagView {
        line,
        col: check::last_col_of(body, method),
        message: iface + " has no method '"@ + method + "'"@,
    })
}

/// The line is neither a COM line nor a method call.
pub open spec fn plain_line(objs: Seq<(Seq<char>, Seq<char>)>, t: Seq<char>) -> bool {
    !com_keyword(t) && decls::method_call(t, objs) is None
}

/// A data line with a number that its field cannot hold.
pub open spec fn too_wide(
    objs: Seq<(Seq<char>, Seq<char>)>,
    body: Seq<char>,
    line: int,
    d: DiagView,
) -> bool {
    let t = text::trim(body);
    plain_line(objs, t) && (data::data_line(t) matches Some(l) && exists|i: int|
        0 <= i < lex::split_commas(l.values).len() && #[trigger] too_wide_value(
            l,
            lex::split_commas(l.values)[i],
            body,
            line,
            d,
        ))
}

/// The value `val` of the data line `l` is a number that the field cannot hold.
pub open spec fn too_wide_value(
    l: DataLine,
    val: Seq<char>,
    body: Seq<char>,
    line: int,
    d: DiagView,
) -> bool {
    let v = text::trim(val);
    data::literal_value(v) matches Some(n) && (data::data_kind(l.kw) matches Some((dir, width, wide))
        && !data::fits(n, width as nat) && d == (DiagView {
        line,
        col: check::col_of(body, v),
        message: text::signed_dec(n) + " doesn't fit a "@ + text::signed_dec(width) + "-byte "@
            + l.kw + " field"@,
    }))
}

/// A name of an instruction line that is no field of a known structure, or no constant though
/// it looks like one and a constant of a similar name is known.
pub open spec fn no_such_name(
    kb: &Kb,
    labels: Seq<Seq<char>>,
    objs: Seq<(Seq<char>, Seq<char>)>,
    body: Seq<char>,
    line: int,
    d: DiagView,
) -> bool {
    let t = text::trim(body);
    plain_line(objs, t) && data::data_line(t) is None && t[0] != '.' && exists|i: int|
        #[trigger] name_starts(body, 0, i) && (bad_field(kb, labels, body, i, line, d)
            || bad_constant(kb, labels, body, i, line, d))
}

/// A name starts at `i`, read from `a` on: literals are passed over.
pub open spec fn name_starts(body: Seq<char>, a: int, i: int) -> bool
    decreases body.len() - a,
    via name_starts_decreases
{
    if a < 0 || a >= body.len() {
        false
    } else if body[a] == '\'' || body[a] == '"' {
        name_starts(body, macros::literal_end(body, a), i)
    } else if text::is_alpha(body[a]) || body[a] == '_' {
        i == a || name_starts(body, operands::dotted_end(body, a), i)
    } else {
        name_starts(body, a + 1, i)
    }
}

#[via_fn]
proof fn name_starts_decreases(body: Seq<char>, a: int, i: int) {
    lemma_reading_advances(body, a);
}

pub proof fn lemma_reading_advances(body: Seq<char>, a: int)
    ensures
        0 <= a < body.len() ==> a < macros::literal_end(body, a) <= body.len(),
        0 <= a < body.len() && (text::is_alpha(body[a]) || body[a] == '_') ==> a
            < operands::dotted_end(body, a) <= body.len(),
{
    if 0 <= a < body.len() {
        text::lemma_first_from(body, text::eq_char(body[a]), a + 1);
        let p = |c: char| !text::is_ident(c) && c != '.';
        text::lemma_first_from(body, p, a);
    }
}

/// The name at `i` is a member of a known structure that does not have it.
pub open spec fn bad_field(
    kb: &Kb,
    labels: Seq<Seq<char>>,
    body: Seq<char>,
    i: int,
    line: int,
    d: DiagView,
) -> bool {
    let tok = body.subrange(i, operands::dotted_end(body, i));
    let dot = text::find(tok, '.');
    let lhs = tok.take(dot);
    let field = tok.skip(dot + 1);
    &&& dot < tok.len()
    &&& kb.spec_layout(lhs) matches Some(l) && !regs::names_register(lhs) && !labels.contains(lhs)
        && field.len() > 0 && operands::path_offset(kb, lhs, field) is None && d == (DiagView {
        line,
        col: (text::byte_len(body.take(i)) + 1) as int,
        message: lhs + " has no field '"@ + field + "'"@ + check::field_hint(l, lhs, field),
    })
}

/// The name at `i` looks like a constant, is none, and resembles one.
pub open spec fn bad_constant(
    kb: &Kb,
    labels: Seq<Seq<char>>,
    body: Seq<char>,
    i: int,
    line: int,
    d: DiagView,
) -> bool {
    let tok = body.subrange(i, operands::dotted_end(body, i));
    &&& text::find(tok, '.') >= tok.len()
    &&& check::constant_like(tok)
    &&& !labels.contains(tok)
    &&& kb.spec_resolve(tok).len() == 0
    &&& kb.spec_suggest(tok, 1).len() > 0
    &&& d == (DiagView {
        line,
        col: (text::byte_len(body.take(i)) + 1) as int,
        message: "unknown constant '"@ + tok + "' — did you mean '"@ + kb.spec_suggest(tok, 1)[0]
            + "'?"@,
    })
}

/// Something on the line does not fit.
pub open spec fn misfit(
    kb: &Kb,
    labels: Seq<Seq<char>>,
    objs: Seq<(Seq<char>, Seq<char>)>,
    raw: Seq<char>,
    line: int,
    d: DiagView,
) -> bool {
    let body = lex::strip_comment(raw);
    ||| wrong_arity(kb, body, line, d)
    ||| no_such_interface(kb, body, line, d)
    ||| no_such_method(kb, objs, body, line, d)
    ||| too_wide(objs, body, line, d)
    ||| no_such_name(kb, labels, objs, body, line, d)
}

// ── the scan ────────────────────────────────────────────────────────────────

proof fn lemma_check_state(
    kb: &Kb,
    labels: Seq<Seq<char>>,
    objs: Seq<(Seq<char>, Seq<char>)>,
    v: Seq<Seq<char>>,
    k: int,
)
    requires
        0 <= k <= v.len(),
    ensures
        check::check_lines(kb, labels, objs, v.take(k)).1.open_string == string_open(v, k),
        check::check_lines(kb, labels, objs, v.take(k)).1.in_macro == definition_open(v, k),
    decreases k,
{
    if k > 0 {
        lemma_check_state(kb, labels, objs, v, k - 1);
        assert(v.take(k).drop_last() =~= v.take(k - 1));
        assert(v.take(k).last() == v[k - 1]);
        let st = check::check_lines(kb, labels, objs, v.take(k - 1)).1;
        assert(check::check_lines(kb, labels, objs, v.take(k)).1 == check::check_line(
            kb,
            labels,
            objs,
            st,
            v[k - 1],
            k,
        ).1);
    }
}

proof fn lemma_one(f: DiagView, d: DiagView)
    ensures
        seq![f].contains(d) <==> d == f,
{
    assert(seq![f][0] == f);
}

proof fn lemma_width_findings(
    l: DataLine,
    body: Seq<char>,
    width: int,
    vals: Seq<Seq<char>>,
    line: int,
    i: int,
    d: DiagView,
)
    requires
        data::data_kind(l.kw) matches Some((dir, w, wide)) && w == width,
        0 <= i,
    ensures
        check::width_findings_from(body, l.kw, width, vals, line, i).contains(d) <==> exists|k: int|
            i <= k < vals.len() && #[trigger] too_wide_value(l, vals[k], body, line, d),
    decreases vals.len() - i,
{
    if i < vals.len() {
        let v = text::trim(vals[i]);
        let rest = check::width_findings_from(body, l.kw, width, vals, line, i + 1);
        lemma_width_findings(l, body, width, vals, line, i + 1, d);
        match data::literal_value(v) {
            Some(n) => {
                let f = DiagView {
                    line,
                    col: check::col_of(body, v),
                    message: text::signed_dec(n) + " doesn't fit a "@ + text::signed_dec(width)
                        + "-byte "@ + l.kw + " field"@,
                };
                lemma_one(f, d);
                clobber_laws::lemma_in_concat(seq![f], rest, d);
                assert(too_wide_value(l, vals[i], body, line, d) <==> !data::fits(n, width as nat)
                    && d == f);
            },
            None => {
                assert(!too_wide_value(l, vals[i], body, line, d));
            },
        }
        if exists|k: int| i <= k < vals.len() && #[trigger] too_wide_value(l, vals[k], body, line, d) {
            let k = choose|k: int|
                i <= k < vals.len() && #[trigger] too_wide_value(l, vals[k], body, line, d);
            if k > i {
                assert(i + 1 <= k < vals.len() && too_wide_value(l, vals[k], body, line, d));
            }
        }
        if rest.contains(d) {
            let k = choose|k: int|
                i + 1 <= k < vals.len() && #[trigger] too_wide_value(l, vals[k], body, line, d);
            assert(i <= k < vals.len() && too_wide_value(l, vals[k], body, line, d));
        }
    }
}

/// A name at some position from `a` on does not fit.
spec fn bad_name(
    kb: &Kb,
    labels: Seq<Seq<char>>,
    body: Seq<char>,
    a: int,
    line: int,
    d: DiagView,
) -> bool {
    exists|i: int|
        #[trigger] name_starts(body, a, i) && (bad_field(kb, labels, body, i, line, d)
            || bad_constant(kb, labels, body, i, line, d))
}

proof fn lemma_ident_findings(
    kb: &Kb,
    labels: Seq<Seq<char>>,
    body: Seq<char>,
    line: int,
    a: int,
    d: DiagView,
)
    ensures
        check::ident_findings_from(kb, labels, body, line, a).contains(d) <==> bad_name(
            kb,
            labels,
            body,
            a,
            line,
            d,
        ),
    decreases body.len() - a,
{
    lemma_reading_advances(body, a);
    if 0 <= a < body.len() {
        let next = if body[a] == '\'' || body[a] == '"' {
            macros::literal_end(body, a)
        } else if text::is_alpha(body[a]) || body[a] == '_' {
            operands::dotted_end(body, a)
        } else {
            a + 1
        };
        lemma_ident_findings(kb, labels, body, line, next, d);
        if bad_name(kb, labels, body, next, line, d) {
            let i = choose|i: int|
                #[trigger] name_starts(body, next, i) && (bad_field(kb, labels, body, i, line, d)
                    || bad_constant(kb, labels, body, i, line, d));
            assert(name_starts(body, a, i));
        }
        if bad_name(kb, labels, body, a, line, d) {
            let i = choose|i: int|
                #[trigger] name_starts(body, a, i) && (bad_field(kb, labels, body, i, line, d)
                    || bad_constant(kb, labels, body, i, line, d));
            if !((text::is_alpha(body[a]) || body[a] == '_') && body[a] != '\'' && body[a] != '"' && i
                == a) {
                assert(name_starts(body, next, i));
            }
        }
        if (text::is_alpha(body[a]) || body[a] == '_') && body[a] != '\'' && body[a] != '"' {
            let tok = body.subrange(a, next);
            let found = check::ident_finding(
                kb,
                labels,
                tok,
                line,
                (text::byte_len(body.take(a)) + 1) as int,
            );
            let rest = check::ident_findings_from(kb, labels, body, line, next);
            clobber_laws::lemma_in_concat(found, rest, d);
            if found.len() > 0 {
                lemma_one(found[0], d);
                assert(found =~= seq![found[0]]);
            }
            assert(name_starts(body, a, a));
            assert(found.contains(d) <==> bad_field(kb, labels, body, a, line, d) || bad_constant(
                kb,
                labels,
                body,
                a,
                line,
                d,
            ));
        }
    }
}

#[verifier::spinoff_prover]
proof fn lemma_code_findings(
    kb: &Kb,
    labels: Seq<Seq<char>>,
    objs: Seq<(Seq<char>, Seq<char>)>,
    raw: Seq<char>,
    line: int,
    d: DiagView,
)
    requires
        clobber_laws::statement(raw).len() > 0,
    ensures
        check::code_findings(
            kb,
            labels,
            objs,
            lex::strip_comment(raw),
            clobber_laws::statement(raw),
            line,
        ).contains(d) <==> misfit(kb, labels, objs, raw, line, d),
{
    let body = lex::strip_comment(raw);
    let t = clobber_laws::statement(raw);
    let first = match lex::strip_keyword(t, "invoke"@) {
        Some(rest) => check::invoke_finding(kb, body, rest, line),
        None => Seq::empty(),
    };
    let all = check::code_findings(kb, labels, objs, body, t, line);
    let rest = all.skip(first.len() as int);
    assert(all =~= first + rest);
    clobber_laws::lemma_in_concat(first, rest, d);
    if first.len() > 0 {
        lemma_one(first[0], d);
        assert(first =~= seq![first[0]]);
    }
    assert(first.contains(d) <==> wrong_arity(kb, body, line, d));
    if com_keyword(t) {
        if rest.len() > 0 {
            lemma_one(rest[0], d);
            assert(rest =~= seq![rest[0]]);
        }
        if let Some(r) = lex::strip_keyword(t, "comobj"@) {
            text::lemma_first_from(r, text::eq_char(':'), 0);
            let c = text::find(r, ':');
            if c < r.len() {
                assert(r[c] == ':');
            }
            if r.contains(':') && c >= r.len() {
                let q = choose|q: int| 0 <= q < r.len() && r[q] == ':';
                assert(!text::eq_char(':')(r[q]));
            }
        }
    } else {
        match decls::method_call(t, objs) {
            Some(c) => {
                if rest.len() > 0 {
                    lemma_one(rest[0], d);
                    assert(rest =~= seq![rest[0]]);
                }
            },
            None => {
                match data::data_line(t) {
                    Some(l) => {
                        let vals = lex::split_commas(l.values);
                        let width = (data::data_kind(l.kw)->0).1;
                        lemma_width_findings(l, body, width, vals, line, 0, d);
                        assert(rest =~= check::width_findings_from(body, l.kw, width, vals, line, 0));
                    },
                    None => {
                        lemma_ident_findings(kb, labels, body, line, 0, d);
                        if t[0] != '.' {
                            assert(rest =~= check::ident_findings_from(kb, labels, body, line, 0));
                        } else {
                            assert(rest =~= Seq::empty());
                        }
                    },
                }
            },
        }
    }
}

proof fn lemma_misfits_up_to(
    kb: &Kb,
    labels: Seq<Seq<char>>,
    objs: Seq<(Seq<char>, Seq<char>)>,
    v: Seq<Seq<char>>,
    k: int,
    d: DiagView,
)
    requires
        0 <= k <= v.len(),
    ensures
        check::check_lines(kb, labels, objs, v.take(k)).0.contains(d) <==> exists|j: int|
            0 <= j < k && #[trigger] checked(v, j) && misfit(kb, labels, objs, v[j], j + 1, d),
    decreases k,
{
    if k == 0 {
        assert(v.take(0) =~= Seq::empty());
    } else {
        let m = k - 1;
        lemma_misfits_up_to(kb, labels, objs, v, m, d);
        lemma_check_state(kb, labels, objs, v, m);
        assert(v.take(k).drop_last() =~= v.take(m));
        assert(v.take(k).last() == v[m]);
        let (before, st) = check::check_lines(kb, labels, objs, v.take(m));
        let found = check::check_line(kb, labels, objs, st, v[m], k).0;
        assert(check::check_lines(kb, labels, objs, v.take(k)).0 == before + found);
        clobber_laws::lemma_in_concat(before, found, d);
        if checked(v, m) {
            lemma_code_findings(kb, labels, objs, v[m], k, d);
        } else {
            assert(found =~= Seq::empty());
        }
        if before.contains(d) {
            let j = choose|j: int|
                0 <= j < m && #[trigger] checked(v, j) && misfit(kb, labels, objs, v[j], j + 1, d);
            assert(0 <= j < k && checked(v, j));
        }
        if found.contains(d) {
            assert(0 <= m < k && checked(v, m));
        }
    }
}

/// The source check reports every line that does not fit the knowledge base, and nothing
/// else: a call with the wrong number of arguments, an unknown interface, method, field or
/// constant, and a number too wide for its field.
pub proof fn law_misfits_are_reported(kb: &Kb, src: Seq<char>, d: DiagView)
    ensures
        check::semantic_findings(kb, src).contains(d) <==> exists|j: int|
            0 <= j < text::lines(src).len() && #[trigger] checked(text::lines(src), j) && misfit(
                kb,
                check::known_names(src),
                decls::com_objects(text::lines(src)),
                text::lines(src)[j],
                j + 1,
                d,
            ),
{
    let v = text::lines(src);
    lemma_misfits_up_to(
        kb,
        check::known_names(src),
        decls::com_objects(v),
        v,
        v.len() as int,
        d,
    );
    assert(v.take(v.len() as int) =~= v);
}

} // verus!
