//! MASM-style macros: `NAME MACRO` … `LOCAL` … `ENDM` definitions, and their
//! expansion.
use crate::text;
use crate::was::lex;
use crate::text::{
    char_is_alnum, char_is_alpha, char_is_ws, chars_of, copy_of, index_of_from, index_of_ws,
    is_ignoring_case, lines_of, push_all, push_dec, push_str, push_text, same, signed_dec_of,
    string_of, trimmed, trimmed_start,
};
use crate::was::lex::{all_ident, split_top_commas, without_comment};
use vstd::prelude::*;
use vstd::slice::slice_subrange;

verus! {

// ── recognising the lines ───────────────────────────────────────────────────

/// The header `NAME MACRO [p1, p2, …]`: the name and the parameters. The keyword
/// is case-insensitive.
pub open spec fn macro_header(t: Seq<char>) -> Option<(Seq<char>, Seq<Seq<char>>)> {
    let w = text::find_ws(t);
    let name = t.take(w);
    let rest = text::trim_start(t.skip(w + 1));
    let params = rest.skip(5);
    if w >= t.len() || rest.len() < 5 || !text::same_ignoring_case(rest.take(5), "macro"@) {
        None
    } else if params.len() > 0 && !text::is_ws(params[0]) {
        None
    } else if name.len() == 0 || !lex::ident_chars(name) {
        None
    } else if text::trim(params).len() == 0 {
        Some((name, Seq::empty()))
    } else {
        Some((name, lex::trim_each(lex::split_commas(params))))
    }
}

/// The view of a macro header.
pub open spec fn header_view(r: Option<(String, Vec<String>)>) -> Option<
    (Seq<char>, Seq<Seq<char>>),
> {
    match r {
        Some((n, p)) => Some((n@, text::strings(p@))),
        None => None,
    }
}

/// The texts `v`, trimmed, as strings.
pub fn trimmed_strings(v: &Vec<&[char]>) -> (r: Vec<String>)
    ensures
        text::strings(r@) == lex::trim_each(text::slices(v@)),
{
    let mut r: Vec<String> = Vec::new();
    let mut i: usize = 0;
    while i < v.len()
        invariant
            i <= v@.len(),
            text::strings(r@) =~= lex::trim_each(text::slices(v@)).take(i as int),
        decreases v@.len() - i,
    {
        let s = string_of(trimmed(v[i]));
        let ghost before = text::strings(r@);
        r.push(s);
        assert(text::strings(r@) =~= before.push(s@));
        i += 1;
    }
    r
}

/// Recognize a macro header `NAME MACRO [p1, p2, …]`.
pub fn parse_macro_def(t: &[char]) -> (r: Option<(String, Vec<String>)>)
    ensures
        header_view(r) == macro_header(t@),
{
    let w: usize = index_of_ws(t);
    if w >= t.len() {
        return None;
    }
    let name = slice_subrange(t, 0, w);
    let rest = trimmed_start(slice_subrange(t, w + 1, t.len()));
    if rest.len() < 5 || !is_ignoring_case(slice_subrange(rest, 0, 5), "macro") {
        return None;
    }
    let params = slice_subrange(rest, 5, rest.len());
    if params.len() > 0 && !char_is_ws(params[0]) {
        return None;
    }
    if name.len() == 0 || !all_ident(name) {
        return None;
    }
    if trimmed(params).len() == 0 {
        let none: Vec<String> = Vec::new();
        assert(text::strings(none@) =~= Seq::empty());
        return Some((string_of(name), none));
    }
    let pieces = split_top_commas(params);
    Some((string_of(name), trimmed_strings(&pieces)))
}

/// `ENDM` (case-insensitive): the macro terminator.
pub fn is_endm(t: &[char]) -> (r: bool)
    ensures
        r == text::same_ignoring_case(t@, "endm"@),
{
    is_ignoring_case(t, "endm")
}

/// The texts of `v` that are not empty.
pub open spec fn non_empty(v: Seq<Seq<char>>) -> Seq<Seq<char>> {
    v.filter(|x: Seq<char>| x.len() > 0)
}

/// The names of a `LOCAL a, b, …` declaration (the keyword in any case).
pub open spec fn local_names(t: Seq<char>) -> Option<Seq<Seq<char>>> {
    let w = text::find_ws(t);
    if w < t.len() && text::same_ignoring_case(t.take(w), "local"@) {
        Some(non_empty(lex::trim_each(lex::split_commas(t.skip(w + 1)))))
    } else {
        None
    }
}

fn parse_local(t: &[char]) -> (r: Option<Vec<Vec<char>>>)
    ensures
        (match r {
            Some(v) => Some(text::texts(v@)),
            None => None,
        }) == local_names(t@),
{
    let w: usize = index_of_ws(t);
    if w >= t.len() || !is_ignoring_case(slice_subrange(t, 0, w), "local") {
        return None;
    }
    let pieces = split_top_commas(slice_subrange(t, w + 1, t.len()));
    let ghost all = lex::trim_each(text::slices(pieces@));
    let ghost p = |x: Seq<char>| x.len() > 0;
    let mut r: Vec<Vec<char>> = Vec::new();
    let mut i: usize = 0;
    assert(all.take(0) =~= Seq::empty());
    assert(text::texts(r@) =~= Seq::empty());
    reveal(Seq::filter);
    while i < pieces.len()
        invariant
            p == (|x: Seq<char>| x.len() > 0),
            all == lex::trim_each(text::slices(pieces@)),
            i <= pieces@.len(),
            text::texts(r@) == all.take(i as int).filter(p),
        decreases pieces@.len() - i,
    {
        let x = trimmed(pieces[i]);
        proof {
            reveal(Seq::filter);
            assert(all.take(i as int + 1).drop_last() =~= all.take(i as int));
            assert(all.take(i as int + 1).last() == x@);
        }
        if x.len() > 0 {
            let ghost before = text::texts(r@);
            let c = copy_of(x);
            r.push(c);
            assert(text::texts(r@) =~= before.push(x@));
        }
        i += 1;
    }
    assert(all.take(all.len() as int) =~= all);
    Some(r)
}

/// The names of the macros that the lines `v` define.
pub open spec fn names_defined(v: Seq<Seq<char>>) -> Seq<Seq<char>>
    decreases v.len(),
{
    if v.len() == 0 {
        Seq::empty()
    } else {
        let before = names_defined(v.drop_last());
        match macro_header(text::trim(lex::strip_comment(v.last()))) {
            Some((name, _)) => before.push(name),
            None => before,
        }
    }
}

/// The names of every macro defined in `src`.
pub fn macro_names(src: &[char]) -> (r: Vec<String>)
    ensures
        text::strings(r@) == names_defined(text::lines(src@)),
{
    let lv = lines_of(src);
    let ghost all = text::lines(src@);
    let mut r: Vec<String> = Vec::new();
    let mut i: usize = 0;
    assert(text::strings(r@) =~= Seq::empty());
    while i < lv.len()
        invariant
            text::slices(lv@) == all,
            i <= lv@.len(),
            text::strings(r@) == names_defined(all.take(i as int)),
        decreases lv@.len() - i,
    {
        proof {
            assert(all.take(i as int + 1).drop_last() =~= all.take(i as int));
            assert(all.take(i as int + 1).last() == lv@[i as int]@);
        }
        match parse_macro_def(trimmed(without_comment(lv[i]))) {
            Some((name, _)) => {
                let ghost before = text::strings(r@);
                r.push(name);
                assert(text::strings(r@) =~= before.push(name@));
            },
            None => {},
        }
        i += 1;
    }
    assert(all.take(all.len() as int) =~= all);
    r
}

// ── substitution ────────────────────────────────────────────────────────────

/// The end of the literal that opens with the quote at `i`: behind the closing
/// quote, or the end of `s`.
pub open spec fn literal_end(s: Seq<char>, i: int) -> int {
    let j = text::first_from(s, text::eq_char(s[i]), i + 1);
    if j < s.len() {
        j + 1
    } else {
        s.len() as int
    }
}

pub fn end_of_literal(s: &[char], i: usize) -> (r: usize)
    requires
        i < s@.len(),
    ensures
        r == literal_end(s@, i as int),
        i < r <= s@.len(),
{
    let j: usize = index_of_from(s, s[i], i + 1);
    if j < s.len() {
        j + 1
    } else {
        s.len()
    }
}

/// The end of the run of ASCII alphanumerics and underscores from `i` on.
pub open spec fn word_end(s: Seq<char>, i: int) -> int {
    text::first_from(s, |c: char| !(text::is_alnum(c) || c == '_'), i)
}

pub fn end_of_word(s: &[char], i: usize) -> (r: usize)
    requires
        i <= s@.len(),
    ensures
        r == word_end(s@, i as int),
        i <= r <= s@.len(),
        i < s@.len() && (text::is_alnum(s@[i as int]) || s@[i as int] == '_') ==> i < r,
{
    let ghost p = |c: char| !(text::is_alnum(c) || c == '_');
    let mut n: usize = i;
    while n < s.len()
        invariant_except_break
            p == (|c: char| !(text::is_alnum(c) || c == '_')),
            i <= n <= s@.len(),
            word_end(s@, i as int) == text::first_from(s@, p, n as int),
        ensures
            i <= n <= s@.len(),
            n == word_end(s@, i as int),
        decreases s@.len() - n,
    {
        if !(char_is_alnum(s[n]) || s[n] == '_') {
            break;
        }
        n += 1;
    }
    proof {
        text::lemma_first_from(s@, p, i as int);
    }
    n
}

/// What the word `w` stands for: its first replacement in `subs`, or itself.
pub open spec fn replaced(w: Seq<char>, subs: Seq<(Seq<char>, Seq<char>)>) -> Seq<char>
    decreases subs.len(),
{
    if subs.len() == 0 {
        w
    } else if subs[0].0 == w {
        subs[0].1
    } else {
        replaced(w, subs.drop_first())
    }
}

/// The text `s` from `i` on with its whole words replaced; literals are copied
/// verbatim.
pub open spec fn substitute_from(
    s: Seq<char>,
    subs: Seq<(Seq<char>, Seq<char>)>,
    i: int,
) -> Seq<char>
    decreases s.len() - i,
    via substitute_from_decreases
{
    if i < 0 || i >= s.len() {
        Seq::empty()
    } else if s[i] == '\'' || s[i] == '"' {
        s.subrange(i, literal_end(s, i)) + substitute_from(s, subs, literal_end(s, i))
    } else if text::is_alpha(s[i]) || s[i] == '_' {
        replaced(s.subrange(i, word_end(s, i)), subs) + substitute_from(s, subs, word_end(s, i))
    } else {
        seq![s[i]] + substitute_from(s, subs, i + 1)
    }
}

#[via_fn]
proof fn substitute_from_decreases(s: Seq<char>, subs: Seq<(Seq<char>, Seq<char>)>, i: int) {
    if 0 <= i < s.len() {
        text::lemma_first_from(s, text::eq_char(s[i]), i + 1);
        let p = |c: char| !(text::is_alnum(c) || c == '_');
        text::lemma_first_from(s, p, i);
    }
}

/// Whole-word substitution of `subs` in one line.
pub open spec fn substitution(s: Seq<char>, subs: Seq<(Seq<char>, Seq<char>)>) -> Seq<char> {
    substitute_from(s, subs, 0)
}

/// The views of a list of pairs of texts.
pub open spec fn pair_texts(v: Seq<(Vec<char>, Vec<char>)>) -> Seq<(Seq<char>, Seq<char>)> {
    Seq::new(v.len(), |i: int| (v[i].0@, v[i].1@))
}

fn replacement(w: &[char], subs: &Vec<(Vec<char>, Vec<char>)>) -> (r: Vec<char>)
    ensures
        r@ == replaced(w@, pair_texts(subs@)),
{
    let ghost all = pair_texts(subs@);
    let mut i: usize = 0;
    assert(all.skip(0) =~= all);
    while i < subs.len()
        invariant
            all == pair_texts(subs@),
            i <= subs@.len(),
            replaced(w@, all) == replaced(w@, all.skip(i as int)),
        decreases subs@.len() - i,
    {
        assert(all.skip(i as int)[0] == all[i as int]);
        if same(&subs[i].0, w) {
            return copy_of(&subs[i].1);
        }
        assert(all.skip(i as int).drop_first() =~= all.skip(i as int + 1));
        i += 1;
    }
    copy_of(w)
}

/// Whole-word substitution of `(token, replacement)` pairs in one line; string
/// and character literals are copied verbatim.
pub fn substitute(line: &[char], subs: &Vec<(Vec<char>, Vec<char>)>) -> (out: Vec<char>)
    ensures
        out@ == substitution(line@, pair_texts(subs@)),
{
    let ghost sv = pair_texts(subs@);
    let mut out: Vec<char> = Vec::new();
    let mut i: usize = 0;
    while i < line.len()
        invariant
            sv == pair_texts(subs@),
            i <= line@.len(),
            out@ + substitute_from(line@, sv, i as int) =~= substitution(line@, sv),
        decreases line@.len() - i,
    {
        let c = line[i];
        let ghost before = out@;
        if c == '\'' || c == '"' {
            let e: usize = end_of_literal(line, i);
            push_all(&mut out, slice_subrange(line, i, e));
            assert(out@ + substitute_from(line@, sv, e as int) =~= before + (line@.subrange(
                i as int,
                e as int,
            ) + substitute_from(line@, sv, e as int)));
            i = e;
        } else if char_is_alpha(c) || c == '_' {
            let e: usize = end_of_word(line, i);
            let w = replacement(slice_subrange(line, i, e), subs);
            push_all(&mut out, &w);
            assert(out@ + substitute_from(line@, sv, e as int) =~= before + (w@ + substitute_from(
                line@,
                sv,
                e as int,
            )));
            i = e;
        } else {
            out.push(c);
            assert(out@ + substitute_from(line@, sv, i + 1) =~= before + (seq![c]
                + substitute_from(line@, sv, i + 1)));
            i += 1;
        }
    }
    assert(out@ =~= substitution(line@, sv));
    out
}

// ── expansion ───────────────────────────────────────────────────────────────

/// A collected macro: its parameters, `LOCAL` label names, and raw body lines.
pub struct MacroView {
    pub params: Seq<Seq<char>>,
    pub locals: Seq<Seq<char>>,
    pub body: Seq<Seq<char>>,
}

/// A numbered line: its text and the source line it comes from.
pub type NumberedLine = (Seq<char>, int);

/// The state of the collecting pass: the macros defined so far (the latest
/// definition of a name counts), the lines kept, and the open definition.
pub struct Collected {
    pub macros: Seq<(Seq<char>, MacroView)>,
    pub kept: Seq<NumberedLine>,
    pub open: Option<(Seq<char>, MacroView)>,
}

pub open spec fn nested_message(line: int) -> Seq<char> {
    "line "@ + text::signed_dec(line) + ": nested macro definition is not supported"@
}

/// The collecting pass behind the line `raw`, numbered `line`.
pub open spec fn collect_line(st: Collected, raw: Seq<char>, line: int) -> Result<
    Collected,
    Seq<char>,
> {
    let t = text::trim(lex::strip_comment(raw));
    match st.open {
        Some((name, mac)) => {
            if text::same_ignoring_case(t, "endm"@) {
                Ok(Collected { macros: st.macros.push((name, mac)), open: None, ..st })
            } else {
                match local_names(t) {
                    Some(ls) => Ok(
                        Collected {
                            open: Some((name, MacroView { locals: mac.locals + ls, ..mac })),
                            ..st
                        },
                    ),
                    None => if macro_header(t) is Some {
                        Err(nested_message(line))
                    } else {
                        Ok(
                            Collected {
                                open: Some((name, MacroView { body: mac.body.push(raw), ..mac })),
                                ..st
                            },
                        )
                    },
                }
            }
        },
        None => match macro_header(t) {
            Some((name, params)) => Ok(
                Collected {
                    open: Some(
                        (name, MacroView { params, locals: Seq::empty(), body: Seq::empty() }),
                    ),
                    ..st
                },
            ),
            None => Ok(Collected { kept: st.kept.push((raw, line)), ..st }),
        },
    }
}

/// The collecting pass behind the lines `v`, numbered from 1.
pub open spec fn collect_lines(v: Seq<Seq<char>>) -> Result<Collected, Seq<char>>
    decreases v.len(),
{
    if v.len() == 0 {
        Ok(Collected { macros: Seq::empty(), kept: Seq::empty(), open: None })
    } else {
        match collect_lines(v.drop_last()) {
            Ok(st) => collect_line(st, v.last(), v.len() as int),
            Err(m) => Err(m),
        }
    }
}

/// The macro `name`: its latest definition.
pub open spec fn macro_named(ms: Seq<(Seq<char>, MacroView)>, name: Seq<char>) -> Option<MacroView>
    decreases ms.len(),
{
    if ms.len() == 0 {
        None
    } else if ms.last().0 == name {
        Some(ms.last().1)
    } else {
        macro_named(ms.drop_last(), name)
    }
}

/// The lines expanded so far, and how many macros have been expanded.
pub struct Expanded {
    pub out: Seq<NumberedLine>,
    pub count: int,
}

/// The number of the next expansion (a machine word that wraps around).
pub open spec fn next_count(n: int) -> int {
    if n >= usize::MAX {
        0
    } else {
        n + 1
    }
}

/// The first word of a line: what stands before a space or a comma.
pub open spec fn head_name(body: Seq<char>) -> Seq<char> {
    body.take(text::first_from(body, |c: char| text::is_ws(c) || c == ',', 0))
}

/// The arguments of the macro invocation `body`.
pub open spec fn invocation_args(body: Seq<char>) -> Seq<Seq<char>> {
    let a = text::trim(body.skip(head_name(body).len() as int));
    if a.len() == 0 {
        Seq::empty()
    } else {
        lex::trim_each(lex::split_commas(a))
    }
}

/// The label that stands for the `LOCAL` name `l` in expansion number `id`.
pub open spec fn local_label(l: Seq<char>, id: int) -> Seq<char> {
    l + "__m"@ + text::signed_dec(id)
}

/// The substitutions of one expansion: parameters by arguments, then `LOCAL`
/// names by labels of this expansion's own.
pub open spec fn expansion_subs(mac: MacroView, args: Seq<Seq<char>>, id: int) -> Seq<
    (Seq<char>, Seq<char>),
> {
    Seq::new(mac.params.len(), |i: int| (mac.params[i], args[i])) + Seq::new(
        mac.locals.len(),
        |i: int| (mac.locals[i], local_label(mac.locals[i], id)),
    )
}

pub open spec fn arity_message(name: Seq<char>, want: int, got: int) -> Seq<char> {
    "macro `"@ + name + "` expects "@ + text::signed_dec(want) + " argument(s), got "@ + text::signed_dec(got)
}

/// How deep macros may invoke one another.
pub open spec fn max_depth() -> int {
    64
}

/// The expansion of `line` (from the source line `orig`) at nesting `depth`: if
/// its first word names a macro, the macro's body with the arguments and local
/// labels substituted, expanded in turn; else the line itself.
pub open spec fn expand(
    line: Seq<char>,
    orig: int,
    ms: Seq<(Seq<char>, MacroView)>,
    st: Expanded,
    depth: int,
) -> Result<Expanded, Seq<char>>
    decreases max_depth() + 1 - depth, 0int, 1int,
{
    let body = text::trim(lex::strip_comment(line));
    let name = head_name(body);
    if depth > max_depth() {
        Err("macro expansion too deep (recursive macro?)"@)
    } else {
        match macro_named(ms, name) {
            None => Ok(Expanded { out: st.out.push((line, orig)), ..st }),
            Some(mac) => {
                let args = invocation_args(body);
                if args.len() != mac.params.len() {
                    Err(arity_message(name, mac.params.len() as int, args.len() as int))
                } else {
                    expand_body(
                        mac.body,
                        expansion_subs(mac, args, st.count),
                        orig,
                        ms,
                        Expanded { count: next_count(st.count), ..st },
                        depth + 1,
                    )
                }
            },
        }
    }
}

/// The expansion of the lines `body`, each with `subs` substituted.
pub open spec fn expand_body(
    body: Seq<Seq<char>>,
    subs: Seq<(Seq<char>, Seq<char>)>,
    orig: int,
    ms: Seq<(Seq<char>, MacroView)>,
    st: Expanded,
    depth: int,
) -> Result<Expanded, Seq<char>>
    decreases max_depth() + 1 - depth, body.len(), 2int,
{
    if body.len() == 0 {
        Ok(st)
    } else {
        match expand_body(body.drop_last(), subs, orig, ms, st, depth) {
            Ok(st1) => expand(substitution(body.last(), subs), orig, ms, st1, depth),
            Err(m) => Err(m),
        }
    }
}

/// The expansion of the kept lines `v`.
pub open spec fn expand_kept(v: Seq<NumberedLine>, ms: Seq<(Seq<char>, MacroView)>) -> Result<
    Expanded,
    Seq<char>,
>
    decreases v.len(),
{
    if v.len() == 0 {
        Ok(Expanded { out: Seq::empty(), count: 0 })
    } else {
        match expand_kept(v.drop_last(), ms) {
            Ok(st) => expand(v.last().0, v.last().1, ms, st, 0),
            Err(m) => Err(m),
        }
    }
}

/// The lines `v`, each ended by a line feed.
pub open spec fn joined_lines(v: Seq<NumberedLine>) -> Seq<char>
    decreases v.len(),
{
    if v.len() == 0 {
        Seq::empty()
    } else {
        (joined_lines(v.drop_last()) + v.last().0).push('\n')
    }
}

/// The source lines of the lines `v`.
pub open spec fn line_numbers(v: Seq<NumberedLine>) -> Seq<int> {
    Seq::new(v.len(), |i: int| v[i].1)
}

/// The macro-free text of `src`, and for each of its lines the source line it
/// comes from (a macro's body comes from the invocation).
pub open spec fn macro_expansion(src: Seq<char>) -> Result<(Seq<char>, Seq<int>), Seq<char>> {
    match collect_lines(text::lines(src)) {
        Err(m) => Err(m),
        Ok(st) => if st.open is Some {
            Err("macro definition without `ENDM`"@)
        } else {
            match expand_kept(st.kept, st.macros) {
                Err(m) => Err(m),
                Ok(e) => Ok((joined_lines(e.out), line_numbers(e.out))),
            }
        },
    }
}

/// A collected macro.
struct Macro {
    params: Vec<Vec<char>>,
    locals: Vec<Vec<char>>,
    body: Vec<Vec<char>>,
}

impl Macro {
    spec fn shown(self) -> MacroView {
        MacroView {
            params: text::texts(self.params@),
            locals: text::texts(self.locals@),
            body: text::texts(self.body@),
        }
    }
}

spec fn macros_view(v: Seq<(Vec<char>, Macro)>) -> Seq<(Seq<char>, MacroView)> {
    Seq::new(v.len(), |i: int| (v[i].0@, v[i].1.shown()))
}

/// The views of a list of numbered lines.
pub open spec fn numbered_view(v: Seq<(Vec<char>, usize)>) -> Seq<NumberedLine> {
    Seq::new(v.len(), |i: int| (v[i].0@, v[i].1 as int))
}

spec fn open_view(o: Option<(Vec<char>, Macro)>) -> Option<(Seq<char>, MacroView)> {
    match o {
        Some((n, m)) => Some((n@, m.shown())),
        None => None,
    }
}

fn find_macro<'a>(ms: &'a Vec<(Vec<char>, Macro)>, name: &[char]) -> (r: Option<&'a Macro>)
    ensures
        (match r {
            Some(m) => Some(m.shown()),
            None => None,
        }) == macro_named(macros_view(ms@), name@),
{
    let ghost all = macros_view(ms@);
    let mut n: usize = ms.len();
    assert(all.take(all.len() as int) =~= all);
    while n > 0
        invariant
            all == macros_view(ms@),
            n <= ms@.len(),
            macro_named(all, name@) == macro_named(all.take(n as int), name@),
        decreases n,
    {
        assert(all.take(n as int).last() == all[n - 1]);
        if same(&ms[n - 1].0, name) {
            return Some(&ms[n - 1].1);
        }
        assert(all.take(n as int).drop_last() =~= all.take(n - 1));
        n -= 1;
    }
    None
}

/// Copies of the texts of strings.
fn chars_each(v: &Vec<String>) -> (r: Vec<Vec<char>>)
    ensures
        text::texts(r@) == text::strings(v@),
{
    let mut r: Vec<Vec<char>> = Vec::new();
    let mut i: usize = 0;
    while i < v.len()
        invariant
            i <= v@.len(),
            text::texts(r@) =~= text::strings(v@).take(i as int),
        decreases v@.len() - i,
    {
        let c = chars_of(v[i].as_str());
        let ghost before = text::texts(r@);
        r.push(c);
        assert(text::texts(r@) =~= before.push(c@));
        i += 1;
    }
    assert(text::texts(r@) =~= text::strings(v@));
    r
}

/// The texts `v`, trimmed and copied.
pub fn trimmed_copies(v: &Vec<&[char]>) -> (r: Vec<Vec<char>>)
    ensures
        text::texts(r@) == lex::trim_each(text::slices(v@)),
{
    let mut r: Vec<Vec<char>> = Vec::new();
    let mut i: usize = 0;
    while i < v.len()
        invariant
            i <= v@.len(),
            text::texts(r@) =~= lex::trim_each(text::slices(v@)).take(i as int),
        decreases v@.len() - i,
    {
        let c = copy_of(trimmed(v[i]));
        let ghost before = text::texts(r@);
        r.push(c);
        assert(text::texts(r@) =~= before.push(c@));
        i += 1;
    }
    r
}

fn append_texts(a: &mut Vec<Vec<char>>, b: Vec<Vec<char>>)
    ensures
        text::texts(final(a)@) == text::texts(old(a)@) + text::texts(b@),
{
    let mut rest = b;
    a.append(&mut rest);
    assert(text::texts(a@) =~= text::texts(old(a)@) + text::texts(b@));
}

fn push_line(v: &mut Vec<(Vec<char>, usize)>, line: &[char], orig: usize)
    ensures
        numbered_view(final(v)@) == numbered_view(old(v)@).push((line@, orig as int)),
{
    let c = copy_of(line);
    v.push((c, orig));
    assert(numbered_view(v@) =~= numbered_view(old(v)@).push((line@, orig as int)));
}

/// The substitutions of one expansion.
fn subs_of(mac: &Macro, args: &Vec<Vec<char>>, id: usize) -> (r: Vec<(Vec<char>, Vec<char>)>)
    requires
        args@.len() == mac.params@.len(),
    ensures
        pair_texts(r@) == expansion_subs(mac.shown(), text::texts(args@), id as int),
{
    let ghost want = expansion_subs(mac.shown(), text::texts(args@), id as int);
    let mut r: Vec<(Vec<char>, Vec<char>)> = Vec::new();
    let mut i: usize = 0;
    while i < mac.params.len()
        invariant
            want == expansion_subs(mac.shown(), text::texts(args@), id as int),
            args@.len() == mac.params@.len(),
            i <= mac.params@.len(),
            pair_texts(r@) =~= want.take(i as int),
        decreases mac.params@.len() - i,
    {
        let a = copy_of(&mac.params[i]);
        let b = copy_of(&args[i]);
        let ghost before = pair_texts(r@);
        r.push((a, b));
        assert(pair_texts(r@) =~= before.push((a@, b@)));
        assert(want[i as int] == (a@, b@));
        i += 1;
    }
    let mut k: usize = 0;
    while k < mac.locals.len()
        invariant
            want == expansion_subs(mac.shown(), text::texts(args@), id as int),
            k <= mac.locals@.len(),
            pair_texts(r@) =~= want.take(mac.params@.len() + k),
        decreases mac.locals@.len() - k,
    {
        let a = copy_of(&mac.locals[k]);
        let mut b = copy_of(&mac.locals[k]);
        push_str(&mut b, "__m");
        let d = signed_dec_of(id as i128);
        push_all(&mut b, &d);
        let ghost before = pair_texts(r@);
        r.push((a, b));
        assert(pair_texts(r@) =~= before.push((a@, b@)));
        assert(want[mac.params@.len() + k] == (a@, b@));
        k += 1;
    }
    assert(pair_texts(r@) =~= want);
    r
}

/// Expand `line` (from the source line `orig`) into `out`.
fn expand_line(
    line: &[char],
    orig: usize,
    ms: &Vec<(Vec<char>, Macro)>,
    out: &mut Vec<(Vec<char>, usize)>,
    depth: usize,
    count: &mut usize,
) -> (r: Result<(), String>)
    requires
        depth <= max_depth() + 1,
    ensures
        ({
            let want = expand(
                line@,
                orig as int,
                macros_view(ms@),
                Expanded { out: numbered_view(old(out)@), count: *old(count) as int },
                depth as int,
            );
            match r {
                Ok(()) => want == Ok::<Expanded, Seq<char>>(
                    Expanded { out: numbered_view(final(out)@), count: *final(count) as int },
                ),
                Err(m) => want == Err::<Expanded, Seq<char>>(m@),
            }
        }),
    decreases max_depth() + 1 - depth,
{
    if depth > 64 {
        return Err("macro expansion too deep (recursive macro?)".to_owned());
    }
    let body = trimmed(without_comment(line));
    let mut n: usize = 0;
    let ghost p = |c: char| text::is_ws(c) || c == ',';
    while n < body.len()
        invariant_except_break
            p == (|c: char| text::is_ws(c) || c == ','),
            n <= body@.len(),
            text::first_from(body@, p, 0) == text::first_from(body@, p, n as int),
        ensures
            n <= body@.len(),
            n == text::first_from(body@, p, 0),
        decreases body@.len() - n,
    {
        if char_is_ws(body[n]) || body[n] == ',' {
            break;
        }
        n += 1;
    }
    let name = slice_subrange(body, 0, n);
    assert(name@ == head_name(body@));
    match find_macro(ms, name) {
        None => {
            push_line(out, line, orig);
            Ok(())
        },
        Some(mac) => {
            let a = trimmed(slice_subrange(body, n, body.len()));
            let args: Vec<Vec<char>> = if a.len() == 0 {
                Vec::new()
            } else {
                let pieces = split_top_commas(a);
                trimmed_copies(&pieces)
            };
            assert(text::texts(args@) =~= invocation_args(body@));
            if args.len() != mac.params.len() {
                let mut m = "macro `".to_owned();
                push_text(&mut m, name);
                m.append("` expects ");
                push_dec(&mut m, mac.params.len() as i128);
                m.append(" argument(s), got ");
                push_dec(&mut m, args.len() as i128);
                return Err(m);
            }
            let id: usize = *count;
            *count = if id == usize::MAX {
                0
            } else {
                id + 1
            };
            let subs = subs_of(mac, &args, id);
            let ghost bv = mac.shown().body;
            let ghost sv = pair_texts(subs@);
            let ghost st0 = Expanded { out: numbered_view(out@), count: *count as int };
            let ghost want = expand_body(bv, sv, orig as int, macros_view(ms@), st0, depth + 1);
            let mut i: usize = 0;
            while i < mac.body.len()
                invariant
                    want == expand_body(bv, sv, orig as int, macros_view(ms@), st0, depth + 1),
                    want == expand(
                        line@,
                        orig as int,
                        macros_view(ms@),
                        Expanded { out: numbered_view(old(out)@), count: *old(count) as int },
                        depth as int,
                    ),
                    depth <= 64,
                    bv == text::texts(mac.body@),
                    sv == pair_texts(subs@),
                    i <= mac.body@.len(),
                    expand_body(
                        bv.take(i as int),
                        sv,
                        orig as int,
                        macros_view(ms@),
                        st0,
                        depth + 1,
                    ) == Ok::<Expanded, Seq<char>>(
                        Expanded { out: numbered_view(out@), count: *count as int },
                    ),
                decreases mac.body@.len() - i,
            {
                proof {
                    assert(bv.take(i as int + 1).drop_last() =~= bv.take(i as int));
                    assert(bv.take(i as int + 1).last() == bv[i as int]);
                }
                let sub = substitute(&mac.body[i], &subs);
                match expand_line(&sub, orig, ms, out, depth + 1, count) {
                    Ok(()) => {},
                    Err(m) => {
                        proof {
                            lemma_body_error(
                                bv,
                                sv,
                                orig as int,
                                macros_view(ms@),
                                st0,
                                depth + 1,
                                i as int + 1,
                                m@,
                            );
                        }
                        return Err(m);
                    },
                }
                i += 1;
            }
            assert(bv.take(bv.len() as int) =~= bv);
            Ok(())
        },
    }
}

/// An error in the first lines of a body is the error of the whole body.
proof fn lemma_body_error(
    body: Seq<Seq<char>>,
    subs: Seq<(Seq<char>, Seq<char>)>,
    orig: int,
    ms: Seq<(Seq<char>, MacroView)>,
    st: Expanded,
    depth: int,
    i: int,
    m: Seq<char>,
)
    requires
        0 <= i <= body.len(),
        expand_body(body.take(i), subs, orig, ms, st, depth) == Err::<Expanded, Seq<char>>(m),
    ensures
        expand_body(body, subs, orig, ms, st, depth) == Err::<Expanded, Seq<char>>(m),
    decreases body.len(),
{
    if i == body.len() {
        assert(body.take(i) =~= body);
    } else {
        assert(body.drop_last().take(i) =~= body.take(i));
        lemma_body_error(body.drop_last(), subs, orig, ms, st, depth, i, m);
    }
}

proof fn lemma_collect_error(v: Seq<Seq<char>>, i: int, m: Seq<char>)
    requires
        0 <= i <= v.len(),
        collect_lines(v.take(i)) == Err::<Collected, Seq<char>>(m),
    ensures
        collect_lines(v) == Err::<Collected, Seq<char>>(m),
    decreases v.len(),
{
    if i == v.len() {
        assert(v.take(i) =~= v);
    } else {
        assert(v.drop_last().take(i) =~= v.take(i));
        lemma_collect_error(v.drop_last(), i, m);
    }
}

proof fn lemma_kept_error(
    v: Seq<NumberedLine>,
    ms: Seq<(Seq<char>, MacroView)>,
    i: int,
    m: Seq<char>,
)
    requires
        0 <= i <= v.len(),
        expand_kept(v.take(i), ms) == Err::<Expanded, Seq<char>>(m),
    ensures
        expand_kept(v, ms) == Err::<Expanded, Seq<char>>(m),
    decreases v.len(),
{
    if i == v.len() {
        assert(v.take(i) =~= v);
    } else {
        assert(v.drop_last().take(i) =~= v.take(i));
        lemma_kept_error(v.drop_last(), ms, i, m);
    }
}

/// The collecting pass: the macros of the source and the lines that are no
/// definition.
fn collect_macros(src: &[char]) -> (r: Result<
    (Vec<(Vec<char>, Macro)>, Vec<(Vec<char>, usize)>),
    String,
>)
    ensures
        (match r {
            Ok((ms, kept)) => collect_lines(text::lines(src@)) == Ok::<Collected, Seq<char>>(
                Collected { macros: macros_view(ms@), kept: numbered_view(kept@), open: None },
            ),
            Err(m) => match collect_lines(text::lines(src@)) {
                Err(e) => e == m@,
                Ok(st) => st.open is Some && m@ == "macro definition without `ENDM`"@,
            },
        }),
{
    let lv = lines_of(src);
    let ghost all = text::lines(src@);
    let mut macros: Vec<(Vec<char>, Macro)> = Vec::new();
    let mut kept: Vec<(Vec<char>, usize)> = Vec::new();
    let mut open: Option<(Vec<char>, Macro)> = None;
    assert(macros_view(macros@) =~= Seq::empty());
    assert(numbered_view(kept@) =~= Seq::empty());
    let mut i: usize = 0;
    while i < lv.len()
        invariant
            all == text::lines(src@),
            text::slices(lv@) == all,
            i <= lv@.len(),
            collect_lines(all.take(i as int)) == Ok::<Collected, Seq<char>>(
                Collected {
                    macros: macros_view(macros@),
                    kept: numbered_view(kept@),
                    open: open_view(open),
                },
            ),
        decreases lv@.len() - i,
    {
        let raw = lv[i];
        proof {
            assert(all.take(i as int + 1).drop_last() =~= all.take(i as int));
            assert(all.take(i as int + 1).last() == raw@);
        }
        let t = trimmed(without_comment(raw));
        let cur = open;
        open = None;
        match cur {
            Some((name, mac)) => {
                if is_endm(t) {
                    let ghost before = macros_view(macros@);
                    macros.push((name, mac));
                    assert(macros_view(macros@) =~= before.push((name@, mac.shown())));
                } else {
                    let mut mac = mac;
                    match parse_local(t) {
                        Some(ls) => {
                            append_texts(&mut mac.locals, ls);
                            open = Some((name, mac));
                        },
                        None => {
                            if parse_macro_def(t).is_some() {
                                let mut m = "line ".to_owned();
                                push_dec(&mut m, (i + 1) as i128);
                                m.append(": nested macro definition is not supported");
                                proof {
                                    lemma_collect_error(all, i as int + 1, m@);
                                }
                                return Err(m);
                            }
                            let c = copy_of(raw);
                            let ghost before = text::texts(mac.body@);
                            mac.body.push(c);
                            assert(text::texts(mac.body@) =~= before.push(raw@));
                            open = Some((name, mac));
                        },
                    }
                }
            },
            None => match parse_macro_def(t) {
                Some((name, params)) => {
                    let pc = chars_each(&params);
                    let nc = chars_of(name.as_str());
                    let mac = Macro { params: pc, locals: Vec::new(), body: Vec::new() };
                    assert(text::texts(mac.locals@) =~= Seq::empty());
                    assert(text::texts(mac.body@) =~= Seq::empty());
                    open = Some((nc, mac));
                },
                None => {
                    push_line(&mut kept, raw, i + 1);
                },
            },
        }
        i += 1;
    }
    assert(all.take(all.len() as int) =~= all);
    match open {
        Some(_) => Err("macro definition without `ENDM`".to_owned()),
        None => Ok((macros, kept)),
    }
}

/// The numbers of a map, as integers.
pub open spec fn map_view(v: Seq<usize>) -> Seq<int> {
    Seq::new(v.len(), |i: int| v[i] as int)
}

/// Expand the macros of `src`: the macro-free text, and for each of its lines
/// the 1-based source line it comes from. Definitions produce no output.
pub fn expand_macros(src: &[char]) -> (r: Result<(Vec<char>, Vec<usize>), String>)
    ensures
        (match r {
            Ok((t, m)) => macro_expansion(src@) == Ok::<(Seq<char>, Seq<int>), Seq<char>>(
                (t@, map_view(m@)),
            ),
            Err(e) => macro_expansion(src@) == Err::<(Seq<char>, Seq<int>), Seq<char>>(e@),
        }),
{
    let (ms, kept) = match collect_macros(src) {
        Ok(x) => x,
        Err(m) => return Err(m),
    };
    let ghost kv = numbered_view(kept@);
    let ghost mv = macros_view(ms@);
    let mut out: Vec<(Vec<char>, usize)> = Vec::new();
    let mut count: usize = 0;
    assert(numbered_view(out@) =~= Seq::empty());
    let mut i: usize = 0;
    while i < kept.len()
        invariant
            collect_lines(text::lines(src@)) == Ok::<Collected, Seq<char>>(
                Collected { macros: mv, kept: kv, open: None },
            ),
            kv == numbered_view(kept@),
            mv == macros_view(ms@),
            i <= kept@.len(),
            expand_kept(kv.take(i as int), mv) == Ok::<Expanded, Seq<char>>(
                Expanded { out: numbered_view(out@), count: count as int },
            ),
        decreases kept@.len() - i,
    {
        proof {
            assert(kv.take(i as int + 1).drop_last() =~= kv.take(i as int));
            assert(kv.take(i as int + 1).last() == kv[i as int]);
        }
        match expand_line(&kept[i].0, kept[i].1, &ms, &mut out, 0, &mut count) {
            Ok(()) => {},
            Err(m) => {
                proof {
                    lemma_kept_error(kv, mv, i as int + 1, m@);
                }
                return Err(m);
            },
        }
        i += 1;
    }
    assert(kv.take(kv.len() as int) =~= kv);
    let ghost ov = numbered_view(out@);
    let mut text: Vec<char> = Vec::new();
    let mut map: Vec<usize> = Vec::new();
    let mut k: usize = 0;
    while k < out.len()
        invariant
            ov == numbered_view(out@),
            k <= out@.len(),
            text@ == joined_lines(ov.take(k as int)),
            map_view(map@) =~= line_numbers(ov).take(k as int),
        decreases out@.len() - k,
    {
        proof {
            assert(ov.take(k as int + 1).drop_last() =~= ov.take(k as int));
            assert(ov.take(k as int + 1).last() == ov[k as int]);
        }
        push_all(&mut text, &out[k].0);
        text.push('\n');
        let ghost before = map_view(map@);
        map.push(out[k].1);
        assert(map_view(map@) =~= before.push(ov[k as int].1));
        k += 1;
    }
    assert(ov.take(ov.len() as int) =~= ov);
    assert(map_view(map@) =~= line_numbers(ov));
    Ok((text, map))
}

} // verus!
