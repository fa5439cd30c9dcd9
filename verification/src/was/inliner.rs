//! Small-procedure inliner: a reducer over the lowered assembler text.
//!
//! The text is read into a line buffer, reduced by recognise-and-replace passes,
//! and written back. Only what a pass needs is structured; every other line is
//! kept verbatim and is a barrier that passes never reason across. A call is only
//! replaced when the callee is fully understood, so anything uncertain stays a
//! call.
use crate::text;
use crate::was::macros;
use crate::was::regs;
use crate::text::{
    byte_offset, char_is_alnum, char_is_alpha, char_is_ws, chars_of, copy_of, first_word_of,
    has_prefix, indent_of, index_of_text, index_of_ws, is, lines_of, push_dec, push_str, push_text,
    same, string_of, to_lower, trimmed, without_prefix, words_of,
};
use crate::was::contract::has_reg;
use crate::was::regs::{Reg, Track, gp_reg, nonvol_reg, reg_effects};
use vstd::prelude::*;
use vstd::slice::slice_subrange;

verus! {

// ── the line buffer ─────────────────────────────────────────────────────────

/// One lowered line: its verbatim text (so that rendering is exact) and the kind
/// that the passes match on. A pass that rewrites a line replaces both.
#[derive(Clone, Debug)]
pub struct Line {
    pub text: String,
    pub kind: Kind,
}

#[derive(Clone, Debug, PartialEq, Eq)]
pub enum Kind {
    /// `name:` — a label definition.
    Label(String),
    /// `call <label>` — a direct call (not `call [rax]` / `call reg`).
    Call(String),
    /// `jmp`/`jCC`/`loop` `<label>` — a branch to a label.
    Jump(String),
    /// `ret`.
    Ret,
    /// `; @wfi NAME C` — the opener of a procedure span, behind its label.
    /// `complex` (the flag is 1) marks a procedure that is never spliced.
    ProcMark { name: String, complex: bool },
    /// `; @wfi-end NAME` — the closer of a procedure span.
    EndMark(String),
    /// Anything else, verbatim.
    Other,
}

/// The kind of a line in mathematical terms.
pub enum KindView {
    Label(Seq<char>),
    Call(Seq<char>),
    Jump(Seq<char>),
    Ret,
    ProcMark { name: Seq<char>, complex: bool },
    EndMark(Seq<char>),
    Other,
}

/// A line in mathematical terms.
pub struct BufferLine {
    pub text: Seq<char>,
    pub kind: KindView,
}

impl View for Kind {
    type V = KindView;

    open spec fn view(&self) -> KindView {
        match *self {
            Kind::Label(s) => KindView::Label(s@),
            Kind::Call(s) => KindView::Call(s@),
            Kind::Jump(s) => KindView::Jump(s@),
            Kind::Ret => KindView::Ret,
            Kind::ProcMark { name, complex } => KindView::ProcMark { name: name@, complex },
            Kind::EndMark(s) => KindView::EndMark(s@),
            Kind::Other => KindView::Other,
        }
    }
}

impl View for Line {
    type V = BufferLine;

    open spec fn view(&self) -> BufferLine {
        BufferLine { text: self.text@, kind: self.kind@ }
    }
}

/// The views of a line buffer.
pub open spec fn buffer(v: Seq<Line>) -> Seq<BufferLine> {
    Seq::new(v.len(), |i: int| v[i]@)
}

fn copy_kind(k: &Kind) -> (r: Kind)
    ensures
        r@ == k@,
{
    match k {
        Kind::Label(s) => Kind::Label(s.clone()),
        Kind::Call(s) => Kind::Call(s.clone()),
        Kind::Jump(s) => Kind::Jump(s.clone()),
        Kind::Ret => Kind::Ret,
        Kind::ProcMark { name, complex } => Kind::ProcMark {
            name: name.clone(),
            complex: *complex,
        },
        Kind::EndMark(s) => Kind::EndMark(s.clone()),
        Kind::Other => Kind::Other,
    }
}

fn copy_line(l: &Line) -> (r: Line)
    ensures
        r@ == l@,
{
    Line { text: l.text.clone(), kind: copy_kind(&l.kind) }
}

// ── classification ──────────────────────────────────────────────────────────

/// A register name that can stand as the target of an indirect call.
pub open spec fn target_register(s: Seq<char>) -> bool {
    let l = text::lower_all(s);
    l == "rax"@ || l == "rbx"@ || l == "rcx"@ || l == "rdx"@ || l == "rsi"@ || l == "rdi"@ || l == "rbp"@ || l == "rsp"@ || l == "r8"@ || l == "r9"@ || l == "r10"@ || l == "r11"@ || l == "r12"@ || l == "r13"@ || l == "r14"@ || l == "r15"@ || l == "eax"@ || l == "ebx"@ || l == "ecx"@ || l == "edx"@ || l == "esi"@ || l == "edi"@ || l == "ax"@ || l == "al"@
}

pub fn gp_or_xmm_reg(s: &[char]) -> (r: bool)
    ensures
        r == target_register(s@),
{
    let l = to_lower(s);
    is(&l, "rax") || is(&l, "rbx") || is(&l, "rcx") || is(&l, "rdx") || is(&l, "rsi") || is(&l, "rdi") || is(&l, "rbp") || is(&l, "rsp") || is(&l, "r8") || is(&l, "r9") || is(&l, "r10") || is(&l, "r11") || is(&l, "r12") || is(&l, "r13") || is(&l, "r14") || is(&l, "r15") || is(&l, "eax") || is(&l, "ebx") || is(&l, "ecx") || is(&l, "edx") || is(&l, "esi") || is(&l, "edi") || is(&l, "ax") || is(&l, "al")
}

/// A character of an assembler label.
pub open spec fn is_target_char(c: char) -> bool {
    text::is_alnum(c) || c == '_' || c == '.' || c == '$'
}

pub open spec fn target_chars(s: Seq<char>) -> bool {
    forall|i: int| 0 <= i < s.len() ==> is_target_char(#[trigger] s[i])
}

fn char_is_target(c: char) -> (r: bool)
    ensures
        r == is_target_char(c),
{
    char_is_alnum(c) || c == '_' || c == '.' || c == '$'
}

fn all_target(s: &[char]) -> (r: bool)
    ensures
        r == target_chars(s@),
{
    let mut i: usize = 0;
    while i < s.len()
        invariant
            i <= s@.len(),
            forall|j: int| 0 <= j < i ==> is_target_char(#[trigger] s@[j]),
        decreases s@.len() - i,
    {
        if !char_is_target(s[i]) {
            assert(!is_target_char(s@[i as int]));
            return false;
        }
        i += 1;
    }
    true
}

/// A single bare label operand: not memory, not a register, not an immediate.
pub open spec fn label_operand(s: Seq<char>) -> bool {
    let t = text::trim(s);
    &&& t.len() > 0
    &&& text::is_alpha(t[0]) || t[0] == '_' || t[0] == '.'
    &&& target_chars(t)
    &&& !target_register(t)
}

pub fn is_label_operand(s: &[char]) -> (r: bool)
    ensures
        r == label_operand(s@),
{
    let t = trimmed(s);
    t.len() > 0 && (char_is_alpha(t[0]) || t[0] == '_' || t[0] == '.') && all_target(t)
        && !gp_or_xmm_reg(t)
}

/// A branch mnemonic, whose operand is a label target: `jmp`, the `loop` family,
/// or a short mnemonic that begins with `j`.
pub open spec fn branch_mnemonic(mn: Seq<char>) -> bool {
    ||| mn == "jmp"@ || mn == "loop"@ || mn == "loope"@ || mn == "loopne"@ || mn == "jecxz"@ || mn
        == "jrcxz"@
    ||| mn.len() > 0 && mn[0] == 'j' && 2 <= text::byte_len(mn) <= 4
}

pub fn is_branch_mnemonic(mn: &[char]) -> (r: bool)
    ensures
        r == branch_mnemonic(mn@),
{
    if is(mn, "jmp") || is(mn, "loop") || is(mn, "loope") || is(mn, "loopne") || is(mn, "jecxz")
        || is(mn, "jrcxz") {
        return true;
    }
    proof {
        text::lemma_byte_len_bounds(mn@);
    }
    if mn.len() == 0 || mn.len() > 4 || mn[0] != 'j' {
        return false;
    }
    let n: usize = byte_offset(mn, mn.len());
    assert(mn@.take(mn@.len() as int) =~= mn@);
    2 <= n && n <= 4
}

/// What a marker comment `t` says.
pub open spec fn marker_kind(t: Seq<char>) -> KindView {
    match text::strip_prefix(t, "; @wfi-end "@) {
        Some(rest) => KindView::EndMark(text::trim(rest)),
        None => match text::strip_prefix(t, "; @wfi "@) {
            Some(rest) => {
                let w = text::words(rest);
                if w.len() > 0 {
                    KindView::ProcMark { name: w[0], complex: w.len() > 1 && w[1] == "1"@ }
                } else {
                    KindView::Other
                }
            },
            None => KindView::Other,
        },
    }
}

/// The mnemonic of the instruction `t` in lower case, and its operand text.
pub open spec fn mnemonic_and_rest(t: Seq<char>) -> (Seq<char>, Seq<char>) {
    let w = text::find_ws(t);
    if w < t.len() {
        (text::lower_all(t.take(w)), text::trim(t.skip(w + 1)))
    } else {
        (text::lower_all(t), Seq::empty())
    }
}

/// The kind of a lowered line. Only the shapes that the passes act on are
/// recognised; everything else is a barrier.
pub open spec fn kind_of(line: Seq<char>) -> KindView {
    let t = text::trim(line);
    let (mn, rest) = mnemonic_and_rest(t);
    if t.len() == 0 || t[0] == ';' {
        marker_kind(t)
    } else if t.last() == ':' && t.len() > 1 && target_chars(t.drop_last()) {
        KindView::Label(t.drop_last())
    } else if mn == "ret"@ && rest.len() == 0 {
        KindView::Ret
    } else if mn == "call"@ && label_operand(rest) {
        KindView::Call(rest)
    } else if branch_mnemonic(mn) && label_operand(rest) {
        KindView::Jump(rest)
    } else {
        KindView::Other
    }
}

fn classify_marker(t: &[char]) -> (r: Kind)
    ensures
        r@ == marker_kind(t@),
{
    match without_prefix(t, "; @wfi-end ") {
        Some(rest) => return Kind::EndMark(string_of(trimmed(rest))),
        None => {},
    }
    match without_prefix(t, "; @wfi ") {
        Some(rest) => {
            let w = words_of(rest);
            assert(text::slices(w@).len() == w@.len());
            if w.len() > 0 {
                assert(text::slices(w@)[0] == w@[0]@);
                assert(w@.len() > 1 ==> text::slices(w@)[1] == w@[1]@);
                let complex = w.len() > 1 && is(w[1], "1");
                return Kind::ProcMark { name: string_of(w[0]), complex };
            }
        },
        None => {},
    }
    Kind::Other
}

/// Classify a lowered line.
pub fn classify(line: &[char]) -> (r: Kind)
    ensures
        r@ == kind_of(line@),
{
    let t = trimmed(line);
    if t.len() == 0 || t[0] == ';' {
        return classify_marker(t);
    }
    if t[t.len() - 1] == ':' && t.len() > 1 {
        let name = slice_subrange(t, 0, t.len() - 1);
        assert(name@ =~= t@.drop_last());
        if all_target(name) {
            return Kind::Label(string_of(name));
        }
    }
    let w: usize = index_of_ws(t);
    let mn = to_lower(slice_subrange(t, 0, w));
    let rest = if w < t.len() {
        trimmed(slice_subrange(t, w + 1, t.len()))
    } else {
        slice_subrange(t, 0, 0)
    };
    proof {
        if w >= t@.len() {
            assert(t@.take(w as int) =~= t@);
            assert(rest@ =~= Seq::empty());
        }
        assert((mn@, rest@) == mnemonic_and_rest(t@));
    }
    if is(&mn, "ret") && rest.len() == 0 {
        return Kind::Ret;
    }
    if is(&mn, "call") && is_label_operand(rest) {
        return Kind::Call(string_of(rest));
    }
    if is_branch_mnemonic(&mn) && is_label_operand(rest) {
        return Kind::Jump(string_of(rest));
    }
    Kind::Other
}

// ── reading and writing ─────────────────────────────────────────────────────

/// The line buffer of lowered text.
pub open spec fn parsed(code: Seq<char>) -> Seq<BufferLine> {
    text::lines(code).map_values(|l: Seq<char>| BufferLine { text: l, kind: kind_of(l) })
}

/// The text of a line buffer: each line, ended by a line feed.
pub open spec fn rendered(v: Seq<BufferLine>) -> Seq<char>
    decreases v.len(),
{
    if v.len() == 0 {
        Seq::empty()
    } else {
        (rendered(v.drop_last()) + v.last().text).push('\n')
    }
}

/// Lex lowered assembler text into the line buffer.
pub fn parse(code: &str) -> (r: Vec<Line>)
    ensures
        buffer(r@) == parsed(code@),
{
    let text = chars_of(code);
    let lv = lines_of(&text);
    let ghost all = text::lines(code@);
    let mut r: Vec<Line> = Vec::new();
    let mut i: usize = 0;
    while i < lv.len()
        invariant
            text::slices(lv@) == all,
            all == text::lines(code@),
            i <= lv@.len(),
            buffer(r@) =~= parsed(code@).take(i as int),
        decreases lv@.len() - i,
    {
        let l = Line { text: string_of(lv[i]), kind: classify(lv[i]) };
        let ghost before = buffer(r@);
        r.push(l);
        assert(buffer(r@) =~= before.push(l@));
        assert(all[i as int] == lv@[i as int]@);
        i += 1;
    }
    assert(buffer(r@) =~= parsed(code@));
    r
}

/// Render the buffer back to text, each line ended by a line feed.
pub fn render(lines: &Vec<Line>) -> (r: String)
    ensures
        r@ == rendered(buffer(lines@)),
{
    let ghost all = buffer(lines@);
    let mut s: Vec<char> = Vec::new();
    let mut i: usize = 0;
    while i < lines.len()
        invariant
            all == buffer(lines@),
            i <= lines@.len(),
            s@ == rendered(all.take(i as int)),
        decreases lines@.len() - i,
    {
        assert(all.take(i as int + 1).drop_last() =~= all.take(i as int));
        push_str(&mut s, lines[i].text.as_str());
        s.push('\n');
        i += 1;
    }
    assert(all.take(all.len() as int) =~= all);
    string_of(&s)
}

/// The text of `s` from `a` on has a line feed at its end and no carriage return
/// in front of one.
pub open spec fn plain_lines(s: Seq<char>) -> bool {
    &&& s.len() == 0 || s.last() == '\n'
    &&& forall|i: int| 0 <= i < s.len() - 1 && #[trigger] s[i] == '\r' ==> s[i + 1] != '\n'
}

/// The lines `v`, each ended by a line feed, read from the front.
spec fn ended(v: Seq<Seq<char>>) -> Seq<char>
    decreases v.len(),
{
    if v.len() == 0 {
        Seq::empty()
    } else {
        v[0].push('\n') + ended(v.drop_first())
    }
}

proof fn lemma_ended_of_lines(s: Seq<char>, a: int)
    requires
        plain_lines(s),
        0 <= a <= s.len(),
    ensures
        ended(text::lines_from(s, a)) == s.skip(a),
    decreases s.len() - a,
{
    if a < s.len() {
        text::lemma_first_from(s, text::eq_char('\n'), a);
        let n = text::first_from(s, text::eq_char('\n'), a);
        assert(n < s.len()) by {
            if n >= s.len() {
                assert(!text::eq_char('\n')(s[s.len() - 1]));
            }
        }
        assert(s[n] == '\n');
        lemma_ended_of_lines(s, n + 1);
        let v = text::lines_from(s, a);
        assert(v.drop_first() =~= text::lines_from(s, n + 1));
        if n > a {
            assert(s[n - 1] != '\r');
        }
        assert(v[0] == s.subrange(a, n));
        assert(s.subrange(a, n).push('\n') + s.skip(n + 1) =~= s.skip(a));
    } else {
        assert(s.skip(a) =~= Seq::empty());
    }
}

proof fn lemma_rendered_is_ended(v: Seq<BufferLine>)
    ensures
        rendered(v) == ended(v.map_values(|l: BufferLine| l.text)),
    decreases v.len(),
{
    let t = v.map_values(|l: BufferLine| l.text);
    if v.len() == 0 {
    } else {
        lemma_rendered_is_ended(v.drop_last());
        assert(v.drop_last().map_values(|l: BufferLine| l.text) =~= t.drop_last());
        lemma_ended_push(t.drop_last(), t.last());
        assert(t.drop_last().push(t.last()) =~= t);
        assert(ended(t.drop_last()) + t.last().push('\n') =~= (ended(t.drop_last())
            + t.last()).push('\n'));
    }
}

proof fn lemma_ended_push(v: Seq<Seq<char>>, x: Seq<char>)
    ensures
        ended(v.push(x)) == ended(v) + x.push('\n'),
    decreases v.len(),
{
    if v.len() == 0 {
        assert(v.push(x).drop_first() =~= v);
        assert(v.push(x)[0] == x);
        assert(x.push('\n') + Seq::<char>::empty() =~= x.push('\n'));
        assert(Seq::<char>::empty() + x.push('\n') =~= x.push('\n'));
    } else {
        lemma_ended_push(v.drop_first(), x);
        assert(v.push(x)[0] == v[0]);
        assert(v.push(x).drop_first() =~= v.drop_first().push(x));
        assert(v[0].push('\n') + (ended(v.drop_first()) + x.push('\n')) =~= v[0].push('\n')
            + ended(v.drop_first()) + x.push('\n'));
    }
}

/// Reading lowered text into the buffer and writing it back is the identity,
/// where every line is ended by a plain line feed.
pub proof fn law_render_undoes_parse(code: Seq<char>)
    requires
        plain_lines(code),
    ensures
        rendered(parsed(code)) == code,
{
    lemma_rendered_is_ended(parsed(code));
    lemma_ended_of_lines(code, 0);
    assert(code.skip(0) =~= code);
    assert(parsed(code).map_values(|l: BufferLine| l.text) =~= text::lines(code));
}

// ── procedure spans ─────────────────────────────────────────────────────────

/// A procedure's span in the buffer, from its opener marker (behind its label) to
/// its closer.
pub struct SpanView {
    pub name: Seq<char>,
    pub open: int,
    pub close: int,
    pub complex: bool,
}

/// The spans closed so far, and the open one.
pub struct SpanScan {
    pub spans: Seq<SpanView>,
    pub open: Option<(Seq<char>, int, bool)>,
}

/// The spans of the first `n` lines: each opener is paired with the next closer,
/// if that has its name.
pub open spec fn spans_scan(v: Seq<BufferLine>, n: nat) -> SpanScan
    decreases n,
{
    if n == 0 {
        SpanScan { spans: Seq::empty(), open: None }
    } else {
        let st = spans_scan(v, (n - 1) as nat);
        match v[n - 1].kind {
            KindView::ProcMark { name, complex } => SpanScan {
                open: Some((name, n - 1, complex)),
                ..st
            },
            KindView::EndMark(name) => match st.open {
                Some((m, open, complex)) => SpanScan {
                    spans: if m == name {
                        st.spans.push(SpanView { name: m, open, close: n - 1, complex })
                    } else {
                        st.spans
                    },
                    open: None,
                },
                None => st,
            },
            _ => st,
        }
    }
}

/// The procedure spans of the buffer.
pub open spec fn proc_spans(v: Seq<BufferLine>) -> Seq<SpanView> {
    spans_scan(v, v.len()).spans
}

/// Every span lies within the buffer and closes behind its opener.
pub proof fn law_spans_within(v: Seq<BufferLine>, n: nat)
    requires
        n <= v.len(),
    ensures
        forall|i: int|
            0 <= i < spans_scan(v, n).spans.len() ==> 0 <= (#[trigger] spans_scan(v, n).spans[i]).open
                < spans_scan(v, n).spans[i].close < n,
        spans_scan(v, n).open matches Some((_, o, _)) ==> 0 <= o < n,
    decreases n,
{
    if n > 0 {
        law_spans_within(v, (n - 1) as nat);
    }
}

/// A procedure's span in machine terms.
struct ProcSpan {
    name: String,
    open: usize,
    close: usize,
    complex: bool,
}

impl ProcSpan {
    spec fn span(self) -> SpanView {
        SpanView {
            name: self.name@,
            open: self.open as int,
            close: self.close as int,
            complex: self.complex,
        }
    }
}

spec fn spans_view(v: Seq<ProcSpan>) -> Seq<SpanView> {
    Seq::new(v.len(), |i: int| v[i].span())
}

/// Pair each opener and closer marker into a span.
fn collect_procs(lines: &Vec<Line>) -> (r: Vec<ProcSpan>)
    ensures
        spans_view(r@) == proc_spans(buffer(lines@)),
        forall|i: int| 0 <= i < r@.len() ==> (#[trigger] r@[i]).open < r@[i].close < lines@.len(),
{
    let ghost all = buffer(lines@);
    let mut spans: Vec<ProcSpan> = Vec::new();
    let mut open: Option<(String, usize, bool)> = None;
    assert(spans_view(spans@) =~= Seq::empty());
    let mut i: usize = 0;
    while i < lines.len()
        invariant
            all == buffer(lines@),
            i <= lines@.len(),
            spans_scan(all, i as nat) == (SpanScan {
                spans: spans_view(spans@),
                open: match open {
                    Some((n, o, c)) => Some((n@, o as int, c)),
                    None => None,
                },
            }),
            open matches Some((_, o, _)) ==> o < i,
            forall|k: int|
                0 <= k < spans@.len() ==> (#[trigger] spans@[k]).open < spans@[k].close < i,
        decreases lines@.len() - i,
    {
        assert(all[i as int] == lines@[i as int]@);
        match &lines[i].kind {
            Kind::ProcMark { name, complex } => {
                open = Some((name.clone(), i, *complex));
            },
            Kind::EndMark(name) => {
                let was = open;
                open = None;
                match was {
                    Some((n, o, c)) => {
                        if n == *name {
                            let ghost before = spans_view(spans@);
                            let s = ProcSpan { name: n, open: o, close: i, complex: c };
                            spans.push(s);
                            assert(spans_view(spans@) =~= before.push(s.span()));
                        }
                    },
                    None => {},
                }
            },
            _ => {},
        }
        i += 1;
    }
    spans
}

/// The body to splice: everything between the two markers.
pub open spec fn span_body(v: Seq<BufferLine>, s: SpanView) -> Seq<BufferLine> {
    v.subrange(s.open + 1, s.close)
}

/// A line that emits a real instruction.
pub open spec fn emits(l: BufferLine) -> bool {
    match l.kind {
        KindView::Label(_) => false,
        KindView::ProcMark { .. } => false,
        KindView::EndMark(_) => false,
        KindView::Other => text::trim(l.text).len() > 0 && text::trim(l.text)[0] != ';',
        _ => true,
    }
}

pub fn is_instruction(l: &Line) -> (r: bool)
    ensures
        r == emits(l@),
{
    match &l.kind {
        Kind::Label(_) => false,
        Kind::ProcMark { .. } => false,
        Kind::EndMark(_) => false,
        Kind::Other => {
            let c = chars_of(l.text.as_str());
            let t = trimmed(&c);
            t.len() > 0 && t[0] != ';'
        },
        _ => true,
    }
}

/// How many lines of `v` emit an instruction.
pub open spec fn instruction_count(v: Seq<BufferLine>) -> nat
    decreases v.len(),
{
    if v.len() == 0 {
        0
    } else {
        instruction_count(v.drop_last()) + if emits(v.last()) {
            1nat
        } else {
            0nat
        }
    }
}

/// No line of `v` is a call.
pub open spec fn is_leaf(v: Seq<BufferLine>) -> bool {
    forall|i: int| 0 <= i < v.len() ==> !((#[trigger] v[i]).kind is Call)
}

/// A procedure can be inlined: it is plain and a leaf, and has between one and
/// `threshold` instructions.
pub open spec fn inlinable(v: Seq<BufferLine>, s: SpanView, threshold: int) -> bool {
    let body = span_body(v, s);
    !s.complex && is_leaf(body) && 1 <= instruction_count(body) <= threshold
}

fn is_eligible(lines: &Vec<Line>, s: &ProcSpan, threshold: usize) -> (r: bool)
    requires
        s.open < s.close < lines@.len(),
    ensures
        r == inlinable(buffer(lines@), s.span(), threshold as int),
{
    if s.complex {
        return false;
    }
    let ghost body = span_body(buffer(lines@), s.span());
    let mut n: usize = 0;
    let mut i: usize = s.open + 1;
    while i < s.close
        invariant
            s.open < s.close < lines@.len(),
            body == span_body(buffer(lines@), s.span()),
            s.open + 1 <= i <= s.close,
            n <= i,
            n == instruction_count(body.take(i - s.open - 1)),
            forall|k: int| 0 <= k < i - s.open - 1 ==> !((#[trigger] body[k]).kind is Call),
        decreases s.close - i,
    {
        let ghost k = i - s.open - 1;
        assert(body[k] == lines@[i as int]@);
        assert(body.take(k + 1).drop_last() =~= body.take(k));
        match &lines[i].kind {
            Kind::Call(_) => {
                assert(body[k].kind is Call);
                return false;
            },
            _ => {},
        }
        if is_instruction(&lines[i]) {
            n += 1;
        }
        i += 1;
    }
    assert(body.take(body.len() as int) =~= body);
    n > 0 && n <= threshold
}

/// `name` appears in `s` as a whole token.
pub open spec fn has_token(s: Seq<char>, name: Seq<char>) -> bool {
    text::split_from(s, |c: char| !is_target_char(c), 0).contains(name)
}

pub fn contains_word(s: &[char], name: &[char]) -> (r: bool)
    ensures
        r == has_token(s@, name@),
{
    let ghost p = |c: char| !is_target_char(c);
    let ghost all = text::split_from(s@, p, 0);
    let ghost mut done: Seq<Seq<char>> = Seq::empty();
    let mut start: usize = 0;
    loop
        invariant
            p == (|c: char| !is_target_char(c)),
            all == text::split_from(s@, p, 0),
            start <= s@.len(),
            done + text::split_from(s@, p, start as int) =~= all,
            !done.contains(name@),
        decreases s@.len() - start,
    {
        let mut n: usize = start;
        while n < s.len()
            invariant_except_break
                p == (|c: char| !is_target_char(c)),
                start <= n <= s@.len(),
                text::first_from(s@, p, start as int) == text::first_from(s@, p, n as int),
            ensures
                start <= n <= s@.len(),
                text::first_from(s@, p, start as int) == n,
            decreases s@.len() - n,
        {
            if !char_is_target(s[n]) {
                break;
            }
            n += 1;
        }
        let tok = slice_subrange(s, start, n);
        let ghost before = done;
        let ghost rest = text::split_from(s@, p, start as int);
        assert(rest[0] == tok@);
        assert(all[before.len() as int] == rest[0]);
        if same(tok, name) {
            assert(all.contains(name@));
            return true;
        }
        proof {
            done = done.push(tok@);
            assert forall|k: int| 0 <= k < done.len() implies done[k] != name@ by {
                if k < before.len() {
                    assert(before.contains(before[k]));
                }
            }
        }
        if n >= s.len() {
            assert(done =~= all);
            return false;
        }
        assert(done + text::split_from(s@, p, n + 1) =~= before + (seq![tok@] + text::split_from(
            s@,
            p,
            n + 1,
        )));
        start = n + 1;
    }
}

/// The line `l` refers to `name` other than by a call: it jumps to it, or names it
/// in some other instruction or directive.
pub open spec fn refers(l: BufferLine, name: Seq<char>) -> bool {
    match l.kind {
        KindView::Jump(t) => t == name || has_token(l.text, name),
        KindView::Other => has_token(l.text, name),
        _ => false,
    }
}

/// `name` is referred to other than by a call, so its definition must stay.
pub open spec fn referenced(v: Seq<BufferLine>, name: Seq<char>) -> bool {
    exists|i: int| 0 <= i < v.len() && refers(#[trigger] v[i], name)
}

fn referenced_elsewhere(lines: &Vec<Line>, name: &String) -> (r: bool)
    ensures
        r == referenced(buffer(lines@), name@),
{
    let nc = chars_of(name.as_str());
    let ghost all = buffer(lines@);
    let mut i: usize = 0;
    while i < lines.len()
        invariant
            nc@ == name@,
            all == buffer(lines@),
            i <= lines@.len(),
            forall|k: int| 0 <= k < i ==> !refers(#[trigger] all[k], name@),
        decreases lines@.len() - i,
    {
        assert(all[i as int] == lines@[i as int]@);
        let hit = match &lines[i].kind {
            Kind::Jump(t) => {
                let c = chars_of(lines[i].text.as_str());
                *t == *name || contains_word(&c, &nc)
            },
            Kind::Other => {
                let c = chars_of(lines[i].text.as_str());
                contains_word(&c, &nc)
            },
            _ => false,
        };
        if hit {
            assert(refers(all[i as int], name@));
            return true;
        }
        i += 1;
    }
    false
}

/// The last span called `name`.
pub open spec fn span_named(spans: Seq<SpanView>, name: Seq<char>) -> Option<SpanView>
    decreases spans.len(),
{
    if spans.len() == 0 {
        None
    } else if spans.last().name == name {
        Some(spans.last())
    } else {
        span_named(spans.drop_last(), name)
    }
}

/// Some span called `name` can be inlined, so that calls of `name` are.
pub open spec fn eligible(
    v: Seq<BufferLine>,
    spans: Seq<SpanView>,
    threshold: int,
    name: Seq<char>,
) -> bool {
    exists|i: int|
        0 <= i < spans.len() && (#[trigger] spans[i]).name == name && inlinable(
            v,
            spans[i],
            threshold,
        )
}

// ── splicing ────────────────────────────────────────────────────────────────

/// The labels that `body` defines.
pub open spec fn defines(body: Seq<BufferLine>, name: Seq<char>) -> bool {
    exists|i: int| 0 <= i < body.len() && (#[trigger] body[i]).kind == KindView::Label(name)
}

/// The continuation label of the splice number `site`.
pub open spec fn cont_label(site: int) -> Seq<char> {
    "__wfi_cont_"@ + text::signed_dec(site)
}

/// A body-local label in the splice number `site`.
pub open spec fn site_label(name: Seq<char>, site: int) -> Seq<char> {
    name + "__wfi"@ + text::signed_dec(site)
}

/// The leading white space of `s`.
pub open spec fn indentation(s: Seq<char>) -> Seq<char> {
    s.take(text::first_from(s, text::not_ws(), 0))
}

/// The line `l` of `body` in the splice number `site`: a return becomes a jump to
/// the continuation, and body-local labels get a name of their own.
pub open spec fn spliced_line(body: Seq<BufferLine>, l: BufferLine, site: int) -> BufferLine {
    match l.kind {
        KindView::Ret => BufferLine {
            text: "  jmp "@ + cont_label(site),
            kind: KindView::Jump(cont_label(site)),
        },
        KindView::Label(n) => BufferLine {
            text: indentation(l.text) + site_label(n, site) + ":"@,
            kind: KindView::Label(site_label(n, site)),
        },
        KindView::Jump(t) => if defines(body, t) {
            BufferLine {
                text: indentation(l.text) + text::first_word(l.text) + " "@ + site_label(t, site),
                kind: KindView::Jump(site_label(t, site)),
            }
        } else {
            l
        },
        _ => l,
    }
}

/// The body `body` spliced at a call site: its lines, then the continuation label.
pub open spec fn spliced_body(body: Seq<BufferLine>, site: int) -> Seq<BufferLine> {
    Seq::new(body.len(), |i: int| spliced_line(body, body[i], site)).push(
        BufferLine { text: cont_label(site) + ":"@, kind: KindView::Label(cont_label(site)) },
    )
}

fn defines_label(lines: &Vec<Line>, a: usize, b: usize, name: &String) -> (r: bool)
    requires
        a <= b <= lines@.len(),
    ensures
        r == defines(buffer(lines@).subrange(a as int, b as int), name@),
{
    let ghost body = buffer(lines@).subrange(a as int, b as int);
    let mut i: usize = a;
    while i < b
        invariant
            a <= i <= b <= lines@.len(),
            body == buffer(lines@).subrange(a as int, b as int),
            forall|k: int| 0 <= k < i - a ==> (#[trigger] body[k]).kind != KindView::Label(name@),
        decreases b - i,
    {
        assert(body[i - a] == lines@[i as int]@);
        match &lines[i].kind {
            Kind::Label(n) => {
                if *n == *name {
                    assert(body[i - a].kind == KindView::Label(name@));
                    return true;
                }
            },
            _ => {},
        }
        i += 1;
    }
    false
}

fn cont_text(site: usize) -> (r: String)
    ensures
        r@ == cont_label(site as int),
{
    let mut m = "__wfi_cont_".to_owned();
    push_dec(&mut m, site as i128);
    m
}

fn site_text(name: &str, site: usize) -> (r: String)
    ensures
        r@ == site_label(name@, site as int),
{
    let mut m = name.to_owned();
    m.append("__wfi");
    push_dec(&mut m, site as i128);
    m
}

fn splice_line(lines: &Vec<Line>, a: usize, b: usize, i: usize, site: usize) -> (r: Line)
    requires
        a <= i < b <= lines@.len(),
    ensures
        r@ == spliced_line(
            buffer(lines@).subrange(a as int, b as int),
            lines@[i as int]@,
            site as int,
        ),
{
    let l = &lines[i];
    let tc = chars_of(l.text.as_str());
    match &l.kind {
        Kind::Ret => {
            let c = cont_text(site);
            let mut m = "  jmp ".to_owned();
            m.append(c.as_str());
            Line { text: m, kind: Kind::Jump(c) }
        },
        Kind::Label(n) => {
            let nn = site_text(n.as_str(), site);
            let mut m = string_of(slice_subrange(&tc, 0, indent_of(&tc)));
            m.append(nn.as_str());
            m.append(":");
            Line { text: m, kind: Kind::Label(nn) }
        },
        Kind::Jump(t) => {
            if defines_label(lines, a, b, t) {
                let nt = site_text(t.as_str(), site);
                let mut m = string_of(slice_subrange(&tc, 0, indent_of(&tc)));
                push_text(&mut m, first_word_of(&tc));
                m.append(" ");
                m.append(nt.as_str());
                Line { text: m, kind: Kind::Jump(nt) }
            } else {
                copy_line(l)
            }
        },
        _ => copy_line(l),
    }
}

/// Splice a procedure body, the lines from `a` up to `b`, at the call site number
/// `site`: body-local labels are renamed per site, and every `ret` becomes a jump
/// to a fresh continuation label at the end.
pub fn splice_body(lines: &Vec<Line>, a: usize, b: usize, site: usize) -> (r: Vec<Line>)
    requires
        a <= b <= lines@.len(),
    ensures
        buffer(r@) == spliced_body(buffer(lines@).subrange(a as int, b as int), site as int),
{
    let ghost body = buffer(lines@).subrange(a as int, b as int);
    let ghost want = spliced_body(body, site as int);
    let mut out: Vec<Line> = Vec::new();
    let mut i: usize = a;
    while i < b
        invariant
            a <= i <= b <= lines@.len(),
            body == buffer(lines@).subrange(a as int, b as int),
            want == spliced_body(body, site as int),
            buffer(out@) =~= want.take(i - a),
        decreases b - i,
    {
        let l = splice_line(lines, a, b, i, site);
        assert(body[i - a] == lines@[i as int]@);
        let ghost before = buffer(out@);
        out.push(l);
        assert(buffer(out@) =~= before.push(l@));
        i += 1;
    }
    let c = cont_text(site);
    let mut m = c.clone();
    m.append(":");
    let ghost before = buffer(out@);
    let l = Line { text: m, kind: Kind::Label(c) };
    out.push(l);
    assert(buffer(out@) =~= before.push(l@));
    assert(buffer(out@) =~= want);
    out
}

// ── passes over placed lines ────────────────────────────────────────────────

/// A line with the input line that it derives from.
pub struct Placed {
    pub line: BufferLine,
    pub origin: int,
}

/// The lines and origins together.
pub open spec fn placed(v: Seq<Line>, o: Seq<usize>) -> Seq<Placed> {
    Seq::new(v.len(), |i: int| Placed { line: v[i]@, origin: o[i] as int })
}

/// The first `n` items of `v` at positions that satisfy `keep`.
pub open spec fn kept(v: Seq<Placed>, keep: spec_fn(int) -> bool, n: int) -> Seq<Placed>
    decreases n,
{
    if n <= 0 {
        Seq::empty()
    } else if keep(n - 1) {
        kept(v, keep, n - 1).push(v[n - 1])
    } else {
        kept(v, keep, n - 1)
    }
}

/// The lines to keep, with their origins.
fn keep_lines(lines: &Vec<Line>, origin: &Vec<usize>, flags: &Vec<bool>, Ghost(keep): Ghost<
    spec_fn(int) -> bool,
>) -> (r: (Vec<Line>, Vec<usize>))
    requires
        origin@.len() == lines@.len(),
        flags@.len() == lines@.len(),
        forall|i: int| 0 <= i < flags@.len() ==> #[trigger] flags@[i] == keep(i),
    ensures
        r.0@.len() == r.1@.len(),
        placed(r.0@, r.1@) == kept(placed(lines@, origin@), keep, lines@.len() as int),
{
    let ghost v = placed(lines@, origin@);
    let mut out: Vec<Line> = Vec::new();
    let mut oo: Vec<usize> = Vec::new();
    let mut i: usize = 0;
    assert(placed(out@, oo@) =~= Seq::empty());
    while i < lines.len()
        invariant
            v == placed(lines@, origin@),
            origin@.len() == lines@.len(),
            flags@.len() == lines@.len(),
            forall|k: int| 0 <= k < flags@.len() ==> #[trigger] flags@[k] == keep(k),
            i <= lines@.len(),
            out@.len() == oo@.len(),
            placed(out@, oo@) == kept(v, keep, i as int),
        decreases lines@.len() - i,
    {
        assert(flags@[i as int] == keep(i as int));
        if flags[i] {
            let ghost before = placed(out@, oo@);
            let l = copy_line(&lines[i]);
            out.push(l);
            oo.push(origin[i]);
            assert(placed(out@, oo@) =~= before.push(v[i as int]));
        }
        i += 1;
    }
    (out, oo)
}

/// A jump to the label on the next line, which does nothing.
pub open spec fn jumps_to_next(v: Seq<Placed>, i: int) -> bool {
    v[i].line.kind matches KindView::Jump(t) && i + 1 < v.len() && v[i + 1].line.kind
        == KindView::Label(t)
}

/// `v` without the jumps to the next line.
pub open spec fn without_idle_jumps(v: Seq<Placed>) -> Seq<Placed> {
    kept(v, |i: int| !jumps_to_next(v, i), v.len() as int)
}

/// Peephole: a `jmp X` immediately followed by `X:` is a no-op; drop the jump.
pub fn drop_jmp_to_next(lines: &Vec<Line>, origin: &Vec<usize>) -> (r: (Vec<Line>, Vec<usize>))
    requires
        origin@.len() == lines@.len(),
    ensures
        r.0@.len() == r.1@.len(),
        placed(r.0@, r.1@) == without_idle_jumps(placed(lines@, origin@)),
{
    let ghost v = placed(lines@, origin@);
    let ghost keep = |i: int| !jumps_to_next(v, i);
    let mut flags: Vec<bool> = Vec::new();
    let mut i: usize = 0;
    while i < lines.len()
        invariant
            v == placed(lines@, origin@),
            keep == (|i: int| !jumps_to_next(v, i)),
            i <= lines@.len(),
            flags@.len() == i,
            forall|k: int| 0 <= k < i ==> #[trigger] flags@[k] == keep(k),
        decreases lines@.len() - i,
    {
        let idle = match &lines[i].kind {
            Kind::Jump(t) => if i + 1 < lines.len() {
                match &lines[i + 1].kind {
                    Kind::Label(l) => *t == *l,
                    _ => false,
                }
            } else {
                false
            },
            _ => false,
        };
        assert(idle == jumps_to_next(v, i as int));
        flags.push(!idle);
        i += 1;
    }
    keep_lines(lines, origin, &flags, Ghost(keep))
}

/// Some line jumps to `name`.
pub open spec fn jumped_to(v: Seq<Placed>, name: Seq<char>) -> bool {
    exists|i: int| 0 <= i < v.len() && (#[trigger] v[i]).line.kind == KindView::Jump(name)
}

/// A continuation label that nothing jumps to.
pub open spec fn dead_cont(v: Seq<Placed>, i: int) -> bool {
    v[i].line.kind matches KindView::Label(n) && text::starts_with(n, "__wfi_cont_"@) && !jumped_to(v, n)
}

/// `v` without its dead continuation labels.
pub open spec fn without_dead_conts(v: Seq<Placed>) -> Seq<Placed> {
    kept(v, |i: int| !dead_cont(v, i), v.len() as int)
}

fn is_jumped_to(lines: &Vec<Line>, name: &String, Ghost(origin): Ghost<Seq<usize>>) -> (r: bool)
    requires
        origin.len() == lines@.len(),
    ensures
        r == jumped_to(placed(lines@, origin), name@),
{
    let ghost v = placed(lines@, origin);
    let mut i: usize = 0;
    while i < lines.len()
        invariant
            v == placed(lines@, origin),
            i <= lines@.len(),
            forall|k: int| 0 <= k < i ==> (#[trigger] v[k]).line.kind != KindView::Jump(name@),
        decreases lines@.len() - i,
    {
        assert(v[i as int].line == lines@[i as int]@);
        match &lines[i].kind {
            Kind::Jump(t) => {
                if *t == *name {
                    assert(v[i as int].line.kind == KindView::Jump(name@));
                    return true;
                }
            },
            _ => {},
        }
        i += 1;
    }
    false
}

/// Strip the continuation labels that nothing jumps to. Only the inliner's own
/// labels are looked at, so this is always sound.
pub fn remove_dead_cont_labels(lines: &Vec<Line>, origin: &Vec<usize>) -> (r: (
    Vec<Line>,
    Vec<usize>,
))
    requires
        origin@.len() == lines@.len(),
    ensures
        r.0@.len() == r.1@.len(),
        placed(r.0@, r.1@) == without_dead_conts(placed(lines@, origin@)),
{
    let ghost v = placed(lines@, origin@);
    let ghost keep = |i: int| !dead_cont(v, i);
    let mut flags: Vec<bool> = Vec::new();
    let mut i: usize = 0;
    while i < lines.len()
        invariant
            v == placed(lines@, origin@),
            origin@.len() == lines@.len(),
            keep == (|i: int| !dead_cont(v, i)),
            i <= lines@.len(),
            flags@.len() == i,
            forall|k: int| 0 <= k < i ==> #[trigger] flags@[k] == keep(k),
        decreases lines@.len() - i,
    {
        let dead = match &lines[i].kind {
            Kind::Label(n) => {
                let c = chars_of(n.as_str());
                has_prefix(&c, "__wfi_cont_") && !is_jumped_to(lines, n, Ghost(origin@))
            },
            _ => false,
        };
        assert(dead == dead_cont(v, i as int));
        flags.push(!dead);
        i += 1;
    }
    keep_lines(lines, origin, &flags, Ghost(keep))
}

// ── dead frames ─────────────────────────────────────────────────────────────

/// The register of the line `s`, if it is exactly `mn R` with a bare register.
pub open spec fn unary_reg(s: Seq<char>, mn: Seq<char>) -> Option<Seq<char>> {
    match text::strip_prefix(text::trim(s), mn) {
        Some(rest) => if rest.len() > 0 && text::is_ws(rest[0]) && target_register(
            text::trim(rest.skip(1)),
        ) {
            Some(text::trim(rest.skip(1)))
        } else {
            None
        },
        None => None,
    }
}

fn bare_unary(l: &Line, mn: &str) -> (r: Option<Vec<char>>)
    ensures
        (match r {
            Some(x) => Some(x@),
            None => None,
        }) == unary_reg(l@.text, mn@),
{
    let c = chars_of(l.text.as_str());
    match without_prefix(trimmed(&c), mn) {
        Some(rest) => {
            if rest.len() > 0 && char_is_ws(rest[0]) {
                let x = trimmed(slice_subrange(rest, 1, rest.len()));
                if gp_or_xmm_reg(x) {
                    return Some(copy_of(x));
                }
            }
            None
        },
        None => None,
    }
}

/// A line that can be seen through: blank or a comment.
pub open spec fn transparent(l: BufferLine) -> bool {
    l.kind is Other && (text::trim(l.text).len() == 0 || text::trim(l.text)[0] == ';')
}

fn is_transparent(l: &Line) -> (r: bool)
    ensures
        r == transparent(l@),
{
    match &l.kind {
        Kind::Other => {
            let c = chars_of(l.text.as_str());
            let t = trimmed(&c);
            t.len() == 0 || t[0] == ';'
        },
        _ => false,
    }
}

/// From the line `i` on, `r` is overwritten before it is read. Any barrier (label,
/// call, jump, return) stops the scan as live.
pub open spec fn overwritten_from(v: Seq<BufferLine>, i: int, r: Reg) -> bool
    decreases v.len() - i,
{
    if i >= v.len() {
        false
    } else {
        match v[i].kind {
            KindView::Label(_) => false,
            KindView::Call(_) => false,
            KindView::Jump(_) => false,
            KindView::Ret => false,
            _ => {
                let t = text::trim(v[i].text);
                if regs::reads(Track::General, t).contains(r) {
                    false
                } else if regs::writes(Track::General, t).contains(r) {
                    true
                } else {
                    overwritten_from(v, i + 1, r)
                }
            },
        }
    }
}

/// Behind the line `q`, the register `r` is overwritten before it is read.
pub open spec fn dead_after(v: Seq<BufferLine>, q: int, r: Seq<char>) -> bool {
    match regs::register_named(r) {
        Some(x) => overwritten_from(v, q + 1, x),
        None => false,
    }
}

fn written_before_read(lines: &Vec<Line>, q: usize, r: &[char]) -> (b: bool)
    requires
        q < lines@.len(),
    ensures
        b == dead_after(buffer(lines@), q as int, r@),
{
    let ghost v = buffer(lines@);
    let rc = match gp_reg(r) {
        Some(x) => x,
        None => return false,
    };
    let n: usize = lines.len();
    let mut i: usize = q + 1;
    while i < n
        invariant
            v == buffer(lines@),
            n == lines@.len(),
            q + 1 <= i <= lines@.len(),
            regs::register_named(r@) == Some(rc),
            overwritten_from(v, q + 1, rc) == overwritten_from(v, i as int, rc),
        decreases lines@.len() - i,
    {
        assert(v[i as int] == lines@[i as int]@);
        match &lines[i].kind {
            Kind::Label(_) => return false,
            Kind::Call(_) => return false,
            Kind::Jump(_) => return false,
            Kind::Ret => return false,
            _ => {},
        }
        let c = chars_of(lines[i].text.as_str());
        let (rd, wr) = reg_effects(Track::General, trimmed(&c));
        if has_reg(&rd, rc) {
            return false;
        }
        if has_reg(&wr, rc) {
            return true;
        }
        i += 1;
    }
    false
}

/// The callee-saved registers pushed by the lines from `k` up to `end`, with their
/// positions; comments and blanks are seen through.
pub open spec fn leading_pushes(v: Seq<BufferLine>, k: int, end: int) -> Seq<(int, Seq<char>)>
    decreases end - k,
{
    if k >= end {
        Seq::empty()
    } else if transparent(v[k]) {
        leading_pushes(v, k + 1, end)
    } else {
        match unary_reg(v[k].text, "push"@) {
            Some(r) => if regs::tracked_reg(Track::CalleeSaved, r) is Some {
                seq![(k, r)] + leading_pushes(v, k + 1, end)
            } else {
                Seq::empty()
            },
            None => Seq::empty(),
        }
    }
}

/// The callee-saved registers popped by the lines below `m` and above `i`, the
/// last one first, with their positions.
pub open spec fn trailing_pops(v: Seq<BufferLine>, i: int, m: int) -> Seq<(int, Seq<char>)>
    decreases m,
{
    if m <= i + 1 || m <= 0 {
        Seq::empty()
    } else if transparent(v[m - 1]) {
        trailing_pops(v, i, m - 1)
    } else {
        match unary_reg(v[m - 1].text, "pop"@) {
            Some(r) => if regs::tracked_reg(Track::CalleeSaved, r) is Some {
                seq![(m - 1, r)] + trailing_pops(v, i, m - 1)
            } else {
                Seq::empty()
            },
            None => Seq::empty(),
        }
    }
}

/// The registers of a list of positioned registers.
pub open spec fn regs_only(v: Seq<(int, Seq<char>)>) -> Seq<Seq<char>> {
    Seq::new(v.len(), |i: int| v[i].1)
}

/// The line `k` is one half of the pair number `j`, whose register is overwritten
/// before it is read behind its pop.
pub open spec fn dead_half(
    v: Seq<BufferLine>,
    pushes: Seq<(int, Seq<char>)>,
    pops: Seq<(int, Seq<char>)>,
    j: int,
    k: int,
) -> bool {
    (pushes[j].0 == k || pops[j].0 == k) && dead_after(v, pops[j].0, pushes[j].1)
}

/// The line `k` is one half of a frame pair of the inlined region from `i` to
/// `end` that is provably dead: pushes and pops match as a clean frame, and the
/// pair's register is overwritten before it is read behind its pop.
pub open spec fn region_drops(v: Seq<BufferLine>, i: int, end: int, k: int) -> bool {
    let pushes = leading_pushes(v, i + 1, end);
    let pops = trailing_pops(v, i, end);
    &&& regs_only(pushes) == regs_only(pops)
    &&& exists|j: int| 0 <= j < pushes.len() && #[trigger] dead_half(v, pushes, pops, j, k)
}

/// The text contains the rule of an inlined region that opens it.
pub open spec fn opens_region(l: BufferLine) -> bool {
    text::find_text(l.text, "\u{2500}\u{2500} inline"@) >= 0
}

/// The text contains the rule of an inlined region that closes it.
pub open spec fn closes_region(l: BufferLine) -> bool {
    text::find_text(l.text, "\u{2500}\u{2500} end"@) >= 0
}

/// The first line from `k` on that closes a region; the length of `v` where there
/// is none.
pub open spec fn region_end(v: Seq<BufferLine>, k: int) -> int
    decreases v.len() - k,
{
    if k >= v.len() {
        v.len() as int
    } else if closes_region(v[k]) {
        k
    } else {
        region_end(v, k + 1)
    }
}

pub proof fn lemma_region_end(v: Seq<BufferLine>, k: int)
    requires
        0 <= k <= v.len(),
    ensures
        k <= region_end(v, k) <= v.len(),
    decreases v.len() - k,
{
    if k < v.len() && !closes_region(v[k]) {
        lemma_region_end(v, k + 1);
    }
}

/// The line `k` is dropped with a dead frame pair of some region from `i` on.
pub open spec fn drops_from(v: Seq<BufferLine>, i: int, k: int) -> bool
    decreases v.len() - i,
    via drops_from_decreases
{
    if i < 0 || i >= v.len() {
        false
    } else if !opens_region(v[i]) {
        drops_from(v, i + 1, k)
    } else {
        let end = region_end(v, i + 1);
        if end >= v.len() {
            drops_from(v, i + 1, k)
        } else {
            region_drops(v, i, end, k) || drops_from(v, end + 1, k)
        }
    }
}

#[via_fn]
proof fn drops_from_decreases(v: Seq<BufferLine>, i: int, k: int) {
    if 0 <= i < v.len() {
        lemma_region_end(v, i + 1);
    }
}

proof fn lemma_no_region(v: Seq<BufferLine>, i: int, k: int)
    requires
        0 <= i < v.len(),
        !opens_region(v[i]) || region_end(v, i + 1) >= v.len(),
    ensures
        drops_from(v, i, k) == drops_from(v, i + 1, k),
{
}

/// The lines of `v` alone.
pub open spec fn lines_only(v: Seq<Placed>) -> Seq<BufferLine> {
    Seq::new(v.len(), |i: int| v[i].line)
}

/// `v` without its provably dead frame pairs.
pub open spec fn without_dead_frames(v: Seq<Placed>) -> Seq<Placed> {
    kept(v, |k: int| !drops_from(lines_only(v), 0, k), v.len() as int)
}

spec fn pairs_view(v: Seq<(usize, Vec<char>)>) -> Seq<(int, Seq<char>)> {
    Seq::new(v.len(), |i: int| (v[i].0 as int, v[i].1@))
}

fn collect_pushes(lines: &Vec<Line>, start: usize, end: usize) -> (r: Vec<(usize, Vec<char>)>)
    requires
        start <= end <= lines@.len(),
    ensures
        pairs_view(r@) == leading_pushes(buffer(lines@), start as int, end as int),
        forall|j: int| 0 <= j < r@.len() ==> (#[trigger] r@[j]).0 < end,
{
    let ghost v = buffer(lines@);
    let ghost want = leading_pushes(v, start as int, end as int);
    let mut r: Vec<(usize, Vec<char>)> = Vec::new();
    let mut k: usize = start;
    assert(pairs_view(r@) + want =~= want);
    while k < end
        invariant_except_break
            v == buffer(lines@),
            k <= end <= lines@.len(),
            pairs_view(r@) + leading_pushes(v, k as int, end as int) =~= want,
            forall|j: int| 0 <= j < r@.len() ==> (#[trigger] r@[j]).0 < end,
        ensures
            pairs_view(r@) =~= want,
            forall|j: int| 0 <= j < r@.len() ==> (#[trigger] r@[j]).0 < end,
        decreases end - k,
    {
        assert(v[k as int] == lines@[k as int]@);
        if is_transparent(&lines[k]) {
            k += 1;
            continue;
        }
        match bare_unary(&lines[k], "push") {
            Some(x) => {
                if nonvol_reg(&x).is_none() {
                    assert(pairs_view(r@) + Seq::<(int, Seq<char>)>::empty() =~= want);
                    break;
                }
                let ghost before = pairs_view(r@);
                let ghost rest = leading_pushes(v, k + 1, end as int);
                let ghost xv = x@;
                r.push((k, x));
                assert(pairs_view(r@) =~= before.push((k as int, xv)));
                assert(pairs_view(r@) + rest =~= before + (seq![(k as int, xv)] + rest));
            },
            None => {
                assert(pairs_view(r@) + Seq::<(int, Seq<char>)>::empty() =~= want);
                break;
            },
        }
        k += 1;
    }
    r
}

fn collect_pops(lines: &Vec<Line>, i: usize, end: usize) -> (r: Vec<(usize, Vec<char>)>)
    requires
        i < end <= lines@.len(),
    ensures
        pairs_view(r@) == trailing_pops(buffer(lines@), i as int, end as int),
        forall|j: int| 0 <= j < r@.len() ==> (#[trigger] r@[j]).0 < end,
{
    let ghost v = buffer(lines@);
    let ghost want = trailing_pops(v, i as int, end as int);
    let mut r: Vec<(usize, Vec<char>)> = Vec::new();
    let mut m: usize = end;
    assert(pairs_view(r@) + want =~= want);
    while m > i + 1
        invariant_except_break
            v == buffer(lines@),
            i < m <= end <= lines@.len(),
            pairs_view(r@) + trailing_pops(v, i as int, m as int) =~= want,
            forall|j: int| 0 <= j < r@.len() ==> (#[trigger] r@[j]).0 < end,
        ensures
            pairs_view(r@) =~= want,
            forall|j: int| 0 <= j < r@.len() ==> (#[trigger] r@[j]).0 < end,
        decreases m,
    {
        m -= 1;
        assert(v[m as int] == lines@[m as int]@);
        if is_transparent(&lines[m]) {
            continue;
        }
        match bare_unary(&lines[m], "pop") {
            Some(x) => {
                if nonvol_reg(&x).is_none() {
                    assert(pairs_view(r@) + Seq::<(int, Seq<char>)>::empty() =~= want);
                    break;
                }
                let ghost before = pairs_view(r@);
                let ghost rest = trailing_pops(v, i as int, m as int);
                let ghost xv = x@;
                r.push((m, x));
                assert(pairs_view(r@) =~= before.push((m as int, xv)));
                assert(pairs_view(r@) + rest =~= before + (seq![(m as int, xv)] + rest));
            },
            None => {
                assert(pairs_view(r@) + Seq::<(int, Seq<char>)>::empty() =~= want);
                break;
            },
        }
    }
    r
}

fn same_regs(a: &Vec<(usize, Vec<char>)>, b: &Vec<(usize, Vec<char>)>) -> (r: bool)
    ensures
        r == (regs_only(pairs_view(a@)) == regs_only(pairs_view(b@))),
{
    let ghost x = regs_only(pairs_view(a@));
    let ghost y = regs_only(pairs_view(b@));
    if a.len() != b.len() {
        assert(x.len() != y.len());
        return false;
    }
    let mut i: usize = 0;
    while i < a.len()
        invariant
            x == regs_only(pairs_view(a@)),
            y == regs_only(pairs_view(b@)),
            a@.len() == b@.len(),
            i <= a@.len(),
            forall|j: int| 0 <= j < i ==> x[j] == y[j],
        decreases a@.len() - i,
    {
        if !same(&a[i].1, &b[i].1) {
            assert(x[i as int] != y[i as int]);
            return false;
        }
        i += 1;
    }
    assert(x =~= y);
    true
}

/// Flag the dead frame pairs of the region from `i` to `end`.
fn flag_region(lines: &Vec<Line>, i: usize, end: usize, flags: &mut Vec<bool>)
    requires
        i < end < lines@.len(),
        old(flags)@.len() == lines@.len(),
    ensures
        final(flags)@.len() == lines@.len(),
        forall|k: int|
            0 <= k < lines@.len() ==> #[trigger] final(flags)@[k] == (old(flags)@[k]
                && !region_drops(buffer(lines@), i as int, end as int, k)),
{
    let ghost v = buffer(lines@);
    let ghost f0 = flags@;
    let pushes = collect_pushes(lines, i + 1, end);
    let pops = collect_pops(lines, i, end);
    let ghost pv = leading_pushes(v, i + 1, end as int);
    let ghost qv = trailing_pops(v, i as int, end as int);
    if !same_regs(&pushes, &pops) {
        return;
    }
    assert(regs_only(pv).len() == regs_only(qv).len());
    let mut j: usize = 0;
    while j < pushes.len()
        invariant
            v == buffer(lines@),
            i < end < lines@.len(),
            pv == leading_pushes(v, i + 1, end as int),
            qv == trailing_pops(v, i as int, end as int),
            pairs_view(pushes@) == pv,
            pairs_view(pops@) == qv,
            regs_only(pv) == regs_only(qv),
            pushes@.len() == pops@.len(),
            forall|m: int| 0 <= m < pushes@.len() ==> (#[trigger] pushes@[m]).0 < end,
            forall|m: int| 0 <= m < pops@.len() ==> (#[trigger] pops@[m]).0 < end,
            j <= pushes@.len(),
            flags@.len() == lines@.len(),
            f0.len() == lines@.len(),
            forall|k: int|
                0 <= k < lines@.len() ==> #[trigger] flags@[k] == (f0[k] && !exists|m: int|
                    0 <= m < j && #[trigger] dead_half(v, pv, qv, m, k)),
        decreases pushes@.len() - j,
    {
        let ghost f1 = flags@;
        assert(pv[j as int] == (pushes@[j as int].0 as int, pushes@[j as int].1@));
        assert(qv[j as int] == (pops@[j as int].0 as int, pops@[j as int].1@));
        let p: usize = pushes[j].0;
        let q: usize = pops[j].0;
        let dead = written_before_read(lines, q, &pushes[j].1);
        if dead {
            flags.set(p, false);
            flags.set(q, false);
        }
        assert forall|k: int| 0 <= k < lines@.len() implies #[trigger] flags@[k] == (f0[k]
            && !exists|m: int| 0 <= m < j + 1 && #[trigger] dead_half(v, pv, qv, m, k)) by {
            assert(f1[k] == (f0[k] && !exists|m: int|
                0 <= m < j && #[trigger] dead_half(v, pv, qv, m, k)));
            assert(flags@[k] == (f1[k] && !dead_half(v, pv, qv, j as int, k)));
        }
        j += 1;
    }
    assert forall|k: int| 0 <= k < lines@.len() implies #[trigger] flags@[k] == (f0[k]
        && !region_drops(v, i as int, end as int, k)) by {
        assert(pv.len() == j);
        assert(flags@[k] == (f0[k] && !exists|m: int|
            0 <= m < j && #[trigger] dead_half(v, pv, qv, m, k)));
    }
}

/// For each inlined region, elide a prologue `push R` / epilogue `pop R` pair when
/// `R` is provably dead behind the restore. The leading pushes and trailing pops
/// must form a clean frame of callee-saved registers.
pub fn elide_dead_frames(lines: &Vec<Line>, origin: &Vec<usize>) -> (r: (Vec<Line>, Vec<usize>))
    requires
        origin@.len() == lines@.len(),
    ensures
        r.0@.len() == r.1@.len(),
        placed(r.0@, r.1@) == without_dead_frames(placed(lines@, origin@)),
{
    let ghost pl = placed(lines@, origin@);
    let ghost v = buffer(lines@);
    assert(lines_only(pl) =~= v);
    let ghost keep = |k: int| !drops_from(lines_only(pl), 0, k);
    let opener = chars_of("\u{2500}\u{2500} inline");
    let closer = chars_of("\u{2500}\u{2500} end");
    let mut flags: Vec<bool> = Vec::new();
    let mut n: usize = 0;
    while n < lines.len()
        invariant
            n <= lines@.len(),
            flags@.len() == n,
            forall|k: int| 0 <= k < n ==> #[trigger] flags@[k],
        decreases lines@.len() - n,
    {
        flags.push(true);
        n += 1;
    }
    let mut i: usize = 0;
    while i < lines.len()
        invariant
            v == buffer(lines@),
            opener@ == "\u{2500}\u{2500} inline"@,
            closer@ == "\u{2500}\u{2500} end"@,
            i <= lines@.len(),
            flags@.len() == lines@.len(),
            forall|k: int|
                0 <= k < lines@.len() ==> (#[trigger] flags@[k] && !drops_from(v, i as int, k))
                    == !drops_from(v, 0, k),
        decreases lines@.len() - i,
    {
        assert(v[i as int] == lines@[i as int]@);
        let c = chars_of(lines[i].text.as_str());
        if index_of_text(&c, &opener).is_none() {
            let ghost i0 = i as int;
            i += 1;
            assert forall|k: int| 0 <= k < lines@.len() implies (#[trigger] flags@[k]
                && !drops_from(v, i as int, k)) == !drops_from(v, 0, k) by {
                lemma_no_region(v, i0, k);
                assert((flags@[k] && !drops_from(v, i0, k)) == !drops_from(v, 0, k));
            }
            continue;
        }
        let mut end: usize = i + 1;
        while end < lines.len()
            invariant_except_break
                v == buffer(lines@),
                closer@ == "\u{2500}\u{2500} end"@,
                i + 1 <= end <= lines@.len(),
                region_end(v, i + 1) == region_end(v, end as int),
            ensures
                i + 1 <= end <= lines@.len(),
                end == region_end(v, i + 1),
            decreases lines@.len() - end,
        {
            assert(v[end as int] == lines@[end as int]@);
            let e = chars_of(lines[end].text.as_str());
            if index_of_text(&e, &closer).is_some() {
                break;
            }
            end += 1;
        }
        if end >= lines.len() {
            let ghost i0 = i as int;
            i += 1;
            assert forall|k: int| 0 <= k < lines@.len() implies (#[trigger] flags@[k]
                && !drops_from(v, i as int, k)) == !drops_from(v, 0, k) by {
                lemma_no_region(v, i0, k);
                assert((flags@[k] && !drops_from(v, i0, k)) == !drops_from(v, 0, k));
            }
            continue;
        }
        let ghost f0 = flags@;
        flag_region(lines, i, end, &mut flags);
        let ghost i0 = i as int;
        i = end + 1;
        assert forall|k: int| 0 <= k < lines@.len() implies (#[trigger] flags@[k] && !drops_from(
            v,
            i as int,
            k,
        )) == !drops_from(v, 0, k) by {
            assert((f0[k] && !drops_from(v, i0, k)) == !drops_from(v, 0, k));
            assert(drops_from(v, i0, k) == (region_drops(v, i0, end as int, k) || drops_from(
                v,
                end + 1,
                k,
            )));
        }
    }
    assert forall|k: int| 0 <= k < flags@.len() implies #[trigger] flags@[k] == keep(k) by {
        assert(!drops_from(v, i as int, k));
    }
    keep_lines(lines, origin, &flags, Ghost(keep))
}

/// Dead frames elided at most `n` times, until nothing changes.
pub open spec fn settled(v: Seq<Placed>, n: nat) -> Seq<Placed>
    decreases n,
{
    if n == 0 {
        v
    } else {
        let w = without_dead_frames(v);
        if w.len() == v.len() {
            w
        } else {
            settled(w, (n - 1) as nat)
        }
    }
}

// ── the inliner ─────────────────────────────────────────────────────────────

/// The comment that opens the inlined region of `name`.
pub open spec fn region_open_line(name: Seq<char>) -> BufferLine {
    BufferLine { text: "  ; \u{2500}\u{2500} inline "@ + name, kind: KindView::Other }
}

/// The comment that closes the inlined region of `name`.
pub open spec fn region_close_line(name: Seq<char>) -> BufferLine {
    BufferLine { text: "  ; \u{2500}\u{2500} end "@ + name, kind: KindView::Other }
}

/// The lines `v`, all deriving from the input line `origin`.
pub open spec fn all_from(v: Seq<BufferLine>, origin: int) -> Seq<Placed> {
    Seq::new(v.len(), |i: int| Placed { line: v[i], origin })
}

/// The inlined region of a call of `name`.
pub open spec fn inlined_region(
    v: Seq<BufferLine>,
    spans: Seq<SpanView>,
    name: Seq<char>,
    site: int,
) -> Seq<BufferLine> {
    match span_named(spans, name) {
        Some(s) => seq![region_open_line(name)] + spliced_body(span_body(v, s), site) + seq![
            region_close_line(name),
        ],
        None => Seq::empty(),
    }
}

/// The definition of `name` is dead: all its calls are inlined, and nothing else
/// refers to it.
pub open spec fn dead_proc(
    v: Seq<BufferLine>,
    spans: Seq<SpanView>,
    threshold: int,
    name: Seq<char>,
) -> bool {
    eligible(v, spans, threshold, name) && !referenced(v, name)
}

/// Where the scan goes on behind the label `name` on line `i`, if it opens a dead
/// definition: behind its closing marker. (A label of that name further down opens
/// nothing.)
pub open spec fn skip_dead(
    v: Seq<BufferLine>,
    spans: Seq<SpanView>,
    threshold: int,
    i: int,
) -> Option<int> {
    match v[i].kind {
        KindView::Label(name) => if dead_proc(v, spans, threshold, name) {
            match span_named(spans, name) {
                Some(s) => if s.close >= i {
                    Some(s.close + 1)
                } else {
                    None
                },
                None => None,
            }
        } else {
            None
        },
        _ => None,
    }
}

/// The lines from `i` on with markers stripped, dead definitions removed and calls
/// of eligible procedures spliced, `site` splices having been made before.
pub open spec fn inlined_from(
    v: Seq<BufferLine>,
    spans: Seq<SpanView>,
    threshold: int,
    i: int,
    site: int,
) -> Seq<Placed>
    decreases v.len() - i,
{
    if i < 0 || i >= v.len() {
        Seq::empty()
    } else if v[i].kind is ProcMark || v[i].kind is EndMark {
        inlined_from(v, spans, threshold, i + 1, site)
    } else {
        match skip_dead(v, spans, threshold, i) {
            Some(j) => if j <= i || j > v.len() {
                Seq::empty()
            } else {
                inlined_from(v, spans, threshold, j, site)
            },
            None => match v[i].kind {
                KindView::Call(name) => if eligible(v, spans, threshold, name) {
                    all_from(inlined_region(v, spans, name, site + 1), i) + inlined_from(
                        v,
                        spans,
                        threshold,
                        i + 1,
                        site + 1,
                    )
                } else {
                    seq![Placed { line: v[i], origin: i }] + inlined_from(
                        v,
                        spans,
                        threshold,
                        i + 1,
                        site,
                    )
                },
                _ => seq![Placed { line: v[i], origin: i }] + inlined_from(
                    v,
                    spans,
                    threshold,
                    i + 1,
                    site,
                ),
            },
        }
    }
}

/// The buffer of the reduced text, with the origin of each line. Without a
/// procedure span only the markers are stripped.
pub open spec fn reduced(code: Seq<char>, threshold: int) -> Seq<Placed> {
    let v = parsed(code);
    let spans = proc_spans(v);
    let placed = inlined_from(v, spans, threshold, 0, 0);
    if spans.len() == 0 {
        placed
    } else {
        settled(without_dead_conts(without_idle_jumps(placed)), 4)
    }
}

fn find_span(spans: &Vec<ProcSpan>, name: &String) -> (r: Option<usize>)
    ensures
        r matches Some(i) ==> i < spans@.len() && span_named(spans_view(spans@), name@) == Some(
            spans@[i as int].span(),
        ),
        r is None ==> span_named(spans_view(spans@), name@) is None,
{
    let ghost all = spans_view(spans@);
    let mut n: usize = spans.len();
    assert(all.take(all.len() as int) =~= all);
    while n > 0
        invariant
            all == spans_view(spans@),
            n <= spans@.len(),
            span_named(all, name@) == span_named(all.take(n as int), name@),
        decreases n,
    {
        assert(all.take(n as int).last() == spans@[n - 1].span());
        assert(all.take(n as int).drop_last() =~= all.take(n - 1));
        if spans[n - 1].name == *name {
            return Some(n - 1);
        }
        n -= 1;
    }
    None
}

fn has_eligible(lines: &Vec<Line>, spans: &Vec<ProcSpan>, threshold: usize, name: &String) -> (r: bool)
    requires
        forall|i: int|
            0 <= i < spans@.len() ==> (#[trigger] spans@[i]).open < spans@[i].close < lines@.len(),
    ensures
        r == eligible(buffer(lines@), spans_view(spans@), threshold as int, name@),
{
    let ghost all = spans_view(spans@);
    let ghost v = buffer(lines@);
    let mut i: usize = 0;
    while i < spans.len()
        invariant
            all == spans_view(spans@),
            v == buffer(lines@),
            forall|k: int|
                0 <= k < spans@.len() ==> (#[trigger] spans@[k]).open < spans@[k].close
                    < lines@.len(),
            i <= spans@.len(),
            forall|k: int|
                0 <= k < i ==> !((#[trigger] all[k]).name == name@ && inlinable(
                    v,
                    all[k],
                    threshold as int,
                )),
        decreases spans@.len() - i,
    {
        assert(all[i as int] == spans@[i as int].span());
        if spans[i].name == *name && is_eligible(lines, &spans[i], threshold) {
            assert(all[i as int].name == name@ && inlinable(v, all[i as int], threshold as int));
            return true;
        }
        i += 1;
    }
    false
}

fn push_placed(out: &mut Vec<Line>, origin: &mut Vec<usize>, l: Line, o: usize)
    requires
        old(out)@.len() == old(origin)@.len(),
    ensures
        final(out)@.len() == final(origin)@.len(),
        placed(final(out)@, final(origin)@) == placed(old(out)@, old(origin)@).push(
            (Placed { line: l@, origin: o as int }),
        ),
{
    out.push(l);
    origin.push(o);
    assert(placed(out@, origin@) =~= placed(old(out)@, old(origin)@).push(
        (Placed { line: l@, origin: o as int }),
    ));
}

/// Push the inlined region of a call of `name` from the input line `i`.
fn push_region(
    lines: &Vec<Line>,
    span: &ProcSpan,
    name: &String,
    site: usize,
    i: usize,
    out: &mut Vec<Line>,
    origin: &mut Vec<usize>,
)
    requires
        span.open < span.close < lines@.len(),
        old(out)@.len() == old(origin)@.len(),
    ensures
        final(out)@.len() == final(origin)@.len(),
        placed(final(out)@, final(origin)@) == placed(old(out)@, old(origin)@) + all_from(
            seq![region_open_line(name@)] + spliced_body(
                span_body(buffer(lines@), span.span()),
                site as int,
            ) + seq![region_close_line(name@)],
            i as int,
        ),
{
    let ghost p0 = placed(out@, origin@);
    let ghost body = spliced_body(span_body(buffer(lines@), span.span()), site as int);
    let ghost want = seq![region_open_line(name@)] + body + seq![region_close_line(name@)];
    let mut m = "  ; \u{2500}\u{2500} inline ".to_owned();
    m.append(name.as_str());
    push_placed(out, origin, Line { text: m, kind: Kind::Other }, i);
    assert(placed(out@, origin@) =~= p0 + all_from(want, i as int).take(1));
    let b = splice_body(lines, span.open + 1, span.close, site);
    let mut k: usize = 0;
    while k < b.len()
        invariant
            k <= b@.len(),
            buffer(b@) == body,
            want == seq![region_open_line(name@)] + body + seq![region_close_line(name@)],
            out@.len() == origin@.len(),
            placed(out@, origin@) =~= p0 + all_from(want, i as int).take(k + 1),
        decreases b@.len() - k,
    {
        let l = copy_line(&b[k]);
        assert(body[k as int] == b@[k as int]@);
        push_placed(out, origin, l, i);
        k += 1;
    }
    let mut e = "  ; \u{2500}\u{2500} end ".to_owned();
    e.append(name.as_str());
    push_placed(out, origin, Line { text: e, kind: Kind::Other }, i);
    assert(placed(out@, origin@) =~= p0 + all_from(want, i as int));
}

/// The lines with markers stripped, dead definitions removed and calls of eligible
/// procedures spliced.
fn inline_calls(lines: &Vec<Line>, spans: &Vec<ProcSpan>, threshold: usize) -> (r: (
    Vec<Line>,
    Vec<usize>,
))
    requires
        forall|i: int|
            0 <= i < spans@.len() ==> (#[trigger] spans@[i]).open < spans@[i].close < lines@.len(),
    ensures
        r.0@.len() == r.1@.len(),
        placed(r.0@, r.1@) == inlined_from(
            buffer(lines@),
            spans_view(spans@),
            threshold as int,
            0,
            0,
        ),
{
    let ghost v = buffer(lines@);
    let ghost sv = spans_view(spans@);
    let ghost want = inlined_from(v, sv, threshold as int, 0, 0);
    let mut out: Vec<Line> = Vec::new();
    let mut origin: Vec<usize> = Vec::new();
    let mut site: usize = 0;
    let mut i: usize = 0;
    assert(placed(out@, origin@) + want =~= want);
    while i < lines.len()
        invariant
            v == buffer(lines@),
            sv == spans_view(spans@),
            forall|k: int|
                0 <= k < spans@.len() ==> (#[trigger] spans@[k]).open < spans@[k].close
                    < lines@.len(),
            i <= lines@.len(),
            site <= i,
            out@.len() == origin@.len(),
            placed(out@, origin@) + inlined_from(v, sv, threshold as int, i as int, site as int)
                =~= want,
        decreases lines@.len() - i,
    {
        let ghost p0 = placed(out@, origin@);
        assert(v[i as int] == lines@[i as int]@);
        let mut skip: Option<usize> = None;
        let mut splice: Option<usize> = None;
        match &lines[i].kind {
            Kind::ProcMark { .. } => {
                i += 1;
                continue;
            },
            Kind::EndMark(_) => {
                i += 1;
                continue;
            },
            Kind::Label(name) => {
                if has_eligible(lines, spans, threshold, name) && !referenced_elsewhere(
                    lines,
                    name,
                ) {
                    match find_span(spans, name) {
                        Some(k) => {
                            if spans[k].close >= i {
                                skip = Some(spans[k].close + 1);
                            }
                        },
                        None => {},
                    }
                }
            },
            Kind::Call(name) => {
                if has_eligible(lines, spans, threshold, name) {
                    splice = find_span(spans, name);
                    proof {
                        lemma_eligible_has_span(v, sv, threshold as int, name@);
                    }
                }
            },
            _ => {},
        }
        match skip {
            Some(j) => {
                assert(skip_dead(v, sv, threshold as int, i as int) == Some(j as int));
                i = j;
                continue;
            },
            None => {},
        }
        assert(skip_dead(v, sv, threshold as int, i as int) is None);
        match splice {
            Some(k) => {
                site += 1;
                match &lines[i].kind {
                    Kind::Call(name) => {
                        push_region(lines, &spans[k], name, site, i, &mut out, &mut origin);
                    },
                    _ => {},
                }
                let ghost rest = inlined_from(v, sv, threshold as int, i + 1, site as int);
                let ghost reg = placed(out@, origin@).skip(p0.len() as int);
                assert(placed(out@, origin@) =~= p0 + reg);
                assert(p0 + reg + rest =~= p0 + (reg + rest));
                i += 1;
                continue;
            },
            None => {},
        }
        let l = copy_line(&lines[i]);
        push_placed(&mut out, &mut origin, l, i);
        let ghost x = Placed { line: v[i as int], origin: i as int };
        let ghost rest = inlined_from(v, sv, threshold as int, i + 1, site as int);
        assert(p0.push(x) + rest =~= p0 + (seq![x] + rest));
        i += 1;
    }
    assert(placed(out@, origin@) =~= want);
    (out, origin)
}

pub proof fn lemma_eligible_has_span(
    v: Seq<BufferLine>,
    spans: Seq<SpanView>,
    threshold: int,
    name: Seq<char>,
)
    requires
        eligible(v, spans, threshold, name),
    ensures
        span_named(spans, name) is Some,
{
    let i = choose|i: int|
        0 <= i < spans.len() && (#[trigger] spans[i]).name == name && inlinable(
            v,
            spans[i],
            threshold,
        );
    lemma_span_named(spans, name, i);
}

proof fn lemma_span_named(spans: Seq<SpanView>, name: Seq<char>, i: int)
    requires
        0 <= i < spans.len(),
        spans[i].name == name,
    ensures
        span_named(spans, name) is Some,
    decreases spans.len(),
{
    if spans.last().name != name {
        assert(i < spans.len() - 1);
        assert(spans.drop_last()[i] == spans[i]);
        lemma_span_named(spans.drop_last(), name, i);
    }
}

/// The origins of placed lines.
pub open spec fn origins(v: Seq<Placed>) -> Seq<int> {
    Seq::new(v.len(), |i: int| v[i].origin)
}

/// Run the inliner over lowered text: the rewritten text, and for each of its
/// lines the 0-based input line it derives from. Markers are always stripped; a
/// call of an eligible procedure is spliced; and a procedure whose every call was
/// inlined and which nothing else refers to has its definition removed.
pub fn optimize(code: &str, threshold: usize) -> (r: (String, Vec<usize>))
    ensures
        r.0@ == rendered(lines_only(reduced(code@, threshold as int))),
        macros::map_view(r.1@) == origins(reduced(code@, threshold as int)),
{
    let lines = parse(code);
    let spans = collect_procs(&lines);
    let ghost v = parsed(code@);
    let ghost sv = proc_spans(v);
    assert(sv.len() == spans@.len());
    let (out0, origin0) = inline_calls(&lines, &spans, threshold);
    if spans.len() == 0 {
        assert(lines_only(placed(out0@, origin0@)) =~= buffer(out0@));
        assert(origins(placed(out0@, origin0@)) =~= macros::map_view(origin0@));
        return (render(&out0), origin0);
    }
    let (out1, origin1) = drop_jmp_to_next(&out0, &origin0);
    let (out2, origin2) = remove_dead_cont_labels(&out1, &origin1);
    let mut out = out2;
    let mut origin = origin2;
    let ghost start = placed(out@, origin@);
    let mut n: usize = 4;
    while n > 0
        invariant_except_break
            n <= 4,
            out@.len() == origin@.len(),
            settled(start, 4) == settled(placed(out@, origin@), n as nat),
        ensures
            out@.len() == origin@.len(),
            settled(start, 4) == placed(out@, origin@),
        decreases n,
    {
        let before: usize = out.len();
        let (o1, g1) = elide_dead_frames(&out, &origin);
        assert(placed(o1@, g1@).len() == o1@.len());
        assert(placed(out@, origin@).len() == out@.len());
        out = o1;
        origin = g1;
        if out.len() == before {
            break;
        }
        n -= 1;
    }
    assert(lines_only(placed(out@, origin@)) =~= buffer(out@));
    assert(origins(placed(out@, origin@)) =~= macros::map_view(origin@));
    (render(&out), origin)
}

} // verus!
