//! The `proc … endproc` contract: what a procedure header declares, and whether
//! the body keeps it.
use crate::text;
use crate::was::diag;
use crate::was::lex;
use crate::was::regs;
use crate::text::{
    byte_offset, bytes_in, char_is_ws, chars_of, first_word_of, i64_of, indent_of, index_of_ws, is,
    lines_of, push_dec, split_at_char, string_of, to_lower, trimmed, without_prefix,
};
use crate::was::diag::{Diag, DiagView, push_diag};
use crate::was::lex::{after_keyword, is_any_call, is_label_line, without_comment};
use crate::was::regs::{Reg, Track, canon, gp_reg, reg_effects};
use vstd::prelude::*;
use vstd::slice::slice_subrange;

verus! {

// ── the header ──────────────────────────────────────────────────────────────

/// A parsed `proc` header.
#[derive(Debug, Clone)]
pub struct ProcHdr {
    pub name: String,
    pub uses: Vec<String>,
    pub ins: Vec<String>,
    pub outs: Vec<String>,
    /// `frame` was given: reserve the shadow space and the outgoing-argument area
    /// once, so that the calls inside skip their per-call alignment.
    pub frame: bool,
}

/// A `proc` header in mathematical terms, with the list (`0` the name, `1` the
/// saved registers, `2` the inputs, `3` the outputs) the next word belongs to.
pub struct HdrView {
    pub name: Seq<char>,
    pub uses: Seq<Seq<char>>,
    pub ins: Seq<Seq<char>>,
    pub outs: Seq<Seq<char>>,
    pub frame: bool,
    pub bucket: int,
}

/// A header before its first word.
pub open spec fn no_header() -> HdrView {
    HdrView {
        name: Seq::empty(),
        uses: Seq::empty(),
        ins: Seq::empty(),
        outs: Seq::empty(),
        frame: false,
        bucket: 0,
    }
}

/// A header after one more word: a keyword selects a list, `frame` is a flag,
/// and any other word goes to the selected list.
pub open spec fn header_word(h: HdrView, w: Seq<char>) -> HdrView {
    let l = text::lower_all(w);
    if w.len() == 0 {
        h
    } else if l == "uses"@ {
        HdrView { bucket: 1, ..h }
    } else if l == "in"@ {
        HdrView { bucket: 2, ..h }
    } else if l == "out"@ {
        HdrView { bucket: 3, ..h }
    } else if l == "frame"@ {
        HdrView { frame: true, ..h }
    } else if h.bucket == 0 {
        HdrView { name: w, ..h }
    } else if h.bucket == 1 {
        HdrView { uses: h.uses.push(l), ..h }
    } else if h.bucket == 2 {
        HdrView { ins: h.ins.push(l), ..h }
    } else {
        HdrView { outs: h.outs.push(l), ..h }
    }
}

/// A header after the words `v`.
pub open spec fn header_words(v: Seq<Seq<char>>) -> HdrView
    decreases v.len(),
{
    if v.len() == 0 {
        no_header()
    } else {
        header_word(header_words(v.drop_last()), v.last())
    }
}

/// The words of a header: what stands between spaces and commas.
pub open spec fn header_split(rest: Seq<char>) -> Seq<Seq<char>> {
    text::split_from(rest, |c: char| text::is_ws(c) || c == ',', 0)
}

/// What `proc <rest>` declares.
pub open spec fn proc_header(rest: Seq<char>) -> HdrView {
    header_words(header_split(rest))
}

impl ProcHdr {
    /// The header agrees with its mathematical form.
    pub open spec fn shows(self, h: HdrView) -> bool {
        &&& self.name@ == h.name
        &&& text::strings(self.uses@) == h.uses
        &&& text::strings(self.ins@) == h.ins
        &&& text::strings(self.outs@) == h.outs
        &&& self.frame == h.frame
    }
}

/// Append a string to a list.
fn push_name(v: &mut Vec<String>, s: &[char])
    ensures
        text::strings(final(v)@) == text::strings(old(v)@).push(s@),
{
    v.push(string_of(s));
    assert(text::strings(v@) =~= text::strings(old(v)@).push(s@));
}

/// `NAME [uses R…] [in R…] [out R…] [frame]`: the keywords delimit register lists
/// separated by spaces or commas; `frame` is a bare flag.
pub fn parse_proc(rest: &[char]) -> (r: ProcHdr)
    ensures
        r.shows(proc_header(rest@)),
{
    let mut h = ProcHdr {
        name: String::new(),
        uses: Vec::new(),
        ins: Vec::new(),
        outs: Vec::new(),
        frame: false,
    };
    let mut bucket: u8 = 0;
    let mut start: usize = 0;
    let ghost p = |c: char| text::is_ws(c) || c == ',';
    let ghost mut done: Seq<Seq<char>> = Seq::empty();
    assert(text::strings(h.uses@) =~= Seq::empty());
    assert(text::strings(h.ins@) =~= Seq::empty());
    assert(text::strings(h.outs@) =~= Seq::empty());
    loop
        invariant
            p == (|c: char| text::is_ws(c) || c == ','),
            start <= rest@.len(),
            done + text::split_from(rest@, p, start as int) =~= header_split(rest@),
            h.shows(header_words(done)),
            bucket == header_words(done).bucket,
            bucket <= 3,
        decreases rest@.len() - start,
    {
        let mut n: usize = start;
        while n < rest.len()
            invariant_except_break
                p == (|c: char| text::is_ws(c) || c == ','),
                start <= n <= rest@.len(),
                text::first_from(rest@, p, start as int) == text::first_from(rest@, p, n as int),
            ensures
                start <= n <= rest@.len(),
                text::first_from(rest@, p, start as int) == n,
            decreases rest@.len() - n,
        {
            if char_is_ws(rest[n]) || rest[n] == ',' {
                break;
            }
            n += 1;
        }
        let tok = slice_subrange(rest, start, n);
        let ghost before = done;
        proof {
            done = done.push(tok@);
            assert(done.drop_last() =~= before);
        }
        if tok.len() > 0 {
            let l = to_lower(tok);
            if is(&l, "uses") {
                bucket = 1;
            } else if is(&l, "in") {
                bucket = 2;
            } else if is(&l, "out") {
                bucket = 3;
            } else if is(&l, "frame") {
                h.frame = true;
            } else if bucket == 0 {
                h.name = string_of(tok);
            } else if bucket == 1 {
                push_name(&mut h.uses, &l);
            } else if bucket == 2 {
                push_name(&mut h.ins, &l);
            } else {
                push_name(&mut h.outs, &l);
            }
        }
        proof {
            reveal_strlit("uses");
            reveal_strlit("in");
            reveal_strlit("out");
            reveal_strlit("frame");
        }
        if n >= rest.len() {
            assert(done =~= header_split(rest@));
            return h;
        }
        assert(done + text::split_from(rest@, p, n + 1) =~= before + (seq![tok@] + text::split_from(
            rest@,
            p,
            n + 1,
        )));
        start = n + 1;
    }
}

// ── the body ────────────────────────────────────────────────────────────────

/// An immediate (`42` or `0x10`), with an optional sign.
pub open spec fn immediate(s: Seq<char>) -> Option<int> {
    let t = text::trim(s);
    let hex = match text::strip_prefix(t, "0x"@) {
        Some(h) => Some(h),
        None => text::strip_prefix(t, "0X"@),
    };
    match hex {
        Some(h) => match text::parse_i64(h, 16) {
            Some(n) => Some(n),
            None => text::parse_i64(t, 10),
        },
        None => text::parse_i64(t, 10),
    }
}

/// A bare integer immediate (`42` / `0x10`), for tracking `sub rsp, N`.
pub fn simple_imm(s: &[char]) -> (r: Option<i64>)
    ensures
        r matches Some(n) ==> immediate(s@) == Some(n as int),
        r is None ==> immediate(s@) is None,
{
    let t = trimmed(s);
    let hex = match without_prefix(t, "0x") {
        Some(h) => Some(h),
        None => without_prefix(t, "0X"),
    };
    match hex {
        Some(h) => match i64_of(h, 16) {
            Some(n) => Some(n),
            None => i64_of(t, 10),
        },
        None => i64_of(t, 10),
    }
}

/// What is known of the procedure that the scan is inside of.
pub struct ProcScan {
    /// Its name and the line of its header.
    pub name: Seq<char>,
    pub line: int,
    /// The callee-saved registers it saves, its inputs and its outputs.
    pub saved: Seq<Reg>,
    pub ins: Seq<Reg>,
    pub outs: Seq<Reg>,
    /// Every register read so far with its line, in order.
    pub reads: Seq<(Reg, int)>,
    /// Every register written so far.
    pub writes: Seq<Reg>,
    pub framed: bool,
    /// Offset from the level behind the prologue; `None` once it is untrackable.
    pub rsp: Option<int>,
}

/// The state of the scan: the findings so far, the open procedure, and whether
/// the lines are code.
pub struct ContractScan {
    pub diags: Seq<DiagView>,
    pub cur: Option<ProcScan>,
    pub in_code: bool,
}

/// The line of the first read of `r` in a log of reads.
pub open spec fn first_read(log: Seq<(Reg, int)>, r: Reg) -> Option<int>
    decreases log.len(),
{
    if log.len() == 0 {
        None
    } else if log[0].0 == r {
        Some(log[0].1)
    } else {
        first_read(log.drop_first(), r)
    }
}

/// The general registers in the alphabetical order of their names.
pub open spec fn regs_by_name() -> Seq<Reg> {
    seq![
        Reg::R10,
        Reg::R11,
        Reg::R12,
        Reg::R13,
        Reg::R14,
        Reg::R15,
        Reg::R8,
        Reg::R9,
        Reg::Rax,
        Reg::Rbp,
        Reg::Rbx,
        Reg::Rcx,
        Reg::Rdi,
        Reg::Rdx,
        Reg::Rsi,
        Reg::Rsp,
    ]
}

/// A register is read uninitialized: it is read, never set, and neither declared
/// an input nor saved (`rsp` and `rbp` are always set).
pub open spec fn uninitialized(p: ProcScan, r: Reg) -> bool {
    &&& first_read(p.reads, r) is Some
    &&& r != Reg::Rsp
    &&& r != Reg::Rbp
    &&& !p.writes.contains(r)
    &&& !p.ins.contains(r)
    &&& !p.saved.contains(r)
}

pub open spec fn undeclared_message(name: Seq<char>, r: Reg) -> Seq<char> {
    "proc `"@ + name + "` reads `"@ + r.spec_name() + "` but never sets it — declare `in "@
        + r.spec_name() + "` if it's an input"@
}

pub open spec fn unset_message(name: Seq<char>, r: Reg) -> Seq<char> {
    "proc `"@ + name + "` declares `out "@ + r.spec_name() + "` but never sets it"@
}

pub open spec fn unsaved_message(name: Seq<char>, r: Reg) -> Seq<char> {
    "proc `"@ + name + "` modifies `"@ + r.spec_name()
        + "` (callee-saved) without saving it — add `"@ + r.spec_name()
        + "` to its `uses` list, or the caller's value is lost"@
}

pub open spec fn off_level_message(name: Seq<char>, off: int) -> Seq<char> {
    "rsp is off the frame level by "@ + text::signed_dec(off)
        + " byte(s) at this call in framed proc `"@ + name
        + "` — a stray push/sub broke the 16-byte alignment the frame guarantees"@
}

/// The findings on uninitialized registers among the registers `v`.
pub open spec fn undeclared_findings(p: ProcScan, v: Seq<Reg>) -> Seq<DiagView>
    decreases v.len(),
{
    if v.len() == 0 {
        Seq::empty()
    } else {
        let before = undeclared_findings(p, v.drop_last());
        if uninitialized(p, v.last()) {
            before.push(
                DiagView {
                    line: first_read(p.reads, v.last())->0,
                    col: 1,
                    message: undeclared_message(p.name, v.last()),
                },
            )
        } else {
            before
        }
    }
}

/// The findings on declared outputs `v` that were never written.
pub open spec fn unset_findings(p: ProcScan, v: Seq<Reg>) -> Seq<DiagView>
    decreases v.len(),
{
    if v.len() == 0 {
        Seq::empty()
    } else {
        let before = unset_findings(p, v.drop_last());
        if !p.writes.contains(v.last()) {
            before.push(
                DiagView { line: p.line, col: 1, message: unset_message(p.name, v.last()) },
            )
        } else {
            before
        }
    }
}

/// What `endproc` reports of the procedure it closes.
pub open spec fn end_findings(p: ProcScan) -> Seq<DiagView> {
    undeclared_findings(p, regs_by_name()) + unset_findings(p, p.outs)
}

/// The findings on callee-saved registers `v` modified without being saved.
pub open spec fn unsaved_findings(p: ProcScan, v: Seq<Reg>, line: int, col: int) -> Seq<DiagView>
    decreases v.len(),
{
    if v.len() == 0 {
        Seq::empty()
    } else {
        let before = unsaved_findings(p, v.drop_last(), line, col);
        if !p.saved.contains(v.last()) {
            before.push(DiagView { line, col, message: unsaved_message(p.name, v.last()) })
        } else {
            before
        }
    }
}

/// The procedure that the header `rest` on line `line` opens.
pub open spec fn open_proc(rest: Seq<char>, line: int) -> ProcScan {
    let h = proc_header(rest);
    ProcScan {
        name: h.name,
        line,
        saved: regs::regs_among(Track::CalleeSaved, h.uses),
        ins: regs::regs_among(Track::General, h.ins),
        outs: regs::regs_among(Track::General, h.outs),
        reads: Seq::empty(),
        writes: Seq::empty(),
        framed: h.frame,
        rsp: Some(0),
    }
}

/// The operands of `t` split at every comma, for the stack-pointer arithmetic.
pub open spec fn plain_operands(t: Seq<char>) -> Seq<Seq<char>> {
    let w = text::find_ws(t);
    if w < t.len() {
        lex::trim_each(text::split(t.skip(w + 1), ','))
    } else {
        Seq::empty()
    }
}

/// The stack level behind the instruction `t`: a label starts level again,
/// `push`/`pop` and `sub`/`add rsp, N` move it, and any other write to `rsp`
/// ends the tracking.
pub open spec fn stack_level(rsp: Option<int>, t: Seq<char>) -> Option<int> {
    let mn = text::lower_all(text::first_word(t));
    let ops = plain_operands(t);
    if lex::label_line(t) {
        Some(0int)
    } else if mn == "push"@ {
        match rsp {
            Some(o) => Some(o - 8),
            None => None,
        }
    } else if mn == "pop"@ {
        match rsp {
            Some(o) => Some(o + 8),
            None => None,
        }
    } else if (mn == "sub"@ || mn == "add"@) && ops.len() > 0 && regs::register_named(ops[0]) == Some(
        Reg::Rsp,
    ) {
        match (if ops.len() > 1 {
            immediate(ops[1])
        } else {
            None
        }) {
            Some(n) => match rsp {
                Some(o) => Some(if mn == "sub"@ {
                    o - n
                } else {
                    o + n
                }),
                None => None,
            },
            None => None,
        }
    } else if regs::writes(Track::General, t).contains(Reg::Rsp) {
        None
    } else {
        rsp
    }
}

/// A log of reads with the registers `v` read on `line` added.
pub open spec fn log_reads(log: Seq<(Reg, int)>, v: Seq<Reg>, line: int) -> Seq<(Reg, int)> {
    log + Seq::new(v.len(), |i: int| (v[i], line))
}

/// The scan behind the line `t` of the body of `p`.
pub open spec fn body_line(st: ContractScan, p: ProcScan, t: Seq<char>, line: int, col: int) -> ContractScan {
    if lex::any_call(t) {
        let off_level = p.framed && p.rsp is Some && p.rsp->0 != 0;
        ContractScan {
            diags: if off_level {
                st.diags.push(
                    DiagView { line, col, message: off_level_message(p.name, p.rsp->0) },
                )
            } else {
                st.diags
            },
            cur: Some(ProcScan { writes: p.writes.push(Reg::Rax), ..p }),
            in_code: st.in_code,
        }
    } else {
        ContractScan {
            diags: st.diags + unsaved_findings(p, regs::writes(Track::CalleeSaved, t), line, col),
            cur: Some(
                ProcScan {
                    reads: log_reads(p.reads, regs::reads(Track::General, t), line),
                    writes: p.writes + regs::writes(Track::General, t),
                    rsp: if p.framed {
                        stack_level(p.rsp, t)
                    } else {
                        p.rsp
                    },
                    ..p
                },
            ),
            in_code: st.in_code,
        }
    }
}

/// The byte column of the first character of `raw` that is no white space.
pub open spec fn start_col(raw: Seq<char>) -> int {
    (text::byte_len(raw.take(text::first_from(raw, text::not_ws(), 0))) + 1) as int
}

/// Whether the lines are code behind the line `t`.
pub open spec fn section_after(in_code: bool, t: Seq<char>) -> bool {
    let l = text::lower_all(t);
    if l == ".data"@ {
        false
    } else if l == ".code"@ || l == ".text"@ {
        true
    } else {
        in_code
    }
}

/// The scan behind the line `raw`, numbered `line`.
pub open spec fn contract_line(st: ContractScan, raw: Seq<char>, line: int) -> ContractScan {
    let t = text::trim(lex::strip_comment(raw));
    let st1 = ContractScan { in_code: section_after(st.in_code, t), ..st };
    if t.len() == 0 {
        st
    } else if !st1.in_code {
        st1
    } else {
        match lex::strip_keyword(t, "proc"@) {
            Some(rest) => ContractScan { cur: Some(open_proc(rest, line)), ..st1 },
            None => match st1.cur {
                None => st1,
                Some(p) => if t == "endproc"@ {
                    ContractScan { diags: st1.diags + end_findings(p), cur: None, ..st1 }
                } else {
                    body_line(st1, p, t, line, start_col(raw))
                },
            },
        }
    }
}

/// The scan behind the lines `v`, numbered from 1.
pub open spec fn contract_lines(v: Seq<Seq<char>>) -> ContractScan
    decreases v.len(),
{
    if v.len() == 0 {
        ContractScan { diags: Seq::empty(), cur: None, in_code: true }
    } else {
        contract_line(contract_lines(v.drop_last()), v.last(), v.len() as int)
    }
}

/// The findings on the contracts of the procedures in `src`.
pub open spec fn contract_findings(src: Seq<char>) -> Seq<DiagView> {
    contract_lines(text::lines(src)).diags
}

// ── the scan ────────────────────────────────────────────────────────────────

/// The open procedure.
struct Acc {
    name: String,
    line: usize,
    saved: Vec<Reg>,
    ins: Vec<Reg>,
    outs: Vec<Reg>,
    reads: Vec<(Reg, usize)>,
    writes: Vec<Reg>,
    framed: bool,
    rsp: Option<i128>,
}

spec fn log_view(v: Seq<(Reg, usize)>) -> Seq<(Reg, int)> {
    Seq::new(v.len(), |i: int| (v[i].0, v[i].1 as int))
}

impl Acc {
    spec fn scan(self) -> ProcScan {
        ProcScan {
            name: self.name@,
            line: self.line as int,
            saved: self.saved@,
            ins: self.ins@,
            outs: self.outs@,
            reads: log_view(self.reads@),
            writes: self.writes@,
            framed: self.framed,
            rsp: match self.rsp {
                Some(o) => Some(o as int),
                None => None,
            },
        }
    }
}

spec fn acc_view(a: Option<Acc>) -> Option<ProcScan> {
    match a {
        Some(p) => Some(p.scan()),
        None => None,
    }
}

/// The registers that `track` follows among the names `v`.
pub fn regs_named(track: Track, v: &Vec<String>) -> (r: Vec<Reg>)
    ensures
        r@ == regs::regs_among(track, text::strings(v@)),
{
    let mut r: Vec<Reg> = Vec::new();
    let mut i: usize = 0;
    let ghost all = text::strings(v@);
    while i < v.len()
        invariant
            all == text::strings(v@),
            i <= v@.len(),
            r@ == regs::regs_among(track, all.take(i as int)),
        decreases v@.len() - i,
    {
        let c = chars_of(v[i].as_str());
        assert(all.take(i as int + 1).drop_last() =~= all.take(i as int));
        assert(all.take(i as int + 1).last() == c@);
        match canon(track, &c) {
            Some(x) => r.push(x),
            None => {},
        }
        i += 1;
    }
    assert(all.take(all.len() as int) =~= all);
    r
}

/// Whether `r` is in the list `v`.
pub fn has_reg(v: &Vec<Reg>, r: Reg) -> (b: bool)
    ensures
        b == v@.contains(r),
{
    let mut i: usize = 0;
    while i < v.len()
        invariant
            i <= v@.len(),
            forall|j: int| 0 <= j < i ==> v@[j] != r,
        decreases v@.len() - i,
    {
        if v[i] == r {
            assert(v@[i as int] == r);
            return true;
        }
        i += 1;
    }
    false
}

proof fn lemma_first_read_skip(log: Seq<(Reg, int)>, r: Reg, i: int)
    requires
        0 <= i <= log.len(),
        forall|j: int| 0 <= j < i ==> (#[trigger] log[j]).0 != r,
    ensures
        first_read(log, r) == first_read(log.skip(i), r),
    decreases i,
{
    if i == 0 {
        assert(log.skip(0) =~= log);
    } else {
        assert forall|j: int| 0 <= j < i - 1 implies (#[trigger] log.drop_first()[j]).0 != r by {
            assert(log.drop_first()[j] == log[j + 1]);
        }
        lemma_first_read_skip(log.drop_first(), r, i - 1);
        assert(log.drop_first().skip(i - 1) =~= log.skip(i));
        assert(log[0].0 != r);
    }
}

fn first_read_of(log: &Vec<(Reg, usize)>, r: Reg) -> (res: Option<usize>)
    ensures
        res matches Some(l) ==> first_read(log_view(log@), r) == Some(l as int),
        res is None ==> first_read(log_view(log@), r) is None,
{
    let ghost lv = log_view(log@);
    let mut i: usize = 0;
    while i < log.len()
        invariant
            lv == log_view(log@),
            i <= log@.len(),
            forall|j: int| 0 <= j < i ==> (#[trigger] lv[j]).0 != r,
        decreases log@.len() - i,
    {
        let (x, l) = log[i];
        assert(lv[i as int] == (x, l as int));
        if x == r {
            proof {
                lemma_first_read_skip(lv, r, i as int);
                assert(lv.skip(i as int)[0] == (x, l as int));
            }
            return Some(l);
        }
        i += 1;
    }
    proof {
        lemma_first_read_skip(lv, r, i as int);
        assert(lv.skip(i as int).len() == 0);
    }
    None
}

fn undeclared_text(name: &str, r: Reg) -> (m: String)
    ensures
        m@ == undeclared_message(name@, r),
{
    let mut m = "proc `".to_owned();
    m.append(name);
    m.append("` reads `");
    m.append(r.name());
    m.append("` but never sets it — declare `in ");
    m.append(r.name());
    m.append("` if it's an input");
    m
}

fn unset_text(name: &str, r: Reg) -> (m: String)
    ensures
        m@ == unset_message(name@, r),
{
    let mut m = "proc `".to_owned();
    m.append(name);
    m.append("` declares `out ");
    m.append(r.name());
    m.append("` but never sets it");
    m
}

fn unsaved_text(name: &str, r: Reg) -> (m: String)
    ensures
        m@ == unsaved_message(name@, r),
{
    let mut m = "proc `".to_owned();
    m.append(name);
    m.append("` modifies `");
    m.append(r.name());
    m.append("` (callee-saved) without saving it — add `");
    m.append(r.name());
    m.append("` to its `uses` list, or the caller's value is lost");
    m
}

fn off_level_text(name: &str, off: i128) -> (m: String)
    requires
        off > i128::MIN,
    ensures
        m@ == off_level_message(name@, off as int),
{
    let mut m = "rsp is off the frame level by ".to_owned();
    push_dec(&mut m, off);
    m.append(" byte(s) at this call in framed proc `");
    m.append(name);
    m.append("` — a stray push/sub broke the 16-byte alignment the frame guarantees");
    m
}

/// Report what `endproc` finds of `p`.
fn report_end(p: &Acc, diags: &mut Vec<Diag>)
    ensures
        diag::diags_view(final(diags)@) == diag::diags_view(old(diags)@) + end_findings(p.scan()),
{
    let order: [Reg; 16] = [
        Reg::R10,
        Reg::R11,
        Reg::R12,
        Reg::R13,
        Reg::R14,
        Reg::R15,
        Reg::R8,
        Reg::R9,
        Reg::Rax,
        Reg::Rbp,
        Reg::Rbx,
        Reg::Rcx,
        Reg::Rdi,
        Reg::Rdx,
        Reg::Rsi,
        Reg::Rsp,
    ];
    let ghost v = regs_by_name();
    assert(order@ =~= v);
    let ghost before = diag::diags_view(diags@);
    let ghost scan = p.scan();
    let mut i: usize = 0;
    while i < 16
        invariant
            i <= 16,
            order@ == v,
            v.len() == 16,
            scan == p.scan(),
            diag::diags_view(diags@) =~= before + undeclared_findings(scan, v.take(i as int)),
        decreases 16 - i,
    {
        let r = order[i];
        assert(v.take(i as int + 1).drop_last() =~= v.take(i as int));
        match first_read_of(&p.reads, r) {
            Some(l) => {
                if r != Reg::Rsp && r != Reg::Rbp && !has_reg(&p.writes, r) && !has_reg(&p.ins, r)
                    && !has_reg(&p.saved, r) {
                    let m = undeclared_text(p.name.as_str(), r);
                    push_diag(diags, l, 1, m);
                }
            },
            None => {},
        }
        i += 1;
    }
    assert(v.take(16) =~= v);
    let ghost mid = diag::diags_view(diags@);
    let ghost outs = p.outs@;
    let mut k: usize = 0;
    while k < p.outs.len()
        invariant
            k <= outs.len(),
            outs == p.outs@,
            scan == p.scan(),
            diag::diags_view(diags@) =~= mid + unset_findings(scan, outs.take(k as int)),
        decreases outs.len() - k,
    {
        let o = p.outs[k];
        assert(outs.take(k as int + 1).drop_last() =~= outs.take(k as int));
        if !has_reg(&p.writes, o) {
            let m = unset_text(p.name.as_str(), o);
            push_diag(diags, p.line, 1, m);
        }
        k += 1;
    }
    assert(outs.take(outs.len() as int) =~= outs);
    assert(diag::diags_view(diags@) =~= before + end_findings(scan));
}

/// The stack level behind the instruction `t`, which writes the registers `wr`.
fn level_after(rsp: Option<i128>, t: &[char], wr: &Vec<Reg>, Ghost(n): Ghost<int>) -> (r: Option<
    i128,
>)
    requires
        wr@ == regs::writes(Track::General, t@),
        0 <= n < usize::MAX,
        rsp matches Some(o) ==> -(n * 0x8000_0000_0000_0000) <= o <= n * 0x8000_0000_0000_0000,
    ensures
        (match r {
            Some(o) => Some(o as int),
            None => None::<int>,
        }) == stack_level(
            (match rsp {
                Some(o) => Some(o as int),
                None => None::<int>,
            }),
            t@,
        ),
        r matches Some(o) ==> -((n + 1) * 0x8000_0000_0000_0000) <= o <= (n + 1)
            * 0x8000_0000_0000_0000,
{
    let mn = to_lower(first_word_of(t));
    let w: usize = index_of_ws(t);
    let ops: Vec<&[char]> = if w < t.len() {
        split_at_char(slice_subrange(t, w + 1, t.len()), ',')
    } else {
        Vec::new()
    };
    let ghost sp = plain_operands(t@);
    assert(sp.len() == ops@.len());
    assert(forall|i: int| 0 <= i < ops@.len() ==> sp[i] == text::trim(#[trigger] ops@[i]@)) by {
        if w < t.len() {
            let parts = text::split(t@.skip(w as int + 1), ',');
            assert(text::slices(ops@) == parts);
            assert forall|i: int| 0 <= i < ops@.len() implies sp[i] == text::trim(
                #[trigger] ops@[i]@,
            ) by {
                assert(parts[i] == ops@[i]@);
            }
        }
    }
    if is_label_line(t) {
        Some(0)
    } else if is(&mn, "push") {
        match rsp {
            Some(o) => Some(o - 8),
            None => None,
        }
    } else if is(&mn, "pop") {
        match rsp {
            Some(o) => Some(o + 8),
            None => None,
        }
    } else if (is(&mn, "sub") || is(&mn, "add")) && ops.len() > 0 && is_rsp(trimmed(ops[0])) {
        let imm: Option<i64> = if ops.len() > 1 {
            simple_imm(trimmed(ops[1]))
        } else {
            None
        };
        match imm {
            Some(k) => match rsp {
                Some(o) => if is(&mn, "sub") {
                    Some(o - k as i128)
                } else {
                    Some(o + k as i128)
                },
                None => None,
            },
            None => None,
        }
    } else if has_reg(wr, Reg::Rsp) {
        None
    } else {
        rsp
    }
}

fn is_rsp(s: &[char]) -> (b: bool)
    ensures
        b == (regs::register_named(s@) == Some(Reg::Rsp)),
{
    match gp_reg(s) {
        Some(r) => r == Reg::Rsp,
        None => false,
    }
}

/// Take the line `t` of the body of `p` into account.
fn scan_body(p: Acc, t: &[char], line: usize, col: usize, diags: &mut Vec<Diag>, in_code: bool, Ghost(
    n,
): Ghost<int>) -> (r: Acc)
    requires
        0 <= n < usize::MAX,
        p.rsp matches Some(o) ==> -(n * 0x8000_0000_0000_0000) <= o <= n * 0x8000_0000_0000_0000,
    ensures
        r.rsp matches Some(o) ==> -((n + 1) * 0x8000_0000_0000_0000) <= o <= (n + 1)
            * 0x8000_0000_0000_0000,
        ({
            let st = body_line(
                ContractScan { diags: diag::diags_view(old(diags)@), cur: Some(p.scan()), in_code },
                p.scan(),
                t@,
                line as int,
                col as int,
            );
            &&& diag::diags_view(final(diags)@) == st.diags
            &&& st.cur == Some(r.scan())
        }),
{
    let mut p = p;
    let ghost scan = p.scan();
    if is_any_call(t) {
        if p.framed {
            match p.rsp {
                Some(off) => {
                    if off != 0 {
                        let m = off_level_text(p.name.as_str(), off);
                        push_diag(diags, line, col, m);
                    }
                },
                None => {},
            }
        }
        p.writes.push(Reg::Rax);
        return p;
    }
    let (_, saved_writes) = reg_effects(Track::CalleeSaved, t);
    let ghost before = diag::diags_view(diags@);
    let ghost sw = saved_writes@;
    let mut i: usize = 0;
    while i < saved_writes.len()
        invariant
            sw == saved_writes@,
            i <= sw.len(),
            scan == p.scan(),
            diag::diags_view(diags@) =~= before + unsaved_findings(
                scan,
                sw.take(i as int),
                line as int,
                col as int,
            ),
        decreases sw.len() - i,
    {
        let w = saved_writes[i];
        assert(sw.take(i as int + 1).drop_last() =~= sw.take(i as int));
        if !has_reg(&p.saved, w) {
            let m = unsaved_text(p.name.as_str(), w);
            push_diag(diags, line, col, m);
        }
        i += 1;
    }
    assert(sw.take(sw.len() as int) =~= sw);
    let (rd, wr) = reg_effects(Track::General, t);
    if p.framed {
        p.rsp = level_after(p.rsp, t, &wr, Ghost(n));
    }
    let ghost log0 = log_view(p.reads@);
    let mut k: usize = 0;
    let ghost p1 = p;
    while k < rd.len()
        invariant
            k <= rd@.len(),
            p == (Acc { reads: p.reads, ..p1 }),
            log_view(p.reads@) =~= log_reads(log0, rd@.take(k as int), line as int),
        decreases rd@.len() - k,
    {
        let ghost log1 = log_view(p.reads@);
        p.reads.push((rd[k], line));
        assert(log_view(p.reads@) =~= log1.push((rd@[k as int], line as int)));
        assert(log_reads(log0, rd@.take(k as int + 1), line as int) =~= log_reads(
            log0,
            rd@.take(k as int),
            line as int,
        ).push((rd@[k as int], line as int)));
        k += 1;
    }
    assert(rd@.take(rd@.len() as int) =~= rd@);
    let mut wr = wr;
    p.writes.append(&mut wr);
    p
}

/// Enforce the `proc … endproc` contract. The body may not modify a callee-saved
/// register outside `uses`; a register read but never set and not declared `in`
/// is an uninitialized input, and an `out` register never written an unkept
/// promise; and inside a `frame` procedure the stack must be at the aligned frame
/// level at every call.
pub fn proc_contract_diags(src: &str) -> (r: Vec<Diag>)
    ensures
        diag::diags_view(r@) == contract_findings(src@),
{
    let text = chars_of(src);
    let lv = lines_of(&text);
    let ghost all = text::lines(src@);
    let bytes: usize = bytes_in(src);
    proof {
        text::lemma_lines_bytes(src@);
    }
    let mut diags: Vec<Diag> = Vec::new();
    let mut cur: Option<Acc> = None;
    let mut in_code = true;
    let mut i: usize = 0;
    assert(diag::diags_view(diags@) =~= Seq::empty());
    while i < lv.len()
        invariant
            text::slices(lv@) == all,
            i <= lv@.len(),
            text::byte_len(src@) == bytes,
            forall|k: int| 0 <= k < all.len() ==> text::byte_len(#[trigger] all[k]) <= text::byte_len(src@),
            contract_lines(all.take(i as int)) == (ContractScan {
                diags: diag::diags_view(diags@),
                cur: acc_view(cur),
                in_code,
            }),
            cur matches Some(p) ==> (p.rsp matches Some(o) ==> -(i * 0x8000_0000_0000_0000) <= o
                <= i * 0x8000_0000_0000_0000),
        decreases lv@.len() - i,
    {
        let raw = lv[i];
        let ghost st = contract_lines(all.take(i as int));
        proof {
            assert(all[i as int] == raw@);
            assert(all.take(i as int + 1).drop_last() =~= all.take(i as int));
            assert(all.take(i as int + 1).last() == raw@);
        }
        let line: usize = i + 1;
        i = i + 1;
        let t = trimmed(without_comment(raw));
        if t.len() == 0 {
            continue;
        }
        let l = to_lower(t);
        if is(&l, ".data") {
            in_code = false;
        } else if is(&l, ".code") || is(&l, ".text") {
            in_code = true;
        }
        if !in_code {
            continue;
        }
        let indent: usize = indent_of(raw);
        let before: usize = byte_offset(raw, indent);
        proof {
            lemma_content_after_indent(raw@);
        }
        let col: usize = before + 1;
        match after_keyword(t, "proc") {
            Some(rest) => {
                let h = parse_proc(rest);
                let saved = regs_named(Track::CalleeSaved, &h.uses);
                let ins = regs_named(Track::General, &h.ins);
                let outs = regs_named(Track::General, &h.outs);
                let acc = Acc {
                    name: h.name,
                    line,
                    saved,
                    ins,
                    outs,
                    reads: Vec::new(),
                    writes: Vec::new(),
                    framed: h.frame,
                    rsp: Some(0),
                };
                assert(log_view(acc.reads@) =~= Seq::empty());
                cur = Some(acc);
            },
            None => {
                let open = cur;
                cur = None;
                match open {
                    None => {},
                    Some(p) => {
                        if is(t, "endproc") {
                            report_end(&p, &mut diags);
                        } else {
                            let p1 = scan_body(
                                p,
                                t,
                                line,
                                col,
                                &mut diags,
                                in_code,
                                Ghost(i - 1),
                            );
                            cur = Some(p1);
                        }
                    },
                }
            },
        }
    }
    assert(all.take(all.len() as int) =~= all);
    diags
}

/// A line that is more than white space and comment has a character behind its
/// indentation, so that its first column is within it.
proof fn lemma_content_after_indent(raw: Seq<char>)
    requires
        text::trim(lex::strip_comment(raw)).len() > 0,
    ensures
        start_col(raw) <= text::byte_len(raw),
{
    let n = text::first_from(raw, text::not_ws(), 0);
    text::lemma_first_from(raw, text::not_ws(), 0);
    if n >= raw.len() {
        let c = lex::comment_from(raw, 0, 0, None);
        lex::lemma_comment_from(raw, 0, 0, None);
        let b = raw.take(c);
        text::lemma_first_from(b, text::not_ws(), 0);
        let m = text::first_from(b, text::not_ws(), 0);
        if m < b.len() {
            assert(text::not_ws()(b[m]));
            assert(b[m] == raw[m]);
            assert(!text::not_ws()(raw[m]));
        }
        assert(text::trim_start(b).len() == 0);
        text::lemma_last_below(text::trim_start(b), text::not_ws(), 0);
        assert(false);
    }
    text::lemma_byte_len_take(raw, n, n + 1);
}

} // verus!
