//! What the report on procedure contracts says: a finding stands on every breach of a
//! procedure's declarations, and on nothing else.
use crate::text;
use crate::text_laws;
use crate::was::block_laws;
use crate::was::call_laws;
use crate::was::clobber_laws;
use crate::was::contract;
use crate::was::data_laws;
use crate::was::inline_laws;
use crate::was::lex;
use crate::was::machine;
use crate::was::reg_laws;
use crate::was::regs;
use crate::was::contract::{ContractScan, HdrView, ProcScan};
use crate::was::diag::DiagView;
use crate::was::machine::{Instr, Machine};
use crate::was::regs::{Reg, Track};
use vstd::prelude::*;

verus! {

// ── procedure headers ───────────────────────────────────────────────────────

/// The list that a keyword of a header opens.
pub open spec fn list_keyword(w: Seq<char>) -> Option<int> {
    let l = text::lower_all(w);
    if l == "uses"@ {
        Some(1)
    } else if l == "in"@ {
        Some(2)
    } else if l == "out"@ {
        Some(3)
    } else {
        None
    }
}

/// The list that word `k` of a header stands in: the one that the last keyword in front of it
/// opened, 0 in front of the first.
pub open spec fn list_of_word(v: Seq<Seq<char>>, k: int) -> int
    decreases k,
{
    if k <= 0 {
        0
    } else {
        match list_keyword(v[k - 1]) {
            Some(n) => n,
            None => list_of_word(v, k - 1),
        }
    }
}

/// Word `k` of a header is a member of the list `n`: it is no keyword and stands in it.
pub open spec fn member_word(v: Seq<Seq<char>>, k: int, n: int) -> bool {
    &&& 0 <= k < v.len()
    &&& v[k].len() > 0
    &&& list_keyword(v[k]) is None
    &&& text::lower_all(v[k]) != "frame"@
    &&& list_of_word(v, k) == n
}

/// The members of a list of a header, in lower case.
pub open spec fn in_list(v: Seq<Seq<char>>, n: int, x: Seq<char>) -> bool {
    exists|k: int| #[trigger] member_word(v, k, n) && x == text::lower_all(v[k])
}

spec fn hdr_list(h: HdrView, n: int) -> Seq<Seq<char>> {
    if n == 1 {
        h.uses
    } else if n == 2 {
        h.ins
    } else {
        h.outs
    }
}

proof fn lemma_prefix_members(v: Seq<Seq<char>>, k: int, n: int)
    requires
        0 <= k < v.len() - 1,
    ensures
        member_word(v.drop_last(), k, n) == member_word(v, k, n),
        list_of_word(v.drop_last(), k) == list_of_word(v, k),
{
    lemma_prefix_list(v, k);
}

proof fn lemma_prefix_list(v: Seq<Seq<char>>, k: int)
    requires
        k <= v.len() - 1,
    ensures
        list_of_word(v.drop_last(), k) == list_of_word(v, k),
    decreases k,
{
    if k > 0 {
        lemma_prefix_list(v, k - 1);
        assert(v.drop_last()[k - 1] == v[k - 1]);
    }
}

proof fn lemma_keywords_are_words()
    ensures
        list_keyword(Seq::empty()) is None,
        text::lower_all(Seq::<char>::empty()) != "frame"@,
        "frame"@ != "uses"@ && "frame"@ != "in"@ && "frame"@ != "out"@,
{
    reveal_strlit("uses");
    reveal_strlit("in");
    reveal_strlit("out");
    reveal_strlit("frame");
    assert(text::lower_all(Seq::<char>::empty()).len() == 0);
    assert("frame"@.len() == 5 && "uses"@.len() == 4 && "in"@.len() == 2 && "out"@.len() == 3);
}

proof fn lemma_list_range(v: Seq<Seq<char>>, k: int)
    ensures
        0 <= list_of_word(v, k) <= 3,
    decreases k,
{
    if k > 0 {
        lemma_list_range(v, k - 1);
    }
}

/// A `proc` header's lists hold the words behind their keyword, in lower case, up to the next
/// keyword; `frame` is a flag wherever it stands; and the words in front of the first keyword
/// name the procedure, the last of them.
pub proof fn law_header_lists(v: Seq<Seq<char>>, n: int, x: Seq<char>)
    requires
        1 <= n <= 3,
    ensures
        n == 1 ==> (contract::header_words(v).uses.contains(x) <==> in_list(v, 1, x)),
        n == 2 ==> (contract::header_words(v).ins.contains(x) <==> in_list(v, 2, x)),
        n == 3 ==> (contract::header_words(v).outs.contains(x) <==> in_list(v, 3, x)),
        contract::header_words(v).bucket == list_of_word(v, v.len() as int),
        contract::header_words(v).frame <==> exists|k: int|
            0 <= k < v.len() && text::lower_all(#[trigger] v[k]) == "frame"@,
        forall|k: int|
            #[trigger] member_word(v, k, 0) && (forall|l: int| k < l ==> !member_word(v, l, 0))
                ==> contract::header_words(v).name == v[k],
    decreases v.len(),
{
    let h = contract::header_words(v);
    lemma_keywords_are_words();
    if v.len() > 0 {
        let u = v.drop_last();
        let w = v.last();
        let e = v.len() - 1;
        let g = contract::header_words(u);
        law_header_lists(u, n, x);
        lemma_prefix_list(v, e);
        lemma_list_range(v, e);
        assert(v[e] == w);
        let l = text::lower_all(w);
        if w.len() == 0 {
            assert(w =~= Seq::empty());
        }
        // the flag
        if g.frame {
            let k = choose|k: int| 0 <= k < u.len() && text::lower_all(#[trigger] u[k]) == "frame"@;
            assert(text::lower_all(v[k]) == "frame"@);
        }
        if exists|k: int| 0 <= k < v.len() && text::lower_all(#[trigger] v[k]) == "frame"@ {
            let k = choose|k: int| 0 <= k < v.len() && text::lower_all(#[trigger] v[k]) == "frame"@;
            if k < e {
                assert(u[k] == v[k]);
            }
        }
        // the lists
        let a = hdr_list(g, n);
        let b = hdr_list(h, n);
        if in_list(u, n, x) {
            let k = choose|k: int| #[trigger] member_word(u, k, n) && x == text::lower_all(u[k]);
            lemma_prefix_members(v, k, n);
            assert(member_word(v, k, n));
        }
        if in_list(v, n, x) {
            let k = choose|k: int| #[trigger] member_word(v, k, n) && x == text::lower_all(v[k]);
            if k < e {
                lemma_prefix_members(v, k, n);
                assert(member_word(u, k, n) && u[k] == v[k]);
            }
        }
        if member_word(v, e, n) {
            assert(b == a.push(l));
            assert(b[b.len() - 1] == l);
            if a.contains(x) {
                let q = choose|q: int| 0 <= q < a.len() && a[q] == x;
                assert(b[q] == x);
            }
            if b.contains(x) && x != l {
                let q = choose|q: int| 0 <= q < b.len() && b[q] == x;
                assert(a[q] == x);
            }
        } else {
            assert(b == a);
        }
        // the name
        assert forall|k: int|
            #[trigger] member_word(v, k, 0) && (forall|m: int| k < m ==> !member_word(v, m, 0))
            implies h.name == v[k] by {
            if k < e {
                assert(!member_word(v, e, 0));
                lemma_prefix_members(v, k, 0);
                assert forall|m: int| k < m implies !member_word(u, m, 0) by {
                    if m < e {
                        lemma_prefix_members(v, m, 0);
                        assert(!member_word(v, m, 0));
                    }
                }
                assert(member_word(u, k, 0));
                assert(g.name == u[k]);
            }
        }
    }
}

// ── procedures and their lines ──────────────────────────────────────────────

/// Line `k` says something in a code section.
pub open spec fn speaks(v: Seq<Seq<char>>, k: int) -> bool {
    clobber_laws::statement(v[k]).len() > 0 && clobber_laws::code_follows(v, k + 1)
}

/// What stands behind `proc` on line `k`, where it is the header of a procedure.
pub open spec fn header_at(v: Seq<Seq<char>>, k: int) -> Option<Seq<char>> {
    if speaks(v, k) {
        lex::strip_keyword(clobber_laws::statement(v[k]), "proc"@)
    } else {
        None
    }
}

/// Line `k` is an `endproc`.
pub open spec fn ends_at(v: Seq<Seq<char>>, k: int) -> bool {
    speaks(v, k) && header_at(v, k) is None && clobber_laws::statement(v[k]) == "endproc"@
}

/// The procedure that the header on line `i` opens is open in front of line `j`.
pub open spec fn open_before(v: Seq<Seq<char>>, i: int, j: int) -> bool {
    &&& 0 <= i < j
    &&& header_at(v, i) is Some
    &&& forall|k: int| i < k < j ==> #[trigger] header_at(v, k) is None && !ends_at(v, k)
}

/// Line `j` is an instruction of the procedure that the header on line `i` opens.
pub open spec fn body_at(v: Seq<Seq<char>>, i: int, j: int) -> bool {
    open_before(v, i, j) && speaks(v, j) && header_at(v, j) is None && !ends_at(v, j)
}

/// Line `j` is a call of any sort.
pub open spec fn any_call_at(v: Seq<Seq<char>>, j: int) -> bool {
    lex::any_call(clobber_laws::statement(v[j]))
}

/// Line `j`, no call, reads `r`.
pub open spec fn reads_at(v: Seq<Seq<char>>, j: int, r: Reg) -> bool {
    !any_call_at(v, j) && regs::reads(Track::General, clobber_laws::statement(v[j])).contains(r)
}

/// Line `j` sets `r`; a call sets `rax`, its result.
pub open spec fn sets_at(v: Seq<Seq<char>>, j: int, r: Reg) -> bool {
    if any_call_at(v, j) {
        r == Reg::Rax
    } else {
        regs::writes(Track::General, clobber_laws::statement(v[j])).contains(r)
    }
}

/// The header on line `i`.
pub open spec fn declared(v: Seq<Seq<char>>, i: int) -> HdrView {
    contract::proc_header(header_at(v, i)->0)
}

/// The header on line `i` saves `r`.
pub open spec fn saves(v: Seq<Seq<char>>, i: int, r: Reg) -> bool {
    regs::regs_among(Track::CalleeSaved, declared(v, i).uses).contains(r)
}

/// The header on line `i` declares the input `r`.
pub open spec fn takes_in(v: Seq<Seq<char>>, i: int, r: Reg) -> bool {
    regs::regs_among(Track::General, declared(v, i).ins).contains(r)
}

/// The header on line `i` declares the output `r`.
pub open spec fn gives_out(v: Seq<Seq<char>>, i: int, r: Reg) -> bool {
    regs::regs_among(Track::General, declared(v, i).outs).contains(r)
}

/// Some line of the procedure in front of line `j` sets `r`.
pub open spec fn set_before(v: Seq<Seq<char>>, i: int, j: int, r: Reg) -> bool {
    exists|l: int| l < j && #[trigger] body_at(v, i, l) && sets_at(v, l, r)
}

/// Line `l` is the first line of the procedure that reads `r`.
pub open spec fn first_reader(v: Seq<Seq<char>>, i: int, l: int, r: Reg) -> bool {
    &&& body_at(v, i, l)
    &&& reads_at(v, l, r)
    &&& forall|k: int| k < l && #[trigger] body_at(v, i, k) ==> !reads_at(v, k, r)
}

/// How far the stack pointer is off the level behind the prologue, in front of line `j`,
/// where that can be told.
pub open spec fn level_before(v: Seq<Seq<char>>, i: int, j: int) -> Option<int>
    decreases j,
{
    if j <= i + 1 || j <= 0 {
        Some(0)
    } else if body_at(v, i, j - 1) && !any_call_at(v, j - 1) {
        contract::stack_level(level_before(v, i, j - 1), clobber_laws::statement(v[j - 1]))
    } else {
        level_before(v, i, j - 1)
    }
}

/// A breach on line `j` of the contract declared on line `i`, with its finding `d`.
pub open spec fn breach(v: Seq<Seq<char>>, i: int, j: int, r: Reg, d: DiagView) -> bool {
    ||| unsaved_write(v, i, j, r, d)
    ||| off_level_call(v, i, j, d)
    ||| unset_output(v, i, j, r, d)
    ||| undeclared_input(v, i, j, r, d)
}

/// Line `j` modifies the callee-saved `r` that the procedure does not save.
pub open spec fn unsaved_write(v: Seq<Seq<char>>, i: int, j: int, r: Reg, d: DiagView) -> bool {
    &&& body_at(v, i, j)
    &&& !any_call_at(v, j)
    &&& regs::writes(Track::CalleeSaved, clobber_laws::statement(v[j])).contains(r)
    &&& !saves(v, i, r)
    &&& d == DiagView {
        line: j + 1,
        col: contract::start_col(v[j]),
        message: "proc `"@ + declared(v, i).name + "` modifies `"@ + r.spec_name()
            + "` (callee-saved) without saving it — add `"@ + r.spec_name()
            + "` to its `uses` list, or the caller's value is lost"@,
    }
}

/// Line `j` calls from a framed procedure whose stack pointer is off its level.
pub open spec fn off_level_call(v: Seq<Seq<char>>, i: int, j: int, d: DiagView) -> bool {
    &&& body_at(v, i, j)
    &&& any_call_at(v, j)
    &&& declared(v, i).frame
    &&& level_before(v, i, j) matches Some(off) && off != 0 && d == (DiagView {
        line: j + 1,
        col: contract::start_col(v[j]),
        message: "rsp is off the frame level by "@ + text::signed_dec(off)
            + " byte(s) at this call in framed proc `"@ + declared(v, i).name
            + "` — a stray push/sub broke the 16-byte alignment the frame guarantees"@,
    })
}

/// The procedure ends on line `j`, and declares the output `r` without ever setting it.
pub open spec fn unset_output(v: Seq<Seq<char>>, i: int, j: int, r: Reg, d: DiagView) -> bool {
    &&& open_before(v, i, j)
    &&& ends_at(v, j)
    &&& gives_out(v, i, r)
    &&& !set_before(v, i, j, r)
    &&& d == DiagView {
        line: i + 1,
        col: 1,
        message: "proc `"@ + declared(v, i).name + "` declares `out "@ + r.spec_name()
            + "` but never sets it"@,
    }
}

/// The procedure ends on line `j`, and reads `r`, which it never sets, does not save and does
/// not declare an input; the finding stands on the first read.
pub open spec fn undeclared_input(v: Seq<Seq<char>>, i: int, j: int, r: Reg, d: DiagView) -> bool {
    &&& open_before(v, i, j)
    &&& ends_at(v, j)
    &&& r != Reg::Rsp && r != Reg::Rbp
    &&& !set_before(v, i, j, r)
    &&& !takes_in(v, i, r)
    &&& !saves(v, i, r)
    &&& exists|l: int| l < j && #[trigger] first_reader(v, i, l, r) && d.line == l + 1
    &&& d.col == 1
    &&& d.message == "proc `"@ + declared(v, i).name + "` reads `"@ + r.spec_name()
        + "` but never sets it — declare `in "@ + r.spec_name() + "` if it's an input"@
}

// ── the state of the scan ───────────────────────────────────────────────────

proof fn lemma_first_read_concat(a: Seq<(Reg, int)>, b: Seq<(Reg, int)>, r: Reg)
    ensures
        contract::first_read(a + b, r) == (match contract::first_read(a, r) {
            Some(l) => Some(l),
            None => contract::first_read(b, r),
        }),
    decreases a.len(),
{
    if a.len() == 0 {
        assert(a + b =~= b);
    } else {
        assert((a + b)[0] == a[0]);
        assert((a + b).drop_first() =~= a.drop_first() + b);
        if a[0].0 != r {
            lemma_first_read_concat(a.drop_first(), b, r);
        }
    }
}

proof fn lemma_first_read_line(w: Seq<Reg>, line: int, r: Reg)
    ensures
        contract::first_read(Seq::new(w.len(), |i: int| (w[i], line)), r) == (if w.contains(r) {
            Some(line)
        } else {
            None
        }),
    decreases w.len(),
{
    let log = Seq::new(w.len(), |i: int| (w[i], line));
    if w.len() > 0 {
        let u = w.drop_first();
        lemma_first_read_line(u, line, r);
        assert(log.drop_first() =~= Seq::new(u.len(), |i: int| (u[i], line)));
        if w[0] != r {
            if w.contains(r) {
                let k = choose|k: int| 0 <= k < w.len() && w[k] == r;
                assert(u[k - 1] == r);
            }
            if u.contains(r) {
                let k = choose|k: int| 0 <= k < u.len() && u[k] == r;
                assert(w[k + 1] == r);
            }
        }
    }
}

pub proof fn lemma_reg_in_concat(a: Seq<Reg>, b: Seq<Reg>, r: Reg)
    ensures
        (a + b).contains(r) <==> a.contains(r) || b.contains(r),
        a.push(r).contains(r),
        forall|q: Reg| q != r ==> (#[trigger] a.push(r).contains(q) <==> a.contains(q)),
{
    if a.contains(r) {
        let k = choose|k: int| 0 <= k < a.len() && a[k] == r;
        assert((a + b)[k] == r);
    }
    if b.contains(r) {
        let k = choose|k: int| 0 <= k < b.len() && b[k] == r;
        assert((a + b)[a.len() + k] == r);
    }
    if (a + b).contains(r) {
        let k = choose|k: int| 0 <= k < (a + b).len() && (a + b)[k] == r;
        if k < a.len() {
            assert(a[k] == r);
        } else {
            assert(b[k - a.len()] == r);
        }
    }
    assert(a.push(r)[a.len() as int] == r);
    assert forall|q: Reg| q != r implies (#[trigger] a.push(r).contains(q) <==> a.contains(q)) by {
        if a.contains(q) {
            let k = choose|k: int| 0 <= k < a.len() && a[k] == q;
            assert(a.push(r)[k] == q);
        }
        if a.push(r).contains(q) {
            let k = choose|k: int| 0 <= k < a.push(r).len() && a.push(r)[k] == q;
            assert(a[k] == q);
        }
    }
}

/// The scan `st` in front of line `k` knows what stands in front of it, as to `r`.
spec fn knows(v: Seq<Seq<char>>, k: int, st: ContractScan, r: Reg) -> bool {
    &&& st.in_code == clobber_laws::code_follows(v, k)
    &&& st.cur is None ==> forall|i: int| !open_before(v, i, k)
    &&& st.cur matches Some(p) ==> {
        let i = p.line - 1;
        &&& open_before(v, i, k)
        &&& p.name == declared(v, i).name
        &&& p.framed == declared(v, i).frame
        &&& p.saved.contains(r) == saves(v, i, r)
        &&& p.ins.contains(r) == takes_in(v, i, r)
        &&& p.outs == regs::regs_among(Track::General, declared(v, i).outs)
        &&& p.writes.contains(r) <==> set_before(v, i, k, r)
        &&& match contract::first_read(p.reads, r) {
            Some(l) => l - 1 < k && first_reader(v, i, l - 1, r),
            None => forall|l: int| l < k && #[trigger] body_at(v, i, l) ==> !reads_at(v, l, r),
        }
        &&& p.framed ==> p.rsp == level_before(v, i, k)
    }
}

proof fn lemma_open_is_one(v: Seq<Seq<char>>, i: int, j: int, k: int)
    requires
        open_before(v, i, k),
        open_before(v, j, k),
    ensures
        i == j,
{
    if i < j {
        assert(header_at(v, j) is None);
    }
    if j < i {
        assert(header_at(v, i) is None);
    }
}

proof fn lemma_open_goes_on(v: Seq<Seq<char>>, i: int, k: int)
    requires
        0 <= k,
    ensures
        open_before(v, i, k + 1) <==> (i == k && header_at(v, k) is Some) || (open_before(v, i, k)
            && header_at(v, k) is None && !ends_at(v, k)),
{
    if open_before(v, i, k + 1) && i < k {
        assert(header_at(v, k) is None && !ends_at(v, k));
        assert forall|l: int| i < l < k implies #[trigger] header_at(v, l) is None && !ends_at(
            v,
            l,
        ) by {}
        assert(open_before(v, i, k));
    }
    if open_before(v, i, k) && header_at(v, k) is None && !ends_at(v, k) {
        assert forall|l: int| i < l < k + 1 implies #[trigger] header_at(v, l) is None && !ends_at(
            v,
            l,
        ) by {}
    }
}

/// What one line makes of the scan.
#[verifier::spinoff_prover]
proof fn lemma_contract_line(v: Seq<Seq<char>>, k: int, st: ContractScan)
    requires
        0 <= k < v.len(),
        st.in_code == clobber_laws::code_follows(v, k),
    ensures
        ({
            let e = contract::contract_line(st, v[k], k + 1);
            let t = clobber_laws::statement(v[k]);
            &&& e.in_code == clobber_laws::code_follows(v, k + 1)
            &&& header_at(v, k) matches Some(rest) ==> e.diags == st.diags && e.cur == Some(
                contract::open_proc(rest, k + 1),
            )
            &&& header_at(v, k) is None && (st.cur is None || !speaks(v, k)) ==> e.diags == st.diags
                && e.cur == st.cur
            &&& ends_at(v, k) ==> (st.cur matches Some(p) ==> e.cur is None && e.diags == st.diags
                + contract::end_findings(p))
            &&& speaks(v, k) && header_at(v, k) is None && !ends_at(v, k) ==> (st.cur matches Some(p)
                ==> {
                let b = contract::body_line(
                    ContractScan { in_code: clobber_laws::code_follows(v, k + 1), ..st },
                    p,
                    t,
                    k + 1,
                    contract::start_col(v[k]),
                );
                e == b
            })
        }),
{
    clobber_laws::lemma_switch_says(v[k]);
}

/// A line of the body adds to what is known.
#[verifier::spinoff_prover]
proof fn lemma_knows_body(v: Seq<Seq<char>>, k: int, st: ContractScan, r: Reg)
    requires
        0 <= k < v.len(),
        knows(v, k, st, r),
        st.cur is Some,
        body_at(v, st.cur->0.line - 1, k),
    ensures
        knows(v, k + 1, contract::contract_line(st, v[k], k + 1), r),
{
    let e = contract::contract_line(st, v[k], k + 1);
    lemma_contract_line(v, k, st);
    let p = st.cur->0;
    let q = e.cur->0;
    let i = p.line - 1;
    let t = clobber_laws::statement(v[k]);
    lemma_open_goes_on(v, i, k);
    assert(q.line == p.line);
    // what is set
    if any_call_at(v, k) {
        lemma_reg_in_concat(p.writes, seq![], Reg::Rax);
    } else {
        lemma_reg_in_concat(p.writes, regs::writes(Track::General, t), r);
    }
    assert(q.writes.contains(r) <==> p.writes.contains(r) || sets_at(v, k, r));
    if set_before(v, i, k, r) {
        let l = choose|l: int| l < k && #[trigger] body_at(v, i, l) && sets_at(v, l, r);
        assert(l < k + 1 && body_at(v, i, l));
    }
    if sets_at(v, k, r) {
        assert(k < k + 1 && body_at(v, i, k));
    }
    if set_before(v, i, k + 1, r) {
        let l = choose|l: int| l < k + 1 && #[trigger] body_at(v, i, l) && sets_at(v, l, r);
        if l < k {
            assert(set_before(v, i, k, r));
        }
    }
    assert(q.writes.contains(r) <==> set_before(v, i, k + 1, r));
    // what is read
    if !any_call_at(v, k) {
        let w = regs::reads(Track::General, t);
        lemma_first_read_concat(p.reads, Seq::new(w.len(), |i: int| (w[i], k + 1)), r);
        lemma_first_read_line(w, k + 1, r);
    }
    match contract::first_read(q.reads, r) {
        Some(l) => {
            if l == k + 1 {
                assert(contract::first_read(p.reads, r) is None || l - 1 < k);
                assert(first_reader(v, i, k, r));
            }
        },
        None => {
            assert forall|l: int| l < k + 1 && #[trigger] body_at(v, i, l) implies !reads_at(
                v,
                l,
                r,
            ) by {}
        },
    }
}

#[verifier::spinoff_prover]
proof fn lemma_knows(v: Seq<Seq<char>>, k: int, r: Reg)
    requires
        0 <= k <= v.len(),
    ensures
        knows(v, k, contract::contract_lines(v.take(k)), r),
    decreases k,
{
    if k == 0 {
        assert(v.take(0) =~= Seq::empty());
    } else {
        let m = k - 1;
        lemma_knows(v, m, r);
        let st = contract::contract_lines(v.take(m));
        assert(v.take(k).drop_last() =~= v.take(m));
        assert(v.take(k).last() == v[m]);
        let e = contract::contract_line(st, v[m], k);
        assert(contract::contract_lines(v.take(k)) == e);
        lemma_contract_line(v, m, st);
        if header_at(v, m) is Some {
            lemma_open_goes_on(v, m, m);
            let p = e.cur->0;
            assert(p.line - 1 == m);
            assert forall|l: int| #[trigger] body_at(v, m, l) implies l >= k by {}
            assert(!p.writes.contains(r));
            assert(contract::first_read(p.reads, r) is None);
        } else if st.cur is None {
            assert forall|i: int| !open_before(v, i, k) by {
                lemma_open_goes_on(v, i, m);
            }
        } else {
            let i = st.cur->0.line - 1;
            lemma_open_goes_on(v, i, m);
            if ends_at(v, m) {
                assert forall|x: int| !open_before(v, x, k) by {
                    lemma_open_goes_on(v, x, m);
                }
            } else if speaks(v, m) {
                lemma_knows_body(v, m, st, r);
            } else {
                lemma_knows_silent(v, m, st, r);
            }
        }
    }
}

/// A line that says nothing adds nothing.
proof fn lemma_knows_silent(v: Seq<Seq<char>>, k: int, st: ContractScan, r: Reg)
    requires
        0 <= k < v.len(),
        knows(v, k, st, r),
        st.cur is Some,
        !speaks(v, k),
    ensures
        knows(v, k + 1, contract::contract_line(st, v[k], k + 1), r),
{
    lemma_contract_line(v, k, st);
    let e = contract::contract_line(st, v[k], k + 1);
    let i = st.cur->0.line - 1;
    lemma_open_goes_on(v, i, k);
    if set_before(v, i, k + 1, r) {
        let l = choose|l: int| l < k + 1 && #[trigger] body_at(v, i, l) && sets_at(v, l, r);
        assert(l < k);
    }
    if set_before(v, i, k, r) {
        let l = choose|l: int| l < k && #[trigger] body_at(v, i, l) && sets_at(v, l, r);
        assert(l < k + 1 && body_at(v, i, l));
    }
    assert(forall|l: int| #[trigger] body_at(v, i, l) ==> l != k);
}

// ── the findings ────────────────────────────────────────────────────────────

proof fn lemma_unsaved_findings(p: ProcScan, w: Seq<Reg>, line: int, col: int, d: DiagView)
    ensures
        contract::unsaved_findings(p, w, line, col).contains(d) <==> exists|r: Reg|
            #[trigger] w.contains(r) && !p.saved.contains(r) && d == (DiagView {
                line,
                col,
                message: contract::unsaved_message(p.name, r),
            }),
    decreases w.len(),
{
    let all = contract::unsaved_findings(p, w, line, col);
    if w.len() > 0 {
        let u = w.drop_last();
        let x = w.last();
        let before = contract::unsaved_findings(p, u, line, col);
        lemma_unsaved_findings(p, u, line, col, d);
        lemma_reg_in_concat(u, seq![], x);
        assert(u.push(x) =~= w);
        let f = DiagView { line, col, message: contract::unsaved_message(p.name, x) };
        lemma_pushed(before, f, d);
        if exists|r: Reg|
            #[trigger] w.contains(r) && !p.saved.contains(r) && d == (DiagView {
                line,
                col,
                message: contract::unsaved_message(p.name, r),
            }) {
            let r = choose|r: Reg|
                #[trigger] w.contains(r) && !p.saved.contains(r) && d == (DiagView {
                    line,
                    col,
                    message: contract::unsaved_message(p.name, r),
                });
            assert(r == x || u.contains(r));
        }
        if before.contains(d) {
            let r = choose|r: Reg|
                #[trigger] u.contains(r) && !p.saved.contains(r) && d == (DiagView {
                    line,
                    col,
                    message: contract::unsaved_message(p.name, r),
                });
            assert(w.contains(r));
        }
        assert(w.contains(x));
    }
}

proof fn lemma_pushed(a: Seq<DiagView>, f: DiagView, d: DiagView)
    ensures
        a.push(f).contains(d) <==> a.contains(d) || d == f,
{
    let b = a.push(f);
    assert(b[a.len() as int] == f);
    if a.contains(d) {
        let n = choose|n: int| 0 <= n < a.len() && a[n] == d;
        assert(b[n] == d);
    }
    if b.contains(d) {
        let n = choose|n: int| 0 <= n < b.len() && b[n] == d;
        if n < a.len() {
            assert(a[n] == d);
        }
    }
}

proof fn lemma_unset_findings(p: ProcScan, w: Seq<Reg>, d: DiagView)
    ensures
        contract::unset_findings(p, w).contains(d) <==> exists|r: Reg|
            #[trigger] w.contains(r) && !p.writes.contains(r) && d == (DiagView {
                line: p.line,
                col: 1,
                message: contract::unset_message(p.name, r),
            }),
    decreases w.len(),
{
    if w.len() > 0 {
        let u = w.drop_last();
        let x = w.last();
        let before = contract::unset_findings(p, u);
        lemma_unset_findings(p, u, d);
        lemma_reg_in_concat(u, seq![], x);
        assert(u.push(x) =~= w);
        let f = DiagView { line: p.line, col: 1, message: contract::unset_message(p.name, x) };
        lemma_pushed(before, f, d);
        if exists|r: Reg|
            #[trigger] w.contains(r) && !p.writes.contains(r) && d == (DiagView {
                line: p.line,
                col: 1,
                message: contract::unset_message(p.name, r),
            }) {
            let r = choose|r: Reg|
                #[trigger] w.contains(r) && !p.writes.contains(r) && d == (DiagView {
                    line: p.line,
                    col: 1,
                    message: contract::unset_message(p.name, r),
                });
            assert(r == x || u.contains(r));
        }
        if before.contains(d) {
            let r = choose|r: Reg|
                #[trigger] u.contains(r) && !p.writes.contains(r) && d == (DiagView {
                    line: p.line,
                    col: 1,
                    message: contract::unset_message(p.name, r),
                });
            assert(w.contains(r));
        }
        assert(w.contains(x));
    }
}

spec fn undeclared_finding(p: ProcScan, r: Reg) -> DiagView {
    DiagView {
        line: contract::first_read(p.reads, r)->0,
        col: 1,
        message: contract::undeclared_message(p.name, r),
    }
}

proof fn lemma_undeclared_findings(p: ProcScan, w: Seq<Reg>, d: DiagView)
    ensures
        contract::undeclared_findings(p, w).contains(d) <==> exists|r: Reg|
            #[trigger] w.contains(r) && contract::uninitialized(p, r) && d == undeclared_finding(
                p,
                r,
            ),
    decreases w.len(),
{
    if w.len() > 0 {
        let u = w.drop_last();
        let x = w.last();
        let before = contract::undeclared_findings(p, u);
        lemma_undeclared_findings(p, u, d);
        lemma_reg_in_concat(u, seq![], x);
        assert(u.push(x) =~= w);
        lemma_pushed(before, undeclared_finding(p, x), d);
        if exists|r: Reg|
            #[trigger] w.contains(r) && contract::uninitialized(p, r) && d == undeclared_finding(
                p,
                r,
            ) {
            let r = choose|r: Reg|
                #[trigger] w.contains(r) && contract::uninitialized(p, r) && d
                    == undeclared_finding(p, r);
            assert(r == x || u.contains(r));
        }
        if before.contains(d) {
            let r = choose|r: Reg|
                #[trigger] u.contains(r) && contract::uninitialized(p, r) && d
                    == undeclared_finding(p, r);
            assert(w.contains(r));
        }
        assert(w.contains(x));
    }
}

proof fn lemma_every_register_is_named(r: Reg)
    ensures
        contract::regs_by_name().contains(r),
{
    let w = contract::regs_by_name();
    let k: int = match r {
        Reg::R10 => 0,
        Reg::R11 => 1,
        Reg::R12 => 2,
        Reg::R13 => 3,
        Reg::R14 => 4,
        Reg::R15 => 5,
        Reg::R8 => 6,
        Reg::R9 => 7,
        Reg::Rax => 8,
        Reg::Rbp => 9,
        Reg::Rbx => 10,
        Reg::Rcx => 11,
        Reg::Rdi => 12,
        Reg::Rdx => 13,
        Reg::Rsi => 14,
        Reg::Rsp => 15,
    };
    assert(w[k] == r);
}

/// Some breach on line `j` has the finding `d`.
pub open spec fn breached_on(v: Seq<Seq<char>>, j: int, d: DiagView) -> bool {
    exists|i: int, r: Reg| #[trigger] breach(v, i, j, r, d)
}

#[verifier::spinoff_prover]
proof fn lemma_body_findings(v: Seq<Seq<char>>, k: int, st: ContractScan, d: DiagView)
    requires
        0 <= k < v.len(),
        st.cur is Some,
        forall|r: Reg| #[trigger] knows(v, k, st, r),
        body_at(v, st.cur->0.line - 1, k),
    ensures
        contract::contract_line(st, v[k], k + 1).diags.contains(d) <==> st.diags.contains(d)
            || breached_on(v, k, d),
{
    let p = st.cur->0;
    let i = p.line - 1;
    let t = clobber_laws::statement(v[k]);
    let col = contract::start_col(v[k]);
    assert(knows(v, k, st, Reg::Rax));
    lemma_contract_line(v, k, st);
    let e = contract::contract_line(st, v[k], k + 1);
    assert forall|x: int, r: Reg| #[trigger] breach(v, x, k, r, d) implies x == i by {
        lemma_open_is_one(v, x, i, k);
    }
    if any_call_at(v, k) {
        let off = p.framed && p.rsp is Some && p.rsp->0 != 0;
        let f = DiagView { line: k + 1, col, message: contract::off_level_message(p.name, p.rsp->0) };
        lemma_pushed(st.diags, f, d);
        if off && d == f {
            assert(off_level_call(v, i, k, d));
            assert(breach(v, i, k, Reg::Rax, d));
        }
        if breached_on(v, k, d) {
            let (x, r) = choose|x: int, r: Reg| #[trigger] breach(v, x, k, r, d);
            assert(off_level_call(v, i, k, d));
        }
    } else {
        let w = regs::writes(Track::CalleeSaved, t);
        let added = contract::unsaved_findings(p, w, k + 1, col);
        lemma_unsaved_findings(p, w, k + 1, col, d);
        clobber_laws::lemma_in_concat(st.diags, added, d);
        if added.contains(d) {
            let r = choose|r: Reg|
                #[trigger] w.contains(r) && !p.saved.contains(r) && d == (DiagView {
                    line: k + 1,
                    col,
                    message: contract::unsaved_message(p.name, r),
                });
            assert(knows(v, k, st, r));
            assert(unsaved_write(v, i, k, r, d));
            assert(breach(v, i, k, r, d));
        }
        if breached_on(v, k, d) {
            let (x, r) = choose|x: int, r: Reg| #[trigger] breach(v, x, k, r, d);
            assert(knows(v, k, st, r));
            assert(unsaved_write(v, i, k, r, d));
            assert(w.contains(r));
        }
    }
}

#[verifier::spinoff_prover]
proof fn lemma_end_findings(v: Seq<Seq<char>>, k: int, st: ContractScan, d: DiagView)
    requires
        0 <= k < v.len(),
        st.cur is Some,
        forall|r: Reg| #[trigger] knows(v, k, st, r),
        ends_at(v, k),
    ensures
        contract::contract_line(st, v[k], k + 1).diags.contains(d) <==> st.diags.contains(d)
            || breached_on(v, k, d),
{
    let p = st.cur->0;
    let i = p.line - 1;
    assert(knows(v, k, st, Reg::Rax));
    lemma_contract_line(v, k, st);
    let a = contract::undeclared_findings(p, contract::regs_by_name());
    let b = contract::unset_findings(p, p.outs);
    clobber_laws::lemma_in_concat(st.diags, a + b, d);
    clobber_laws::lemma_in_concat(a, b, d);
    lemma_undeclared_findings(p, contract::regs_by_name(), d);
    lemma_unset_findings(p, p.outs, d);
    assert forall|x: int, r: Reg| #[trigger] breach(v, x, k, r, d) implies x == i by {
        lemma_open_is_one(v, x, i, k);
    }
    if a.contains(d) {
        let r = choose|r: Reg|
            #[trigger] contract::regs_by_name().contains(r) && contract::uninitialized(p, r) && d
                == undeclared_finding(p, r);
        assert(knows(v, k, st, r));
        let l = contract::first_read(p.reads, r)->0 - 1;
        assert(l < k && first_reader(v, i, l, r));
        assert(undeclared_input(v, i, k, r, d));
        assert(breach(v, i, k, r, d));
    }
    if b.contains(d) {
        let r = choose|r: Reg|
            #[trigger] p.outs.contains(r) && !p.writes.contains(r) && d == (DiagView {
                line: p.line,
                col: 1,
                message: contract::unset_message(p.name, r),
            });
        assert(knows(v, k, st, r));
        assert(unset_output(v, i, k, r, d));
        assert(breach(v, i, k, r, d));
    }
    if breached_on(v, k, d) {
        let (x, r) = choose|x: int, r: Reg| #[trigger] breach(v, x, k, r, d);
        assert(knows(v, k, st, r));
        if unset_output(v, i, k, r, d) {
            assert(p.outs.contains(r));
        } else {
            assert(undeclared_input(v, i, k, r, d));
            let l = choose|l: int| l < k && #[trigger] first_reader(v, i, l, r) && d.line == l + 1;
            lemma_every_register_is_named(r);
            assert(contract::first_read(p.reads, r) is Some);
            let m = contract::first_read(p.reads, r)->0 - 1;
            assert(first_reader(v, i, m, r));
            assert(l == m) by {
                if l < m {
                    assert(body_at(v, i, l) && !reads_at(v, l, r));
                }
                if m < l {
                    assert(body_at(v, i, m) && !reads_at(v, m, r));
                }
            }
            assert(d == undeclared_finding(p, r));
        }
    }
}

proof fn lemma_breaches_up_to(v: Seq<Seq<char>>, k: int, d: DiagView)
    requires
        0 <= k <= v.len(),
    ensures
        contract::contract_lines(v.take(k)).diags.contains(d) <==> exists|j: int|
            0 <= j < k && #[trigger] breached_on(v, j, d),
    decreases k,
{
    if k == 0 {
        assert(v.take(0) =~= Seq::empty());
    } else {
        let m = k - 1;
        lemma_breaches_up_to(v, m, d);
        let st = contract::contract_lines(v.take(m));
        assert(v.take(k).drop_last() =~= v.take(m));
        assert(v.take(k).last() == v[m]);
        let e = contract::contract_line(st, v[m], k);
        assert(contract::contract_lines(v.take(k)) == e);
        assert forall|r: Reg| #[trigger] knows(v, m, st, r) by {
            lemma_knows(v, m, r);
        }
        assert(knows(v, m, st, Reg::Rax));
        lemma_contract_line(v, m, st);
        if st.cur is Some && speaks(v, m) && header_at(v, m) is None {
            if ends_at(v, m) {
                lemma_end_findings(v, m, st, d);
            } else {
                lemma_body_findings(v, m, st, d);
            }
        } else {
            assert(e.diags == st.diags);
            if breached_on(v, m, d) {
                let (x, r) = choose|x: int, r: Reg| #[trigger] breach(v, x, m, r, d);
                assert(open_before(v, x, m));
                assert(false);
            }
        }
        assert(e.diags.contains(d) <==> st.diags.contains(d) || breached_on(v, m, d));
        if st.diags.contains(d) {
            let j = choose|j: int| 0 <= j < m && #[trigger] breached_on(v, j, d);
            assert(0 <= j < k && breached_on(v, j, d));
        }
    }
}

/// The report on procedure contracts holds a finding for every breach, and no other: a
/// callee-saved register modified without being saved, a call off the frame's stack level, an
/// output that is never set, and a register that is read but neither set, saved nor declared.
pub proof fn law_contract_breaches_are_reported(src: Seq<char>, d: DiagView)
    ensures
        contract::contract_findings(src).contains(d) <==> exists|j: int|
            0 <= j < text::lines(src).len() && #[trigger] breached_on(text::lines(src), j, d),
{
    let v = text::lines(src);
    lemma_breaches_up_to(v, v.len() as int, d);
    assert(v.take(v.len() as int) =~= v);
}

// ── the stack level ─────────────────────────────────────────────────────────

/// A word of letters and digits.
pub open spec fn plain_word(r: Seq<char>) -> bool {
    r.len() > 0 && forall|i: int| 0 <= i < r.len() ==> text::is_alnum(#[trigger] r[i])
}

proof fn lemma_first_word_is(w: Seq<char>, rest: Seq<char>)
    requires
        plain_word(w),
        rest.len() > 0,
    ensures
        text::first_word(w + " "@ + rest) == w,
        text::find_ws(w + " "@ + rest) == w.len(),
        (w + " "@ + rest).skip(w.len() as int + 1) == rest,
        (w + " "@ + rest).last() == rest.last(),
{
    reveal_strlit(" ");
    let t = w + " "@ + rest;
    assert(t[0] == w[0]);
    assert(text::is_alnum(w[0]));
    text::lemma_first_from(t, text::not_ws(), 0);
    assert(text::not_ws()(t[0]));
    assert(text::first_from(t, text::not_ws(), 0) == 0);
    assert(text::trim_start(t) =~= t);
    text::lemma_first_from(t, text::ws(), 0);
    let f = text::find_ws(t);
    assert(f == w.len()) by {
        assert(t[w.len() as int] == ' ');
        assert(text::ws()(t[w.len() as int]));
        if f < w.len() {
            assert(t[f] == w[f]);
            assert(text::is_alnum(w[f]));
        }
    }
    assert(t.take(f) =~= w);
    assert(t.skip(w.len() as int + 1) =~= rest);
}

proof fn lemma_number_operand(n: int)
    requires
        0 <= n <= i64::MAX,
    ensures
        contract::immediate(text::signed_dec(n)) == Some(n),
        text::trim(seq![' '] + text::signed_dec(n)) == text::signed_dec(n),
        !(seq![' '] + text::signed_dec(n)).contains(','),
        text::signed_dec(n).len() > 0,
        text::signed_dec(n).last() != ':',
{
    reveal_strlit("0x");
    reveal_strlit("0X");
    let d = text::signed_dec(n);
    block_laws::lemma_dec_is_digits(n);
    text_laws::law_signed_decimal_reads_back(n);
    assert('0' <= d[d.len() - 1] <= '9' && '0' <= d[0] <= '9');
    call_laws::lemma_trim_plain(d);
    assert(text::is_ws(seq![' '][0]));
    inline_laws::lemma_trim_around(seq![' '], d);
    let b = seq![' '] + d;
    if b.contains(',') {
        let k = choose|k: int| 0 <= k < b.len() && b[k] == ',';
        assert(k > 0 && b[k] == d[k - 1]);
    }
    if d.len() >= 2 {
        assert('0' <= d[1] <= '9');
        assert(d.take(2)[1] == d[1]);
    }
    assert(!text::starts_with(d, "0x"@) && !text::starts_with(d, "0X"@));
}

proof fn lemma_rsp_operands(mn: Seq<char>, n: int)
    requires
        plain_word(mn),
        0 <= n <= i64::MAX,
    ensures
        ({
            let t = mn + " "@ + ("rsp, "@ + text::signed_dec(n));
            &&& contract::plain_operands(t).len() == 2
            &&& contract::plain_operands(t)[0] == "rsp"@
            &&& contract::plain_operands(t)[1] == text::signed_dec(n)
            &&& text::first_word(t) == mn
            &&& t.last() != ':'
        }),
{
    reveal_strlit("rsp");
    reveal_strlit("rsp, ");
    let d = text::signed_dec(n);
    lemma_number_operand(n);
    let rest = "rsp, "@ + d;
    assert(rest.last() == d.last());
    lemma_first_word_is(mn, rest);
    let a = "rsp"@;
    let b = seq![' '] + d;
    assert(rest =~= a + seq![','] + b);
    assert(!a.contains(','));
    data_laws::lemma_split_at(a, ',', b);
    assert(text::split(rest, ',') =~= seq![a, b]);
    call_laws::lemma_trim_plain(a);
    let t = mn + " "@ + rest;
    reveal_strlit(" ");
    assert(t.len() > mn.len());
    assert(contract::plain_operands(t) =~= lex::trim_each(seq![a, b]));
}

proof fn lemma_move_rsp(mn: Seq<char>, n: int, level: int)
    requires
        mn == "sub"@ || mn == "add"@,
        0 <= n <= i64::MAX,
    ensures
        contract::stack_level(Some(level), mn + " "@ + ("rsp, "@ + text::signed_dec(n))) == Some(
            if mn == "sub"@ {
                level - n
            } else {
                level + n
            },
        ),
{
    reveal_strlit("sub");
    reveal_strlit("add");
    reveal_strlit("push");
    reveal_strlit("pop");
    reveal_strlit("rsp");
    lemma_rsp_operands(mn, n);
    lemma_number_operand(n);
    assert(text::lower_all(mn) =~= mn);
    assert(mn[0] == 's' || mn[0] == 'a');
    assert("push"@[0] == 'p' && "pop"@[0] == 'p');
    let a = "rsp"@;
    call_laws::lemma_trim_plain(a);
    assert(text::lower_all(a) =~= seq!['r', 's', 'p']);
    reg_laws::law_registers_go_by_their_names(a, Reg::Rsp);
}

/// The stack level is tracked as the machine moves the stack pointer: a `push` and a `pop`, and
/// a number taken off `rsp` or added to it.
pub proof fn law_stack_level_follows_the_machine(m: Machine, base: int, r: Seq<char>, n: int)
    requires
        plain_word(r),
        r != "rsp"@,
        0 <= n <= i64::MAX,
    ensures
        contract::stack_level(Some(m.sp() - base), "push"@ + " "@ + r) == Some(
            machine::done(Instr::Push(r), m).sp() - base,
        ),
        contract::stack_level(Some(m.sp() - base), "pop"@ + " "@ + r) == Some(
            machine::done(Instr::Pop(r), m).sp() - base,
        ),
        contract::stack_level(
            Some(m.sp() - base),
            "sub"@ + " "@ + ("rsp, "@ + text::signed_dec(n)),
        ) == Some(machine::done(Instr::Reserve(n), m).sp() - base),
        contract::stack_level(
            Some(machine::done(Instr::Reserve(n), m).sp() - base),
            "add"@ + " "@ + ("rsp, "@ + text::signed_dec(n)),
        ) == Some(m.sp() - base),
{
    machine::lemma_names_differ();
    reveal_strlit("push");
    reveal_strlit("pop");
    assert(text::is_alnum(r[r.len() - 1]));
    assert(r.last() == r[r.len() - 1]);
    lemma_first_word_is("push"@, r);
    lemma_first_word_is("pop"@, r);
    assert(text::lower_all("push"@) =~= "push"@);
    assert(text::lower_all("pop"@) =~= "pop"@);
    lemma_move_rsp("sub"@, n, m.sp() - base);
    lemma_move_rsp("add"@, n, machine::done(Instr::Reserve(n), m).sp() - base);
    reveal_strlit("sub");
    reveal_strlit("add");
    assert("sub"@[0] == 's' && "add"@[0] == 'a');
    assert("push"@.len() == 4 && "pop"@.len() == 3);
}

/// A finding on an instruction stands behind the indentation: its column counts the bytes in
/// front of the first character that is no white space, from 1.
pub proof fn law_column_is_behind_the_indentation(ind: Seq<char>, core: Seq<char>)
    requires
        inline_laws::blank(ind),
        core.len() > 0,
        !text::is_ws(core[0]),
    ensures
        contract::start_col(ind + core) == text::byte_len(ind) + 1,
{
    let s = ind + core;
    text::lemma_first_from(s, text::not_ws(), 0);
    let f = text::first_from(s, text::not_ws(), 0);
    assert(f == ind.len()) by {
        assert(s[ind.len() as int] == core[0]);
        assert(text::not_ws()(s[ind.len() as int]));
        if f < ind.len() {
            assert(s[f] == ind[f]);
            assert(text::is_ws(ind[f]));
        }
    }
    assert(s.take(f) =~= ind);
}

} // verus!
