//! What the report on destroyed registers says: a finding stands on every read of a
//! caller-saved register whose value a call destroyed, and on nothing else.
use crate::text;
use crate::was::clobber;
use crate::was::lex;
use crate::was::macros;
use crate::was::regs;
use crate::was::clobber::ClobberScan;
use crate::was::diag::DiagView;
use crate::was::regs::{Reg, Track};
use vstd::prelude::*;

verus! {

/// What a line is to the reader who follows the registers.
pub enum LineRole {
    /// Nothing that runs: blank, a section directive, data, or part of a macro definition.
    Passed,
    /// The start or the end of a procedure, or a label alone on its line.
    Boundary,
    /// The instruction `t`, perhaps behind a label.
    Runs { labelled: bool, t: Seq<char> },
}

/// What a line says, without its comment and the spaces around.
pub open spec fn statement(raw: Seq<char>) -> Seq<char> {
    text::trim(lex::strip_comment(raw))
}

/// `.data`, `.code` or `.text` alone on its line, whatever the case: whether code follows.
pub open spec fn section_switch(raw: Seq<char>) -> Option<bool> {
    let l = text::lower_all(statement(raw));
    if l == ".data"@ {
        Some(false)
    } else if l == ".code"@ || l == ".text"@ {
        Some(true)
    } else {
        None
    }
}

/// Whether code stands behind the first `k` lines: the last section directive decides, and
/// a source starts with code.
pub open spec fn code_follows(v: Seq<Seq<char>>, k: int) -> bool
    decreases k,
{
    if k <= 0 {
        true
    } else {
        match section_switch(v[k - 1]) {
            Some(code) => code,
            None => code_follows(v, k - 1),
        }
    }
}

/// Whether the first `k` lines leave a macro definition open.
pub open spec fn macro_open(v: Seq<Seq<char>>, k: int) -> bool
    decreases k,
{
    if k <= 0 {
        false
    } else {
        let t = statement(v[k - 1]);
        if t.len() == 0 || section_switch(v[k - 1]) is Some || !code_follows(v, k - 1) {
            macro_open(v, k - 1)
        } else if macros::macro_header(t) is Some {
            true
        } else if text::same_ignoring_case(t, "endm"@) {
            false
        } else {
            macro_open(v, k - 1)
        }
    }
}

/// What line `k` is.
pub open spec fn line_role(v: Seq<Seq<char>>, k: int) -> LineRole {
    let t = statement(v[k]);
    let word = text::first_word(t);
    if t.len() == 0 || section_switch(v[k]) is Some || !code_follows(v, k) || macro_open(v, k)
        || macros::macro_header(t) is Some || text::same_ignoring_case(t, "endm"@) {
        LineRole::Passed
    } else if text::same_ignoring_case(word, "proc"@) || text::same_ignoring_case(word, "endproc"@) {
        LineRole::Boundary
    } else {
        let colon = text::find(t, ':');
        if 0 < colon < t.len() && lex::label_chars(t.take(colon)) {
            let rest = text::trim(t.skip(colon + 1));
            if rest.len() == 0 {
                LineRole::Boundary
            } else {
                LineRole::Runs { labelled: true, t: rest }
            }
        } else {
            LineRole::Runs { labelled: false, t }
        }
    }
}

/// `ret` and `jmp`: what follows is not reached from here.
pub open spec fn leaves_block(t: Seq<char>) -> bool {
    let mn = text::lower_all(text::first_word(t));
    mn == "ret"@ || mn == "jmp"@
}

/// Line `k` makes an external call.
pub open spec fn calls_at(v: Seq<Seq<char>>, k: int) -> bool {
    line_role(v, k) matches LineRole::Runs { labelled, t } && lex::call_site(t)
}

/// Line `k` lets `r` be what it was in front of it: it runs nothing, or an instruction that
/// neither writes `r` nor calls nor leaves the block.
pub open spec fn lets_be(v: Seq<Seq<char>>, k: int, r: Reg) -> bool {
    match line_role(v, k) {
        LineRole::Passed => true,
        LineRole::Boundary => false,
        LineRole::Runs { labelled, t } => !labelled && !lex::call_site(t) && !leaves_block(t)
            && !regs::writes(Track::CallerSaved, t).contains(r),
    }
}

/// The call on line `i` destroys `r`, and line `j` reads it before anything defines it anew:
/// no label, boundary, `ret`, `jmp`, other call or write of `r` stands between the two.
pub open spec fn reads_destroyed(v: Seq<Seq<char>>, i: int, j: int, r: Reg) -> bool {
    &&& 0 <= i < j < v.len()
    &&& calls_at(v, i)
    &&& forall|k: int| i < k < j ==> #[trigger] lets_be(v, k, r)
    &&& line_role(v, j) matches LineRole::Runs { labelled, t } && !labelled && regs::reads(
        Track::CallerSaved,
        t,
    ).contains(r)
}

/// The finding on the read of `r` on line `j` behind the call on line `i`, both counted from 0:
/// it stands on the line of the read and names the register and the line of the call.
pub open spec fn clobber_finding(i: int, j: int, r: Reg) -> DiagView {
    DiagView {
        line: j + 1,
        col: 1,
        message: "`"@ + r.spec_name() + "` may be clobbered by the call at line "@
            + text::signed_dec(i + 1)
            + " — reload it before using it here (it's caller-saved)"@,
    }
}

// ── the state of the scan ───────────────────────────────────────────────────

/// The line, from 1, of the call that destroyed `r` before line `k`, if one did.
spec fn destroyer(v: Seq<Seq<char>>, k: int, r: Reg) -> Option<int>
    decreases k,
{
    if k <= 0 {
        None
    } else if calls_at(v, k - 1) {
        Some(k)
    } else if lets_be(v, k - 1, r) {
        destroyer(v, k - 1, r)
    } else {
        None
    }
}

proof fn lemma_index(r: Reg, q: Reg)
    ensures
        0 <= r.spec_index() < 16,
        r.spec_index() == q.spec_index() ==> r == q,
{
}

proof fn lemma_revived(w: Seq<Reg>, dead: Seq<Option<int>>, r: Reg)
    requires
        dead.len() == 16,
    ensures
        clobber::revived(w, dead).len() == 16,
        clobber::revived(w, dead)[r.spec_index()] == (if w.contains(r) {
            None
        } else {
            dead[r.spec_index()]
        }),
    decreases w.len(),
{
    if w.len() > 0 {
        let u = w.drop_last();
        lemma_revived(u, dead, r);
        lemma_index(r, w.last());
        lemma_index(w.last(), r);
        if u.contains(r) {
            let i = choose|i: int| 0 <= i < u.len() && u[i] == r;
            assert(w[i] == r);
        }
        if w.contains(r) && w.last() != r {
            let i = choose|i: int| 0 <= i < w.len() && w[i] == r;
            assert(u[i] == r);
        }
        if w.last() == r {
            assert(w[w.len() - 1] == r);
        }
    }
}

proof fn lemma_clobber_findings(w: Seq<Reg>, dead: Seq<Option<int>>, line: int, d: DiagView)
    ensures
        clobber::clobber_findings(w, dead, line).contains(d) <==> exists|r: Reg|
            #[trigger] w.contains(r) && dead[r.spec_index()] is Some && d == clobber_finding(
                dead[r.spec_index()]->0 - 1,
                line - 1,
                r,
            ),
    decreases w.len(),
{
    let all = clobber::clobber_findings(w, dead, line);
    if w.len() > 0 {
        let u = w.drop_last();
        let q = w.last();
        let before = clobber::clobber_findings(u, dead, line);
        lemma_clobber_findings(u, dead, line, d);
        assert(w[w.len() - 1] == q);
        assert(w.contains(q));
        if before.contains(d) {
            let r = choose|r: Reg|
                #[trigger] u.contains(r) && dead[r.spec_index()] is Some && d == clobber_finding(
                    dead[r.spec_index()]->0 - 1,
                    line - 1,
                    r,
                );
            let i = choose|i: int| 0 <= i < u.len() && u[i] == r;
            assert(w[i] == r);
            assert(w.contains(r));
            let n = choose|n: int| 0 <= n < before.len() && before[n] == d;
            assert(all[n] == d);
        }
        if dead[q.spec_index()] is Some {
            let f = clobber_finding(dead[q.spec_index()]->0 - 1, line - 1, q);
            assert(all == before.push(f));
            assert(all[all.len() - 1] == f);
            if d == f {
                assert(all.contains(d));
            }
            if all.contains(d) && d != f {
                let n = choose|n: int| 0 <= n < all.len() && all[n] == d;
                assert(before[n] == d);
            }
        }
        if exists|r: Reg|
            #[trigger] w.contains(r) && dead[r.spec_index()] is Some && d == clobber_finding(
                dead[r.spec_index()]->0 - 1,
                line - 1,
                r,
            ) {
            let r = choose|r: Reg|
                #[trigger] w.contains(r) && dead[r.spec_index()] is Some && d == clobber_finding(
                    dead[r.spec_index()]->0 - 1,
                    line - 1,
                    r,
                );
            if r != q {
                let i = choose|i: int| 0 <= i < w.len() && w[i] == r;
                assert(u[i] == r);
                assert(u.contains(r));
            }
        }
    }
}

#[verifier::spinoff_prover]
proof fn lemma_scan_sections(v: Seq<Seq<char>>, k: int)
    requires
        0 <= k <= v.len(),
    ensures
        clobber::clobber_lines(v.take(k)).in_code == code_follows(v, k),
        clobber::clobber_lines(v.take(k)).in_macro == macro_open(v, k),
    decreases k,
{
    if k > 0 {
        lemma_scan_sections(v, k - 1);
        assert(v.take(k).drop_last() =~= v.take(k - 1));
        lemma_switch_says(v[k - 1]);
        let t = statement(v[k - 1]);
        let st = clobber::clobber_lines(v.take(k - 1));
        assert(v.take(k).last() == v[k - 1]);
        assert(clobber::clobber_lines(v.take(k)) == clobber::clobber_line(st, v[k - 1], k));
    }
}

pub proof fn lemma_switch_says(raw: Seq<char>)
    ensures
        section_switch(raw) is Some ==> statement(raw).len() > 0,
{
    reveal_strlit(".data");
    reveal_strlit(".code");
    reveal_strlit(".text");
    assert(text::lower_all(statement(raw)).len() == statement(raw).len());
}

/// What one line does to the registers the scan holds dead.
#[verifier::spinoff_prover]
proof fn lemma_line_dead(v: Seq<Seq<char>>, k: int, st: ClobberScan)
    requires
        0 <= k < v.len(),
        st.in_code == code_follows(v, k),
        st.in_macro == macro_open(v, k),
    ensures
        ({
            let e = clobber::clobber_line(st, v[k], k + 1);
            match line_role(v, k) {
                LineRole::Passed => e.dead == st.dead && e.diags == st.diags,
                LineRole::Boundary => e.dead == clobber::all_live() && e.diags == st.diags,
                LineRole::Runs { labelled, t } => {
                    let from = if labelled {
                        ClobberScan { dead: clobber::all_live(), ..st }
                    } else {
                        st
                    };
                    e == clobber::clobber_instruction(from, t, k + 1)
                },
            }
        }),
{
    lemma_switch_says(v[k]);
}

proof fn lemma_scan_state(v: Seq<Seq<char>>, k: int, r: Reg)
    requires
        0 <= k <= v.len(),
    ensures
        ({
            let st = clobber::clobber_lines(v.take(k));
            &&& st.in_code == code_follows(v, k)
            &&& st.in_macro == macro_open(v, k)
            &&& st.dead.len() == 16
            &&& st.dead[r.spec_index()] == destroyer(v, k, r)
        }),
    decreases k,
{
    lemma_index(r, r);
    lemma_scan_sections(v, k);
    if k > 0 {
        lemma_scan_state(v, k - 1, r);
        assert(v.take(k).drop_last() =~= v.take(k - 1));
        let st = clobber::clobber_lines(v.take(k - 1));
        lemma_line_dead(v, k - 1, st);
        if let LineRole::Runs { labelled, t } = line_role(v, k - 1) {
            let d = if labelled {
                clobber::all_live()
            } else {
                st.dead
            };
            lemma_revived(regs::writes(Track::CallerSaved, t), d, r);
        }
    }
}

proof fn lemma_destroyer_found(v: Seq<Seq<char>>, i: int, k: int, r: Reg)
    requires
        0 <= i < k <= v.len(),
        calls_at(v, i),
        forall|l: int| i < l < k ==> #[trigger] lets_be(v, l, r),
    ensures
        destroyer(v, k, r) == Some(i + 1),
    decreases k,
{
    if k > i + 1 {
        assert(lets_be(v, k - 1, r));
        lemma_destroyer_found(v, i, k - 1, r);
    }
}

proof fn lemma_destroyer_calls(v: Seq<Seq<char>>, k: int, r: Reg)
    requires
        destroyer(v, k, r) is Some,
    ensures
        ({
            let i = destroyer(v, k, r)->0 - 1;
            &&& 0 <= i < k
            &&& calls_at(v, i)
            &&& forall|l: int| i < l < k ==> #[trigger] lets_be(v, l, r)
        }),
    decreases k,
{
    if !calls_at(v, k - 1) {
        lemma_destroyer_calls(v, k - 1, r);
    }
}

/// What line `j` adds to the findings.
proof fn lemma_line_adds(v: Seq<Seq<char>>, j: int, d: DiagView) -> (added: Seq<DiagView>)
    requires
        0 <= j < v.len(),
    ensures
        clobber::clobber_lines(v.take(j + 1)).diags == clobber::clobber_lines(v.take(j)).diags
            + added,
        added.contains(d) <==> exists|i: int, r: Reg|
            #[trigger] reads_destroyed(v, i, j, r) && d == clobber_finding(i, j, r),
{
    assert(v.take(j + 1).drop_last() =~= v.take(j));
    let st = clobber::clobber_lines(v.take(j));
    lemma_scan_state(v, j, Reg::Rax);
    lemma_line_dead(v, j, st);
    match line_role(v, j) {
        LineRole::Runs { labelled, t } => {
            let dead = if labelled {
                clobber::all_live()
            } else {
                st.dead
            };
            let w = regs::reads(Track::CallerSaved, t);
            let added = clobber::clobber_findings(w, dead, j + 1);
            lemma_clobber_findings(w, dead, j + 1, d);
            if added.contains(d) {
                let r = choose|r: Reg|
                    #[trigger] w.contains(r) && dead[r.spec_index()] is Some && d
                        == clobber_finding(dead[r.spec_index()]->0 - 1, j, r);
                lemma_index(r, r);
                lemma_scan_state(v, j, r);
                lemma_destroyer_calls(v, j, r);
                assert(reads_destroyed(v, dead[r.spec_index()]->0 - 1, j, r));
            }
            if exists|i: int, r: Reg|
                #[trigger] reads_destroyed(v, i, j, r) && d == clobber_finding(i, j, r) {
                let (i, r) = choose|i: int, r: Reg|
                    #[trigger] reads_destroyed(v, i, j, r) && d == clobber_finding(i, j, r);
                lemma_scan_state(v, j, r);
                lemma_destroyer_found(v, i, j, r);
                assert(w.contains(r));
            }
            added
        },
        _ => {
            assert(st.diags + Seq::<DiagView>::empty() =~= st.diags);
            Seq::empty()
        },
    }
}

/// Some read of a destroyed register before line `k` has the finding `d`.
spec fn due(v: Seq<Seq<char>>, k: int, d: DiagView) -> bool {
    exists|i: int, j: int, r: Reg|
        j < k && #[trigger] reads_destroyed(v, i, j, r) && d == clobber_finding(i, j, r)
}

/// The read of a destroyed register on line `j` has the finding `d`.
spec fn due_on(v: Seq<Seq<char>>, j: int, d: DiagView) -> bool {
    exists|i: int, r: Reg|
        #[trigger] reads_destroyed(v, i, j, r) && d == clobber_finding(i, j, r)
}

proof fn lemma_due_splits(v: Seq<Seq<char>>, k: int, d: DiagView)
    requires
        0 < k,
    ensures
        due(v, k, d) <==> due(v, k - 1, d) || due_on(v, k - 1, d),
{
    if due(v, k, d) {
        let (i, j, r) = choose|i: int, j: int, r: Reg|
            j < k && #[trigger] reads_destroyed(v, i, j, r) && d == clobber_finding(i, j, r);
        assert(j < k - 1 || j == k - 1);
    }
    if due(v, k - 1, d) {
        let (i, j, r) = choose|i: int, j: int, r: Reg|
            j < k - 1 && #[trigger] reads_destroyed(v, i, j, r) && d == clobber_finding(i, j, r);
        assert(j < k && reads_destroyed(v, i, j, r));
    }
    if due_on(v, k - 1, d) {
        let (i, r) = choose|i: int, r: Reg|
            #[trigger] reads_destroyed(v, i, k - 1, r) && d == clobber_finding(i, k - 1, r);
        assert(k - 1 < k && reads_destroyed(v, i, k - 1, r));
    }
}

pub proof fn lemma_in_concat(a: Seq<DiagView>, b: Seq<DiagView>, d: DiagView)
    ensures
        (a + b).contains(d) <==> a.contains(d) || b.contains(d),
{
    if a.contains(d) {
        let n = choose|n: int| 0 <= n < a.len() && a[n] == d;
        assert((a + b)[n] == d);
    }
    if b.contains(d) {
        let n = choose|n: int| 0 <= n < b.len() && b[n] == d;
        assert((a + b)[a.len() + n] == d);
    }
    if (a + b).contains(d) {
        let n = choose|n: int| 0 <= n < (a + b).len() && (a + b)[n] == d;
        if n < a.len() {
            assert(a[n] == d);
        } else {
            assert(b[n - a.len()] == d);
        }
    }
}

proof fn lemma_found_up_to(v: Seq<Seq<char>>, k: int, d: DiagView)
    requires
        0 <= k <= v.len(),
    ensures
        clobber::clobber_lines(v.take(k)).diags.contains(d) <==> due(v, k, d),
    decreases k,
{
    if k == 0 {
        assert(v.take(0) =~= Seq::empty());
        if due(v, 0, d) {
            let (i, j, r) = choose|i: int, j: int, r: Reg|
                j < 0 && #[trigger] reads_destroyed(v, i, j, r) && d == clobber_finding(i, j, r);
            assert(false);
        }
    } else {
        lemma_found_up_to(v, k - 1, d);
        lemma_due_splits(v, k, d);
        let added = lemma_line_adds(v, k - 1, d);
        assert(added.contains(d) <==> due_on(v, k - 1, d));
        lemma_in_concat(clobber::clobber_lines(v.take(k - 1)).diags, added, d);
    }
}

/// The report holds a finding for every read of a destroyed register, a read by a further
/// call included, and it holds no other.
pub proof fn law_reads_of_destroyed_registers_are_reported(src: Seq<char>, d: DiagView)
    ensures
        clobber::clobber_report(src).contains(d) <==> exists|i: int, j: int, r: Reg|
            #[trigger] reads_destroyed(text::lines(src), i, j, r) && d == clobber_finding(i, j, r),
{
    let v = text::lines(src);
    let k = v.len() as int;
    lemma_found_up_to(v, k, d);
    assert(v.take(k) =~= v);
    if due(v, k, d) {
        let (i, j, r) = choose|i: int, j: int, r: Reg|
            j < k && #[trigger] reads_destroyed(v, i, j, r) && d == clobber_finding(i, j, r);
        assert(reads_destroyed(v, i, j, r));
    }
    if exists|i: int, j: int, r: Reg|
        #[trigger] reads_destroyed(v, i, j, r) && d == clobber_finding(i, j, r) {
        let (i, j, r) = choose|i: int, j: int, r: Reg|
            #[trigger] reads_destroyed(v, i, j, r) && d == clobber_finding(i, j, r);
        assert(j < k && reads_destroyed(v, i, j, r));
    }
}

/// A call reads its arguments before it destroys them: where an earlier call of the block
/// destroyed a register, and a later call passes it on, the later call's line is reported.
pub proof fn law_call_reading_destroyed_register_is_reported(
    src: Seq<char>,
    i: int,
    j: int,
    r: Reg,
)
    requires
        ({
            let v = text::lines(src);
            &&& 0 <= i < j < v.len()
            &&& calls_at(v, i)
            &&& forall|k: int| i < k < j ==> #[trigger] lets_be(v, k, r)
            &&& line_role(v, j) matches LineRole::Runs { labelled, t } && !labelled
                && lex::call_site(t) && regs::reads(Track::CallerSaved, t).contains(r)
        }),
    ensures
        clobber::clobber_report(src).contains(clobber_finding(i, j, r)),
{
    assert(reads_destroyed(text::lines(src), i, j, r));
    law_reads_of_destroyed_registers_are_reported(src, clobber_finding(i, j, r));
}

proof fn lemma_findings_on_line(w: Seq<Reg>, dead: Seq<Option<int>>, line: int)
    ensures
        forall|n: int|
            0 <= n < clobber::clobber_findings(w, dead, line).len()
                ==> (#[trigger] clobber::clobber_findings(w, dead, line)[n]).line == line,
    decreases w.len(),
{
    if w.len() > 0 {
        let before = clobber::clobber_findings(w.drop_last(), dead, line);
        let all = clobber::clobber_findings(w, dead, line);
        lemma_findings_on_line(w.drop_last(), dead, line);
        assert forall|n: int| 0 <= n < all.len() implies (#[trigger] all[n]).line == line by {
            if n < before.len() {
                assert(before[n].line == line);
            }
        }
    }
}

proof fn lemma_found_in_order(v: Seq<Seq<char>>)
    ensures
        ({
            let d = clobber::clobber_lines(v).diags;
            &&& forall|n: int| 0 <= n < d.len() ==> (#[trigger] d[n]).line <= v.len()
            &&& forall|m: int, n: int|
                0 <= m <= n < d.len() ==> (#[trigger] d[m]).line <= (#[trigger] d[n]).line
        }),
    decreases v.len(),
{
    if v.len() > 0 {
        lemma_found_in_order(v.drop_last());
        let j = v.len() - 1;
        let st = clobber::clobber_lines(v.drop_last());
        let t = statement(v.last());
        let rest = clobber::behind_label(t);
        lemma_findings_on_line(regs::reads(Track::CallerSaved, t), st.dead, j + 1);
        if rest is Some {
            lemma_findings_on_line(
                regs::reads(Track::CallerSaved, rest->0),
                clobber::all_live(),
                j + 1,
            );
        }
    }
}

/// The findings come in the order of their lines.
pub proof fn law_clobber_report_is_in_line_order(src: Seq<char>)
    ensures
        forall|m: int, n: int|
            0 <= m <= n < clobber::clobber_report(src).len()
                ==> (#[trigger] clobber::clobber_report(src)[m]).line <= (
            #[trigger] clobber::clobber_report(src)[n]).line,
{
    lemma_found_in_order(text::lines(src));
}

} // verus!
