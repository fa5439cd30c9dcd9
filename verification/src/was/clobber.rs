//! Caller-saved registers read after a call destroyed them.
use crate::text;
use crate::was::diag;
use crate::was::lex;
use crate::was::macros;
use crate::was::regs;
use crate::text::{
    chars_of, first_word_of, index_of, is, is_ignoring_case, lines_of, push_dec, to_lower, trimmed,
};
use crate::was::diag::{Diag, DiagView, push_diag};
use crate::was::lex::{all_label, is_call_site, without_comment};
use crate::was::macros::{is_endm, parse_macro_def};
use crate::was::regs::{Reg, Track, reg_effects};
use vstd::prelude::*;
use vstd::slice::slice_subrange;

verus! {

/// The state of the scan: the findings so far; for each general register, the
/// line of the call that destroyed its value, if one did (only the caller-saved
/// ones are ever asked for); whether the lines are code; and whether they belong
/// to a macro definition.
pub struct ClobberScan {
    pub diags: Seq<DiagView>,
    pub dead: Seq<Option<int>>,
    pub in_code: bool,
    pub in_macro: bool,
}

/// No register is destroyed.
pub open spec fn all_live() -> Seq<Option<int>> {
    Seq::new(16, |i: int| None)
}

/// Every register is destroyed by the call on `line`.
pub open spec fn all_dead(line: int) -> Seq<Option<int>> {
    Seq::new(16, |i: int| Some(line))
}

pub open spec fn clobber_message(r: Reg, call: int) -> Seq<char> {
    "`"@ + r.spec_name() + "` may be clobbered by the call at line "@ + text::signed_dec(call)
        + " — reload it before using it here (it's caller-saved)"@
}

/// The findings on the registers `v` read on `line`: those that are destroyed.
pub open spec fn clobber_findings(v: Seq<Reg>, dead: Seq<Option<int>>, line: int) -> Seq<DiagView>
    decreases v.len(),
{
    if v.len() == 0 {
        Seq::empty()
    } else {
        let before = clobber_findings(v.drop_last(), dead, line);
        match dead[v.last().spec_index()] {
            Some(call) => before.push(
                DiagView { line, col: 1, message: clobber_message(v.last(), call) },
            ),
            None => before,
        }
    }
}

/// `dead` with the registers `v` defined anew.
pub open spec fn revived(v: Seq<Reg>, dead: Seq<Option<int>>) -> Seq<Option<int>>
    decreases v.len(),
{
    if v.len() == 0 {
        dead
    } else {
        revived(v.drop_last(), dead).update(v.last().spec_index(), None)
    }
}

/// A leading label of `t` (`name:`, perhaps before an instruction): what follows
/// it, trimmed.
pub open spec fn behind_label(t: Seq<char>) -> Option<Seq<char>> {
    let colon = text::find(t, ':');
    if colon < t.len() && colon > 0 && lex::label_chars(t.take(colon)) {
        Some(text::trim(t.skip(colon + 1)))
    } else {
        None
    }
}

/// The scan behind the instruction `t` on `line`: a call site reads its argument
/// registers and then destroys every caller-saved one; any other instruction
/// reads and defines registers; and behind an unconditional transfer nothing is
/// known.
pub open spec fn clobber_instruction(st: ClobberScan, t: Seq<char>, line: int) -> ClobberScan {
    let found = st.diags + clobber_findings(regs::reads(Track::CallerSaved, t), st.dead, line);
    let mn = text::lower_all(text::first_word(t));
    if lex::call_site(t) {
        ClobberScan { diags: found, dead: all_dead(line), ..st }
    } else if mn == "ret"@ || mn == "jmp"@ {
        ClobberScan { diags: found, dead: all_live(), ..st }
    } else {
        ClobberScan { diags: found, dead: revived(regs::writes(Track::CallerSaved, t), st.dead), ..st }
    }
}

/// The scan behind the line `raw`, numbered `line`. Data sections and macro
/// definitions are passed over; a procedure boundary or a label starts a block
/// of which nothing is known.
pub open spec fn clobber_line(st: ClobberScan, raw: Seq<char>, line: int) -> ClobberScan {
    let t = text::trim(lex::strip_comment(raw));
    let l = text::lower_all(t);
    let head = text::first_word(t);
    if t.len() == 0 {
        st
    } else if l == ".data"@ {
        ClobberScan { in_code: false, ..st }
    } else if l == ".code"@ || l == ".text"@ {
        ClobberScan { in_code: true, ..st }
    } else if !st.in_code {
        st
    } else if macros::macro_header(t) is Some {
        ClobberScan { in_macro: true, ..st }
    } else if text::same_ignoring_case(t, "endm"@) {
        ClobberScan { in_macro: false, ..st }
    } else if st.in_macro {
        st
    } else if text::same_ignoring_case(head, "proc"@) || text::same_ignoring_case(head, "endproc"@) {
        ClobberScan { dead: all_live(), ..st }
    } else {
        match behind_label(t) {
            Some(rest) => if rest.len() == 0 {
                ClobberScan { dead: all_live(), ..st }
            } else {
                clobber_instruction(ClobberScan { dead: all_live(), ..st }, rest, line)
            },
            None => clobber_instruction(st, t, line),
        }
    }
}

/// The scan behind the lines `v`, numbered from 1.
pub open spec fn clobber_lines(v: Seq<Seq<char>>) -> ClobberScan
    decreases v.len(),
{
    if v.len() == 0 {
        ClobberScan { diags: Seq::empty(), dead: all_live(), in_code: true, in_macro: false }
    } else {
        clobber_line(clobber_lines(v.drop_last()), v.last(), v.len() as int)
    }
}

/// The findings on destroyed registers in `src`.
pub open spec fn clobber_report(src: Seq<char>) -> Seq<DiagView> {
    clobber_lines(text::lines(src)).diags
}

// ── the scan ────────────────────────────────────────────────────────────────

spec fn dead_view(v: Seq<Option<usize>>) -> Seq<Option<int>> {
    Seq::new(
        v.len(),
        |i: int|
            match v[i] {
                Some(l) => Some(l as int),
                None => None,
            },
    )
}

fn fresh() -> (r: Vec<Option<usize>>)
    ensures
        r@.len() == 16,
        dead_view(r@) == all_live(),
{
    filled(None)
}

fn filled(x: Option<usize>) -> (r: Vec<Option<usize>>)
    ensures
        r@.len() == 16,
        dead_view(r@) == Seq::new(
            16,
            |i: int|
                match x {
                    Some(l) => Some(l as int),
                    None => None,
                },
        ),
{
    let mut v: Vec<Option<usize>> = Vec::new();
    let mut i: usize = 0;
    while i < 16
        invariant
            i <= 16,
            v@.len() == i,
            forall|j: int| 0 <= j < i ==> v@[j] == x,
        decreases 16 - i,
    {
        v.push(x);
        i += 1;
    }
    assert(dead_view(v@) =~= Seq::new(
        16,
        |i: int|
            match x {
                Some(l) => Some(l as int),
                None => None,
            },
    ));
    v
}

fn clobber_text(r: Reg, call: usize) -> (m: String)
    ensures
        m@ == clobber_message(r, call as int),
{
    let mut m = "`".to_owned();
    m.append(r.name());
    m.append("` may be clobbered by the call at line ");
    push_dec(&mut m, call as i128);
    m.append(" — reload it before using it here (it's caller-saved)");
    m
}

fn warn_reads(v: &Vec<Reg>, dead: &Vec<Option<usize>>, line: usize, diags: &mut Vec<Diag>)
    requires
        dead@.len() == 16,
    ensures
        diag::diags_view(final(diags)@) == diag::diags_view(old(diags)@) + clobber_findings(
            v@,
            dead_view(dead@),
            line as int,
        ),
{
    let ghost before = diag::diags_view(diags@);
    let ghost dv = dead_view(dead@);
    let mut i: usize = 0;
    while i < v.len()
        invariant
            dead@.len() == 16,
            dv == dead_view(dead@),
            i <= v@.len(),
            diag::diags_view(diags@) =~= before + clobber_findings(v@.take(i as int), dv, line as int),
        decreases v@.len() - i,
    {
        let r = v[i];
        assert(v@.take(i as int + 1).drop_last() =~= v@.take(i as int));
        match dead[r.index()] {
            Some(call) => {
                let m = clobber_text(r, call);
                push_diag(diags, line, 1, m);
            },
            None => {},
        }
        i += 1;
    }
    assert(v@.take(v@.len() as int) =~= v@);
}

fn revive(v: &Vec<Reg>, dead: &mut Vec<Option<usize>>)
    requires
        old(dead)@.len() == 16,
    ensures
        final(dead)@.len() == 16,
        dead_view(final(dead)@) == revived(v@, dead_view(old(dead)@)),
{
    let ghost d0 = dead_view(dead@);
    let mut i: usize = 0;
    while i < v.len()
        invariant
            dead@.len() == 16,
            i <= v@.len(),
            dead_view(dead@) == revived(v@.take(i as int), d0),
        decreases v@.len() - i,
    {
        let r = v[i];
        assert(v@.take(i as int + 1).drop_last() =~= v@.take(i as int));
        let ghost d1 = dead_view(dead@);
        dead.set(r.index(), None);
        assert(dead_view(dead@) =~= d1.update(r.spec_index(), None));
        i += 1;
    }
    assert(v@.take(v@.len() as int) =~= v@);
}

fn scan_instruction(t: &[char], line: usize, dead: Vec<Option<usize>>, diags: &mut Vec<Diag>, Ghost(
    st,
): Ghost<ClobberScan>) -> (r: Vec<Option<usize>>)
    requires
        dead@.len() == 16,
        st.diags == diag::diags_view(old(diags)@),
        st.dead == dead_view(dead@),
    ensures
        r@.len() == 16,
        clobber_instruction(st, t@, line as int) == (ClobberScan {
            diags: diag::diags_view(final(diags)@),
            dead: dead_view(r@),
            ..st
        }),
{
    let (rd, wr) = reg_effects(Track::CallerSaved, t);
    warn_reads(&rd, &dead, line, diags);
    if is_call_site(t) {
        let r = filled(Some(line));
        assert(dead_view(r@) =~= all_dead(line as int));
        return r;
    }
    let mn = to_lower(first_word_of(t));
    if is(&mn, "ret") || is(&mn, "jmp") {
        return fresh();
    }
    let mut dead = dead;
    revive(&wr, &mut dead);
    dead
}

/// Warn when a caller-saved register is read after an `invoke`, `comcall` or COM
/// method call destroyed its value. Only the six caller-saved general registers
/// are followed, every label starts afresh, and a call reads its argument
/// registers before it destroys them.
pub fn clobber_diags(src: &str) -> (r: Vec<Diag>)
    ensures
        diag::diags_view(r@) == clobber_report(src@),
{
    let text = chars_of(src);
    let lv = lines_of(&text);
    let ghost all = text::lines(src@);
    let mut diags: Vec<Diag> = Vec::new();
    let mut dead = fresh();
    let mut in_code = true;
    let mut in_macro = false;
    let mut i: usize = 0;
    assert(diag::diags_view(diags@) =~= Seq::empty());
    while i < lv.len()
        invariant
            text::slices(lv@) == all,
            i <= lv@.len(),
            dead@.len() == 16,
            clobber_lines(all.take(i as int)) == (ClobberScan {
                diags: diag::diags_view(diags@),
                dead: dead_view(dead@),
                in_code,
                in_macro,
            }),
        decreases lv@.len() - i,
    {
        let raw = lv[i];
        let ghost st = clobber_lines(all.take(i as int));
        proof {
            assert(all.take(i as int + 1).drop_last() =~= all.take(i as int));
            assert(all.take(i as int + 1).last() == raw@);
        }
        i = i + 1;
        let line: usize = i;
        let t = trimmed(without_comment(raw));
        if t.len() == 0 {
            continue;
        }
        let l = to_lower(t);
        if is(&l, ".data") {
            in_code = false;
            continue;
        }
        if is(&l, ".code") || is(&l, ".text") {
            in_code = true;
            continue;
        }
        if !in_code {
            continue;
        }
        if parse_macro_def(t).is_some() {
            in_macro = true;
            continue;
        }
        if is_endm(t) {
            in_macro = false;
            continue;
        }
        if in_macro {
            continue;
        }
        let head = first_word_of(t);
        if is_ignoring_case(head, "proc") || is_ignoring_case(head, "endproc") {
            dead = fresh();
            continue;
        }
        let colon: usize = index_of(t, ':');
        if colon < t.len() && colon > 0 && all_label(slice_subrange(t, 0, colon)) {
            dead = fresh();
            let rest = trimmed(slice_subrange(t, colon + 1, t.len()));
            assert(behind_label(t@) == Some(rest@));
            if rest.len() == 0 {
                continue;
            }
            dead = scan_instruction(
                rest,
                line,
                dead,
                &mut diags,
                Ghost(ClobberScan { dead: all_live(), ..st }),
            );
        } else {
            dead = scan_instruction(t, line, dead, &mut diags, Ghost(st));
        }
    }
    assert(all.take(all.len() as int) =~= all);
    diags
}

} // verus!
