//! What splicing a procedure body into a call site does: the splice runs as the call did,
//! and comes out behind itself where the procedure returned.
use crate::text;
use crate::was::block_laws;
use crate::was::call_laws;
use crate::was::inliner;
use crate::was::laws;
use crate::was::regs;
use crate::studio::outline::Label;
use crate::was::inliner::{BufferLine, KindView, Placed, SpanView};
use crate::was::regs::{Reg, Track};
use vstd::prelude::*;

verus! {

// ── how the kinds of lines are written ──────────────────────────────────────

/// White space only.
pub open spec fn blank(s: Seq<char>) -> bool {
    forall|i: int| 0 <= i < s.len() ==> text::is_ws(#[trigger] s[i])
}

pub proof fn lemma_trim_around(ind: Seq<char>, core: Seq<char>)
    requires
        blank(ind),
        core.len() > 0,
        !text::is_ws(core[0]),
        !text::is_ws(core.last()),
    ensures
        text::trim(ind + core) == core,
        text::trim_start(ind + core) == core,
{
    let s = ind + core;
    text::lemma_first_from(s, text::not_ws(), 0);
    let f = text::first_from(s, text::not_ws(), 0);
    assert(f == ind.len()) by {
        assert(s[ind.len() as int] == core[0]);
        assert(text::not_ws()(s[ind.len() as int]));
        if f < ind.len() {
            assert(s[f] == ind[f]);
            assert(text::is_ws(ind[f]));
        }
    }
    assert(text::trim_start(s) =~= core);
    text::lemma_last_below(core, text::not_ws(), core.len() as int);
    assert(text::not_ws()(core[core.len() - 1]));
    assert(text::last_below(core, text::not_ws(), core.len() as int) == core.len() - 1);
    assert(core.take(core.len() as int) =~= core);
}

proof fn lemma_trim_ends(s: Seq<char>)
    ensures
        text::trim(s).len() > 0 ==> !text::is_ws(text::trim(s)[0]) && !text::is_ws(
            text::trim(s).last(),
        ),
{
    let t = text::trim_start(s);
    text::lemma_first_from(s, text::not_ws(), 0);
    text::lemma_last_below(t, text::not_ws(), t.len() as int);
    let u = text::trim(s);
    if u.len() > 0 {
        assert(u[0] == t[0] && t[0] == s[text::first_from(s, text::not_ws(), 0)]);
        assert(u.last() == t[u.len() - 1]);
    }
}

proof fn lemma_first_word_trimmed(s: Seq<char>)
    ensures
        text::first_word(s) == text::trim(s).take(text::find_ws(text::trim(s))),
{
    let t = text::trim_start(s);
    let u = text::trim(s);
    text::lemma_first_from(s, text::not_ws(), 0);
    text::lemma_last_below(t, text::not_ws(), t.len() as int);
    text::lemma_first_from(t, text::ws(), 0);
    text::lemma_first_from(u, text::ws(), 0);
    let a = text::find_ws(t);
    let b = text::find_ws(u);
    let f = text::first_from(s, text::not_ws(), 0);
    if u.len() == 0 {
        if t.len() > 0 {
            assert(t[0] == s[f]);
            assert(text::not_ws()(t[0]));
            assert(text::last_below(t, text::not_ws(), t.len() as int) < 0);
            assert(!text::not_ws()(t[0]));
        }
        assert(t.take(a) =~= u.take(b));
    } else {
        assert(u.last() == t[u.len() - 1]);
        assert forall|j: int| 0 <= j < u.len() implies u[j] == t[j] by {}
        if b < u.len() {
            assert(text::ws()(t[b]));
            assert(a <= b);
            if a < b {
                assert(u[a] == t[a]);
                assert(text::ws()(u[a]));
            }
        } else {
            if a < u.len() {
                assert(u[a] == t[a]);
                assert(text::ws()(u[a]));
            }
            if u.len() < t.len() {
                assert(!text::not_ws()(t[u.len() as int]));
                assert(text::ws()(t[u.len() as int]));
            }
            assert(a == u.len());
        }
        assert(t.take(a) =~= u.take(b));
    }
}

/// A word of letters and digits only, as a mnemonic is.
pub open spec fn plain_word(s: Seq<char>) -> bool {
    s.len() > 0 && forall|i: int| 0 <= i < s.len() ==> text::is_alnum(#[trigger] s[i])
}

proof fn lemma_target_chars_seen(s: Seq<char>, i: int)
    requires
        inliner::target_chars(s),
        0 <= i < s.len(),
    ensures
        !text::is_ws(s[i]),
        s[i] != ':' && s[i] != ';',
{
    assert(inliner::is_target_char(s[i]));
}

/// The parts of a line that is a word, a space and an operand.
proof fn lemma_word_and_operand(ind: Seq<char>, w: Seq<char>, t: Seq<char>)
    requires
        blank(ind),
        w.len() > 0,
        forall|i: int| 0 <= i < w.len() ==> !text::is_ws(#[trigger] w[i]),
        inliner::label_operand(t),
        text::trim(t) == t,
    ensures
        text::trim(ind + w + " "@ + t) == w + " "@ + t,
        inliner::mnemonic_and_rest(w + " "@ + t) == (text::lower_all(w), t),
        (w + " "@ + t)[0] == w[0],
        (w + " "@ + t).last() != ':',
{
    reveal_strlit(" ");
    let core = w + " "@ + t;
    lemma_target_chars_seen(t, t.len() - 1);
    assert(core.last() == t.last());
    assert(core[0] == w[0]);
    lemma_trim_around(ind, core);
    assert(ind + w + " "@ + t =~= ind + core);
    text::lemma_first_from(core, text::ws(), 0);
    let f = text::find_ws(core);
    assert(f == w.len()) by {
        assert(core[w.len() as int] == ' ');
        assert(text::ws()(core[w.len() as int]));
        if f < w.len() {
            assert(core[f] == w[f]);
        }
    }
    assert(core.take(f) =~= w);
    assert(core.skip(f + 1) =~= t);
}

proof fn lemma_label_operand_trimmed(t: Seq<char>)
    requires
        inliner::label_operand(t),
        inliner::target_chars(t),
    ensures
        text::trim(t) == t,
{
    if t.len() == 0 {
        text::lemma_first_from(t, text::not_ws(), 0);
        assert(text::trim_start(t) =~= t);
        text::lemma_last_below(t, text::not_ws(), 0);
        assert(text::trim(t) =~= t);
    } else {
        lemma_target_chars_seen(t, 0);
        lemma_target_chars_seen(t, t.len() - 1);
        lemma_trim_around(Seq::empty(), t);
        assert(Seq::<char>::empty() + t =~= t);
    }
}

/// A line that is a label name and a colon, however indented, defines the label.
pub proof fn law_label_line_is_recognised(ind: Seq<char>, name: Seq<char>)
    requires
        blank(ind),
        name.len() > 0,
        inliner::target_chars(name),
    ensures
        inliner::kind_of(ind + name + ":"@) == KindView::Label(name),
{
    reveal_strlit(":");
    let core = name + ":"@;
    lemma_target_chars_seen(name, 0);
    assert(core[0] == name[0]);
    assert(core.last() == ':');
    lemma_trim_around(ind, core);
    assert(ind + name + ":"@ =~= ind + core);
    assert(core.drop_last() =~= name);
}

/// A line that is a branch mnemonic, in whatever case, and a label jumps to the label; a
/// `call` and a label calls it; and a lone `ret` returns.
pub proof fn law_branch_lines_are_recognised(ind: Seq<char>, mn: Seq<char>, name: Seq<char>)
    requires
        blank(ind),
        plain_word(mn),
        inliner::label_operand(name),
        inliner::target_chars(name),
    ensures
        inliner::branch_mnemonic(text::lower_all(mn)) ==> inliner::kind_of(
            ind + mn + " "@ + name,
        ) == KindView::Jump(name),
        text::lower_all(mn) == "call"@ ==> inliner::kind_of(ind + mn + " "@ + name)
            == KindView::Call(name),
        text::lower_all(mn) == "ret"@ ==> inliner::kind_of(ind + mn) == KindView::Ret,
        text::lower_all(mn) == "jmp"@ || text::lower_all(mn) == "jz"@ || text::lower_all(mn)
            == "jae"@ || text::lower_all(mn) == "loop"@ ==> inliner::branch_mnemonic(
            text::lower_all(mn),
        ),
{
    lemma_label_operand_trimmed(name);
    lemma_word_and_operand(ind, mn, name);
    lemma_kind_of_branch(ind, mn, name);
    let l = text::lower_all(mn);
    reveal_strlit("call");
    reveal_strlit("ret");
    reveal_strlit("jz");
    reveal_strlit("jae");
    assert(text::is_alnum(mn[0]));
    assert("call"@[0] == 'c' && "ret"@[0] == 'r');
    if l == "jz"@ || l == "jae"@ {
        assert(text::byte_len(l) == l.len()) by {
            lemma_ascii_bytes(l);
        }
    }
    if l == "ret"@ {
        assert(!text::is_ws(mn[mn.len() - 1])) by {
            assert(text::is_alnum(mn[mn.len() - 1]));
        }
        assert(mn.last() == mn[mn.len() - 1]);
        assert(text::is_alnum(mn[mn.len() - 1]));
        lemma_trim_around(ind, mn);
        text::lemma_first_from(mn, text::ws(), 0);
        let f = text::find_ws(mn);
        if f < mn.len() {
            assert(text::is_alnum(mn[f]));
        }
        assert(f == mn.len());
    }
}

proof fn lemma_ascii_bytes(s: Seq<char>)
    requires
        forall|i: int| 0 <= i < s.len() ==> (#[trigger] s[i] as int) < 128,
    ensures
        text::byte_len(s) == s.len(),
    decreases s.len(),
{
    if s.len() > 0 {
        let u = s.drop_last();
        assert forall|i: int| 0 <= i < u.len() implies (#[trigger] u[i] as int) < 128 by {
            assert(u[i] == s[i]);
        }
        lemma_ascii_bytes(u);
        text::lemma_byte_len_push(u, s.last());
        assert(u.push(s.last()) =~= s);
    }
}

/// A branch line of any spelling: the word in front of the label decides.
proof fn lemma_kind_of_branch(ind: Seq<char>, w: Seq<char>, t: Seq<char>)
    requires
        blank(ind),
        w.len() > 0,
        w[0] != ';',
        forall|i: int| 0 <= i < w.len() ==> !text::is_ws(#[trigger] w[i]),
        inliner::label_operand(t),
        text::trim(t) == t,
    ensures
        inliner::branch_mnemonic(text::lower_all(w)) ==> inliner::kind_of(ind + w + " "@ + t)
            == KindView::Jump(t),
        inliner::mnemonic_and_rest(text::trim(ind + w + " "@ + t)).0 == text::lower_all(w),
{
    lemma_word_and_operand(ind, w, t);
    let l = text::lower_all(w);
    if inliner::branch_mnemonic(l) {
        reveal_strlit("call");
        reveal_strlit("jmp");
        reveal_strlit("loop");
        reveal_strlit("loope");
        reveal_strlit("loopne");
        reveal_strlit("jecxz");
        reveal_strlit("jrcxz");
        assert(l[0] == 'j' || l[0] == 'l');
        assert("call"@[0] == 'c');
        assert(l != "call"@);
    }
}

// ── splices ─────────────────────────────────────────────────────────────────

/// The kind of every line of `v` is what its text says.
pub open spec fn kinds_read_off(v: Seq<BufferLine>) -> bool {
    forall|i: int| 0 <= i < v.len() ==> inliner::kind_of((#[trigger] v[i]).text) == v[i].kind
}

/// The mnemonic of a line.
pub open spec fn line_mnemonic(s: Seq<char>) -> Seq<char> {
    inliner::mnemonic_and_rest(text::trim(s)).0
}

proof fn lemma_labels_of_splice(name: Seq<char>, site: int)
    requires
        inliner::target_chars(name),
        site >= 0,
    ensures
        inliner::target_chars(inliner::site_label(name, site)),
        inliner::target_chars(inliner::cont_label(site)),
        inliner::label_operand(inliner::cont_label(site)),
        inliner::label_operand(name) ==> inliner::label_operand(inliner::site_label(name, site)),
{
    reveal_strlit("__wfi");
    reveal_strlit("__wfi_cont_");
    block_laws::lemma_dec_is_digits(site);
    let d = text::signed_dec(site);
    let a = inliner::site_label(name, site);
    let b = inliner::cont_label(site);
    assert forall|i: int| 0 <= i < a.len() implies inliner::is_target_char(#[trigger] a[i]) by {
        if i < name.len() {
            assert(a[i] == name[i]);
        } else if i < name.len() + 5 {
            assert(a[i] == "__wfi"@[i - name.len()]);
        } else {
            assert(a[i] == d[i - name.len() - 5]);
        }
    }
    assert forall|i: int| 0 <= i < b.len() implies inliner::is_target_char(#[trigger] b[i]) by {
        if i >= 11 {
            assert(b[i] == d[i - 11]);
        } else {
            assert(b[i] == "__wfi_cont_"@[i]);
        }
    }
    lemma_long_is_operand(b);
    if inliner::label_operand(name) {
        lemma_label_operand_trimmed(name);
        assert(a[0] == name[0]);
        lemma_long_is_operand(a);
    }
}

proof fn lemma_long_is_operand(s: Seq<char>)
    requires
        s.len() > 3,
        inliner::target_chars(s),
        text::is_alpha(s[0]) || s[0] == '_' || s[0] == '.',
    ensures
        inliner::label_operand(s),
        text::trim(s) == s,
{
    lemma_target_chars_seen(s, 0);
    lemma_target_chars_seen(s, s.len() - 1);
    lemma_trim_around(Seq::empty(), s);
    assert(Seq::<char>::empty() + s =~= s);
    let l = text::lower_all(s);
    assert(l.len() == s.len());
    reveal_strlit("rax");
    reveal_strlit("rbx");
    reveal_strlit("rcx");
    reveal_strlit("rdx");
    reveal_strlit("rsi");
    reveal_strlit("rdi");
    reveal_strlit("rbp");
    reveal_strlit("rsp");
    reveal_strlit("r8");
    reveal_strlit("r9");
    reveal_strlit("r10");
    reveal_strlit("r11");
    reveal_strlit("r12");
    reveal_strlit("r13");
    reveal_strlit("r14");
    reveal_strlit("r15");
    reveal_strlit("eax");
    reveal_strlit("ebx");
    reveal_strlit("ecx");
    reveal_strlit("edx");
    reveal_strlit("esi");
    reveal_strlit("edi");
    reveal_strlit("ax");
    reveal_strlit("al");
}

/// What a line of a splice is, against the line of the body that it comes from: a return
/// is a jump to `end`, a label and a jump within the body go by the names of the splice, and
/// any other line is the same.
pub open spec fn splices(body: Seq<BufferLine>, l: BufferLine, r: BufferLine, end: Seq<char>) -> bool {
    &&& inliner::kind_of(r.text) == r.kind
    &&& match l.kind {
        KindView::Ret => r.kind == KindView::Jump(end) && line_mnemonic(r.text) == "jmp"@,
        KindView::Label(n) => r.kind is Label,
        KindView::Jump(t) => if exists|i: int|
            0 <= i < body.len() && (#[trigger] body[i]).kind == KindView::Label(t) {
            r.kind is Jump && line_mnemonic(r.text) == line_mnemonic(l.text)
        } else {
            r == l
        },
        _ => r == l,
    }
}

#[verifier::spinoff_prover]
proof fn lemma_spliced_line(body: Seq<BufferLine>, l: BufferLine, site: int)
    requires
        inliner::kind_of(l.text) == l.kind,
        site >= 0,
    ensures
        splices(body, l, inliner::spliced_line(body, l, site), inliner::cont_label(site)),
{
    let r = inliner::spliced_line(body, l, site);
    let ind = inliner::indentation(l.text);
    text::lemma_first_from(l.text, text::not_ws(), 0);
    assert forall|i: int| 0 <= i < ind.len() implies text::is_ws(#[trigger] ind[i]) by {
        assert(ind[i] == l.text[i]);
        assert(!text::not_ws()(l.text[i]));
    }
    let t = text::trim(l.text);
    lemma_trim_ends(l.text);
    match l.kind {
        KindView::Ret => {
            reveal_strlit("  jmp ");
            reveal_strlit("  ");
            reveal_strlit("jmp");
            reveal_strlit(" ");
            lemma_labels_of_splice(Seq::empty(), site);
            lemma_label_operand_trimmed(inliner::cont_label(site));
            lemma_kind_of_branch("  "@, "jmp"@, inliner::cont_label(site));
            assert("  jmp "@ + inliner::cont_label(site) =~= "  "@ + "jmp"@ + " "@
                + inliner::cont_label(site));
            assert(text::lower_all("jmp"@) =~= "jmp"@);
        },
        KindView::Label(n) => {
            lemma_kind_label_back(l.text);
            lemma_labels_of_splice(n, site);
            law_label_line_is_recognised(ind, inliner::site_label(n, site));
        },
        KindView::Jump(g) => {
            lemma_kind_jump_back(l.text);
            let w = text::first_word(l.text);
            lemma_first_word_trimmed(l.text);
            text::lemma_first_from(t, text::ws(), 0);
            assert forall|i: int| 0 <= i < w.len() implies !text::is_ws(#[trigger] w[i]) by {
                assert(w[i] == t[i]);
                assert(!text::ws()(t[i]));
            }
            lemma_labels_of_splice(g, site);
            lemma_label_operand_trimmed(inliner::site_label(g, site));
            lemma_kind_of_branch(ind, w, inliner::site_label(g, site));
        },
        _ => {},
    }
}

proof fn lemma_kind_label_back(s: Seq<char>)
    requires
        inliner::kind_of(s) is Label,
    ensures
        inliner::kind_of(s) matches KindView::Label(n) && n.len() > 0 && inliner::target_chars(n),
{
}

proof fn lemma_kind_jump_back(s: Seq<char>)
    requires
        inliner::kind_of(s) is Jump,
    ensures
        inliner::kind_of(s) matches KindView::Jump(t) && inliner::label_operand(t)
            && inliner::target_chars(t),
        ({
            let t = text::trim(s);
            let w = t.take(text::find_ws(t));
            &&& w.len() > 0
            &&& w[0] != ';'
            &&& inliner::branch_mnemonic(text::lower_all(w))
            &&& line_mnemonic(s) == text::lower_all(w)
        }),
{
    let t = text::trim(s);
    let f = text::find_ws(t);
    text::lemma_first_from(t, text::ws(), 0);
    let w = t.take(f);
    if f >= t.len() {
        assert(w =~= t);
        let none: Seq<char> = Seq::empty();
        text::lemma_first_from(none, text::not_ws(), 0);
        assert(text::trim_start(none) =~= none);
        text::lemma_last_below(none, text::not_ws(), 0);
        assert(text::trim(none) =~= none);
        assert(!inliner::label_operand(none));
    } else {
        call_laws::lemma_trim_twice(t.skip(f + 1));
    }
    if w.len() == 0 {
        reveal_strlit("jmp");
        reveal_strlit("loop");
        reveal_strlit("loope");
        reveal_strlit("loopne");
        reveal_strlit("jecxz");
        reveal_strlit("jrcxz");
        assert(text::lower_all(w).len() == 0);
    } else {
        assert(w[0] == t[0]);
    }
}

/// No line of a splice is a return: where the body returns, the splice jumps to the label
/// that ends it.
pub proof fn law_splice_holds_no_return(body: Seq<BufferLine>, site: int)
    ensures
        inliner::spliced_body(body, site).len() == body.len() + 1,
        forall|i: int|
            0 <= i < inliner::spliced_body(body, site).len() ==> !((
            #[trigger] inliner::spliced_body(body, site)[i]).kind is Ret),
        inliner::spliced_body(body, site).last().kind is Label,
        forall|i: int|
            0 <= i < body.len() && (#[trigger] body[i]).kind is Ret ==> (inliner::spliced_body(
                body,
                site,
            )[i].kind matches KindView::Jump(t) && inliner::spliced_body(body, site).last().kind
                == KindView::Label(t)),
{
}

/// The lines of a splice say in their text what they are, and each is what becomes of its
/// line of the body.
pub proof fn law_splice_text_says_its_kind(body: Seq<BufferLine>, site: int)
    requires
        kinds_read_off(body),
        site >= 0,
    ensures
        kinds_read_off(inliner::spliced_body(body, site)),
        forall|i: int|
            0 <= i < body.len() ==> splices(
                body,
                #[trigger] body[i],
                inliner::spliced_body(body, site)[i],
                inliner::spliced_body(body, site).last().kind->Label_0,
            ),
{
    let sp = inliner::spliced_body(body, site);
    let c = inliner::cont_label(site);
    lemma_labels_of_splice(Seq::empty(), site);
    law_label_line_is_recognised(Seq::empty(), c);
    assert(Seq::<char>::empty() + c + ":"@ =~= c + ":"@);
    assert forall|i: int| 0 <= i < body.len() implies splices(body, #[trigger] body[i], sp[i], c) by {
        lemma_spliced_line(body, body[i], site);
    }
    assert forall|i: int| 0 <= i < sp.len() implies inliner::kind_of((#[trigger] sp[i]).text)
        == sp[i].kind by {
        if i < body.len() {
            assert(splices(body, body[i], sp[i], c));
        }
    }
}

// ── the flow of control ─────────────────────────────────────────────────────

/// Where a run over some lines stands: in front of a line, behind a return, or gone to a
/// label that the lines do not define.
pub enum Flow<S> {
    At(int, S),
    Returned(S),
    Left(Seq<char>, S),
}

/// What the lines that are no branch do to the state, and whether a branch is taken, by
/// its mnemonic.
#[verifier::reject_recursive_types(S)]
pub struct Meaning<S> {
    pub act: spec_fn(Seq<char>, S) -> S,
    pub takes: spec_fn(Seq<char>, S) -> bool,
}

/// The texts of lines.
pub open spec fn texts(v: Seq<BufferLine>) -> Seq<Seq<char>> {
    Seq::new(v.len(), |i: int| v[i].text)
}

/// The first line from `i` on that defines `name`; the number of lines where none does.
pub open spec fn label_line(code: Seq<Seq<char>>, name: Seq<char>, i: int) -> int
    decreases code.len() - i,
{
    if i >= code.len() {
        code.len() as int
    } else if inliner::kind_of(code[i]) == KindView::Label(name) {
        i
    } else {
        label_line(code, name, i + 1)
    }
}

/// One step of a run.
pub open spec fn flow_step<S>(m: Meaning<S>, code: Seq<Seq<char>>, f: Flow<S>) -> Flow<S> {
    match f {
        Flow::At(i, s) => if i < 0 || i >= code.len() {
            f
        } else {
            match inliner::kind_of(code[i]) {
                KindView::Ret => Flow::Returned(s),
                KindView::Jump(t) => if (m.takes)(line_mnemonic(code[i]), s) {
                    if label_line(code, t, 0) < code.len() {
                        Flow::At(label_line(code, t, 0), s)
                    } else {
                        Flow::Left(t, s)
                    }
                } else {
                    Flow::At(i + 1, s)
                },
                KindView::Label(_) => Flow::At(i + 1, s),
                KindView::ProcMark { .. } => Flow::At(i + 1, s),
                KindView::EndMark(_) => Flow::At(i + 1, s),
                _ => Flow::At(i + 1, (m.act)(code[i], s)),
            }
        },
        _ => f,
    }
}

/// A run of `n` steps.
pub open spec fn flow<S>(m: Meaning<S>, code: Seq<Seq<char>>, f: Flow<S>, n: nat) -> Flow<S>
    decreases n,
{
    if n == 0 {
        f
    } else {
        flow_step(m, code, flow(m, code, f, (n - 1) as nat))
    }
}

proof fn lemma_label_line(code: Seq<Seq<char>>, name: Seq<char>, i: int)
    requires
        0 <= i <= code.len(),
    ensures
        i <= label_line(code, name, i) <= code.len(),
        label_line(code, name, i) < code.len() ==> inliner::kind_of(
            code[label_line(code, name, i)],
        ) == KindView::Label(name),
        forall|k: int|
            i <= k < label_line(code, name, i) ==> inliner::kind_of(#[trigger] code[k])
                != KindView::Label(name),
    decreases code.len() - i,
{
    if i < code.len() && inliner::kind_of(code[i]) != KindView::Label(name) {
        lemma_label_line(code, name, i + 1);
    }
}

proof fn lemma_site_labels_differ(a: Seq<char>, b: Seq<char>, site: int)
    ensures
        inliner::site_label(a, site) == inliner::site_label(b, site) ==> a == b,
        inliner::site_label(a, site) != inliner::cont_label(site),
{
    reveal_strlit("__wfi");
    reveal_strlit("__wfi_cont_");
    let d = text::signed_dec(site);
    let x = inliner::site_label(a, site);
    let y = inliner::site_label(b, site);
    if x == y {
        assert(x.len() == a.len() + 5 + d.len());
        assert(y.len() == b.len() + 5 + d.len());
        assert(x.take(a.len() as int) =~= a);
        assert(y.take(b.len() as int) =~= b);
    }
    let c = inliner::cont_label(site);
    if x == c {
        assert(x.len() == a.len() + 5 + d.len());
        assert(c.len() == 11 + d.len());
        assert(a.len() == 6);
        assert(x[10] == "__wfi"@[4]);
        assert(c[10] == "__wfi_cont_"@[10]);
    }
}

/// Two labels that one body line and its splice define stand on the same line.
proof fn lemma_label_lines_agree(body: Seq<BufferLine>, t: Seq<char>, site: int)
    requires
        kinds_read_off(body),
        site >= 0,
        inliner::defines(body, t),
    ensures
        label_line(texts(body), t, 0) < body.len(),
        label_line(texts(inliner::spliced_body(body, site)), inliner::site_label(t, site), 0)
            == label_line(texts(body), t, 0),
{
    let sp = inliner::spliced_body(body, site);
    law_splice_text_says_its_kind(body, site);
    let a = texts(body);
    let b = texts(sp);
    let st = inliner::site_label(t, site);
    lemma_label_line(a, t, 0);
    lemma_label_line(b, st, 0);
    let x = label_line(a, t, 0);
    let y = label_line(b, st, 0);
    let k = choose|k: int| 0 <= k < body.len() && (#[trigger] body[k]).kind == KindView::Label(t);
    assert(inliner::kind_of(a[k]) == KindView::Label(t));
    assert(x < body.len());
    assert(inliner::kind_of(a[x]) == body[x].kind);
    assert(sp[x].kind == KindView::Label(st));
    assert(inliner::kind_of(b[x]) == sp[x].kind);
    assert(y <= x);
    assert(inliner::kind_of(b[y]) == sp[y].kind);
    assert(y < body.len());
    assert(sp[y].kind == KindView::Label(st));
    match body[y].kind {
        KindView::Label(n) => {
            lemma_site_labels_differ(n, t, site);
            assert(inliner::kind_of(a[y]) == KindView::Label(t));
        },
        _ => {
            assert(false);
        },
    }
}

proof fn lemma_cont_line(body: Seq<BufferLine>, site: int)
    requires
        kinds_read_off(body),
        site >= 0,
    ensures
        label_line(texts(inliner::spliced_body(body, site)), inliner::cont_label(site), 0)
            == body.len(),
{
    let sp = inliner::spliced_body(body, site);
    law_splice_text_says_its_kind(body, site);
    let b = texts(sp);
    let c = inliner::cont_label(site);
    lemma_label_line(b, c, 0);
    let y = label_line(b, c, 0);
    assert(inliner::kind_of(b[body.len() as int]) == sp[body.len() as int].kind);
    if y < body.len() {
        assert(inliner::kind_of(b[y]) == sp[y].kind);
        match body[y].kind {
            KindView::Label(n) => {
                lemma_site_labels_differ(n, n, site);
            },
            _ => {},
        }
        assert(false);
    }
}

/// Where the body jumps out of itself, the splice does not define the label jumped to.
pub open spec fn leaves_alike(body: Seq<BufferLine>, site: int) -> bool {
    forall|i: int, t: Seq<char>|
        0 <= i < body.len() && (#[trigger] body[i]).kind == KindView::Jump(t)
            && !inliner::defines(body, t) ==> !(#[trigger] inliner::defines(
            inliner::spliced_body(body, site),
            t,
        ))
}

proof fn lemma_outside(code: Seq<BufferLine>, t: Seq<char>)
    requires
        kinds_read_off(code),
        !inliner::defines(code, t),
    ensures
        label_line(texts(code), t, 0) == code.len(),
{
    let a = texts(code);
    lemma_label_line(a, t, 0);
    let x = label_line(a, t, 0);
    if x < code.len() {
        assert(inliner::kind_of(a[x]) == code[x].kind);
    }
}

#[verifier::spinoff_prover]
proof fn lemma_splice_step<S>(m: Meaning<S>, body: Seq<BufferLine>, site: int, i: int, s: S)
    requires
        kinds_read_off(body),
        site >= 0,
        leaves_alike(body, site),
        0 <= i < body.len(),
        forall|x: S| #[trigger] (m.takes)("jmp"@, x),
    ensures
        ({
            let to = flow_step(m, texts(inliner::spliced_body(body, site)), Flow::At(i, s));
            match flow_step(m, texts(body), Flow::At(i, s)) {
                Flow::Returned(x) => to == Flow::At(body.len() as int, x),
                f => to == f,
            }
        }),
{
    let sp = inliner::spliced_body(body, site);
    law_splice_text_says_its_kind(body, site);
    let a = texts(body);
    let b = texts(sp);
    let c = inliner::cont_label(site);
    assert(splices(body, body[i], sp[i], sp.last().kind->Label_0));
    assert(inliner::kind_of(a[i]) == body[i].kind);
    assert(inliner::kind_of(b[i]) == sp[i].kind);
    lemma_cont_line(body, site);
    match body[i].kind {
        KindView::Jump(t) => {
            if inliner::defines(body, t) {
                lemma_label_lines_agree(body, t, site);
            } else {
                assert(!inliner::defines(sp, t));
                lemma_outside(body, t);
                lemma_outside(sp, t);
            }
        },
        _ => {},
    }
}

/// A splice runs as the call did. As long as a run of the body is within it, the run of the
/// splice is on the same line in the same state; where the procedure jumps away, the splice
/// jumps to the same label; and where the procedure returns, the splice comes out behind
/// itself in the state of the return.
pub proof fn law_splice_runs_as_the_call<S>(
    m: Meaning<S>,
    body: Seq<BufferLine>,
    site: int,
    s: S,
    n: nat,
)
    requires
        kinds_read_off(body),
        site >= 0,
        leaves_alike(body, site),
        forall|x: S| #[trigger] (m.takes)("jmp"@, x),
    ensures
        ({
            let a = texts(body);
            let b = texts(inliner::spliced_body(body, site));
            match flow(m, a, Flow::At(0, s), n) {
                Flow::At(i, x) => 0 <= i < body.len() ==> flow(m, b, Flow::At(0, s), n) == Flow::At(
                    i,
                    x,
                ),
                Flow::Returned(x) => flow(m, b, Flow::At(0, s), n + 1) == Flow::At(
                    b.len() as int,
                    x,
                ),
                Flow::Left(t, x) => flow(m, b, Flow::At(0, s), n) == Flow::Left(t, x),
            }
        }),
    decreases n,
{
    let sp = inliner::spliced_body(body, site);
    let a = texts(body);
    let b = texts(sp);
    if n > 0 {
        let k = (n - 1) as nat;
        law_splice_runs_as_the_call(m, body, site, s, k);
        match flow(m, a, Flow::At(0, s), k) {
            Flow::At(i, x) => {
                if 0 <= i < body.len() {
                    lemma_splice_step(m, body, site, i, x);
                    law_splice_text_says_its_kind(body, site);
                    assert(inliner::kind_of(b[body.len() as int]) == sp.last().kind);
                    let f = flow(m, b, Flow::At(0, s), n);
                    assert(f == flow_step(m, b, Flow::At(i, x)));
                    assert(flow(m, b, Flow::At(0, s), n + 1) == flow_step(m, b, f));
                }
            },
            Flow::Returned(x) => {
                assert(flow(m, b, Flow::At(0, s), n) == Flow::At(b.len() as int, x));
                assert(flow(m, b, Flow::At(0, s), n + 1) == flow_step(
                    m,
                    b,
                    flow(m, b, Flow::At(0, s), n),
                ));
            },
            _ => {},
        }
    }
}

// ── the reduced text ────────────────────────────────────────────────────────

/// What a line of the reduced text is: the input line that it derives from, or a line that
/// says what it is and is no return, in place of a call that is replaced.
pub open spec fn comes_from(v: Seq<BufferLine>, threshold: int) -> spec_fn(Placed) -> bool {
    |x: Placed|
        0 <= x.origin < v.len() && inliner::kind_of(x.line.text) == x.line.kind && (x.line
            == v[x.origin] || ((v[x.origin].kind matches KindView::Call(name) && replaced(
            v,
            threshold,
            name,
        )) && !(x.line.kind is Ret)))
}

proof fn lemma_region_rule(name: Seq<char>)
    requires
        inliner::label_operand(name),
        inliner::target_chars(name),
    ensures
        inliner::kind_of(inliner::region_open_line(name).text) == inliner::region_open_line(
            name,
        ).kind,
        inliner::kind_of(inliner::region_close_line(name).text) == inliner::region_close_line(
            name,
        ).kind,
{
    lemma_label_operand_trimmed(name);
    lemma_target_chars_seen(name, name.len() - 1);
    reveal_strlit("  ; \u{2500}\u{2500} inline ");
    reveal_strlit("  ; \u{2500}\u{2500} end ");
    reveal_strlit("; @wfi-end ");
    reveal_strlit("; @wfi ");
    lemma_rule_is_comment("  ; \u{2500}\u{2500} inline "@, name);
    lemma_rule_is_comment("  ; \u{2500}\u{2500} end "@, name);
}

proof fn lemma_rule_is_comment(rule: Seq<char>, name: Seq<char>)
    requires
        rule.len() > 5,
        rule[0] == ' ' && rule[1] == ' ' && rule[2] == ';' && rule[4] == '\u{2500}',
        name.len() > 0,
        !text::is_ws(name.last()),
    ensures
        inliner::kind_of(rule + name) is Other,
{
    let ind = rule.take(2);
    let core = rule.skip(2) + name;
    lemma_trim_around(ind, core);
    assert(ind + core =~= rule + name);
    reveal_strlit("; @wfi-end ");
    reveal_strlit("; @wfi ");
    assert(core[2] == '\u{2500}');
    assert("; @wfi-end "@[2] == '@' && "; @wfi "@[2] == '@');
    if text::starts_with(core, "; @wfi-end "@) {
        assert(core.take("; @wfi-end "@.len() as int)[2] == core[2]);
    }
    if text::starts_with(core, "; @wfi "@) {
        assert(core.take("; @wfi "@.len() as int)[2] == core[2]);
    }
}

proof fn lemma_kind_call_back(s: Seq<char>)
    requires
        inliner::kind_of(s) is Call,
    ensures
        inliner::kind_of(s) matches KindView::Call(t) && inliner::label_operand(t)
            && inliner::target_chars(t),
{
    let t = text::trim(s);
    let f = text::find_ws(t);
    text::lemma_first_from(t, text::ws(), 0);
    if f >= t.len() {
        let none: Seq<char> = Seq::empty();
        text::lemma_first_from(none, text::not_ws(), 0);
        assert(text::trim_start(none) =~= none);
        text::lemma_last_below(none, text::not_ws(), 0);
        assert(text::trim(none) =~= none);
        assert(!inliner::label_operand(none));
    } else {
        call_laws::lemma_trim_twice(t.skip(f + 1));
    }
}

proof fn lemma_region_comes_from(
    v: Seq<BufferLine>,
    threshold: int,
    i: int,
    name: Seq<char>,
    site: int,
)
    requires
        replaced(v, threshold, name),
        kinds_read_off(v),
        0 <= i < v.len(),
        v[i].kind == KindView::Call(name),
        site >= 0,
    ensures
        laws::every(
            inliner::all_from(
                inliner::inlined_region(v, inliner::proc_spans(v), name, site),
                i,
            ),
            comes_from(v, threshold),
        ),
{
    let spans = inliner::proc_spans(v);
    let r = inliner::inlined_region(v, spans, name, site);
    let all = inliner::all_from(r, i);
    let p = comes_from(v, threshold);
    assert(inliner::kind_of(v[i].text) == v[i].kind);
    lemma_kind_call_back(v[i].text);
    lemma_region_rule(name);
    laws::lemma_span_named_is_span(spans, name);
    inliner::law_spans_within(v, v.len());
    match inliner::span_named(spans, name) {
        Some(sv) => {
            let k = choose|k: int| 0 <= k < spans.len() && #[trigger] spans[k] == sv;
            let body = inliner::span_body(v, sv);
            assert forall|x: int| 0 <= x < body.len() implies inliner::kind_of(
                (#[trigger] body[x]).text,
            ) == body[x].kind by {
                assert(body[x] == v[sv.open + 1 + x]);
            }
            let sp = inliner::spliced_body(body, site);
            law_splice_holds_no_return(body, site);
            law_splice_text_says_its_kind(body, site);
            assert forall|x: int| 0 <= x < all.len() implies p(#[trigger] all[x]) by {
                if 0 < x < all.len() - 1 {
                    assert(r[x] == sp[x - 1]);
                }
            }
        },
        None => {},
    }
}

proof fn lemma_inlined_comes_from(v: Seq<BufferLine>, threshold: int, i: int, site: int)
    requires
        kinds_read_off(v),
        site >= 0,
    ensures
        laws::every(
            inliner::inlined_from(v, inliner::proc_spans(v), threshold, i, site),
            comes_from(v, threshold),
        ),
    decreases v.len() - i,
{
    let spans = inliner::proc_spans(v);
    let p = comes_from(v, threshold);
    if 0 <= i < v.len() {
        lemma_inlined_comes_from(v, threshold, i + 1, site);
        match inliner::skip_dead(v, spans, threshold, i) {
            Some(j) => {
                if i < j <= v.len() {
                    lemma_inlined_comes_from(v, threshold, j, site);
                }
            },
            None => {
                let one = seq![Placed { line: v[i], origin: i }];
                assert(inliner::kind_of(v[i].text) == v[i].kind);
                assert(p(one[0]));
                laws::lemma_every_concat(
                    one,
                    inliner::inlined_from(v, spans, threshold, i + 1, site),
                    p,
                );
                match v[i].kind {
                    KindView::Call(name) => {
                        lemma_replaced(v, threshold, name);
                        if replaced(v, threshold, name) {
                            lemma_inlined_comes_from(v, threshold, i + 1, site + 1);
                            lemma_region_comes_from(v, threshold, i, name, site + 1);
                            laws::lemma_every_concat(
                                inliner::all_from(
                                    inliner::inlined_region(v, spans, name, site + 1),
                                    i,
                                ),
                                inliner::inlined_from(v, spans, threshold, i + 1, site + 1),
                                p,
                            );
                        }
                    },
                    _ => {},
                }
            },
        }
    }
}

/// Every line of the reduced text is an input line, or stands in place of a call and is no
/// return: so every return of the reduced text is a return of the input. What a line says in
/// its text is what it is.
pub proof fn law_reduced_returns_are_returns_of_the_input(code: Seq<char>, threshold: int)
    ensures
        laws::every(inliner::reduced(code, threshold), comes_from(inliner::parsed(code), threshold)),
        forall|i: int|
            0 <= i < inliner::reduced(code, threshold).len() && (#[trigger] inliner::reduced(
                code,
                threshold,
            )[i]).line.kind is Ret ==> inliner::reduced(code, threshold)[i].line
                == inliner::parsed(code)[inliner::reduced(code, threshold)[i].origin],
{
    let v = inliner::parsed(code);
    let p = comes_from(v, threshold);
    assert(kinds_read_off(v));
    lemma_inlined_comes_from(v, threshold, 0, 0);
    let a = inliner::inlined_from(v, inliner::proc_spans(v), threshold, 0, 0);
    laws::lemma_kept_every(a, |i: int| !inliner::jumps_to_next(a, i), a.len() as int, p);
    let b = inliner::without_idle_jumps(a);
    laws::lemma_kept_every(b, |i: int| !inliner::dead_cont(b, i), b.len() as int, p);
    laws::lemma_settled_every(inliner::without_dead_conts(b), 4, p);
    let r = inliner::reduced(code, threshold);
    assert(laws::every(r, p));
    assert forall|i: int| 0 <= i < r.len() && (#[trigger] r[i]).line.kind is Ret implies r[i].line
        == v[r[i].origin] by {
        assert(p(r[i]));
    }
}

// ── what the passes drop ────────────────────────────────────────────────────

/// Whether a run that stands in front of line `i` has nothing to do there: whatever a branch
/// decides, it goes on at the next line in the same state.
pub open spec fn idle<S>(m: Meaning<S>, code: Seq<Seq<char>>, i: int) -> bool {
    forall|s: S| #[trigger] flow_step(m, code, Flow::At(i, s)) == Flow::At(i + 1, s)
}

/// A jump that is dropped as idle is idle: where no two lines define one label, its step
/// leads to the next line whatever it decides.
pub proof fn law_dropped_jumps_are_idle<S>(m: Meaning<S>, v: Seq<Placed>, i: int)
    requires
        0 <= i < v.len(),
        inliner::jumps_to_next(v, i),
        kinds_read_off(inliner::lines_only(v)),
        forall|a: int, b: int|
            0 <= a < v.len() && 0 <= b < v.len() && v[a].line.kind is Label && (
            #[trigger] v[a]).line.kind == (#[trigger] v[b]).line.kind ==> a == b,
    ensures
        idle(m, texts(inliner::lines_only(v)), i),
        !(v[i].line.kind is Ret),
{
    let l = inliner::lines_only(v);
    let code = texts(l);
    match v[i].line.kind {
        KindView::Jump(t) => {
            lemma_label_line(code, t, 0);
            let d = label_line(code, t, 0);
            assert(inliner::kind_of(l[i].text) == l[i].kind);
            assert(inliner::kind_of(l[i + 1].text) == l[i + 1].kind);
            assert(code[i + 1] == l[i + 1].text);
            assert(d <= i + 1);
            assert(inliner::kind_of(l[d].text) == l[d].kind);
            assert(v[d].line.kind == v[i + 1].line.kind);
            assert(d == i + 1);
        },
        _ => {},
    }
}

/// The lines kept of `v` are a sub-sequence of it: what `keep` does not drop is there.
proof fn lemma_kept_holds(v: Seq<Placed>, keep: spec_fn(int) -> bool, n: int, i: int)
    requires
        0 <= i < n <= v.len(),
        keep(i),
    ensures
        inliner::kept(v, keep, n).contains(v[i]),
    decreases n,
{
    let k = inliner::kept(v, keep, n);
    if i == n - 1 {
        assert(k[k.len() - 1] == v[i]);
    } else {
        lemma_kept_holds(v, keep, n - 1, i);
        let u = inliner::kept(v, keep, n - 1);
        let x = choose|x: int| 0 <= x < u.len() && u[x] == v[i];
        assert(k[x] == v[i]);
    }
}

/// Dropping idle jumps keeps every line that is no jump to the next line, and dropping dead
/// continuation labels keeps every line but labels of that family that nothing jumps to.
pub proof fn law_passes_keep_what_is_used(v: Seq<Placed>, i: int)
    requires
        0 <= i < v.len(),
    ensures
        !(v[i].line.kind is Jump && i + 1 < v.len() && v[i + 1].line.kind == KindView::Label(
            v[i].line.kind->Jump_0,
        )) ==> inliner::without_idle_jumps(v).contains(v[i]),
        !(v[i].line.kind is Label) ==> inliner::without_dead_conts(v).contains(v[i]),
        v[i].line.kind matches KindView::Label(n) ==> (exists|k: int|
            0 <= k < v.len() && (#[trigger] v[k]).line.kind == KindView::Jump(n))
            ==> inliner::without_dead_conts(v).contains(v[i]),
        v[i].line.kind matches KindView::Label(n) ==> !text::starts_with(n, "__wfi_cont_"@)
            ==> inliner::without_dead_conts(v).contains(v[i]),
{
    let a = |k: int| !inliner::jumps_to_next(v, k);
    let b = |k: int| !inliner::dead_cont(v, k);
    if a(i) {
        lemma_kept_holds(v, a, v.len() as int, i);
    }
    if b(i) {
        lemma_kept_holds(v, b, v.len() as int, i);
    }
}

/// A line that the flow of control only passes through.
pub open spec fn straight(l: BufferLine) -> bool {
    !(l.kind is Label) && !(l.kind is Call) && !(l.kind is Jump) && !(l.kind is Ret)
}

/// Behind line `q` the register `x` is written, and up to there nothing reads it and control
/// goes straight on: what `x` holds behind `q` is never seen.
pub open spec fn never_seen(v: Seq<BufferLine>, q: int, x: Reg) -> bool {
    exists|w: int| #[trigger] first_write(v, q, w, x)
}

/// Line `w` is the first behind `q` that writes `x`, with nothing in between that reads it.
pub open spec fn first_write(v: Seq<BufferLine>, q: int, w: int, x: Reg) -> bool {
    &&& q < w < v.len()
    &&& regs::writes(Track::General, text::trim(v[w].text)).contains(x)
    &&& forall|l: int|
        q < l <= w ==> straight(#[trigger] v[l]) && !regs::reads(
            Track::General,
            text::trim(v[l].text),
        ).contains(x)
}

/// Line `p` pushes the callee-saved register `x`, the later line `q` pops it again, and the
/// value that the pop brings back is never seen.
pub open spec fn dead_pair(v: Seq<BufferLine>, p: int, q: int, x: Reg) -> bool {
    &&& 0 <= p < q < v.len()
    &&& inliner::unary_reg(v[p].text, "push"@) matches Some(r) && inliner::unary_reg(
        v[q].text,
        "pop"@,
    ) == Some(r) && regs::register_named(r) == Some(x)
    &&& x == Reg::Rbx || x == Reg::Rbp || x == Reg::Rsi || x == Reg::Rdi || x == Reg::R12 || x
        == Reg::R13 || x == Reg::R14 || x == Reg::R15
    &&& never_seen(v, q, x)
}

proof fn lemma_overwritten(v: Seq<BufferLine>, i: int, q: int, x: Reg)
    requires
        inliner::overwritten_from(v, i, x),
        q < i,
        forall|l: int|
            q < l < i ==> straight(#[trigger] v[l]) && !regs::reads(
                Track::General,
                text::trim(v[l].text),
            ).contains(x),
    ensures
        never_seen(v, q, x),
    decreases v.len() - i,
{
    let t = text::trim(v[i].text);
    if regs::writes(Track::General, t).contains(x) {
        assert(first_write(v, q, i, x));
    } else {
        lemma_overwritten(v, i + 1, q, x);
    }
}

proof fn lemma_leading(v: Seq<BufferLine>, k: int, end: int, j: int)
    requires
        0 <= j < inliner::leading_pushes(v, k, end).len(),
    ensures
        ({
            let (p, r) = inliner::leading_pushes(v, k, end)[j];
            &&& k <= p < end
            &&& inliner::unary_reg(v[p].text, "push"@) == Some(r)
            &&& regs::tracked_reg(Track::CalleeSaved, r) is Some
            &&& forall|l: int|
                k <= l < p ==> inliner::transparent(#[trigger] v[l]) || inliner::unary_reg(
                    v[l].text,
                    "push"@,
                ) is Some
        }),
    decreases end - k,
{
    if inliner::transparent(v[k]) {
        lemma_leading(v, k + 1, end, j);
    } else {
        let rest = inliner::leading_pushes(v, k + 1, end);
        let r = inliner::unary_reg(v[k].text, "push"@)->0;
        assert(inliner::leading_pushes(v, k, end) == seq![(k, r)] + rest);
        if j > 0 {
            lemma_leading(v, k + 1, end, j - 1);
            assert(inliner::leading_pushes(v, k, end)[j] == rest[j - 1]);
        }
    }
}

proof fn lemma_trailing(v: Seq<BufferLine>, i: int, m: int, j: int)
    requires
        0 <= j < inliner::trailing_pops(v, i, m).len(),
    ensures
        ({
            let (q, r) = inliner::trailing_pops(v, i, m)[j];
            &&& i < q < m
            &&& inliner::unary_reg(v[q].text, "pop"@) == Some(r)
            &&& !inliner::transparent(v[q])
        }),
    decreases m,
{
    if inliner::transparent(v[m - 1]) {
        lemma_trailing(v, i, m - 1, j);
    } else {
        let rest = inliner::trailing_pops(v, i, m - 1);
        let r = inliner::unary_reg(v[m - 1].text, "pop"@)->0;
        assert(inliner::trailing_pops(v, i, m) == seq![(m - 1, r)] + rest);
        if j > 0 {
            lemma_trailing(v, i, m - 1, j - 1);
            assert(inliner::trailing_pops(v, i, m)[j] == rest[j - 1]);
        }
    }
}

proof fn lemma_push_is_no_pop(s: Seq<char>)
    ensures
        !(inliner::unary_reg(s, "push"@) is Some && inliner::unary_reg(s, "pop"@) is Some),
{
    reveal_strlit("push");
    reveal_strlit("pop");
    let t = text::trim(s);
    if text::starts_with(t, "push"@) && text::starts_with(t, "pop"@) {
        assert(t.take(4)[1] == t[1]);
        assert(t.take(3)[1] == t[1]);
        assert("push"@[1] == 'u' && "pop"@[1] == 'o');
    }
}

proof fn lemma_dropping_region(v: Seq<BufferLine>, i: int, k: int) -> (r: (int, int))
    requires
        inliner::drops_from(v, i, k),
    ensures
        0 <= r.0 < r.1 < v.len(),
        inliner::region_drops(v, r.0, r.1, k),
        forall|l: int|
            #![trigger inliner::drops_from(v, i, l)]
            inliner::region_drops(v, r.0, r.1, l) ==> inliner::drops_from(v, i, l),
    decreases v.len() - i, 1int,
{
    inliner::lemma_region_end(v, i + 1);
    if !inliner::opens_region(v[i]) {
        lemma_dropping_region_goes_on(v, i, k, i + 1)
    } else {
        let end = inliner::region_end(v, i + 1);
        if end >= v.len() {
            lemma_dropping_region_goes_on(v, i, k, i + 1)
        } else if inliner::region_drops(v, i, end, k) {
            (i, end)
        } else {
            lemma_dropping_region_goes_on(v, i, k, end + 1)
        }
    }
}

proof fn lemma_dropping_region_goes_on(v: Seq<BufferLine>, i: int, k: int, next: int) -> (r: (
    int,
    int,
))
    requires
        i < next,
        i < v.len(),
        inliner::drops_from(v, next, k),
        forall|l: int|
            #![trigger inliner::drops_from(v, i, l)]
            inliner::drops_from(v, next, l) ==> inliner::drops_from(v, i, l),
    ensures
        0 <= r.0 < r.1 < v.len(),
        inliner::region_drops(v, r.0, r.1, k),
        forall|l: int|
            #![trigger inliner::drops_from(v, i, l)]
            inliner::region_drops(v, r.0, r.1, l) ==> inliner::drops_from(v, i, l),
    decreases v.len() - i, 0int,
{
    let r = lemma_dropping_region(v, next, k);
    assert forall|l: int| inliner::region_drops(v, r.0, r.1, l) implies
        #[trigger] inliner::drops_from(v, i, l) by {
        assert(inliner::drops_from(v, next, l));
    }
    r
}

/// A line that is dropped with a dead frame is the push or the pop of a pair around a
/// callee-saved register whose popped value is never seen, and the pair goes as a whole.
pub proof fn law_dropped_frames_are_dead(v: Seq<Placed>, k: int)
    requires
        inliner::drops_from(inliner::lines_only(v), 0, k),
    ensures
        exists|p: int, q: int, x: Reg|
            #[trigger] dead_pair(inliner::lines_only(v), p, q, x) && (k == p || k == q)
                && inliner::drops_from(inliner::lines_only(v), 0, p) && inliner::drops_from(
                inliner::lines_only(v),
                0,
                q,
            ),
{
    let w = inliner::lines_only(v);
    let (i, end) = lemma_dropping_region(w, 0, k);
    let pushes = inliner::leading_pushes(w, i + 1, end);
    let pops = inliner::trailing_pops(w, i, end);
    let j = choose|j: int|
        0 <= j < pushes.len() && #[trigger] inliner::dead_half(w, pushes, pops, j, k);
    assert(inliner::regs_only(pushes).len() == inliner::regs_only(pops).len());
    assert(inliner::regs_only(pushes)[j] == inliner::regs_only(pops)[j]);
    lemma_leading(w, i + 1, end, j);
    lemma_trailing(w, i, end, j);
    let p = pushes[j].0;
    let q = pops[j].0;
    let r = pushes[j].1;
    assert(pops[j].1 == r);
    lemma_push_is_no_pop(w[p].text);
    lemma_push_is_no_pop(w[q].text);
    assert(p < q);
    let x = regs::register_named(r)->0;
    lemma_overwritten(w, q + 1, q, x);
    assert(dead_pair(w, p, q, x));
    assert(inliner::dead_half(w, pushes, pops, j, p));
    assert(inliner::dead_half(w, pushes, pops, j, q));
    assert(inliner::region_drops(w, i, end, p));
    assert(inliner::region_drops(w, i, end, q));
}

// ── what stays of the input ─────────────────────────────────────────────────

/// A procedure that calls are replaced by: it is not marked complex, calls nothing, and has at
/// least one and at most `threshold` instructions.
pub open spec fn small_leaf(v: Seq<BufferLine>, s: SpanView, threshold: int) -> bool {
    &&& !s.complex
    &&& forall|k: int| s.open < k < s.close ==> !((#[trigger] v[k]).kind is Call)
    &&& 1 <= inliner::instruction_count(inliner::span_body(v, s)) <= threshold
}

/// A procedure called `name` that calls are replaced by.
pub open spec fn replaced(v: Seq<BufferLine>, threshold: int, name: Seq<char>) -> bool {
    exists|i: int|
        0 <= i < inliner::proc_spans(v).len() && (#[trigger] inliner::proc_spans(v)[i]).name == name
            && small_leaf(v, inliner::proc_spans(v)[i], threshold)
}

/// Some line other than a call speaks of `name`: a jump goes there, or an instruction or a
/// directive holds the name as a word.
pub open spec fn spoken_of(v: Seq<BufferLine>, name: Seq<char>) -> bool {
    exists|i: int|
        0 <= i < v.len() && ((#[trigger] v[i]).kind == KindView::Jump(name) || ((v[i].kind is Jump
            || v[i].kind is Other) && inliner::has_token(v[i].text, name)))
}

/// Line `k` belongs to a definition that nothing needs: it stands between the label of a
/// procedure and its closing marker, every call of the procedure is replaced, and nothing
/// else speaks of it.
pub open spec fn unneeded(v: Seq<BufferLine>, threshold: int, k: int) -> bool {
    exists|i: int, name: Seq<char>, c: int|
        0 <= i <= k && k <= c && (#[trigger] v[i]).kind == KindView::Label(name)
            && #[trigger] closes(v, name, c) && replaced(v, threshold, name) && !spoken_of(v, name)
}

/// Line `c` is the closing marker of a procedure called `name`.
pub open spec fn closes(v: Seq<BufferLine>, name: Seq<char>, c: int) -> bool {
    exists|s: int|
        0 <= s < inliner::proc_spans(v).len() && (#[trigger] inliner::proc_spans(v)[s]).name == name
            && inliner::proc_spans(v)[s].close == c
}

proof fn lemma_replaced(v: Seq<BufferLine>, threshold: int, name: Seq<char>)
    ensures
        inliner::eligible(v, inliner::proc_spans(v), threshold, name) == replaced(
            v,
            threshold,
            name,
        ),
        inliner::referenced(v, name) == spoken_of(v, name),
{
    let spans = inliner::proc_spans(v);
    inliner::law_spans_within(v, v.len());
    assert forall|i: int| 0 <= i < spans.len() implies inliner::inlinable(
        v,
        #[trigger] spans[i],
        threshold,
    ) == small_leaf(v, spans[i], threshold) by {
        let s = spans[i];
        let body = inliner::span_body(v, s);
        assert(forall|k: int| s.open < k < s.close ==> #[trigger] v[k] == body[k - s.open - 1]);
        assert(forall|k: int| 0 <= k < body.len() ==> #[trigger] body[k] == v[s.open + 1 + k]);
    }
    if inliner::referenced(v, name) {
        let i = choose|i: int| 0 <= i < v.len() && inliner::refers(#[trigger] v[i], name);
        assert(v[i].kind is Jump || v[i].kind is Other);
    }
    if spoken_of(v, name) {
        let i = choose|i: int|
            0 <= i < v.len() && ((#[trigger] v[i]).kind == KindView::Jump(name) || ((
            v[i].kind is Jump || v[i].kind is Other) && inliner::has_token(v[i].text, name)));
        assert(inliner::refers(v[i], name));
    }
}

/// The line that stands for the input line `k`: the line itself, or the comment that opens
/// the splice where it is a call that is replaced.
pub open spec fn stands_for(v: Seq<BufferLine>, threshold: int, k: int) -> Placed {
    match v[k].kind {
        KindView::Call(name) => if replaced(v, threshold, name) {
            Placed {
                line: BufferLine {
                    text: "  ; \u{2500}\u{2500} inline "@ + name,
                    kind: KindView::Other,
                },
                origin: k,
            }
        } else {
            Placed { line: v[k], origin: k }
        },
        _ => Placed { line: v[k], origin: k },
    }
}

proof fn lemma_contains_concat(a: Seq<Placed>, b: Seq<Placed>, x: Placed)
    requires
        a.contains(x) || b.contains(x),
    ensures
        (a + b).contains(x),
{
    if a.contains(x) {
        let i = choose|i: int| 0 <= i < a.len() && a[i] == x;
        assert((a + b)[i] == x);
    } else {
        let i = choose|i: int| 0 <= i < b.len() && b[i] == x;
        assert((a + b)[a.len() + i] == x);
    }
}

proof fn lemma_inlined_covers(v: Seq<BufferLine>, threshold: int, i: int, site: int, k: int)
    requires
        0 <= i <= k < v.len(),
        !(v[k].kind is ProcMark) && !(v[k].kind is EndMark),
    ensures
        inliner::inlined_from(v, inliner::proc_spans(v), threshold, i, site).contains(
            stands_for(v, threshold, k),
        ) || unneeded(v, threshold, k),
    decreases v.len() - i,
{
    let spans = inliner::proc_spans(v);
    let all = inliner::inlined_from(v, spans, threshold, i, site);
    if v[i].kind is ProcMark || v[i].kind is EndMark {
        lemma_inlined_covers(v, threshold, i + 1, site, k);
    } else {
        match inliner::skip_dead(v, spans, threshold, i) {
            Some(j) => {
                let name = v[i].kind->Label_0;
                laws::lemma_span_named_is_span(spans, name);
                lemma_last_named(spans, name);
                inliner::law_spans_within(v, v.len());
                lemma_replaced(v, threshold, name);
                let x = choose|x: int| 0 <= x < spans.len() && #[trigger] spans[x]
                    == inliner::span_named(spans, name)->0;
                assert(spans[x].name == name);
                assert(closes(v, name, j - 1));
                if k < j {
                    assert(v[i].kind == KindView::Label(name));
                    assert(unneeded(v, threshold, k));
                } else {
                    lemma_inlined_covers(v, threshold, j, site, k);
                }
            },
            None => {
                let one = seq![Placed { line: v[i], origin: i }];
                let call = v[i].kind matches KindView::Call(name) && inliner::eligible(
                    v,
                    spans,
                    threshold,
                    name,
                );
                let head = if call {
                    inliner::all_from(
                        inliner::inlined_region(v, spans, v[i].kind->Call_0, site + 1),
                        i,
                    )
                } else {
                    one
                };
                let site2 = if call {
                    site + 1
                } else {
                    site
                };
                let tail = inliner::inlined_from(v, spans, threshold, i + 1, site2);
                assert(all == head + tail);
                if k == i {
                    if v[i].kind is Call {
                        lemma_replaced(v, threshold, v[i].kind->Call_0);
                    }
                    if call {
                        inliner::lemma_eligible_has_span(v, spans, threshold, v[i].kind->Call_0);
                    }
                    assert(head[0] == stands_for(v, threshold, k));
                } else {
                    lemma_inlined_covers(v, threshold, i + 1, site2, k);
                }
                let x = stands_for(v, threshold, k);
                if head.contains(x) || tail.contains(x) {
                    lemma_contains_concat(head, tail, x);
                }
            },
        }
    }
}

proof fn lemma_last_named(spans: Seq<SpanView>, name: Seq<char>)
    ensures
        inliner::span_named(spans, name) matches Some(s) ==> s.name == name,
    decreases spans.len(),
{
    if spans.len() > 0 && spans.last().name != name {
        lemma_last_named(spans.drop_last(), name);
    }
}

/// Inlining loses no line of the input but those of a definition that nothing needs, and
/// changes none but the calls of small leaf procedures, which open a splice.
pub proof fn law_inlining_keeps_what_is_needed(
    v: Seq<BufferLine>,
    threshold: int,
    k: int,
)
    requires
        0 <= k < v.len(),
        !(v[k].kind is ProcMark) && !(v[k].kind is EndMark),
    ensures
        inliner::inlined_from(v, inliner::proc_spans(v), threshold, 0, 0).contains(
            stands_for(v, threshold, k),
        ) || unneeded(v, threshold, k),
{
    lemma_inlined_covers(v, threshold, 0, 0, k);
}

} // verus!
