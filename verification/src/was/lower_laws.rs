//! What holds over a whole lowering: blocks have numbers of their own, a procedure ends as it
//! began, and its frame suffices for every call in it.
use crate::text;
use crate::was::block_laws;
use crate::was::blocks;
use crate::was::call_laws;
use crate::was::calls;
use crate::was::clobber_laws;
use crate::was::contract;
use crate::was::lex;
use crate::was::lower;
use crate::was::blocks::BlockView;
use crate::was::lower::{LowerView, SourceView, lower};
use crate::winkb::kb::Kb;
use vstd::prelude::*;

verus! {

// ── block numbers ───────────────────────────────────────────────────────────

/// The number of a block, where it has one.
pub open spec fn block_number(b: BlockView) -> Option<int> {
    match b {
        BlockView::If { id, .. } => Some(id),
        BlockView::While { id } => Some(id),
        BlockView::Repeat { id } => Some(id),
        BlockView::For { id, .. } => Some(id),
        BlockView::Forever { id } => Some(id),
        BlockView::Proc { .. } => None,
    }
}

/// The open blocks were numbered one after the other, and the next number is still free.
pub open spec fn numbers_in_use(st: LowerView) -> bool {
    &&& st.ctr >= 0
    &&& forall|i: int|
        0 <= i < st.stack.len() ==> (block_number(#[trigger] st.stack[i]) matches Some(n) ==> 0 <= n
            < st.ctr)
    &&& forall|i: int, j: int|
        0 <= i < j < st.stack.len() && block_number(st.stack[i]) is Some && block_number(
            st.stack[j],
        ) is Some ==> block_number(#[trigger] st.stack[i])->0 < block_number(
            #[trigger] st.stack[j],
        )->0
}

/// How one line changes the open blocks: not at all, by a new one that takes the next number,
/// by a procedure, by closing the innermost, or by going on with it under its number.
pub open spec fn steps_blocks(a: LowerView, b: LowerView) -> bool {
    ||| b.stack == a.stack && b.ctr == a.ctr
    ||| b.ctr == a.ctr + 1 && b.stack.len() == a.stack.len() + 1 && b.stack.drop_last() == a.stack
        && block_number(b.stack.last()) == Some(a.ctr)
    ||| b.ctr == a.ctr && b.stack.len() == a.stack.len() + 1 && b.stack.drop_last() == a.stack
        && b.stack.last() is Proc
    ||| b.ctr == a.ctr && a.stack.len() > 0 && b.stack == a.stack.drop_last()
    ||| b.ctr == a.ctr && a.stack.len() > 0 && b.stack.len() == a.stack.len() && b.stack.drop_last()
        == a.stack.drop_last() && block_number(b.stack.last()) == block_number(a.stack.last())
}

proof fn lemma_pushed(st: LowerView, b: BlockView)
    ensures
        lower::with_block(st, b).stack.drop_last() == st.stack,
        lower::with_block(st, b).stack.last() == b,
        st.stack.push(b).drop_last() == st.stack,
{
    assert(st.stack.push(b).drop_last() =~= st.stack);
}

proof fn lemma_relabelled(st: LowerView, b: BlockView)
    requires
        st.stack.len() > 0,
    ensures
        st.stack.drop_last().push(b).drop_last() == st.stack.drop_last(),
        st.stack.drop_last().push(b).len() == st.stack.len(),
{
    assert(st.stack.drop_last().push(b).drop_last() =~= st.stack.drop_last());
}

proof fn lemma_if_steps(
    kb: &Kb,
    src: SourceView,
    st: LowerView,
    t: Seq<char>,
    raw: Seq<char>,
    line: int,
)
    ensures
        lower::if_line(kb, src, st, t, raw, line) matches Some(Ok(l)) ==> steps_blocks(st, l.st),
{
    lemma_pushed(st, BlockView::If { id: st.ctr, next: 1, else_seen: false });
    match lower::top(st) {
        Some(BlockView::If { id, next, else_seen }) => {
            lemma_relabelled(st, BlockView::If { id, next: next + 1, else_seen: false });
            lemma_relabelled(st, BlockView::If { id, next, else_seen: true });
        },
        _ => {},
    }
}

proof fn lemma_while_steps(
    kb: &Kb,
    src: SourceView,
    st: LowerView,
    t: Seq<char>,
    raw: Seq<char>,
    line: int,
)
    ensures
        lower::while_line(kb, src, st, t, raw, line) matches Some(Ok(l)) ==> steps_blocks(st, l.st),
{
    lemma_pushed(st, BlockView::While { id: st.ctr });
    lemma_pushed(st, BlockView::Repeat { id: st.ctr });
}

proof fn lemma_loop_steps(
    kb: &Kb,
    src: SourceView,
    st: LowerView,
    t: Seq<char>,
    raw: Seq<char>,
    line: int,
)
    ensures
        lower::loop_line(kb, src, st, t, raw, line) matches Some(Ok(l)) ==> steps_blocks(st, l.st),
{
    lemma_pushed(st, BlockView::Forever { id: st.ctr });
    if let Some(rest) = lex::strip_keyword(t, ".for"@) {
        if let Ok(l) = lower::for_line(kb, src, st, rest, line) {
            lemma_pushed(st, l.st.stack.last());
        }
    }
}

proof fn lemma_proc_steps(src: SourceView, st: LowerView, t: Seq<char>, line: int)
    ensures
        lower::proc_line(src, st, t, line) matches Some(Ok(l)) ==> steps_blocks(st, l.st),
{
    if let Some(rest) = lex::strip_keyword(t, "proc"@) {
        if let Ok(l) = lower::proc_open_line(src, st, rest, line) {
            lemma_pushed(st, l.st.stack.last());
        }
    }
}

proof fn lemma_other_steps(
    kb: &Kb,
    src: SourceView,
    st: LowerView,
    body: Seq<char>,
    t: Seq<char>,
    raw: Seq<char>,
    line: int,
)
    ensures
        lower::other_line(kb, src, st, body, t, raw, line) matches Ok(l) ==> l.st == st,
        lower::call_line(kb, src, st, t, raw, line) matches Some(Ok(l)) ==> l.st == st,
{
}

#[verifier::spinoff_prover]
proof fn lemma_code_steps(
    kb: &Kb,
    src: SourceView,
    st: LowerView,
    body: Seq<char>,
    t: Seq<char>,
    raw: Seq<char>,
    line: int,
)
    ensures
        lower::code_line(kb, src, st, body, t, raw, line) matches Ok(l) ==> steps_blocks(st, l.st),
{
    reveal(lower::code_line);
    lemma_other_steps(kb, src, st, body, t, raw, line);
    let r = lower::code_line(kb, src, st, body, t, raw, line);
    if r is Ok {
        let l = r->Ok_0;
        if lower::call_line(kb, src, st, t, raw, line) is Some {
            assert(steps_blocks(st, l.st));
        } else if lower::if_line(kb, src, st, t, raw, line) is Some {
            lemma_if_steps(kb, src, st, t, raw, line);
        } else if lower::while_line(kb, src, st, t, raw, line) is Some {
            lemma_while_steps(kb, src, st, t, raw, line);
        } else if lower::loop_line(kb, src, st, t, raw, line) is Some {
            lemma_loop_steps(kb, src, st, t, raw, line);
        } else if lower::proc_line(src, st, t, line) is Some {
            lemma_proc_steps(src, st, t, line);
        }
    }
}

proof fn lemma_line_steps(kb: &Kb, src: SourceView, st: LowerView, raw: Seq<char>, line: int)
    ensures
        lower::lower_line(kb, src, st, raw, line) matches Ok(l) ==> steps_blocks(st, l.st),
{
    reveal(lower::lower_line);
    let body = lex::strip_comment(raw);
    let t = text::trim(body);
    lemma_code_steps(kb, src, st, body, t, raw, line);
}

proof fn lemma_numbers_stay(a: LowerView, b: LowerView)
    requires
        numbers_in_use(a),
        steps_blocks(a, b),
    ensures
        numbers_in_use(b),
        a.ctr <= b.ctr,
{
    let n = a.stack.len();
    assert forall|i: int| 0 <= i < b.stack.len() implies (block_number(#[trigger] b.stack[i])
        matches Some(x) ==> 0 <= x < b.ctr) by {
        if i < n - 1 {
            assert(b.stack[i] == b.stack.drop_last()[i] || b.stack[i] == a.stack[i]);
            assert(a.stack.drop_last()[i] == a.stack[i]);
        } else if i == n - 1 {
            assert(b.stack[i] == b.stack.last() || b.stack[i] == b.stack.drop_last()[i]);
            assert(a.stack[i] == a.stack.last());
        } else {
            assert(b.stack[i] == b.stack.last());
        }
    }
    assert forall|i: int, j: int|
        0 <= i < j < b.stack.len() && block_number(b.stack[i]) is Some && block_number(
            b.stack[j],
        ) is Some implies block_number(#[trigger] b.stack[i])->0 < block_number(
        #[trigger] b.stack[j],
    )->0 by {
        assert(b.stack[i] == b.stack.drop_last()[i]);
        assert(i < n - 1 ==> a.stack.drop_last()[i] == a.stack[i]);
        if j < b.stack.len() - 1 {
            assert(b.stack[j] == b.stack.drop_last()[j]);
            assert(j < n - 1 ==> a.stack.drop_last()[j] == a.stack[j]);
        } else {
            assert(b.stack[j] == b.stack.last());
            assert(j < n ==> (j == n - 1 ==> a.stack[j] == a.stack.last()));
        }
    }
}

/// Over a whole lowering no block number is used twice: the open blocks have numbers in rising
/// order, all below the next one, which never falls; a block that opens takes it.
pub proof fn law_block_numbers_are_not_reused(kb: &Kb, src: SourceView, m: nat, n: nat)
    requires
        m <= n,
        lower::lower_lines(kb, src, n) is Ok,
    ensures
        lower::lower_lines(kb, src, m) is Ok,
        numbers_in_use(lower::lower_lines(kb, src, n)->Ok_0.st),
        lower::lower_lines(kb, src, m)->Ok_0.st.ctr <= lower::lower_lines(kb, src, n)->Ok_0.st.ctr,
        n > 0 ==> steps_blocks(
            lower::lower_lines(kb, src, (n - 1) as nat)->Ok_0.st,
            lower::lower_lines(kb, src, n)->Ok_0.st,
        ),
    decreases n,
{
    if n > 0 {
        let k = (n - 1) as nat;
        let low = lower::lower_lines(kb, src, k)->Ok_0;
        law_block_numbers_are_not_reused(
            kb,
            src,
            if m < n {
                m
            } else {
                k
            },
            k,
        );
        lemma_line_steps(kb, src, low.st, src.lines[n - 1], n as int);
        lemma_numbers_stay(low.st, lower::lower_lines(kb, src, n)->Ok_0.st);
    }
}

/// Two blocks of different numbers have no label in common: the labels of a block hold its
/// number between its own prefix and an underscore.
pub proof fn law_block_labels_differ(
    prefix: Seq<char>,
    a: int,
    s: Seq<char>,
    b: int,
    t: Seq<char>,
)
    requires
        0 <= a,
        0 <= b,
        s.len() > 0 && s[0] == '_',
        t.len() > 0 && t[0] == '_',
        blocks::numbered(prefix, a, s) == blocks::numbered(prefix, b, t),
    ensures
        a == b,
        s == t,
{
    let x = text::signed_dec(a);
    let y = text::signed_dec(b);
    block_laws::lemma_dec_is_digits(a);
    block_laws::lemma_dec_is_digits(b);
    let l = blocks::numbered(prefix, a, s);
    let r = blocks::numbered(prefix, b, t);
    let p = prefix.len();
    if x.len() < y.len() {
        assert(l[p + x.len() as int] == s[0]);
        assert(r[p + x.len() as int] == y[x.len() as int]);
        assert(false);
    }
    if y.len() < x.len() {
        assert(r[p + y.len() as int] == t[0]);
        assert(l[p + y.len() as int] == x[y.len() as int]);
        assert(false);
    }
    assert(l.subrange(p as int, p + x.len() as int) =~= x);
    assert(r.subrange(p as int, p + y.len() as int) =~= y);
    block_laws::lemma_dec_differs(a, b);
    assert(l.skip(p + x.len() as int) =~= s);
    assert(r.skip(p + y.len() as int) =~= t);
}

// ── procedures ──────────────────────────────────────────────────────────────

proof fn lemma_innermost_proc(stack: Seq<BlockView>, k: int)
    requires
        0 <= k < stack.len(),
        stack[k] is Proc,
        forall|i: int| k < i < stack.len() ==> !(#[trigger] stack[i] is Proc),
    ensures
        stack[k] matches BlockView::Proc { uses, frame } && blocks::innermost_proc(stack) == Some(
            (uses, frame),
        ),
    decreases stack.len(),
{
    if k < stack.len() - 1 {
        assert(!(stack[stack.len() - 1] is Proc));
        assert(stack.drop_last()[k] == stack[k]);
        lemma_innermost_proc(stack.drop_last(), k);
    }
}

/// A procedure ends as it began. Its header emits the prologue that saves the registers of
/// its `uses` list; a `ret` or `.ret` anywhere in it, however deep in open blocks, and its
/// `endproc` emit the epilogue of that same list and frame.
pub proof fn law_procedure_ends_as_it_began(
    src: SourceView,
    st: LowerView,
    rest: Seq<char>,
    line: int,
    inner: Seq<BlockView>,
    line2: int,
)
    requires
        lower::proc_open_line(src, st, rest, line) is Ok,
        forall|i: int| 0 <= i < inner.len() ==> !(#[trigger] inner[i] is Proc),
    ensures
        ({
            let h = contract::proc_header(rest);
            let frame = if h.frame {
                blocks::frame_from(src.lines, line, 0)
            } else {
                0
            };
            let open = lower::proc_open_line(src, st, rest, line)->Ok_0;
            let deep = LowerView { stack: open.st.stack + inner, ..open.st };
            &&& open.text == blocks::prologue(h.name, h.uses, frame)
            &&& lower::proc_line(src, deep, "ret"@, line2) matches Some(Ok(l)) && l.text
                == blocks::epilogue(h.uses, frame) && l.st == deep
            &&& lower::proc_line(src, deep, ".ret"@, line2) matches Some(Ok(l)) && l.text
                == blocks::epilogue(h.uses, frame) && l.st == deep
            &&& lower::proc_line(src, open.st, "endproc"@, line2) matches Some(Ok(l)) && l.text
                == blocks::epilogue(h.uses, frame) && l.st == st
        }),
{
    let open = lower::proc_open_line(src, st, rest, line)->Ok_0;
    let deep = LowerView { stack: open.st.stack + inner, ..open.st };
    let k = open.st.stack.len() - 1;
    assert forall|i: int| k < i < deep.stack.len() implies !(#[trigger] deep.stack[i] is Proc) by {
        assert(deep.stack[i] == inner[i - k - 1]);
    }
    assert(deep.stack[k] == open.st.stack[k]);
    lemma_innermost_proc(deep.stack, k);
    lemma_pushed(st, open.st.stack.last());
    reveal_strlit("ret");
    reveal_strlit(".ret");
    reveal_strlit("endproc");
    reveal_strlit("proc");
    assert("ret"@[0] == 'r' && ".ret"@[0] == '.' && "endproc"@[0] == 'e' && "proc"@[0] == 'p');
    assert("endproc"@.take(4)[0] == 'e');
    assert(".ret"@.take(4)[0] == '.');
    assert(lex::strip_keyword("ret"@, "proc"@) is None);
    assert(lex::strip_keyword(".ret"@, "proc"@) is None);
    assert(lex::strip_keyword("endproc"@, "proc"@) is None);
}

// ── frames ──────────────────────────────────────────────────────────────────

/// Line `e` is the first `endproc` from line `i` on, with no other procedure in between.
pub open spec fn body_ends(v: Seq<Seq<char>>, i: int, e: int) -> bool {
    &&& i <= e < v.len()
    &&& clobber_laws::statement(v[e]) == "endproc"@
    &&& forall|k: int|
        i <= k < e ==> clobber_laws::statement(#[trigger] v[k]) != "endproc"@ && lex::strip_keyword(
            clobber_laws::statement(v[k]),
            "proc"@,
        ) is None
}

proof fn lemma_frame_covers(v: Seq<Seq<char>>, i: int, e: int, most: int) -> (all: int)
    requires
        0 <= i,
        body_ends(v, i, e),
        most >= 0,
    ensures
        blocks::frame_from(v, i, most) == calls::frame_bytes(all),
        all >= most,
        forall|k: int|
            i <= k < e ==> (calls::marshalled_args(clobber_laws::statement(#[trigger] v[k]))
                matches Some(n) ==> n <= all),
    decreases e - i,
{
    let t = clobber_laws::statement(v[i]);
    if i == e {
        reveal_strlit("endproc");
        reveal_strlit("proc");
        assert("endproc"@.take(4)[0] == 'e' && "proc"@[0] == 'p');
        most
    } else {
        let next = match calls::marshalled_args(t) {
            Some(n) => if n > most {
                n
            } else {
                most
            },
            None => most,
        };
        assert(clobber_laws::statement(v[i]) != "endproc"@);
        let all = lemma_frame_covers(v, i + 1, e, next);
        assert forall|k: int| i <= k < e implies (calls::marshalled_args(
            clobber_laws::statement(#[trigger] v[k]),
        ) matches Some(n) ==> n <= all) by {
            if k > i {
                assert(i + 1 <= k < e);
            }
        }
        all
    }
}

/// The frame of a framed procedure keeps the stack aligned, and has room for the shadow space
/// and the stack arguments of every `invoke` and `comcall` in its body.
pub proof fn law_frame_suffices_for_every_call(v: Seq<Seq<char>>, i: int, e: int, k: int)
    requires
        0 <= i,
        body_ends(v, i, e),
        i <= k < e,
    ensures
        blocks::frame_from(v, i, 0) % 16 == 0,
        blocks::frame_from(v, i, 0) >= 32,
        lex::strip_keyword(clobber_laws::statement(v[k]), "invoke"@) matches Some(rest)
            ==> blocks::frame_from(v, i, 0) >= 32 + 8 * (lex::trim_each(
            lex::split_commas(rest).drop_first(),
        ).len() - 4),
        lex::strip_keyword(clobber_laws::statement(v[k]), "invoke"@) is None ==> (
        lex::strip_keyword(clobber_laws::statement(v[k]), "comcall"@) matches Some(rest)
            ==> lex::split_commas(rest).len() >= 3 ==> blocks::frame_from(v, i, 0) >= 32 + 8 * (
        call_laws::com_args(rest).len() - 4)),
{
    let all = lemma_frame_covers(v, i, e, 0);
    calls::law_frame_is_aligned_and_sufficient(all);
    let t = clobber_laws::statement(v[k]);
    if let Some(rest) = lex::strip_keyword(t, "invoke"@) {
        let parts = lex::split_commas(rest);
        lex::law_split_commas_joins_back(rest);
        assert(lex::trim_each(parts.drop_first()).len() == parts.len() - 1);
    } else if let Some(rest) = lex::strip_keyword(t, "comcall"@) {
        let parts = lex::split_commas(rest);
        if parts.len() >= 3 {
            assert(lex::trim_each(parts.skip(3)).len() == parts.len() - 3);
        }
    }
}

} // verus!
