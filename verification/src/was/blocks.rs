//! High-level blocks: conditions, loops and procedures, and the labels and
//! branches they lower to.
use crate::text;
use crate::was::calls;
use crate::was::lex;
use crate::was::operands;
use crate::text::{
    chars_of, dec_of, index_of_text, is, push_all, push_str, push_text, signed_dec_of, trimmed,
};
use crate::was::calls::{call_arg_count, proc_frame_size};
use crate::was::lex::{after_keyword, without_comment};
use crate::was::operands::resolve_operands;
use crate::winkb::kb::Kb;
use vstd::prelude::*;
use vstd::slice::slice_subrange;

verus! {

// ── conditions ──────────────────────────────────────────────────────────────

/// The relational operators in the order they are looked for: longer ones first,
/// so that `s<=` beats `s<` beats `<`.
pub open spec fn relational_operators() -> Seq<Seq<char>> {
    seq!["s<="@, "s>="@, "<="@, ">="@, "=="@, "!="@, "s<"@, "s>"@, "<"@, ">"@]
}

/// The condition `cond` split at the first of the operators `ops` from `k` on
/// that occurs in it.
pub open spec fn split_by(cond: Seq<char>, ops: Seq<Seq<char>>, k: int) -> Option<
    (Seq<char>, Seq<char>, Seq<char>),
>
    decreases ops.len() - k,
{
    if k >= ops.len() {
        None
    } else {
        let p = text::find_text(cond, ops[k]);
        if p >= 0 {
            Some((cond.take(p), ops[k], cond.skip(p + ops[k].len())))
        } else {
            split_by(cond, ops, k + 1)
        }
    }
}

/// A condition as left side, operator and right side.
pub open spec fn condition_parts(cond: Seq<char>) -> Option<(Seq<char>, Seq<char>, Seq<char>)> {
    split_by(cond, relational_operators(), 0)
}

/// Split a condition into `(lhs, relop, rhs)`.
pub fn split_condition<'a>(cond: &'a [char]) -> (r: Option<(&'a [char], &'static str, &'a [char])>)
    ensures
        (match r {
            Some((a, o, b)) => Some((a@, o@, b@)),
            None => None,
        }) == condition_parts(cond@),
{
    let ops: [&'static str; 10] = ["s<=", "s>=", "<=", ">=", "==", "!=", "s<", "s>", "<", ">"];
    let ghost ov = relational_operators();
    let mut k: usize = 0;
    while k < 10
        invariant
            ov == relational_operators(),
            ops@ == seq!["s<=", "s>=", "<=", ">=", "==", "!=", "s<", "s>", "<", ">"],
            k <= 10,
            condition_parts(cond@) == split_by(cond@, ov, k as int),
        decreases 10 - k,
    {
        let op: &'static str = ops[k];
        assert(op@ == ov[k as int]);
        let pat = chars_of(op);
        match index_of_text(cond, &pat) {
            Some(p) => {
                let n: usize = pat.len();
                let size: usize = cond.len();
                assert(p + n <= size);
                return Some(
                    (slice_subrange(cond, 0, p), op, slice_subrange(cond, p + n, size)),
                );
            },
            None => {},
        }
        k += 1;
    }
    None
}

/// The branch taken when a condition with the operator `relop` is `want`.
/// Unsigned by default; an `s`-prefixed operator picks the signed branch.
pub open spec fn branch_for(relop: Seq<char>, want: bool) -> Option<Seq<char>> {
    if relop == "<="@ {
        Some(if want { "jbe"@ } else { "ja"@ })
    } else if relop == "<"@ {
        Some(if want { "jb"@ } else { "jae"@ })
    } else if relop == ">="@ {
        Some(if want { "jae"@ } else { "jb"@ })
    } else if relop == ">"@ {
        Some(if want { "ja"@ } else { "jbe"@ })
    } else if relop == "s<="@ {
        Some(if want { "jle"@ } else { "jg"@ })
    } else if relop == "s<"@ {
        Some(if want { "jl"@ } else { "jge"@ })
    } else if relop == "s>="@ {
        Some(if want { "jge"@ } else { "jl"@ })
    } else if relop == "s>"@ {
        Some(if want { "jg"@ } else { "jle"@ })
    } else if relop == "=="@ {
        Some(if want { "je"@ } else { "jne"@ })
    } else if relop == "!="@ {
        Some(if want { "jne"@ } else { "je"@ })
    } else {
        None
    }
}

pub fn cond_branch(relop: &[char], want: bool) -> (r: Option<&'static str>)
    ensures
        (match r {
            Some(b) => Some(b@),
            None => None,
        }) == branch_for(relop@, want),
{
    if is(relop, "<=") {
        Some(if want { "jbe" } else { "ja" })
    } else if is(relop, "<") {
        Some(if want { "jb" } else { "jae" })
    } else if is(relop, ">=") {
        Some(if want { "jae" } else { "jb" })
    } else if is(relop, ">") {
        Some(if want { "ja" } else { "jbe" })
    } else if is(relop, "s<=") {
        Some(if want { "jle" } else { "jg" })
    } else if is(relop, "s<") {
        Some(if want { "jl" } else { "jge" })
    } else if is(relop, "s>=") {
        Some(if want { "jge" } else { "jl" })
    } else if is(relop, "s>") {
        Some(if want { "jg" } else { "jle" })
    } else if is(relop, "==") {
        Some(if want { "je" } else { "jne" })
    } else if is(relop, "!=") {
        Some(if want { "jne" } else { "je" })
    } else {
        None
    }
}

/// The comparison and the branch to `target`, taken when `cond` is `want`.
pub open spec fn condition_text(
    kb: &Kb,
    labels: Seq<Seq<char>>,
    cond: Seq<char>,
    target: Seq<char>,
    want: bool,
) -> Result<Seq<char>, Seq<char>> {
    match condition_parts(cond) {
        None => Err("condition wants `reg <relop> value`, got `"@ + cond + "`"@),
        Some((lhs, relop, rhs)) => match branch_for(relop, want) {
            None => Err("unknown relational operator `"@ + relop + "`"@),
            Some(branch) => match operands::resolved(kb, labels, text::trim(lhs)) {
                Err(m) => Err(m),
                Ok(l) => match operands::resolved(kb, labels, text::trim(rhs)) {
                    Err(m) => Err(m),
                    Ok(r) => Ok(
                        "  cmp "@ + l + ", "@ + r + "\n  "@ + branch + " "@ + target + "\n"@,
                    ),
                },
            },
        },
    }
}

/// Lower `reg <relop> val` to `cmp reg, val` plus the branch to `target`, taken
/// when the condition is `want`. `want == false` skips a clause or leaves a loop;
/// `want == true` is the `.break if` / `.continue if` form.
pub fn cond_jump(cond: &[char], target: &[char], want: bool, kb: &Kb, labels: &Vec<Vec<char>>) -> (r:
    Result<Vec<char>, String>)
    ensures
        operands::result_view(r) == condition_text(kb, text::texts(labels@), cond@, target@, want),
{
    let (lhs, relop, rhs) = match split_condition(cond) {
        Some(x) => x,
        None => {
            let mut m = "condition wants `reg <relop> value`, got `".to_owned();
            push_text(&mut m, cond);
            m.append("`");
            return Err(m);
        },
    };
    let rc = chars_of(relop);
    let branch = match cond_branch(&rc, want) {
        Some(b) => b,
        None => {
            let mut m = "unknown relational operator `".to_owned();
            m.append(relop);
            m.append("`");
            return Err(m);
        },
    };
    let l = match resolve_operands(trimmed(lhs), kb, labels) {
        Ok(x) => x,
        Err(m) => return Err(m),
    };
    let r = match resolve_operands(trimmed(rhs), kb, labels) {
        Ok(x) => x,
        Err(m) => return Err(m),
    };
    let mut o = chars_of("  cmp ");
    push_all(&mut o, &l);
    push_str(&mut o, ", ");
    push_all(&mut o, &r);
    push_str(&mut o, "\n  ");
    push_str(&mut o, branch);
    push_str(&mut o, " ");
    push_all(&mut o, target);
    push_str(&mut o, "\n");
    Ok(o)
}

// ── the block stack ─────────────────────────────────────────────────────────

/// An open high-level block. `If` tracks its next clause-label number and whether
/// an `.else` has been seen; loops carry only their id, which their labels are
/// derived from; `Proc` the registers it saved and the bytes it reserved (0 for
/// an unframed one).
pub enum BlockView {
    If { id: int, next: int, else_seen: bool },
    While { id: int },
    Repeat { id: int },
    For { id: int, reg: Seq<char> },
    Forever { id: int },
    Proc { uses: Seq<Seq<char>>, frame: int },
}

/// An open high-level block.
pub enum Block {
    If { id: usize, next: usize, else_seen: bool },
    While { id: usize },
    Repeat { id: usize },
    For { id: usize, reg: Vec<char> },
    Forever { id: usize },
    Proc { uses: Vec<String>, frame: u128 },
}

impl View for Block {
    type V = BlockView;

    open spec fn view(&self) -> BlockView {
        match *self {
            Block::If { id, next, else_seen } => BlockView::If {
                id: id as int,
                next: next as int,
                else_seen,
            },
            Block::While { id } => BlockView::While { id: id as int },
            Block::Repeat { id } => BlockView::Repeat { id: id as int },
            Block::For { id, reg } => BlockView::For { id: id as int, reg: reg@ },
            Block::Forever { id } => BlockView::Forever { id: id as int },
            Block::Proc { uses, frame } => BlockView::Proc {
                uses: text::strings(uses@),
                frame: frame as int,
            },
        }
    }
}

/// The views of a stack of blocks.
pub open spec fn stack_view(v: Seq<Block>) -> Seq<BlockView> {
    Seq::new(v.len(), |i: int| v[i]@)
}

/// `prefix`, the number `id`, `suffix`.
pub open spec fn numbered(prefix: Seq<char>, id: int, suffix: Seq<char>) -> Seq<char> {
    prefix + text::signed_dec(id) + suffix
}

pub fn numbered_text(prefix: &str, id: usize, suffix: &str) -> (r: Vec<char>)
    ensures
        r@ == numbered(prefix@, id as int, suffix@),
{
    let mut o = chars_of(prefix);
    let d = signed_dec_of(id as i128);
    push_all(&mut o, &d);
    push_str(&mut o, suffix);
    o
}

/// The label of clause `n` of the `.if` block `id`.
pub open spec fn clause_label(id: int, n: int) -> Seq<char> {
    "__if"@ + text::signed_dec(id) + "_"@ + text::signed_dec(n)
}

pub fn clause_label_text(id: usize, n: u128) -> (r: Vec<char>)
    ensures
        r@ == clause_label(id as int, n as int),
{
    let mut o = chars_of("__if");
    let d = signed_dec_of(id as i128);
    push_all(&mut o, &d);
    push_str(&mut o, "_");
    let e = dec_of(n);
    push_all(&mut o, &e);
    o
}

/// The labels that `.continue` and `.break` jump to, if the block is a loop:
/// `.continue` re-evaluates the test (a `.for` still runs its increment),
/// `.break` leaves.
pub open spec fn loop_labels(b: BlockView) -> Option<(Seq<char>, Seq<char>)> {
    match b {
        BlockView::While { id } => Some(
            (numbered("__while"@, id, "_top"@), numbered("__while"@, id, "_end"@)),
        ),
        BlockView::Repeat { id } => Some(
            (numbered("__repeat"@, id, "_test"@), numbered("__repeat"@, id, "_end"@)),
        ),
        BlockView::For { id, .. } => Some(
            (numbered("__for"@, id, "_cont"@), numbered("__for"@, id, "_end"@)),
        ),
        BlockView::Forever { id } => Some(
            (numbered("__forever"@, id, "_top"@), numbered("__forever"@, id, "_end"@)),
        ),
        _ => None,
    }
}

impl Block {
    /// `(continue_target, break_target)` if this block is a loop.
    pub fn loop_targets(&self) -> (r: Option<(Vec<char>, Vec<char>)>)
        ensures
            (match r {
                Some((c, e)) => Some((c@, e@)),
                None => None,
            }) == loop_labels(self@),
    {
        match self {
            Block::While { id } => Some(
                (numbered_text("__while", *id, "_top"), numbered_text("__while", *id, "_end")),
            ),
            Block::Repeat { id } => Some(
                (numbered_text("__repeat", *id, "_test"), numbered_text("__repeat", *id, "_end")),
            ),
            Block::For { id, .. } => Some(
                (numbered_text("__for", *id, "_cont"), numbered_text("__for", *id, "_end")),
            ),
            Block::Forever { id } => Some(
                (numbered_text("__forever", *id, "_top"), numbered_text("__forever", *id, "_end")),
            ),
            _ => None,
        }
    }
}

/// The labels of the innermost loop of the stack.
pub open spec fn innermost_loop(stack: Seq<BlockView>) -> Option<(Seq<char>, Seq<char>)>
    decreases stack.len(),
{
    if stack.len() == 0 {
        None
    } else {
        match loop_labels(stack.last()) {
            Some(x) => Some(x),
            None => innermost_loop(stack.drop_last()),
        }
    }
}

pub fn innermost_targets(stack: &Vec<Block>) -> (r: Option<(Vec<char>, Vec<char>)>)
    ensures
        (match r {
            Some((c, e)) => Some((c@, e@)),
            None => None,
        }) == innermost_loop(stack_view(stack@)),
{
    let ghost sv = stack_view(stack@);
    let mut n: usize = stack.len();
    assert(sv.take(sv.len() as int) =~= sv);
    while n > 0
        invariant
            sv == stack_view(stack@),
            n <= stack@.len(),
            innermost_loop(sv) == innermost_loop(sv.take(n as int)),
        decreases n,
    {
        assert(sv.take(n as int).last() == stack@[n - 1]@);
        assert(sv.take(n as int).drop_last() =~= sv.take(n - 1));
        match stack[n - 1].loop_targets() {
            Some(x) => return Some(x),
            None => {},
        }
        n -= 1;
    }
    None
}

/// The innermost procedure of the stack: its saved registers and its frame.
pub open spec fn innermost_proc(stack: Seq<BlockView>) -> Option<(Seq<Seq<char>>, int)>
    decreases stack.len(),
{
    if stack.len() == 0 {
        None
    } else {
        match stack.last() {
            BlockView::Proc { uses, frame } => Some((uses, frame)),
            _ => innermost_proc(stack.drop_last()),
        }
    }
}

/// The position of the innermost procedure on the stack.
pub fn find_proc(stack: &Vec<Block>) -> (r: Option<usize>)
    ensures
        r matches Some(i) ==> i < stack@.len() && (stack@[i as int]@ matches BlockView::Proc {
            uses,
            frame,
        } && innermost_proc(stack_view(stack@)) == Some((uses, frame))),
        r is None ==> innermost_proc(stack_view(stack@)) is None,
{
    let ghost sv = stack_view(stack@);
    let mut n: usize = stack.len();
    assert(sv.take(sv.len() as int) =~= sv);
    while n > 0
        invariant
            sv == stack_view(stack@),
            n <= stack@.len(),
            innermost_proc(sv) == innermost_proc(sv.take(n as int)),
        decreases n,
    {
        assert(sv.take(n as int).last() == stack@[n - 1]@);
        assert(sv.take(n as int).drop_last() =~= sv.take(n - 1));
        match &stack[n - 1] {
            Block::Proc { .. } => return Some(n - 1),
            _ => {},
        }
        n -= 1;
    }
    None
}

/// A framed procedure encloses the line: calls inside it use the lean form.
pub open spec fn framed(stack: Seq<BlockView>) -> bool {
    exists|i: int| 0 <= i < stack.len() && is_framed(#[trigger] stack[i])
}

pub open spec fn is_framed(b: BlockView) -> bool {
    b matches BlockView::Proc { frame, .. } && frame > 0
}

/// Is there an enclosing framed procedure, so that a call inside reuses its
/// reserved frame?
pub fn in_framed_proc(stack: &Vec<Block>) -> (r: bool)
    ensures
        r == framed(stack_view(stack@)),
{
    let ghost sv = stack_view(stack@);
    let mut i: usize = 0;
    while i < stack.len()
        invariant
            sv == stack_view(stack@),
            i <= stack@.len(),
            forall|j: int| 0 <= j < i ==> !is_framed(#[trigger] sv[j]),
        decreases stack@.len() - i,
    {
        assert(sv[i as int] == stack@[i as int]@);
        match &stack[i] {
            Block::Proc { frame, .. } => {
                if *frame > 0 {
                    assert(is_framed(sv[i as int]));
                    return true;
                }
            },
            _ => {},
        }
        i += 1;
    }
    false
}

// ── procedures ──────────────────────────────────────────────────────────────

/// The instructions that restore the registers `uses`, the last saved first.
pub open spec fn pops(uses: Seq<Seq<char>>) -> Seq<char>
    decreases uses.len(),
{
    if uses.len() == 0 {
        Seq::empty()
    } else {
        "  pop "@ + uses.last() + "\n"@ + pops(uses.drop_last())
    }
}

/// The instructions that save the registers `uses`, in order.
pub open spec fn pushes(uses: Seq<Seq<char>>) -> Seq<char>
    decreases uses.len(),
{
    if uses.len() == 0 {
        Seq::empty()
    } else {
        pushes(uses.drop_last()) + ("  push "@ + uses.last() + "\n"@)
    }
}

/// The epilogue of a procedure: release the frame, restore the saved registers in
/// reverse, return.
pub open spec fn epilogue(uses: Seq<Seq<char>>, frame: int) -> Seq<char> {
    calls::only_if(frame > 0, "  mov rsp, rbp\n  pop rbp\n"@) + pops(uses) + "  ret\n"@
}

/// The prologue of the procedure `name`: its label, the saved registers, and the
/// frame, aligned once with an `rbp` anchor.
pub open spec fn prologue(name: Seq<char>, uses: Seq<Seq<char>>, frame: int) -> Seq<char> {
    name + ":\n"@ + pushes(uses) + calls::only_if(
        frame > 0,
        "  push rbp\n  mov rbp, rsp\n  and rsp, -16\n"@ + "  sub rsp, "@ + text::signed_dec(frame)
            + "\n"@,
    )
}

/// The epilogue of a procedure.
pub fn proc_epilogue(uses: &Vec<String>, frame: u128) -> (r: Vec<char>)
    ensures
        r@ == epilogue(text::strings(uses@), frame as int),
{
    let ghost uv = text::strings(uses@);
    let mut o: Vec<char> = Vec::new();
    if frame > 0 {
        push_str(&mut o, "  mov rsp, rbp\n  pop rbp\n");
    }
    assert(o@ =~= calls::only_if(frame > 0, "  mov rsp, rbp\n  pop rbp\n"@));
    let ghost head = o@;
    let mut n: usize = uses.len();
    assert(uv.take(uv.len() as int) =~= uv);
    assert(o@ + pops(uv) =~= head + pops(uv));
    while n > 0
        invariant
            uv == text::strings(uses@),
            n <= uses@.len(),
            o@ + pops(uv.take(n as int)) =~= head + pops(uv),
        decreases n,
    {
        let ghost before = o@;
        assert(uv.take(n as int).last() == uses@[n - 1]@);
        assert(uv.take(n as int).drop_last() =~= uv.take(n - 1));
        push_str(&mut o, "  pop ");
        push_str(&mut o, uses[n - 1].as_str());
        push_str(&mut o, "\n");
        assert(o@ + pops(uv.take(n - 1)) =~= before + ("  pop "@ + uses@[n - 1]@ + "\n"@ + pops(
            uv.take(n - 1),
        )));
        n -= 1;
    }
    assert(o@ =~= head + pops(uv));
    push_str(&mut o, "  ret\n");
    o
}

/// The prologue of a procedure.
pub fn proc_prologue(name: &str, uses: &Vec<String>, frame: u128) -> (r: Vec<char>)
    ensures
        r@ == prologue(name@, text::strings(uses@), frame as int),
{
    let ghost uv = text::strings(uses@);
    let mut o = chars_of(name);
    push_str(&mut o, ":\n");
    let ghost head = o@;
    let mut i: usize = 0;
    assert(o@ =~= head + pushes(uv.take(0)));
    while i < uses.len()
        invariant
            uv == text::strings(uses@),
            i <= uses@.len(),
            o@ =~= head + pushes(uv.take(i as int)),
        decreases uses@.len() - i,
    {
        assert(uv.take(i as int + 1).drop_last() =~= uv.take(i as int));
        push_str(&mut o, "  push ");
        push_str(&mut o, uses[i].as_str());
        push_str(&mut o, "\n");
        i += 1;
    }
    assert(uv.take(uv.len() as int) =~= uv);
    if frame > 0 {
        let mut p = chars_of("  push rbp\n  mov rbp, rsp\n  and rsp, -16\n");
        push_str(&mut p, "  sub rsp, ");
        let d = dec_of(frame);
        push_all(&mut p, &d);
        push_str(&mut p, "\n");
        push_all(&mut o, &p);
    } else {
        assert(o@ =~= o@ + Seq::<char>::empty());
    }
    o
}

/// The frame of the framed procedure whose body starts at line `i` of `v`, given
/// the most arguments seen so far: sized for the largest call up to its
/// `endproc`, and none where it has no `endproc` of its own.
pub open spec fn frame_from(v: Seq<Seq<char>>, i: int, most: int) -> int
    decreases v.len() - i,
{
    if i >= v.len() {
        0
    } else {
        let t = text::trim(lex::strip_comment(v[i]));
        if lex::strip_keyword(t, "proc"@) is Some {
            0
        } else if t == "endproc"@ {
            calls::frame_bytes(most)
        } else {
            frame_from(
                v,
                i + 1,
                match calls::marshalled_args(t) {
                    Some(n) => if n > most {
                        n
                    } else {
                        most
                    },
                    None => most,
                },
            )
        }
    }
}

/// The frame of the framed procedure whose header is on line `start`.
pub fn frame_of(lv: &Vec<&[char]>, start: usize) -> (r: u128)
    requires
        start <= lv@.len(),
    ensures
        r == frame_from(text::slices(lv@), start as int, 0),
{
    let ghost all = text::slices(lv@);
    let mut most: usize = 0;
    let mut i: usize = start;
    while i < lv.len()
        invariant
            all == text::slices(lv@),
            i <= lv@.len(),
            frame_from(all, start as int, 0) == frame_from(all, i as int, most as int),
        decreases lv@.len() - i,
    {
        assert(all[i as int] == lv@[i as int]@);
        let t = trimmed(without_comment(lv[i]));
        if after_keyword(t, "proc").is_some() {
            return 0;
        }
        if is(t, "endproc") {
            return proc_frame_size(most);
        }
        match call_arg_count(t) {
            Some(n) => {
                if n > most {
                    most = n;
                }
            },
            None => {},
        }
        i += 1;
    }
    0
}

} // verus!
