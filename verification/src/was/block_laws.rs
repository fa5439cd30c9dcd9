//! What blocks and procedures do once they are lowered: the text is read as a program of
//! the machine model, and the program is held to what the source says.
use crate::text;
use crate::was::blocks;
use crate::was::lex;
use crate::was::lower;
use crate::was::machine;
use crate::was::operands;
use crate::studio::outline::Label;
use crate::was::blocks::BlockView;
use crate::was::lower::{LowerView, SourceView};
use crate::was::machine::{Instr, Machine};
use crate::winkb::kb::Kb;
use vstd::prelude::*;

verus! {

// ── conditions ──────────────────────────────────────────────────────────────

/// What a relational operator says of two values.
pub open spec fn holds(op: Seq<char>, a: int, b: int) -> bool {
    ||| op == "=="@ && machine::unsigned(a) == machine::unsigned(b)
    ||| op == "!="@ && machine::unsigned(a) != machine::unsigned(b)
    ||| op == "<"@ && machine::unsigned(a) < machine::unsigned(b)
    ||| op == "<="@ && machine::unsigned(a) <= machine::unsigned(b)
    ||| op == ">"@ && machine::unsigned(a) > machine::unsigned(b)
    ||| op == ">="@ && machine::unsigned(a) >= machine::unsigned(b)
    ||| op == "s<"@ && machine::signed(a) < machine::signed(b)
    ||| op == "s<="@ && machine::signed(a) <= machine::signed(b)
    ||| op == "s>"@ && machine::signed(a) > machine::signed(b)
    ||| op == "s>="@ && machine::signed(a) >= machine::signed(b)
}

/// The operators of a condition.
pub open spec fn is_operator(op: Seq<char>) -> bool {
    op == "=="@ || op == "!="@ || op == "<"@ || op == "<="@ || op == ">"@ || op == ">="@ || op
        == "s<"@ || op == "s<="@ || op == "s>"@ || op == "s>="@
}

proof fn lemma_operators()
    ensures
        "=="@ == seq!['=', '='],
        "!="@ == seq!['!', '='],
        "<"@ == seq!['<'],
        "<="@ == seq!['<', '='],
        ">"@ == seq!['>'],
        ">="@ == seq!['>', '='],
        "s<"@ == seq!['s', '<'],
        "s<="@ == seq!['s', '<', '='],
        "s>"@ == seq!['s', '>'],
        "s>="@ == seq!['s', '>', '='],
{
    reveal_strlit("==");
    reveal_strlit("!=");
    reveal_strlit("<");
    reveal_strlit("<=");
    reveal_strlit(">");
    reveal_strlit(">=");
    reveal_strlit("s<");
    reveal_strlit("s<=");
    reveal_strlit("s>");
    reveal_strlit("s>=");
    assert("=="@ =~= seq!['=', '=']);
    assert("!="@ =~= seq!['!', '=']);
    assert("<"@ =~= seq!['<']);
    assert("<="@ =~= seq!['<', '=']);
    assert(">"@ =~= seq!['>']);
    assert(">="@ =~= seq!['>', '=']);
    assert("s<"@ =~= seq!['s', '<']);
    assert("s<="@ =~= seq!['s', '<', '=']);
    assert("s>"@ =~= seq!['s', '>']);
    assert("s>="@ =~= seq!['s', '>', '=']);
}

proof fn lemma_branches()
    ensures
        "je"@ == seq!['j', 'e'],
        "jne"@ == seq!['j', 'n', 'e'],
        "ja"@ == seq!['j', 'a'],
        "jae"@ == seq!['j', 'a', 'e'],
        "jb"@ == seq!['j', 'b'],
        "jbe"@ == seq!['j', 'b', 'e'],
        "jg"@ == seq!['j', 'g'],
        "jge"@ == seq!['j', 'g', 'e'],
        "jl"@ == seq!['j', 'l'],
        "jle"@ == seq!['j', 'l', 'e'],
{
    reveal_strlit("je");
    reveal_strlit("jne");
    reveal_strlit("ja");
    reveal_strlit("jae");
    reveal_strlit("jb");
    reveal_strlit("jbe");
    reveal_strlit("jg");
    reveal_strlit("jge");
    reveal_strlit("jl");
    reveal_strlit("jle");
    assert("je"@ =~= seq!['j', 'e']);
    assert("jne"@ =~= seq!['j', 'n', 'e']);
    assert("ja"@ =~= seq!['j', 'a']);
    assert("jae"@ =~= seq!['j', 'a', 'e']);
    assert("jb"@ =~= seq!['j', 'b']);
    assert("jbe"@ =~= seq!['j', 'b', 'e']);
    assert("jg"@ =~= seq!['j', 'g']);
    assert("jge"@ =~= seq!['j', 'g', 'e']);
    assert("jl"@ =~= seq!['j', 'l']);
    assert("jle"@ =~= seq!['j', 'l', 'e']);
}

/// Two texts that differ in length or in one of their first three characters.
proof fn lemma_distinct_words()
    ensures
        forall|i: int, j: int|
            0 <= i < j < 10 ==> #[trigger] operator_list()[i] != #[trigger] operator_list()[j],
        forall|i: int, j: int|
            0 <= i < j < 10 ==> #[trigger] branch_list()[i] != #[trigger] branch_list()[j],
{
    lemma_operators();
    lemma_branches();
    let v = operator_list();
    assert forall|i: int, j: int| 0 <= i < j < 10 implies #[trigger] v[i] != #[trigger] v[j] by {
        if v[i].len() == v[j].len() && v[i] == v[j] {
            assert(v[i][0] == v[j][0]);
            assert(v[i].len() > 1 ==> v[i][1] == v[j][1]);
        }
    }
    let w = branch_list();
    assert forall|i: int, j: int| 0 <= i < j < 10 implies #[trigger] w[i] != #[trigger] w[j] by {
        if w[i].len() == w[j].len() && w[i] == w[j] {
            assert(w[i][1] == w[j][1]);
        }
    }
}

spec fn operator_list() -> Seq<Seq<char>> {
    seq!["=="@, "!="@, "<"@, "<="@, ">"@, ">="@, "s<"@, "s<="@, "s>"@, "s>="@]
}

spec fn branch_list() -> Seq<Seq<char>> {
    seq!["je"@, "jne"@, "ja"@, "jae"@, "jb"@, "jbe"@, "jg"@, "jge"@, "jl"@, "jle"@]
}

/// Every operator has a branch, and on every two values the branch is taken exactly where
/// the condition has the wanted outcome. Nothing else has a branch.
pub proof fn law_branch_follows_condition(op: Seq<char>, want: bool, a: int, b: int)
    ensures
        blocks::branch_for(op, want) is Some <==> is_operator(op),
        blocks::branch_for(op, want) matches Some(mn) ==> machine::taken(mn, a, b) == (holds(op, a, b) == want),
{
    lemma_distinct_words();
    let v = operator_list();
    assert(v[0] == "=="@ && v[1] == "!="@ && v[2] == "<"@ && v[3] == "<="@ && v[4] == ">"@ && v[5]
        == ">="@ && v[6] == "s<"@ && v[7] == "s<="@ && v[8] == "s>"@ && v[9] == "s>="@);
    let w = branch_list();
    assert(w[0] == "je"@ && w[1] == "jne"@ && w[2] == "ja"@ && w[3] == "jae"@ && w[4] == "jb"@ && w[5]
        == "jbe"@ && w[6] == "jg"@ && w[7] == "jge"@ && w[8] == "jl"@ && w[9] == "jle"@);
    if machine::unsigned(a) == machine::unsigned(b) {
        assert(machine::signed(a) == machine::signed(b));
    }
}

/// A character that an operator is made of (an `s` in front aside).
pub open spec fn is_relational(c: char) -> bool {
    c == '<' || c == '>' || c == '=' || c == '!'
}

/// `s` holds no operator.
pub open spec fn no_relation(s: Seq<char>) -> bool {
    forall|i: int| 0 <= i < s.len() ==> !is_relational(#[trigger] s[i])
}

proof fn lemma_occurrence(c: Seq<char>, p: Seq<char>, q: int)
    requires
        text::occurs_at(c, p, q),
    ensures
        forall|k: int| 0 <= k < p.len() ==> #[trigger] c[q + k] == p[k],
{
    assert forall|k: int| 0 <= k < p.len() implies #[trigger] c[q + k] == p[k] by {
        assert(c.subrange(q, q + p.len())[k] == p[k]);
    }
}

proof fn lemma_operator_absent(lhs: Seq<char>, op: Seq<char>, rhs: Seq<char>, p: Seq<char>)
    requires
        is_operator(op),
        is_operator(p),
        no_relation(lhs),
        no_relation(rhs),
        op[0] != 's' ==> lhs.len() == 0 || lhs.last() != 's',
        p.len() > op.len() || (p.len() == op.len() && p != op) || (p.len() < op.len() && p[0] == 's'
            && op[0] != 's'),
        !(op.len() == 3 && p.len() == 2 && p[0] != 's'),
        !(op[0] == 's' && p.len() == 1),
    ensures
        text::find_text(lhs + op + rhs, p) == -1,
{
    lemma_operators();
    let c = lhs + op + rhs;
    let n = lhs.len() as int;
    let k = op.len() as int;
    text::lemma_find_text_from(c, p, 0);
    let q = text::find_text(c, p);
    if q != -1 {
        lemma_occurrence(c, p, q);
        assert forall|i: int| 0 <= i < c.len() && is_relational(#[trigger] c[i]) implies n <= i < n + k by {
            if i < n {
                assert(c[i] == lhs[i]);
            } else if i >= n + k {
                assert(c[i] == rhs[i - n - k]);
            }
        }
        assert forall|i: int| n <= i < n + k implies #[trigger] c[i] == op[i - n] by {}
        let j = if p[0] == 's' {
            1int
        } else {
            0
        };
        assert(c[q + j] == p[j]);
        assert(is_relational(c[q + j]));
        assert(c[q + 0] == p[0]);
        if p.len() > 1 {
            assert(c[q + 1] == p[1]);
        }
        if p.len() > 2 {
            assert(c[q + 2] == p[2]);
            assert(is_relational(c[q + 2]));
        }
        if q < n && n > 0 && p[0] == 's' {
            assert(c[n - 1] == lhs[n - 1]);
        }
        assert(false);
    }
}

proof fn lemma_operator_found(lhs: Seq<char>, op: Seq<char>, rhs: Seq<char>)
    requires
        is_operator(op),
        no_relation(lhs),
        no_relation(rhs),
    ensures
        text::find_text(lhs + op + rhs, op) == lhs.len(),
{
    lemma_operators();
    let c = lhs + op + rhs;
    let n = lhs.len() as int;
    text::lemma_find_text_from(c, op, 0);
    assert(c.subrange(n, n + op.len()) =~= op);
    assert(text::occurs_at(c, op, n));
    let q = text::find_text(c, op);
    assert(0 <= q <= n);
    if q < n {
        lemma_occurrence(c, op, q);
        assert(c[q + 0] == op[0]);
        assert(c[q] == lhs[q]);
        if op[0] == 's' {
            assert(c[q + 1] == op[1]);
            if q + 1 < n {
                assert(c[q + 1] == lhs[q + 1]);
            } else {
                assert(c[n] == op[0]);
            }
        }
        assert(false);
    }
}

/// A condition is taken apart at its operator, the longest one that stands there: `s<=`
/// is not read as `s<`, nor as `<=`.
pub proof fn law_condition_is_split_at_operator(lhs: Seq<char>, op: Seq<char>, rhs: Seq<char>)
    requires
        is_operator(op),
        no_relation(lhs),
        no_relation(rhs),
        op[0] != 's' ==> lhs.len() == 0 || lhs.last() != 's',
    ensures
        blocks::condition_parts(lhs + op + rhs) == Some((lhs, op, rhs)),
{
    lemma_operators();
    let c = lhs + op + rhs;
    let ops = blocks::relational_operators();
    lemma_operator_found(lhs, op, rhs);
    assert(c.take(lhs.len() as int) =~= lhs);
    assert(c.skip((lhs.len() + op.len()) as int) =~= rhs);
    let k = choose|k: int| 0 <= k < 10 && ops[k] == op;
    assert(ops[0] == "s<="@ && ops[1] == "s>="@ && ops[2] == "<="@ && ops[3] == ">="@ && ops[4]
        == "=="@ && ops[5] == "!="@ && ops[6] == "s<"@ && ops[7] == "s>"@ && ops[8] == "<"@ && ops[9]
        == ">"@);
    assert(0 <= k < 10 && ops[k] == op);
    assert forall|j: int| 0 <= j < k implies text::find_text(c, #[trigger] ops[j]) == -1 by {
        let p = ops[j];
        assert(is_operator(p));
        assert(p.len() > op.len() || (p.len() == op.len() && p != op)) by {
            if p.len() == op.len() && p == op {
                assert(p[0] == op[0]);
                assert(p.len() > 1 ==> p[1] == op[1]);
            }
        }
        lemma_operator_absent(lhs, op, rhs, p);
    }
    lemma_split_at(c, ops, 0, k);
}

proof fn lemma_split_at(c: Seq<char>, ops: Seq<Seq<char>>, i: int, k: int)
    requires
        0 <= i <= k < ops.len(),
        forall|j: int| i <= j < k ==> text::find_text(c, #[trigger] ops[j]) == -1,
        text::find_text(c, ops[k]) >= 0,
    ensures
        blocks::split_by(c, ops, i) == Some(
            (
                c.take(text::find_text(c, ops[k])),
                ops[k],
                c.skip(text::find_text(c, ops[k]) + ops[k].len()),
            ),
        ),
    decreases k - i,
{
    if i < k {
        assert(text::find_text(c, ops[i]) == -1);
        lemma_split_at(c, ops, i + 1, k);
    }
}

/// A lowered condition is a comparison of its two sides, each resolved, and a branch to
/// the target that is taken exactly where the condition has the wanted outcome.
pub proof fn law_condition_text(
    kb: &Kb,
    labels: Seq<Seq<char>>,
    cond: Seq<char>,
    target: Seq<char>,
    want: bool,
) -> (r: (Seq<char>, Seq<char>, Seq<char>, Seq<char>))
    requires
        blocks::condition_text(kb, labels, cond, target, want) is Ok,
    ensures
        ({
            let (l, op, b, mn) = r;
            &&& blocks::condition_parts(cond) matches Some((x, o, y)) && o == op && operands::resolved(
                kb,
                labels,
                text::trim(x),
            ) == Ok::<Seq<char>, Seq<char>>(l) && operands::resolved(kb, labels, text::trim(y))
                == Ok::<Seq<char>, Seq<char>>(b)
            &&& blocks::condition_text(kb, labels, cond, target, want) == Ok::<Seq<char>, Seq<char>>(
                machine::written(seq![Instr::Cmp(l, b), Instr::Branch(mn, target)]),
            )
            &&& is_operator(op)
            &&& forall|u: int, v: int| #[trigger] machine::taken(mn, u, v) == (holds(op, u, v) == want)
        }),
{
    let (x, op, y) = blocks::condition_parts(cond)->0;
    let mn = blocks::branch_for(op, want)->0;
    let l = operands::resolved(kb, labels, text::trim(x))->Ok_0;
    let b = operands::resolved(kb, labels, text::trim(y))->Ok_0;
    let p = seq![Instr::Cmp(l, b), Instr::Branch(mn, target)];
    reveal_with_fuel(machine::written, 3);
    assert(p.drop_last() =~= seq![Instr::Cmp(l, b)]);
    assert(p.drop_last().drop_last() =~= Seq::empty());
    reveal_strlit("\n");
    reveal_strlit("  ");
    reveal_strlit("\n  ");
    assert("\n  "@ =~= "\n"@ + "  "@);
    assert(machine::written(p) =~= "  cmp "@ + l + ", "@ + b + "\n  "@ + mn + " "@ + target + "\n"@);
    law_branch_follows_condition(op, want, 0, 0);
    assert forall|u: int, v: int| #[trigger] machine::taken(mn, u, v) == (holds(op, u, v) == want) by {
        law_branch_follows_condition(op, want, u, v);
    }
    (l, op, b, mn)
}

// ── loops ───────────────────────────────────────────────────────────────────

/// A loop as a program: what opens it, what closes it, and the labels that `.continue`
/// and `.break` go to.
pub struct LoopProgram {
    pub open: Seq<Instr>,
    pub close: Seq<Instr>,
    pub again: Seq<char>,
    pub end: Seq<char>,
}

impl LoopProgram {
    /// The loop round a body.
    pub open spec fn around(self, body: Seq<Instr>) -> Seq<Instr> {
        self.open + body + self.close
    }

    /// The body holds none of the loop's labels.
    pub open spec fn apart(self, body: Seq<Instr>) -> bool {
        &&& forall|i: int, k: int|
            0 <= i < body.len() && 0 <= k < self.open.len() && self.open[k] is Label
                ==> #[trigger] body[i] != #[trigger] self.open[k]
        &&& forall|i: int, k: int|
            0 <= i < body.len() && 0 <= k < self.close.len() && self.close[k] is Label
                ==> #[trigger] body[i] != #[trigger] self.close[k]
    }

    /// `.continue` goes to a label of the loop that `.break` does not go to, and `.break`
    /// goes behind all of it.
    pub open spec fn leaves_at_end(self, b: BlockView) -> bool {
        &&& blocks::loop_labels(b) == Some((self.again, self.end))
        &&& self.close.len() > 0 && self.close.last() == Instr::Label(self.end)
        &&& self.again != self.end
    }
}

/// The state with two values compared.
pub open spec fn comparing(m: Machine, a: Seq<char>, b: Seq<char>) -> Machine {
    Machine { compared: (m.vals[a], m.vals[b]), ..m }
}

proof fn lemma_suffixes(a: Seq<char>, b: Seq<char>, s: Seq<char>, t: Seq<char>)
    requires
        s.len() > 0,
        t.len() > 0,
        s.last() != t.last(),
    ensures
        a + s != b + t,
{
    assert((a + s).last() == s.last());
    assert((b + t).last() == t.last());
}

proof fn lemma_loop_suffixes(pre: Seq<char>, id: int)
    ensures
        blocks::numbered(pre, id, "_top"@) != blocks::numbered(pre, id, "_end"@),
        blocks::numbered(pre, id, "_test"@) != blocks::numbered(pre, id, "_end"@),
        blocks::numbered(pre, id, "_cont"@) != blocks::numbered(pre, id, "_end"@),
        blocks::numbered(pre, id, "_test"@) != blocks::numbered(pre, id, "_top"@),
        blocks::numbered(pre, id, "_cont"@) != blocks::numbered(pre, id, "_top"@),
        blocks::numbered(pre, id, "_top:\n"@) == blocks::numbered(pre, id, "_top"@) + ":\n"@,
        blocks::numbered(pre, id, "_end:\n"@) == blocks::numbered(pre, id, "_end"@) + ":\n"@,
        blocks::numbered(pre, id, "_test:\n"@) == blocks::numbered(pre, id, "_test"@) + ":\n"@,
{
    reveal_strlit("_top");
    reveal_strlit("_end");
    reveal_strlit("_test");
    reveal_strlit("_cont");
    reveal_strlit(":\n");
    reveal_strlit("_top:\n");
    reveal_strlit("_end:\n");
    reveal_strlit("_test:\n");
    let x = pre + text::signed_dec(id);
    lemma_suffixes(x, x, "_top"@, "_end"@);
    lemma_suffixes(x, x, "_test"@, "_end"@);
    lemma_suffixes(x, x, "_cont"@, "_end"@);
    lemma_suffixes(x, x, "_test"@, "_top"@);
    lemma_suffixes(x, x, "_cont"@, "_top"@);
    assert("_top:\n"@ =~= "_top"@ + ":\n"@);
    assert("_end:\n"@ =~= "_end"@ + ":\n"@);
    assert("_test:\n"@ =~= "_test"@ + ":\n"@);
    assert(x + ("_top"@ + ":\n"@) =~= x + "_top"@ + ":\n"@);
    assert(x + ("_end"@ + ":\n"@) =~= x + "_end"@ + ":\n"@);
    assert(x + ("_test"@ + ":\n"@) =~= x + "_test"@ + ":\n"@);
}

proof fn lemma_written_pair(a: Instr, b: Instr)
    ensures
        machine::written(seq![a, b]) == machine::written_one(a) + machine::written_one(b),
{
    machine::lemma_written_one(a);
    machine::lemma_written_one(b);
    machine::lemma_written_concat(seq![a], seq![b]);
    assert(seq![a] + seq![b] =~= seq![a, b]);
}

proof fn lemma_jump_text(pre: Seq<char>, jmp: Seq<char>, id: int, suffix: Seq<char>, ended: Seq<char>)
    requires
        jmp == "  jmp "@ + pre,
        ended == suffix + "\n"@,
    ensures
        blocks::numbered(jmp, id, ended) == machine::written_one(Instr::Jmp(blocks::numbered(pre, id, suffix))),
{
    assert(blocks::numbered(jmp, id, ended) =~= machine::written_one(
        Instr::Jmp(blocks::numbered(pre, id, suffix)),
    ));
}

/// The label `l` stands at `k`, and nowhere before.
proof fn lemma_target(p: LoopProgram, body: Seq<Instr>, l: Seq<char>, k: int)
    requires
        p.apart(body),
        0 <= k < p.around(body).len(),
        p.around(body)[k] == Instr::Label(l),
        forall|i: int| 0 <= i < p.open.len() && i < k ==> #[trigger] p.open[i] != Instr::Label(l),
        forall|i: int|
            0 <= i < p.close.len() && p.open.len() + body.len() + i < k ==> #[trigger] p.close[i]
                != Instr::Label(l),
        k < p.open.len() || k >= p.open.len() + body.len(),
    ensures
        machine::label_from(p.around(body), l, 0) == k,
{
    let q = p.around(body);
    let n = p.open.len() as int;
    assert forall|j: int| 0 <= j < k implies #[trigger] q[j] != Instr::Label(l) by {
        if j < n {
            assert(q[j] == p.open[j]);
        } else if j < n + body.len() {
            assert(q[j] == body[j - n]);
            if k < n {
                assert(false);
            } else {
                assert(q[k] == p.close[k - n - body.len()]);
            }
        } else {
            assert(q[j] == p.close[j - n - body.len()]);
        }
    }
    machine::lemma_label_from(q, l, 0, k);
}

/// A `.while` loop runs its body exactly while its condition holds: from its start,
/// control enters the body where the condition holds, and is at the end of the loop where
/// it does not; behind the body it is back at the start.
pub open spec fn loops_while(p: LoopProgram, a: Seq<char>, op: Seq<char>, b: Seq<char>) -> bool {
    &&& forall|body: Seq<Instr>, m: Machine|
        p.apart(body) ==> #[trigger] machine::steps(p.around(body), 0, m, 3) == (
            if holds(op, m.vals[a], m.vals[b]) {
                p.open.len() as int
            } else {
                p.around(body).len() - 1
            },
            comparing(m, a, b),
        )
    &&& forall|body: Seq<Instr>, m: Machine|
        p.apart(body) ==> #[trigger] machine::steps(
            p.around(body),
            (p.open.len() + body.len()) as int,
            m,
            1,
        ) == (0int, m)
}

/// The condition `cond` compares the operands `a` and `b` by `op`.
pub open spec fn condition_of(
    kb: &Kb,
    labels: Seq<Seq<char>>,
    cond: Seq<char>,
    a: Seq<char>,
    op: Seq<char>,
    b: Seq<char>,
) -> bool {
    &&& is_operator(op)
    &&& blocks::condition_parts(cond) matches Some((x, y, z)) && y == op && operands::resolved(
        kb,
        labels,
        text::trim(x),
    ) == Ok::<Seq<char>, Seq<char>>(a) && operands::resolved(kb, labels, text::trim(z)) == Ok::<
        Seq<char>,
        Seq<char>,
    >(b)
}

proof fn lemma_endw()
    ensures
        lex::strip_keyword(".endw"@, ".while"@) is None,
        ".endw"@ != ".repeat"@,
{
    reveal_strlit(".endw");
    reveal_strlit(".while");
    reveal_strlit(".repeat");
}

/// A `.while` block is lowered to a loop that runs its body exactly while its condition
/// holds.
pub proof fn law_while_loops_while_condition_holds(
    kb: &Kb,
    src: SourceView,
    st: LowerView,
    t: Seq<char>,
    raw: Seq<char>,
    line: int,
    inner: LowerView,
    raw2: Seq<char>,
    line2: int,
) -> (r: (LoopProgram, Seq<char>, Seq<char>, Seq<char>))
    requires
        lex::strip_keyword(t, ".while"@) is Some,
        lower::while_line(kb, src, st, t, raw, line) matches Some(Ok(o)) && inner.stack == o.st.stack,
    ensures
        ({
            let (p, a, op, b) = r;
            let o = lower::while_line(kb, src, st, t, raw, line)->0->Ok_0;
            &&& machine::written(p.open) == o.text
            &&& lower::while_line(kb, src, inner, ".endw"@, raw2, line2) matches Some(Ok(c)) && machine::written(
                p.close,
            ) == c.text && c.st.stack == st.stack
            &&& p.leaves_at_end(o.st.stack.last())
            &&& condition_of(kb, src.labels, lex::strip_keyword(t, ".while"@)->0, a, op, b)
            &&& loops_while(p, a, op, b)
            &&& p.open[0] == Instr::Label(p.again)
        }),
{
    let cond = lex::strip_keyword(t, ".while"@)->0;
    let id = st.ctr;
    let top = blocks::numbered("__while"@, id, "_top"@);
    let end = blocks::numbered("__while"@, id, "_end"@);
    lemma_loop_suffixes("__while"@, id);
    let (a, op, b, mn) = law_condition_text(kb, src.labels, cond, end, false);
    let cj = seq![Instr::Cmp(a, b), Instr::Branch(mn, end)];
    let open = seq![Instr::Label(top)] + cj;
    let close = seq![Instr::Jmp(top), Instr::Label(end)];
    let p = LoopProgram { open, close, again: top, end };
    machine::lemma_written_one(Instr::Label(top));
    machine::lemma_written_concat(seq![Instr::Label(top)], cj);
    reveal_strlit("  jmp ");
    reveal_strlit("__while");
    reveal_strlit("  jmp __while");
    reveal_strlit("_top\n");
    reveal_strlit("_top");
    reveal_strlit("\n");
    assert("  jmp __while"@ =~= "  jmp "@ + "__while"@);
    assert("_top\n"@ =~= "_top"@ + "\n"@);
    lemma_jump_text("__while"@, "  jmp __while"@, id, "_top"@, "_top\n"@);
    lemma_written_pair(Instr::Jmp(top), Instr::Label(end));
    lemma_endw();
    let o = lower::while_line(kb, src, st, t, raw, line)->0->Ok_0;
    assert(o.st.stack.drop_last() =~= st.stack);
    assert forall|body: Seq<Instr>, m: Machine| p.apart(body) implies #[trigger] machine::steps(
        p.around(body),
        (p.open.len() + body.len()) as int,
        m,
        1,
    ) == (0int, m) by {
        let q = p.around(body);
        reveal_with_fuel(machine::steps, 2);
        assert(q[(open.len() + body.len()) as int] == close[0]);
        assert(q[0] == Instr::Label(top));
        lemma_target(p, body, top, 0);
    }
    assert forall|body: Seq<Instr>, m: Machine| p.apart(body) implies #[trigger] machine::steps(
        p.around(body),
        0,
        m,
        3,
    ) == (
        if holds(op, m.vals[a], m.vals[b]) {
            p.open.len() as int
        } else {
            p.around(body).len() - 1
        },
        comparing(m, a, b),
    ) by {
        let q = p.around(body);
        reveal_with_fuel(machine::steps, 4);
        assert(q[0] == open[0] && q[1] == open[1] && q[2] == open[2]);
        assert(q[q.len() - 1] == close[1]);
        lemma_target(p, body, end, q.len() - 1);
        assert(machine::taken(mn, m.vals[a], m.vals[b]) == (holds(op, m.vals[a], m.vals[b]) == false));
    }
    (p, a, op, b)
}

/// A `.repeat` loop runs its body once and goes on until its condition holds: behind the
/// body, control is back at the start where the condition does not hold, and at the end of
/// the loop where it does. `.continue` goes to that test.
pub open spec fn loops_until(p: LoopProgram, a: Seq<char>, op: Seq<char>, b: Seq<char>) -> bool {
    forall|body: Seq<Instr>, m: Machine|
        p.apart(body) ==> #[trigger] machine::steps(
            p.around(body),
            (p.open.len() + body.len()) as int,
            m,
            3,
        ) == (
            if holds(op, m.vals[a], m.vals[b]) {
                p.around(body).len() - 1
            } else {
                0
            },
            comparing(m, a, b),
        )
}

proof fn lemma_repeat_words(t: Seq<char>)
    ensures
        lex::strip_keyword(".repeat"@, ".while"@) is None,
        ".repeat"@ != ".endw"@,
        lex::strip_keyword(t, ".until"@) is Some ==> lex::strip_keyword(t, ".while"@) is None && t
            != ".endw"@ && t != ".repeat"@,
{
    reveal_strlit(".endw");
    reveal_strlit(".while");
    reveal_strlit(".repeat");
    reveal_strlit(".until");
    if lex::strip_keyword(t, ".until"@) is Some {
        assert(t.take(6)[1] == 'u');
        if t.len() >= 6 && t.take(6) == ".while"@ {
            assert(t.take(6)[1] == 'w');
        }
        if t == ".repeat"@ {
            assert(t.take(6)[1] == 'r');
        }
    }
}

/// A `.repeat` block is lowered to a loop that runs its body until its condition holds.
pub proof fn law_repeat_loops_until_condition_holds(
    kb: &Kb,
    src: SourceView,
    st: LowerView,
    raw: Seq<char>,
    line: int,
    inner: LowerView,
    t: Seq<char>,
    raw2: Seq<char>,
    line2: int,
) -> (r: (LoopProgram, Seq<char>, Seq<char>, Seq<char>))
    requires
        lex::strip_keyword(t, ".until"@) is Some,
        lower::while_line(kb, src, st, ".repeat"@, raw, line) matches Some(Ok(o)) ==> inner.stack
            == o.st.stack,
        lower::while_line(kb, src, inner, t, raw2, line2) matches Some(Ok(_)),
    ensures
        ({
            let (p, a, op, b) = r;
            &&& lower::while_line(kb, src, st, ".repeat"@, raw, line) matches Some(Ok(o)) && machine::written(p.open)
                == o.text && p.leaves_at_end(o.st.stack.last())
            &&& lower::while_line(kb, src, inner, t, raw2, line2) matches Some(Ok(c)) && machine::written(p.close)
                == c.text && c.st.stack == st.stack
            &&& condition_of(kb, src.labels, lex::strip_keyword(t, ".until"@)->0, a, op, b)
            &&& loops_until(p, a, op, b)
            &&& p.close[0] == Instr::Label(p.again)
            &&& p.open.len() == 1 && p.open[0] is Label
        }),
{
    lemma_repeat_words(t);
    let cond = lex::strip_keyword(t, ".until"@)->0;
    let id = st.ctr;
    let top = blocks::numbered("__repeat"@, id, "_top"@);
    let test = blocks::numbered("__repeat"@, id, "_test"@);
    let end = blocks::numbered("__repeat"@, id, "_end"@);
    lemma_loop_suffixes("__repeat"@, id);
    let o = lower::while_line(kb, src, st, ".repeat"@, raw, line)->0->Ok_0;
    assert(o.st.stack.last() == BlockView::Repeat { id });
    let (a, op, b, mn) = law_condition_text(kb, src.labels, cond, top, false);
    let cj = seq![Instr::Cmp(a, b), Instr::Branch(mn, top)];
    let open = seq![Instr::Label(top)];
    let close = seq![Instr::Label(test)] + cj + seq![Instr::Label(end)];
    let p = LoopProgram { open, close, again: test, end };
    machine::lemma_written_one(Instr::Label(top));
    machine::lemma_written_one(Instr::Label(test));
    machine::lemma_written_one(Instr::Label(end));
    machine::lemma_written_concat(seq![Instr::Label(test)], cj);
    machine::lemma_written_concat(seq![Instr::Label(test)] + cj, seq![Instr::Label(end)]);
    let c = lower::while_line(kb, src, inner, t, raw2, line2)->0->Ok_0;
    assert(c.text =~= machine::written(close));
    assert(o.st.stack.drop_last() =~= st.stack);
    assert forall|body: Seq<Instr>, m: Machine| p.apart(body) implies #[trigger] machine::steps(
        p.around(body),
        (p.open.len() + body.len()) as int,
        m,
        3,
    ) == (
        if holds(op, m.vals[a], m.vals[b]) {
            p.around(body).len() - 1
        } else {
            0
        },
        comparing(m, a, b),
    ) by {
        let q = p.around(body);
        let n = (open.len() + body.len()) as int;
        reveal_with_fuel(machine::steps, 4);
        assert(q[n] == close[0] && q[n + 1] == close[1] && q[n + 2] == close[2]);
        assert(q[0] == open[0]);
        lemma_target(p, body, top, 0);
        assert(machine::taken(mn, m.vals[a], m.vals[b]) == (holds(op, m.vals[a], m.vals[b]) == false));
    }
    (p, a, op, b)
}

/// A `.for` loop counts its register up from the start to the end, both included: its
/// opening sets the register to the start and enters the body unless the start lies above
/// the end; behind the body the register is one higher, and the body is entered again
/// unless it lies above the end.
pub open spec fn counts(p: LoopProgram, reg: Seq<char>, start: Seq<char>, last: Seq<char>) -> bool {
    &&& forall|body: Seq<Instr>, m: Machine|
        p.apart(body) ==> #[trigger] machine::steps(p.around(body), 0, m, 4) == (
            if machine::unsigned(m.put(reg, m.vals[start]).vals[reg]) <= machine::unsigned(
                m.put(reg, m.vals[start]).vals[last],
            ) {
                p.open.len() as int
            } else {
                p.around(body).len() - 1
            },
            comparing(m.put(reg, m.vals[start]), reg, last),
        )
    &&& forall|body: Seq<Instr>, m: Machine|
        p.apart(body) ==> #[trigger] machine::steps(
            p.around(body),
            (p.open.len() + body.len()) as int,
            m,
            6,
        ) == (
            if machine::unsigned(m.vals[reg] + 1) <= machine::unsigned(m.put(reg, m.vals[reg] + 1).vals[last]) {
                p.open.len() as int
            } else {
                p.around(body).len() - 1
            },
            comparing(m.put(reg, m.vals[reg] + 1), reg, last),
        )
}

/// The parts of `reg = start to end`, resolved.
pub open spec fn range_of(
    kb: &Kb,
    labels: Seq<Seq<char>>,
    rest: Seq<char>,
    reg: Seq<char>,
    start: Seq<char>,
    last: Seq<char>,
) -> bool {
    exists|x: Seq<char>, y: Seq<char>, z: Seq<char>|
        {
            &&& rest == #[trigger] (x + "="@ + y + " to "@ + z)
            &&& operands::resolved(kb, labels, text::trim(x)) == Ok::<Seq<char>, Seq<char>>(reg)
            &&& operands::resolved(kb, labels, text::trim(y)) == Ok::<Seq<char>, Seq<char>>(start)
            &&& operands::resolved(kb, labels, text::trim(z)) == Ok::<Seq<char>, Seq<char>>(last)
        }
}

proof fn lemma_endfor()
    ensures
        lex::strip_keyword(".endfor"@, ".for"@) is None,
        ".endfor"@ != ".forever"@,
        lex::strip_keyword(".forever"@, ".for"@) is None,
{
    reveal_strlit(".endfor");
    reveal_strlit(".for");
    reveal_strlit(".forever");
    assert(".endfor"@.take(4)[1] == 'e');
    assert(".for"@[1] == 'f');
    assert(".endfor"@[1] == 'e');
    assert(".forever"@[1] == 'f');
    assert(".forever"@.skip(4)[0] == 'e');
}

proof fn lemma_range_split(rest: Seq<char>)
    requires
        text::find(rest, '=') < rest.len(),
        text::find_text(rest.skip(text::find(rest, '=') + 1), " to "@) >= 0,
    ensures
        ({
            let eq = text::find(rest, '=');
            let range = rest.skip(eq + 1);
            let to = text::find_text(range, " to "@);
            rest == rest.take(eq) + "="@ + range.take(to) + " to "@ + range.skip(to + 4)
        }),
{
    let eq = text::find(rest, '=');
    let range = rest.skip(eq + 1);
    let to = text::find_text(range, " to "@);
    reveal_strlit("=");
    reveal_strlit(" to ");
    text::lemma_first_from(rest, text::eq_char('='), 0);
    text::lemma_find_text_from(range, " to "@, 0);
    assert(range.subrange(to, to + 4) =~= " to "@);
    assert(range =~= range.take(to) + " to "@ + range.skip(to + 4));
    assert(rest =~= rest.take(eq) + "="@ + range);
    assert(rest =~= rest.take(eq) + "="@ + range.take(to) + " to "@ + range.skip(to + 4));
}

/// The instructions of a `.for` loop.
spec fn for_program(
    p: LoopProgram,
    reg: Seq<char>,
    start: Seq<char>,
    last: Seq<char>,
    top: Seq<char>,
) -> bool {
    &&& p.open == seq![
        Instr::Mov(reg, start),
        Instr::Label(top),
        Instr::Cmp(reg, last),
        Instr::Branch("ja"@, p.end),
    ]
    &&& p.close == seq![
        Instr::Label(p.again),
        Instr::Inc(reg),
        Instr::Jmp(top),
        Instr::Label(p.end),
    ]
    &&& top != p.end
    &&& p.again != p.end
    &&& top != p.again
}

#[verifier::spinoff_prover]
proof fn lemma_for_enters(
    p: LoopProgram,
    body: Seq<Instr>,
    m: Machine,
    reg: Seq<char>,
    start: Seq<char>,
    last: Seq<char>,
    top: Seq<char>,
)
    requires
        for_program(p, reg, start, last, top),
        p.apart(body),
    ensures
        machine::steps(
                p.around(body),
                0,
                m,
                4,
            ) == (
                if machine::unsigned(m.put(reg, m.vals[start]).vals[reg]) <= machine::unsigned(
                    m.put(reg, m.vals[start]).vals[last],
                ) {
                    p.open.len() as int
                } else {
                    p.around(body).len() - 1
                },
                comparing(m.put(reg, m.vals[start]), reg, last),
            ),
{
    let open = p.open;
    let close = p.close;
    let end = p.end;
    let q = p.around(body);
    reveal_with_fuel(machine::steps, 5);
    assert(q[0] == open[0] && q[1] == open[1] && q[2] == open[2] && q[3] == open[3]);
    assert(q[q.len() - 1] == close[3]);
    lemma_target(p, body, end, q.len() - 1);
    lemma_ja(m.put(reg, m.vals[start]).vals[reg], m.put(reg, m.vals[start]).vals[last]);
}

#[verifier::spinoff_prover]
proof fn lemma_for_goes_on(
    p: LoopProgram,
    body: Seq<Instr>,
    m: Machine,
    reg: Seq<char>,
    start: Seq<char>,
    last: Seq<char>,
    top: Seq<char>,
)
    requires
        for_program(p, reg, start, last, top),
        p.apart(body),
    ensures
        machine::steps(
                p.around(body),
                (p.open.len() + body.len()) as int,
                m,
                6,
            ) == (
                if machine::unsigned(m.vals[reg] + 1) <= machine::unsigned(m.put(reg, m.vals[reg] + 1).vals[last]) {
                    p.open.len() as int
                } else {
                    p.around(body).len() - 1
                },
                comparing(m.put(reg, m.vals[reg] + 1), reg, last),
            ),
{
    let open = p.open;
    let close = p.close;
    let end = p.end;
    let q = p.around(body);
    let n = (open.len() + body.len()) as int;
    reveal_with_fuel(machine::steps, 7);
    assert(q[1] == open[1] && q[2] == open[2] && q[3] == open[3]);
    assert(q[n] == close[0] && q[n + 1] == close[1] && q[n + 2] == close[2]);
    assert(q[q.len() - 1] == close[3]);
    lemma_target(p, body, end, q.len() - 1);
    lemma_target(p, body, top, 1);
    lemma_ja(m.vals[reg] + 1, m.put(reg, m.vals[reg] + 1).vals[last]);
}

proof fn lemma_for_counts(
    p: LoopProgram,
    reg: Seq<char>,
    start: Seq<char>,
    last: Seq<char>,
    top: Seq<char>,
)
    requires
        for_program(p, reg, start, last, top),
    ensures
        counts(p, reg, start, last),
{
    assert forall|body: Seq<Instr>, m: Machine| p.apart(body) implies #[trigger] machine::steps(
                p.around(body),
                0,
                m,
                4,
            ) == (
                if machine::unsigned(m.put(reg, m.vals[start]).vals[reg]) <= machine::unsigned(
                    m.put(reg, m.vals[start]).vals[last],
                ) {
                    p.open.len() as int
                } else {
                    p.around(body).len() - 1
                },
                comparing(m.put(reg, m.vals[start]), reg, last),
            ) by {
        lemma_for_enters(p, body, m, reg, start, last, top);
    }
    assert forall|body: Seq<Instr>, m: Machine| p.apart(body) implies #[trigger] machine::steps(
                p.around(body),
                (p.open.len() + body.len()) as int,
                m,
                6,
            ) == (
                if machine::unsigned(m.vals[reg] + 1) <= machine::unsigned(m.put(reg, m.vals[reg] + 1).vals[last]) {
                    p.open.len() as int
                } else {
                    p.around(body).len() - 1
                },
                comparing(m.put(reg, m.vals[reg] + 1), reg, last),
            ) by {
        lemma_for_goes_on(p, body, m, reg, start, last, top);
    }
}

/// A `.for` block is lowered to a loop that counts as it says.
pub proof fn law_for_counts_from_start_to_end(
    kb: &Kb,
    src: SourceView,
    st: LowerView,
    t: Seq<char>,
    raw: Seq<char>,
    line: int,
    inner: LowerView,
    raw2: Seq<char>,
    line2: int,
) -> (r: (LoopProgram, Seq<char>, Seq<char>, Seq<char>))
    requires
        lex::strip_keyword(t, ".for"@) is Some,
        lower::loop_line(kb, src, st, t, raw, line) matches Some(Ok(o)) && inner.stack == o.st.stack,
    ensures
        ({
            let (p, reg, start, last) = r;
            let o = lower::loop_line(kb, src, st, t, raw, line)->0->Ok_0;
            &&& machine::written(p.open) == o.text
            &&& lower::loop_line(kb, src, inner, ".endfor"@, raw2, line2) matches Some(Ok(c)) && machine::written(
                p.close,
            ) == c.text && c.st.stack == st.stack
            &&& p.leaves_at_end(o.st.stack.last())
            &&& range_of(kb, src.labels, lex::strip_keyword(t, ".for"@)->0, reg, start, last)
            &&& counts(p, reg, start, last)
            &&& p.close[0] == Instr::Label(p.again)
        }),
{
    let rest = lex::strip_keyword(t, ".for"@)->0;
    let id = st.ctr;
    let top = blocks::numbered("__for"@, id, "_top"@);
    let cont = blocks::numbered("__for"@, id, "_cont"@);
    let end = blocks::numbered("__for"@, id, "_end"@);
    lemma_loop_suffixes("__for"@, id);
    lemma_endfor();
    let eq = text::find(rest, '=');
    let range = rest.skip(eq + 1);
    let to = text::find_text(range, " to "@);
    lemma_range_split(rest);
    let reg = operands::resolved(kb, src.labels, text::trim(rest.take(eq)))->Ok_0;
    let start = operands::resolved(kb, src.labels, text::trim(range.take(to)))->Ok_0;
    let last = operands::resolved(kb, src.labels, text::trim(range.skip(to + 4)))->Ok_0;
    assert(rest == (rest.take(eq) + "="@ + range.take(to) + " to "@ + range.skip(to + 4)));
    let open = seq![
        Instr::Mov(reg, start),
        Instr::Label(top),
        Instr::Cmp(reg, last),
        Instr::Branch("ja"@, end),
    ];
    let close = seq![Instr::Label(cont), Instr::Inc(reg), Instr::Jmp(top), Instr::Label(end)];
    let p = LoopProgram { open, close, again: cont, end };
    lemma_for_text(id, reg, start, last);
    let o = lower::loop_line(kb, src, st, t, raw, line)->0->Ok_0;
    assert(o.st.stack.drop_last() =~= st.stack);
    assert(o.st.stack.last() == BlockView::For { id, reg });
    lemma_for_counts(p, reg, start, last, top);
    (p, reg, start, last)
}

proof fn lemma_ja(a: int, b: int)
    ensures
        machine::taken("ja"@, a, b) == (machine::unsigned(a) > machine::unsigned(b)),
{
    lemma_distinct_words();
    let w = branch_list();
    assert(w[0] == "je"@ && w[1] == "jne"@ && w[2] == "ja"@ && w[3] == "jae"@ && w[4] == "jb"@ && w[5]
        == "jbe"@ && w[6] == "jg"@ && w[7] == "jge"@ && w[8] == "jl"@ && w[9] == "jle"@);
}

proof fn lemma_for_text(id: int, reg: Seq<char>, start: Seq<char>, last: Seq<char>)
    ensures
        machine::written(
            seq![
                Instr::Mov(reg, start),
                Instr::Label(blocks::numbered("__for"@, id, "_top"@)),
                Instr::Cmp(reg, last),
                Instr::Branch("ja"@, blocks::numbered("__for"@, id, "_end"@)),
            ],
        ) == "  mov "@ + reg + ", "@ + start + blocks::numbered("\n__for"@, id, "_top:\n"@) + "  cmp "@
            + reg + ", "@ + last + blocks::numbered("\n  ja __for"@, id, "_end\n"@),
        machine::written(
            seq![
                Instr::Label(blocks::numbered("__for"@, id, "_cont"@)),
                Instr::Inc(reg),
                Instr::Jmp(blocks::numbered("__for"@, id, "_top"@)),
                Instr::Label(blocks::numbered("__for"@, id, "_end"@)),
            ],
        ) == blocks::numbered("__for"@, id, "_cont:\n  inc "@) + reg + blocks::numbered(
            "\n  jmp __for"@,
            id,
            "_top\n"@,
        ) + blocks::numbered("__for"@, id, "_end:\n"@),
{
    let top = blocks::numbered("__for"@, id, "_top"@);
    let cont = blocks::numbered("__for"@, id, "_cont"@);
    let end = blocks::numbered("__for"@, id, "_end"@);
    let a = Instr::Mov(reg, start);
    let b = Instr::Label(top);
    let c = Instr::Cmp(reg, last);
    let d = Instr::Branch("ja"@, end);
    lemma_written_pair(a, b);
    lemma_written_pair(c, d);
    machine::lemma_written_concat(seq![a, b], seq![c, d]);
    assert(seq![a, b] + seq![c, d] =~= seq![a, b, c, d]);
    let e = Instr::Label(cont);
    let f = Instr::Inc(reg);
    let g = Instr::Jmp(top);
    let h = Instr::Label(end);
    lemma_written_pair(e, f);
    lemma_written_pair(g, h);
    machine::lemma_written_concat(seq![e, f], seq![g, h]);
    assert(seq![e, f] + seq![g, h] =~= seq![e, f, g, h]);
    reveal_strlit("\n");
    reveal_strlit(":\n");
    reveal_strlit("  ");
    reveal_strlit(" ");
    reveal_strlit("ja");
    reveal_strlit("__for");
    reveal_strlit("\n__for");
    reveal_strlit("_top");
    reveal_strlit("_top:\n");
    reveal_strlit("_top\n");
    reveal_strlit("_end");
    reveal_strlit("_end\n");
    reveal_strlit("_end:\n");
    reveal_strlit("_cont");
    reveal_strlit("  inc ");
    reveal_strlit("  jmp ");
    reveal_strlit("_cont:\n  inc ");
    reveal_strlit("\n  ja __for");
    reveal_strlit("\n  jmp __for");
    assert("\n__for"@ =~= "\n"@ + "__for"@);
    assert("_top:\n"@ =~= "_top"@ + ":\n"@);
    assert("_end:\n"@ =~= "_end"@ + ":\n"@);
    assert("_end\n"@ =~= "_end"@ + "\n"@);
    assert("_top\n"@ =~= "_top"@ + "\n"@);
    assert("_cont:\n  inc "@ =~= "_cont"@ + ":\n"@ + "  inc "@);
    assert("\n  ja __for"@ =~= "\n"@ + ("  "@ + "ja"@ + " "@ + "__for"@));
    assert("\n  jmp __for"@ =~= "\n"@ + "  jmp "@ + "__for"@);
    let n = text::signed_dec(id);
    assert(machine::written(seq![a, b, c, d]) =~= "  mov "@ + reg + ", "@ + start + blocks::numbered(
        "\n__for"@,
        id,
        "_top:\n"@,
    ) + "  cmp "@ + reg + ", "@ + last + blocks::numbered("\n  ja __for"@, id, "_end\n"@));
    assert(machine::written(seq![e, f, g, h]) =~= blocks::numbered("__for"@, id, "_cont:\n  inc "@) + reg
        + blocks::numbered("\n  jmp __for"@, id, "_top\n"@) + blocks::numbered(
        "__for"@,
        id,
        "_end:\n"@,
    ));
}

/// A `.forever` block is lowered to a loop that goes back to its start behind its body,
/// and is only left by a `.break`.
pub proof fn law_forever_never_ends_by_itself(
    kb: &Kb,
    src: SourceView,
    st: LowerView,
    raw: Seq<char>,
    line: int,
    inner: LowerView,
    raw2: Seq<char>,
    line2: int,
) -> (p: LoopProgram)
    requires
        lower::loop_line(kb, src, st, ".forever"@, raw, line) matches Some(Ok(o)) ==> inner.stack
            == o.st.stack,
    ensures
        lower::loop_line(kb, src, st, ".forever"@, raw, line) matches Some(Ok(o)) && machine::written(p.open)
            == o.text && p.leaves_at_end(o.st.stack.last()),
        lower::loop_line(kb, src, inner, ".endfor"@, raw2, line2) matches Some(Ok(c)) && machine::written(p.close)
            == c.text && c.st.stack == st.stack,
        p.open.len() == 1 && p.open[0] == Instr::Label(p.again),
        forall|body: Seq<Instr>, m: Machine|
            p.apart(body) ==> #[trigger] machine::steps(
                p.around(body),
                (p.open.len() + body.len()) as int,
                m,
                1,
            ) == (0int, m),
{
    lemma_endfor();
    let id = st.ctr;
    let top = blocks::numbered("__forever"@, id, "_top"@);
    let end = blocks::numbered("__forever"@, id, "_end"@);
    lemma_loop_suffixes("__forever"@, id);
    let open = seq![Instr::Label(top)];
    let close = seq![Instr::Jmp(top), Instr::Label(end)];
    let p = LoopProgram { open, close, again: top, end };
    machine::lemma_written_one(Instr::Label(top));
    reveal_strlit("  jmp ");
    reveal_strlit("__forever");
    reveal_strlit("  jmp __forever");
    reveal_strlit("_top\n");
    reveal_strlit("_top");
    reveal_strlit("\n");
    assert("  jmp __forever"@ =~= "  jmp "@ + "__forever"@);
    assert("_top\n"@ =~= "_top"@ + "\n"@);
    lemma_jump_text("__forever"@, "  jmp __forever"@, id, "_top"@, "_top\n"@);
    lemma_written_pair(Instr::Jmp(top), Instr::Label(end));
    let o = lower::loop_line(kb, src, st, ".forever"@, raw, line)->0->Ok_0;
    assert(o.st.stack.last() == BlockView::Forever { id });
    assert(o.st.stack.drop_last() =~= st.stack);
    assert forall|body: Seq<Instr>, m: Machine| p.apart(body) implies #[trigger] machine::steps(
        p.around(body),
        (p.open.len() + body.len()) as int,
        m,
        1,
    ) == (0int, m) by {
        let q = p.around(body);
        reveal_with_fuel(machine::steps, 2);
        assert(q[(open.len() + body.len()) as int] == close[0]);
        assert(q[0] == Instr::Label(top));
        lemma_target(p, body, top, 0);
    }
    p
}

/// The text is a comparison of `a` with `b` and the branch `mn` to `target`, which is
/// taken exactly where the condition holds.
pub open spec fn jumps_by(
    t: Seq<char>,
    a: Seq<char>,
    op: Seq<char>,
    b: Seq<char>,
    target: Seq<char>,
    mn: Seq<char>,
) -> bool {
    &&& t == machine::written(seq![Instr::Cmp(a, b), Instr::Branch(mn, target)])
    &&& forall|u: int, v: int| #[trigger] machine::taken(mn, u, v) == holds(op, u, v)
}

/// The same of some branch.
pub open spec fn jumps_where(
    t: Seq<char>,
    a: Seq<char>,
    op: Seq<char>,
    b: Seq<char>,
    target: Seq<char>,
) -> bool {
    exists|mn: Seq<char>| #[trigger] jumps_by(t, a, op, b, target, mn)
}

/// `.break` and `.continue` are lowered to a jump: to the end of the innermost loop, or to
/// where it goes on. With `if`, the jump is taken exactly where the condition holds.
pub proof fn law_break_and_continue_leave_the_innermost_loop(
    kb: &Kb,
    src: SourceView,
    st: LowerView,
    rest: Seq<char>,
    brk: bool,
    raw: Seq<char>,
    line: int,
) -> (k: int)
    requires
        lower::jump_line(kb, src, st, rest, brk, raw, line) is Ok,
    ensures
        0 <= k < st.stack.len(),
        blocks::loop_labels(st.stack[k]) is Some,
        forall|j: int|
            k < j < st.stack.len() ==> blocks::loop_labels(#[trigger] st.stack[j]) is None,
        ({
            let (again, end) = blocks::loop_labels(st.stack[k])->0;
            let target = if brk {
                end
            } else {
                again
            };
            let t = lower::jump_line(kb, src, st, rest, brk, raw, line)->Ok_0;
            &&& t.st == st
            &&& text::trim(rest).len() == 0 ==> t.text == machine::written(seq![Instr::Jmp(target)])
            &&& text::trim(rest).len() > 0 ==> exists|a: Seq<char>, op: Seq<char>, b: Seq<char>|
                #[trigger] condition_of(
                    kb,
                    src.labels,
                    lex::strip_keyword(text::trim(rest), "if"@)->0,
                    a,
                    op,
                    b,
                ) && jumps_where(t.text, a, op, b, target)
        }),
{
    let k = lemma_innermost(st.stack);
    let (again, end) = blocks::loop_labels(st.stack[k])->0;
    let target = if brk {
        end
    } else {
        again
    };
    let t = lower::jump_line(kb, src, st, rest, brk, raw, line)->Ok_0;
    machine::lemma_written_one(Instr::Jmp(target));
    if text::trim(rest).len() > 0 {
        let cond = lex::strip_keyword(text::trim(rest), "if"@)->0;
        let (a, op, b, mn) = law_condition_text(kb, src.labels, cond, target, true);
        assert(condition_of(kb, src.labels, cond, a, op, b));
        assert(jumps_by(t.text, a, op, b, target, mn));
    }
    k
}

proof fn lemma_innermost(stack: Seq<BlockView>) -> (k: int)
    requires
        blocks::innermost_loop(stack) is Some,
    ensures
        0 <= k < stack.len(),
        blocks::loop_labels(stack[k]) == blocks::innermost_loop(stack),
        forall|j: int| k < j < stack.len() ==> blocks::loop_labels(#[trigger] stack[j]) is None,
    decreases stack.len(),
{
    match blocks::loop_labels(stack.last()) {
        Some(_) => stack.len() - 1,
        None => {
            let k = lemma_innermost(stack.drop_last());
            assert forall|j: int| k < j < stack.len() implies blocks::loop_labels(
                #[trigger] stack[j],
            ) is None by {
                if j < stack.len() - 1 {
                    assert(stack.drop_last()[j] == stack[j]);
                }
            }
            k
        },
    }
}

// ── choices ─────────────────────────────────────────────────────────────────

/// The label that the next line of an `.if` block defines: where control goes on when the
/// clause before it is not chosen.
pub open spec fn awaited(b: BlockView) -> Seq<char> {
    match b {
        BlockView::If { id, next, .. } => blocks::clause_label(id, next),
        _ => Seq::empty(),
    }
}

/// The label behind an `.if` block.
pub open spec fn behind(b: BlockView) -> Seq<char> {
    match b {
        BlockView::If { id, .. } => blocks::numbered("__if"@, id, "_end"@),
        _ => Seq::empty(),
    }
}

proof fn lemma_if_words(t: Seq<char>)
    ensures
        lex::strip_keyword(t, ".elseif"@) is Some ==> lex::strip_keyword(t, ".if"@) is None && t != ".else"@
            && t != ".endif"@,
        lex::strip_keyword(".else"@, ".if"@) is None,
        lex::strip_keyword(".else"@, ".elseif"@) is None,
        lex::strip_keyword(".endif"@, ".if"@) is None,
        lex::strip_keyword(".endif"@, ".elseif"@) is None,
        ".else"@ != ".endif"@,
{
    reveal_strlit(".if");
    reveal_strlit(".elseif");
    reveal_strlit(".else");
    reveal_strlit(".endif");
    assert(".if"@[1] == 'i');
    assert(".else"@.take(3)[1] == 'e');
    assert(".endif"@.take(3)[1] == 'e');
    if lex::strip_keyword(t, ".elseif"@) is Some {
        assert(t.take(7)[1] == 'e');
        assert(t.take(3)[1] == t[1]);
        assert(t.take(7)[1] == t[1]);
        assert(".elseif"@.len() == 7 && ".else"@.len() == 5 && ".endif"@.len() == 6);
    }
}

proof fn lemma_clause_is_not_end(id: int, n: int)
    requires
        n >= 0,
    ensures
        blocks::clause_label(id, n) != blocks::numbered("__if"@, id, "_end"@),
{
    reveal_strlit("_end");
    lemma_dec_is_digits(n);
    assert(blocks::clause_label(id, n).last() == text::signed_dec(n).last());
    assert(blocks::numbered("__if"@, id, "_end"@).last() == 'd');
}

pub proof fn lemma_dec_is_digits(n: int)
    requires
        n >= 0,
    ensures
        text::dec(n).len() > 0,
        forall|i: int| 0 <= i < text::dec(n).len() ==> '0' <= #[trigger] text::dec(n)[i] <= '9',
    decreases n,
{
    if n >= 10 {
        lemma_dec_is_digits(n / 10);
    }
}

pub proof fn lemma_dec_differs(a: int, b: int)
    requires
        0 <= a,
        0 <= b,
        text::dec(a) == text::dec(b),
    ensures
        a == b,
    decreases a,
{
    lemma_dec_is_digits(a / 10);
    lemma_dec_is_digits(b / 10);
    assert(text::dec(a).last() == text::digit(a % 10));
    assert(text::dec(b).last() == text::digit(b % 10));
    assert(a % 10 == b % 10);
    if a >= 10 && b >= 10 {
        assert(text::dec(a).drop_last() =~= text::dec(a / 10));
        assert(text::dec(b).drop_last() =~= text::dec(b / 10));
        lemma_dec_differs(a / 10, b / 10);
    }
}

proof fn lemma_clauses_differ(id: int, n: int)
    requires
        n >= 0,
    ensures
        blocks::clause_label(id, n) != blocks::clause_label(id, n + 1),
{
    if blocks::clause_label(id, n) == blocks::clause_label(id, n + 1) {
        let x = "__if"@ + text::signed_dec(id) + "_"@;
        assert(blocks::clause_label(id, n).skip(x.len() as int) =~= text::dec(n));
        assert(blocks::clause_label(id, n + 1).skip(x.len() as int) =~= text::dec(n + 1));
        lemma_dec_differs(n, n + 1);
    }
}

/// `.if` compares, and goes on to the next clause's label exactly where its condition does
/// not hold.
pub proof fn law_if_skips_where_condition_fails(
    kb: &Kb,
    src: SourceView,
    st: LowerView,
    t: Seq<char>,
    raw: Seq<char>,
    line: int,
) -> (r: (Seq<char>, Seq<char>, Seq<char>, Seq<char>))
    requires
        lex::strip_keyword(t, ".if"@) is Some,
        lower::if_line(kb, src, st, t, raw, line) matches Some(Ok(_)),
    ensures
        ({
            let (a, op, b, mn) = r;
            let o = lower::if_line(kb, src, st, t, raw, line)->0->Ok_0;
            &&& condition_of(kb, src.labels, lex::strip_keyword(t, ".if"@)->0, a, op, b)
            &&& o.st.stack.len() == st.stack.len() + 1 && o.st.stack.drop_last() == st.stack
            &&& o.st.stack.last() matches BlockView::If { else_seen: false, next, .. } && next == 1
            &&& o.text == machine::written(
                seq![Instr::Cmp(a, b), Instr::Branch(mn, awaited(o.st.stack.last()))],
            )
            &&& forall|u: int, v: int| #[trigger] machine::taken(mn, u, v) == !holds(op, u, v)
        }),
{
    let cond = lex::strip_keyword(t, ".if"@)->0;
    let (a, op, b, mn) = law_condition_text(
        kb,
        src.labels,
        cond,
        blocks::clause_label(st.ctr, 1),
        false,
    );
    let o = lower::if_line(kb, src, st, t, raw, line)->0->Ok_0;
    assert(o.st.stack.drop_last() =~= st.stack);
    (a, op, b, mn)
}

/// `.elseif` ends the clause before it with a jump behind the block; it is where control
/// comes when that clause is not chosen, and goes on to the next clause exactly where its
/// own condition does not hold.
pub proof fn law_elseif_tries_the_next_condition(
    kb: &Kb,
    src: SourceView,
    st: LowerView,
    t: Seq<char>,
    raw: Seq<char>,
    line: int,
) -> (r: (Seq<char>, Seq<char>, Seq<char>, Seq<char>))
    requires
        lex::strip_keyword(t, ".elseif"@) is Some,
        lower::if_line(kb, src, st, t, raw, line) matches Some(Ok(_)),
        st.stack.last() matches BlockView::If { next, .. } && next >= 0,
    ensures
        ({
            let (a, op, b, mn) = r;
            let o = lower::if_line(kb, src, st, t, raw, line)->0->Ok_0;
            let was = st.stack.last();
            let now = o.st.stack.last();
            &&& condition_of(kb, src.labels, lex::strip_keyword(t, ".elseif"@)->0, a, op, b)
            &&& o.st.stack.len() == st.stack.len() && o.st.stack.drop_last() == st.stack.drop_last()
            &&& now matches BlockView::If { else_seen: false, .. }
            &&& behind(now) == behind(was)
            &&& awaited(now) != awaited(was)
            &&& o.text == machine::written(
                seq![
                    Instr::Jmp(behind(was)),
                    Instr::Label(awaited(was)),
                    Instr::Cmp(a, b),
                    Instr::Branch(mn, awaited(now)),
                ],
            )
            &&& forall|u: int, v: int| #[trigger] machine::taken(mn, u, v) == !holds(op, u, v)
        }),
{
    lemma_if_words(t);
    let cond = lex::strip_keyword(t, ".elseif"@)->0;
    let was = st.stack.last();
    let id = was->If_id;
    let next = was->next;
    let (a, op, b, mn) = law_condition_text(
        kb,
        src.labels,
        cond,
        blocks::clause_label(id, next + 1),
        false,
    );
    let o = lower::if_line(kb, src, st, t, raw, line)->0->Ok_0;
    let now = o.st.stack.last();
    assert(now == (BlockView::If { id, next: next + 1, else_seen: false }));
    assert(o.st.stack.drop_last() =~= st.stack.drop_last());
    lemma_clauses_differ(id, next);
    lemma_else_text(id, next);
    let p = seq![Instr::Jmp(behind(was)), Instr::Label(awaited(was))];
    let q = seq![Instr::Cmp(a, b), Instr::Branch(mn, awaited(now))];
    machine::lemma_written_concat(p, q);
    assert(p + q =~= seq![
        Instr::Jmp(behind(was)),
        Instr::Label(awaited(was)),
        Instr::Cmp(a, b),
        Instr::Branch(mn, awaited(now)),
    ]);
    (a, op, b, mn)
}

proof fn lemma_else_text(id: int, n: int)
    ensures
        blocks::numbered("  jmp __if"@, id, "_end\n"@) + blocks::clause_label(id, n) + ":\n"@
            == machine::written(
            seq![
                Instr::Jmp(blocks::numbered("__if"@, id, "_end"@)),
                Instr::Label(blocks::clause_label(id, n)),
            ],
        ),
        blocks::numbered("__if"@, id, "_end:\n"@) == machine::written(
            seq![Instr::Label(blocks::numbered("__if"@, id, "_end"@))],
        ),
        (blocks::clause_label(id, n) + ":\n"@) + blocks::numbered("__if"@, id, "_end:\n"@)
            == machine::written(
            seq![
                Instr::Label(blocks::clause_label(id, n)),
                Instr::Label(blocks::numbered("__if"@, id, "_end"@)),
            ],
        ),
{
    reveal_strlit("  jmp ");
    reveal_strlit("__if");
    reveal_strlit("  jmp __if");
    reveal_strlit("_end");
    reveal_strlit("_end\n");
    reveal_strlit("\n");
    assert("  jmp __if"@ =~= "  jmp "@ + "__if"@);
    assert("_end\n"@ =~= "_end"@ + "\n"@);
    lemma_jump_text("__if"@, "  jmp __if"@, id, "_end"@, "_end\n"@);
    lemma_loop_suffixes("__if"@, id);
    let e = Instr::Label(blocks::numbered("__if"@, id, "_end"@));
    let l = Instr::Label(blocks::clause_label(id, n));
    let j = Instr::Jmp(blocks::numbered("__if"@, id, "_end"@));
    machine::lemma_written_one(e);
    lemma_written_pair(j, l);
    lemma_written_pair(l, e);
    assert(blocks::numbered("  jmp __if"@, id, "_end\n"@) + blocks::clause_label(id, n) + ":\n"@
        =~= machine::written(seq![j, l]));
}

/// `.else` ends the clause before it with a jump behind the block, and is where control
/// comes when that clause is not chosen; `.endif` is behind the block, and, where there was
/// no `.else`, also where control comes when no clause is chosen.
pub proof fn law_else_and_endif(
    kb: &Kb,
    src: SourceView,
    st: LowerView,
    raw: Seq<char>,
    line: int,
)
    requires
        st.stack.len() > 0,
        st.stack.last() is If,
    ensures
        st.stack.last() matches BlockView::If { else_seen: false, .. } ==> (lower::if_line(
            kb,
            src,
            st,
            ".else"@,
            raw,
            line,
        ) matches Some(Ok(o)) && o.text == machine::written(
            seq![Instr::Jmp(behind(st.stack.last())), Instr::Label(awaited(st.stack.last()))],
        ) && o.st.stack.drop_last() == st.stack.drop_last() && behind(o.st.stack.last()) == behind(
            st.stack.last(),
        ) && (o.st.stack.last() matches BlockView::If { else_seen: true, .. })),
        lower::if_line(kb, src, st, ".endif"@, raw, line) matches Some(Ok(o)) && o.st.stack
            == st.stack.drop_last() && o.text == machine::written(
            if st.stack.last()->else_seen {
                seq![Instr::Label(behind(st.stack.last()))]
            } else {
                seq![Instr::Label(awaited(st.stack.last())), Instr::Label(behind(st.stack.last()))]
            },
        ),
{
    lemma_if_words(".else"@);
    let b = st.stack.last();
    let id = b->If_id;
    let next = b->next;
    lemma_else_text(id, next);
    if !b->else_seen {
        let o = lower::if_line(kb, src, st, ".else"@, raw, line)->0->Ok_0;
        assert(o.st.stack.drop_last() =~= st.stack.drop_last());
    } else {
        let e = blocks::numbered("__if"@, id, "_end:\n"@);
        assert(Seq::<char>::empty() + e =~= e);
    }
}

/// A block of `.if`, a part, `.else`, another part and `.endif` runs the first part exactly
/// where the condition holds, and the other exactly where it does not; behind either part
/// control is at the end of the block.
pub proof fn law_if_else_chooses(
    kb: &Kb,
    src: SourceView,
    st: LowerView,
    t: Seq<char>,
    raw: Seq<char>,
    line: int,
    first: Seq<Instr>,
    second: Seq<Instr>,
    m: Machine,
) -> (r: (Seq<Instr>, Seq<Instr>, Seq<Instr>))
    requires
        lex::strip_keyword(t, ".if"@) is Some,
        lower::if_line(kb, src, st, t, raw, line) matches Some(Ok(o)) && ({
            let b = o.st.stack.last();
            &&& machine::free_of(first, awaited(b)) && machine::free_of(second, awaited(b))
            &&& machine::free_of(first, behind(b)) && machine::free_of(second, behind(b))
        }),
    ensures
        ({
            let (head, mid, tail) = r;
            let o = lower::if_line(kb, src, st, t, raw, line)->0->Ok_0;
            let p = head + first + mid + second + tail;
            &&& machine::written(head) == o.text
            &&& lower::if_line(kb, src, o.st, ".else"@, raw, line) matches Some(Ok(e)) && machine::written(
                mid,
            ) == e.text && (lower::if_line(kb, src, e.st, ".endif"@, raw, line) matches Some(Ok(c))
                && machine::written(tail) == c.text)
            &&& exists|x: Seq<char>, op: Seq<char>, y: Seq<char>|
                #[trigger] condition_of(
                    kb,
                    src.labels,
                    lex::strip_keyword(t, ".if"@)->0,
                    x,
                    op,
                    y,
                ) && machine::steps(p, 0, m, head.len()) == (
                    if holds(op, m.vals[x], m.vals[y]) {
                        head.len() as int
                    } else {
                        head.len() + first.len() + mid.len() - 1
                    },
                    comparing(m, x, y),
                )
            &&& p[head.len() + first.len() + mid.len() - 1] is Label
            &&& machine::steps(p, (head.len() + first.len()) as int, m, 1) == (p.len() - 1, m)
            &&& tail.len() == 1 && tail[0] is Label
        }),
{
    let o = lower::if_line(kb, src, st, t, raw, line)->0->Ok_0;
    let b = o.st.stack.last();
    let (x, op, y, mn) = law_if_skips_where_condition_fails(kb, src, st, t, raw, line);
    law_else_and_endif(kb, src, o.st, raw, line);
    let e = lower::if_line(kb, src, o.st, ".else"@, raw, line)->0->Ok_0;
    lemma_if_words(".else"@);
    assert(e.st.stack.len() > 0);
    law_else_and_endif(kb, src, e.st, raw, line);
    lemma_clause_is_not_end(b->If_id, b->next);
    let head = seq![Instr::Cmp(x, y), Instr::Branch(mn, awaited(b))];
    let mid = seq![Instr::Jmp(behind(b)), Instr::Label(awaited(b))];
    let tail = seq![Instr::Label(behind(b))];
    let p = head + first + mid + second + tail;
    let n = first.len() as int;
    reveal_with_fuel(machine::steps, 3);
    assert(p[0] == head[0] && p[1] == head[1]);
    assert(p[2 + n] == mid[0] && p[2 + n + 1] == mid[1]);
    assert(p[p.len() - 1] == tail[0]);
    assert forall|k: int| 0 <= k < 2 + n + 1 implies #[trigger] p[k] != Instr::Label(awaited(b)) by {
        if 2 <= k < 2 + n {
            assert(p[k] == first[k - 2]);
        }
    }
    machine::lemma_label_from(p, awaited(b), 0, 2 + n + 1);
    assert forall|k: int| 0 <= k < p.len() - 1 implies #[trigger] p[k] != Instr::Label(behind(b)) by {
        if 2 <= k < 2 + n {
            assert(p[k] == first[k - 2]);
        } else if k >= 4 + n {
            assert(p[k] == second[k - 4 - n]);
        }
    }
    machine::lemma_label_from(p, behind(b), 0, p.len() - 1);
    assert(machine::taken(mn, m.vals[x], m.vals[y]) == !holds(op, m.vals[x], m.vals[y]));
    assert(condition_of(kb, src.labels, lex::strip_keyword(t, ".if"@)->0, x, op, y));
    (head, mid, tail)
}

// ── procedures ──────────────────────────────────────────────────────────────

/// The pushes of `uses`, in order.
pub open spec fn pushes_of(uses: Seq<Seq<char>>) -> Seq<Instr> {
    Seq::new(uses.len(), |i: int| Instr::Push(uses[i]))
}

/// The pops of `uses`, from the last to the first.
pub open spec fn pops_of(uses: Seq<Seq<char>>) -> Seq<Instr> {
    Seq::new(uses.len(), |i: int| Instr::Pop(uses[uses.len() - 1 - i]))
}

proof fn lemma_pushes_written(uses: Seq<Seq<char>>)
    ensures
        machine::written(pushes_of(uses)) == blocks::pushes(uses),
    decreases uses.len(),
{
    if uses.len() > 0 {
        lemma_pushes_written(uses.drop_last());
        assert(pushes_of(uses).drop_last() =~= pushes_of(uses.drop_last()));
    } else {
        assert(pushes_of(uses) =~= Seq::empty());
    }
}

proof fn lemma_pops_split(uses: Seq<Seq<char>>)
    requires
        uses.len() > 0,
    ensures
        pops_of(uses) == seq![Instr::Pop(uses.last())] + pops_of(uses.drop_last()),
{
    assert(pops_of(uses) =~= seq![Instr::Pop(uses.last())] + pops_of(uses.drop_last()));
}

proof fn lemma_pops_written(uses: Seq<Seq<char>>)
    ensures
        machine::written(pops_of(uses)) == blocks::pops(uses),
    decreases uses.len(),
{
    if uses.len() > 0 {
        lemma_pops_written(uses.drop_last());
        lemma_pops_split(uses);
        machine::lemma_written_concat(seq![Instr::Pop(uses.last())], pops_of(uses.drop_last()));
        machine::lemma_written_one(Instr::Pop(uses.last()));
    } else {
        assert(pops_of(uses) =~= Seq::empty());
    }
}

/// The words that the pushes of `uses` leave below `top`.
pub open spec fn saved_below(uses: Seq<Seq<char>>, m: Machine, mem: Map<int, int>, top: int) -> bool {
    forall|i: int| 0 <= i < uses.len() ==> mem[top - 8 * (i + 1)] == m.vals[#[trigger] uses[i]]
}

proof fn lemma_run_pushes(uses: Seq<Seq<char>>, m: Machine)
    requires
        forall|i: int| 0 <= i < uses.len() ==> #[trigger] uses[i] != "rsp"@,
    ensures
        ({
            let e = machine::run(pushes_of(uses), m);
            &&& e.vals == m.vals.insert("rsp"@, m.sp() - 8 * uses.len())
            &&& e.addrs == m.addrs
            &&& e.compared == m.compared
            &&& saved_below(uses, m, e.mem, m.sp())
            &&& forall|a: int| a >= m.sp() ==> #[trigger] e.mem[a] == m.mem[a]
        }) || uses.len() == 0,
        uses.len() == 0 ==> machine::run(pushes_of(uses), m) == m,
    decreases uses.len(),
{
    if uses.len() == 0 {
        assert(pushes_of(uses) =~= Seq::empty());
    } else {
        let w = uses.drop_last();
        assert forall|i: int| 0 <= i < w.len() implies #[trigger] w[i] != "rsp"@ by {
            assert(w[i] == uses[i]);
        }
        assert(uses[uses.len() - 1] != "rsp"@);
        lemma_run_pushes(w, m);
        assert(pushes_of(uses).drop_last() =~= pushes_of(w));
        let b = machine::run(pushes_of(w), m);
        let e = machine::run(pushes_of(uses), m);
        assert(e == machine::done(Instr::Push(uses.last()), b));
        assert(b.sp() == m.sp() - 8 * w.len());
        assert(b.vals[uses.last()] == m.vals[uses.last()]);
        assert(e.vals =~= m.vals.insert("rsp"@, m.sp() - 8 * uses.len()));
        assert forall|i: int| 0 <= i < uses.len() implies e.mem[m.sp() - 8 * (i + 1)]
            == m.vals[#[trigger] uses[i]] by {
            if i < w.len() {
                assert(w[i] == uses[i]);
            }
        }
        assert forall|a: int| a >= m.sp() implies #[trigger] e.mem[a] == m.mem[a] by {
            assert(b.mem[a] == m.mem[a]);
        }
    }
}

proof fn lemma_run_pops(uses: Seq<Seq<char>>, orig: Machine, m: Machine, top: int)
    requires
        forall|i: int| 0 <= i < uses.len() ==> #[trigger] uses[i] != "rsp"@,
        m.sp() == top - 8 * uses.len(),
        saved_below(uses, orig, m.mem, top),
    ensures
        ({
            let e = machine::run(pops_of(uses), m);
            &&& e.sp() == top
            &&& e.mem == m.mem
            &&& forall|i: int| 0 <= i < uses.len() ==> e.vals[#[trigger] uses[i]] == orig.vals[uses[i]]
            &&& forall|x: Seq<char>|
                x != "rsp"@ && !uses.contains(x) ==> #[trigger] e.vals[x] == m.vals[x]
        }),
    decreases uses.len(),
{
    if uses.len() == 0 {
        assert(pops_of(uses) =~= Seq::empty());
    } else {
        let w = uses.drop_last();
        let u = uses.last();
        assert(uses[uses.len() - 1] == u);
        lemma_pops_split(uses);
        let b = machine::done(Instr::Pop(u), m);
        machine::lemma_run_one(Instr::Pop(u), m);
        machine::lemma_run_concat(seq![Instr::Pop(u)], pops_of(w), m);
        assert forall|i: int| 0 <= i < w.len() implies #[trigger] w[i] != "rsp"@ by {
            assert(w[i] == uses[i]);
        }
        assert forall|i: int| 0 <= i < w.len() implies b.mem[top - 8 * (i + 1)]
            == orig.vals[#[trigger] w[i]] by {
            assert(w[i] == uses[i]);
        }
        assert(b.vals[u] == orig.vals[u]) by {
            assert(m.mem[top - 8 * ((uses.len() - 1) + 1)] == orig.vals[uses[uses.len() - 1]]);
        }
        assert(b.sp() == top - 8 * w.len());
        lemma_run_pops(w, orig, b, top);
        let e = machine::run(pops_of(uses), m);
        assert(e == machine::run(pops_of(w), b));
        assert forall|i: int| 0 <= i < uses.len() implies e.vals[#[trigger] uses[i]]
            == orig.vals[uses[i]] by {
            if i < w.len() {
                assert(w[i] == uses[i]);
            } else if w.contains(u) {
                let k = choose|k: int| 0 <= k < w.len() && w[k] == u;
                assert(e.vals[w[k]] == orig.vals[w[k]]);
            }
        }
        assert forall|x: Seq<char>| x != "rsp"@ && !uses.contains(x) implies #[trigger] e.vals[x]
            == m.vals[x] by {
            if w.contains(x) {
                let k = choose|k: int| 0 <= k < w.len() && w[k] == x;
                assert(uses[k] == x);
            }
            assert(uses[uses.len() - 1] != x);
        }
    }
}

/// What a body leaves as it was: the words from the saved registers up to the return
/// address, and the register that finds them again (the frame's anchor, or the stack
/// pointer itself).
pub open spec fn body_keeps(entry: Machine, start: Machine, end: Machine, saved: int, frame: int) -> bool {
    &&& forall|a: int|
        entry.sp() - 8 * saved <= a <= entry.sp() ==> #[trigger] end.mem[a] == start.mem[a]
    &&& if frame > 0 {
        end.vals["rbp"@] == start.vals["rbp"@]
    } else {
        end.sp() == start.sp()
    }
}

/// A procedure gives its caller back what it found. The prologue changes nothing but the
/// stack (and the anchor of a frame), and reserves the frame, aligned. Whatever the body
/// then does, so long as it keeps what was saved: behind the epilogue every saved
/// register holds what it held on entry, so does the anchor of a frame, the stack is
/// where it was, the return goes to the caller, and every other register is as the body
/// left it.
pub proof fn law_epilogue_undoes_prologue(
    name: Seq<char>,
    uses: Seq<Seq<char>>,
    frame: int,
    entry: Machine,
    end: Machine,
) -> (r: (Seq<Instr>, Seq<Instr>))
    requires
        forall|i: int| 0 <= i < uses.len() ==> #[trigger] uses[i] != "rsp"@ && uses[i] != "rip"@,
        frame >= 0,
    ensures
        machine::written(r.0) == blocks::prologue(name, uses, frame),
        machine::written(r.1) == blocks::epilogue(uses, frame),
        ({
            let start = machine::run(r.0, entry);
            &&& forall|x: Seq<char>|
                x != "rsp"@ && (frame > 0 ==> x != "rbp"@) ==> #[trigger] start.vals[x] == entry.vals[x]
            &&& frame > 0 && frame % 16 == 0 ==> start.sp() % 16 == 0
            &&& frame > 0 ==> start.sp() + frame <= entry.sp() - 8 * uses.len() - 8
        }),
        body_keeps(
            entry,
            machine::run(r.0, entry),
            end,
            uses.len() + (if frame > 0 {
                1int
            } else {
                0
            }),
            frame,
        ) ==> ({
            let back = machine::run(r.1, end);
            &&& forall|i: int|
                0 <= i < uses.len() ==> back.vals[#[trigger] uses[i]] == entry.vals[uses[i]]
            &&& frame > 0 ==> back.vals["rbp"@] == entry.vals["rbp"@]
            &&& back.sp() == entry.sp() + 8
            &&& back.vals["rip"@] == entry.mem[entry.sp()]
            &&& forall|x: Seq<char>|
                x != "rsp"@ && x != "rip"@ && (frame > 0 ==> x != "rbp"@) && !uses.contains(x)
                    ==> #[trigger] back.vals[x] == end.vals[x]
        }),
{
    let n = uses.len() as int;
    let lab = seq![Instr::Label(name)];
    let ps = pushes_of(uses);
    let f = if frame > 0 {
        seq![
            Instr::Push("rbp"@),
            Instr::Mov("rbp"@, "rsp"@),
            Instr::Align,
            Instr::Reserve(frame),
        ]
    } else {
        Seq::empty()
    };
    let g = if frame > 0 {
        seq![Instr::Mov("rsp"@, "rbp"@), Instr::Pop("rbp"@)]
    } else {
        Seq::empty()
    };
    let qs = pops_of(uses);
    let ret = seq![Instr::Ret];
    let p = lab + ps + f;
    let q = g + qs + ret;
    machine::lemma_names_differ();
    let names = machine::convention_names();
    assert(names[0] == "rsp"@ && names[1] == "rbp"@ && names[3] == "rip"@);
    // how it is written
    machine::lemma_written_one(Instr::Label(name));
    lemma_pushes_written(uses);
    lemma_pops_written(uses);
    machine::lemma_written_one(Instr::Ret);
    machine::lemma_written_concat(lab, ps);
    machine::lemma_written_concat(lab + ps, f);
    machine::lemma_written_concat(g, qs);
    machine::lemma_written_concat(g + qs, ret);
    lemma_frame_written(frame);
    assert(machine::written(p) =~= blocks::prologue(name, uses, frame));
    assert(machine::written(q) =~= blocks::epilogue(uses, frame));
    // the prologue
    machine::lemma_run_one(Instr::Label(name), entry);
    machine::lemma_run_concat(lab, ps, entry);
    machine::lemma_run_concat(lab + ps, f, entry);
    lemma_run_pushes(uses, entry);
    let b = machine::run(ps, entry);
    assert(machine::run(lab + ps, entry) == b);
    assert(b.sp() == entry.sp() - 8 * n);
    let start = machine::run(p, entry);
    assert(start == machine::run(f, b));
    if frame > 0 {
        lemma_frame_opens(frame, b);
    } else {
        assert(start == b);
    }
    // the epilogue
    let saved = n + (if frame > 0 {
        1int
    } else {
        0
    });
    if body_keeps(entry, start, end, saved, frame) {
        let c = machine::run(g, end);
        machine::lemma_run_concat(g, qs, end);
        machine::lemma_run_concat(g + qs, ret, end);
        if frame > 0 {
            lemma_frame_closes(end);
            assert(end.vals["rbp"@] == b.sp() - 8);
            assert(end.mem[b.sp() - 8] == start.mem[b.sp() - 8]);
        } else {
            assert(c == end);
        }
        assert(c.sp() == b.sp());
        assert(saved_below(uses, entry, c.mem, entry.sp())) by {
            assert forall|i: int| 0 <= i < uses.len() implies c.mem[entry.sp() - 8 * (i + 1)]
                == entry.vals[#[trigger] uses[i]] by {
                assert(end.mem[entry.sp() - 8 * (i + 1)] == start.mem[entry.sp() - 8 * (i + 1)]);
                assert(b.mem[entry.sp() - 8 * (i + 1)] == entry.vals[uses[i]]);
            }
        }
        lemma_run_pops(uses, entry, c, entry.sp());
        let d = machine::run(qs, c);
        machine::lemma_run_one(Instr::Ret, d);
        let back = machine::run(q, end);
        assert(back == machine::done(Instr::Ret, d));
        assert(end.mem[entry.sp()] == start.mem[entry.sp()]);
        assert(b.mem[entry.sp()] == entry.mem[entry.sp()]);
        assert forall|i: int| 0 <= i < uses.len() implies back.vals[#[trigger] uses[i]]
            == entry.vals[uses[i]] by {
            assert(d.vals[uses[i]] == entry.vals[uses[i]]);
        }
        if frame > 0 {
            assert(start.mem[b.sp() - 8] == b.vals["rbp"@]);
            assert(c.vals["rbp"@] == entry.vals["rbp"@]);
            if uses.contains("rbp"@) {
                let k = choose|k: int| 0 <= k < uses.len() && uses[k] == "rbp"@;
                assert(d.vals[uses[k]] == entry.vals[uses[k]]);
            } else {
                assert(d.vals["rbp"@] == c.vals["rbp"@]);
            }
        }
        assert forall|x: Seq<char>|
            x != "rsp"@ && x != "rip"@ && (frame > 0 ==> x != "rbp"@) && !uses.contains(x) implies #[trigger] back.vals[x]
            == end.vals[x] by {
            assert(d.vals[x] == c.vals[x]);
        }
    }
    (p, q)
}

proof fn lemma_frame_written(frame: int)
    ensures
        machine::written(
            seq![
                Instr::Push("rbp"@),
                Instr::Mov("rbp"@, "rsp"@),
                Instr::Align,
                Instr::Reserve(frame),
            ],
        ) == "  push rbp\n  mov rbp, rsp\n  and rsp, -16\n"@ + "  sub rsp, "@ + text::signed_dec(frame)
            + "\n"@,
        machine::written(seq![Instr::Mov("rsp"@, "rbp"@), Instr::Pop("rbp"@)])
            == "  mov rsp, rbp\n  pop rbp\n"@,
{
    reveal_with_fuel(machine::written, 5);
    let a = seq![
        Instr::Push("rbp"@),
        Instr::Mov("rbp"@, "rsp"@),
        Instr::Align,
        Instr::Reserve(frame),
    ];
    let b = seq![Instr::Mov("rsp"@, "rbp"@), Instr::Pop("rbp"@)];
    assert(a.drop_last() =~= seq![Instr::Push("rbp"@), Instr::Mov("rbp"@, "rsp"@), Instr::Align]);
    assert(a.drop_last().drop_last() =~= seq![Instr::Push("rbp"@), Instr::Mov("rbp"@, "rsp"@)]);
    assert(a.drop_last().drop_last().drop_last() =~= seq![Instr::Push("rbp"@)]);
    assert(a.drop_last().drop_last().drop_last().drop_last() =~= Seq::empty());
    assert(b.drop_last() =~= seq![Instr::Mov("rsp"@, "rbp"@)]);
    assert(b.drop_last().drop_last() =~= Seq::empty());
    reveal_strlit("  push ");
    reveal_strlit("  pop ");
    reveal_strlit("  mov ");
    reveal_strlit(", ");
    reveal_strlit("\n");
    reveal_strlit("rbp");
    reveal_strlit("rsp");
    reveal_strlit("  and rsp, -16\n");
    reveal_strlit("  sub rsp, ");
    reveal_strlit("  push rbp\n  mov rbp, rsp\n  and rsp, -16\n");
    reveal_strlit("  mov rsp, rbp\n  pop rbp\n");
    assert(machine::written_one(Instr::Push("rbp"@)) + machine::written_one(Instr::Mov("rbp"@, "rsp"@)) + machine::written_one(
        Instr::Align,
    ) =~= "  push rbp\n  mov rbp, rsp\n  and rsp, -16\n"@);
    assert(machine::written(a.drop_last()) =~= "  push rbp\n  mov rbp, rsp\n  and rsp, -16\n"@);
    assert(machine::written(b) =~= "  mov rsp, rbp\n  pop rbp\n"@);
}

proof fn lemma_frame_opens(frame: int, m: Machine)
    requires
        frame > 0,
    ensures
        ({
            let p = seq![
                Instr::Push("rbp"@),
                Instr::Mov("rbp"@, "rsp"@),
                Instr::Align,
                Instr::Reserve(frame),
            ];
            let e = machine::run(p, m);
            &&& e.vals["rbp"@] == m.sp() - 8
            &&& e.mem == m.mem.insert(m.sp() - 8, m.vals["rbp"@])
            &&& e.sp() == m.sp() - 8 - (m.sp() - 8) % 16 - frame
            &&& forall|x: Seq<char>|
                x != "rsp"@ && x != "rbp"@ ==> #[trigger] e.vals[x] == m.vals[x]
        }),
{
    machine::lemma_names_differ();
    let names = machine::convention_names();
    assert(names[0] == "rsp"@ && names[1] == "rbp"@);
    reveal_with_fuel(machine::run, 5);
    let a = seq![
        Instr::Push("rbp"@),
        Instr::Mov("rbp"@, "rsp"@),
        Instr::Align,
        Instr::Reserve(frame),
    ];
    assert(a.drop_last() =~= seq![Instr::Push("rbp"@), Instr::Mov("rbp"@, "rsp"@), Instr::Align]);
    assert(a.drop_last().drop_last() =~= seq![Instr::Push("rbp"@), Instr::Mov("rbp"@, "rsp"@)]);
    assert(a.drop_last().drop_last().drop_last() =~= seq![Instr::Push("rbp"@)]);
    assert(a.drop_last().drop_last().drop_last().drop_last() =~= Seq::empty());
}

proof fn lemma_frame_closes(m: Machine)
    ensures
        ({
            let e = machine::run(seq![Instr::Mov("rsp"@, "rbp"@), Instr::Pop("rbp"@)], m);
            &&& e.sp() == m.vals["rbp"@] + 8
            &&& e.vals["rbp"@] == m.mem[m.vals["rbp"@]]
            &&& e.mem == m.mem
            &&& forall|x: Seq<char>|
                x != "rsp"@ && x != "rbp"@ ==> #[trigger] e.vals[x] == m.vals[x]
        }),
{
    machine::lemma_names_differ();
    let names = machine::convention_names();
    assert(names[0] == "rsp"@ && names[1] == "rbp"@);
    reveal_with_fuel(machine::run, 3);
    let b = seq![Instr::Mov("rsp"@, "rbp"@), Instr::Pop("rbp"@)];
    assert(b.drop_last() =~= seq![Instr::Mov("rsp"@, "rbp"@)]);
    assert(b.drop_last().drop_last() =~= Seq::empty());
}

} // verus!
