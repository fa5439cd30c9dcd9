//! What a lowered call does: the text is read as a program of the machine model, and the
//! program puts every argument where the Win64 calling convention wants it.
use crate::text;
use crate::was::calls;
use crate::was::lex;
use crate::was::machine;
use crate::was::operands;
use crate::was::regs;
use crate::was::machine::{Instr, Machine};
use crate::winkb::kb::Kb;
use vstd::prelude::*;

verus! {

/// The integer registers of the first four arguments, as the convention lists them.
pub open spec fn win64_registers() -> Seq<Seq<char>> {
    seq!["rcx"@, "rdx"@, "r8"@, "r9"@]
}

/// The vector register of argument `i`.
pub open spec fn win64_float_register(i: int) -> Seq<char> {
    "xmm"@ + text::signed_dec(i)
}

/// A bare symbol: an identifier that is no register.
pub open spec fn is_symbol(r: Seq<char>) -> bool {
    &&& r.len() > 0
    &&& text::is_alpha(r[0]) || r[0] == '_'
    &&& lex::ident_chars(r)
    &&& !regs::names_register(r)
}

/// What a resolved operand stands for: a symbol for its address, anything else for its
/// value.
pub open spec fn operand_value(m: Machine, res: Seq<char>) -> int {
    let r = text::trim(res);
    if is_symbol(r) {
        m.addrs[r]
    } else {
        m.vals[r]
    }
}

/// The argument without a float annotation.
pub open spec fn bare_arg(arg: Seq<char>) -> Seq<char> {
    match calls::float_annotation(arg) {
        Some((_, v)) => v,
        None => arg,
    }
}

/// The argument goes into a vector register: it is annotated, or its parameter is a float.
pub open spec fn goes_as_float(arg: Seq<char>, ty: Option<Seq<char>>) -> bool {
    calls::float_annotation(arg) is Some || (ty matches Some(t) && calls::float_kind(t) is Some)
}

/// An operand that marshalling leaves alone: none of the registers that it uses.
pub open spec fn undisturbed(res: Seq<char>) -> bool {
    let r = text::trim(res);
    &&& r != "rax"@ && r != "rcx"@ && r != "rdx"@ && r != "r8"@ && r != "r9"@ && r != "rsp"@
    &&& forall|k: int| 0 <= k < 4 ==> r != #[trigger] win64_float_register(k)
}

/// The arguments resolve to operands that marshalling leaves alone.
pub open spec fn all_undisturbed(kb: &Kb, labels: Seq<Seq<char>>, args: Seq<Seq<char>>) -> bool {
    forall|i: int|
        0 <= i < args.len() ==> (operands::resolved(kb, labels, bare_arg(#[trigger] args[i])) matches Ok(r)
            ==> undisturbed(r))
}

/// The value of an argument.
pub open spec fn arg_value(kb: &Kb, labels: Seq<Seq<char>>, arg: Seq<char>, m: Machine) -> int {
    operand_value(m, operands::resolved(kb, labels, bare_arg(arg))->Ok_0)
}

/// The two machines agree but for the registers that marshalling uses.
pub open spec fn only_arguments_change(m: Machine, e: Machine) -> bool {
    &&& e.addrs == m.addrs && e.singles == m.singles
    &&& e.sp() == m.sp()
    &&& forall|x: Seq<char>| undisturbed(x) && text::trim(x) == x ==> #[trigger] e.vals[x] == m.vals[x]
}

pub proof fn lemma_trim_twice(s: Seq<char>)
    ensures
        text::trim(text::trim(s)) == text::trim(s),
{
    let t = text::trim_start(s);
    text::lemma_first_from(s, text::not_ws(), 0);
    text::lemma_last_below(t, text::not_ws(), t.len() as int);
    let u = text::trim(s);
    assert(u.len() > 0 ==> u[0] == t[0] && u.last() == t[u.len() - 1]);
    text::lemma_first_from(u, text::not_ws(), 0);
    if u.len() > 0 {
        assert(t[0] == s[text::first_from(s, text::not_ws(), 0)]);
        assert(text::first_from(u, text::not_ws(), 0) == 0);
        assert(text::trim_start(u) =~= u);
        text::lemma_last_below(u, text::not_ws(), u.len() as int);
        assert(text::last_below(u, text::not_ws(), u.len() as int) == u.len() - 1);
        assert(u.take(u.len() as int) =~= u);
    } else {
        assert(text::trim_start(u) =~= u);
        assert(u.take(0) =~= u);
    }
}

/// The instruction that loads an operand into a register.
pub open spec fn load_of(reg: Seq<char>, res: Seq<char>) -> Instr {
    let r = text::trim(res);
    if is_symbol(r) {
        Instr::Lea(reg, r)
    } else {
        Instr::Mov(reg, r)
    }
}

proof fn lemma_load_written(reg: Seq<char>, res: Seq<char>)
    ensures
        machine::written_one(load_of(reg, res)) == calls::load_text(reg, res),
{
    let r = text::trim(res);
    if is_symbol(r) {
        assert(r[0] != '[');
        reveal_strlit(", [rip + ");
        reveal_strlit("]\n");
    }
}

proof fn lemma_float_names()
    ensures
        forall|i: int, j: int|
            0 <= i < 4 && 0 <= j < 4 && i != j ==> #[trigger] win64_float_register(i)
                != #[trigger] win64_float_register(j),
        forall|i: int|
            0 <= i < 4 ==> (#[trigger] win64_float_register(i)) != "rax"@ && win64_float_register(i)
                != "rcx"@ && win64_float_register(i) != "rdx"@ && win64_float_register(i) != "r8"@
                && win64_float_register(i) != "r9"@ && win64_float_register(i) != "rsp"@
                && win64_float_register(i) != "rbx"@,
{
    reveal_strlit("xmm");
    reveal_strlit("rax");
    reveal_strlit("rcx");
    reveal_strlit("rdx");
    reveal_strlit("r8");
    reveal_strlit("r9");
    reveal_strlit("rsp");
    reveal_strlit("rbx");
    assert forall|i: int| 0 <= i < 4 implies (#[trigger] win64_float_register(i)) != "rax"@
        && win64_float_register(i) != "rcx"@ && win64_float_register(i) != "rdx"@
        && win64_float_register(i) != "r8"@ && win64_float_register(i) != "r9"@
        && win64_float_register(i) != "rsp"@ && win64_float_register(i) != "rbx"@ by {
        assert(win64_float_register(i)[0] == 'x');
        assert("rax"@[0] == 'r' && "rcx"@[0] == 'r' && "rdx"@[0] == 'r' && "r8"@[0] == 'r' && "r9"@[0]
            == 'r' && "rsp"@[0] == 'r' && "rbx"@[0] == 'r');
    }
    assert forall|i: int, j: int| 0 <= i < 4 && 0 <= j < 4 && i != j implies #[trigger] win64_float_register(
        i,
    ) != #[trigger] win64_float_register(j) by {
        assert(win64_float_register(i)[3] == text::digit(i));
        assert(win64_float_register(j)[3] == text::digit(j));
    }
}

// ── stack arguments ─────────────────────────────────────────────────────────

/// The address of the slot of argument `i`, from the fifth on: behind the 32 bytes of
/// shadow space, eight bytes each.
pub open spec fn stack_slot(m: Machine, i: int) -> int {
    m.sp() + 32 + 8 * (i - 4)
}

#[verifier::spinoff_prover]
proof fn lemma_stack_args(
    kb: &Kb,
    labels: Seq<Seq<char>>,
    args: Seq<Seq<char>>,
    idx: int,
    m: Machine,
) -> (p: Seq<Instr>)
    requires
        4 <= idx,
        calls::stack_args_from(kb, labels, args, idx) is Ok,
        all_undisturbed(kb, labels, args),
    ensures
        machine::written(p) == calls::stack_args_from(kb, labels, args, idx)->Ok_0,
        forall|i: int|
            idx <= i < args.len() ==> operands::resolved(kb, labels, bare_arg(#[trigger] args[i])) is Ok,
        ({
            let e = machine::run(p, m);
            &&& e.addrs == m.addrs && e.singles == m.singles
            &&& forall|x: Seq<char>| x != "rax"@ ==> #[trigger] e.vals[x] == m.vals[x]
            &&& forall|i: int|
                idx <= i < args.len() ==> e.mem[stack_slot(m, i)] == arg_value(
                    kb,
                    labels,
                    #[trigger] args[i],
                    m,
                )
            &&& forall|a: int|
                (a < stack_slot(m, idx) || a >= stack_slot(m, args.len() as int)) ==> #[trigger] e.mem[a]
                    == m.mem[a]
        }),
    decreases args.len() - idx,
{
    if idx >= args.len() {
        Seq::empty()
    } else {
        machine::lemma_names_differ();
        let names = machine::convention_names();
        assert(names[0] == "rsp"@ && names[4] == "rax"@);
        let v = bare_arg(args[idx]);
        let res = operands::resolved(kb, labels, v)->Ok_0;
        lemma_load_written("rax"@, res);
        let a = load_of("rax"@, res);
        let b = Instr::Store(32 + (idx - 4) * 8, "rax"@);
        let m1 = machine::done(a, m);
        let m2 = machine::done(b, m1);
        let head = seq![a, b];
        machine::lemma_run_one(a, m);
        machine::lemma_run_one(b, m1);
        machine::lemma_run_concat(seq![a], seq![b], m);
        machine::lemma_written_one(a);
        machine::lemma_written_one(b);
        machine::lemma_written_concat(seq![a], seq![b]);
        assert(seq![a] + seq![b] =~= head);
        assert(m1.vals["rax"@] == operand_value(m, res));
        assert(m2.mem[stack_slot(m, idx)] == operand_value(m, res));
        reveal_strlit("], ");
        reveal_strlit("rax");
        reveal_strlit("\n");
        reveal_strlit("], rax\n");
        assert("], rax\n"@ =~= "], "@ + "rax"@ + "\n"@);
        assert(machine::written_one(b) =~= "  mov [rsp + "@ + text::signed_dec(32 + (idx - 4) * 8) + "], rax\n"@);
        let rest = lemma_stack_args(kb, labels, args, idx + 1, m2);
        machine::lemma_written_concat(head, rest);
        machine::lemma_run_concat(head, rest, m);
        let e = machine::run(head + rest, m);
        assert(e == machine::run(rest, m2));
        assert(m2.sp() == m.sp());
        assert forall|i: int| idx <= i < args.len() implies e.mem[stack_slot(m, i)] == arg_value(
            kb,
            labels,
            #[trigger] args[i],
            m,
        ) by {
            if i > idx {
                assert(stack_slot(m2, i) == stack_slot(m, i));
                lemma_value_kept(kb, labels, args, i, m, m2);
            } else {
                assert(stack_slot(m, idx) < stack_slot(m2, idx + 1));
                assert(e.mem[stack_slot(m, idx)] == m2.mem[stack_slot(m, idx)]);
            }
        }
        assert forall|a: int|
            (a < stack_slot(m, idx) || a >= stack_slot(m, args.len() as int)) implies #[trigger] e.mem[a]
            == m.mem[a] by {
            assert(m2.mem[a] == m.mem[a]);
        }
        head + rest
    }
}

proof fn lemma_value_kept(
    kb: &Kb,
    labels: Seq<Seq<char>>,
    args: Seq<Seq<char>>,
    i: int,
    m: Machine,
    e: Machine,
)
    requires
        0 <= i < args.len(),
        all_undisturbed(kb, labels, args),
        operands::resolved(kb, labels, bare_arg(args[i])) is Ok,
        e.addrs == m.addrs,
        forall|x: Seq<char>| undisturbed(x) && text::trim(x) == x ==> #[trigger] e.vals[x] == m.vals[x],
    ensures
        arg_value(kb, labels, args[i], e) == arg_value(kb, labels, args[i], m),
{
    let res = operands::resolved(kb, labels, bare_arg(args[i]))->Ok_0;
    assert(undisturbed(res));
    lemma_trim_twice(res);
    assert(undisturbed(text::trim(res)));
}

// ── register arguments ──────────────────────────────────────────────────────

/// The float argument is eight bytes wide.
pub open spec fn is_wide(arg: Seq<char>, ty: Option<Seq<char>>) -> bool {
    match calls::float_annotation(arg) {
        Some((wide, _)) => wide,
        None => ty matches Some(t) && calls::float_kind(t) == Some(true),
    }
}

/// The register of argument `i` holds it: a float is in the vector register of that
/// number, in its width, and anything else in the integer register of that number.
pub open spec fn register_holds(
    kb: &Kb,
    labels: Seq<Seq<char>>,
    arg: Seq<char>,
    ty: Option<Seq<char>>,
    i: int,
    m: Machine,
    e: Machine,
) -> bool {
    let res = operands::resolved(kb, labels, bare_arg(arg))->Ok_0;
    if goes_as_float(arg, ty) {
        e.vals[win64_float_register(i)] == if is_wide(arg, ty) {
            m.vals[text::trim(res)]
        } else {
            m.singles[text::trim(res)]
        }
    } else {
        e.vals[win64_registers()[i]] == operand_value(m, res)
    }
}

/// The instruction that puts argument `i` into its register.
spec fn register_instr(
    kb: &Kb,
    labels: Seq<Seq<char>>,
    arg: Seq<char>,
    ty: Option<Seq<char>>,
    i: int,
) -> Instr {
    let res = operands::resolved(kb, labels, bare_arg(arg))->Ok_0;
    if goes_as_float(arg, ty) {
        Instr::MovFloat(is_wide(arg, ty), i, text::trim(res))
    } else {
        load_of(win64_registers()[i], res)
    }
}

proof fn lemma_register_written(
    kb: &Kb,
    labels: Seq<Seq<char>>,
    arg: Seq<char>,
    ty: Option<Seq<char>>,
    i: int,
)
    requires
        0 <= i < 4,
        calls::register_arg(kb, labels, i, arg, ty) is Ok,
    ensures
        operands::resolved(kb, labels, bare_arg(arg)) is Ok,
        machine::written(seq![register_instr(kb, labels, arg, ty, i)]) == calls::register_arg(
            kb,
            labels,
            i,
            arg,
            ty,
        )->Ok_0,
{
    let x = register_instr(kb, labels, arg, ty, i);
    machine::lemma_written_one(x);
    let res = operands::resolved(kb, labels, bare_arg(arg))->Ok_0;
    assert(win64_registers()[i] == calls::arg_reg(i));
    lemma_load_written(win64_registers()[i], res);
}

proof fn lemma_register_done(
    kb: &Kb,
    labels: Seq<Seq<char>>,
    arg: Seq<char>,
    ty: Option<Seq<char>>,
    i: int,
    m: Machine,
)
    requires
        0 <= i < 4,
    ensures
        ({
            let e = machine::done(register_instr(kb, labels, arg, ty, i), m);
            &&& register_holds(kb, labels, arg, ty, i, m, e)
            &&& only_arguments_change(m, e)
            &&& e.mem == m.mem
            &&& forall|j: int|
                0 <= j < 4 && j != i ==> e.vals[#[trigger] win64_registers()[j]]
                    == m.vals[win64_registers()[j]]
            &&& forall|j: int|
                0 <= j < 4 && j != i ==> e.vals[#[trigger] win64_float_register(j)]
                    == m.vals[win64_float_register(j)]
            &&& e.vals["rax"@] == m.vals["rax"@]
        }),
{
    machine::lemma_names_differ();
    let names = machine::convention_names();
    assert(names[0] == "rsp"@ && names[4] == "rax"@ && names[5] == "rcx"@ && names[6] == "rdx"@
        && names[7] == "r8"@ && names[8] == "r9"@);
    lemma_float_names();
    let w = win64_registers();
    assert(w[0] == "rcx"@ && w[1] == "rdx"@ && w[2] == "r8"@ && w[3] == "r9"@);
    let e = machine::done(register_instr(kb, labels, arg, ty, i), m);
    assert forall|x: Seq<char>| undisturbed(x) && text::trim(x) == x implies #[trigger] e.vals[x]
        == m.vals[x] by {
        assert(x != win64_float_register(i));
    }
    assert(win64_float_register(i) != "rsp"@);
    assert forall|j: int| 0 <= j < 4 && j != i implies e.vals[#[trigger] win64_registers()[j]]
        == m.vals[win64_registers()[j]] by {
        assert(win64_float_register(i) != w[j]);
        assert(w[i] != w[j]);
    }
    assert forall|j: int| 0 <= j < 4 && j != i implies e.vals[#[trigger] win64_float_register(j)]
        == m.vals[win64_float_register(j)] by {
        assert(win64_float_register(i) != win64_float_register(j));
        assert(w[i] != win64_float_register(j));
    }
}

/// What register arguments from `idx` on leave behind.
spec fn registers_filled(
    kb: &Kb,
    labels: Seq<Seq<char>>,
    args: Seq<Seq<char>>,
    tys: Seq<Option<Seq<char>>>,
    idx: int,
    m: Machine,
    e: Machine,
) -> bool {
    &&& e.mem == m.mem
    &&& only_arguments_change(m, e)
    &&& e.vals["rax"@] == m.vals["rax"@]
    &&& forall|i: int|
        idx <= i < args.len() && i < 4 ==> register_holds(
            kb,
            labels,
            #[trigger] args[i],
            calls::type_at(tys, i),
            i,
            m,
            e,
        )
    &&& forall|j: int|
        0 <= j < idx && j < 4 ==> e.vals[#[trigger] win64_registers()[j]]
            == m.vals[win64_registers()[j]]
    &&& forall|j: int|
        0 <= j < idx && j < 4 ==> e.vals[#[trigger] win64_float_register(j)]
            == m.vals[win64_float_register(j)]
}

#[verifier::spinoff_prover]
proof fn lemma_register_args(
    kb: &Kb,
    labels: Seq<Seq<char>>,
    args: Seq<Seq<char>>,
    tys: Seq<Option<Seq<char>>>,
    idx: int,
    m: Machine,
) -> (p: Seq<Instr>)
    requires
        0 <= idx <= 4,
        calls::register_args_from(kb, labels, args, tys, idx) is Ok,
        all_undisturbed(kb, labels, args),
    ensures
        machine::written(p) == calls::register_args_from(kb, labels, args, tys, idx)->Ok_0,
        forall|i: int|
            idx <= i < args.len() && i < 4 ==> operands::resolved(
                kb,
                labels,
                bare_arg(#[trigger] args[i]),
            ) is Ok,
        registers_filled(kb, labels, args, tys, idx, m, machine::run(p, m)),
    decreases 4 - idx,
{
    if idx >= args.len() || idx >= 4 {
        Seq::empty()
    } else {
        let arg = args[idx];
        let ty = calls::type_at(tys, idx);
        lemma_register_written(kb, labels, arg, ty, idx);
        lemma_register_done(kb, labels, arg, ty, idx, m);
        let x = register_instr(kb, labels, arg, ty, idx);
        let m1 = machine::done(x, m);
        let rest = lemma_register_args(kb, labels, args, tys, idx + 1, m1);
        machine::lemma_written_concat(seq![x], rest);
        machine::lemma_run_concat(seq![x], rest, m);
        machine::lemma_run_one(x, m);
        let e = machine::run(seq![x] + rest, m);
        assert(e == machine::run(rest, m1));
        assert(only_arguments_change(m, e));
        assert forall|i: int| idx <= i < args.len() && i < 4 implies register_holds(
            kb,
            labels,
            #[trigger] args[i],
            calls::type_at(tys, i),
            i,
            m,
            e,
        ) by {
            if i == idx {
                assert(e.vals[win64_registers()[idx]] == m1.vals[win64_registers()[idx]]);
                assert(e.vals[win64_float_register(idx)] == m1.vals[win64_float_register(idx)]);
            } else {
                let res = operands::resolved(kb, labels, bare_arg(args[i]))->Ok_0;
                assert(undisturbed(res));
                lemma_trim_twice(res);
                assert(undisturbed(text::trim(res)));
                assert(m1.vals[text::trim(res)] == m.vals[text::trim(res)]);
                assert(register_holds(kb, labels, args[i], calls::type_at(tys, i), i, m1, e));
            }
        }
        assert forall|j: int| 0 <= j < idx && j < 4 implies e.vals[#[trigger] win64_registers()[j]]
            == m.vals[win64_registers()[j]] by {
            assert(e.vals[win64_registers()[j]] == m1.vals[win64_registers()[j]]);
        }
        assert forall|j: int| 0 <= j < idx && j < 4 implies e.vals[#[trigger] win64_float_register(j)]
            == m.vals[win64_float_register(j)] by {
            assert(e.vals[win64_float_register(j)] == m1.vals[win64_float_register(j)]);
        }
        seq![x] + rest
    }
}

/// Every argument is where the callee looks for it: the first four in their registers, the
/// others in their stack slots.
pub open spec fn passes(
    kb: &Kb,
    labels: Seq<Seq<char>>,
    args: Seq<Seq<char>>,
    tys: Seq<Option<Seq<char>>>,
    m: Machine,
    e: Machine,
) -> bool {
    &&& forall|i: int|
        0 <= i < args.len() && i < 4 ==> register_holds(
            kb,
            labels,
            #[trigger] args[i],
            calls::type_at(tys, i),
            i,
            m,
            e,
        )
    &&& forall|i: int|
        4 <= i < args.len() ==> e.mem[stack_slot(e, i)] == arg_value(
            kb,
            labels,
            #[trigger] args[i],
            m,
        )
}

/// Marshalled arguments are passed as the Win64 convention asks: argument 0 in `rcx`, 1 in
/// `rdx`, 2 in `r8`, 3 in `r9` (a float among them in `xmm0` to `xmm3`), and from the fifth
/// on in slots of eight bytes behind the shadow space. The stack pointer stays, and so does
/// everything else.
pub proof fn law_arguments_reach_their_places(
    kb: &Kb,
    labels: Seq<Seq<char>>,
    args: Seq<Seq<char>>,
    tys: Seq<Option<Seq<char>>>,
    m: Machine,
) -> (p: Seq<Instr>)
    requires
        calls::arguments(kb, labels, args, tys) is Ok,
        all_undisturbed(kb, labels, args),
    ensures
        calls::arguments(kb, labels, args, tys) == Ok::<Seq<char>, Seq<char>>(machine::written(p)),
        passes(kb, labels, args, tys, m, machine::run(p, m)),
        only_arguments_change(m, machine::run(p, m)),
        forall|a: int|
            a < m.sp() + 32 || a >= m.sp() + 32 + calls::stack_arg_bytes(args.len() as int)
                ==> #[trigger] machine::run(p, m).mem[a] == m.mem[a],
{
    let a = lemma_stack_args(kb, labels, args, 4, m);
    let m1 = machine::run(a, m);
    machine::lemma_names_differ();
    let names = machine::convention_names();
    assert(names[0] == "rsp"@ && names[4] == "rax"@);
    let b = lemma_register_args(kb, labels, args, tys, 0, m1);
    machine::lemma_written_concat(a, b);
    machine::lemma_run_concat(a, b, m);
    let e = machine::run(a + b, m);
    assert(e == machine::run(b, m1));
    assert(m1.sp() == m.sp());
    assert forall|x: Seq<char>| undisturbed(x) && text::trim(x) == x implies #[trigger] e.vals[x]
        == m.vals[x] by {
        assert(m1.vals[x] == m.vals[x]);
    }
    assert forall|i: int| 0 <= i < args.len() && i < 4 implies register_holds(
        kb,
        labels,
        #[trigger] args[i],
        calls::type_at(tys, i),
        i,
        m,
        e,
    ) by {
        let res = operands::resolved(kb, labels, bare_arg(args[i]))->Ok_0;
        assert(undisturbed(res));
        assert(m1.vals[text::trim(res)] == m.vals[text::trim(res)]);
        assert(register_holds(kb, labels, args[i], calls::type_at(tys, i), i, m1, e));
    }
    assert forall|i: int| 4 <= i < args.len() implies e.mem[stack_slot(e, i)] == arg_value(
        kb,
        labels,
        #[trigger] args[i],
        m,
    ) by {
        assert(stack_slot(e, i) == stack_slot(m, i));
    }
    assert forall|x: int|
        x < m.sp() + 32 || x >= m.sp() + 32 + calls::stack_arg_bytes(args.len() as int) implies #[trigger] e.mem[x]
        == m.mem[x] by {
        assert(m1.mem[x] == m.mem[x]);
    }
    a + b
}

// ── whole calls ─────────────────────────────────────────────────────────────

/// The arguments resolve to operands other than `rbx`, which anchors a call's own frame.
pub open spec fn none_is_rbx(kb: &Kb, labels: Seq<Seq<char>>, args: Seq<Seq<char>>) -> bool {
    forall|i: int|
        0 <= i < args.len() ==> (operands::resolved(kb, labels, bare_arg(#[trigger] args[i])) matches Ok(r)
            ==> text::trim(r) != "rbx"@)
}

/// What a callee keeps of the state `at` of its caller: the stack pointer and `rbx`, and
/// the word at `saved`.
pub open spec fn callee_keeps(at: Machine, back: Machine, saved: int) -> bool {
    &&& back.sp() == at.sp()
    &&& back.vals["rbx"@] == at.vals["rbx"@]
    &&& back.mem[saved] == at.mem[saved]
}

/// A state in which a call can be made: the arguments are passed, and there is room for the
/// shadow space and the stack arguments; a call with a frame of its own is aligned and
/// touches nothing of its caller's stack.
pub open spec fn ready(
    kb: &Kb,
    labels: Seq<Seq<char>>,
    args: Seq<Seq<char>>,
    tys: Seq<Option<Seq<char>>>,
    framed: bool,
    m: Machine,
    at: Machine,
) -> bool {
    &&& passes(kb, labels, args, tys, m, at)
    &&& framed ==> at.sp() == m.sp()
    &&& !framed ==> {
        &&& at.sp() % 16 == 0
        &&& at.sp() + 32 + 8 * (args.len() - 4) <= m.sp() - 8 && at.sp() + 32 <= m.sp() - 8
        &&& forall|a: int| a >= m.sp() ==> #[trigger] at.mem[a] == m.mem[a]
    }
}

/// Behind a call the stack pointer and `rbx` are what they were in front of it, and every
/// other register is as the callee left it.
pub open spec fn call_leaves(m: Machine, back: Machine, e: Machine) -> bool {
    &&& e.sp() == m.sp()
    &&& e.vals["rbx"@] == m.vals["rbx"@]
    &&& forall|x: Seq<char>| x != "rsp"@ && x != "rbx"@ ==> #[trigger] e.vals[x] == back.vals[x]
}

spec fn frame_instrs(n: int) -> Seq<Instr> {
    seq![
        Instr::Push("rbx"@),
        Instr::Mov("rbx"@, "rsp"@),
        Instr::Align,
        Instr::Reserve(32 + calls::round16(calls::stack_arg_bytes(n))),
    ]
}

spec fn unframe_instrs() -> Seq<Instr> {
    seq![Instr::Mov("rsp"@, "rbx"@), Instr::Pop("rbx"@)]
}

proof fn lemma_own_frame_written(n: int)
    ensures
        machine::written(frame_instrs(n)) == calls::own_frame(n),
        machine::written(unframe_instrs()) == calls::drop_frame(),
{
    let a = frame_instrs(n);
    let b = unframe_instrs();
    reveal_with_fuel(machine::written, 5);
    assert(a.drop_last() =~= seq![Instr::Push("rbx"@), Instr::Mov("rbx"@, "rsp"@), Instr::Align]);
    assert(a.drop_last().drop_last() =~= seq![Instr::Push("rbx"@), Instr::Mov("rbx"@, "rsp"@)]);
    assert(a.drop_last().drop_last().drop_last() =~= seq![Instr::Push("rbx"@)]);
    assert(a.drop_last().drop_last().drop_last().drop_last() =~= Seq::empty());
    assert(b.drop_last() =~= seq![Instr::Mov("rsp"@, "rbx"@)]);
    assert(b.drop_last().drop_last() =~= Seq::empty());
    reveal_strlit("  push ");
    reveal_strlit("  pop ");
    reveal_strlit("  mov ");
    reveal_strlit(", ");
    reveal_strlit("\n");
    reveal_strlit("rbx");
    reveal_strlit("rsp");
    reveal_strlit("  and rsp, -16\n");
    reveal_strlit("  sub rsp, ");
    reveal_strlit("  push rbx\n  mov rbx, rsp\n  and rsp, -16\n");
    reveal_strlit("  mov rsp, rbx\n  pop rbx\n");
    assert(machine::written(a.drop_last()) =~= "  push rbx\n  mov rbx, rsp\n  and rsp, -16\n"@);
    assert(machine::written(b) =~= "  mov rsp, rbx\n  pop rbx\n"@);
    assert(machine::written(a) =~= calls::own_frame(n));
}

proof fn lemma_own_frame_runs(n: int, m: Machine, back: Machine)
    requires
        n >= 0,
    ensures
        ({
            let e = machine::run(frame_instrs(n), m);
            &&& e.vals["rbx"@] == m.sp() - 8
            &&& e.mem == m.mem.insert(m.sp() - 8, m.vals["rbx"@])
            &&& e.sp() % 16 == 0
            &&& e.sp() + 32 + calls::stack_arg_bytes(n) <= m.sp() - 8
            &&& e.addrs == m.addrs && e.singles == m.singles
            &&& forall|x: Seq<char>|
                x != "rsp"@ && x != "rbx"@ ==> #[trigger] e.vals[x] == m.vals[x]
        }),
        ({
            let e = machine::run(unframe_instrs(), back);
            &&& e.sp() == back.vals["rbx"@] + 8
            &&& e.vals["rbx"@] == back.mem[back.vals["rbx"@]]
            &&& forall|x: Seq<char>|
                x != "rsp"@ && x != "rbx"@ ==> #[trigger] e.vals[x] == back.vals[x]
        }),
{
    machine::lemma_names_differ();
    let names = machine::convention_names();
    assert(names[0] == "rsp"@ && names[2] == "rbx"@);
    reveal_with_fuel(machine::run, 5);
    let a = frame_instrs(n);
    let b = unframe_instrs();
    assert(a.drop_last() =~= seq![Instr::Push("rbx"@), Instr::Mov("rbx"@, "rsp"@), Instr::Align]);
    assert(a.drop_last().drop_last() =~= seq![Instr::Push("rbx"@), Instr::Mov("rbx"@, "rsp"@)]);
    assert(a.drop_last().drop_last().drop_last() =~= seq![Instr::Push("rbx"@)]);
    assert(a.drop_last().drop_last().drop_last().drop_last() =~= Seq::empty());
    assert(b.drop_last() =~= seq![Instr::Mov("rsp"@, "rbx"@)]);
    assert(b.drop_last().drop_last() =~= Seq::empty());
    let k = calls::stack_arg_bytes(n);
    assert(calls::round16(k) >= k && calls::round16(k) % 16 == 0);
}

/// The frame of a call and its arguments: what stands before the call itself.
#[verifier::spinoff_prover]
proof fn lemma_ready(
    kb: &Kb,
    labels: Seq<Seq<char>>,
    args: Seq<Seq<char>>,
    tys: Seq<Option<Seq<char>>>,
    framed: bool,
    m: Machine,
) -> (p: Seq<Instr>)
    requires
        calls::arguments(kb, labels, args, tys) is Ok,
        all_undisturbed(kb, labels, args),
        framed || none_is_rbx(kb, labels, args),
    ensures
        machine::written(p) == calls::only_if(!framed, calls::own_frame(args.len() as int))
            + calls::arguments(kb, labels, args, tys)->Ok_0,
        ready(kb, labels, args, tys, framed, m, machine::run(p, m)),
        !framed ==> machine::run(p, m).vals["rbx"@] == m.sp() - 8 && machine::run(p, m).mem[m.sp() - 8]
            == m.vals["rbx"@],
        framed ==> machine::run(p, m).vals["rbx"@] == m.vals["rbx"@],
{
    let n = args.len() as int;
    let f = if framed {
        Seq::empty()
    } else {
        frame_instrs(n)
    };
    let m1 = machine::run(f, m);
    let a = law_arguments_reach_their_places(kb, labels, args, tys, m1);
    lemma_own_frame_written(n);
    lemma_own_frame_runs(n, m, m);
    machine::lemma_written_concat(f, a);
    machine::lemma_run_concat(f, a, m);
    let e = machine::run(f + a, m);
    assert(e == machine::run(a, m1));
    machine::lemma_names_differ();
    let names = machine::convention_names();
    assert(names[0] == "rsp"@ && names[2] == "rbx"@ && names[4] == "rax"@ && names[5] == "rcx"@ && names[6]
        == "rdx"@ && names[7] == "r8"@ && names[8] == "r9"@);
    lemma_float_names();
    assert(undisturbed("rbx"@) && text::trim("rbx"@) == "rbx"@) by {
        lemma_trim_name();
    }
    assert(e.vals["rbx"@] == m1.vals["rbx"@]);
    assert forall|i: int| 0 <= i < args.len() implies operands::resolved(
        kb,
        labels,
        bare_arg(#[trigger] args[i]),
    ) is Ok by {
        lemma_arguments_resolve(kb, labels, args, tys, i);
    }
    assert forall|i: int| 0 <= i < args.len() && i < 4 implies register_holds(
        kb,
        labels,
        #[trigger] args[i],
        calls::type_at(tys, i),
        i,
        m,
        e,
    ) by {
        assert(register_holds(kb, labels, args[i], calls::type_at(tys, i), i, m1, e));
        let res = operands::resolved(kb, labels, bare_arg(args[i]))->Ok_0;
        assert(undisturbed(res));
    }
    assert forall|i: int| 4 <= i < args.len() implies e.mem[stack_slot(e, i)] == arg_value(
        kb,
        labels,
        #[trigger] args[i],
        m,
    ) by {
        let res = operands::resolved(kb, labels, bare_arg(args[i]))->Ok_0;
        assert(undisturbed(res));
    }
    if !framed {
        assert(e.mem[m.sp() - 8] == m1.mem[m.sp() - 8]);
        assert forall|x: int| x >= m.sp() implies #[trigger] e.mem[x] == m.mem[x] by {
            assert(m1.mem[x] == m.mem[x]);
        }
    }
    f + a
}

proof fn lemma_trim_name()
    ensures
        text::trim("rbx"@) == "rbx"@,
        text::trim("rcx"@) == "rcx"@,
{
    reveal_strlit("rbx");
    reveal_strlit("rcx");
    lemma_trim_plain("rbx"@);
    lemma_trim_plain("rcx"@);
}

pub proof fn lemma_trim_plain(s: Seq<char>)
    requires
        s.len() > 0,
        !text::is_ws(s[0]),
        !text::is_ws(s.last()),
    ensures
        text::trim(s) == s,
        text::trim_start(s) == s,
{
    text::lemma_first_from(s, text::not_ws(), 0);
    assert(text::first_from(s, text::not_ws(), 0) == 0);
    assert(text::trim_start(s) =~= s);
    text::lemma_last_below(s, text::not_ws(), s.len() as int);
    assert(text::last_below(s, text::not_ws(), s.len() as int) == s.len() - 1);
    assert(s.take(s.len() as int) =~= s);
}

proof fn lemma_arguments_resolve(
    kb: &Kb,
    labels: Seq<Seq<char>>,
    args: Seq<Seq<char>>,
    tys: Seq<Option<Seq<char>>>,
    i: int,
)
    requires
        calls::arguments(kb, labels, args, tys) is Ok,
        0 <= i < args.len(),
    ensures
        operands::resolved(kb, labels, bare_arg(args[i])) is Ok,
{
    if i >= 4 {
        lemma_stack_resolves(kb, labels, args, 4, i);
    } else {
        lemma_register_resolves(kb, labels, args, tys, 0, i);
    }
}

proof fn lemma_stack_resolves(
    kb: &Kb,
    labels: Seq<Seq<char>>,
    args: Seq<Seq<char>>,
    idx: int,
    i: int,
)
    requires
        calls::stack_args_from(kb, labels, args, idx) is Ok,
        idx <= i < args.len(),
    ensures
        operands::resolved(kb, labels, bare_arg(args[i])) is Ok,
    decreases i - idx,
{
    if idx < i {
        lemma_stack_resolves(kb, labels, args, idx + 1, i);
    }
}

proof fn lemma_register_resolves(
    kb: &Kb,
    labels: Seq<Seq<char>>,
    args: Seq<Seq<char>>,
    tys: Seq<Option<Seq<char>>>,
    idx: int,
    i: int,
)
    requires
        calls::register_args_from(kb, labels, args, tys, idx) is Ok,
        idx <= i < args.len(),
        i < 4,
    ensures
        operands::resolved(kb, labels, bare_arg(args[i])) is Ok,
    decreases i - idx,
{
    if idx < i {
        lemma_register_resolves(kb, labels, args, tys, idx + 1, i);
    }
}

/// A lowered `invoke` is a whole call: in front of the `call` of the function every argument
/// is in its place, and behind it the caller has its stack and its `rbx` back.
pub proof fn law_invoke_makes_the_call(
    kb: &Kb,
    labels: Seq<Seq<char>>,
    func: Seq<char>,
    args: Seq<Seq<char>>,
    framed: bool,
    m: Machine,
    back: Machine,
) -> (r: (Seq<Instr>, Seq<Instr>))
    requires
        calls::call_text(kb, labels, func, args, framed) is Ok,
        all_undisturbed(kb, labels, args),
        framed || none_is_rbx(kb, labels, args),
    ensures
        calls::call_text(kb, labels, func, args, framed) == Ok::<Seq<char>, Seq<char>>(
            machine::written(r.0 + seq![Instr::Call(func)] + r.1),
        ),
        ready(
            kb,
            labels,
            args,
            calls::param_types(kb, func),
            framed,
            m,
            machine::run(r.0, m),
        ),
        callee_keeps(machine::run(r.0, m), back, m.sp() - 8) ==> call_leaves(
            m,
            back,
            machine::run(r.1, back),
        ),
{
    let tys = calls::param_types(kb, func);
    let n = args.len() as int;
    let note = seq![
        Instr::Note("invoke "@ + func + " ("@ + text::signed_dec(n) + " args)"@),
    ];
    let a = lemma_ready(kb, labels, args, tys, framed, m);
    let tail = if framed {
        Seq::empty()
    } else {
        unframe_instrs()
    };
    let p = note + a;
    lemma_own_frame_written(n);
    lemma_own_frame_runs(n, m, back);
    machine::lemma_written_one(note[0]);
    machine::lemma_written_one(Instr::Call(func));
    machine::lemma_written_concat(note, a);
    machine::lemma_written_concat(p, seq![Instr::Call(func)]);
    machine::lemma_written_concat(p + seq![Instr::Call(func)], tail);
    machine::lemma_run_concat(note, a, m);
    machine::lemma_run_one(note[0], m);
    assert(seq![note[0]] =~= note);
    reveal_strlit("  ; ");
    reveal_strlit("invoke ");
    reveal_strlit("  ; invoke ");
    reveal_strlit(" args)");
    reveal_strlit(" args)\n");
    reveal_strlit("\n");
    assert("  ; invoke "@ =~= "  ; "@ + "invoke "@);
    assert(" args)\n"@ =~= " args)"@ + "\n"@);
    let head = "  ; invoke "@ + func + " ("@ + text::signed_dec(n) + " args)\n"@;
    assert(machine::written(note) =~= head);
    assert(machine::written(p + seq![Instr::Call(func)] + tail) =~= calls::call_text(
        kb,
        labels,
        func,
        args,
        framed,
    )->Ok_0);
    (p, tail)
}

proof fn lemma_vtable_call_written(said: Seq<char>, a: Seq<Instr>, v: int, tail: Seq<Instr>)
    ensures
        machine::written(
            seq![Instr::Note(said)] + a + seq![
                Instr::Fetch("rax"@, "rcx"@),
                Instr::CallSlot("rax"@, 8 * v),
            ] + tail,
        ) == "  ; "@ + said + "\n"@ + machine::written(a) + "  mov rax, [rcx]\n"@
            + "  call qword ptr [rax + "@ + text::signed_dec(8 * v) + "]\n"@ + machine::written(tail),
{
    let note = seq![Instr::Note(said)];
    let f = Instr::Fetch("rax"@, "rcx"@);
    let c = Instr::CallSlot("rax"@, 8 * v);
    machine::lemma_written_one(Instr::Note(said));
    machine::lemma_written_one(f);
    machine::lemma_written_one(c);
    machine::lemma_written_concat(seq![f], seq![c]);
    assert(seq![f] + seq![c] =~= seq![f, c]);
    machine::lemma_written_concat(note, a);
    machine::lemma_written_concat(note + a, seq![f, c]);
    machine::lemma_written_concat(note + a + seq![f, c], tail);
    reveal_strlit("rax");
    reveal_strlit("rcx");
    reveal_strlit("  mov ");
    reveal_strlit(", [");
    reveal_strlit("]\n");
    reveal_strlit("  mov rax, [rcx]\n");
    reveal_strlit("  call qword ptr [");
    reveal_strlit(" + ");
    reveal_strlit("  call qword ptr [rax + ");
    assert("  mov rax, [rcx]\n"@ =~= machine::written_one(f));
    assert("  call qword ptr [rax + "@ =~= "  call qword ptr ["@ + "rax"@ + " + "@);
    assert(machine::written_one(c) =~= "  call qword ptr [rax + "@ + text::signed_dec(8 * v)
        + "]\n"@);
    assert(machine::written(note + a + seq![f, c] + tail) =~= "  ; "@ + said + "\n"@
        + machine::written(a) + "  mov rax, [rcx]\n"@ + "  call qword ptr [rax + "@
        + text::signed_dec(8 * v) + "]\n"@ + machine::written(tail));
}

proof fn lemma_comcall_parts(
    kb: &Kb,
    labels: Seq<Seq<char>>,
    rest: Seq<char>,
    framed: bool,
    head: Seq<char>,
    args: Seq<char>,
    tail: Seq<char>,
)
    requires
        calls::comcall_text(kb, labels, rest, framed) is Ok,
        ({
            let parts = lex::split_commas(rest);
            let iface = text::trim(parts[1]);
            let name = text::trim(parts[2]);
            let m = operands::com_method(kb, iface, name)->0;
            let all = com_args(rest);
            &&& head == "  ; comcall "@ + iface + "::"@ + name + "  (vtbl["@ + text::signed_dec(
                m.vtable_index as int,
            ) + "], this + "@ + text::signed_dec(all.len() - 1) + " arg(s))\n"@
            &&& args == calls::only_if(!framed, calls::own_frame(all.len() as int))
                + calls::arguments(kb, labels, all, calls::method_types(m))->Ok_0
            &&& tail == calls::only_if(!framed, calls::drop_frame())
        }),
    ensures
        ({
            let parts = lex::split_commas(rest);
            let m = operands::com_method(kb, text::trim(parts[1]), text::trim(parts[2]))->0;
            calls::comcall_text(kb, labels, rest, framed)->Ok_0 == head + args
                + "  mov rax, [rcx]\n"@ + "  call qword ptr [rax + "@ + text::signed_dec(
                8 * (m.vtable_index as int),
            ) + "]\n"@ + tail
        }),
{
    let parts = lex::split_commas(rest);
    let m = operands::com_method(kb, text::trim(parts[1]), text::trim(parts[2]))->0;
    assert(m.vtable_index * 8 == 8 * (m.vtable_index as int));
    assert(calls::comcall_text(kb, labels, rest, framed)->Ok_0 =~= head + args
        + "  mov rax, [rcx]\n"@ + "  call qword ptr [rax + "@ + text::signed_dec(
        8 * (m.vtable_index as int),
    ) + "]\n"@ + tail);
}

/// A lowered COM call is a whole call too: the object is argument 0, so that it is in `rcx`
/// as `this`, and the call goes through the method's slot, eight bytes each, of the table
/// that the object's first word points to.
pub proof fn law_comcall_goes_through_the_vtable(
    kb: &Kb,
    labels: Seq<Seq<char>>,
    rest: Seq<char>,
    framed: bool,
    m: Machine,
    back: Machine,
) -> (r: (Seq<Instr>, Seq<Instr>))
    requires
        calls::comcall_text(kb, labels, rest, framed) is Ok,
        all_undisturbed(kb, labels, com_args(rest)),
        framed || none_is_rbx(kb, labels, com_args(rest)),
        calls::float_annotation(com_args(rest)[0]) is None,
    ensures
        ({
            let parts = lex::split_commas(rest);
            let method = operands::com_method(kb, text::trim(parts[1]), text::trim(parts[2]));
            &&& method is Some
            &&& calls::comcall_text(kb, labels, rest, framed) == Ok::<Seq<char>, Seq<char>>(
                machine::written(
                    r.0 + seq![
                        Instr::Fetch("rax"@, "rcx"@),
                        Instr::CallSlot("rax"@, 8 * (method->0.vtable_index as int)),
                    ] + r.1,
                ),
            )
            &&& ready(
                kb,
                labels,
                com_args(rest),
                calls::method_types(method->0),
                framed,
                m,
                machine::run(r.0, m),
            )
            &&& machine::run(r.0, m).vals["rcx"@] == arg_value(kb, labels, com_args(rest)[0], m)
            &&& callee_keeps(machine::run(r.0, m), back, m.sp() - 8) ==> call_leaves(
                m,
                back,
                machine::run(r.1, back),
            )
        }),
{
    let parts = lex::split_commas(rest);
    let iface = text::trim(parts[1]);
    let name = text::trim(parts[2]);
    let method = operands::com_method(kb, iface, name)->0;
    let all = com_args(rest);
    let tys = calls::method_types(method);
    let n = all.len() as int;
    let note = seq![
        Instr::Note(
            "comcall "@ + iface + "::"@ + name + "  (vtbl["@ + text::signed_dec(
                method.vtable_index as int,
            ) + "], this + "@ + text::signed_dec(n - 1) + " arg(s))"@,
        ),
    ];
    assert(all =~= seq![text::trim(parts[0])] + lex::trim_each(parts.skip(3)));
    let a = lemma_ready(kb, labels, all, tys, framed, m);
    let tail = if framed {
        Seq::empty()
    } else {
        unframe_instrs()
    };
    let p = note + a;
    lemma_own_frame_written(n);
    lemma_own_frame_runs(n, m, back);
    machine::lemma_run_concat(note, a, m);
    machine::lemma_run_one(note[0], m);
    assert(seq![note[0]] =~= note);
    let said = "comcall "@ + iface + "::"@ + name + "  (vtbl["@ + text::signed_dec(
        method.vtable_index as int,
    ) + "], this + "@ + text::signed_dec(n - 1) + " arg(s))"@;
    lemma_vtable_call_written(said, a, method.vtable_index as int, tail);
    reveal_strlit("  ; ");
    reveal_strlit("comcall ");
    reveal_strlit("  ; comcall ");
    reveal_strlit(" arg(s))");
    reveal_strlit(" arg(s))\n");
    reveal_strlit("\n");
    assert("  ; comcall "@ =~= "  ; "@ + "comcall "@);
    assert(" arg(s))\n"@ =~= " arg(s))"@ + "\n"@);
    let head = "  ; comcall "@ + iface + "::"@ + name + "  (vtbl["@ + text::signed_dec(
        method.vtable_index as int,
    ) + "], this + "@ + text::signed_dec(n - 1) + " arg(s))\n"@;
    assert("  ; "@ + said + "\n"@ =~= head);
    lemma_comcall_parts(kb, labels, rest, framed, head, machine::written(a), machine::written(tail));
    let at = machine::run(p, m);
    assert(register_holds(kb, labels, all[0], calls::type_at(tys, 0), 0, m, at));
    assert(calls::type_at(tys, 0) is None);
    (p, tail)
}

/// The arguments of `comcall obj, Interface, Method, args…`: the object, then the others.
pub open spec fn com_args(rest: Seq<char>) -> Seq<Seq<char>> {
    let parts = lex::split_commas(rest);
    seq![text::trim(parts[0])] + lex::trim_each(parts.skip(3))
}

// ── floats and names ────────────────────────────────────────────────────────

proof fn lemma_annotated(kw: Seq<char>, v: Seq<char>)
    requires
        kw.len() > 0,
        !text::is_ws(kw[0]),
        v.len() > 0,
        !text::is_ws(v[0]),
        !text::is_ws(v.last()),
    ensures
        text::trim(kw + " "@ + v) == kw + " "@ + v,
        calls::annotated(kw + " "@ + v, kw) == Some(v),
{
    reveal_strlit(" ");
    let a = kw + " "@ + v;
    assert(a[0] == kw[0] && a.last() == v.last());
    lemma_trim_plain(a);
    assert(a.take(kw.len() as int) =~= kw);
    let rest = a.skip(kw.len() as int);
    assert(rest =~= " "@ + v);
    assert(rest[0] == ' ');
    text::lemma_first_from(rest, text::not_ws(), 0);
    let f = text::first_from(rest, text::not_ws(), 0);
    assert(f == 1) by {
        assert(rest[1] == v[0]);
        assert(text::not_ws()(rest[1]));
        if f == 0 {
            assert(text::not_ws()(rest[0]));
        }
    }
    assert(rest.skip(1) =~= v);
}

/// The words `real4` and `f32` in front of an argument make it a single, `real8` and `f64` a
/// double; the parameter types `f32`, `float`, `FLOAT` and `single` are singles, `f64` and
/// `double` doubles, and a pointer to one is neither.
pub proof fn law_float_words(v: Seq<char>)
    requires
        v.len() > 0,
        !text::is_ws(v[0]),
        !text::is_ws(v.last()),
    ensures
        calls::float_annotation("real4"@ + " "@ + v) == Some((false, v)),
        calls::float_annotation("f32"@ + " "@ + v) == Some((false, v)),
        calls::float_annotation("real8"@ + " "@ + v) == Some((true, v)),
        calls::float_annotation("f64"@ + " "@ + v) == Some((true, v)),
        calls::float_kind("f32"@) == Some(false),
        calls::float_kind("float"@) == Some(false),
        calls::float_kind("FLOAT"@) == Some(false),
        calls::float_kind("single"@) == Some(false),
        calls::float_kind("f64"@) == Some(true),
        calls::float_kind("double"@) == Some(true),
        calls::float_kind("f32*"@) is None && calls::float_kind("f64*"@) is None,
{
    reveal_strlit("real4");
    reveal_strlit("f32");
    reveal_strlit("real8");
    reveal_strlit("f64");
    reveal_strlit("float");
    reveal_strlit("FLOAT");
    reveal_strlit("single");
    reveal_strlit("double");
    reveal_strlit("f32*");
    reveal_strlit("f64*");
    reveal_strlit(" ");
    lemma_annotated("real4"@, v);
    lemma_annotated("f32"@, v);
    lemma_annotated("real8"@, v);
    lemma_annotated("f64"@, v);
    let b = "f32"@ + " "@ + v;
    let c = "real8"@ + " "@ + v;
    let d = "f64"@ + " "@ + v;
    assert(!text::starts_with(b, "real4"@)) by {
        if b.len() >= 5 {
            assert(b.take(5)[0] == 'f');
        }
    }
    assert(!text::starts_with(c, "real4"@)) by {
        assert(c.take(5)[4] == '8');
    }
    assert(!text::starts_with(c, "f32"@)) by {
        assert(c.take(3)[0] == 'r');
    }
    assert(!text::starts_with(d, "real4"@) && !text::starts_with(d, "real8"@)) by {
        if d.len() >= 5 {
            assert(d.take(5)[0] == 'f');
        }
    }
    assert(!text::starts_with(d, "f32"@)) by {
        assert(d.take(3)[1] == '6');
    }
    lemma_trim_plain("f32"@);
    lemma_trim_plain("f64"@);
    lemma_trim_plain("float"@);
    lemma_trim_plain("FLOAT"@);
    lemma_trim_plain("single"@);
    lemma_trim_plain("double"@);
    lemma_trim_plain("f32*"@);
    lemma_trim_plain("f64*"@);
    assert("f32*"@.len() == 4 && "f64*"@.len() == 4 && "f32"@.len() == 3 && "f64"@.len() == 3
        && "float"@.len() == 5 && "FLOAT"@.len() == 5 && "single"@.len() == 6 && "double"@.len()
        == 6);
    assert("f64"@[1] == '6' && "f32"@[1] == '3' && "double"@[0] == 'd' && "single"@[0] == 's');
}

/// An `invoke` calls the function that its list names first with the rest of the list, each
/// argument trimmed; where the function is known with another number of parameters, a comment
/// stands in front, and without a name it is refused.
pub proof fn law_invoke_calls_what_it_names(
    kb: &Kb,
    labels: Seq<Seq<char>>,
    func: Seq<char>,
    args: Seq<Seq<char>>,
    rest: Seq<char>,
    framed: bool,
)
    requires
        lex::split_commas(rest).len() == args.len() + 1,
        text::trim(lex::split_commas(rest)[0]) == func,
        forall|i: int|
            0 <= i < args.len() ==> #[trigger] args[i] == text::trim(
                lex::split_commas(rest)[i + 1],
            ),
    ensures
        func.len() == 0 ==> calls::invoke_text(kb, labels, rest, framed) is Err,
        func.len() > 0 ==> (match calls::call_text(kb, labels, func, args, framed) {
            Ok(c) => {
                &&& calls::invoke_text(kb, labels, rest, framed) matches Ok(t) && (if (
                kb.spec_function(func) matches Some(f) && f.params@.len() != args.len()) {
                    t.len() > c.len() && t.skip(t.len() - c.len()) == c && text::starts_with(
                        t,
                        "  ; "@,
                    )
                } else {
                    t == c
                })
            },
            Err(m) => calls::invoke_text(kb, labels, rest, framed) == Err::<Seq<char>, Seq<char>>(m),
        }),
{
    let parts = lex::split_commas(rest);
    let mine = lex::trim_each(parts.drop_first());
    assert(mine =~= args) by {
        assert forall|i: int| 0 <= i < args.len() implies mine[i] == args[i] by {
            assert(parts.drop_first()[i] == parts[i + 1]);
        }
    }
    if func.len() > 0 {
        if let Some(f) = kb.spec_function(func) {
            let w = calls::arity_warning(func, f.params@.len() as int, args.len() as int);
            reveal_strlit("  ; WARNING: ");
            reveal_strlit("  ; ");
            if let Ok(c) = calls::call_text(kb, labels, func, args, framed) {
                assert((w + c).skip((w + c).len() - c.len()) =~= c);
                assert((w + c).take(4) =~= "  ; "@);
            }
        }
    }
}

} // verus!
