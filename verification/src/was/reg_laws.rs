//! What the register tables say: which names a register has, which registers a call keeps,
//! and what an instruction does to its operands.
use crate::text;
use crate::was::contract_laws;
use crate::was::regs;
use crate::was::regs::{Reg, Track};
use vstd::prelude::*;

verus! {

// ── names ───────────────────────────────────────────────────────────────────

/// The names of a lettered register: `rax`, `eax`, `ax`, `al`, `ah`.
pub open spec fn lettered(c: char, s: Seq<char>) -> bool {
    s == seq!['r', c, 'x'] || s == seq!['e', c, 'x'] || s == seq![c, 'x'] || s == seq![c, 'l'] || s
        == seq![c, 'h']
}

/// The names of an index or pointer register: `rsi`, `esi`, `si`, `sil`.
pub open spec fn pointing(a: char, b: char, s: Seq<char>) -> bool {
    s == seq!['r', a, b] || s == seq!['e', a, b] || s == seq![a, b] || s == seq![a, b, 'l']
}

/// The names of a numbered register: `r8`, `r8d`, `r8w`, `r8b`.
pub open spec fn numbered(n: Seq<char>, s: Seq<char>) -> bool {
    s == seq!['r'] + n || s == seq!['r'] + n + seq!['d'] || s == seq!['r'] + n + seq!['w'] || s
        == seq!['r'] + n + seq!['b']
}

/// `s` is a name of `r`, at whatever width.
pub open spec fn name_of_register(r: Reg, s: Seq<char>) -> bool {
    match r {
        Reg::Rax => lettered('a', s),
        Reg::Rbx => lettered('b', s),
        Reg::Rcx => lettered('c', s),
        Reg::Rdx => lettered('d', s),
        Reg::Rsi => pointing('s', 'i', s),
        Reg::Rdi => pointing('d', 'i', s),
        Reg::Rbp => pointing('b', 'p', s),
        Reg::Rsp => pointing('s', 'p', s),
        Reg::R8 => numbered(seq!['8'], s),
        Reg::R9 => numbered(seq!['9'], s),
        Reg::R10 => numbered(seq!['1', '0'], s),
        Reg::R11 => numbered(seq!['1', '1'], s),
        Reg::R12 => numbered(seq!['1', '2'], s),
        Reg::R13 => numbered(seq!['1', '3'], s),
        Reg::R14 => numbered(seq!['1', '4'], s),
        Reg::R15 => numbered(seq!['1', '5'], s),
    }
}

proof fn lemma_lettered_names(l: Seq<char>)
    ensures
        (l == "rax"@ || l == "eax"@ || l == "ax"@ || l == "al"@ || l == "ah"@) == name_of_register(Reg::Rax, l),
        (l == "rbx"@ || l == "ebx"@ || l == "bx"@ || l == "bl"@ || l == "bh"@) == name_of_register(Reg::Rbx, l),
        (l == "rcx"@ || l == "ecx"@ || l == "cx"@ || l == "cl"@ || l == "ch"@) == name_of_register(Reg::Rcx, l),
        (l == "rdx"@ || l == "edx"@ || l == "dx"@ || l == "dl"@ || l == "dh"@) == name_of_register(Reg::Rdx, l),
{
    reveal_strlit("rax");
    assert("rax"@ =~= seq!['r', 'a', 'x']);
    reveal_strlit("eax");
    assert("eax"@ =~= seq!['e', 'a', 'x']);
    reveal_strlit("ax");
    assert("ax"@ =~= seq!['a', 'x']);
    reveal_strlit("al");
    assert("al"@ =~= seq!['a', 'l']);
    reveal_strlit("ah");
    assert("ah"@ =~= seq!['a', 'h']);
    reveal_strlit("rbx");
    assert("rbx"@ =~= seq!['r', 'b', 'x']);
    reveal_strlit("ebx");
    assert("ebx"@ =~= seq!['e', 'b', 'x']);
    reveal_strlit("bx");
    assert("bx"@ =~= seq!['b', 'x']);
    reveal_strlit("bl");
    assert("bl"@ =~= seq!['b', 'l']);
    reveal_strlit("bh");
    assert("bh"@ =~= seq!['b', 'h']);
    reveal_strlit("rcx");
    assert("rcx"@ =~= seq!['r', 'c', 'x']);
    reveal_strlit("ecx");
    assert("ecx"@ =~= seq!['e', 'c', 'x']);
    reveal_strlit("cx");
    assert("cx"@ =~= seq!['c', 'x']);
    reveal_strlit("cl");
    assert("cl"@ =~= seq!['c', 'l']);
    reveal_strlit("ch");
    assert("ch"@ =~= seq!['c', 'h']);
    reveal_strlit("rdx");
    assert("rdx"@ =~= seq!['r', 'd', 'x']);
    reveal_strlit("edx");
    assert("edx"@ =~= seq!['e', 'd', 'x']);
    reveal_strlit("dx");
    assert("dx"@ =~= seq!['d', 'x']);
    reveal_strlit("dl");
    assert("dl"@ =~= seq!['d', 'l']);
    reveal_strlit("dh");
    assert("dh"@ =~= seq!['d', 'h']);
}

proof fn lemma_pointing_names(l: Seq<char>)
    ensures
        (l == "rsi"@ || l == "esi"@ || l == "si"@ || l == "sil"@) == name_of_register(Reg::Rsi, l),
        (l == "rdi"@ || l == "edi"@ || l == "di"@ || l == "dil"@) == name_of_register(Reg::Rdi, l),
        (l == "rbp"@ || l == "ebp"@ || l == "bp"@ || l == "bpl"@) == name_of_register(Reg::Rbp, l),
        (l == "rsp"@ || l == "esp"@ || l == "sp"@ || l == "spl"@) == name_of_register(Reg::Rsp, l),
{
    reveal_strlit("rsi");
    assert("rsi"@ =~= seq!['r', 's', 'i']);
    reveal_strlit("esi");
    assert("esi"@ =~= seq!['e', 's', 'i']);
    reveal_strlit("si");
    assert("si"@ =~= seq!['s', 'i']);
    reveal_strlit("sil");
    assert("sil"@ =~= seq!['s', 'i', 'l']);
    reveal_strlit("rdi");
    assert("rdi"@ =~= seq!['r', 'd', 'i']);
    reveal_strlit("edi");
    assert("edi"@ =~= seq!['e', 'd', 'i']);
    reveal_strlit("di");
    assert("di"@ =~= seq!['d', 'i']);
    reveal_strlit("dil");
    assert("dil"@ =~= seq!['d', 'i', 'l']);
    reveal_strlit("rbp");
    assert("rbp"@ =~= seq!['r', 'b', 'p']);
    reveal_strlit("ebp");
    assert("ebp"@ =~= seq!['e', 'b', 'p']);
    reveal_strlit("bp");
    assert("bp"@ =~= seq!['b', 'p']);
    reveal_strlit("bpl");
    assert("bpl"@ =~= seq!['b', 'p', 'l']);
    reveal_strlit("rsp");
    assert("rsp"@ =~= seq!['r', 's', 'p']);
    reveal_strlit("esp");
    assert("esp"@ =~= seq!['e', 's', 'p']);
    reveal_strlit("sp");
    assert("sp"@ =~= seq!['s', 'p']);
    reveal_strlit("spl");
    assert("spl"@ =~= seq!['s', 'p', 'l']);
}

proof fn lemma_low_numbered_names(l: Seq<char>)
    ensures
        (l == "r8"@ || l == "r8d"@ || l == "r8w"@ || l == "r8b"@) == name_of_register(Reg::R8, l),
        (l == "r9"@ || l == "r9d"@ || l == "r9w"@ || l == "r9b"@) == name_of_register(Reg::R9, l),
        (l == "r10"@ || l == "r10d"@ || l == "r10w"@ || l == "r10b"@) == name_of_register(Reg::R10, l),
        (l == "r11"@ || l == "r11d"@ || l == "r11w"@ || l == "r11b"@) == name_of_register(Reg::R11, l),
{
    reveal_strlit("r8");
    assert("r8"@ =~= seq!['r', '8']);
    reveal_strlit("r8d");
    assert("r8d"@ =~= seq!['r', '8', 'd']);
    reveal_strlit("r8w");
    assert("r8w"@ =~= seq!['r', '8', 'w']);
    reveal_strlit("r8b");
    assert("r8b"@ =~= seq!['r', '8', 'b']);
    assert(seq!['r'] + seq!['8'] =~= seq!['r', '8']);
    assert(seq!['r'] + seq!['8'] + seq!['d'] =~= seq!['r', '8', 'd']);
    assert(seq!['r'] + seq!['8'] + seq!['w'] =~= seq!['r', '8', 'w']);
    assert(seq!['r'] + seq!['8'] + seq!['b'] =~= seq!['r', '8', 'b']);
    reveal_strlit("r9");
    assert("r9"@ =~= seq!['r', '9']);
    reveal_strlit("r9d");
    assert("r9d"@ =~= seq!['r', '9', 'd']);
    reveal_strlit("r9w");
    assert("r9w"@ =~= seq!['r', '9', 'w']);
    reveal_strlit("r9b");
    assert("r9b"@ =~= seq!['r', '9', 'b']);
    assert(seq!['r'] + seq!['9'] =~= seq!['r', '9']);
    assert(seq!['r'] + seq!['9'] + seq!['d'] =~= seq!['r', '9', 'd']);
    assert(seq!['r'] + seq!['9'] + seq!['w'] =~= seq!['r', '9', 'w']);
    assert(seq!['r'] + seq!['9'] + seq!['b'] =~= seq!['r', '9', 'b']);
    reveal_strlit("r10");
    assert("r10"@ =~= seq!['r', '1', '0']);
    reveal_strlit("r10d");
    assert("r10d"@ =~= seq!['r', '1', '0', 'd']);
    reveal_strlit("r10w");
    assert("r10w"@ =~= seq!['r', '1', '0', 'w']);
    reveal_strlit("r10b");
    assert("r10b"@ =~= seq!['r', '1', '0', 'b']);
    assert(seq!['r'] + seq!['1', '0'] =~= seq!['r', '1', '0']);
    assert(seq!['r'] + seq!['1', '0'] + seq!['d'] =~= seq!['r', '1', '0', 'd']);
    assert(seq!['r'] + seq!['1', '0'] + seq!['w'] =~= seq!['r', '1', '0', 'w']);
    assert(seq!['r'] + seq!['1', '0'] + seq!['b'] =~= seq!['r', '1', '0', 'b']);
    reveal_strlit("r11");
    assert("r11"@ =~= seq!['r', '1', '1']);
    reveal_strlit("r11d");
    assert("r11d"@ =~= seq!['r', '1', '1', 'd']);
    reveal_strlit("r11w");
    assert("r11w"@ =~= seq!['r', '1', '1', 'w']);
    reveal_strlit("r11b");
    assert("r11b"@ =~= seq!['r', '1', '1', 'b']);
    assert(seq!['r'] + seq!['1', '1'] =~= seq!['r', '1', '1']);
    assert(seq!['r'] + seq!['1', '1'] + seq!['d'] =~= seq!['r', '1', '1', 'd']);
    assert(seq!['r'] + seq!['1', '1'] + seq!['w'] =~= seq!['r', '1', '1', 'w']);
    assert(seq!['r'] + seq!['1', '1'] + seq!['b'] =~= seq!['r', '1', '1', 'b']);
}

proof fn lemma_high_numbered_names(l: Seq<char>)
    ensures
        (l == "r12"@ || l == "r12d"@ || l == "r12w"@ || l == "r12b"@) == name_of_register(Reg::R12, l),
        (l == "r13"@ || l == "r13d"@ || l == "r13w"@ || l == "r13b"@) == name_of_register(Reg::R13, l),
        (l == "r14"@ || l == "r14d"@ || l == "r14w"@ || l == "r14b"@) == name_of_register(Reg::R14, l),
        (l == "r15"@ || l == "r15d"@ || l == "r15w"@ || l == "r15b"@) == name_of_register(Reg::R15, l),
{
    reveal_strlit("r12");
    assert("r12"@ =~= seq!['r', '1', '2']);
    reveal_strlit("r12d");
    assert("r12d"@ =~= seq!['r', '1', '2', 'd']);
    reveal_strlit("r12w");
    assert("r12w"@ =~= seq!['r', '1', '2', 'w']);
    reveal_strlit("r12b");
    assert("r12b"@ =~= seq!['r', '1', '2', 'b']);
    assert(seq!['r'] + seq!['1', '2'] =~= seq!['r', '1', '2']);
    assert(seq!['r'] + seq!['1', '2'] + seq!['d'] =~= seq!['r', '1', '2', 'd']);
    assert(seq!['r'] + seq!['1', '2'] + seq!['w'] =~= seq!['r', '1', '2', 'w']);
    assert(seq!['r'] + seq!['1', '2'] + seq!['b'] =~= seq!['r', '1', '2', 'b']);
    reveal_strlit("r13");
    assert("r13"@ =~= seq!['r', '1', '3']);
    reveal_strlit("r13d");
    assert("r13d"@ =~= seq!['r', '1', '3', 'd']);
    reveal_strlit("r13w");
    assert("r13w"@ =~= seq!['r', '1', '3', 'w']);
    reveal_strlit("r13b");
    assert("r13b"@ =~= seq!['r', '1', '3', 'b']);
    assert(seq!['r'] + seq!['1', '3'] =~= seq!['r', '1', '3']);
    assert(seq!['r'] + seq!['1', '3'] + seq!['d'] =~= seq!['r', '1', '3', 'd']);
    assert(seq!['r'] + seq!['1', '3'] + seq!['w'] =~= seq!['r', '1', '3', 'w']);
    assert(seq!['r'] + seq!['1', '3'] + seq!['b'] =~= seq!['r', '1', '3', 'b']);
    reveal_strlit("r14");
    assert("r14"@ =~= seq!['r', '1', '4']);
    reveal_strlit("r14d");
    assert("r14d"@ =~= seq!['r', '1', '4', 'd']);
    reveal_strlit("r14w");
    assert("r14w"@ =~= seq!['r', '1', '4', 'w']);
    reveal_strlit("r14b");
    assert("r14b"@ =~= seq!['r', '1', '4', 'b']);
    assert(seq!['r'] + seq!['1', '4'] =~= seq!['r', '1', '4']);
    assert(seq!['r'] + seq!['1', '4'] + seq!['d'] =~= seq!['r', '1', '4', 'd']);
    assert(seq!['r'] + seq!['1', '4'] + seq!['w'] =~= seq!['r', '1', '4', 'w']);
    assert(seq!['r'] + seq!['1', '4'] + seq!['b'] =~= seq!['r', '1', '4', 'b']);
    reveal_strlit("r15");
    assert("r15"@ =~= seq!['r', '1', '5']);
    reveal_strlit("r15d");
    assert("r15d"@ =~= seq!['r', '1', '5', 'd']);
    reveal_strlit("r15w");
    assert("r15w"@ =~= seq!['r', '1', '5', 'w']);
    reveal_strlit("r15b");
    assert("r15b"@ =~= seq!['r', '1', '5', 'b']);
    assert(seq!['r'] + seq!['1', '5'] =~= seq!['r', '1', '5']);
    assert(seq!['r'] + seq!['1', '5'] + seq!['d'] =~= seq!['r', '1', '5', 'd']);
    assert(seq!['r'] + seq!['1', '5'] + seq!['w'] =~= seq!['r', '1', '5', 'w']);
    assert(seq!['r'] + seq!['1', '5'] + seq!['b'] =~= seq!['r', '1', '5', 'b']);
}

proof fn lemma_names_apart(a: Reg, b: Reg, l: Seq<char>)
    requires
        name_of_register(a, l),
        name_of_register(b, l),
    ensures
        a == b,
{
    lemma_name_shape(a, l);
    lemma_name_shape(b, l);
}

/// The letters that tell the names of a register from those of the others.
spec fn name_shape(r: Reg, l: Seq<char>) -> bool {
    match r {
        Reg::Rax => lettered_shape('a', l),
        Reg::Rbx => lettered_shape('b', l),
        Reg::Rcx => lettered_shape('c', l),
        Reg::Rdx => lettered_shape('d', l),
        Reg::Rsi => pointing_shape('s', 'i', l),
        Reg::Rdi => pointing_shape('d', 'i', l),
        Reg::Rbp => pointing_shape('b', 'p', l),
        Reg::Rsp => pointing_shape('s', 'p', l),
        Reg::R8 => l[0] == 'r' && l[1] == '8',
        Reg::R9 => l[0] == 'r' && l[1] == '9',
        Reg::R10 => l[0] == 'r' && l[1] == '1' && l[2] == '0',
        Reg::R11 => l[0] == 'r' && l[1] == '1' && l[2] == '1',
        Reg::R12 => l[0] == 'r' && l[1] == '1' && l[2] == '2',
        Reg::R13 => l[0] == 'r' && l[1] == '1' && l[2] == '3',
        Reg::R14 => l[0] == 'r' && l[1] == '1' && l[2] == '4',
        Reg::R15 => l[0] == 'r' && l[1] == '1' && l[2] == '5',
    }
}

spec fn lettered_shape(c: char, l: Seq<char>) -> bool {
    ||| l.len() == 3 && (l[0] == 'r' || l[0] == 'e') && l[1] == c && l[2] == 'x'
    ||| l.len() == 2 && l[0] == c && (l[1] == 'x' || l[1] == 'l' || l[1] == 'h')
}

spec fn pointing_shape(a: char, b: char, l: Seq<char>) -> bool {
    ||| l.len() == 3 && (l[0] == 'r' || l[0] == 'e') && l[1] == a && l[2] == b
    ||| l.len() == 2 && l[0] == a && l[1] == b
    ||| l.len() == 3 && l[0] == a && l[1] == b && l[2] == 'l'
}

proof fn lemma_name_shape(r: Reg, l: Seq<char>)
    requires
        name_of_register(r, l),
    ensures
        name_shape(r, l),
{
    let n = match r {
        Reg::R8 => seq!['8'],
        Reg::R9 => seq!['9'],
        Reg::R10 => seq!['1', '0'],
        Reg::R11 => seq!['1', '1'],
        Reg::R12 => seq!['1', '2'],
        Reg::R13 => seq!['1', '3'],
        Reg::R14 => seq!['1', '4'],
        _ => seq!['1', '5'],
    };
    if numbered(n, l) {
        assert(l.take(1 + n.len() as int) =~= seq!['r'] + n);
        assert(l[0] == l.take(1 + n.len() as int)[0]);
        assert(l[1] == l.take(1 + n.len() as int)[1]);
        assert(n.len() == 2 ==> l[2] == l.take(1 + n.len() as int)[2]);
    }
}

/// A register is found by its names at every width, spaces and case aside, and by no other.
#[verifier::spinoff_prover]
pub proof fn law_registers_go_by_their_names(s: Seq<char>, r: Reg)
    ensures
        regs::register_named(s) == Some(r) <==> name_of_register(r, text::lower_all(text::trim(s))),
{
    let l = text::lower_all(text::trim(s));
    lemma_lettered_names(l);
    lemma_pointing_names(l);
    lemma_low_numbered_names(l);
    lemma_high_numbered_names(l);
    match regs::register_named(s) {
        Some(q) => {
            assert(name_of_register(q, l));
            if name_of_register(r, l) {
                lemma_names_apart(q, r, l);
            }
        },
        None => {},
    }
}

/// A register is written by its 64-bit name, and no two have one name.
pub proof fn law_register_is_written_by_its_name(r: Reg, q: Reg)
    ensures
        name_of_register(r, r.spec_name()),
        r.spec_name()[0] == 'r',
        r.spec_name().last() != 'd' && r.spec_name().last() != 'w' && r.spec_name().last() != 'b',
        r.spec_name() == q.spec_name() ==> r == q,
{
    lemma_lettered_names(r.spec_name());
    lemma_pointing_names(r.spec_name());
    lemma_low_numbered_names(r.spec_name());
    lemma_high_numbered_names(r.spec_name());
    lemma_lettered_names(q.spec_name());
    lemma_pointing_names(q.spec_name());
    lemma_low_numbered_names(q.spec_name());
    lemma_high_numbered_names(q.spec_name());
    assert(name_of_register(r, r.spec_name()));
    assert(name_of_register(q, q.spec_name()));
    reveal_strlit("rax");
    reveal_strlit("rbx");
    reveal_strlit("rcx");
    reveal_strlit("rdx");
    reveal_strlit("rsi");
    reveal_strlit("rdi");
    reveal_strlit("rbp");
    reveal_strlit("rsp");
    reveal_strlit("r8");
    reveal_strlit("r9");
    reveal_strlit("r10");
    reveal_strlit("r11");
    reveal_strlit("r12");
    reveal_strlit("r13");
    reveal_strlit("r14");
    reveal_strlit("r15");
    if r.spec_name() == q.spec_name() {
        lemma_names_apart(r, q, r.spec_name());
    }
}

/// The registers that a Win64 call may destroy, `rax` with its result aside, and those that
/// a subroutine must keep, the stack pointer aside: every register is one of these.
pub proof fn law_kept_and_destroyed_registers(r: Reg)
    ensures
        regs::follows(Track::CallerSaved, r) <==> r == Reg::Rcx || r == Reg::Rdx || r == Reg::R8 || r
            == Reg::R9 || r == Reg::R10 || r == Reg::R11,
        regs::follows(Track::CallerSaved, r) || regs::follows(Track::CalleeSaved, r) || r == Reg::Rax
            || r == Reg::Rsp,
        !(regs::follows(Track::CallerSaved, r) && regs::follows(Track::CalleeSaved, r)),
        !regs::follows(Track::CalleeSaved, Reg::Rax) && !regs::follows(
            Track::CalleeSaved,
            Reg::Rsp,
        ),
        regs::follows(Track::General, r),
{
}

// ── what an instruction does to its operands ────────────────────────────────

/// What an instruction does to its first operand.
pub enum Role {
    Defined,
    Updated,
    Consulted,
}

/// What the mnemonic `mn` does to its first operand; one that is not known defines it.
pub open spec fn first_role(mn: Seq<char>) -> Role {
    if mn == "cmp"@ || mn == "test"@ || mn == "push"@ || mn == "mul"@ || mn == "div"@ || mn
        == "idiv"@ || mn == "call"@ || (mn.len() > 0 && mn[0] == 'j') {
        Role::Consulted
    } else if mn == "add"@ || mn == "sub"@ || mn == "and"@ || mn == "or"@ || mn == "xor"@ || mn
        == "adc"@ || mn == "sbb"@ || mn == "shl"@ || mn == "shr"@ || mn == "sar"@ || mn == "sal"@
        || mn == "rol"@ || mn == "ror"@ || mn == "rcl"@ || mn == "rcr"@ || mn == "inc"@ || mn
        == "dec"@ || mn == "neg"@ || mn == "not"@ || mn == "imul"@ || mn == "xchg"@ {
        Role::Updated
    } else {
        Role::Defined
    }
}

/// The operand `op` is the register `r` itself.
pub open spec fn is_bare(op: Seq<char>, r: Reg) -> bool {
    !text::trim(op).contains('[') && regs::register_named(text::trim(op)) == Some(r)
}

/// The operand `op` forms an address with `r`.
pub open spec fn addresses(op: Seq<char>, r: Reg) -> bool {
    let a = text::find(op, '[');
    let b = text::rfind(op, ']');
    a < op.len() && b > a && exists|i: int|
        0 <= i < regs::address_names(op.subrange(a + 1, b)).len() && regs::register_named(
            #[trigger] regs::address_names(op.subrange(a + 1, b))[i],
        ) == Some(r)
}

/// The instruction sets a register to zero by combining it with itself.
pub open spec fn clears(t: Seq<char>, r: Reg) -> bool {
    let mn = regs::mnemonic(t);
    let ops = regs::operands(t);
    (mn == "xor"@ || mn == "sub"@) && ops.len() == 2 && is_bare(ops[0], r) && is_bare(ops[1], r)
}

/// What `mn` reads without naming it.
pub open spec fn reads_unnamed(mn: Seq<char>, r: Reg) -> bool {
    ||| (mn == "cdq"@ || mn == "cqo"@ || mn == "cwd"@ || mn == "mul"@ || mn == "div"@ || mn
        == "idiv"@) && r == Reg::Rax
    ||| (mn == "div"@ || mn == "idiv"@) && r == Reg::Rdx
}

/// What `mn` writes without naming it.
pub open spec fn writes_unnamed(mn: Seq<char>, r: Reg) -> bool {
    ||| (mn == "mul"@ || mn == "div"@ || mn == "idiv"@) && r == Reg::Rax
    ||| (mn == "cdq"@ || mn == "cqo"@ || mn == "cwd"@ || mn == "mul"@ || mn == "div"@ || mn
        == "idiv"@) && r == Reg::Rdx
}

proof fn lemma_among(track: Track, v: Seq<Seq<char>>, r: Reg)
    ensures
        regs::regs_among(track, v).contains(r) <==> regs::follows(track, r) && exists|i: int|
            0 <= i < v.len() && regs::register_named(#[trigger] v[i]) == Some(r),
    decreases v.len(),
{
    if v.len() > 0 {
        let u = v.drop_last();
        lemma_among(track, u, r);
        let a = regs::regs_among(track, u);
        match regs::tracked_reg(track, v.last()) {
            Some(q) => {
                contract_laws::lemma_reg_in_concat(a, seq![], q);
            },
            None => {},
        }
        if exists|i: int| 0 <= i < u.len() && regs::register_named(#[trigger] u[i]) == Some(r) {
            let i = choose|i: int|
                0 <= i < u.len() && regs::register_named(#[trigger] u[i]) == Some(r);
            assert(v[i] == u[i]);
        }
        if exists|i: int| 0 <= i < v.len() && regs::register_named(#[trigger] v[i]) == Some(r) {
            let i = choose|i: int|
                0 <= i < v.len() && regs::register_named(#[trigger] v[i]) == Some(r);
            if i < u.len() {
                assert(u[i] == v[i]);
            }
        }
        assert(v[v.len() - 1] == v.last());
    }
}

proof fn lemma_addresses(track: Track, ops: Seq<Seq<char>>, r: Reg)
    ensures
        regs::all_address_regs(track, ops).contains(r) <==> regs::follows(track, r) && exists|i: int|
            0 <= i < ops.len() && addresses(#[trigger] ops[i], r),
    decreases ops.len(),
{
    if ops.len() > 0 {
        let u = ops.drop_last();
        let op = ops.last();
        lemma_addresses(track, u, r);
        let a = text::find(op, '[');
        let b = text::rfind(op, ']');
        lemma_among(track, regs::address_names(op.subrange(a + 1, b)), r);
        contract_laws::lemma_reg_in_concat(
            regs::all_address_regs(track, u),
            regs::address_regs(track, op),
            r,
        );
        if exists|i: int| 0 <= i < u.len() && addresses(#[trigger] u[i], r) {
            let i = choose|i: int| 0 <= i < u.len() && addresses(#[trigger] u[i], r);
            assert(ops[i] == u[i]);
        }
        if exists|i: int| 0 <= i < ops.len() && addresses(#[trigger] ops[i], r) {
            let i = choose|i: int| 0 <= i < ops.len() && addresses(#[trigger] ops[i], r);
            if i < u.len() {
                assert(u[i] == ops[i]);
            }
        }
        assert(ops[ops.len() - 1] == op);
    }
}

proof fn lemma_bare_regs(track: Track, ops: Seq<Seq<char>>, r: Reg)
    ensures
        regs::bare_regs(track, ops).contains(r) <==> regs::follows(track, r) && exists|i: int|
            0 <= i < ops.len() && is_bare(#[trigger] ops[i], r),
    decreases ops.len(),
{
    if ops.len() > 0 {
        let u = ops.drop_last();
        let op = ops.last();
        lemma_bare_regs(track, u, r);
        match regs::bare_operand(track, op) {
            Some(q) => {
                contract_laws::lemma_reg_in_concat(regs::bare_regs(track, u), seq![], q);
            },
            None => {},
        }
        if exists|i: int| 0 <= i < u.len() && is_bare(#[trigger] u[i], r) {
            let i = choose|i: int| 0 <= i < u.len() && is_bare(#[trigger] u[i], r);
            assert(ops[i] == u[i]);
        }
        if exists|i: int| 0 <= i < ops.len() && is_bare(#[trigger] ops[i], r) {
            let i = choose|i: int| 0 <= i < ops.len() && is_bare(#[trigger] ops[i], r);
            if i < u.len() {
                assert(u[i] == ops[i]);
            }
        }
        assert(ops[ops.len() - 1] == op);
    }
}

proof fn lemma_updating_is_no_defining(mn: Seq<char>)
    requires
        regs::read_modify(mn),
    ensures
        !regs::pure_write(mn),
{
    reveal_strlit("add");
    reveal_strlit("sub");
    reveal_strlit("and");
    reveal_strlit("or");
    reveal_strlit("xor");
    reveal_strlit("adc");
    reveal_strlit("sbb");
    reveal_strlit("shl");
    reveal_strlit("shr");
    reveal_strlit("sar");
    reveal_strlit("sal");
    reveal_strlit("rol");
    reveal_strlit("ror");
    reveal_strlit("rcl");
    reveal_strlit("rcr");
    reveal_strlit("inc");
    reveal_strlit("dec");
    reveal_strlit("neg");
    reveal_strlit("not");
    reveal_strlit("imul");
    reveal_strlit("xchg");
    reveal_strlit("mov");
    reveal_strlit("lea");
    reveal_strlit("movzx");
    reveal_strlit("movsx");
    reveal_strlit("movsxd");
    reveal_strlit("movabs");
    reveal_strlit("pop");
    reveal_strlit("cvtsi2ss");
    reveal_strlit("cvtsi2sd");
    reveal_strlit("cvttss2si");
    reveal_strlit("cvttsd2si");
    reveal_strlit("cvtss2si");
    reveal_strlit("cvtsd2si");
    reveal_strlit("set");
    assert(mn.len() <= 4);
    assert(mn[0] != 'm' && mn[0] != 'l' && mn[0] != 'p');
    assert(mn[0] == 's' ==> mn[1] != 'e');
    assert("movzx"@.len() == 5);
    assert("movsx"@.len() == 5);
    assert("movsxd"@.len() == 6);
    assert("movabs"@.len() == 6);
    assert("cvtsi2ss"@.len() == 8);
    assert("cvtsi2sd"@.len() == 8);
    assert("cvttss2si"@.len() == 9);
    assert("cvttsd2si"@.len() == 9);
    assert("cvtss2si"@.len() == 8);
    assert("cvtsd2si"@.len() == 8);
    assert("mov"@[0] == 'm');
    assert("lea"@[0] == 'l');
    assert("pop"@[0] == 'p');
    if text::starts_with(mn, "set"@) {
        assert(mn.take(3)[0] == mn[0] && mn.take(3)[1] == mn[1]);
        assert("set"@[0] == 's' && "set"@[1] == 'e');
    }
}

proof fn lemma_clearing_is_updating(mn: Seq<char>)
    requires
        mn == "xor"@ || mn == "sub"@,
    ensures
        first_role(mn) is Updated,
{
    reveal_strlit("xor");
    reveal_strlit("sub");
    reveal_strlit("cmp");
    reveal_strlit("test");
    reveal_strlit("push");
    reveal_strlit("mul");
    reveal_strlit("div");
    reveal_strlit("idiv");
    reveal_strlit("call");
    assert(mn[0] == 'x' || mn[0] == 's');
    assert("cmp"@[0] == 'c' && "test"@[0] == 't' && "push"@[0] == 'p' && "mul"@[0] == 'm'
        && "div"@[0] == 'd' && "idiv"@[0] == 'i' && "call"@[0] == 'c');
}

proof fn lemma_if_followed(track: Track, q: Reg, r: Reg)
    ensures
        regs::if_followed(track, q).contains(r) <==> r == q && regs::follows(track, r),
{
    if regs::follows(track, q) {
        assert(seq![q][0] == q);
    }
}

proof fn lemma_unnamed(track: Track, mn: Seq<char>, r: Reg)
    ensures
        regs::implicit_reads(track, mn).contains(r) <==> regs::follows(track, r) && reads_unnamed(
            mn,
            r,
        ),
        regs::implicit_writes(track, mn).contains(r) <==> regs::follows(track, r)
            && writes_unnamed(mn, r),
{
    lemma_if_followed(track, Reg::Rax, r);
    lemma_if_followed(track, Reg::Rdx, r);
    contract_laws::lemma_reg_in_concat(
        regs::if_followed(track, Reg::Rax),
        regs::if_followed(track, Reg::Rdx),
        r,
    );
    reveal_strlit("cdq");
    reveal_strlit("cqo");
    reveal_strlit("cwd");
    reveal_strlit("mul");
    reveal_strlit("div");
    reveal_strlit("idiv");
    assert("mul"@[0] == 'm' && "div"@[0] == 'd' && "idiv"@[0] == 'i' && "cdq"@[0] == 'c'
        && "cqo"@[0] == 'c' && "cwd"@[0] == 'c');
}

proof fn lemma_branching(mn: Seq<char>)
    ensures
        regs::branches(mn) || regs::reads_first(mn) <==> first_role(mn) is Consulted,
        regs::branches(mn) || regs::reads_first(mn) || regs::read_modify(mn) <==> !(first_role(
            mn,
        ) is Defined),
{
    reveal_strlit("j");
    if text::starts_with(mn, "j"@) {
        assert(mn.take(1)[0] == mn[0]);
    }
    if mn.len() > 0 && mn[0] == 'j' {
        assert(mn.take(1) =~= "j"@);
    }
}

/// What an instruction writes: its first operand, where that is a register that it does not
/// only consult, and what its mnemonic writes unnamed.
pub proof fn law_what_an_instruction_writes(track: Track, t: Seq<char>, r: Reg)
    ensures
        regs::writes(track, t).contains(r) <==> regs::follows(track, r) && (writes_unnamed(
            regs::mnemonic(t),
            r,
        ) || (regs::operands(t).len() > 0 && is_bare(regs::operands(t)[0], r) && !(first_role(
            regs::mnemonic(t),
        ) is Consulted))),
{
    let mn = regs::mnemonic(t);
    lemma_unnamed(track, mn, r);
    lemma_branching(mn);
    let first = match regs::first_bare(track, t) {
        Some(q) => if regs::branches(mn) || regs::reads_first(mn) {
            Seq::empty()
        } else {
            seq![q]
        },
        None => Seq::empty(),
    };
    contract_laws::lemma_reg_in_concat(regs::implicit_writes(track, mn), first, r);
    if first.len() > 0 {
        assert(first[0] == regs::first_bare(track, t)->0);
    }
}

/// What an instruction reads: every register of an address, its first operand where it
/// updates or consults it, its other operands, and what its mnemonic reads unnamed. A
/// register that is cleared by combining it with itself is not read.
#[verifier::spinoff_prover]
pub proof fn law_what_an_instruction_reads(track: Track, t: Seq<char>, r: Reg)
    ensures
        regs::reads(track, t).contains(r) <==> regs::follows(track, r) && (reads_unnamed(
            regs::mnemonic(t),
            r,
        ) || (exists|i: int|
            0 <= i < regs::operands(t).len() && addresses(#[trigger] regs::operands(t)[i], r)) || (
        regs::operands(t).len() > 0 && is_bare(regs::operands(t)[0], r) && !(first_role(
            regs::mnemonic(t),
        ) is Defined) && !clears(t, r)) || (exists|i: int|
            1 <= i < regs::operands(t).len() && is_bare(#[trigger] regs::operands(t)[i], r)
                && !clears(t, r))),
{
    let mn = regs::mnemonic(t);
    let ops = regs::operands(t);
    lemma_unnamed(track, mn, r);
    lemma_branching(mn);
    lemma_addresses(track, ops, r);
    if regs::read_modify(mn) {
        lemma_updating_is_no_defining(mn);
    }
    if mn == "xor"@ || mn == "sub"@ {
        lemma_clearing_is_updating(mn);
    }
    let zero = regs::zeroes(track, t);
    let first = match regs::first_bare(track, t) {
        Some(q) => if regs::branches(mn) || regs::reads_first(mn) || (regs::read_modify(mn) && !zero
            && !regs::pure_write(mn)) {
            seq![q]
        } else {
            Seq::empty()
        },
        None => Seq::empty(),
    };
    let others = if zero || ops.len() == 0 {
        Seq::empty()
    } else {
        regs::bare_regs(track, ops.drop_first())
    };
    let a = regs::implicit_reads(track, mn);
    let b = regs::all_address_regs(track, ops);
    contract_laws::lemma_reg_in_concat(a, b, r);
    contract_laws::lemma_reg_in_concat(a + b, first, r);
    contract_laws::lemma_reg_in_concat(a + b + first, others, r);
    assert(regs::reads(track, t) == a + b + first + others);
    if first.len() > 0 {
        assert(first[0] == regs::first_bare(track, t)->0);
    }
    assert(first.contains(r) <==> regs::follows(track, r) && ops.len() > 0 && is_bare(ops[0], r)
        && !(first_role(mn) is Defined) && !clears(t, r));
    if ops.len() > 0 {
        let rest = ops.drop_first();
        lemma_bare_regs(track, rest, r);
        if exists|i: int| 0 <= i < rest.len() && is_bare(#[trigger] rest[i], r) {
            let i = choose|i: int| 0 <= i < rest.len() && is_bare(#[trigger] rest[i], r);
            assert(ops[i + 1] == rest[i]);
        }
        if exists|i: int| 1 <= i < ops.len() && is_bare(#[trigger] ops[i], r) {
            let i = choose|i: int| 1 <= i < ops.len() && is_bare(#[trigger] ops[i], r);
            assert(rest[i - 1] == ops[i]);
        }
        if clears(t, r) && regs::follows(track, r) {
            assert(zero);
        }
    }
    assert(others.contains(r) <==> regs::follows(track, r) && exists|i: int|
        1 <= i < ops.len() && is_bare(#[trigger] ops[i], r) && !clears(t, r));
}

} // verus!
