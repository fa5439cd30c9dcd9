//! The general-purpose registers, and what one instruction does to them.
use crate::text;
use crate::was::lex;
use crate::text::{
    char_is_word, has_char, has_prefix, index_of, index_of_ws, is, last_index_of, to_lower,
    trimmed, unsigned_of, without_prefix,
};
use crate::was::lex::split_top_commas;
use vstd::prelude::*;
use vstd::slice::slice_subrange;

verus! {

/// A general-purpose register, by its 64-bit name.
#[derive(Debug, Clone, Copy, PartialEq, Eq, Structural)]
pub enum Reg {
    Rax, Rbx, Rcx, Rdx, Rsi, Rdi, Rbp, Rsp, R8, R9, R10, R11, R12, R13, R14, R15,
}

impl Reg {
    /// The 64-bit name.
    pub open spec fn spec_name(self) -> Seq<char> {
        match self {
            Reg::Rax => "rax"@,
            Reg::Rbx => "rbx"@,
            Reg::Rcx => "rcx"@,
            Reg::Rdx => "rdx"@,
            Reg::Rsi => "rsi"@,
            Reg::Rdi => "rdi"@,
            Reg::Rbp => "rbp"@,
            Reg::Rsp => "rsp"@,
            Reg::R8 => "r8"@,
            Reg::R9 => "r9"@,
            Reg::R10 => "r10"@,
            Reg::R11 => "r11"@,
            Reg::R12 => "r12"@,
            Reg::R13 => "r13"@,
            Reg::R14 => "r14"@,
            Reg::R15 => "r15"@,
        }
    }

    pub fn name(self) -> (r: &'static str)
        ensures
            r@ == self.spec_name(),
    {
        match self {
            Reg::Rax => "rax",
            Reg::Rbx => "rbx",
            Reg::Rcx => "rcx",
            Reg::Rdx => "rdx",
            Reg::Rsi => "rsi",
            Reg::Rdi => "rdi",
            Reg::Rbp => "rbp",
            Reg::Rsp => "rsp",
            Reg::R8 => "r8",
            Reg::R9 => "r9",
            Reg::R10 => "r10",
            Reg::R11 => "r11",
            Reg::R12 => "r12",
            Reg::R13 => "r13",
            Reg::R14 => "r14",
            Reg::R15 => "r15",
        }
    }

    /// Position in the fixed order of the enumeration.
    pub open spec fn spec_index(self) -> int {
        match self {
            Reg::Rax => 0,
            Reg::Rbx => 1,
            Reg::Rcx => 2,
            Reg::Rdx => 3,
            Reg::Rsi => 4,
            Reg::Rdi => 5,
            Reg::Rbp => 6,
            Reg::Rsp => 7,
            Reg::R8 => 8,
            Reg::R9 => 9,
            Reg::R10 => 10,
            Reg::R11 => 11,
            Reg::R12 => 12,
            Reg::R13 => 13,
            Reg::R14 => 14,
            Reg::R15 => 15,
        }
    }

    pub fn index(self) -> (r: usize)
        ensures
            r == self.spec_index(),
            r < 16,
    {
        match self {
            Reg::Rax => 0,
            Reg::Rbx => 1,
            Reg::Rcx => 2,
            Reg::Rdx => 3,
            Reg::Rsi => 4,
            Reg::Rdi => 5,
            Reg::Rbp => 6,
            Reg::Rsp => 7,
            Reg::R8 => 8,
            Reg::R9 => 9,
            Reg::R10 => 10,
            Reg::R11 => 11,
            Reg::R12 => 12,
            Reg::R13 => 13,
            Reg::R14 => 14,
            Reg::R15 => 15,
        }
    }
}

/// Which registers an analysis follows.
#[derive(Debug, Clone, Copy, PartialEq, Eq, Structural)]
pub enum Track {
    /// Every general register.
    General,
    /// The callee-saved ones, which a subroutine must preserve for its caller
    /// (`rsp` is managed separately).
    CalleeSaved,
    /// The six caller-saved ones that a call destroys (`rax` holds its result).
    CallerSaved,
}

/// Whether `track` follows `r`.
pub open spec fn follows(track: Track, r: Reg) -> bool {
    match track {
        Track::General => true,
        Track::CalleeSaved => r == Reg::Rbx || r == Reg::Rbp || r == Reg::Rsi || r == Reg::Rdi || r
            == Reg::R12 || r == Reg::R13 || r == Reg::R14 || r == Reg::R15,
        Track::CallerSaved => r == Reg::Rcx || r == Reg::Rdx || r == Reg::R8 || r == Reg::R9 || r
            == Reg::R10 || r == Reg::R11,
    }
}

/// The general register that `s` names at any width, spaces and case aside.
pub open spec fn register_named(s: Seq<char>) -> Option<Reg> {
    let l = text::lower_all(text::trim(s));
    if l == "rax"@ || l == "eax"@ || l == "ax"@ || l == "al"@ || l == "ah"@ {
        Some(Reg::Rax)
    } else if l == "rbx"@ || l == "ebx"@ || l == "bx"@ || l == "bl"@ || l == "bh"@ {
        Some(Reg::Rbx)
    } else if l == "rcx"@ || l == "ecx"@ || l == "cx"@ || l == "cl"@ || l == "ch"@ {
        Some(Reg::Rcx)
    } else if l == "rdx"@ || l == "edx"@ || l == "dx"@ || l == "dl"@ || l == "dh"@ {
        Some(Reg::Rdx)
    } else if l == "rsi"@ || l == "esi"@ || l == "si"@ || l == "sil"@ {
        Some(Reg::Rsi)
    } else if l == "rdi"@ || l == "edi"@ || l == "di"@ || l == "dil"@ {
        Some(Reg::Rdi)
    } else if l == "rbp"@ || l == "ebp"@ || l == "bp"@ || l == "bpl"@ {
        Some(Reg::Rbp)
    } else if l == "rsp"@ || l == "esp"@ || l == "sp"@ || l == "spl"@ {
        Some(Reg::Rsp)
    } else if l == "r8"@ || l == "r8d"@ || l == "r8w"@ || l == "r8b"@ {
        Some(Reg::R8)
    } else if l == "r9"@ || l == "r9d"@ || l == "r9w"@ || l == "r9b"@ {
        Some(Reg::R9)
    } else if l == "r10"@ || l == "r10d"@ || l == "r10w"@ || l == "r10b"@ {
        Some(Reg::R10)
    } else if l == "r11"@ || l == "r11d"@ || l == "r11w"@ || l == "r11b"@ {
        Some(Reg::R11)
    } else if l == "r12"@ || l == "r12d"@ || l == "r12w"@ || l == "r12b"@ {
        Some(Reg::R12)
    } else if l == "r13"@ || l == "r13d"@ || l == "r13w"@ || l == "r13b"@ {
        Some(Reg::R13)
    } else if l == "r14"@ || l == "r14d"@ || l == "r14w"@ || l == "r14b"@ {
        Some(Reg::R14)
    } else if l == "r15"@ || l == "r15d"@ || l == "r15w"@ || l == "r15b"@ {
        Some(Reg::R15)
    } else {
        None
    }
}

/// The register `s` names, where `track` follows it.
pub open spec fn tracked_reg(track: Track, s: Seq<char>) -> Option<Reg> {
    match register_named(s) {
        Some(r) => if follows(track, r) {
            Some(r)
        } else {
            None
        },
        None => None,
    }
}

/// Any general register, by its 64-bit name (`eax` is `rax`, `r8d` is `r8`).
pub fn gp_reg(s: &[char]) -> (r: Option<Reg>)
    ensures
        r == register_named(s@),
{
    let l = to_lower(trimmed(s));
    if is(&l, "rax") || is(&l, "eax") || is(&l, "ax") || is(&l, "al") || is(&l, "ah") {
        Some(Reg::Rax)
    } else if is(&l, "rbx") || is(&l, "ebx") || is(&l, "bx") || is(&l, "bl") || is(&l, "bh") {
        Some(Reg::Rbx)
    } else if is(&l, "rcx") || is(&l, "ecx") || is(&l, "cx") || is(&l, "cl") || is(&l, "ch") {
        Some(Reg::Rcx)
    } else if is(&l, "rdx") || is(&l, "edx") || is(&l, "dx") || is(&l, "dl") || is(&l, "dh") {
        Some(Reg::Rdx)
    } else if is(&l, "rsi") || is(&l, "esi") || is(&l, "si") || is(&l, "sil") {
        Some(Reg::Rsi)
    } else if is(&l, "rdi") || is(&l, "edi") || is(&l, "di") || is(&l, "dil") {
        Some(Reg::Rdi)
    } else if is(&l, "rbp") || is(&l, "ebp") || is(&l, "bp") || is(&l, "bpl") {
        Some(Reg::Rbp)
    } else if is(&l, "rsp") || is(&l, "esp") || is(&l, "sp") || is(&l, "spl") {
        Some(Reg::Rsp)
    } else if is(&l, "r8") || is(&l, "r8d") || is(&l, "r8w") || is(&l, "r8b") {
        Some(Reg::R8)
    } else if is(&l, "r9") || is(&l, "r9d") || is(&l, "r9w") || is(&l, "r9b") {
        Some(Reg::R9)
    } else if is(&l, "r10") || is(&l, "r10d") || is(&l, "r10w") || is(&l, "r10b") {
        Some(Reg::R10)
    } else if is(&l, "r11") || is(&l, "r11d") || is(&l, "r11w") || is(&l, "r11b") {
        Some(Reg::R11)
    } else if is(&l, "r12") || is(&l, "r12d") || is(&l, "r12w") || is(&l, "r12b") {
        Some(Reg::R12)
    } else if is(&l, "r13") || is(&l, "r13d") || is(&l, "r13w") || is(&l, "r13b") {
        Some(Reg::R13)
    } else if is(&l, "r14") || is(&l, "r14d") || is(&l, "r14w") || is(&l, "r14b") {
        Some(Reg::R14)
    } else if is(&l, "r15") || is(&l, "r15d") || is(&l, "r15w") || is(&l, "r15b") {
        Some(Reg::R15)
    } else {
        None
    }
}

pub fn is_followed(track: Track, r: Reg) -> (b: bool)
    ensures
        b == follows(track, r),
{
    match track {
        Track::General => true,
        Track::CalleeSaved => r == Reg::Rbx || r == Reg::Rbp || r == Reg::Rsi || r == Reg::Rdi || r
            == Reg::R12 || r == Reg::R13 || r == Reg::R14 || r == Reg::R15,
        Track::CallerSaved => r == Reg::Rcx || r == Reg::Rdx || r == Reg::R8 || r == Reg::R9 || r
            == Reg::R10 || r == Reg::R11,
    }
}

pub fn canon(track: Track, s: &[char]) -> (r: Option<Reg>)
    ensures
        r == tracked_reg(track, s@),
{
    match gp_reg(s) {
        Some(r) => if is_followed(track, r) {
            Some(r)
        } else {
            None
        },
        None => None,
    }
}

/// A callee-saved register.
pub fn nonvol_reg(s: &[char]) -> (r: Option<Reg>)
    ensures
        r == tracked_reg(Track::CalleeSaved, s@),
{
    canon(Track::CalleeSaved, s)
}

/// One of the six caller-saved registers that a call destroys.
pub fn clobber_reg(s: &[char]) -> (r: Option<Reg>)
    ensures
        r == tracked_reg(Track::CallerSaved, s@),
{
    canon(Track::CallerSaved, s)
}

/// Does `s` name a register: general, vector (`xmm`/`ymm`/`zmm`) or `rip`?
pub open spec fn names_register(s: Seq<char>) -> bool {
    let l = text::lower_all(s);
    ||| l == "rax"@ || l == "rbx"@ || l == "rcx"@ || l == "rdx"@ || l == "rsi"@ || l == "rdi"@ || l == "rbp"@ || l == "rsp"@ || l == "r8"@ || l == "r9"@ || l == "r10"@ || l == "r11"@ || l == "r12"@ || l == "r13"@ || l == "r14"@ || l == "r15"@ || l == "rip"@
    ||| (text::strip_prefix(l, "xmm"@) matches Some(n) && text::parse_unsigned(n, 255) is Some)
    ||| (text::strip_prefix(l, "ymm"@) matches Some(n) && text::parse_unsigned(n, 255) is Some)
    ||| (text::strip_prefix(l, "zmm"@) matches Some(n) && text::parse_unsigned(n, 255) is Some)
    ||| l == "eax"@ || l == "ebx"@ || l == "ecx"@ || l == "edx"@ || l == "esi"@ || l == "edi"@ || l == "ebp"@ || l == "esp"@ || l == "r8d"@ || l == "r9d"@ || l == "r10d"@ || l == "r11d"@ || l == "r12d"@ || l == "r13d"@ || l == "r14d"@ || l == "r15d"@ || l == "ax"@ || l == "bx"@ || l == "cx"@ || l == "dx"@ || l == "si"@ || l == "di"@ || l == "al"@ || l == "bl"@ || l == "cl"@ || l == "dl"@
}

fn numbered(l: &[char], family: &str) -> (r: bool)
    ensures
        r == (text::strip_prefix(l@, family@) matches Some(n) && text::parse_unsigned(n, 255) is Some),
{
    match without_prefix(l, family) {
        Some(n) => unsigned_of(n, 255).is_some(),
        None => false,
    }
}

pub fn is_register(s: &[char]) -> (r: bool)
    ensures
        r == names_register(s@),
{
    let l = to_lower(s);
    is(&l, "rax") || is(&l, "rbx") || is(&l, "rcx") || is(&l, "rdx") || is(&l, "rsi") || is(&l, "rdi") || is(&l, "rbp") || is(&l, "rsp") || is(&l, "r8") || is(&l, "r9") || is(&l, "r10") || is(&l, "r11") || is(&l, "r12") || is(&l, "r13") || is(&l, "r14") || is(&l, "r15") || is(&l, "rip")
        || numbered(&l, "xmm") || numbered(&l, "ymm") || numbered(&l, "zmm")
        || is(&l, "eax") || is(&l, "ebx") || is(&l, "ecx") || is(&l, "edx") || is(&l, "esi") || is(&l, "edi") || is(&l, "ebp") || is(&l, "esp") || is(&l, "r8d") || is(&l, "r9d") || is(&l, "r10d") || is(&l, "r11d") || is(&l, "r12d") || is(&l, "r13d") || is(&l, "r14d") || is(&l, "r15d") || is(&l, "ax") || is(&l, "bx") || is(&l, "cx") || is(&l, "dx") || is(&l, "si") || is(&l, "di") || is(&l, "al") || is(&l, "bl") || is(&l, "cl") || is(&l, "dl")
}

// ── operands ────────────────────────────────────────────────────────────────

/// The registers that `track` follows among the names `v`, in order.
pub open spec fn regs_among(track: Track, v: Seq<Seq<char>>) -> Seq<Reg>
    decreases v.len(),
{
    if v.len() == 0 {
        Seq::empty()
    } else {
        let before = regs_among(track, v.drop_last());
        match tracked_reg(track, v.last()) {
            Some(r) => before.push(r),
            None => before,
        }
    }
}

/// The pieces of an address between characters that cannot stand in a name.
pub open spec fn address_names(s: Seq<char>) -> Seq<Seq<char>> {
    text::split_from(s, |c: char| !lex::is_name_char(c), 0)
}

/// The registers named inside a `[ … ]` memory operand: all read, as they form
/// the address. A closing bracket in front of the opening one makes no address.
pub open spec fn address_regs(track: Track, op: Seq<char>) -> Seq<Reg> {
    let a = text::find(op, '[');
    let b = text::rfind(op, ']');
    if a < op.len() && b > a {
        regs_among(track, address_names(op.subrange(a + 1, b)))
    } else {
        Seq::empty()
    }
}

pub fn mem_regs(track: Track, op: &[char]) -> (r: Vec<Reg>)
    ensures
        r@ == address_regs(track, op@),
{
    let mut v: Vec<Reg> = Vec::new();
    let a: usize = index_of(op, '[');
    if a >= op.len() {
        return v;
    }
    match last_index_of(op, ']') {
        Some(b) => {
            if b > a {
                let inner = slice_subrange(op, a + 1, b);
                let ghost p = |c: char| !lex::is_name_char(c);
                let mut start: usize = 0;
                let ghost mut done: Seq<Seq<char>> = Seq::empty();
                loop
                    invariant_except_break
                        p == (|c: char| !lex::is_name_char(c)),
                        start <= inner@.len(),
                        done + text::split_from(inner@, p, start as int) =~= address_names(inner@),
                        v@ == regs_among(track, done),
                    ensures
                        v@ == regs_among(track, address_names(inner@)),
                    decreases inner@.len() - start,
                {
                    let mut n: usize = start;
                    while n < inner.len()
                        invariant_except_break
                            p == (|c: char| !lex::is_name_char(c)),
                            start <= n <= inner@.len(),
                            text::first_from(inner@, p, start as int) == text::first_from(inner@, p, n as int),
                        ensures
                            start <= n <= inner@.len(),
                            text::first_from(inner@, p, start as int) == n,
                        decreases inner@.len() - n,
                    {
                        let c = inner[n];
                        if !(char_is_word(c) || c == '_') {
                            break;
                        }
                        n += 1;
                    }
                    let tok = slice_subrange(inner, start, n);
                    let ghost before = done;
                    proof {
                        done = done.push(tok@);
                        assert(done.drop_last() =~= before);
                    }
                    match canon(track, tok) {
                        Some(r) => v.push(r),
                        None => {},
                    }
                    if n >= inner.len() {
                        assert(done =~= address_names(inner@));
                        break;
                    }
                    assert(done + text::split_from(inner@, p, n + 1) =~= before + (seq![tok@]
                        + text::split_from(inner@, p, n + 1)));
                    start = n + 1;
                }
            }
        },
        None => {},
    }
    v
}

/// A bare register operand: no memory operand, no immediate.
pub open spec fn bare_operand(track: Track, op: Seq<char>) -> Option<Reg> {
    let o = text::trim(op);
    if o.contains('[') {
        None
    } else {
        tracked_reg(track, o)
    }
}

pub fn bare_reg(track: Track, op: &[char]) -> (r: Option<Reg>)
    ensures
        r == bare_operand(track, op@),
{
    let o = trimmed(op);
    if has_char(o, '[') {
        None
    } else {
        canon(track, o)
    }
}

// ── instructions ────────────────────────────────────────────────────────────

/// The mnemonic of an instruction, in lower case.
pub open spec fn mnemonic(t: Seq<char>) -> Seq<char> {
    text::lower_all(t.take(text::find_ws(t)))
}

/// The operands of an instruction.
pub open spec fn operands(t: Seq<char>) -> Seq<Seq<char>> {
    let rest = text::trim(t.skip(text::find_ws(t)));
    if rest.len() == 0 {
        Seq::empty()
    } else {
        lex::split_commas(rest)
    }
}

/// Mnemonics that define their first operand without reading it.
pub open spec fn pure_write(mn: Seq<char>) -> bool {
    ||| mn == "mov"@ || mn == "lea"@ || mn == "movzx"@ || mn == "movsx"@ || mn == "movsxd"@ || mn == "movabs"@ || mn == "pop"@ || mn == "cvtsi2ss"@ || mn == "cvtsi2sd"@ || mn == "cvttss2si"@ || mn == "cvttsd2si"@ || mn == "cvtss2si"@ || mn == "cvtsd2si"@
    ||| text::starts_with(mn, "set"@)
}

/// Mnemonics that read and write their first operand.
pub open spec fn read_modify(mn: Seq<char>) -> bool {
    mn == "add"@ || mn == "sub"@ || mn == "and"@ || mn == "or"@ || mn == "xor"@ || mn == "adc"@ || mn == "sbb"@ || mn == "shl"@ || mn == "shr"@ || mn == "sar"@ || mn == "sal"@ || mn == "rol"@ || mn == "ror"@ || mn == "rcl"@ || mn == "rcr"@ || mn == "inc"@ || mn == "dec"@ || mn == "neg"@ || mn == "not"@ || mn == "imul"@ || mn == "xchg"@
}

/// Mnemonics that only read their first operand.
pub open spec fn reads_first(mn: Seq<char>) -> bool {
    mn == "cmp"@ || mn == "test"@ || mn == "push"@ || mn == "mul"@ || mn == "div"@ || mn == "idiv"@
}

/// Jumps and calls: the first operand is a target, and so is read.
pub open spec fn branches(mn: Seq<char>) -> bool {
    text::starts_with(mn, "j"@) || mn == "call"@
}

/// The zeroing idiom: `xor r, r` or `sub r, r` writes `r` without reading it.
pub open spec fn zeroes(track: Track, t: Seq<char>) -> bool {
    let mn = mnemonic(t);
    let ops = operands(t);
    &&& mn == "xor"@ || mn == "sub"@
    &&& ops.len() == 2
    &&& bare_operand(track, ops[0]) is Some
    &&& bare_operand(track, ops[0]) == bare_operand(track, ops[1])
}

/// `r` as a sequence, where `track` follows it.
pub open spec fn if_followed(track: Track, r: Reg) -> Seq<Reg> {
    if follows(track, r) {
        seq![r]
    } else {
        Seq::empty()
    }
}

/// What the mnemonic reads without naming it.
pub open spec fn implicit_reads(track: Track, mn: Seq<char>) -> Seq<Reg> {
    if mn == "cdq"@ || mn == "cqo"@ || mn == "cwd"@ || mn == "mul"@ {
        if_followed(track, Reg::Rax)
    } else if mn == "div"@ || mn == "idiv"@ {
        if_followed(track, Reg::Rax) + if_followed(track, Reg::Rdx)
    } else {
        Seq::empty()
    }
}

/// What the mnemonic writes without naming it.
pub open spec fn implicit_writes(track: Track, mn: Seq<char>) -> Seq<Reg> {
    if mn == "cdq"@ || mn == "cqo"@ || mn == "cwd"@ {
        if_followed(track, Reg::Rdx)
    } else if mn == "mul"@ || mn == "div"@ || mn == "idiv"@ {
        if_followed(track, Reg::Rax) + if_followed(track, Reg::Rdx)
    } else {
        Seq::empty()
    }
}

/// The address registers of all the operands `ops`.
pub open spec fn all_address_regs(track: Track, ops: Seq<Seq<char>>) -> Seq<Reg>
    decreases ops.len(),
{
    if ops.len() == 0 {
        Seq::empty()
    } else {
        all_address_regs(track, ops.drop_last()) + address_regs(track, ops.last())
    }
}

/// The bare registers among the operands `ops`.
pub open spec fn bare_regs(track: Track, ops: Seq<Seq<char>>) -> Seq<Reg>
    decreases ops.len(),
{
    if ops.len() == 0 {
        Seq::empty()
    } else {
        let before = bare_regs(track, ops.drop_last());
        match bare_operand(track, ops.last()) {
            Some(r) => before.push(r),
            None => before,
        }
    }
}

/// The first operand as a bare register, where there is one.
pub open spec fn first_bare(track: Track, t: Seq<char>) -> Option<Reg> {
    if operands(t).len() > 0 {
        bare_operand(track, operands(t)[0])
    } else {
        None
    }
}

/// The registers that `track` follows and the instruction `t` reads: what its
/// mnemonic reads implicitly, the registers of its addresses, its first operand
/// unless that is only defined, and its other operands unless they zero it.
pub open spec fn reads(track: Track, t: Seq<char>) -> Seq<Reg> {
    let mn = mnemonic(t);
    let ops = operands(t);
    let first = match first_bare(track, t) {
        Some(r) => if branches(mn) || reads_first(mn) || (read_modify(mn) && !zeroes(track, t)
            && !pure_write(mn)) {
            seq![r]
        } else {
            Seq::empty()
        },
        None => Seq::empty(),
    };
    let others = if zeroes(track, t) || ops.len() == 0 {
        Seq::empty()
    } else {
        bare_regs(track, ops.drop_first())
    };
    implicit_reads(track, mn) + all_address_regs(track, ops) + first + others
}

/// The registers that `track` follows and the instruction `t` writes: what its
/// mnemonic writes implicitly, and its first operand unless that is a target or
/// only read. An unknown mnemonic is taken to define its first operand.
pub open spec fn writes(track: Track, t: Seq<char>) -> Seq<Reg> {
    let mn = mnemonic(t);
    let first = match first_bare(track, t) {
        Some(r) => if branches(mn) || reads_first(mn) {
            Seq::empty()
        } else {
            seq![r]
        },
        None => Seq::empty(),
    };
    implicit_writes(track, mn) + first
}

fn push_followed(track: Track, r: Reg, v: &mut Vec<Reg>)
    ensures
        final(v)@ == old(v)@ + if_followed(track, r),
{
    if is_followed(track, r) {
        v.push(r);
        assert(v@ =~= old(v)@ + if_followed(track, r));
    } else {
        assert(v@ =~= old(v)@ + if_followed(track, r));
    }
}

fn is_pure_write(mn: &[char]) -> (r: bool)
    ensures
        r == pure_write(mn@),
{
    is(mn, "mov") || is(mn, "lea") || is(mn, "movzx") || is(mn, "movsx") || is(mn, "movsxd") || is(mn, "movabs") || is(mn, "pop") || is(mn, "cvtsi2ss") || is(mn, "cvtsi2sd") || is(mn, "cvttss2si") || is(mn, "cvttsd2si") || is(mn, "cvtss2si") || is(mn, "cvtsd2si") || has_prefix(mn, "set")
}

fn is_read_modify(mn: &[char]) -> (r: bool)
    ensures
        r == read_modify(mn@),
{
    is(mn, "add") || is(mn, "sub") || is(mn, "and") || is(mn, "or") || is(mn, "xor") || is(mn, "adc") || is(mn, "sbb") || is(mn, "shl") || is(mn, "shr") || is(mn, "sar") || is(mn, "sal") || is(mn, "rol") || is(mn, "ror") || is(mn, "rcl") || is(mn, "rcr") || is(mn, "inc") || is(mn, "dec") || is(mn, "neg") || is(mn, "not") || is(mn, "imul") || is(mn, "xchg")
}

fn is_reads_first(mn: &[char]) -> (r: bool)
    ensures
        r == reads_first(mn@),
{
    is(mn, "cmp") || is(mn, "test") || is(mn, "push") || is(mn, "mul") || is(mn, "div") || is(mn, "idiv")
}

/// The registers (that `track` follows) an instruction reads and writes.
pub fn reg_effects(track: Track, t: &[char]) -> (r: (Vec<Reg>, Vec<Reg>))
    ensures
        r.0@ == reads(track, t@),
        r.1@ == writes(track, t@),
{
    let w: usize = index_of_ws(t);
    let mn = to_lower(slice_subrange(t, 0, w));
    let rest = trimmed(slice_subrange(t, w, t.len()));
    let ops: Vec<&[char]> = if rest.len() == 0 {
        Vec::new()
    } else {
        split_top_commas(rest)
    };
    assert(text::slices(ops@) =~= operands(t@));
    let mut rd: Vec<Reg> = Vec::new();
    let mut wr: Vec<Reg> = Vec::new();
    if is(&mn, "cdq") || is(&mn, "cqo") || is(&mn, "cwd") {
        push_followed(track, Reg::Rdx, &mut wr);
        push_followed(track, Reg::Rax, &mut rd);
    } else if is(&mn, "mul") {
        push_followed(track, Reg::Rax, &mut rd);
        push_followed(track, Reg::Rax, &mut wr);
        push_followed(track, Reg::Rdx, &mut wr);
    } else if is(&mn, "div") || is(&mn, "idiv") {
        push_followed(track, Reg::Rax, &mut rd);
        push_followed(track, Reg::Rdx, &mut rd);
        push_followed(track, Reg::Rax, &mut wr);
        push_followed(track, Reg::Rdx, &mut wr);
    }
    proof {
        reveal_strlit("cdq");
        reveal_strlit("cqo");
        reveal_strlit("cwd");
        reveal_strlit("mul");
        reveal_strlit("div");
        reveal_strlit("idiv");
        assert("mul"@[0] == 'm');
        assert("div"@[0] == 'd');
        assert("idiv"@[0] == 'i');
        assert("cdq"@[0] == 'c');
        assert("cqo"@[0] == 'c');
        assert("cwd"@[0] == 'c');
    }
    assert(rd@ =~= implicit_reads(track, mn@));
    assert(wr@ =~= implicit_writes(track, mn@));
    let ghost ops_v = operands(t@);
    let mut i: usize = 0;
    while i < ops.len()
        invariant
            text::slices(ops@) == ops_v,
            i <= ops@.len(),
            rd@ =~= implicit_reads(track, mn@) + all_address_regs(track, ops_v.take(i as int)),
        decreases ops@.len() - i,
    {
        let mut m = mem_regs(track, ops[i]);
        rd.append(&mut m);
        assert(ops_v.take(i as int + 1).drop_last() =~= ops_v.take(i as int));
        assert(ops_v.take(i as int + 1).last() == ops@[i as int]@);
        i += 1;
    }
    assert(ops_v.take(ops_v.len() as int) =~= ops_v);
    let zeroing = (is(&mn, "xor") || is(&mn, "sub")) && ops.len() == 2 && {
        let a = bare_reg(track, ops[0]);
        let b = bare_reg(track, ops[1]);
        match a {
            Some(x) => match b {
                Some(y) => x == y,
                None => false,
            },
            None => false,
        }
    };
    assert(zeroing == zeroes(track, t@));
    let ghost rd1 = rd@;
    let ghost first_read: Seq<Reg> = Seq::empty();
    if ops.len() > 0 {
        match bare_reg(track, ops[0]) {
            Some(r0) => {
                let branch = has_prefix(&mn, "j") || is(&mn, "call");
                if branch || is_reads_first(&mn) {
                    rd.push(r0);
                } else {
                    wr.push(r0);
                    if !zeroing && !is_pure_write(&mn) && is_read_modify(&mn) {
                        rd.push(r0);
                    }
                }
            },
            None => {},
        }
    }
    let ghost first = match first_bare(track, t@) {
        Some(r) => if branches(mn@) || reads_first(mn@) || (read_modify(mn@) && !zeroes(track, t@)
            && !pure_write(mn@)) {
            seq![r]
        } else {
            Seq::empty()
        },
        None => Seq::empty(),
    };
    assert(rd@ =~= rd1 + first);
    assert(wr@ =~= writes(track, t@));
    if !zeroing && ops.len() > 0 {
        let ghost tail = ops_v.drop_first();
        let ghost rd2 = rd@;
        let mut k: usize = 1;
        while k < ops.len()
            invariant
                text::slices(ops@) == ops_v,
                tail == ops_v.drop_first(),
                1 <= k <= ops@.len(),
                rd@ =~= rd2 + bare_regs(track, tail.take(k - 1)),
            decreases ops@.len() - k,
        {
            assert(tail.take(k as int).drop_last() =~= tail.take(k - 1));
            assert(tail.take(k as int).last() == ops@[k as int]@);
            match bare_reg(track, ops[k]) {
                Some(r) => rd.push(r),
                None => {},
            }
            k += 1;
        }
        assert(tail.take(tail.len() as int) =~= tail);
    }
    assert(rd@ =~= reads(track, t@));
    (rd, wr)
}

} // verus!
