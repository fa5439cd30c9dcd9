//! A model of the instructions that lowering writes: how each is written, and what it
//! does to registers, memory and the flow of control. It is what the laws on calls,
//! blocks and procedures speak of.
use crate::text;
use crate::studio::outline::Label;
use vstd::prelude::*;

verus! {

/// An instruction, or a line that does nothing.
pub enum Instr {
    Label(Seq<char>),
    /// A comment.
    Note(Seq<char>),
    Push(Seq<char>),
    Pop(Seq<char>),
    /// `mov d, s`.
    Mov(Seq<char>, Seq<char>),
    /// `lea d, [rip + s]`.
    Lea(Seq<char>, Seq<char>),
    /// `mov d, [s]`.
    Fetch(Seq<char>, Seq<char>),
    /// `mov [rsp + n], s`.
    Store(int, Seq<char>),
    /// `movss xmmN, s`, or `movsd` where it is wide.
    MovFloat(bool, int, Seq<char>),
    /// `and rsp, -16`.
    Align,
    /// `sub rsp, n`.
    Reserve(int),
    Inc(Seq<char>),
    Cmp(Seq<char>, Seq<char>),
    /// A conditional branch: its mnemonic and its target.
    Branch(Seq<char>, Seq<char>),
    Jmp(Seq<char>),
    Call(Seq<char>),
    /// `call qword ptr [s + n]`.
    CallSlot(Seq<char>, int),
    Ret,
}

/// How an instruction is written, with its line feed.
pub open spec fn written_one(i: Instr) -> Seq<char> {
    match i {
        Instr::Label(l) => l + ":\n"@,
        Instr::Note(t) => "  ; "@ + t + "\n"@,
        Instr::Push(r) => "  push "@ + r + "\n"@,
        Instr::Pop(r) => "  pop "@ + r + "\n"@,
        Instr::Mov(d, s) => "  mov "@ + d + ", "@ + s + "\n"@,
        Instr::Lea(d, s) => "  lea "@ + d + ", [rip + "@ + s + "]\n"@,
        Instr::Fetch(d, s) => "  mov "@ + d + ", ["@ + s + "]\n"@,
        Instr::Store(n, s) => "  mov [rsp + "@ + text::signed_dec(n) + "], "@ + s + "\n"@,
        Instr::MovFloat(wide, n, s) => (if wide {
            "  movsd xmm"@
        } else {
            "  movss xmm"@
        }) + text::signed_dec(n) + ", "@ + s + "\n"@,
        Instr::Align => "  and rsp, -16\n"@,
        Instr::Reserve(n) => "  sub rsp, "@ + text::signed_dec(n) + "\n"@,
        Instr::Inc(r) => "  inc "@ + r + "\n"@,
        Instr::Cmp(a, b) => "  cmp "@ + a + ", "@ + b + "\n"@,
        Instr::Branch(mn, t) => "  "@ + mn + " "@ + t + "\n"@,
        Instr::Jmp(t) => "  jmp "@ + t + "\n"@,
        Instr::Call(f) => "  call "@ + f + "\n"@,
        Instr::CallSlot(s, n) => "  call qword ptr ["@ + s + " + "@ + text::signed_dec(n) + "]\n"@,
        Instr::Ret => "  ret\n"@,
    }
}

/// How a list of instructions is written.
pub open spec fn written(p: Seq<Instr>) -> Seq<char>
    decreases p.len(),
{
    if p.len() == 0 {
        Seq::empty()
    } else {
        written(p.drop_last()) + written_one(p.last())
    }
}

pub proof fn lemma_written_concat(a: Seq<Instr>, b: Seq<Instr>)
    ensures
        written(a + b) == written(a) + written(b),
    decreases b.len(),
{
    if b.len() == 0 {
        assert(a + b =~= a);
    } else {
        lemma_written_concat(a, b.drop_last());
        assert((a + b).drop_last() =~= a + b.drop_last());
        assert((a + b).last() == b.last());
        assert(written(a) + (written(b.drop_last()) + written_one(b.last())) =~= written(a) + written(
            b.drop_last(),
        ) + written_one(b.last()));
    }
}

pub proof fn lemma_written_one(i: Instr)
    ensures
        written(seq![i]) == written_one(i),
{
    reveal_with_fuel(written, 2);
    assert(seq![i].drop_last() =~= Seq::empty());
    assert(written(seq![i]) =~= written_one(i));
}

/// A state of the machine: what each operand stands for (a register's contents, or the
/// value of a constant), and what it stands for where four bytes of it are read as a
/// float; the address of each symbol; the memory in words of eight bytes; and the pair of
/// values compared last.
#[verifier::ext_equal]
pub struct Machine {
    pub vals: Map<Seq<char>, int>,
    pub singles: Map<Seq<char>, int>,
    pub addrs: Map<Seq<char>, int>,
    pub mem: Map<int, int>,
    pub compared: (int, int),
}

impl Machine {
    /// The stack pointer.
    pub open spec fn sp(self) -> int {
        self.vals["rsp"@]
    }

    /// With `v` in the register `r`.
    pub open spec fn put(self, r: Seq<char>, v: int) -> Machine {
        Machine { vals: self.vals.insert(r, v), ..self }
    }

    /// With `v` at the address `a`.
    pub open spec fn poke(self, a: int, v: int) -> Machine {
        Machine { mem: self.mem.insert(a, v), ..self }
    }
}

/// What an instruction that goes on to the next one does. A return takes the address
/// that it goes to from the stack.
pub open spec fn done(i: Instr, m: Machine) -> Machine {
    match i {
        Instr::Push(r) => m.put("rsp"@, m.sp() - 8).poke(m.sp() - 8, m.vals[r]),
        Instr::Pop(r) => m.put("rsp"@, m.sp() + 8).put(r, m.mem[m.sp()]),
        Instr::Mov(d, s) => m.put(d, m.vals[s]),
        Instr::Lea(d, s) => m.put(d, m.addrs[s]),
        Instr::Fetch(d, s) => m.put(d, m.mem[m.vals[s]]),
        Instr::Store(n, s) => m.poke(m.sp() + n, m.vals[s]),
        Instr::MovFloat(wide, n, s) => m.put(
            "xmm"@ + text::signed_dec(n),
            if wide {
                m.vals[s]
            } else {
                m.singles[s]
            },
        ),
        Instr::Align => m.put("rsp"@, m.sp() - m.sp() % 16),
        Instr::Reserve(n) => m.put("rsp"@, m.sp() - n),
        Instr::Inc(r) => m.put(r, m.vals[r] + 1),
        Instr::Cmp(a, b) => Machine { compared: (m.vals[a], m.vals[b]), ..m },
        Instr::Ret => m.put("rip"@, m.mem[m.sp()]).put("rsp"@, m.sp() + 8),
        _ => m,
    }
}

/// What a list of instructions does, run from first to last.
pub open spec fn run(p: Seq<Instr>, m: Machine) -> Machine
    decreases p.len(),
{
    if p.len() == 0 {
        m
    } else {
        done(p.last(), run(p.drop_last(), m))
    }
}

pub proof fn lemma_run_concat(a: Seq<Instr>, b: Seq<Instr>, m: Machine)
    ensures
        run(a + b, m) == run(b, run(a, m)),
    decreases b.len(),
{
    if b.len() == 0 {
        assert(a + b =~= a);
    } else {
        lemma_run_concat(a, b.drop_last(), m);
        assert((a + b).drop_last() =~= a + b.drop_last());
        assert((a + b).last() == b.last());
    }
}

pub proof fn lemma_run_one(i: Instr, m: Machine)
    ensures
        run(seq![i], m) == done(i, m),
{
    reveal_with_fuel(run, 2);
    assert(seq![i].drop_last() =~= Seq::empty());
}

// ── comparisons ─────────────────────────────────────────────────────────────

/// A value as a word of 64 bits without a sign.
pub open spec fn unsigned(x: int) -> int {
    x % 0x1_0000_0000_0000_0000
}

/// A value as a word of 64 bits with a sign.
pub open spec fn signed(x: int) -> int {
    if unsigned(x) < 0x8000_0000_0000_0000 {
        unsigned(x)
    } else {
        unsigned(x) - 0x1_0000_0000_0000_0000
    }
}

/// Whether the branch `mn` is taken behind a comparison of `a` with `b`.
pub open spec fn taken(mn: Seq<char>, a: int, b: int) -> bool {
    ||| mn == "je"@ && unsigned(a) == unsigned(b)
    ||| mn == "jne"@ && unsigned(a) != unsigned(b)
    ||| mn == "ja"@ && unsigned(a) > unsigned(b)
    ||| mn == "jae"@ && unsigned(a) >= unsigned(b)
    ||| mn == "jb"@ && unsigned(a) < unsigned(b)
    ||| mn == "jbe"@ && unsigned(a) <= unsigned(b)
    ||| mn == "jg"@ && signed(a) > signed(b)
    ||| mn == "jge"@ && signed(a) >= signed(b)
    ||| mn == "jl"@ && signed(a) < signed(b)
    ||| mn == "jle"@ && signed(a) <= signed(b)
}

// ── control ─────────────────────────────────────────────────────────────────

/// The position of the first label `l` of `p` from `i` on; the length of `p` where there
/// is none.
pub open spec fn label_from(p: Seq<Instr>, l: Seq<char>, i: int) -> int
    decreases p.len() - i,
{
    if i >= p.len() {
        p.len() as int
    } else if p[i] == Instr::Label(l) {
        i
    } else {
        label_from(p, l, i + 1)
    }
}

/// `p` holds no label `l`.
pub open spec fn free_of(p: Seq<Instr>, l: Seq<char>) -> bool {
    forall|i: int| 0 <= i < p.len() ==> #[trigger] p[i] != Instr::Label(l)
}

pub proof fn lemma_label_from(p: Seq<Instr>, l: Seq<char>, i: int, k: int)
    requires
        0 <= i <= k < p.len(),
        p[k] == Instr::Label(l),
        forall|j: int| i <= j < k ==> #[trigger] p[j] != Instr::Label(l),
    ensures
        label_from(p, l, i) == k,
    decreases k - i,
{
    if i < k {
        lemma_label_from(p, l, i + 1, k);
    }
}

/// One step of the program `p` from the position `pc`: where control is next, and the
/// state there.
pub open spec fn step(p: Seq<Instr>, pc: int, m: Machine) -> (int, Machine) {
    match p[pc] {
        Instr::Branch(mn, t) => if taken(mn, m.compared.0, m.compared.1) {
            (label_from(p, t, 0), m)
        } else {
            (pc + 1, m)
        },
        Instr::Jmp(t) => (label_from(p, t, 0), m),
        i => (pc + 1, done(i, m)),
    }
}

/// Where control is after `n` steps, and the state there.
pub open spec fn steps(p: Seq<Instr>, pc: int, m: Machine, n: nat) -> (int, Machine)
    decreases n,
{
    if n == 0 {
        (pc, m)
    } else {
        let (pc1, m1) = step(p, pc, m);
        steps(p, pc1, m1, (n - 1) as nat)
    }
}

// ── names ───────────────────────────────────────────────────────────────────

/// The registers that the calling convention names are ten different ones.
pub proof fn lemma_names_differ()
    ensures
        forall|i: int, j: int|
            0 <= i < j < 10 ==> #[trigger] convention_names()[i] != #[trigger] convention_names()[j],
{
    reveal_strlit("rsp");
    reveal_strlit("rbp");
    reveal_strlit("rbx");
    reveal_strlit("rip");
    reveal_strlit("rax");
    reveal_strlit("rcx");
    reveal_strlit("rdx");
    reveal_strlit("r8");
    reveal_strlit("r9");
    let v = convention_names();
    assert("rsp"@[1] == 's' && "rsp"@[2] == 'p');
    assert("rbp"@[1] == 'b' && "rbp"@[2] == 'p');
    assert("rbx"@[1] == 'b' && "rbx"@[2] == 'x');
    assert("rip"@[1] == 'i' && "rip"@[2] == 'p');
    assert("rax"@[1] == 'a' && "rax"@[2] == 'x');
    assert("rcx"@[1] == 'c' && "rcx"@[2] == 'x');
    assert("rdx"@[1] == 'd' && "rdx"@[2] == 'x');
    assert("r8"@[1] == '8');
    assert("r9"@[1] == '9');
    assert(v[9].len() == 0);
}

/// `rsp`, `rbp`, `rbx`, `rip`, `rax`, and the four integer argument registers, and the
/// empty name.
pub open spec fn convention_names() -> Seq<Seq<char>> {
    seq![
        "rsp"@,
        "rbp"@,
        "rbx"@,
        "rip"@,
        "rax"@,
        "rcx"@,
        "rdx"@,
        "r8"@,
        "r9"@,
        Seq::empty(),
    ]
}

} // verus!
