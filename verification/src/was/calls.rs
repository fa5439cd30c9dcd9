//! Win64 calls: argument marshaling for `invoke` and COM method calls, and the
//! sizes of the frames they need.
use crate::text;
use crate::was::lex;
use crate::was::operands;
use crate::was::regs;
use crate::text::{
    char_is_alpha, char_is_hex, char_is_ws, chars_of, copy_of, digit_value_of, hex_of, index_of,
    is, last_index_of, push_all, push_str, push_text, signed_dec_of, trimmed, trimmed_start,
    without_prefix,
};
use crate::was::lex::{after_keyword, all_ident, is_method_call_shape, split_top_commas};
use crate::was::operands::{find_method, resolve_operands};
use crate::was::regs::is_register;
use crate::winkb::kb::{Kb, Method};
use vstd::prelude::*;
use vstd::slice::slice_subrange;

verus! {

// ── sizes ───────────────────────────────────────────────────────────────────

/// `n` rounded up to a multiple of 16.
pub open spec fn round16(n: int) -> int {
    (n + 15) / 16 * 16
}

/// The bytes of the stack arguments of a call with `n` arguments: all behind the
/// fourth, eight bytes each.
pub open spec fn stack_arg_bytes(n: int) -> int {
    if n > 4 {
        (n - 4) * 8
    } else {
        0
    }
}

/// The bytes a framed procedure reserves: 32 of shadow space and the outgoing
/// stack arguments, rounded up to 16.
pub open spec fn frame_bytes(max_args: int) -> int {
    round16(32 + stack_arg_bytes(max_args))
}

/// A frame is aligned, holds the shadow space and every outgoing argument, and
/// wastes less than 16 bytes.
pub proof fn law_frame_is_aligned_and_sufficient(max_args: int)
    requires
        max_args >= 0,
    ensures
        frame_bytes(max_args) % 16 == 0,
        frame_bytes(max_args) >= 32 + stack_arg_bytes(max_args),
        frame_bytes(max_args) < 32 + stack_arg_bytes(max_args) + 16,
{
}

/// A frame sized for the call with the most arguments suffices for every call.
pub proof fn law_frame_grows_with_arguments(a: int, b: int)
    requires
        0 <= a <= b,
    ensures
        frame_bytes(a) <= frame_bytes(b),
{
}

/// The bytes a framed procedure reserves. It aligns the stack itself, so the size
/// does not depend on the saved registers.
pub fn proc_frame_size(max_args: usize) -> (r: u128)
    ensures
        r == frame_bytes(max_args as int),
{
    let n: u128 = if max_args > 4 {
        (max_args as u128 - 4) * 8
    } else {
        0
    };
    (32 + n + 15) / 16 * 16
}

/// What stands between the first `(` and the last `)` behind it, trimmed.
pub open spec fn inside_parens(t: Seq<char>) -> Seq<char> {
    let open = text::find(t, '(');
    let rest = t.skip(open + 1);
    let close = text::rfind(rest, ')');
    if open < t.len() && close >= 0 {
        text::trim(rest.take(close))
    } else {
        Seq::empty()
    }
}

/// The number of arguments the call line `t` marshals, the COM `this` included;
/// `None` if it is no call.
pub open spec fn marshalled_args(t: Seq<char>) -> Option<int> {
    match lex::strip_keyword(t, "invoke"@) {
        Some(rest) => Some(lex::split_commas(rest).len() - 1),
        None => match lex::strip_keyword(t, "comcall"@) {
            Some(rest) => Some(
                1 + if lex::split_commas(rest).len() > 3 {
                    lex::split_commas(rest).len() - 3
                } else {
                    0
                },
            ),
            None => if lex::method_call_shape(t) {
                let inside = inside_parens(t);
                Some(
                    1 + if inside.len() == 0 {
                        0
                    } else {
                        lex::split_commas(inside).len() as int
                    },
                )
            } else {
                None
            },
        },
    }
}

/// The number of Win64 arguments a call line marshals (including the COM `this`),
/// for sizing a framed procedure's outgoing-argument area. `None` if not a call.
pub fn call_arg_count(t: &[char]) -> (r: Option<usize>)
    ensures
        (match r {
            Some(n) => Some(n as int),
            None => None,
        }) == marshalled_args(t@),
{
    match after_keyword(t, "invoke") {
        Some(rest) => {
            let parts = split_top_commas(rest);
            assert(lex::split_commas(rest@).len() == parts@.len());
            return Some(parts.len() - 1);
        },
        None => {},
    }
    match after_keyword(t, "comcall") {
        Some(rest) => {
            let parts = split_top_commas(rest);
            assert(lex::split_commas(rest@).len() == parts@.len());
            return Some(
                if parts.len() > 3 {
                    parts.len() - 2
                } else {
                    1
                },
            );
        },
        None => {},
    }
    if is_method_call_shape(t) {
        let open: usize = index_of(t, '(');
        let mut inside = slice_subrange(t, 0, 0);
        if open < t.len() {
            let rest = slice_subrange(t, open + 1, t.len());
            match last_index_of(rest, ')') {
                Some(close) => {
                    inside = trimmed(slice_subrange(rest, 0, close));
                },
                None => {},
            }
        }
        assert(inside@ =~= inside_parens(t@));
        if inside.len() == 0 {
            return Some(1);
        }
        let parts = split_top_commas(inside);
        assert(lex::split_commas(inside@).len() == parts@.len());
        assert(parts@.len() <= inside@.len() + 1);
        proof {
            lemma_inside_is_short(t@);
        }
        return Some(1 + parts.len());
    }
    None
}

/// What stands inside the parentheses leaves out at least both of them.
proof fn lemma_inside_is_short(t: Seq<char>)
    ensures
        inside_parens(t).len() == 0 || inside_parens(t).len() + 2 <= t.len(),
{
    let open = text::find(t, '(');
    text::lemma_first_from(t, text::eq_char('('), 0);
    if open < t.len() {
        let rest = t.skip(open + 1);
        text::lemma_last_below(rest, text::eq_char(')'), rest.len() as int);
        let close = text::rfind(rest, ')');
        if close >= 0 {
            lemma_trim_len(rest.take(close));
        }
    }
}

proof fn lemma_trim_len(s: Seq<char>)
    ensures
        text::trim(s).len() <= s.len(),
{
    text::lemma_first_from(s, text::not_ws(), 0);
    let t = text::trim_start(s);
    text::lemma_last_below(t, text::not_ws(), t.len() as int);
}

// ── sequences that may fail ─────────────────────────────────────────────────

/// One text behind another; the first error counts.
pub open spec fn chain(
    a: Result<Seq<char>, Seq<char>>,
    b: Result<Seq<char>, Seq<char>>,
) -> Result<Seq<char>, Seq<char>> {
    match a {
        Ok(x) => operands::put_before(x, b),
        Err(m) => Err(m),
    }
}

// ── arguments ───────────────────────────────────────────────────────────────

/// The value behind the annotation `kw`, where `a` starts with it.
pub open spec fn annotated(a: Seq<char>, kw: Seq<char>) -> Option<Seq<char>> {
    match text::strip_prefix(a, kw) {
        Some(rest) => if rest.len() > 0 && text::is_ws(rest[0]) {
            Some(text::trim_start(rest))
        } else {
            None
        },
        None => None,
    }
}

/// A float argument annotated `real4 X` / `f32 X` (or `real8` / `f64`): whether it
/// is a double, and the value.
pub open spec fn float_annotation(arg: Seq<char>) -> Option<(bool, Seq<char>)> {
    let a = text::trim(arg);
    match annotated(a, "real4"@) {
        Some(v) => Some((false, v)),
        None => match annotated(a, "f32"@) {
            Some(v) => Some((false, v)),
            None => match annotated(a, "real8"@) {
                Some(v) => Some((true, v)),
                None => match annotated(a, "f64"@) {
                    Some(v) => Some((true, v)),
                    None => None,
                },
            },
        },
    }
}

fn behind_annotation<'a>(a: &'a [char], kw: &str) -> (r: Option<&'a [char]>)
    ensures
        text::opt(r) == annotated(a@, kw@),
{
    match without_prefix(a, kw) {
        Some(rest) => if rest.len() > 0 && char_is_ws(rest[0]) {
            Some(trimmed_start(rest))
        } else {
            None
        },
        None => None,
    }
}

/// A float argument annotated `real4 X` / `f32 X` (or `real8` / `f64`): the value
/// goes in an xmm register, not an integer one.
pub fn float_arg<'a>(arg: &'a [char]) -> (r: Option<(bool, &'a [char])>)
    ensures
        (match r {
            Some((w, v)) => Some((w, v@)),
            None => None,
        }) == float_annotation(arg@),
{
    let a = trimmed(arg);
    match behind_annotation(a, "real4") {
        Some(v) => return Some((false, v)),
        None => {},
    }
    match behind_annotation(a, "f32") {
        Some(v) => return Some((false, v)),
        None => {},
    }
    match behind_annotation(a, "real8") {
        Some(v) => return Some((true, v)),
        None => {},
    }
    match behind_annotation(a, "f64") {
        Some(v) => return Some((true, v)),
        None => {},
    }
    None
}

/// A floating-point parameter type: whether it is a double. A pointer like `f32*`
/// is a pointer, not a float.
pub open spec fn float_kind(t: Seq<char>) -> Option<bool> {
    let s = text::trim(t);
    if s == "f32"@ || s == "FLOAT"@ || s == "float"@ || s == "single"@ {
        Some(false)
    } else if s == "f64"@ || s == "double"@ {
        Some(true)
    } else {
        None
    }
}

pub fn float_type(t: &[char]) -> (r: Option<bool>)
    ensures
        r == float_kind(t@),
{
    let s = trimmed(t);
    if is(s, "f32") || is(s, "FLOAT") || is(s, "float") || is(s, "single") {
        Some(false)
    } else if is(s, "f64") || is(s, "double") {
        Some(true)
    } else {
        None
    }
}

/// The instruction that loads the resolved operand `res` into `reg`: a bare
/// label or symbol becomes its address, anything else a move.
pub open spec fn load_text(reg: Seq<char>, res: Seq<char>) -> Seq<char> {
    let r = text::trim(res);
    let symbol = r.len() > 0 && r[0] != '[' && (text::is_alpha(r[0]) || r[0] == '_') && lex::ident_chars(r)
        && !regs::names_register(r);
    if symbol {
        "  lea "@ + reg + ", [rip + "@ + r + "]\n"@
    } else {
        "  mov "@ + reg + ", "@ + r + "\n"@
    }
}

/// Load `arg` into `reg`.
pub open spec fn loaded(kb: &Kb, labels: Seq<Seq<char>>, reg: Seq<char>, arg: Seq<char>) -> Result<
    Seq<char>,
    Seq<char>,
> {
    match operands::resolved(kb, labels, arg) {
        Ok(res) => Ok(load_text(reg, res)),
        Err(m) => Err(m),
    }
}

/// Emit the instruction to load `arg` into `reg`. A bare label/symbol becomes its
/// address (`lea`); a number/register/memory becomes a `mov`.
pub fn load_arg(reg: &str, arg: &[char], kb: &Kb, labels: &Vec<Vec<char>>) -> (r: Result<
    Vec<char>,
    String,
>)
    ensures
        operands::result_view(r) == loaded(kb, text::texts(labels@), reg@, arg@),
{
    let res = match resolve_operands(arg, kb, labels) {
        Ok(x) => x,
        Err(m) => return Err(m),
    };
    let r = trimmed(&res);
    let symbol = r.len() > 0 && r[0] != '[' && (char_is_alpha(r[0]) || r[0] == '_') && all_ident(r)
        && !is_register(r);
    if symbol {
        let mut o = chars_of("  lea ");
        push_str(&mut o, reg);
        push_str(&mut o, ", [rip + ");
        push_all(&mut o, r);
        push_str(&mut o, "]\n");
        Ok(o)
    } else {
        let mut o = chars_of("  mov ");
        push_str(&mut o, reg);
        push_str(&mut o, ", ");
        push_all(&mut o, r);
        push_str(&mut o, "\n");
        Ok(o)
    }
}

/// The integer register of argument `idx`.
pub open spec fn arg_reg(idx: int) -> Seq<char> {
    if idx == 0 {
        "rcx"@
    } else if idx == 1 {
        "rdx"@
    } else if idx == 2 {
        "r8"@
    } else {
        "r9"@
    }
}

/// Load the float `val` into the xmm register of argument `idx`.
pub open spec fn float_loaded(
    kb: &Kb,
    labels: Seq<Seq<char>>,
    idx: int,
    wide: bool,
    val: Seq<char>,
) -> Result<Seq<char>, Seq<char>> {
    match operands::resolved(kb, labels, val) {
        Ok(rv) => Ok(
            (if wide {
                "  movsd xmm"@
            } else {
                "  movss xmm"@
            }) + text::signed_dec(idx) + ", "@ + text::trim(rv) + "\n"@,
        ),
        Err(m) => Err(m),
    }
}

/// Argument `idx` (below 4) put into its register: a float, known by its
/// annotation or else by the parameter type `ty`, into an xmm register; anything
/// else into its integer register.
pub open spec fn register_arg(
    kb: &Kb,
    labels: Seq<Seq<char>>,
    idx: int,
    arg: Seq<char>,
    ty: Option<Seq<char>>,
) -> Result<Seq<char>, Seq<char>> {
    match float_annotation(arg) {
        Some((wide, v)) => float_loaded(kb, labels, idx, wide, v),
        None => match (match ty {
            Some(t) => float_kind(t),
            None => None,
        }) {
            Some(wide) => float_loaded(kb, labels, idx, wide, arg),
            None => loaded(kb, labels, arg_reg(idx), arg),
        },
    }
}

fn load_float(idx: usize, wide: bool, val: &[char], kb: &Kb, labels: &Vec<Vec<char>>) -> (r: Result<
    Vec<char>,
    String,
>)
    ensures
        operands::result_view(r) == float_loaded(kb, text::texts(labels@), idx as int, wide, val@),
{
    let rv = match resolve_operands(val, kb, labels) {
        Ok(x) => x,
        Err(m) => return Err(m),
    };
    let mut o = if wide {
        chars_of("  movsd xmm")
    } else {
        chars_of("  movss xmm")
    };
    let d = signed_dec_of(idx as i128);
    push_all(&mut o, &d);
    push_str(&mut o, ", ");
    push_all(&mut o, trimmed(&rv));
    push_str(&mut o, "\n");
    Ok(o)
}

/// Marshal argument `idx` (0..=3) into its slot. An explicit annotation wins over
/// the type that the knowledge base gives.
pub fn marshal_reg_arg(
    idx: usize,
    arg: &[char],
    ty: Option<&[char]>,
    kb: &Kb,
    labels: &Vec<Vec<char>>,
) -> (r: Result<Vec<char>, String>)
    ensures
        operands::result_view(r) == register_arg(kb, text::texts(labels@), idx as int, arg@, text::opt(ty)),
{
    match float_arg(arg) {
        Some((wide, v)) => return load_float(idx, wide, v, kb, labels),
        None => {},
    }
    let kind: Option<bool> = match ty {
        Some(t) => float_type(t),
        None => None,
    };
    match kind {
        Some(wide) => load_float(idx, wide, arg, kb, labels),
        None => {
            let reg = if idx == 0 {
                "rcx"
            } else if idx == 1 {
                "rdx"
            } else if idx == 2 {
                "r8"
            } else {
                "r9"
            };
            load_arg(reg, arg, kb, labels)
        },
    }
}

/// Argument `idx` (from 4 on) stored into the outgoing-argument area. A float goes
/// there as its raw bits, so its annotation is dropped.
pub open spec fn stack_arg(kb: &Kb, labels: Seq<Seq<char>>, idx: int, arg: Seq<char>) -> Result<
    Seq<char>,
    Seq<char>,
> {
    let v = match float_annotation(arg) {
        Some((_, v)) => v,
        None => arg,
    };
    chain(
        loaded(kb, labels, "rax"@, v),
        Ok("  mov [rsp + "@ + text::signed_dec(32 + (idx - 4) * 8) + "], rax\n"@),
    )
}

/// The arguments from `idx` on stored into the outgoing-argument area.
pub open spec fn stack_args_from(
    kb: &Kb,
    labels: Seq<Seq<char>>,
    args: Seq<Seq<char>>,
    idx: int,
) -> Result<Seq<char>, Seq<char>>
    decreases args.len() - idx,
{
    if idx >= args.len() {
        Ok(Seq::empty())
    } else {
        chain(
            stack_arg(kb, labels, idx, args[idx]),
            stack_args_from(kb, labels, args, idx + 1),
        )
    }
}

/// The parameter type at `i`, where one is known.
pub open spec fn type_at(tys: Seq<Option<Seq<char>>>, i: int) -> Option<Seq<char>> {
    if 0 <= i < tys.len() {
        tys[i]
    } else {
        None
    }
}

/// The arguments from `idx` up to the fourth put into their registers.
pub open spec fn register_args_from(
    kb: &Kb,
    labels: Seq<Seq<char>>,
    args: Seq<Seq<char>>,
    tys: Seq<Option<Seq<char>>>,
    idx: int,
) -> Result<Seq<char>, Seq<char>>
    decreases 4 - idx,
{
    if idx >= args.len() || idx >= 4 {
        Ok(Seq::empty())
    } else {
        chain(
            register_arg(kb, labels, idx, args[idx], type_at(tys, idx)),
            register_args_from(kb, labels, args, tys, idx + 1),
        )
    }
}

/// The arguments marshalled: first those on the stack, then those in registers.
pub open spec fn arguments(
    kb: &Kb,
    labels: Seq<Seq<char>>,
    args: Seq<Seq<char>>,
    tys: Seq<Option<Seq<char>>>,
) -> Result<Seq<char>, Seq<char>> {
    chain(
        stack_args_from(kb, labels, args, 4),
        register_args_from(kb, labels, args, tys, 0),
    )
}

/// The views of a list of optional types.
pub open spec fn types_view(v: Seq<Option<Vec<char>>>) -> Seq<Option<Seq<char>>> {
    Seq::new(
        v.len(),
        |i: int|
            match v[i] {
                Some(t) => Some(t@),
                None => None,
            },
    )
}

pub proof fn lemma_chain_assoc(
    a: Result<Seq<char>, Seq<char>>,
    b: Result<Seq<char>, Seq<char>>,
    c: Result<Seq<char>, Seq<char>>,
)
    ensures
        chain(a, chain(b, c)) == chain(chain(a, b), c),
{
    match (a, b, c) {
        (Ok(x), Ok(y), Ok(z)) => {
            assert(x + (y + z) =~= x + y + z);
        },
        _ => {},
    }
}

fn marshal_stack_arg(idx: usize, arg: &[char], kb: &Kb, labels: &Vec<Vec<char>>) -> (r: Result<
    Vec<char>,
    String,
>)
    requires
        idx >= 4,
    ensures
        operands::result_view(r) == stack_arg(kb, text::texts(labels@), idx as int, arg@),
{
    let v = match float_arg(arg) {
        Some((_, v)) => v,
        None => arg,
    };
    let mut o = match load_arg("rax", v, kb, labels) {
        Ok(x) => x,
        Err(m) => return Err(m),
    };
    let mut p = chars_of("  mov [rsp + ");
    let d = signed_dec_of(32 + (idx as i128 - 4) * 8);
    push_all(&mut p, &d);
    push_str(&mut p, "], rax\n");
    push_all(&mut o, &p);
    Ok(o)
}

/// Marshal the Win64 arguments `args` of a call whose parameters have the types
/// `tys`.
pub fn marshal_args(
    args: &Vec<Vec<char>>,
    tys: &Vec<Option<Vec<char>>>,
    kb: &Kb,
    labels: &Vec<Vec<char>>,
) -> (r: Result<Vec<char>, String>)
    ensures
        operands::result_view(r) == arguments(kb, text::texts(labels@), text::texts(args@), types_view(tys@)),
{
    let ghost lv = text::texts(labels@);
    let ghost av = text::texts(args@);
    let ghost tv = types_view(tys@);
    let ghost want = arguments(kb, lv, av, tv);
    let mut o: Vec<char> = Vec::new();
    let mut i: usize = 4;
    let ghost regs = register_args_from(kb, lv, av, tv, 0);
    proof {
        match want {
            Ok(t) => {
                assert(Seq::<char>::empty() + t =~= t);
            },
            Err(m) => {},
        }
    }
    while i < args.len()
        invariant
            lv == text::texts(labels@),
            av == text::texts(args@),
            tv == types_view(tys@),
            want == arguments(kb, lv, av, tv),
            4 <= i,
            chain(Ok(o@), chain(stack_args_from(kb, lv, av, i as int), regs)) == want,
        decreases args@.len() - i,
    {
        let ghost before = o@;
        assert(av[i as int] == args@[i as int]@);
        match marshal_stack_arg(i, &args[i], kb, labels) {
            Ok(p) => {
                push_all(&mut o, &p);
                proof {
                    let a: Result<Seq<char>, Seq<char>> = Ok(before);
                    let b: Result<Seq<char>, Seq<char>> = Ok(p@);
                    let c = stack_args_from(kb, lv, av, i + 1);
                    lemma_chain_assoc(b, c, regs);
                    lemma_chain_assoc(a, b, chain(c, regs));
                }
            },
            Err(m) => return Err(m),
        }
        i += 1;
    }
    proof {
        match regs {
            Ok(t) => {
                assert(Seq::<char>::empty() + t =~= t);
            },
            Err(m) => {},
        }
        assert(chain(Ok(o@), regs) == want);
    }
    let mut k: usize = 0;
    while k < args.len() && k < 4
        invariant
            lv == text::texts(labels@),
            av == text::texts(args@),
            tv == types_view(tys@),
            want == arguments(kb, lv, av, tv),
            k <= 4,
            k <= args@.len(),
            chain(Ok(o@), register_args_from(kb, lv, av, tv, k as int)) == want,
        decreases 4 - k,
    {
        let ghost before = o@;
        assert(av[k as int] == args@[k as int]@);
        let ty: Option<&[char]> = if k < tys.len() {
            match &tys[k] {
                Some(t) => Some(t.as_slice()),
                None => None,
            }
        } else {
            None
        };
        assert(text::opt(ty) == type_at(tv, k as int));
        match marshal_reg_arg(k, &args[k], ty, kb, labels) {
            Ok(p) => {
                push_all(&mut o, &p);
                proof {
                    let a: Result<Seq<char>, Seq<char>> = Ok(before);
                    let b: Result<Seq<char>, Seq<char>> = Ok(p@);
                    lemma_chain_assoc(a, b, register_args_from(kb, lv, av, tv, k + 1));
                }
            },
            Err(m) => return Err(m),
        }
        k += 1;
    }
    assert(o@ + Seq::<char>::empty() =~= o@);
    Ok(o)
}

// ── invoke ──────────────────────────────────────────────────────────────────

/// The instructions that set up a call's own aligned frame for `n` arguments.
pub open spec fn own_frame(n: int) -> Seq<char> {
    "  push rbx\n  mov rbx, rsp\n  and rsp, -16\n"@ + "  sub rsp, "@ + text::signed_dec(
        32 + round16(stack_arg_bytes(n)),
    ) + "\n"@
}

/// The instructions that drop a call's own frame.
pub open spec fn drop_frame() -> Seq<char> {
    "  mov rsp, rbx\n  pop rbx\n"@
}

/// A text, or nothing.
pub open spec fn only_if(cond: bool, t: Seq<char>) -> Seq<char> {
    if cond {
        t
    } else {
        Seq::empty()
    }
}

/// The types of the parameters of the function `func`, where it is known.
pub open spec fn param_types(kb: &Kb, func: Seq<char>) -> Seq<Option<Seq<char>>> {
    match kb.spec_function(func) {
        Some(f) => Seq::new(f.params@.len(), |i: int| Some(f.params@[i].ty@)),
        None => Seq::empty(),
    }
}

/// A call of `func` with `args`. Without `framed` it sets up its own aligned
/// frame; with it, the enclosing procedure has reserved the space, and only the
/// argument moves and the call are left.
pub open spec fn call_text(
    kb: &Kb,
    labels: Seq<Seq<char>>,
    func: Seq<char>,
    args: Seq<Seq<char>>,
    framed: bool,
) -> Result<Seq<char>, Seq<char>> {
    let head = "  ; invoke "@ + func + " ("@ + text::signed_dec(args.len() as int) + " args)\n"@
        + only_if(!framed, own_frame(args.len() as int));
    let tail = "  call "@ + func + "\n"@ + only_if(!framed, drop_frame());
    chain(Ok(head), chain(arguments(kb, labels, args, param_types(kb, func)), Ok(tail)))
}

fn push_own_frame(o: &mut Vec<char>, n: usize)
    ensures
        final(o)@ == old(o)@ + own_frame(n as int),
{
    let mut p = chars_of("  push rbx\n  mov rbx, rsp\n  and rsp, -16\n");
    push_str(&mut p, "  sub rsp, ");
    let b: i128 = if n > 4 {
        (n as i128 - 4) * 8
    } else {
        0
    };
    let d = signed_dec_of(32 + (b + 15) / 16 * 16);
    push_all(&mut p, &d);
    push_str(&mut p, "\n");
    push_all(o, &p);
}

fn push_drop_frame(o: &mut Vec<char>)
    ensures
        final(o)@ == old(o)@ + drop_frame(),
{
    push_str(o, "  mov rsp, rbx\n  pop rbx\n");
}

fn param_type_list(kb: &Kb, func: &[char]) -> (r: Vec<Option<Vec<char>>>)
    ensures
        types_view(r@) == param_types(kb, func@),
{
    let mut r: Vec<Option<Vec<char>>> = Vec::new();
    match kb.function(func) {
        Some(f) => {
            let mut i: usize = 0;
            while i < f.params.len()
                invariant
                    i <= f.params@.len(),
                    kb.spec_function(func@) == Some(*f),
                    types_view(r@) =~= param_types(kb, func@).take(i as int),
                decreases f.params@.len() - i,
            {
                let c = chars_of(f.params[i].ty.as_str());
                let ghost before = types_view(r@);
                r.push(Some(c));
                assert(types_view(r@) =~= before.push(Some(c@)));
                i += 1;
            }
        },
        None => {},
    }
    assert(types_view(r@) =~= param_types(kb, func@));
    r
}

/// Marshal the Win64 arguments, then `call`.
pub fn emit_call(
    func: &[char],
    args: &Vec<Vec<char>>,
    kb: &Kb,
    labels: &Vec<Vec<char>>,
    framed: bool,
) -> (r: Result<Vec<char>, String>)
    ensures
        operands::result_view(r) == call_text(kb, text::texts(labels@), func@, text::texts(args@), framed),
{
    let tys = param_type_list(kb, func);
    let mut o = chars_of("  ; invoke ");
    push_all(&mut o, func);
    push_str(&mut o, " (");
    let d = signed_dec_of(args.len() as i128);
    push_all(&mut o, &d);
    push_str(&mut o, " args)\n");
    if !framed {
        push_own_frame(&mut o, args.len());
    }
    let ghost head = "  ; invoke "@ + func@ + " ("@ + text::signed_dec(args@.len() as int)
        + " args)\n"@ + only_if(!framed, own_frame(args@.len() as int));
    assert(o@ =~= head);
    match marshal_args(args, &tys, kb, labels) {
        Ok(p) => {
            push_all(&mut o, &p);
            let mut t = chars_of("  call ");
            push_all(&mut t, func);
            push_str(&mut t, "\n");
            if !framed {
                push_drop_frame(&mut t);
            }
            let ghost tail = "  call "@ + func@ + "\n"@ + only_if(!framed, drop_frame());
            assert(t@ =~= tail);
            push_all(&mut o, &t);
            assert(o@ =~= head + (p@ + tail));
            Ok(o)
        },
        Err(m) => Err(m),
    }
}

pub open spec fn arity_warning(func: Seq<char>, want: int, got: int) -> Seq<char> {
    "  ; WARNING: "@ + func + " expects "@ + text::signed_dec(want) + " args, got "@ + text::signed_dec(got)
        + "\n"@
}

/// The expansion of `invoke <rest>`: the call, with a warning in front where the
/// number of arguments is not that of the known signature.
pub open spec fn invoke_text(
    kb: &Kb,
    labels: Seq<Seq<char>>,
    rest: Seq<char>,
    framed: bool,
) -> Result<Seq<char>, Seq<char>> {
    let parts = lex::split_commas(rest);
    let func = text::trim(parts[0]);
    let args = lex::trim_each(parts.drop_first());
    if func.len() == 0 {
        Err("invoke: missing function name"@)
    } else {
        let call = call_text(kb, labels, func, args, framed);
        match kb.spec_function(func) {
            Some(f) => if f.params@.len() != args.len() {
                chain(
                    Ok(arity_warning(func, f.params@.len() as int, args.len() as int)),
                    call,
                )
            } else {
                call
            },
            None => call,
        }
    }
}

/// The pieces of a comma list from `k` on, trimmed and copied.
fn trimmed_from(parts: &Vec<&[char]>, k: usize) -> (r: Vec<Vec<char>>)
    requires
        k <= parts@.len(),
    ensures
        text::texts(r@) == lex::trim_each(text::slices(parts@).skip(k as int)),
{
    let ghost want = lex::trim_each(text::slices(parts@).skip(k as int));
    let mut r: Vec<Vec<char>> = Vec::new();
    let mut i: usize = k;
    while i < parts.len()
        invariant
            want == lex::trim_each(text::slices(parts@).skip(k as int)),
            k <= i <= parts@.len(),
            text::texts(r@) =~= want.take(i - k),
        decreases parts@.len() - i,
    {
        let c = copy_of(trimmed(parts[i]));
        let ghost before = text::texts(r@);
        r.push(c);
        assert(text::texts(r@) =~= before.push(c@));
        i += 1;
    }
    assert(text::texts(r@) =~= want);
    r
}

/// Expand `invoke Func, a0, a1, …` to the Win64 call sequence.
pub fn expand_invoke(rest: &[char], kb: &Kb, labels: &Vec<Vec<char>>, framed: bool) -> (r: Result<
    Vec<char>,
    String,
>)
    ensures
        operands::result_view(r) == invoke_text(kb, text::texts(labels@), rest@, framed),
{
    let parts = split_top_commas(rest);
    assert(text::slices(parts@)[0] == parts@[0]@);
    let func = trimmed(parts[0]);
    if func.len() == 0 {
        return Err("invoke: missing function name".to_owned());
    }
    let args = trimmed_from(&parts, 1);
    assert(text::slices(parts@).skip(1) =~= text::slices(parts@).drop_first());
    assert(text::texts(args@).len() == args@.len());
    match kb.function(func) {
        Some(f) => {
            if f.params.len() != args.len() {
                let mut o = chars_of("  ; WARNING: ");
                push_all(&mut o, func);
                push_str(&mut o, " expects ");
                let d = signed_dec_of(f.params.len() as i128);
                push_all(&mut o, &d);
                push_str(&mut o, " args, got ");
                let e = signed_dec_of(args.len() as i128);
                push_all(&mut o, &e);
                push_str(&mut o, "\n");
                return match emit_call(func, &args, kb, labels, framed) {
                    Ok(p) => {
                        push_all(&mut o, &p);
                        Ok(o)
                    },
                    Err(m) => Err(m),
                };
            }
        },
        None => {},
    }
    emit_call(func, &args, kb, labels, framed)
}

// ── COM ─────────────────────────────────────────────────────────────────────

/// The types of the arguments of a COM call: none for `this`, then those of the
/// method's parameters.
pub open spec fn method_types(m: Method) -> Seq<Option<Seq<char>>> {
    seq![None] + Seq::new(m.params@.len(), |i: int| Some(m.params@[i]@))
}

pub open spec fn no_method_message(iface: Seq<char>, method: Seq<char>) -> Seq<char> {
    "comcall: interface '"@ + iface + "' has no method '"@ + method + "'"@
}

/// The expansion of `comcall <rest>` (`obj, Interface, Method[, args…]`): the
/// object is the `this` pointer and first argument, and the call is indirect
/// through the method's vtable slot.
pub open spec fn comcall_text(
    kb: &Kb,
    labels: Seq<Seq<char>>,
    rest: Seq<char>,
    framed: bool,
) -> Result<Seq<char>, Seq<char>> {
    let parts = lex::split_commas(rest);
    if parts.len() < 3 {
        Err("comcall needs at least: object, interface, method"@)
    } else {
        let iface = text::trim(parts[1]);
        let method = text::trim(parts[2]);
        match operands::com_method(kb, iface, method) {
            None => Err(no_method_message(iface, method)),
            Some(m) => {
                let all = seq![text::trim(parts[0])] + lex::trim_each(parts.skip(3));
                let head = "  ; comcall "@ + iface + "::"@ + method + "  (vtbl["@ + text::signed_dec(
                    m.vtable_index as int,
                ) + "], this + "@ + text::signed_dec(all.len() - 1) + " arg(s))\n"@ + only_if(
                    !framed,
                    own_frame(all.len() as int),
                );
                let tail = "  mov rax, [rcx]\n"@ + "  call qword ptr [rax + "@ + text::signed_dec(
                    m.vtable_index * 8,
                ) + "]\n"@ + only_if(!framed, drop_frame());
                chain(
                    Ok(head),
                    chain(arguments(kb, labels, all, method_types(m)), Ok(tail)),
                )
            },
        }
    }
}

fn method_type_list(m: &Method) -> (r: Vec<Option<Vec<char>>>)
    ensures
        types_view(r@) == method_types(*m),
{
    let ghost want = method_types(*m);
    let mut r: Vec<Option<Vec<char>>> = Vec::new();
    r.push(None);
    let mut i: usize = 0;
    while i < m.params.len()
        invariant
            want == method_types(*m),
            i <= m.params@.len(),
            types_view(r@) =~= want.take(i + 1),
        decreases m.params@.len() - i,
    {
        let c = chars_of(m.params[i].as_str());
        let ghost before = types_view(r@);
        r.push(Some(c));
        assert(types_view(r@) =~= before.push(Some(c@)));
        i += 1;
    }
    assert(types_view(r@) =~= want);
    r
}

/// Expand `comcall obj, Interface, Method[, args…]` to a COM vtable call.
pub fn expand_comcall(rest: &[char], kb: &Kb, labels: &Vec<Vec<char>>, framed: bool) -> (r: Result<
    Vec<char>,
    String,
>)
    ensures
        operands::result_view(r) == comcall_text(kb, text::texts(labels@), rest@, framed),
{
    let parts = split_top_commas(rest);
    let ghost pv = lex::split_commas(rest@);
    assert(pv.len() == parts@.len());
    if parts.len() < 3 {
        return Err("comcall needs at least: object, interface, method".to_owned());
    }
    assert(pv[0] == parts@[0]@ && pv[1] == parts@[1]@ && pv[2] == parts@[2]@);
    let iface = trimmed(parts[1]);
    let method = trimmed(parts[2]);
    let m = match find_method(kb, iface, method) {
        Some(m) => m,
        None => {
            let mut e = "comcall: interface '".to_owned();
            push_text(&mut e, iface);
            e.append("' has no method '");
            push_text(&mut e, method);
            e.append("'");
            return Err(e);
        },
    };
    let mut all: Vec<Vec<char>> = Vec::new();
    let this = copy_of(trimmed(parts[0]));
    all.push(this);
    let mut more = trimmed_from(&parts, 3);
    let ghost mv = text::texts(more@);
    all.append(&mut more);
    let ghost av = seq![text::trim(pv[0])] + lex::trim_each(pv.skip(3));
    assert(text::texts(all@) =~= av);
    assert(av.len() == all@.len());
    let mut o = chars_of("  ; comcall ");
    push_all(&mut o, iface);
    push_str(&mut o, "::");
    push_all(&mut o, method);
    push_str(&mut o, "  (vtbl[");
    let d = signed_dec_of(m.vtable_index as i128);
    push_all(&mut o, &d);
    push_str(&mut o, "], this + ");
    let e = signed_dec_of(all.len() as i128 - 1);
    push_all(&mut o, &e);
    push_str(&mut o, " arg(s))\n");
    if !framed {
        push_own_frame(&mut o, all.len());
    }
    let ghost head = "  ; comcall "@ + iface@ + "::"@ + method@ + "  (vtbl["@ + text::signed_dec(
        m.vtable_index as int,
    ) + "], this + "@ + text::signed_dec(av.len() - 1) + " arg(s))\n"@ + only_if(
        !framed,
        own_frame(av.len() as int),
    );
    assert(o@ =~= head);
    let tys = method_type_list(m);
    match marshal_args(&all, &tys, kb, labels) {
        Ok(p) => {
            push_all(&mut o, &p);
            let mut t = chars_of("  mov rax, [rcx]\n");
            push_str(&mut t, "  call qword ptr [rax + ");
            let disp = signed_dec_of(m.vtable_index as i128 * 8);
            push_all(&mut t, &disp);
            push_str(&mut t, "]\n");
            if !framed {
                push_drop_frame(&mut t);
            }
            let ghost tail = "  mov rax, [rcx]\n"@ + "  call qword ptr [rax + "@ + text::signed_dec(
                m.vtable_index * 8,
            ) + "]\n"@ + only_if(!framed, drop_frame());
            assert(t@ =~= tail);
            push_all(&mut o, &t);
            assert(o@ =~= head + (p@ + tail));
            Ok(o)
        },
        Err(m) => Err(m),
    }
}

// ── GUIDs ───────────────────────────────────────────────────────────────────

/// The hexadecimal digits of `g`, in order.
pub open spec fn guid_digits(g: Seq<char>) -> Seq<char> {
    g.filter(|c: char| text::is_hex_digit(c))
}

/// The byte that the digits `2 * i` and `2 * i + 1` of `h` write.
pub open spec fn digit_byte(h: Seq<char>, i: int) -> int {
    text::digit_value(h[2 * i], 16) * 16 + text::digit_value(h[2 * i + 1], 16)
}

/// The position, among the bytes as written, of byte `i` in memory: the first
/// three groups are little-endian, the last eight bytes stay.
pub open spec fn guid_order(i: int) -> int {
    if i < 4 {
        3 - i
    } else if i < 6 {
        9 - i
    } else if i < 8 {
        13 - i
    } else {
        i
    }
}

/// The bytes of the GUID with the hexadecimal digits `h`, as they lie in memory.
pub open spec fn guid_bytes(h: Seq<char>) -> Seq<u8> {
    Seq::new(16, |i: int| digit_byte(h, guid_order(i)) as u8)
}

pub open spec fn bad_guid_message(g: Seq<char>) -> Seq<char> {
    "malformed GUID '"@ + g + "' (need 32 hex digits)"@
}

fn byte_at(h: &Vec<char>, i: usize) -> (r: u8)
    requires
        h@.len() == 32,
        i < 16,
        forall|k: int| 0 <= k < 32 ==> text::is_hex_digit(#[trigger] h@[k]),
    ensures
        r == digit_byte(h@, i as int),
{
    assert(text::is_hex_digit(h@[2 * i as int]));
    assert(text::is_hex_digit(h@[2 * i as int + 1]));
    match digit_value_of(h[2 * i], 16) {
        Some(a) => match digit_value_of(h[2 * i + 1], 16) {
            Some(b) => (a * 16 + b) as u8,
            None => 0,
        },
        None => 0,
    }
}

/// The 16 bytes of a COM GUID, in the mixed-endian layout it has in memory.
pub fn guid_to_bytes(g: &str) -> (r: Result<[u8; 16], String>)
    ensures
        r matches Ok(b) ==> guid_digits(g@).len() == 32 && b@ == guid_bytes(guid_digits(g@)),
        r matches Err(m) ==> guid_digits(g@).len() != 32 && m@ == bad_guid_message(g@),
{
    let gc = chars_of(g);
    let ghost p = |c: char| text::is_hex_digit(c);
    let mut h: Vec<char> = Vec::new();
    let mut i: usize = 0;
    assert(g@.take(0) =~= Seq::empty());
    reveal(Seq::filter);
    while i < gc.len()
        invariant
            p == (|c: char| text::is_hex_digit(c)),
            gc@ == g@,
            i <= gc@.len(),
            h@ == g@.take(i as int).filter(p),
            forall|k: int| 0 <= k < h@.len() ==> text::is_hex_digit(#[trigger] h@[k]),
        decreases gc@.len() - i,
    {
        proof {
            reveal(Seq::filter);
            assert(g@.take(i as int + 1).drop_last() =~= g@.take(i as int));
        }
        if char_is_hex(gc[i]) {
            h.push(gc[i]);
        }
        i += 1;
    }
    assert(g@.take(g@.len() as int) =~= g@);
    if h.len() != 32 {
        let mut m = "malformed GUID '".to_owned();
        m.append(g);
        m.append("' (need 32 hex digits)");
        return Err(m);
    }
    let b: [u8; 16] = [
        byte_at(&h, 3),
        byte_at(&h, 2),
        byte_at(&h, 1),
        byte_at(&h, 0),
        byte_at(&h, 5),
        byte_at(&h, 4),
        byte_at(&h, 7),
        byte_at(&h, 6),
        byte_at(&h, 8),
        byte_at(&h, 9),
        byte_at(&h, 10),
        byte_at(&h, 11),
        byte_at(&h, 12),
        byte_at(&h, 13),
        byte_at(&h, 14),
        byte_at(&h, 15),
    ];
    assert(b@ =~= guid_bytes(h@));
    Ok(b)
}

/// The byte lines of the last eight bytes of a GUID, from byte `i` on.
pub open spec fn guid_tail_from(b: Seq<u8>, i: int) -> Seq<char>
    decreases 16 - i,
{
    if i >= 16 {
        Seq::empty()
    } else {
        "  .byte 0x"@ + text::hex(b[i] as int, 2) + "\n"@ + guid_tail_from(b, i + 1)
    }
}

/// The data directives of the GUID bytes `b`.
pub open spec fn guid_directives(b: Seq<u8>) -> Seq<char> {
    "  .long 0x"@ + text::hex(b[0] + b[1] * 0x100 + b[2] * 0x10000 + b[3] * 0x1000000, 8)
        + "\n  .word 0x"@ + text::hex(b[4] + b[5] * 0x100, 4) + "\n  .word 0x"@ + text::hex(
        b[6] + b[7] * 0x100,
        4,
    ) + "\n"@ + guid_tail_from(b, 8)
}

/// What `iid <rest>` emits: the interface's IID as 16 bytes of data.
pub open spec fn iid_text(kb: &Kb, rest: Seq<char>) -> Result<Seq<char>, Seq<char>> {
    let name = text::trim(rest);
    match kb.spec_interface(name) {
        None => Err("iid: unknown interface '"@ + name + "'"@),
        Some(i) => match i.iid {
            None => Err("iid: "@ + name + " has no IID"@),
            Some(g) => if guid_digits(g@).len() == 32 {
                Ok(
                    "  ; IID of "@ + name + " = {"@ + g@ + "}\n"@ + guid_directives(
                        guid_bytes(guid_digits(g@)),
                    ),
                )
            } else {
                Err(bad_guid_message(g@))
            },
        },
    }
}

/// Expand `iid Interface` to the 16 GUID bytes of that interface's IID.
pub fn emit_iid(rest: &[char], kb: &Kb) -> (r: Result<Vec<char>, String>)
    ensures
        operands::result_view(r) == iid_text(kb, rest@),
{
    let name = trimmed(rest);
    let i = match kb.interface(name) {
        Some(i) => i,
        None => {
            let mut m = "iid: unknown interface '".to_owned();
            push_text(&mut m, name);
            m.append("'");
            return Err(m);
        },
    };
    let guid = match &i.iid {
        Some(g) => g,
        None => {
            let mut m = "iid: ".to_owned();
            push_text(&mut m, name);
            m.append(" has no IID");
            return Err(m);
        },
    };
    let b = match guid_to_bytes(guid.as_str()) {
        Ok(b) => b,
        Err(m) => return Err(m),
    };
    let mut o = chars_of("  ; IID of ");
    push_all(&mut o, name);
    push_str(&mut o, " = {");
    push_str(&mut o, guid.as_str());
    push_str(&mut o, "}\n");
    let ghost head = o@;
    let mut p = chars_of("  .long 0x");
    let d1: u64 = b[0] as u64 + b[1] as u64 * 0x100 + b[2] as u64 * 0x10000 + b[3] as u64
        * 0x1000000;
    let h1 = hex_of(d1, 8);
    push_all(&mut p, &h1);
    push_str(&mut p, "\n  .word 0x");
    let d2: u64 = b[4] as u64 + b[5] as u64 * 0x100;
    let h2 = hex_of(d2, 4);
    push_all(&mut p, &h2);
    push_str(&mut p, "\n  .word 0x");
    let d3: u64 = b[6] as u64 + b[7] as u64 * 0x100;
    let h3 = hex_of(d3, 4);
    push_all(&mut p, &h3);
    push_str(&mut p, "\n");
    let ghost first = p@;
    let mut k: usize = 8;
    assert(first + guid_tail_from(b@, 8) =~= guid_directives(b@));
    while k < 16
        invariant
            8 <= k <= 16,
            p@ + guid_tail_from(b@, k as int) =~= guid_directives(b@),
        decreases 16 - k,
    {
        let ghost before = p@;
        push_str(&mut p, "  .byte 0x");
        let hb = hex_of(b[k] as u64, 2);
        push_all(&mut p, &hb);
        push_str(&mut p, "\n");
        assert(p@ + guid_tail_from(b@, k + 1) =~= before + ("  .byte 0x"@ + text::hex(
            b@[k as int] as int,
            2,
        ) + "\n"@ + guid_tail_from(b@, k + 1)));
        k += 1;
    }
    assert(p@ =~= guid_directives(b@));
    push_all(&mut o, &p);
    Ok(o)
}

} // verus!
