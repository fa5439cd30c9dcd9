//! Operands: constants, struct fields and `sizeof` resolved through the
//! knowledge base.
use crate::text;
use crate::was::macros;
use crate::was::regs;
use crate::text::{
    char_is_alpha, char_is_ident, chars_of, copy_of, has_suffix, indent_of, index_of, is,
    last_index_of, push_all, push_text, same, signed_dec_of, split_at_char, trimmed,
};
use crate::was::macros::end_of_literal;
use crate::was::regs::is_register;
use crate::winkb::kb::{Field, Kb, Method, Value};
use vstd::prelude::*;
use vstd::slice::slice_subrange;

verus! {

// ── struct fields ───────────────────────────────────────────────────────────

/// The byte size of a field from its type name: primitives directly, pointers 8,
/// otherwise what the knowledge base says (unknown enums fall back to 4).
pub open spec fn size_of_field(kb: &Kb, ty: Seq<char>) -> int {
    let t = text::trim(ty);
    if text::ends_with(t, "*"@) {
        8
    } else if t == "u8"@ || t == "i8"@ || t == "BYTE"@ || t == "byte"@ || t == "CHAR"@ || t == "BOOLEAN"@ {
        1
    } else if t == "u16"@ || t == "i16"@ || t == "WORD"@ || t == "WCHAR"@ || t == "SHORT"@ || t == "USHORT"@ {
        2
    } else if t == "u32"@ || t == "i32"@ || t == "DWORD"@ || t == "BOOL"@ || t == "LONG"@ || t == "ULONG"@ || t == "UINT"@ || t == "INT"@ || t == "FLOAT"@ || t == "f32"@ {
        4
    } else if t == "u64"@ || t == "i64"@ || t == "QWORD"@ || t == "f64"@ || t == "DOUBLE"@ || t == "HWND"@ || t == "HANDLE"@ || t == "HINSTANCE"@ || t == "HDC"@ || t == "HMODULE"@ || t == "HMENU"@ || t == "HBRUSH"@ || t == "HICON"@ || t == "HCURSOR"@ || t == "LPARAM"@ || t == "WPARAM"@ || t == "LRESULT"@ || t == "SIZE_T"@ || t == "INT_PTR"@ || t == "UINT_PTR"@ || t == "PVOID"@ || t == "LPVOID"@ || t == "PWSTR"@ || t == "PCWSTR"@ {
        8
    } else {
        match kb.spec_sizeof(t) {
            Some(n) => n,
            None => 4,
        }
    }
}

pub fn field_size(kb: &Kb, ty: &[char]) -> (r: i64)
    ensures
        r == size_of_field(kb, ty@),
{
    let t = trimmed(ty);
    if has_suffix(t, "*") {
        8
    } else if is(t, "u8") || is(t, "i8") || is(t, "BYTE") || is(t, "byte") || is(t, "CHAR") || is(t, "BOOLEAN") {
        1
    } else if is(t, "u16") || is(t, "i16") || is(t, "WORD") || is(t, "WCHAR") || is(t, "SHORT") || is(t, "USHORT") {
        2
    } else if is(t, "u32") || is(t, "i32") || is(t, "DWORD") || is(t, "BOOL") || is(t, "LONG") || is(t, "ULONG") || is(t, "UINT") || is(t, "INT") || is(t, "FLOAT") || is(t, "f32") {
        4
    } else if is(t, "u64") || is(t, "i64") || is(t, "QWORD") || is(t, "f64") || is(t, "DOUBLE") || is(t, "HWND") || is(t, "HANDLE") || is(t, "HINSTANCE") || is(t, "HDC") || is(t, "HMODULE") || is(t, "HMENU") || is(t, "HBRUSH") || is(t, "HICON") || is(t, "HCURSOR") || is(t, "LPARAM") || is(t, "WPARAM") || is(t, "LRESULT") || is(t, "SIZE_T") || is(t, "INT_PTR") || is(t, "UINT_PTR") || is(t, "PVOID") || is(t, "LPVOID") || is(t, "PWSTR") || is(t, "PCWSTR") {
        8
    } else {
        match kb.sizeof(t) {
            Some(n) => n,
            None => 4,
        }
    }
}

/// The first field of `v` from `i` on that is called `name`.
pub open spec fn field_from(v: Seq<Field>, name: Seq<char>, i: int) -> Option<Field>
    decreases v.len() - i,
{
    if i >= v.len() {
        None
    } else if v[i].name@ == name {
        Some(v[i])
    } else {
        field_from(v, name, i + 1)
    }
}

fn find_field<'a>(v: &'a Vec<Field>, name: &[char]) -> (r: Option<&'a Field>)
    ensures
        (match r {
            Some(f) => Some(*f),
            None => None,
        }) == field_from(v@, name@, 0),
{
    let mut i: usize = 0;
    while i < v.len()
        invariant
            i <= v@.len(),
            field_from(v@, name@, 0) == field_from(v@, name@, i as int),
        decreases v@.len() - i,
    {
        if is(name, v[i].name.as_str()) {
            return Some(&v[i]);
        }
        i += 1;
    }
    None
}

/// The last component of a dotted name.
pub open spec fn last_component(s: Seq<char>) -> Seq<char> {
    s.skip(text::rfind(s, '.') + 1)
}

pub fn last_part<'a>(s: &'a [char]) -> (r: &'a [char])
    ensures
        r@ == last_component(s@),
{
    let n: usize = s.len();
    match last_index_of(s, '.') {
        Some(i) => slice_subrange(s, i + 1, n),
        None => {
            assert(s@.skip(0) =~= s@);
            s
        },
    }
}

/// The offset and size of the field that the components `parts` from `i` on lead
/// to, inside the struct `cur` at offset `off`.
pub open spec fn path_from(
    kb: &Kb,
    cur: Seq<char>,
    parts: Seq<Seq<char>>,
    i: int,
    off: int,
) -> Option<(int, int)>
    decreases parts.len() - i,
{
    if i >= parts.len() {
        None
    } else {
        match kb.spec_layout(cur) {
            None => None,
            Some(l) => match field_from(l.fields@, parts[i], 0) {
                None => None,
                Some(f) => if i == parts.len() - 1 {
                    Some((off + f.offset, size_of_field(kb, f.ty@)))
                } else {
                    path_from(kb, last_component(f.ty@), parts, i + 1, off + f.offset)
                },
            },
        }
    }
}

/// A (possibly nested) field path like `BufferDesc.Width` within `root`: its byte
/// offset and size.
pub open spec fn path_offset(kb: &Kb, root: Seq<char>, path: Seq<char>) -> Option<(int, int)> {
    path_from(kb, root, text::split(path, '.'), 0, 0)
}

/// No field path leads further than this: a path has at most as many components
/// as a machine word counts, and each offset is a 64-bit number.
pub open spec fn offset_limit() -> int {
    usize::MAX * 0x8000_0000_0000_0000
}

/// Resolve a (possibly nested) field path within `root` to its byte offset and
/// size, descending through nested struct types.
pub fn field_path(kb: &Kb, root: &[char], path: &[char]) -> (r: Option<(i128, i64)>)
    ensures
        (match r {
            Some((o, n)) => Some((o as int, n as int)),
            None => None,
        }) == path_offset(kb, root@, path@),
        r matches Some((o, n)) ==> -offset_limit() <= o <= offset_limit(),
{
    let parts = split_at_char(path, '.');
    let ghost pv = text::split(path@, '.');
    let mut cur = copy_of(root);
    let mut off: i128 = 0;
    let mut i: usize = 0;
    while i < parts.len()
        invariant
            pv == text::split(path@, '.'),
            text::slices(parts@) == pv,
            i <= parts@.len(),
            -(i * 0x8000_0000_0000_0000) <= off <= i * 0x8000_0000_0000_0000,
            path_offset(kb, root@, path@) == path_from(kb, cur@, pv, i as int, off as int),
        decreases parts@.len() - i,
    {
        assert(pv[i as int] == parts@[i as int]@);
        let layout = match kb.layout(&cur) {
            Some(l) => l,
            None => return None,
        };
        let f = match find_field(&layout.fields, parts[i]) {
            Some(f) => f,
            None => return None,
        };
        off = off + f.offset as i128;
        let ty = chars_of(f.ty.as_str());
        if i == parts.len() - 1 {
            return Some((off, field_size(kb, &ty)));
        }
        cur = copy_of(last_part(&ty));
        i += 1;
    }
    None
}

// ── interfaces ──────────────────────────────────────────────────────────────

/// The first method of `v` from `i` on that is called `name`.
pub open spec fn method_from(v: Seq<Method>, name: Seq<char>, i: int) -> Option<Method>
    decreases v.len() - i,
{
    if i >= v.len() {
        None
    } else if v[i].name@ == name {
        Some(v[i])
    } else {
        method_from(v, name, i + 1)
    }
}

/// The method `name` of the interface `iface` or of one of its bases, at most
/// `steps` interfaces up.
pub open spec fn method_up(kb: &Kb, iface: Seq<char>, name: Seq<char>, steps: nat) -> Option<Method>
    decreases steps,
{
    if steps == 0 {
        None
    } else {
        match kb.spec_interface(iface) {
            None => None,
            Some(i) => match method_from(i.methods@, name, 0) {
                Some(m) => Some(m),
                None => match i.base {
                    Some(b) => method_up(kb, last_component(b@), name, (steps - 1) as nat),
                    None => None,
                },
            },
        }
    }
}

/// The COM method `method` of `iface`, its own or inherited.
pub open spec fn com_method(kb: &Kb, iface: Seq<char>, method: Seq<char>) -> Option<Method> {
    method_up(kb, iface, method, 32)
}

fn own_method<'a>(v: &'a Vec<Method>, name: &[char]) -> (r: Option<&'a Method>)
    ensures
        (match r {
            Some(m) => Some(*m),
            None => None,
        }) == method_from(v@, name@, 0),
{
    let mut i: usize = 0;
    while i < v.len()
        invariant
            i <= v@.len(),
            method_from(v@, name@, 0) == method_from(v@, name@, i as int),
        decreases v@.len() - i,
    {
        if is(name, v[i].name.as_str()) {
            return Some(&v[i]);
        }
        i += 1;
    }
    None
}

/// Find a COM method (with its vtable index and parameter types) by walking the
/// base-interface chain, so that inherited methods resolve too.
pub fn find_method<'a>(kb: &'a Kb, iface: &[char], method: &[char]) -> (r: Option<&'a Method>)
    ensures
        (match r {
            Some(m) => Some(*m),
            None => None,
        }) == com_method(kb, iface@, method@),
{
    let mut name = copy_of(iface);
    let mut k: usize = 32;
    while k > 0
        invariant
            k <= 32,
            com_method(kb, iface@, method@) == method_up(kb, name@, method@, k as nat),
        decreases k,
    {
        let i = match kb.interface(&name) {
            Some(i) => i,
            None => return None,
        };
        match own_method(&i.methods, method) {
            Some(m) => return Some(m),
            None => {},
        }
        match &i.base {
            Some(b) => {
                let bc = chars_of(b.as_str());
                name = copy_of(last_part(&bc));
            },
            None => return None,
        }
        k -= 1;
    }
    None
}

/// The vtable index of a COM method (or `None` if unknown).
pub fn vtable_index_of(kb: &Kb, iface: &[char], method: &[char]) -> (r: Option<i64>)
    ensures
        r == (match com_method(kb, iface@, method@) {
            Some(m) => Some(m.vtable_index),
            None => None,
        }),
{
    match find_method(kb, iface, method) {
        Some(m) => Some(m.vtable_index),
        None => None,
    }
}

// ── operand text ────────────────────────────────────────────────────────────

/// Whether `name` is among the labels.
pub fn is_known(labels: &Vec<Vec<char>>, name: &[char]) -> (r: bool)
    ensures
        r == text::texts(labels@).contains(name@),
{
    let mut i: usize = 0;
    while i < labels.len()
        invariant
            i <= labels@.len(),
            forall|j: int| 0 <= j < i ==> labels@[j]@ != name@,
        decreases labels@.len() - i,
    {
        if same(&labels[i], name) {
            assert(text::texts(labels@)[i as int] == name@);
            return true;
        }
        i += 1;
    }
    assert forall|j: int| 0 <= j < labels@.len() implies text::texts(labels@)[j] != name@ by {
        assert(labels@[j]@ != name@);
    }
    false
}

/// The argument of `sizeof` behind the keyword: how many characters it takes, and
/// the type. Either `(Type)` or a bare name.
pub open spec fn sizeof_arg(after: Seq<char>) -> (int, Seq<char>) {
    let k = text::first_from(after, text::not_ws(), 0);
    let s = after.skip(k);
    let close = text::find(s.skip(1), ')');
    if s.len() > 0 && s[0] == '(' && close < s.len() - 1 {
        (k + 1 + close + 1, text::trim(s.skip(1).take(close)))
    } else {
        let end = text::first_from(s, |c: char| !text::is_ident(c) && c != '.', 0);
        (k + end, text::trim(s.take(end)))
    }
}

pub fn read_sizeof_arg<'a>(after: &'a [char]) -> (r: (usize, &'a [char]))
    ensures
        r.0 == sizeof_arg(after@).0,
        r.1@ == sizeof_arg(after@).1,
        r.0 <= after@.len(),
{
    let k: usize = indent_of(after);
    let s = slice_subrange(after, k, after.len());
    if s.len() > 0 && s[0] == '(' {
        let inner = slice_subrange(s, 1, s.len());
        let close: usize = index_of(inner, ')');
        if close < inner.len() {
            return (k + 1 + close + 1, trimmed(slice_subrange(inner, 0, close)));
        }
    }
    let end: usize = end_of_dotted(s, 0);
    (k + end, trimmed(slice_subrange(s, 0, end)))
}

/// The end of the run of symbol characters and dots from `i` on.
pub open spec fn dotted_end(s: Seq<char>, i: int) -> int {
    text::first_from(s, |c: char| !text::is_ident(c) && c != '.', i)
}

pub fn end_of_dotted(s: &[char], i: usize) -> (r: usize)
    requires
        i <= s@.len(),
    ensures
        r == dotted_end(s@, i as int),
        i <= r <= s@.len(),
        i < s@.len() && text::is_ident(s@[i as int]) ==> i < r,
        forall|j: int| i <= j < r ==> text::is_ident(s@[j]) || s@[j] == '.',
{
    let ghost p = |c: char| !text::is_ident(c) && c != '.';
    let mut n: usize = i;
    while n < s.len()
        invariant_except_break
            p == (|c: char| !text::is_ident(c) && c != '.'),
            i <= n <= s@.len(),
            dotted_end(s@, i as int) == text::first_from(s@, p, n as int),
        ensures
            i <= n <= s@.len(),
            n == dotted_end(s@, i as int),
        decreases s@.len() - n,
    {
        if !char_is_ident(s[n]) && s[n] != '.' {
            break;
        }
        n += 1;
    }
    proof {
        text::lemma_first_from(s@, p, i as int);
        assert forall|j: int| i <= j < n implies text::is_ident(s@[j]) || s@[j] == '.' by {
            assert(!p(s@[j]));
        }
    }
    n
}

/// What the identifier `tok` stands for: `Struct.field` its offset, a known
/// constant its value, anything else itself. Registers and the source's own
/// labels are never resolved.
pub open spec fn token_text(kb: &Kb, labels: Seq<Seq<char>>, tok: Seq<char>) -> Seq<char> {
    let dot = text::find(tok, '.');
    if dot < tok.len() {
        let lhs = tok.take(dot);
        if !regs::names_register(lhs) && !labels.contains(lhs) {
            match path_offset(kb, lhs, tok.skip(dot + 1)) {
                Some((off, _)) => text::signed_dec(off),
                None => tok,
            }
        } else {
            tok
        }
    } else if regs::names_register(tok) || labels.contains(tok) {
        tok
    } else if kb.spec_resolve(tok).len() > 0 {
        text::signed_dec(kb.spec_resolve(tok)[0].i64v as int)
    } else {
        tok
    }
}

/// Resolve a single identifier token: `Struct.field` to its offset, a bare name
/// to its value.
pub fn resolve_token(tok: &[char], kb: &Kb, labels: &Vec<Vec<char>>) -> (r: Vec<char>)
    ensures
        r@ == token_text(kb, text::texts(labels@), tok@),
{
    let dot: usize = index_of(tok, '.');
    if dot < tok.len() {
        let lhs = slice_subrange(tok, 0, dot);
        let field = slice_subrange(tok, dot + 1, tok.len());
        if !is_register(lhs) && !is_known(labels, lhs) {
            match field_path(kb, lhs, field) {
                Some((off, _)) => return signed_dec_of(off),
                None => {},
            }
        }
        return copy_of(tok);
    }
    if is_register(tok) || is_known(labels, tok) {
        return copy_of(tok);
    }
    let vals = kb.resolve(tok);
    let ghost vv = vals@.map_values(|v: &Value| *v);
    assert(vv.len() == vals@.len());
    if vals.len() > 0 {
        assert(vv[0] == *vals@[0]);
        return signed_dec_of(vals[0].i64v as i128);
    }
    copy_of(tok)
}

pub open spec fn unknown_type_message(ty: Seq<char>) -> Seq<char> {
    "sizeof: unknown type '"@ + ty + "'"@
}

/// `head` in front of a resolved text, or the error.
pub open spec fn put_before(head: Seq<char>, r: Result<Seq<char>, Seq<char>>) -> Result<
    Seq<char>,
    Seq<char>,
> {
    match r {
        Ok(t) => Ok(head + t),
        Err(m) => Err(m),
    }
}

/// The operand text `s` from `i` on with its identifiers resolved; everything
/// else is copied verbatim.
pub open spec fn operands_from(kb: &Kb, labels: Seq<Seq<char>>, s: Seq<char>, i: int) -> Result<
    Seq<char>,
    Seq<char>,
>
    decreases s.len() - i,
    via operands_from_decreases
{
    if i < 0 || i >= s.len() {
        Ok(Seq::empty())
    } else if s[i] == '\'' || s[i] == '"' {
        put_before(
            s.subrange(i, macros::literal_end(s, i)),
            operands_from(kb, labels, s, macros::literal_end(s, i)),
        )
    } else if text::is_alpha(s[i]) || s[i] == '_' {
        let e = dotted_end(s, i);
        let tok = s.subrange(i, e);
        if tok == "sizeof"@ {
            let (n, ty) = sizeof_arg(s.skip(e));
            match kb.spec_sizeof(ty) {
                Some(size) => put_before(
                    text::signed_dec(size),
                    operands_from(kb, labels, s, e + n),
                ),
                None => Err(unknown_type_message(ty)),
            }
        } else {
            put_before(token_text(kb, labels, tok), operands_from(kb, labels, s, e))
        }
    } else {
        put_before(seq![s[i]], operands_from(kb, labels, s, i + 1))
    }
}

#[via_fn]
proof fn operands_from_decreases(kb: &Kb, labels: Seq<Seq<char>>, s: Seq<char>, i: int) {
    if 0 <= i < s.len() {
        text::lemma_first_from(s, text::eq_char(s[i]), i + 1);
        let p = |c: char| !text::is_ident(c) && c != '.';
        text::lemma_first_from(s, p, i);
        lemma_sizeof_arg(s.skip(dotted_end(s, i)));
    }
}

/// The argument of `sizeof` lies within the text behind the keyword.
pub proof fn lemma_sizeof_arg(after: Seq<char>)
    ensures
        0 <= sizeof_arg(after).0 <= after.len(),
{
    let k = text::first_from(after, text::not_ws(), 0);
    text::lemma_first_from(after, text::not_ws(), 0);
    let s = after.skip(k);
    let inner = s.skip(1);
    text::lemma_first_from(inner, text::eq_char(')'), 0);
    let p = |c: char| !text::is_ident(c) && c != '.';
    text::lemma_first_from(s, p, 0);
}

/// The operand text `s` with its identifiers resolved: `sizeof(T)`,
/// `Struct.field`, and bare constant or enum names.
pub open spec fn resolved(kb: &Kb, labels: Seq<Seq<char>>, s: Seq<char>) -> Result<
    Seq<char>,
    Seq<char>,
> {
    operands_from(kb, labels, s, 0)
}

/// The view of a result of text.
pub open spec fn result_view(r: Result<Vec<char>, String>) -> Result<Seq<char>, Seq<char>> {
    match r {
        Ok(t) => Ok(t@),
        Err(m) => Err(m@),
    }
}

/// Rewrite identifiers in operand text: `sizeof(T)`, `Struct.field`, and bare
/// constant/enum names. Everything else is copied verbatim.
pub fn resolve_operands(text: &[char], kb: &Kb, labels: &Vec<Vec<char>>) -> (r: Result<
    Vec<char>,
    String,
>)
    ensures
        result_view(r) == resolved(kb, text::texts(labels@), text@),
{
    let ghost lv = text::texts(labels@);
    let mut out: Vec<char> = Vec::new();
    let mut i: usize = 0;
    assert(put_before(Seq::empty(), resolved(kb, lv, text@)) == resolved(kb, lv, text@)) by {
        match resolved(kb, lv, text@) {
            Ok(t) => {
                assert(Seq::<char>::empty() + t =~= t);
            },
            Err(m) => {},
        }
    }
    while i < text.len()
        invariant
            lv == text::texts(labels@),
            i <= text@.len(),
            put_before(out@, operands_from(kb, lv, text@, i as int)) == resolved(kb, lv, text@),
        decreases text@.len() - i,
    {
        let c = text[i];
        let ghost before = out@;
        let ghost start = i as int;
        if c == '\'' || c == '"' {
            let e: usize = end_of_literal(text, i);
            push_all(&mut out, slice_subrange(text, i, e));
            i = e;
            proof {
                lemma_put_before(
                    before,
                    text@.subrange(start, e as int),
                    operands_from(kb, lv, text@, e as int),
                );
            }
        } else if char_is_alpha(c) || c == '_' {
            let e: usize = end_of_dotted(text, i);
            let tok = slice_subrange(text, i, e);
            if is(tok, "sizeof") {
                let (n, ty) = read_sizeof_arg(slice_subrange(text, e, text.len()));
                match kb.sizeof(ty) {
                    Some(size) => {
                        let d = signed_dec_of(size as i128);
                        push_all(&mut out, &d);
                        i = e + n;
                        proof {
                            lemma_put_before(
                                before,
                                d@,
                                operands_from(kb, lv, text@, i as int),
                            );
                        }
                    },
                    None => {
                        let mut m = "sizeof: unknown type '".to_owned();
                        push_text(&mut m, ty);
                        m.append("'");
                        return Err(m);
                    },
                }
            } else {
                let t = resolve_token(tok, kb, labels);
                push_all(&mut out, &t);
                i = e;
                proof {
                    lemma_put_before(before, t@, operands_from(kb, lv, text@, e as int));
                }
            }
        } else {
            out.push(c);
            i += 1;
            proof {
                lemma_put_before(before, seq![c], operands_from(kb, lv, text@, i as int));
                assert(before + seq![c] =~= before.push(c));
            }
        }
    }
    assert(out@ + Seq::<char>::empty() =~= out@);
    Ok(out)
}

proof fn lemma_put_before(a: Seq<char>, b: Seq<char>, r: Result<Seq<char>, Seq<char>>)
    ensures
        put_before(a, put_before(b, r)) == put_before(a + b, r),
{
    match r {
        Ok(t) => {
            assert(a + (b + t) =~= a + b + t);
        },
        Err(m) => {},
    }
}

} // verus!
