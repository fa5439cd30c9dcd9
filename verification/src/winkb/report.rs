//! What the knowledge base is asked for on the command line, as text.
use crate::text;
use crate::winkb::search;
use crate::text::{
    chars_of, has_char, hex_plain_of, index_of, last_index_of, number_text, push_dec, push_padded,
    push_right, push_text, trimmed,
};
use crate::winkb::kb::{Field, Func, Interface, Kb, Layout, Method, Param, Value};
use vstd::prelude::*;
use vstd::slice::slice_subrange;

verus! {

// ── searches ────────────────────────────────────────────────────────────────

/// One row of a table: a kind, a name padded to `w`, and a detail.
pub open spec fn table_row(r: (Seq<char>, Seq<char>, Seq<char>), w: int) -> Seq<char> {
    text::pad_right(r.1, 10) + " "@ + text::pad_right(r.0, w) + " "@ + r.2 + "\n"@
}

/// The first `n` rows of a table.
pub open spec fn table(v: Seq<(Seq<char>, Seq<char>, Seq<char>)>, w: int, n: int) -> Seq<char>
    decreases n,
{
    if n <= 0 {
        Seq::empty()
    } else {
        table(v, w, n - 1) + table_row(v[n - 1], w)
    }
}

fn push_table_row(m: &mut String, kind: &str, name: &str, detail: &str, w: usize)
    ensures
        final(m)@ == old(m)@ + table_row((name@, kind@, detail@), w as int),
{
    let ghost before = m@;
    push_padded(m, kind, 10);
    m.append(" ");
    push_padded(m, name, w);
    m.append(" ");
    m.append(detail);
    m.append("\n");
    assert(m@ =~= before + table_row((name@, kind@, detail@), w as int));
}

fn empty_text() -> (r: String)
    ensures
        r@ == Seq::<char>::empty(),
{
    proof {
        reveal_strlit("");
        assert(""@ =~= Seq::<char>::empty());
    }
    "".to_owned()
}

/// The hits of a search, one in a row, and how many there are.
pub fn search_report(kb: &Kb, frag: &str) -> (r: Result<(String, usize), String>)
    ensures
        ({
            let v = search::search_of(kb.names@, frag@, 40);
            match r {
                Ok((t, n)) => !search::search_refused(kb.names@, frag@, 40) && t@ == table(
                    v,
                    44,
                    v.len() as int,
                ) && n == v.len(),
                Err(m) => search::search_refused(kb.names@, frag@, 40) && m@
                    == search::too_complex(),
            }
        }),
{
    let hits = match kb.search(frag, 40) {
        Ok(v) => v,
        Err(m) => return Err(m),
    };
    let ghost all = search::hits_view(hits@);
    let mut m = empty_text();
    let mut i: usize = 0;
    assert(all.len() == hits@.len());
    while i < hits.len()
        invariant
            all == search::hits_view(hits@),
            i <= hits@.len(),
            m@ == table(all, 44, i as int),
        decreases hits@.len() - i,
    {
        assert(all[i as int] == hits@[i as int]@);
        push_table_row(
            &mut m,
            hits[i].kind.as_str(),
            hits[i].name.as_str(),
            hits[i].detail.as_str(),
            44,
        );
        i += 1;
    }
    Ok((m, hits.len()))
}

/// The candidates for a prefix, one in a row, and how many there are.
pub fn complete_report(kb: &Kb, prefix: &str, scope: &str) -> (r: Result<(String, usize), String>)
    ensures
        ({
            let v = search::completion_of(kb.names@, prefix@, scope@, 30);
            match r {
                Ok((t, n)) => !search::completion_refused(kb.names@, prefix@, scope@, 30) && t@
                    == table(v, 40, v.len() as int) && n == v.len(),
                Err(m) => search::completion_refused(kb.names@, prefix@, scope@, 30) && m@
                    == search::too_complex(),
            }
        }),
{
    let hits = match kb.complete(prefix, scope, 30) {
        Ok(v) => v,
        Err(m) => return Err(m),
    };
    let ghost all = search::completions_view(hits@);
    let mut m = empty_text();
    let mut i: usize = 0;
    assert(all.len() == hits@.len());
    while i < hits.len()
        invariant
            all == search::completions_view(hits@),
            i <= hits@.len(),
            m@ == table(all, 40, i as int),
        decreases hits@.len() - i,
    {
        assert(all[i as int] == hits@[i as int]@);
        push_table_row(
            &mut m,
            hits[i].kind.as_str(),
            hits[i].name.as_str(),
            hits[i].detail.as_str(),
            40,
        );
        i += 1;
    }
    Ok((m, hits.len()))
}

// ── values ──────────────────────────────────────────────────────────────────

/// A text, or the empty one.
pub open spec fn or_empty(o: Option<String>) -> Seq<char> {
    match o {
        Some(s) => s@,
        None => ""@,
    }
}

/// One value of a name.
pub open spec fn value_row(name: Seq<char>, v: Value) -> Seq<char> {
    name + " = "@ + text::signed_dec(v.i64v as int) + " (0x"@ + text::hex_plain(v.bits as int) + ")  ["@
        + v.source@ + "]  "@ + or_empty(v.namespace) + "\n"@
}

/// The first `n` values of a name.
pub open spec fn value_rows(name: Seq<char>, v: Seq<Value>, n: int) -> Seq<char>
    decreases n,
{
    if n <= 0 {
        Seq::empty()
    } else {
        value_rows(name, v, n - 1) + value_row(name, v[n - 1])
    }
}

fn push_or_empty(m: &mut String, o: &Option<String>)
    ensures
        final(m)@ == old(m)@ + or_empty(*o),
{
    match o {
        Some(s) => {
            m.append(s.as_str());
        },
        None => {
            m.append("");
        },
    }
}

/// The values of a constant or enum member, one in a row; empty where the name is
/// unknown.
pub fn resolve_report(kb: &Kb, name: &str) -> (r: String)
    ensures
        r@ == value_rows(name@, kb.spec_resolve(name@), kb.spec_resolve(name@).len() as int),
{
    let c = chars_of(name);
    let vals = kb.resolve(&c);
    let ghost all = kb.spec_resolve(name@);
    let mut m = empty_text();
    let mut i: usize = 0;
    assert(all.len() == vals@.len());
    while i < vals.len()
        invariant
            all == vals@.map_values(|v: &Value| *v),
            i <= vals@.len(),
            m@ == value_rows(name@, all, i as int),
        decreases vals@.len() - i,
    {
        let v = vals[i];
        assert(all[i as int] == *v);
        let ghost before = m@;
        m.append(name);
        m.append(" = ");
        push_dec(&mut m, v.i64v as i128);
        m.append(" (0x");
        let h = hex_plain_of(v.bits);
        push_text(&mut m, &h);
        m.append(")  [");
        m.append(v.source.as_str());
        m.append("]  ");
        push_or_empty(&mut m, &v.namespace);
        m.append("\n");
        assert(m@ =~= before + value_row(name@, *v));
        i += 1;
    }
    m
}

// ── functions ───────────────────────────────────────────────────────────────

/// A text, or a question mark.
pub open spec fn or_unknown(o: Option<String>) -> Seq<char> {
    match o {
        Some(s) => s@,
        None => "?"@,
    }
}

/// One of the first `n` constants of a parameter.
pub open spec fn related_rows(v: Seq<(String, u64)>, n: int) -> Seq<char>
    decreases n,
{
    if n <= 0 {
        Seq::empty()
    } else {
        related_rows(v, n - 1) + ("        "@ + v[n - 1].0@ + " = 0x"@ + text::hex_plain(
            v[n - 1].1 as int,
        ) + "\n"@)
    }
}

/// A parameter and its constants.
pub open spec fn param_rows(p: Param) -> Seq<char> {
    "  "@ + text::pad_left(text::signed_dec(p.ordinal as int), 2) + "  "@ + text::pad_right(p.name@, 24) + " "@
        + p.ty@ + " ["@ + p.type_kind@ + "]\n"@ + related_rows(p.related@, p.related@.len() as int)
}

/// The first `n` parameters.
pub open spec fn params_rows(v: Seq<Param>, n: int) -> Seq<char>
    decreases n,
{
    if n <= 0 {
        Seq::empty()
    } else {
        params_rows(v, n - 1) + param_rows(v[n - 1])
    }
}

/// The first line of a function.
pub open spec fn function_head(f: Func) -> Seq<char> {
    let aw = match f.aw_family {
        Some(a) => " ["@ + a@ + "]"@,
        None => Seq::empty(),
    };
    f.ret@ + " "@ + f.name@ + "("@ + text::dec(f.params@.len() as int) + " args)  "@ + or_unknown(f.dll)
        + "  "@ + or_unknown(f.callconv) + aw + "\n"@
}

/// A function: its signature, its documentation, its parameters and their constants.
pub open spec fn function_rows(f: Func) -> Seq<char> {
    function_head(f) + (match f.doc_url {
        Some(u) => "  docs: "@ + u@ + "\n"@,
        None => Seq::empty(),
    }) + params_rows(f.params@, f.params@.len() as int)
}

fn push_or_unknown(m: &mut String, o: &Option<String>)
    ensures
        final(m)@ == old(m)@ + or_unknown(*o),
{
    match o {
        Some(s) => {
            m.append(s.as_str());
        },
        None => {
            m.append("?");
        },
    }
}

fn push_related(m: &mut String, v: &Vec<(String, u64)>)
    ensures
        final(m)@ == old(m)@ + related_rows(v@, v@.len() as int),
{
    let ghost before = m@;
    let mut i: usize = 0;
    assert(m@ =~= before + Seq::empty());
    while i < v.len()
        invariant
            i <= v@.len(),
            m@ =~= before + related_rows(v@, i as int),
        decreases v@.len() - i,
    {
        let ghost now = m@;
        m.append("        ");
        m.append(v[i].0.as_str());
        m.append(" = 0x");
        let h = hex_plain_of(v[i].1);
        push_text(m, &h);
        m.append("\n");
        assert(m@ =~= now + ("        "@ + v@[i as int].0@ + " = 0x"@ + text::hex_plain(
            v@[i as int].1 as int,
        ) + "\n"@));
        i += 1;
    }
}

fn push_param(m: &mut String, p: &Param)
    ensures
        final(m)@ == old(m)@ + param_rows(*p),
{
    let ghost before = m@;
    m.append("  ");
    let n = number_text(p.ordinal as i128);
    push_right(m, n.as_str(), 2);
    m.append("  ");
    push_padded(m, p.name.as_str(), 24);
    m.append(" ");
    m.append(p.ty.as_str());
    m.append(" [");
    m.append(p.type_kind.as_str());
    m.append("]\n");
    push_related(m, &p.related);
    assert(m@ =~= before + param_rows(*p));
}

/// A function: its signature, its documentation, its parameters and their constants.
pub fn print_func(f: &Func) -> (r: String)
    ensures
        r@ == function_rows(*f),
{
    let mut m = f.ret.clone();
    m.append(" ");
    m.append(f.name.as_str());
    m.append("(");
    push_dec(&mut m, f.params.len() as i128);
    m.append(" args)  ");
    push_or_unknown(&mut m, &f.dll);
    m.append("  ");
    push_or_unknown(&mut m, &f.callconv);
    match &f.aw_family {
        Some(a) => {
            let ghost before = m@;
            m.append(" [");
            m.append(a.as_str());
            m.append("]");
            assert(m@ =~= before + (" ["@ + a@ + "]"@));
        },
        None => {
            assert(m@ =~= m@ + Seq::empty());
        },
    }
    m.append("\n");
    assert(m@ == function_head(*f));
    match &f.doc_url {
        Some(u) => {
            let ghost before = m@;
            m.append("  docs: ");
            m.append(u.as_str());
            m.append("\n");
            assert(m@ =~= before + ("  docs: "@ + u@ + "\n"@));
        },
        None => {
            assert(m@ =~= m@ + Seq::empty());
        },
    }
    let ghost head = m@;
    let mut i: usize = 0;
    assert(m@ =~= head + Seq::empty());
    while i < f.params.len()
        invariant
            i <= f.params@.len(),
            m@ =~= head + params_rows(f.params@, i as int),
        decreases f.params@.len() - i,
    {
        push_param(&mut m, &f.params[i]);
        i += 1;
    }
    m
}

// ── types ───────────────────────────────────────────────────────────────────

/// One field of a layout.
pub open spec fn field_row(f: Field) -> Seq<char> {
    "  +"@ + text::pad_right(text::signed_dec(f.offset as int), 4) + " "@ + text::pad_right(f.name@, 28) + " "@ + f.ty@
        + "\n"@
}

/// The first `n` fields of a layout.
pub open spec fn field_rows(v: Seq<Field>, n: int) -> Seq<char>
    decreases n,
{
    if n <= 0 {
        Seq::empty()
    } else {
        field_rows(v, n - 1) + field_row(v[n - 1])
    }
}

/// A struct or union with its fields.
pub open spec fn layout_rows(l: Layout) -> Seq<char> {
    l.kind@ + " "@ + l.name@ + " : sizeof "@ + text::signed_dec(l.size as int) + ", align "@ + text::signed_dec(
        l.align as int,
    ) + "\n"@ + field_rows(l.fields@, l.fields@.len() as int)
}

/// A struct or union with its size and its fields.
pub fn layout_report(l: &Layout) -> (r: String)
    ensures
        r@ == layout_rows(*l),
{
    let mut m = l.kind.clone();
    m.append(" ");
    m.append(l.name.as_str());
    m.append(" : sizeof ");
    push_dec(&mut m, l.size as i128);
    m.append(", align ");
    push_dec(&mut m, l.align as i128);
    m.append("\n");
    let ghost head = m@;
    let mut i: usize = 0;
    assert(m@ =~= head + Seq::empty());
    while i < l.fields.len()
        invariant
            i <= l.fields@.len(),
            m@ =~= head + field_rows(l.fields@, i as int),
        decreases l.fields@.len() - i,
    {
        let f = &l.fields[i];
        let ghost now = m@;
        m.append("  +");
        let n = number_text(f.offset as i128);
        push_padded(&mut m, n.as_str(), 4);
        m.append(" ");
        push_padded(&mut m, f.name.as_str(), 28);
        m.append(" ");
        m.append(f.ty.as_str());
        m.append("\n");
        assert(m@ =~= now + field_row(*f));
        i += 1;
    }
    m
}

/// A text, or a word for none.
pub open spec fn or_none(o: Option<String>) -> Seq<char> {
    match o {
        Some(s) => s@,
        None => "(none)"@,
    }
}

/// The first `n` methods of an interface.
pub open spec fn method_rows(v: Seq<Method>, n: int) -> Seq<char>
    decreases n,
{
    if n <= 0 {
        Seq::empty()
    } else {
        method_rows(v, n - 1) + ("  vtbl["@ + text::pad_left(
            text::signed_dec(v[n - 1].vtable_index as int),
            2,
        ) + "] "@ + v[n - 1].name@ + "\n"@)
    }
}

/// How an interface is used in the source, by its first method.
pub open spec fn usage_rows(i: Interface) -> Seq<char> {
    if i.methods@.len() == 0 {
        Seq::empty()
    } else {
        "\n  ; in WRASM:  comcall pObj, "@ + i.name@ + ", "@ + i.methods@[0].name@
            + ", <args…>\n"@ + "  ;            iid "@ + i.name@
            + "    ; emits the 16 IID bytes\n"@
    }
}

/// An interface: its id, its base, its methods and how it is used.
pub open spec fn interface_rows(i: Interface) -> Seq<char> {
    "interface "@ + i.name@ + "\n  IID:  "@ + or_none(i.iid) + "\n  base: "@ + or_none(i.base)
        + "\n"@ + method_rows(i.methods@, i.methods@.len() as int) + usage_rows(i)
}

fn push_or_none(m: &mut String, o: &Option<String>)
    ensures
        final(m)@ == old(m)@ + or_none(*o),
{
    match o {
        Some(s) => {
            m.append(s.as_str());
        },
        None => {
            m.append("(none)");
        },
    }
}

/// An interface: its id, its base, its methods and how it is used.
pub fn interface_report(f: &Interface) -> (r: String)
    ensures
        r@ == interface_rows(*f),
{
    let mut m = "interface ".to_owned();
    m.append(f.name.as_str());
    m.append("\n  IID:  ");
    push_or_none(&mut m, &f.iid);
    m.append("\n  base: ");
    push_or_none(&mut m, &f.base);
    m.append("\n");
    let ghost head = m@;
    let mut i: usize = 0;
    assert(m@ =~= head + Seq::empty());
    while i < f.methods.len()
        invariant
            i <= f.methods@.len(),
            m@ =~= head + method_rows(f.methods@, i as int),
        decreases f.methods@.len() - i,
    {
        let ghost now = m@;
        m.append("  vtbl[");
        let n = number_text(f.methods[i].vtable_index as i128);
        push_right(&mut m, n.as_str(), 2);
        m.append("] ");
        m.append(f.methods[i].name.as_str());
        m.append("\n");
        assert(m@ =~= now + ("  vtbl["@ + text::pad_left(
            text::signed_dec(f.methods@[i as int].vtable_index as int),
            2,
        ) + "] "@ + f.methods@[i as int].name@ + "\n"@));
        i += 1;
    }
    let ghost now = m@;
    if f.methods.len() > 0 {
        m.append("\n  ; in WRASM:  comcall pObj, ");
        m.append(f.name.as_str());
        m.append(", ");
        m.append(f.methods[0].name.as_str());
        m.append(", <args…>\n");
        m.append("  ;            iid ");
        m.append(f.name.as_str());
        m.append("    ; emits the 16 IID bytes\n");
        assert(m@ =~= now + usage_rows(*f));
    } else {
        assert(m@ =~= now + usage_rows(*f));
    }
    m
}

// ── skeletons ───────────────────────────────────────────────────────────────

pub open spec fn not_star() -> spec_fn(char) -> bool {
    |c: char| c != '*'
}

/// The name behind the last dot.
pub open spec fn short_name(s: Seq<char>) -> Seq<char> {
    s.skip(text::rfind(s, '.') + 1)
}

/// The type behind an array's or a pointer's marks, without its namespace.
pub open spec fn base_type(ty: Seq<char>) -> Seq<char> {
    let bare = ty.take(text::find(ty, '['));
    short_name(text::trim(bare.take(text::last_below(bare, not_star(), bare.len() as int) + 1)))
}

/// One leaf of a skeleton.
pub open spec fn leaf_row(path: Seq<char>, ty: Seq<char>) -> Seq<char> {
    "    "@ + text::pad_right(path, 28) + " = 0   ; "@ + ty + "\n"@
}

/// The first `n` leaves of a nested struct under `head`.
pub open spec fn nested_rows(head: Seq<char>, v: Seq<Field>, n: int) -> Seq<char>
    decreases n,
{
    if n <= 0 {
        Seq::empty()
    } else {
        nested_rows(head, v, n - 1) + leaf_row(head + "."@ + v[n - 1].name@, v[n - 1].ty@)
    }
}

/// The size of a type, 0 where it is unknown.
pub open spec fn known_size(kb: &Kb, name: Seq<char>) -> int {
    match kb.spec_sizeof(name) {
        Some(n) => n,
        None => 0,
    }
}

/// A field of a skeleton: the leaves of a nested struct, or of an array's first
/// element, or the field itself.
pub open spec fn skeleton_field(kb: &Kb, f: Field) -> Seq<char> {
    let array = text::find(f.ty@, '[') < f.ty@.len();
    let base = base_type(f.ty@);
    match kb.spec_layout(base) {
        Some(s) => if s.fields@.len() > 1 {
            let head = if array {
                f.name@ + "[0]"@
            } else {
                f.name@
            };
            nested_rows(head, s.fields@, s.fields@.len() as int) + (if array {
                "    ; ^ "@ + f.name@ + "[0]; further elements at +"@ + text::signed_dec(
                    known_size(kb, base),
                ) + " bytes each\n"@
            } else {
                Seq::empty()
            })
        } else {
            leaf_row(f.name@, f.ty@)
        },
        None => leaf_row(f.name@, f.ty@),
    }
}

/// The first `n` fields of a skeleton.
pub open spec fn skeleton_fields(kb: &Kb, v: Seq<Field>, n: int) -> Seq<char>
    decreases n,
{
    if n <= 0 {
        Seq::empty()
    } else {
        skeleton_fields(kb, v, n - 1) + skeleton_field(kb, v[n - 1])
    }
}

/// A struct instance to paste and fill in.
pub open spec fn skeleton(kb: &Kb, l: Layout) -> Seq<char> {
    "inst struct "@ + l.name@ + "        ; "@ + text::signed_dec(l.size as int)
        + " bytes — fill in, drop unused lines\n"@ + skeleton_fields(
        kb,
        l.fields@,
        l.fields@.len() as int,
    ) + "ends\n"@
}

fn short<'a>(s: &'a [char]) -> (r: &'a [char])
    ensures
        r@ == short_name(s@),
{
    let n: usize = s.len();
    match last_index_of(s, '.') {
        Some(i) => slice_subrange(s, i + 1, n),
        None => {
            assert(s@.skip(0) =~= s@);
            s
        },
    }
}

fn base_of<'a>(ty: &'a [char]) -> (r: &'a [char])
    ensures
        r@ == base_type(ty@),
{
    let n: usize = index_of(ty, '[');
    let bare = slice_subrange(ty, 0, n);
    let mut e: usize = bare.len();
    while e > 0
        invariant_except_break
            e <= bare@.len(),
            text::last_below(bare@, not_star(), bare@.len() as int) == text::last_below(
                bare@,
                not_star(),
                e as int,
            ),
        ensures
            e <= bare@.len(),
            e == text::last_below(bare@, not_star(), bare@.len() as int) + 1,
        decreases e,
    {
        if bare[e - 1] != '*' {
            break;
        }
        e -= 1;
    }
    short(trimmed(slice_subrange(bare, 0, e)))
}

fn push_leaf(m: &mut String, path: &str, ty: &str)
    ensures
        final(m)@ == old(m)@ + leaf_row(path@, ty@),
{
    let ghost before = m@;
    m.append("    ");
    push_padded(m, path, 28);
    m.append(" = 0   ; ");
    m.append(ty);
    m.append("\n");
    assert(m@ =~= before + leaf_row(path@, ty@));
}

fn push_nested(m: &mut String, head: &str, v: &Vec<Field>)
    ensures
        final(m)@ == old(m)@ + nested_rows(head@, v@, v@.len() as int),
{
    let ghost before = m@;
    let mut i: usize = 0;
    assert(m@ =~= before + Seq::empty());
    while i < v.len()
        invariant
            i <= v@.len(),
            m@ =~= before + nested_rows(head@, v@, i as int),
        decreases v@.len() - i,
    {
        let mut path = head.to_owned();
        path.append(".");
        path.append(v[i].name.as_str());
        push_leaf(m, path.as_str(), v[i].ty.as_str());
        i += 1;
    }
}

fn push_skeleton_field(m: &mut String, kb: &Kb, f: &Field)
    ensures
        final(m)@ == old(m)@ + skeleton_field(kb, *f),
{
    let ghost before = m@;
    let ty = chars_of(f.ty.as_str());
    let array = has_char(&ty, '[');
    let base = base_of(&ty);
    proof {
        text::lemma_first_from(ty@, text::eq_char('['), 0);
        if array {
            let k = choose|k: int| 0 <= k < ty@.len() && ty@[k] == '[';
            assert(text::eq_char('[')(ty@[k]));
        }
    }
    match kb.layout(base) {
        Some(s) => {
            if s.fields.len() > 1 {
                let mut head = f.name.clone();
                if array {
                    head.append("[0]");
                }
                push_nested(m, head.as_str(), &s.fields);
                let ghost now = m@;
                if array {
                    let size: i64 = match kb.sizeof(base) {
                        Some(n) => n,
                        None => 0,
                    };
                    m.append("    ; ^ ");
                    m.append(f.name.as_str());
                    m.append("[0]; further elements at +");
                    push_dec(m, size as i128);
                    m.append(" bytes each\n");
                }
                assert(m@ =~= before + skeleton_field(kb, *f));
                return;
            }
        },
        None => {},
    }
    push_leaf(m, f.name.as_str(), f.ty.as_str());
}

/// A struct instance to paste and fill in: its leaves under their dotted paths.
pub fn skeleton_report(kb: &Kb, l: &Layout) -> (r: String)
    ensures
        r@ == skeleton(kb, *l),
{
    let mut m = "inst struct ".to_owned();
    m.append(l.name.as_str());
    m.append("        ; ");
    push_dec(&mut m, l.size as i128);
    m.append(" bytes — fill in, drop unused lines\n");
    let ghost head = m@;
    let mut i: usize = 0;
    assert(m@ =~= head + Seq::empty());
    while i < l.fields.len()
        invariant
            i <= l.fields@.len(),
            m@ =~= head + skeleton_fields(kb, l.fields@, i as int),
        decreases l.fields@.len() - i,
    {
        push_skeleton_field(&mut m, kb, &l.fields[i]);
        i += 1;
    }
    m.append("ends\n");
    m
}

} // verus!
