//! What the knowledge base offers at the caret: candidates and tooltips.
use crate::text;
use crate::winkb::kb;
use crate::winkb::search;
use crate::studio::complete::{CompletionContext, CompletionKind, ContextKind, ContextView};
use crate::text::{
    chars_of, copy_of, has_prefix, hex_plain_of, is, join_strings, last_index_of, push_dec,
    push_text,
};
use crate::winkb::kb::{Completion, Func, Kb, Layout, Method, Param, Value};
use vstd::prelude::*;
use vstd::slice::slice_subrange;

verus! {

// ── the methods of an interface ─────────────────────────────────────────────

/// The methods of `m`, as they are listed.
pub open spec fn own_slots(m: Seq<Method>) -> Seq<(Seq<char>, int)> {
    Seq::new(m.len(), |i: int| (m[i].name@, m[i].vtable_index as int))
}

/// The name behind the last dot.
pub open spec fn plain_name(s: Seq<char>) -> Seq<char> {
    s.skip(text::rfind(s, '.') + 1)
}

/// The methods of the interface `name` and of up to `depth` interfaces in its chain
/// of bases.
pub open spec fn chain_slots(kb: &Kb, name: Seq<char>, depth: nat) -> Seq<(Seq<char>, int)>
    decreases depth,
{
    if depth == 0 {
        Seq::empty()
    } else {
        match kb.spec_interface(name) {
            None => Seq::empty(),
            Some(i) => own_slots(i.methods@) + (match i.base {
                Some(b) => chain_slots(kb, plain_name(b@), (depth - 1) as nat),
                None => Seq::empty(),
            }),
        }
    }
}

/// `x` placed behind the slots that do not come after it.
pub open spec fn insert_slot(v: Seq<(Seq<char>, int)>, x: (Seq<char>, int)) -> Seq<
    (Seq<char>, int),
>
    decreases v.len(),
{
    if v.len() == 0 || v.last().1 <= x.1 {
        v.push(x)
    } else {
        insert_slot(v.drop_last(), x).push(v.last())
    }
}

/// The methods in the order of their slots; those of one slot stay in order.
pub open spec fn by_slot(v: Seq<(Seq<char>, int)>) -> Seq<(Seq<char>, int)>
    decreases v.len(),
{
    if v.len() == 0 {
        Seq::empty()
    } else {
        insert_slot(by_slot(v.drop_last()), v.last())
    }
}

/// Every method that can be called on the interface `name`, inherited ones too.
pub open spec fn callable(kb: &Kb, name: Seq<char>) -> Seq<(Seq<char>, int)> {
    by_slot(chain_slots(kb, name, 32))
}

/// The views of slots.
pub open spec fn slots_view(v: Seq<(String, i64)>) -> Seq<(Seq<char>, int)> {
    Seq::new(v.len(), |i: int| (v[i].0@, v[i].1 as int))
}

proof fn lemma_insert_slot(v: Seq<(Seq<char>, int)>, x: (Seq<char>, int), i: int)
    requires
        0 <= i <= v.len(),
        forall|k: int| i <= k < v.len() ==> (#[trigger] v[k]).1 > x.1,
        i > 0 ==> v[i - 1].1 <= x.1,
    ensures
        insert_slot(v, x) == v.insert(i, x),
    decreases v.len(),
{
    if i == v.len() {
        assert(v.insert(i, x) =~= v.push(x));
    } else {
        assert(v[v.len() - 1] == v.last());
        assert forall|k: int| i <= k < v.drop_last().len() implies (#[trigger] v.drop_last()[k]).1
            > x.1 by {
            assert(v.drop_last()[k] == v[k]);
        }
        lemma_insert_slot(v.drop_last(), x, i);
        assert(v.insert(i, x) =~= v.drop_last().insert(i, x).push(v.last()));
    }
}

fn place_slot(v: &mut Vec<(String, i64)>, name: String, slot: i64)
    ensures
        slots_view(final(v)@) == insert_slot(slots_view(old(v)@), (name@, slot as int)),
{
    let ghost all = slots_view(v@);
    let mut i: usize = v.len();
    while i > 0 && v[i - 1].1 > slot
        invariant
            *v == *old(v),
            all == slots_view(v@),
            i <= v@.len(),
            forall|k: int| i <= k < all.len() ==> (#[trigger] all[k]).1 > slot,
        decreases i,
    {
        assert(all[i - 1].1 == v@[i - 1].1);
        i -= 1;
    }
    proof {
        if i > 0 {
            assert(all[i - 1].1 == v@[i - 1].1);
        }
        lemma_insert_slot(all, (name@, slot as int), i as int);
    }
    let x = (name, slot);
    v.insert(i, x);
    assert(slots_view(v@) =~= all.insert(i as int, (x.0@, x.1 as int)));
}

fn plain_name_of<'a>(s: &'a [char]) -> (r: &'a [char])
    ensures
        r@ == plain_name(s@),
{
    let n: usize = s.len();
    match last_index_of(s, '.') {
        Some(i) => slice_subrange(s, i + 1, n),
        None => {
            assert(s@.skip(0) =~= s@);
            s
        },
    }
}

/// Every method that can be called on the interface `iface`, with its slot in the
/// vtable, along the chain of its bases.
pub fn interface_methods(kb: &Kb, iface: &str) -> (r: Vec<(String, i64)>)
    ensures
        slots_view(r@) == callable(kb, iface@),
{
    let mut found: Vec<(String, i64)> = Vec::new();
    let mut name: Vec<char> = chars_of(iface);
    let mut depth: usize = 32;
    let ghost want = chain_slots(kb, iface@, 32);
    assert(slots_view(found@) =~= Seq::empty());
    while depth > 0
        invariant_except_break
            slots_view(found@) + chain_slots(kb, name@, depth as nat) =~= want,
        ensures
            slots_view(found@) =~= want,
        decreases depth,
    {
        match kb.interface(&name) {
            None => {
                break;
            },
            Some(i) => {
                let ghost before = slots_view(found@);
                let ghost own = own_slots(i.methods@);
                let mut k: usize = 0;
                while k < i.methods.len()
                    invariant
                        own == own_slots(i.methods@),
                        k <= i.methods@.len(),
                        slots_view(found@) =~= before + own.take(k as int),
                    decreases i.methods@.len() - k,
                {
                    let ghost now = slots_view(found@);
                    let x = (i.methods[k].name.clone(), i.methods[k].vtable_index);
                    found.push(x);
                    assert(slots_view(found@) =~= now.push((x.0@, x.1 as int)));
                    assert(own.take(k + 1) =~= own.take(k as int).push(own[k as int]));
                    k += 1;
                }
                assert(own.take(own.len() as int) =~= own);
                match &i.base {
                    Some(b) => {
                        let bc = chars_of(b.as_str());
                        name = copy_of(plain_name_of(&bc));
                        assert(slots_view(found@) + chain_slots(kb, name@, (depth - 1) as nat)
                            =~= before + (own + chain_slots(kb, name@, (depth - 1) as nat)));
                    },
                    None => {
                        assert(slots_view(found@) =~= before + (own + Seq::empty()));
                        break;
                    },
                }
            },
        }
        depth -= 1;
    }
    let mut out: Vec<(String, i64)> = Vec::new();
    let mut k: usize = 0;
    assert(slots_view(out@) =~= Seq::empty());
    let ghost all = slots_view(found@);
    while k < found.len()
        invariant
            all == slots_view(found@),
            k <= found@.len(),
            slots_view(out@) == by_slot(all.take(k as int)),
        decreases found@.len() - k,
    {
        assert(all.take(k + 1).drop_last() =~= all.take(k as int));
        place_slot(&mut out, found[k].0.clone(), found[k].1);
        k += 1;
    }
    assert(all.take(all.len() as int) =~= all);
    out
}

/// Slots that do not decrease.
pub open spec fn slots_in_order(v: Seq<(Seq<char>, int)>) -> bool {
    forall|i: int, j: int| 0 <= i <= j < v.len() ==> (#[trigger] v[i]).1 <= (#[trigger] v[j]).1
}

proof fn lemma_insert_in_order(v: Seq<(Seq<char>, int)>, x: (Seq<char>, int))
    requires
        slots_in_order(v),
    ensures
        slots_in_order(insert_slot(v, x)),
        insert_slot(v, x).len() == v.len() + 1,
        forall|k: int|
            0 <= k < insert_slot(v, x).len() ==> (#[trigger] insert_slot(v, x)[k]).1 <= x.1 || (
            v.len() > 0 && insert_slot(v, x)[k].1 <= v.last().1),
    decreases v.len(),
{
    if v.len() == 0 || v.last().1 <= x.1 {
        assert(v.len() > 0 ==> v.last() == v[v.len() - 1]);
    } else {
        let d = v.drop_last();
        assert forall|i: int, j: int| 0 <= i <= j < d.len() implies (#[trigger] d[i]).1 <= (
        #[trigger] d[j]).1 by {
            assert(d[i] == v[i] && d[j] == v[j]);
        }
        lemma_insert_in_order(d, x);
        let r = insert_slot(d, x);
        assert(v.last() == v[v.len() - 1]);
        if d.len() > 0 {
            assert(d.last() == v[v.len() - 2]);
        }
        let all = insert_slot(v, x);
        assert forall|i: int, j: int| 0 <= i <= j < all.len() implies (#[trigger] all[i]).1 <= (
        #[trigger] all[j]).1 by {
            if j < r.len() {
                assert(all[i] == r[i] && all[j] == r[j]);
            } else if i < r.len() {
                assert(all[i] == r[i]);
            }
        }
        assert forall|k: int| 0 <= k < all.len() implies (#[trigger] all[k]).1 <= x.1 || (v.len()
            > 0 && all[k].1 <= v.last().1) by {
            if k < r.len() {
                assert(all[k] == r[k]);
            }
        }
    }
}

/// The methods are offered in the order of their slots.
pub proof fn law_methods_in_slot_order(kb: &Kb, name: Seq<char>)
    ensures
        slots_in_order(callable(kb, name)),
        callable(kb, name).len() == chain_slots(kb, name, 32).len(),
{
    lemma_by_slot(chain_slots(kb, name, 32));
}

proof fn lemma_by_slot(v: Seq<(Seq<char>, int)>)
    ensures
        slots_in_order(by_slot(v)),
        by_slot(v).len() == v.len(),
    decreases v.len(),
{
    if v.len() > 0 {
        lemma_by_slot(v.drop_last());
        lemma_insert_in_order(by_slot(v.drop_last()), v.last());
    }
}

// ── candidates ──────────────────────────────────────────────────────────────

/// The views of bindings of names to interfaces.
pub open spec fn binds_view(v: Seq<(String, String)>) -> Seq<(Seq<char>, Seq<char>)> {
    Seq::new(v.len(), |i: int| (v[i].0@, v[i].1@))
}

/// The first binding of `name` from `i` on.
pub open spec fn bound_from(v: Seq<(Seq<char>, Seq<char>)>, name: Seq<char>, i: int) -> Option<
    Seq<char>,
>
    decreases v.len() - i,
{
    if i >= v.len() {
        None
    } else if v[i].0 == name {
        Some(v[i].1)
    } else {
        bound_from(v, name, i + 1)
    }
}

/// A method as a candidate.
pub open spec fn method_item(iface: Seq<char>, s: (Seq<char>, int)) -> (
    Seq<char>,
    Seq<char>,
    Seq<char>,
) {
    (s.0, "method"@, "vtbl["@ + text::signed_dec(s.1) + "] "@ + iface)
}

/// The methods among the first `n` that begin with `prefix`, as candidates.
pub open spec fn method_items(
    iface: Seq<char>,
    v: Seq<(Seq<char>, int)>,
    prefix: Seq<char>,
    n: int,
) -> Seq<(Seq<char>, Seq<char>, Seq<char>)>
    decreases n,
{
    if n <= 0 {
        Seq::empty()
    } else {
        let before = method_items(iface, v, prefix, n - 1);
        if text::starts_with(v[n - 1].0, prefix) {
            before.push(method_item(iface, v[n - 1]))
        } else {
            before
        }
    }
}

/// The fields among the first `n` that begin with `prefix`, as candidates.
pub open spec fn field_items(v: Seq<kb::Field>, prefix: Seq<char>, n: int) -> Seq<
    (Seq<char>, Seq<char>, Seq<char>),
>
    decreases n,
{
    if n <= 0 {
        Seq::empty()
    } else {
        let before = field_items(v, prefix, n - 1);
        if text::starts_with(v[n - 1].name@, prefix) {
            before.push((v[n - 1].name@, "field"@, v[n - 1].ty@))
        } else {
            before
        }
    }
}

/// The names of a scope that are offered for a prefix.
pub open spec fn offered_names(kb: &Kb, prefix: Seq<char>, scope: Seq<char>) -> Seq<
    (Seq<char>, Seq<char>, Seq<char>),
> {
    if search::completion_refused(kb.names@, prefix, scope, 50) {
        Seq::empty()
    } else {
        search::completion_of(kb.names@, prefix, scope, 50)
    }
}

/// The candidates for a completion.
pub open spec fn items_for(
    kb: &Kb,
    ctx: ContextView,
    binds: Seq<(Seq<char>, Seq<char>)>,
) -> Seq<(Seq<char>, Seq<char>, Seq<char>)> {
    match ctx.kind {
        ContextKind::Nothing => Seq::empty(),
        ContextKind::Function => offered_names(kb, ctx.prefix, "function"@),
        ContextKind::Symbol => offered_names(kb, ctx.prefix, "all"@),
        ContextKind::Field(ty) => match bound_from(binds, ty, 0) {
            Some(iface) => {
                let v = callable(kb, iface);
                method_items(iface, v, ctx.prefix, v.len() as int)
            },
            None => match kb.spec_layout(ty) {
                Some(l) => field_items(l.fields@, ctx.prefix, l.fields@.len() as int),
                None => Seq::empty(),
            },
        },
    }
}

fn text_begins(s: &str, p: &str) -> (r: bool)
    ensures
        r == text::starts_with(s@, p@),
{
    let sc = chars_of(s);
    has_prefix(&sc, p)
}

fn offer_methods(kb: &Kb, iface: &str, prefix: &str) -> (r: Vec<Completion>)
    ensures
        search::completions_view(r@) == method_items(
            iface@,
            callable(kb, iface@),
            prefix@,
            callable(kb, iface@).len() as int,
        ),
{
    let v = interface_methods(kb, iface);
    let ghost all = callable(kb, iface@);
    let mut r: Vec<Completion> = Vec::new();
    let mut i: usize = 0;
    assert(search::completions_view(r@) =~= Seq::empty());
    assert(slots_view(v@).len() == v@.len());
    while i < v.len()
        invariant
            all == slots_view(v@),
            i <= v@.len(),
            search::completions_view(r@) == method_items(iface@, all, prefix@, i as int),
        decreases v@.len() - i,
    {
        assert(all[i as int] == (v@[i as int].0@, v@[i as int].1 as int));
        if text_begins(v[i].0.as_str(), prefix) {
            let mut detail = "vtbl[".to_owned();
            push_dec(&mut detail, v[i].1 as i128);
            detail.append("] ");
            detail.append(iface);
            let c = Completion { name: v[i].0.clone(), kind: "method".to_owned(), detail };
            let ghost before = search::completions_view(r@);
            r.push(c);
            assert(search::completions_view(r@) =~= before.push(c@));
        }
        i += 1;
    }
    r
}

fn offer_fields(v: &Vec<kb::Field>, prefix: &str) -> (r: Vec<Completion>)
    ensures
        search::completions_view(r@) == field_items(v@, prefix@, v@.len() as int),
{
    let mut r: Vec<Completion> = Vec::new();
    let mut i: usize = 0;
    assert(search::completions_view(r@) =~= Seq::empty());
    while i < v.len()
        invariant
            i <= v@.len(),
            search::completions_view(r@) == field_items(v@, prefix@, i as int),
        decreases v@.len() - i,
    {
        if text_begins(v[i].name.as_str(), prefix) {
            let c = Completion {
                name: v[i].name.clone(),
                kind: "field".to_owned(),
                detail: v[i].ty.clone(),
            };
            let ghost before = search::completions_view(r@);
            r.push(c);
            assert(search::completions_view(r@) =~= before.push(c@));
        }
        i += 1;
    }
    r
}

pub fn bound_interface<'a>(binds: &'a [(String, String)], name: &str) -> (r: Option<&'a str>)
    ensures
        text::opt_str(r) == bound_from(binds_view(binds@), name@, 0),
{
    let ghost all = binds_view(binds@);
    let mut i: usize = 0;
    while i < binds.len()
        invariant
            all == binds_view(binds@),
            i <= binds@.len(),
            bound_from(all, name@, 0) == bound_from(all, name@, i as int),
        decreases binds@.len() - i,
    {
        assert(all[i as int] == (binds@[i as int].0@, binds@[i as int].1@));
        let nc = chars_of(binds[i].0.as_str());
        if is(&nc, name) {
            return Some(binds[i].1.as_str());
        }
        i += 1;
    }
    None
}

/// Names of a scope to offer; none where the prefix is too long to look for.
fn offer_names(kb: &Kb, prefix: &str, scope: &str) -> (r: Vec<Completion>)
    ensures
        search::completions_view(r@) == offered_names(kb, prefix@, scope@),
{
    match kb.complete(prefix, scope, 50) {
        Ok(v) => v,
        Err(_) => {
            let none: Vec<Completion> = Vec::new();
            assert(search::completions_view(none@) =~= Seq::empty());
            none
        },
    }
}

/// The candidates for a completion. `binds` gives the interfaces of typed pointers:
/// behind one, its methods are offered; behind a struct's name, its fields.
pub fn complete_items(kb: &Kb, ctx: &CompletionContext, binds: &[(String, String)]) -> (r: Vec<
    Completion,
>)
    ensures
        search::completions_view(r@) == items_for(kb, ctx@, binds_view(binds@)),
{
    match &ctx.kind {
        CompletionKind::Nothing => {
            let none: Vec<Completion> = Vec::new();
            assert(search::completions_view(none@) =~= Seq::empty());
            none
        },
        CompletionKind::Function => offer_names(kb, ctx.prefix.as_str(), "function"),
        CompletionKind::Symbol => offer_names(kb, ctx.prefix.as_str(), "all"),
        CompletionKind::Field { ty } => {
            match bound_interface(binds, ty.as_str()) {
                Some(iface) => offer_methods(kb, iface, ctx.prefix.as_str()),
                None => {
                    let tc = chars_of(ty.as_str());
                    match kb.layout(&tc) {
                        Some(l) => offer_fields(&l.fields, ctx.prefix.as_str()),
                        None => {
                            let none: Vec<Completion> = Vec::new();
                            assert(search::completions_view(none@) =~= Seq::empty());
                            none
                        },
                    }
                },
            }
        },
    }
}

// ── tooltips ────────────────────────────────────────────────────────────────

/// The tooltip of a named value.
pub open spec fn value_tip(word: Seq<char>, v: Value) -> Seq<char> {
    let ns = match v.namespace {
        Some(n) => n@,
        None => ""@,
    };
    "**"@ + word + "** = `0x"@ + text::hex_plain(v.bits as int) + "` ("@ + text::signed_dec(v.i64v as int)
        + ")  ·  _"@ + ns + "_"@
}

/// The tooltip of a function.
pub open spec fn function_tip(f: Func) -> Seq<char> {
    let dll = match f.dll {
        Some(d) => d@,
        None => "?"@,
    };
    let plural = if f.params@.len() == 1 {
        ""@
    } else {
        "s"@
    };
    "`"@ + f.ret@ + "` **"@ + f.name@ + "**("@ + text::dec(f.params@.len() as int) + " param"@ + plural
        + ")  ·  "@ + dll
}

/// The tooltip of a struct or union.
pub open spec fn layout_tip(l: Layout) -> Seq<char> {
    "**"@ + l.name@ + "**  ·  "@ + l.kind@ + ", sizeof `"@ + text::signed_dec(l.size as int) + "`"@
}

/// The tooltip for a word: that of a value, else of a function, else of a type.
pub open spec fn tip_for(kb: &Kb, word: Seq<char>) -> Option<Seq<char>> {
    let vals = kb.spec_resolve(word);
    if vals.len() > 0 {
        Some(value_tip(word, vals[0]))
    } else {
        match kb.spec_function(word) {
            Some(f) => Some(function_tip(f)),
            None => match kb.spec_layout(word) {
                Some(l) => Some(layout_tip(l)),
                None => None,
            },
        }
    }
}

fn write_value_tip(word: &[char], v: &Value) -> (r: String)
    ensures
        r@ == value_tip(word@, *v),
{
    let mut m = "**".to_owned();
    push_text(&mut m, word);
    m.append("** = `0x");
    let h = hex_plain_of(v.bits);
    push_text(&mut m, &h);
    m.append("` (");
    push_dec(&mut m, v.i64v as i128);
    m.append(")  ·  _");
    match &v.namespace {
        Some(n) => {
            m.append(n.as_str());
        },
        None => {
            m.append("");
        },
    }
    m.append("_");
    m
}

fn write_function_tip(f: &Func) -> (r: String)
    ensures
        r@ == function_tip(*f),
{
    let mut m = "`".to_owned();
    m.append(f.ret.as_str());
    m.append("` **");
    m.append(f.name.as_str());
    m.append("**(");
    push_dec(&mut m, f.params.len() as i128);
    m.append(" param");
    if f.params.len() == 1 {
        m.append("");
    } else {
        m.append("s");
    }
    m.append(")  ·  ");
    match &f.dll {
        Some(d) => {
            m.append(d.as_str());
        },
        None => {
            m.append("?");
        },
    }
    m
}

fn write_layout_tip(l: &Layout) -> (r: String)
    ensures
        r@ == layout_tip(*l),
{
    let mut m = "**".to_owned();
    m.append(l.name.as_str());
    m.append("**  ·  ");
    m.append(l.kind.as_str());
    m.append(", sizeof `");
    push_dec(&mut m, l.size as i128);
    m.append("`");
    m
}

/// A short tooltip for a word: a constant's value, a function's signature in one
/// line, or a type's size. `None` where the word is unknown.
pub fn hover_markdown(kb: &Kb, word: &[char]) -> (r: Option<String>)
    ensures
        text::opt_text(r) == tip_for(kb, word@),
{
    let vals = kb.resolve(word);
    if vals.len() > 0 {
        assert(vals@.map_values(|v: &Value| *v)[0] == *vals@[0]);
        return Some(write_value_tip(word, vals[0]));
    }
    match kb.function(word) {
        Some(f) => Some(write_function_tip(f)),
        None => match kb.layout(word) {
            Some(l) => Some(write_layout_tip(l)),
            None => None,
        },
    }
}

/// A parameter in a signature, in bold where it is the active one.
pub open spec fn param_text(p: Param, active: bool) -> Seq<char> {
    let one = p.ty@ + " "@ + p.name@;
    if active {
        "**"@ + one + "**"@
    } else {
        one
    }
}

/// The parameters of a signature.
pub open spec fn param_texts(f: Func, active: int) -> Seq<Seq<char>> {
    Seq::new(f.params@.len(), |i: int| param_text(f.params@[i], i == active))
}

/// The signature of a function with the parameter `active` in bold.
pub open spec fn signature_text(f: Func, active: int) -> Seq<char> {
    let params = param_texts(f, active);
    "`"@ + f.ret@ + "` "@ + f.name@ + "("@ + text::join(params, ", "@) + ")"@
}

fn write_param(p: &Param, active: bool) -> (r: String)
    ensures
        r@ == param_text(*p, active),
{
    let mut one = p.ty.clone();
    one.append(" ");
    one.append(p.name.as_str());
    if active {
        let mut m = "**".to_owned();
        m.append(one.as_str());
        m.append("**");
        m
    } else {
        one
    }
}

/// The signature of `func` with the parameter `active` in bold. `None` where the
/// function is unknown.
pub fn signature_markdown(kb: &Kb, func: &str, active: usize) -> (r: Option<String>)
    ensures
        text::opt_text(r) == match kb.spec_function(func@) {
            Some(f) => Some(signature_text(f, active as int)),
            None => None,
        },
{
    let fc = chars_of(func);
    let f = match kb.function(&fc) {
        Some(f) => f,
        None => return None,
    };
    let ghost want = param_texts(*f, active as int);
    let mut params: Vec<String> = Vec::new();
    let mut i: usize = 0;
    assert(text::strings(params@) =~= Seq::empty());
    while i < f.params.len()
        invariant
            want == param_texts(*f, active as int),
            i <= f.params@.len(),
            text::strings(params@) =~= want.take(i as int),
        decreases f.params@.len() - i,
    {
        let p = write_param(&f.params[i], i == active);
        let ghost before = text::strings(params@);
        params.push(p);
        assert(text::strings(params@) =~= before.push(p@));
        i += 1;
    }
    assert(text::strings(params@) =~= want);
    let mut m = "`".to_owned();
    m.append(f.ret.as_str());
    m.append("` ");
    m.append(f.name.as_str());
    m.append("(");
    m.append(join_strings(&params, ", ").as_str());
    m.append(")");
    Some(m)
}

} // verus!
