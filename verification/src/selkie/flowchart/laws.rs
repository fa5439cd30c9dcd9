//! What holds of flowcharts as a whole.
use crate::selkie::flowchart::annotations;
use crate::selkie::flowchart::overrides;
use crate::selkie::flowchart::types;
use crate::selkie::flowchart::writer;
use crate::selkie::flowchart::annotations::{AnnotationView, AttrView, TargetView};
use crate::selkie::flowchart::parts::{EdgeView, ItemView, ShapeView, SubgraphView};
use crate::selkie::flowchart::types::FlowView;
use crate::selkie::flowchart::writer::Written;
use vstd::prelude::*;

verus! {

// ── attributes of a target ──────────────────────────────────────────────────

proof fn lemma_first_of_target(v: Seq<AnnotationView>, t: TargetView, i: int)
    requires
        0 <= i <= v.len(),
    ensures
        i <= types::first_of_target(v, t, i) <= v.len(),
        types::first_of_target(v, t, i) < v.len() ==> v[types::first_of_target(v, t, i)].target == t,
        forall|k: int| i <= k < types::first_of_target(v, t, i) ==> (#[trigger] v[k]).target != t,
    decreases v.len() - i,
{
    if i < v.len() && v[i].target != t {
        lemma_first_of_target(v, t, i + 1);
    }
}

/// The attributes of two lists of annotations are those of the first, then those of
/// the second.
proof fn lemma_attrs_of_both(v: Seq<AnnotationView>, w: Seq<AnnotationView>, t: TargetView)
    ensures
        overrides::target_attrs(v + w, t) == overrides::target_attrs(v, t) + overrides::target_attrs(w, t),
    decreases w.len(),
{
    if w.len() == 0 {
        assert(v + w =~= v);
        assert(overrides::target_attrs(v, t) + overrides::target_attrs(w, t) =~= overrides::target_attrs(v, t));
    } else {
        lemma_attrs_of_both(v, w.drop_last(), t);
        assert((v + w).drop_last() =~= v + w.drop_last());
        assert((v + w).last() == w.last());
        if w.last().target == t {
            assert(overrides::target_attrs(v, t) + overrides::target_attrs(w.drop_last(), t) + w.last().attrs
                =~= overrides::target_attrs(v, t) + (overrides::target_attrs(w.drop_last(), t) + w.last().attrs));
        }
    }
}

/// The attributes of a target without an annotation are none.
proof fn lemma_no_attrs(v: Seq<AnnotationView>, t: TargetView)
    requires
        forall|i: int| 0 <= i < v.len() ==> (#[trigger] v[i]).target != t,
    ensures
        overrides::target_attrs(v, t) == Seq::<AttrView>::empty(),
    decreases v.len(),
{
    if v.len() > 0 {
        assert(v[v.len() - 1] == v.last());
        assert forall|i: int| 0 <= i < v.drop_last().len() implies (
        #[trigger] v.drop_last()[i]).target != t by {
            assert(v.drop_last()[i] == v[i]);
        }
        lemma_no_attrs(v.drop_last(), t);
    }
}

/// The attributes of one annotation are its own.
proof fn lemma_attrs_of_one(a: AnnotationView)
    ensures
        overrides::target_attrs(seq![a], a.target) == a.attrs,
        forall|t: TargetView| t != a.target ==> overrides::target_attrs(seq![a], t) == Seq::<AttrView>::empty(),
{
    let s = seq![a];
    assert(s.drop_last() =~= Seq::empty());
    assert(s.last() == a);
    assert(Seq::<AttrView>::empty() + a.attrs =~= a.attrs);
    assert(overrides::target_attrs(s.drop_last(), a.target) =~= Seq::empty());
    assert forall|t: TargetView| t != a.target implies overrides::target_attrs(s, t) == Seq::<
        AttrView,
    >::empty() by {
        assert(overrides::target_attrs(s.drop_last(), t) =~= Seq::empty());
    }
}

/// Taking a key off a target takes it out of the target's attributes, and leaves those
/// of every other target alone.
proof fn lemma_attrs_without(v: Seq<AnnotationView>, t: TargetView, key: Seq<char>, other: TargetView)
    requires
        other != t,
    ensures
        overrides::target_attrs(types::without_attr(v, t, key), t) == types::other_attrs(overrides::target_attrs(v, t), key),
        overrides::target_attrs(types::without_attr(v, t, key), other) == overrides::target_attrs(v, other),
    decreases v.len(),
{
    let p = |a: AttrView| a.key != key;
    if v.len() == 0 {
        reveal(Seq::filter);
        assert(overrides::target_attrs(v, t).filter(p) =~= Seq::empty());
    } else {
        let front = v.drop_last();
        lemma_attrs_without(front, t, key, other);
        let rest = types::without_attr(front, t, key);
        let attrs = types::other_attrs(v.last().attrs, key);
        if v.last().target != t {
            assert(rest.push(v.last()).drop_last() =~= rest);
        } else {
            Seq::filter_distributes_over_add(overrides::target_attrs(front, t), v.last().attrs, p);
            if attrs.len() > 0 {
                let a = AnnotationView { target: t, attrs };
                assert(rest.push(a).drop_last() =~= rest);
            } else {
                assert(overrides::target_attrs(rest, t) + attrs =~= overrides::target_attrs(rest, t));
            }
        }
    }
}

proof fn lemma_other_attrs(attrs: Seq<AttrView>, key: Seq<char>)
    ensures
        forall|i: int|
            0 <= i < types::other_attrs(attrs, key).len() ==> (#[trigger] types::other_attrs(attrs, key)[i]).key != key,
        types::other_attrs(types::other_attrs(attrs, key), key) == types::other_attrs(attrs, key),
        with_key(types::other_attrs(attrs, key), key) == Seq::<AttrView>::empty(),
    decreases attrs.len(),
{
    reveal(Seq::filter);
    if attrs.len() > 0 {
        lemma_other_attrs(attrs.drop_last(), key);
        let w = types::other_attrs(attrs.drop_last(), key);
        if attrs.last().key != key {
            assert(types::other_attrs(attrs, key) =~= w.push(attrs.last()));
            assert(w.push(attrs.last()).drop_last() =~= w);
        }
    }
}

/// The attributes of the key `key`.
pub open spec fn with_key(attrs: Seq<AttrView>, key: Seq<char>) -> Seq<AttrView> {
    attrs.filter(|a: AttrView| a.key == key)
}

/// What the attributes of `t` are once `key` is set: those of the first annotation
/// without the key, the new one, then those of the later annotations without the key.
proof fn lemma_set_attrs(
    v: Seq<AnnotationView>,
    t: TargetView,
    key: Seq<char>,
    value: Seq<char>,
    other: TargetView,
) -> (r: (Seq<AttrView>, Seq<AttrView>))
    requires
        other != t,
    ensures
        overrides::target_attrs(v, t) == r.0 + r.1,
        overrides::target_attrs(types::with_attr(v, t, key, value), t) == types::other_attrs(r.0, key).push(
            AttrView { key, value },
        ) + types::other_attrs(r.1, key),
        overrides::target_attrs(types::with_attr(v, t, key, value), other) == overrides::target_attrs(v, other),
{
    lemma_first_of_target(v, t, 0);
    let i = types::first_of_target(v, t, 0);
    let w = types::with_attr(v, t, key, value);
    let a = AttrView { key, value };
    if i < v.len() {
        let head = v.take(i);
        let tail = v.skip(i + 1);
        let one = AnnotationView { target: t, attrs: types::other_attrs(v[i].attrs, key).push(a) };
        assert forall|k: int| 0 <= k < head.len() implies (#[trigger] head[k]).target != t by {
            assert(head[k] == v[k]);
        }
        lemma_no_attrs(head, t);
        lemma_attrs_of_one(v[i]);
        lemma_attrs_of_one(one);
        assert(v =~= head + seq![v[i]] + tail);
        assert(w =~= head + seq![one] + types::without_attr(tail, t, key));
        lemma_attrs_of_both(head + seq![v[i]], tail, t);
        lemma_attrs_of_both(head, seq![v[i]], t);
        lemma_attrs_of_both(head + seq![one], types::without_attr(tail, t, key), t);
        lemma_attrs_of_both(head, seq![one], t);
        lemma_attrs_of_both(head + seq![v[i]], tail, other);
        lemma_attrs_of_both(head, seq![v[i]], other);
        lemma_attrs_of_both(head + seq![one], types::without_attr(tail, t, key), other);
        lemma_attrs_of_both(head, seq![one], other);
        lemma_attrs_without(tail, t, key, other);
        assert(overrides::target_attrs(head, t) + v[i].attrs =~= v[i].attrs);
        assert(overrides::target_attrs(head, t) + one.attrs =~= one.attrs);
        (v[i].attrs, overrides::target_attrs(tail, t))
    } else {
        let none = Seq::<AttrView>::empty();
        let one = AnnotationView { target: t, attrs: seq![a] };
        lemma_no_attrs(v, t);
        lemma_attrs_of_one(one);
        assert(w =~= v + seq![one]);
        lemma_attrs_of_both(v, seq![one], t);
        lemma_attrs_of_both(v, seq![one], other);
        reveal(Seq::filter);
        assert(types::other_attrs(none, key) =~= none);
        assert(none + none =~= none);
        assert(none.push(a) + none =~= seq![a]);
        assert(none + seq![a] =~= seq![a]);
        assert(overrides::target_attrs(v, other) + none =~= overrides::target_attrs(v, other));
        (none, none)
    }
}

/// A target other than `t`.
spec fn another(t: TargetView) -> TargetView {
    if t == TargetView::Graph {
        TargetView::Node(Seq::empty())
    } else {
        TargetView::Graph
    }
}

/// Setting an attribute keeps the list normalised: one attribute of the key is left
/// among all annotations of the target, with the value that was set, and that value is
/// read back. The target's other attributes stay as they were.
pub proof fn law_set_attr_leaves_one(
    v: Seq<AnnotationView>,
    t: TargetView,
    key: Seq<char>,
    value: Seq<char>,
)
    ensures
        with_key(overrides::target_attrs(types::with_attr(v, t, key, value), t), key) == seq![AttrView { key, value }],
        types::other_attrs(overrides::target_attrs(types::with_attr(v, t, key, value), t), key) == types::other_attrs(
            overrides::target_attrs(v, t),
            key,
        ),
{
    let (x, y) = lemma_set_attrs(v, t, key, value, another(t));
    let a = AttrView { key, value };
    let p = |b: AttrView| b.key != key;
    let q = |b: AttrView| b.key == key;
    let ox = types::other_attrs(x, key);
    let oy = types::other_attrs(y, key);
    lemma_other_attrs(x, key);
    lemma_other_attrs(y, key);
    Seq::filter_distributes_over_add(x, y, p);
    let all = ox.push(a) + oy;
    Seq::filter_distributes_over_add(ox.push(a), oy, p);
    Seq::filter_distributes_over_add(ox.push(a), oy, q);
    assert(ox.push(a).filter(p) =~= ox && ox.push(a).filter(q) =~= seq![a]) by {
        reveal(Seq::filter);
        assert(ox.push(a).drop_last() =~= ox);
        assert(Seq::<AttrView>::empty().push(a) =~= seq![a]);
    }
    assert(all.filter(q) =~= seq![a] + Seq::<AttrView>::empty());
    assert(all.filter(p) =~= ox + oy);
}

/// What was set is read back, however many annotations the target has.
pub proof fn law_set_attr_reads_back(
    v: Seq<AnnotationView>,
    t: TargetView,
    key: Seq<char>,
    value: Seq<char>,
)
    ensures
        annotations::attr_value(overrides::target_attrs(types::with_attr(v, t, key, value), t), key) == Some(value),
{
    let (x, y) = lemma_set_attrs(v, t, key, value, another(t));
    lemma_other_attrs(y, key);
    lemma_value_before(types::other_attrs(x, key).push(AttrView { key, value }), types::other_attrs(y, key), key);
}

/// Attributes of other keys behind do not change what is read.
proof fn lemma_value_before(v: Seq<AttrView>, w: Seq<AttrView>, key: Seq<char>)
    requires
        forall|i: int| 0 <= i < w.len() ==> (#[trigger] w[i]).key != key,
    ensures
        annotations::attr_value(v + w, key) == annotations::attr_value(v, key),
    decreases w.len(),
{
    if w.len() == 0 {
        assert(v + w =~= v);
    } else {
        assert(w[w.len() - 1] == w.last());
        assert((v + w).drop_last() =~= v + w.drop_last());
        assert forall|i: int| 0 <= i < w.drop_last().len() implies (#[trigger] w.drop_last()[i]).key
            != key by {
            assert(w.drop_last()[i] == w[i]);
        }
        lemma_value_before(v, w.drop_last(), key);
    }
}

/// Setting an attribute leaves the attributes of every other target as they are.
pub proof fn law_set_attr_keeps_others(
    v: Seq<AnnotationView>,
    t: TargetView,
    key: Seq<char>,
    value: Seq<char>,
    other: TargetView,
)
    requires
        other != t,
    ensures
        overrides::target_attrs(types::with_attr(v, t, key, value), other) == overrides::target_attrs(v, other),
{
    lemma_set_attrs(v, t, key, value, other);
}

proof fn lemma_without_is_no_longer(v: Seq<AnnotationView>, t: TargetView, key: Seq<char>)
    ensures
        types::without_attr(v, t, key).len() <= v.len(),
    decreases v.len(),
{
    if v.len() > 0 {
        lemma_without_is_no_longer(v.drop_last(), t, key);
    }
}

/// Setting an attribute adds an annotation if and only if the target had none.
pub proof fn law_set_attr_adds_where_none(
    v: Seq<AnnotationView>,
    t: TargetView,
    key: Seq<char>,
    value: Seq<char>,
)
    ensures
        types::with_attr(v, t, key, value).len() == v.len() + 1 <==> (forall|i: int|
            0 <= i < v.len() ==> (#[trigger] v[i]).target != t),
        types::with_attr(v, t, key, value).len() <= v.len() + 1,
{
    lemma_first_of_target(v, t, 0);
    let i = types::first_of_target(v, t, 0);
    if i < v.len() {
        lemma_without_is_no_longer(v.skip(i + 1), t, key);
    }
}

proof fn lemma_attr_absent(attrs: Seq<AttrView>, key: Seq<char>)
    requires
        forall|i: int| 0 <= i < attrs.len() ==> (#[trigger] attrs[i]).key != key,
    ensures
        annotations::attr_value(attrs, key) is None,
    decreases attrs.len(),
{
    if attrs.len() > 0 {
        assert(attrs[attrs.len() - 1] == attrs.last());
        assert forall|i: int| 0 <= i < attrs.drop_last().len() implies (
        #[trigger] attrs.drop_last()[i]).key != key by {
            assert(attrs.drop_last()[i] == attrs[i]);
        }
        lemma_attr_absent(attrs.drop_last(), key);
    }
}

/// A removed attribute is gone, from every annotation of its target.
pub proof fn law_removed_attr_is_gone(v: Seq<AnnotationView>, t: TargetView, key: Seq<char>)
    ensures
        annotations::attr_value(overrides::target_attrs(types::without_attr(v, t, key), t), key) is None,
{
    lemma_attrs_without(v, t, key, another(t));
    lemma_other_attrs(overrides::target_attrs(v, t), key);
    lemma_attr_absent(overrides::target_attrs(types::without_attr(v, t, key), t), key);
}

/// Removing the annotations of a target leaves it none, and every other target its
/// own.
pub proof fn law_removed_target_is_gone(v: Seq<AnnotationView>, t: TargetView, other: TargetView)
    ensures
        overrides::target_attrs(types::without_target(v, t), t) == Seq::<AttrView>::empty(),
        other != t ==> overrides::target_attrs(types::without_target(v, t), other) == overrides::target_attrs(v, other),
    decreases v.len(),
{
    reveal(Seq::filter);
    if v.len() > 0 {
        law_removed_target_is_gone(v.drop_last(), t, other);
        let w = types::without_target(v.drop_last(), t);
        if v.last().target != t {
            assert(types::without_target(v, t) == w.push(v.last()));
            assert(w.push(v.last()).drop_last() =~= w);
        }
    }
}

// ── edges ───────────────────────────────────────────────────────────────────

/// How an annotation refers to the edge number `i`.
pub open spec fn edge_target_at(v: FlowView, i: int) -> TargetView {
    TargetView::Edge {
        from: v.edges[i].start,
        to: v.edges[i].end,
        ordinal: types::edge_ordinal_of(v.edges, i),
    }
}

proof fn lemma_parallel_grows(v: Seq<EdgeView>, a: Seq<char>, b: Seq<char>, i: int, j: int)
    requires
        0 <= i <= j <= v.len(),
    ensures
        types::parallel(v, a, b, i) <= types::parallel(v, a, b, j),
        i < j && v[i].start == a && v[i].end == b ==> types::parallel(v, a, b, i) < types::parallel(v, a, b, j),
    decreases j - i,
{
    if i < j {
        lemma_parallel_grows(v, a, b, i, j - 1);
    }
}

proof fn lemma_parallel_removed(
    v: Seq<EdgeView>,
    i: int,
    a: Seq<char>,
    b: Seq<char>,
    n: int,
)
    requires
        0 <= i < v.len(),
        0 <= n < v.len(),
    ensures
        n <= i ==> types::parallel(v.remove(i), a, b, n) == types::parallel(v, a, b, n),
        n > i ==> types::parallel(v.remove(i), a, b, n) == types::parallel(v, a, b, n + 1) - if v[i].start == a
            && v[i].end == b {
            1int
        } else {
            0
        },
    decreases n,
{
    if n > 0 {
        lemma_parallel_removed(v, i, a, b, n - 1);
        if n - 1 < i {
            assert(v.remove(i)[n - 1] == v[n - 1]);
        } else {
            assert(v.remove(i)[n - 1] == v[n]);
        }
        if n == i + 1 {
            assert(types::parallel(v, a, b, n + 1) == types::parallel(v, a, b, n) + if v[n].start == a
                && v[n].end == b {
                1nat
            } else {
                0nat
            });
            assert(types::parallel(v, a, b, n) == types::parallel(v, a, b, n - 1) + if v[n - 1].start == a
                && v[n - 1].end == b {
                1nat
            } else {
                0nat
            });
        }
    }
}

/// Shifting the targets of `v` (none of which is the removed one) carries the
/// attributes of `t` over to its shifted form.
proof fn lemma_shifted_attrs(
    v: Seq<AnnotationView>,
    a: Seq<char>,
    b: Seq<char>,
    k: int,
    t: TargetView,
)
    requires
        forall|i: int|
            0 <= i < v.len() ==> (#[trigger] v[i]).target != (TargetView::Edge {
                from: a,
                to: b,
                ordinal: k,
            }),
        t != (TargetView::Edge { from: a, to: b, ordinal: k }),
    ensures
        overrides::target_attrs(
            v.map_values(
                |x: AnnotationView| AnnotationView { target: types::shifted(x.target, a, b, k), ..x },
            ),
            types::shifted(t, a, b, k),
        ) == overrides::target_attrs(v, t),
    decreases v.len(),
{
    let f = |x: AnnotationView| AnnotationView { target: types::shifted(x.target, a, b, k), ..x };
    if v.len() > 0 {
        assert(v[v.len() - 1] == v.last());
        assert forall|i: int| 0 <= i < v.drop_last().len() implies (
        #[trigger] v.drop_last()[i]).target != (TargetView::Edge {
            from: a,
            to: b,
            ordinal: k,
        }) by {
            assert(v.drop_last()[i] == v[i]);
        }
        lemma_shifted_attrs(v.drop_last(), a, b, k, t);
        assert(v.map_values(f).drop_last() =~= v.drop_last().map_values(f));
        assert(v.map_values(f).last() == f(v.last()));
        let x = v.last().target;
        assert((types::shifted(x, a, b, k) == types::shifted(t, a, b, k)) == (x == t)) by {
            match (x, t) {
                (
                    TargetView::Edge { from: f1, to: t1, ordinal: o1 },
                    TargetView::Edge { from: f2, to: t2, ordinal: o2 },
                ) => {},
                _ => {},
            }
        }
    } else {
        assert(v.map_values(f) =~= v);
    }
}

/// Removing an edge keeps what the annotations say of every other edge, also of
/// those between the same nodes, whose ordinals move up.
pub proof fn law_removed_edge_retargets(v: FlowView, i: int, j: int)
    requires
        0 <= i < v.edges.len(),
        0 <= j < v.edges.len(),
        i != j,
    ensures
        ({
            let w = types::without_edge(v, i);
            let k = if j < i {
                j
            } else {
                j - 1
            };
            &&& w.edges[k] == v.edges[j]
            &&& overrides::target_attrs(w.annotations, edge_target_at(w, k)) == overrides::target_attrs(
                v.annotations,
                edge_target_at(v, j),
            )
        }),
{
    let w = types::without_edge(v, i);
    let k = if j < i {
        j
    } else {
        j - 1
    };
    let e = v.edges[i];
    let g = v.edges[j];
    let ord = types::parallel(v.edges, e.start, e.end, i) + 1;
    let gone = TargetView::Edge { from: e.start, to: e.end, ordinal: ord as int };
    let t = edge_target_at(v, j);
    lemma_parallel_removed(v.edges, i, g.start, g.end, k);
    if j < i {
        lemma_parallel_grows(v.edges, g.start, g.end, j, i);
    } else {
        lemma_parallel_grows(v.edges, e.start, e.end, i, j);
    }
    assert(w.edges[k] == g);
    assert(edge_target_at(w, k) == types::shifted(t, e.start, e.end, ord as int));
    assert(t != gone);
    let kept = types::without_target(v.annotations, gone);
    law_removed_target_is_gone(v.annotations, gone, t);
    lemma_filter_all(v.annotations, gone);
    lemma_shifted_attrs(kept, e.start, e.end, ord as int, t);
}

proof fn lemma_filter_all(v: Seq<AnnotationView>, t: TargetView)
    ensures
        forall|i: int|
            0 <= i < types::without_target(v, t).len() ==> (#[trigger] types::without_target(v, t)[i]).target
                != t,
    decreases v.len(),
{
    reveal(Seq::filter);
    if v.len() > 0 {
        lemma_filter_all(v.drop_last(), t);
    }
}

// ── members ─────────────────────────────────────────────────────────────────

proof fn lemma_other_texts(v: Seq<Seq<char>>, t: Seq<char>)
    ensures
        !types::other_texts(v, t).contains(t),
    decreases v.len(),
{
    reveal(Seq::filter);
    if v.len() > 0 {
        lemma_other_texts(v.drop_last(), t);
        let w = types::other_texts(v.drop_last(), t);
        if v.last() != t {
            assert forall|i: int| 0 <= i < w.push(v.last()).len() implies w.push(v.last())[i]
                != t by {
                if i < w.len() {
                    assert(w.contains(w[i]));
                }
            }
        }
    }
}

/// A moved node is a member of the target subgraph, and of no other.
pub proof fn law_moved_node_is_in_target_alone(
    v: FlowView,
    id: Seq<char>,
    target: Option<Seq<char>>,
    k: int,
)
    requires
        0 <= k < v.subgraphs.len(),
    ensures
        types::with_moved(v, ItemView::Node(id), Some(id), target).subgraphs[k].nodes.contains(id) == (
        target == Some(v.subgraphs[k].id)),
{
    let s = v.subgraphs[k];
    lemma_other_texts(s.nodes, id);
    let others = types::other_texts(s.nodes, id);
    if target == Some(s.id) {
        assert(others.push(id)[others.len() as int] == id);
    }
}

// ── nesting ─────────────────────────────────────────────────────────────────

/// `rank` falls from a subgraph to those that lie in it: no subgraph lies within
/// itself.
pub open spec fn nested_by(v: FlowView, rank: spec_fn(int) -> nat) -> bool {
    forall|i: int, n: int|
        #![trigger v.subgraphs[i].items[n]]
        0 <= i < v.subgraphs.len() && 0 <= n < v.subgraphs[i].items.len() ==> (
        v.subgraphs[i].items[n] matches ItemView::Subgraph(id) ==> ({
            let c = writer::subgraph_index(v.subgraphs, id, 0);
            c < v.subgraphs.len() ==> rank(c) < rank(i)
        }))
}

/// Where no subgraph lies within itself, the bound on nesting changes nothing: any
/// two bounds above the rank give the same text.
pub proof fn law_nesting_bound_is_idle(
    v: FlowView,
    rank: spec_fn(int) -> nat,
    i: int,
    depth: int,
    a: nat,
    b: nat,
    w: Written,
)
    requires
        nested_by(v, rank),
        0 <= i < v.subgraphs.len(),
        a >= rank(i),
        b >= rank(i),
    ensures
        writer::write_subgraph_at(v, i, depth, a, w) == writer::write_subgraph_at(v, i, depth, b, w),
    decreases rank(i), 1int, 0int,
{
    let s = v.subgraphs[i];
    let open = Written { lines: w.lines + writer::subgraph_open(s, depth), ..w };
    if s.items.len() > 0 {
        lemma_items_bound(v, rank, i, s.items.len() as int, depth, a, b, open);
    }
}

proof fn lemma_items_bound(
    v: FlowView,
    rank: spec_fn(int) -> nat,
    i: int,
    n: int,
    depth: int,
    a: nat,
    b: nat,
    w: Written,
)
    requires
        nested_by(v, rank),
        0 <= i < v.subgraphs.len(),
        0 <= n <= v.subgraphs[i].items.len(),
        a >= rank(i),
        b >= rank(i),
    ensures
        writer::write_items(v, v.subgraphs[i].items, n, depth, a, w) == writer::write_items(
            v,
            v.subgraphs[i].items,
            n,
            depth,
            b,
            w,
        ),
    decreases rank(i), 0int, n,
{
    if n > 0 {
        let items = v.subgraphs[i].items;
        lemma_items_bound(v, rank, i, n - 1, depth, a, b, w);
        let before = writer::write_items(v, items, n - 1, depth, a, w);
        match items[n - 1] {
            ItemView::Subgraph(id) => {
                assert(v.subgraphs[i].items[n - 1] == items[n - 1]);
                let c = writer::subgraph_index(v.subgraphs, id, 0);
                lemma_subgraph_index(v.subgraphs, id, 0);
                if c < v.subgraphs.len() {
                    law_nesting_bound_is_idle(
                        v,
                        rank,
                        c,
                        depth + 1,
                        (a - 1) as nat,
                        (b - 1) as nat,
                        before,
                    );
                }
            },
            _ => {},
        }
    }
}

proof fn lemma_subgraph_index(v: Seq<SubgraphView>, id: Seq<char>, i: int)
    requires
        0 <= i <= v.len(),
    ensures
        i <= writer::subgraph_index(v, id, i) <= v.len(),
    decreases v.len() - i,
{
    if i < v.len() && v[i].id != id {
        lemma_subgraph_index(v, id, i + 1);
    }
}

/// The brackets that a node's shape is drawn with in the source.
pub open spec fn shape_brackets(shape: ShapeView) -> (Seq<char>, Seq<char>) {
    match shape {
        ShapeView::Square => (seq!['['], seq![']']),
        ShapeView::Rect => (seq!['['], seq![']']),
        ShapeView::Round => (seq!['('], seq![')']),
        ShapeView::Circle => (seq!['(', '('], seq![')', ')']),
        ShapeView::DoubleCircle => (seq!['(', '(', '('], seq![')', ')', ')']),
        ShapeView::Ellipse => (seq!['(', '-'], seq!['-', ')']),
        ShapeView::Stadium => (seq!['(', '['], seq![']', ')']),
        ShapeView::Subroutine => (seq!['[', '['], seq![']', ']']),
        ShapeView::Cylinder => (seq!['[', '('], seq![')', ']']),
        ShapeView::Diamond => (seq!['{'], seq!['}']),
        ShapeView::Hexagon => (seq!['{', '{'], seq!['}', '}']),
        ShapeView::Odd => (seq!['>'], seq![']']),
        ShapeView::Trapezoid => (seq!['[', '/'], seq!['\\', ']']),
        ShapeView::InvTrapezoid => (seq!['[', '\\'], seq!['/', ']']),
        ShapeView::LeanRight => (seq!['[', '/'], seq!['/', ']']),
        ShapeView::LeanLeft => (seq!['[', '\\'], seq!['\\', ']']),
        ShapeView::Custom(name) => (Seq::empty(), Seq::empty()),
    }
}

/// A node is written as its id and its label between the brackets of its shape; a plain box
/// whose label is its id is written as the id alone.
pub proof fn law_shapes_are_written_in_brackets(shape: ShapeView, l: Seq<char>)
    requires
        !(shape is Custom),
        !(shape is LeanRight),
    ensures
        writer::shape_text(shape, l, false) == shape_brackets(shape).0 + l + shape_brackets(
            shape,
        ).1,
        shape is Square || shape is Rect ==> writer::shape_text(shape, l, true) == Seq::<
            char,
        >::empty(),
        !(shape is Square) && !(shape is Rect) ==> writer::shape_text(shape, l, true)
            == writer::shape_text(shape, l, false),
{
    reveal_strlit("(");
    assert("("@ =~= seq!['(']);
    reveal_strlit("((");
    assert("(("@ =~= seq!['(', '(']);
    reveal_strlit("(((");
    assert("((("@ =~= seq!['(', '(', '(']);
    reveal_strlit("(-");
    assert("(-"@ =~= seq!['(', '-']);
    reveal_strlit("([");
    assert("(["@ =~= seq!['(', '[']);
    reveal_strlit(")");
    assert(")"@ =~= seq![')']);
    reveal_strlit("))");
    assert("))"@ =~= seq![')', ')']);
    reveal_strlit(")))");
    assert(")))"@ =~= seq![')', ')', ')']);
    reveal_strlit(")]");
    assert(")]"@ =~= seq![')', ']']);
    reveal_strlit("-)");
    assert("-)"@ =~= seq!['-', ')']);
    reveal_strlit("/]");
    assert("/]"@ =~= seq!['/', ']']);
    reveal_strlit(">");
    assert(">"@ =~= seq!['>']);
    reveal_strlit("[");
    assert("["@ =~= seq!['[']);
    reveal_strlit("[(");
    assert("[("@ =~= seq!['[', '(']);
    reveal_strlit("[/");
    assert("[/"@ =~= seq!['[', '/']);
    reveal_strlit("[[");
    assert("[["@ =~= seq!['[', '[']);
    reveal_strlit("[\\");
    assert("[\\"@ =~= seq!['[', '\\']);
    reveal_strlit("\\]");
    assert("\\]"@ =~= seq!['\\', ']']);
    reveal_strlit("]");
    assert("]"@ =~= seq![']']);
    reveal_strlit("])");
    assert("])"@ =~= seq![']', ')']);
    reveal_strlit("]]");
    assert("]]"@ =~= seq![']', ']']);
    reveal_strlit("{");
    assert("{"@ =~= seq!['{']);
    reveal_strlit("{{");
    assert("{{"@ =~= seq!['{', '{']);
    reveal_strlit("}");
    assert("}"@ =~= seq!['}']);
    reveal_strlit("}}");
    assert("}}"@ =~= seq!['}', '}']);
}

} // verus!
