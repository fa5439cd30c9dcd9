//! The flowchart database: what a reader fills, an editor changes, and a writer or
//! a renderer reads.
use crate::selkie::common;
use crate::selkie::flowchart::annotations;
use crate::selkie::flowchart::overrides;
use crate::selkie::flowchart::parts;
use crate::text;
use crate::selkie::common::{CommonDb, CommonView};
use crate::selkie::direction::Direction;
use crate::selkie::flowchart::annotations::{
    AnnotationView, AttrView, FlowAnnotation, FlowAnnotationAttr, FlowAnnotationTarget, TargetView,
};
use crate::selkie::flowchart::overrides::{
    EdgeAnnotationOverrides, GraphAnnotationOverrides, GroupAnnotationOverrides,
    NodeAnnotationOverrides, collect_annotation_attrs, read_edge_overrides, read_graph_overrides,
    read_group_overrides, read_node_overrides,
};
use crate::selkie::flowchart::parts::{
    ClassView, EdgeStroke, EdgeView, FlowClass, FlowEdge, FlowLink, FlowSubGraph, FlowSubGraphItem,
    FlowText, FlowTextType, FlowVertex, FlowVertexType, ItemView, LinkView, ShapeView,
    SubgraphView, VertexView,
};
use crate::selkie::table::{Duplicate, Table, duplicate_all};
use crate::text::{
    append_strings, chars_of, copy_opt, copy_strings, has_char, has_prefix, has_suffix,
    index_of_text, is, join_strings, own_opt, push_dec, replace_text, split_at_char, string_of,
    trimmed, unsigned_of,
};
use crate::winkb::suggest::has_string;
use vstd::prelude::*;
use vstd::slice::slice_subrange;

verus! {

// ── arrows ──────────────────────────────────────────────────────────────────

/// How many characters of `s` satisfy `p`.
pub open spec fn count_of(s: Seq<char>, p: spec_fn(char) -> bool) -> nat
    decreases s.len(),
{
    if s.len() == 0 {
        0
    } else {
        count_of(s.drop_last(), p) + if p(s.last()) {
            1nat
        } else {
            0nat
        }
    }
}

/// `n` less `m`, between 1 and 10.
pub open spec fn clamped(n: int, m: int) -> int {
    if n - m < 1 {
        1
    } else if n - m > 10 {
        10
    } else {
        n - m
    }
}

/// `s` begins with `c`.
pub open spec fn begins(s: Seq<char>, c: char) -> bool {
    s.len() > 0 && s[0] == c
}

/// `s` ends with `c`.
pub open spec fn ends(s: Seq<char>, c: char) -> bool {
    s.len() > 0 && s.last() == c
}

/// `s` begins with the mark `c` and a line.
pub open spec fn begins_line(s: Seq<char>, c: char) -> bool {
    s.len() > 1 && s[0] == c && (s[1] == '-' || s[1] == '=')
}

/// The stroke of the arrow `a`.
pub open spec fn arrow_stroke(a: Seq<char>) -> EdgeStroke {
    if text::find_text(a, "-."@) >= 0 || text::find_text(a, ".-"@) >= 0 {
        EdgeStroke::Dotted
    } else if a.contains('=') {
        EdgeStroke::Thick
    } else if begins(a, '~') {
        EdgeStroke::Invisible
    } else {
        EdgeStroke::Normal
    }
}

/// The marks at the two ends of the arrow `a`.
pub open spec fn arrow_ends(a: Seq<char>) -> Seq<char> {
    if (begins(a, '<') || begins_line(a, 'x') || begins_line(a, 'o')) && ends(a, '>') {
        "double_arrow_point"@
    } else if begins_line(a, 'x') && ends(a, 'x') {
        "double_arrow_cross"@
    } else if begins_line(a, 'o') && ends(a, 'o') {
        "double_arrow_circle"@
    } else if ends(a, '>') {
        "arrow_point"@
    } else if ends(a, 'x') && !begins(a, 'x') {
        "arrow_cross"@
    } else if ends(a, 'o') && !begins(a, 'o') {
        "arrow_circle"@
    } else {
        "arrow_open"@
    }
}

/// The length of the arrow `a`: its line characters beyond those that any arrow
/// has, between 1 and 10. An open line has one more of those than one with a head.
pub open spec fn arrow_length(a: Seq<char>) -> int {
    let rest = if arrow_ends(a) == "arrow_open"@ {
        2
    } else {
        1int
    };
    match arrow_stroke(a) {
        EdgeStroke::Thick => clamped(count_of(a, |c: char| c == '=') as int, rest),
        EdgeStroke::Dotted => clamped(count_of(a, |c: char| c == '.') as int, 0),
        _ => clamped(count_of(a, |c: char| c == '-' || c == '~') as int, rest),
    }
}

/// How many characters of `s` are `c` or `d`.
fn count_chars(s: &[char], c: char, d: char) -> (r: usize)
    ensures
        r == count_of(s@, |x: char| x == c || x == d),
{
    let ghost p = |x: char| x == c || x == d;
    let mut n: usize = 0;
    let mut i: usize = 0;
    while i < s.len()
        invariant
            p == (|x: char| x == c || x == d),
            i <= s@.len(),
            n <= i,
            n == count_of(s@.take(i as int), p),
        decreases s@.len() - i,
    {
        assert(s@.take(i + 1).drop_last() =~= s@.take(i as int));
        if s[i] == c || s[i] == d {
            n += 1;
        }
        i += 1;
    }
    assert(s@.take(s@.len() as int) =~= s@);
    n
}

fn clamp_length(n: usize, m: usize) -> (r: u32)
    requires
        m <= 2,
    ensures
        r == clamped(n as int, m as int),
{
    if n <= m {
        1
    } else if n - m > 10 {
        10
    } else {
        (n - m) as u32
    }
}

fn char_begins(s: &[char], c: char) -> (r: bool)
    ensures
        r == begins(s@, c),
{
    s.len() > 0 && s[0] == c
}

fn char_ends(s: &[char], c: char) -> (r: bool)
    ensures
        r == ends(s@, c),
{
    s.len() > 0 && s[s.len() - 1] == c
}

fn line_begins(s: &[char], c: char) -> (r: bool)
    ensures
        r == begins_line(s@, c),
{
    s.len() > 1 && s[0] == c && (s[1] == '-' || s[1] == '=')
}

fn has_text(s: &[char], t: &str) -> (r: bool)
    ensures
        r == (text::find_text(s@, t@) >= 0),
{
    let tc = chars_of(t);
    index_of_text(s, &tc).is_some()
}

/// Read an arrow: the marks at its ends, its stroke and its length.
///
/// Normal: `-->`, `---`. Thick: `==>`, `===`. Dotted: `-.->`, `-.-`, `-..->`. With
/// a mark at the start: `<-->`, `x--x`, `o--o`.
pub fn parse_arrow(arrow: &str) -> (r: (String, EdgeStroke, u32))
    ensures
        r.0@ == arrow_ends(text::trim(arrow@)),
        r.1 == arrow_stroke(text::trim(arrow@)),
        r.2 == arrow_length(text::trim(arrow@)),
{
    let c = chars_of(arrow);
    let a = trimmed(&c);
    let stroke = if has_text(a, "-.") || has_text(a, ".-") {
        EdgeStroke::Dotted
    } else if has_char(a, '=') {
        EdgeStroke::Thick
    } else if char_begins(a, '~') {
        EdgeStroke::Invisible
    } else {
        EdgeStroke::Normal
    };
    let cross = line_begins(a, 'x');
    let circle = line_begins(a, 'o');
    let edge_type = if (char_begins(a, '<') || cross || circle) && char_ends(a, '>') {
        "double_arrow_point"
    } else if cross && char_ends(a, 'x') {
        "double_arrow_cross"
    } else if circle && char_ends(a, 'o') {
        "double_arrow_circle"
    } else if char_ends(a, '>') {
        "arrow_point"
    } else if char_ends(a, 'x') && !char_begins(a, 'x') {
        "arrow_cross"
    } else if char_ends(a, 'o') && !char_begins(a, 'o') {
        "arrow_circle"
    } else {
        "arrow_open"
    };
    let ec = chars_of(edge_type);
    let rest: usize = if is(&ec, "arrow_open") {
        2
    } else {
        1
    };
    let length: u32 = match stroke {
        EdgeStroke::Thick => {
            assert((|x: char| x == '=' || x == '=') =~= (|x: char| x == '='));
            clamp_length(count_chars(a, '=', '='), rest)
        },
        EdgeStroke::Dotted => {
            assert((|x: char| x == '.' || x == '.') =~= (|x: char| x == '.'));
            clamp_length(count_chars(a, '.', '.'), 0)
        },
        _ => {
            assert((|x: char| x == '-' || x == '~') =~= (|c: char| c == '-' || c == '~'));
            clamp_length(count_chars(a, '-', '~'), rest)
        },
    };
    (edge_type.to_owned(), stroke, length)
}

// ── the database ────────────────────────────────────────────────────────────

/// A flowchart.
#[derive(Debug, Clone)]
pub struct FlowchartDb {
    common: CommonDb,
    vertex_counter: u32,
    vertices: Table<FlowVertex>,
    vertex_order: Vec<String>,
    top_level_items: Vec<FlowSubGraphItem>,
    edges: Vec<FlowEdge>,
    default_interpolate: Option<String>,
    default_style: Option<Vec<String>>,
    classes: Table<FlowClass>,
    subgraphs: Vec<FlowSubGraph>,
    subgraph_lookup: Table<usize>,
    tooltips: Table<String>,
    direction: Direction,
    annotations: Vec<FlowAnnotation>,
}

/// A flowchart in mathematical terms.
pub struct FlowView {
    pub common: CommonView,
    pub vertex_counter: int,
    pub vertices: Map<Seq<char>, VertexView>,
    pub vertex_order: Seq<Seq<char>>,
    pub top_level_items: Seq<ItemView>,
    pub edges: Seq<EdgeView>,
    pub default_interpolate: Option<Seq<char>>,
    pub default_style: Option<Seq<Seq<char>>>,
    pub classes: Map<Seq<char>, ClassView>,
    pub subgraphs: Seq<SubgraphView>,
    pub subgraph_lookup: Map<Seq<char>, usize>,
    pub tooltips: Map<Seq<char>, Seq<char>>,
    pub direction: Direction,
    pub annotations: Seq<AnnotationView>,
}

impl View for FlowchartDb {
    type V = FlowView;

    closed spec fn view(&self) -> FlowView {
        FlowView {
            common: self.common@,
            vertex_counter: self.vertex_counter as int,
            vertices: self.vertices@,
            vertex_order: text::strings(self.vertex_order@),
            top_level_items: parts::items_view(self.top_level_items@),
            edges: parts::edges_view(self.edges@),
            default_interpolate: text::opt_text(self.default_interpolate),
            default_style: match self.default_style {
                Some(v) => Some(text::strings(v@)),
                None => None,
            },
            classes: self.classes@,
            subgraphs: parts::subgraphs_view(self.subgraphs@),
            subgraph_lookup: self.subgraph_lookup@,
            tooltips: self.tooltips@,
            direction: self.direction,
            annotations: annotations::annotations_view(self.annotations@),
        }
    }
}

/// The chart without any part.
pub open spec fn empty_chart() -> FlowView {
    FlowView {
        common: common::no_titles(),
        vertex_counter: 0,
        vertices: Map::empty(),
        vertex_order: Seq::empty(),
        top_level_items: Seq::empty(),
        edges: Seq::empty(),
        default_interpolate: None,
        default_style: None,
        classes: Map::empty(),
        subgraphs: Seq::empty(),
        subgraph_lookup: Map::empty(),
        tooltips: Map::empty(),
        direction: Direction::TopToBottom,
        annotations: Seq::empty(),
    }
}

/// The order of the nodes lists each node once, and the subgraph index points at
/// subgraphs.
pub open spec fn ordered(v: FlowView) -> bool {
    &&& v.vertex_order.no_duplicates()
    &&& forall|k: Seq<char>| v.vertices.dom().contains(k) == #[trigger] v.vertex_order.contains(k)
    &&& forall|k: Seq<char>| #[trigger]
        v.subgraph_lookup.dom().contains(k) ==> v.subgraph_lookup[k] < v.subgraphs.len()
}

impl Default for FlowchartDb {
    fn default() -> (r: Self)
        ensures
            r.wf(),
            r@ == empty_chart(),
    {
        FlowchartDb::new()
    }
}

impl FlowchartDb {
    /// The invariant of the database.
    pub closed spec fn wf(self) -> bool {
        &&& self.vertices.wf()
        &&& self.classes.wf()
        &&& self.subgraph_lookup.wf()
        &&& self.tooltips.wf()
        &&& ordered(self@)
    }

    /// The nodes are listed in the order of their declaration, each once; and every
    /// subgraph that can be looked up is there.
    pub proof fn law_ordered(self)
        requires
            self.wf(),
        ensures
            ordered(self@),
    {
    }

    pub fn new() -> (r: FlowchartDb)
        ensures
            r.wf(),
            r@ == empty_chart(),
    {
        let r = FlowchartDb {
            common: CommonDb::new(),
            vertex_counter: 0,
            vertices: Table::new(),
            vertex_order: Vec::new(),
            top_level_items: Vec::new(),
            edges: Vec::new(),
            default_interpolate: None,
            default_style: None,
            classes: Table::new(),
            subgraphs: Vec::new(),
            subgraph_lookup: Table::new(),
            tooltips: Table::new(),
            direction: Direction::TopToBottom,
            annotations: Vec::new(),
        };
        assert(r@.vertex_order =~= Seq::empty());
        assert(r@.top_level_items =~= Seq::empty());
        assert(r@.edges =~= Seq::empty());
        assert(r@.subgraphs =~= Seq::empty());
        assert(r@.annotations =~= Seq::empty());
        r
    }

    pub fn clear(&mut self)
        ensures
            final(self).wf(),
            final(self)@ == empty_chart(),
    {
        *self = FlowchartDb::new();
    }

    // ── annotations ─────────────────────────────────────────────────────────

    pub fn add_annotation(&mut self, annotation: FlowAnnotation)
        requires
            old(self).wf(),
        ensures
            final(self).wf(),
            final(self)@ == (FlowView {
                annotations: old(self)@.annotations.push(annotation@),
                ..old(self)@
            }),
    {
        self.annotations.push(annotation);
        assert(self@.annotations =~= old(self)@.annotations.push(annotation@));
    }

    pub fn annotations(&self) -> (r: &[FlowAnnotation])
        ensures
            annotations::annotations_view(r@) == self@.annotations,
    {
        self.annotations.as_slice()
    }

    /// Replace or create a single annotation attribute on a target. The list is kept
    /// normalised: a target has one value for the key afterwards, whichever of its
    /// annotations held the key before.
    pub fn set_annotation_attr(&mut self, target: FlowAnnotationTarget, key: &str, value: &str)
        requires
            old(self).wf(),
        ensures
            final(self).wf(),
            final(self)@ == (FlowView {
                annotations: with_attr(old(self)@.annotations, target@, key@, value@),
                ..old(self)@
            }),
    {
        put_attr(&mut self.annotations, target, key, value);
    }

    /// Remove a single annotation attribute from a target.
    pub fn remove_annotation_attr(&mut self, target: &FlowAnnotationTarget, key: &str)
        requires
            old(self).wf(),
        ensures
            final(self).wf(),
            final(self)@ == (FlowView {
                annotations: without_attr(old(self)@.annotations, target@, key@),
                ..old(self)@
            }),
    {
        let kept = drop_attr(&self.annotations, target, key);
        self.annotations = kept;
    }

    /// Remove all annotations of a target.
    pub fn remove_annotations_for_target(&mut self, target: &FlowAnnotationTarget)
        requires
            old(self).wf(),
        ensures
            final(self).wf(),
            final(self)@ == (FlowView {
                annotations: without_target(old(self)@.annotations, target@),
                ..old(self)@
            }),
    {
        let kept = drop_target(&self.annotations, target);
        self.annotations = kept;
    }
}

/// The attributes other than `key`.
pub open spec fn other_attrs(attrs: Seq<AttrView>, key: Seq<char>) -> Seq<AttrView> {
    attrs.filter(|a: AttrView| a.key != key)
}

/// The position of the first annotation of `target` from `i` on; the length of `v`
/// where there is none.
pub open spec fn first_of_target(v: Seq<AnnotationView>, target: TargetView, i: int) -> int
    decreases v.len() - i,
{
    if i >= v.len() {
        v.len() as int
    } else if v[i].target == target {
        i
    } else {
        first_of_target(v, target, i + 1)
    }
}

/// The annotations `v` with the attribute `key` of `target` set to `value`: on its
/// first annotation where it has one, else on a new one. The other annotations of the
/// target lose the key, and those that are left empty go.
pub open spec fn with_attr(
    v: Seq<AnnotationView>,
    target: TargetView,
    key: Seq<char>,
    value: Seq<char>,
) -> Seq<AnnotationView> {
    let i = first_of_target(v, target, 0);
    let a = AttrView { key, value };
    if i < v.len() {
        v.take(i).push(AnnotationView { target, attrs: other_attrs(v[i].attrs, key).push(a) })
            + without_attr(v.skip(i + 1), target, key)
    } else {
        v.push(AnnotationView { target, attrs: seq![a] })
    }
}

/// The annotations `v` without the attribute `key` of `target`, and without those
/// of `target` that are left empty.
pub open spec fn without_attr(v: Seq<AnnotationView>, target: TargetView, key: Seq<char>) -> Seq<
    AnnotationView,
>
    decreases v.len(),
{
    if v.len() == 0 {
        Seq::empty()
    } else {
        let rest = without_attr(v.drop_last(), target, key);
        let attrs = other_attrs(v.last().attrs, key);
        if v.last().target != target {
            rest.push(v.last())
        } else if attrs.len() > 0 {
            rest.push(AnnotationView { target, attrs })
        } else {
            rest
        }
    }
}

/// The annotations `v` but for those of `target`.
pub open spec fn without_target(v: Seq<AnnotationView>, target: TargetView) -> Seq<AnnotationView> {
    v.filter(|a: AnnotationView| a.target != target)
}

fn keep_other_attrs(attrs: &Vec<FlowAnnotationAttr>, key: &str) -> (r: Vec<FlowAnnotationAttr>)
    ensures
        annotations::attrs_view(r@) == other_attrs(annotations::attrs_view(attrs@), key@),
{
    let ghost all = annotations::attrs_view(attrs@);
    let ghost p = |a: AttrView| a.key != key@;
    let kc = chars_of(key);
    let mut r: Vec<FlowAnnotationAttr> = Vec::new();
    let mut i: usize = 0;
    proof {
        reveal(Seq::filter);
    }
    assert(annotations::attrs_view(r@) =~= Seq::empty());
    while i < attrs.len()
        invariant
            all == annotations::attrs_view(attrs@),
            p == (|a: AttrView| a.key != key@),
            kc@ == key@,
            i <= attrs@.len(),
            annotations::attrs_view(r@) == all.take(i as int).filter(p),
        decreases attrs@.len() - i,
    {
        proof {
            reveal(Seq::filter);
            assert(all.take(i + 1).drop_last() =~= all.take(i as int));
            assert(all.take(i + 1).last() == attrs@[i as int]@);
        }
        let named = is(&kc, attrs[i].key.as_str());
        if !named {
            let a = attrs[i].duplicate();
            let ghost before = annotations::attrs_view(r@);
            r.push(a);
            assert(annotations::attrs_view(r@) =~= before.push(a@));
        }
        i += 1;
    }
    assert(all.take(all.len() as int) =~= all);
    r
}

fn put_attr(
    v: &mut Vec<FlowAnnotation>,
    target: FlowAnnotationTarget,
    key: &str,
    value: &str,
)
    ensures
        annotations::annotations_view(final(v)@) == with_attr(
            annotations::annotations_view(old(v)@),
            target@,
            key@,
            value@,
        ),
{
    let ghost all = annotations::annotations_view(v@);
    let a = FlowAnnotationAttr { key: key.to_owned(), value: value.to_owned() };
    let mut i: usize = 0;
    while i < v.len()
        invariant
            *v == *old(v),
            all == annotations::annotations_view(v@),
            a@ == (AttrView { key: key@, value: value@ }),
            i <= v@.len(),
            first_of_target(all, target@, 0) == first_of_target(all, target@, i as int),
        decreases v@.len() - i,
    {
        assert(all[i as int] == v@[i as int]@);
        if v[i].target.same(&target) {
            let mut attrs = keep_other_attrs(&v[i].attrs, key);
            let ghost kept = annotations::attrs_view(attrs@);
            attrs.push(a);
            assert(annotations::attrs_view(attrs@) =~= kept.push(a@));
            let behind = v.split_off(i + 1);
            assert(annotations::annotations_view(behind@) =~= all.skip(i + 1));
            let mut rest = drop_attr(&behind, &target, key);
            let ghost rv = annotations::annotations_view(rest@);
            let first = FlowAnnotation { target, attrs };
            v.set(i, first);
            assert(annotations::annotations_view(v@) =~= all.take(i as int).push(first@));
            v.append(&mut rest);
            assert(annotations::annotations_view(v@) =~= all.take(i as int).push(first@) + rv);
            return;
        }
        i += 1;
    }
    let mut attrs: Vec<FlowAnnotationAttr> = Vec::new();
    attrs.push(a);
    assert(annotations::attrs_view(attrs@) =~= seq![a@]);
    v.push(FlowAnnotation { target, attrs });
    assert(annotations::annotations_view(v@) =~= with_attr(all, target@, key@, value@));
}

fn drop_attr(v: &Vec<FlowAnnotation>, target: &FlowAnnotationTarget, key: &str) -> (r: Vec<
    FlowAnnotation,
>)
    ensures
        annotations::annotations_view(r@) == without_attr(annotations::annotations_view(v@), target@, key@),
{
    let ghost all = annotations::annotations_view(v@);
    let mut r: Vec<FlowAnnotation> = Vec::new();
    let mut i: usize = 0;
    assert(annotations::annotations_view(r@) =~= Seq::empty());
    while i < v.len()
        invariant
            all == annotations::annotations_view(v@),
            i <= v@.len(),
            annotations::annotations_view(r@) == without_attr(all.take(i as int), target@, key@),
        decreases v@.len() - i,
    {
        assert(all.take(i + 1).drop_last() =~= all.take(i as int));
        assert(all.take(i + 1).last() == v@[i as int]@);
        let ghost before = annotations::annotations_view(r@);
        if v[i].target.same(target) {
            let attrs = keep_other_attrs(&v[i].attrs, key);
            assert(annotations::attrs_view(attrs@).len() == attrs@.len());
            if attrs.len() > 0 {
                let a = FlowAnnotation { target: target.duplicate(), attrs };
                r.push(a);
                assert(annotations::annotations_view(r@) =~= before.push(a@));
            }
        } else {
            let a = v[i].duplicate();
            r.push(a);
            assert(annotations::annotations_view(r@) =~= before.push(a@));
        }
        i += 1;
    }
    assert(all.take(all.len() as int) =~= all);
    r
}

fn drop_target(v: &Vec<FlowAnnotation>, target: &FlowAnnotationTarget) -> (r: Vec<FlowAnnotation>)
    ensures
        annotations::annotations_view(r@) == without_target(annotations::annotations_view(v@), target@),
{
    let ghost all = annotations::annotations_view(v@);
    let ghost p = |a: AnnotationView| a.target != target@;
    let mut r: Vec<FlowAnnotation> = Vec::new();
    let mut i: usize = 0;
    proof {
        reveal(Seq::filter);
    }
    assert(annotations::annotations_view(r@) =~= Seq::empty());
    while i < v.len()
        invariant
            all == annotations::annotations_view(v@),
            p == (|a: AnnotationView| a.target != target@),
            i <= v@.len(),
            annotations::annotations_view(r@) == all.take(i as int).filter(p),
        decreases v@.len() - i,
    {
        proof {
            reveal(Seq::filter);
            assert(all.take(i + 1).drop_last() =~= all.take(i as int));
            assert(all.take(i + 1).last() == v@[i as int]@);
        }
        if !v[i].target.same(target) {
            let a = v[i].duplicate();
            let ghost before = annotations::annotations_view(r@);
            r.push(a);
            assert(annotations::annotations_view(r@) =~= before.push(a@));
        }
        i += 1;
    }
    assert(all.take(all.len() as int) =~= all);
    r
}

// ── moving and removing ─────────────────────────────────────────────────────

/// The items other than `item`.
pub open spec fn other_items(items: Seq<ItemView>, item: ItemView) -> Seq<ItemView> {
    items.filter(|x: ItemView| x != item)
}

/// The texts other than `t`.
pub open spec fn other_texts(v: Seq<Seq<char>>, t: Seq<char>) -> Seq<Seq<char>> {
    v.filter(|x: Seq<char>| x != t)
}

/// The subgraph `s` once `item` was moved into the subgraph `target`, or out of
/// all. `node` is the node's id where the item is a node.
pub open spec fn moved(
    s: SubgraphView,
    item: ItemView,
    node: Option<Seq<char>>,
    target: Option<Seq<char>>,
) -> SubgraphView {
    let items = other_items(s.items, item);
    let nodes = match node {
        Some(n) => other_texts(s.nodes, n),
        None => s.nodes,
    };
    if target == Some(s.id) {
        SubgraphView {
            items: items.push(item),
            nodes: match node {
                Some(n) => nodes.push(n),
                None => nodes,
            },
            ..s
        }
    } else {
        SubgraphView { items, nodes, ..s }
    }
}

/// Some subgraph is called `id`.
pub open spec fn has_subgraph(v: Seq<SubgraphView>, id: Seq<char>) -> bool {
    exists|i: int| 0 <= i < v.len() && (#[trigger] v[i]).id == id
}

/// The target of a move is there.
pub open spec fn target_found(v: Seq<SubgraphView>, target: Option<Seq<char>>) -> bool {
    match target {
        Some(id) => has_subgraph(v, id),
        None => true,
    }
}

/// The chart with `item` moved.
pub open spec fn with_moved(
    v: FlowView,
    item: ItemView,
    node: Option<Seq<char>>,
    target: Option<Seq<char>>,
) -> FlowView {
    let top = other_items(v.top_level_items, item);
    FlowView {
        top_level_items: if target is None {
            top.push(item)
        } else {
            top
        },
        subgraphs: v.subgraphs.map_values(|s: SubgraphView| moved(s, item, node, target)),
        ..v
    }
}

fn keep_other_items(items: &Vec<FlowSubGraphItem>, item: &FlowSubGraphItem) -> (r: Vec<
    FlowSubGraphItem,
>)
    ensures
        parts::items_view(r@) == other_items(parts::items_view(items@), item@),
{
    let ghost all = parts::items_view(items@);
    let ghost p = |x: ItemView| x != item@;
    let mut r: Vec<FlowSubGraphItem> = Vec::new();
    let mut i: usize = 0;
    proof {
        reveal(Seq::filter);
    }
    assert(parts::items_view(r@) =~= Seq::empty());
    while i < items.len()
        invariant
            all == parts::items_view(items@),
            p == (|x: ItemView| x != item@),
            i <= items@.len(),
            parts::items_view(r@) == all.take(i as int).filter(p),
        decreases items@.len() - i,
    {
        proof {
            reveal(Seq::filter);
            assert(all.take(i + 1).drop_last() =~= all.take(i as int));
            assert(all.take(i + 1).last() == items@[i as int]@);
        }
        if !items[i].same(item) {
            let a = items[i].duplicate();
            let ghost before = parts::items_view(r@);
            r.push(a);
            assert(parts::items_view(r@) =~= before.push(a@));
        }
        i += 1;
    }
    assert(all.take(all.len() as int) =~= all);
    r
}

fn keep_other_strings(v: &Vec<String>, t: &str) -> (r: Vec<String>)
    ensures
        text::strings(r@) == other_texts(text::strings(v@), t@),
{
    let ghost all = text::strings(v@);
    let ghost p = |x: Seq<char>| x != t@;
    let tc = chars_of(t);
    let mut r: Vec<String> = Vec::new();
    let mut i: usize = 0;
    proof {
        reveal(Seq::filter);
    }
    assert(text::strings(r@) =~= Seq::empty());
    while i < v.len()
        invariant
            all == text::strings(v@),
            p == (|x: Seq<char>| x != t@),
            tc@ == t@,
            i <= v@.len(),
            text::strings(r@) == all.take(i as int).filter(p),
        decreases v@.len() - i,
    {
        proof {
            reveal(Seq::filter);
            assert(all.take(i + 1).drop_last() =~= all.take(i as int));
            assert(all.take(i + 1).last() == v@[i as int]@);
        }
        let hit = is(&tc, v[i].as_str());
        if !hit {
            let a = v[i].clone();
            let ghost before = text::strings(r@);
            r.push(a);
            assert(text::strings(r@) =~= before.push(a@));
        }
        i += 1;
    }
    assert(all.take(all.len() as int) =~= all);
    r
}

/// Whether `target` is the string `id`.
fn names(target: Option<&str>, id: &String) -> (r: bool)
    ensures
        r == (text::opt_str(target) == Some(id@)),
{
    match target {
        Some(t) => {
            let tc = chars_of(t);
            is(&tc, id.as_str())
        },
        None => false,
    }
}

fn move_item(
    v: &mut Vec<FlowSubGraph>,
    item: &FlowSubGraphItem,
    node: Option<&str>,
    target: Option<&str>,
) -> (r: bool)
    ensures
        parts::subgraphs_view(final(v)@) == parts::subgraphs_view(old(v)@).map_values(
            |s: SubgraphView| moved(s, item@, text::opt_str(node), text::opt_str(target)),
        ),
        r == target_found(parts::subgraphs_view(old(v)@), text::opt_str(target)),
{
    let ghost all = parts::subgraphs_view(v@);
    let mut found = target.is_none();
    let mut i: usize = 0;
    while i < v.len()
        invariant
            all == parts::subgraphs_view(old(v)@),
            v@.len() == all.len(),
            i <= v@.len(),
            forall|k: int|
                0 <= k < i ==> (#[trigger] v@[k])@ == moved(
                    all[k],
                    item@,
                    text::opt_str(node),
                    text::opt_str(target),
                ),
            forall|k: int| i <= k < v@.len() ==> (#[trigger] v@[k])@ == all[k],
            found == (target is None || exists|k: int|
                0 <= k < i && Some((#[trigger] all[k]).id) == text::opt_str(target)),
        decreases v@.len() - i,
    {
        let ghost was = v@;
        assert(v@[i as int]@ == all[i as int]);
        let mut items = keep_other_items(&v[i].items, item);
        let mut nodes = match node {
            Some(n) => keep_other_strings(&v[i].nodes, n),
            None => copy_strings(&v[i].nodes),
        };
        let here = names(target, &v[i].id);
        if here {
            found = true;
            let ghost kept = parts::items_view(items@);
            let it = item.duplicate();
            items.push(it);
            assert(parts::items_view(items@) =~= kept.push(item@));
            match node {
                Some(n) => {
                    let ghost others = text::strings(nodes@);
                    nodes.push(n.to_owned());
                    assert(text::strings(nodes@) =~= others.push(n@));
                },
                None => {},
            }
        }
        let sg = &mut v[i];
        sg.items = items;
        sg.nodes = nodes;
        assert(v@[i as int]@ == moved(all[i as int], item@, text::opt_str(node), text::opt_str(target)));
        assert forall|k: int| 0 <= k < v@.len() && k != i implies #[trigger] v@[k] == was[k] by {}
        assert(here == (Some(all[i as int].id) == text::opt_str(target)));
        i += 1;
    }
    assert(parts::subgraphs_view(v@) =~= all.map_values(
        |s: SubgraphView| moved(s, item@, text::opt_str(node), text::opt_str(target)),
    ));
    proof {
        match text::opt_str(target) {
            Some(id) => {
                if found {
                    let k = choose|k: int|
                        0 <= k < i && Some((#[trigger] all[k]).id) == text::opt_str(target);
                    assert(all[k].id == id);
                }
                if has_subgraph(all, id) {
                    let k = choose|k: int| 0 <= k < all.len() && (#[trigger] all[k]).id == id;
                    assert(Some(all[k].id) == text::opt_str(target));
                }
            },
            None => {},
        }
    }
    found
}

/// How many of the first `n` edges run from `start` to `end`.
pub open spec fn parallel(v: Seq<EdgeView>, start: Seq<char>, end: Seq<char>, n: int) -> nat
    decreases n,
{
    if n <= 0 {
        0
    } else {
        parallel(v, start, end, n - 1) + if v[n - 1].start == start && v[n - 1].end == end {
            1nat
        } else {
            0nat
        }
    }
}

/// The target `t` once the edge number `removed` from `start` to `end` is gone: the
/// later ones move up.
pub open spec fn shifted(
    t: TargetView,
    start: Seq<char>,
    end: Seq<char>,
    removed: int,
) -> TargetView {
    match t {
        TargetView::Edge { from, to, ordinal } => if from == start && to == end && ordinal
            > removed {
            TargetView::Edge { from, to, ordinal: ordinal - 1 }
        } else {
            t
        },
        _ => t,
    }
}

/// The chart without the edge number `i`: its items and annotations go too, and the
/// annotations of later edges between the same nodes move up.
pub open spec fn without_edge(v: FlowView, i: int) -> FlowView {
    let e = v.edges[i];
    let ordinal = (parallel(v.edges, e.start, e.end, i) + 1) as int;
    let kept = without_target(
        v.annotations,
        TargetView::Edge { from: e.start, to: e.end, ordinal },
    );
    FlowView {
        edges: v.edges.remove(i),
        top_level_items: match e.id {
            Some(id) => other_items(v.top_level_items, ItemView::Edge(id)),
            None => v.top_level_items,
        },
        subgraphs: match e.id {
            Some(id) => v.subgraphs.map_values(
                |s: SubgraphView| moved(s, ItemView::Edge(id), None, None),
            ),
            None => v.subgraphs,
        },
        annotations: kept.map_values(
            |a: AnnotationView|
                AnnotationView { target: shifted(a.target, e.start, e.end, ordinal), ..a },
        ),
        ..v
    }
}

/// Whether `e` runs from `start` to `end`.
fn runs(e: &FlowEdge, start: &String, end: &String) -> (r: bool)
    ensures
        r == (e@.start == start@ && e@.end == end@),
{
    e.start == *start && e.end == *end
}

fn count_parallel(v: &Vec<FlowEdge>, start: &String, end: &String, n: usize) -> (r: usize)
    requires
        n <= v@.len(),
    ensures
        r == parallel(parts::edges_view(v@), start@, end@, n as int),
        r <= n,
{
    let mut c: usize = 0;
    let mut i: usize = 0;
    while i < n
        invariant
            i <= n <= v@.len(),
            c <= i,
            c == parallel(parts::edges_view(v@), start@, end@, i as int),
        decreases n - i,
    {
        assert(parts::edges_view(v@)[i as int] == v@[i as int]@);
        if runs(&v[i], start, end) {
            c += 1;
        }
        i += 1;
    }
    c
}

fn shift_targets(v: &mut Vec<FlowAnnotation>, start: &String, end: &String, removed: u32)
    ensures
        annotations::annotations_view(final(v)@) == annotations::annotations_view(old(v)@).map_values(
            |a: AnnotationView|
                AnnotationView {
                    target: shifted(a.target, start@, end@, removed as int),
                    ..a
                },
        ),
{
    let ghost all = annotations::annotations_view(v@);
    let mut i: usize = 0;
    while i < v.len()
        invariant
            all == annotations::annotations_view(old(v)@),
            v@.len() == all.len(),
            i <= v@.len(),
            forall|k: int|
                0 <= k < i ==> (#[trigger] v@[k])@ == (AnnotationView {
                    target: shifted(all[k].target, start@, end@, removed as int),
                    ..all[k]
                }),
            forall|k: int| i <= k < v@.len() ==> (#[trigger] v@[k])@ == all[k],
        decreases v@.len() - i,
    {
        assert(v@[i as int]@ == all[i as int]);
        let t = match &v[i].target {
            FlowAnnotationTarget::Edge { from, to, ordinal } => {
                if *from == *start && *to == *end && *ordinal > removed {
                    FlowAnnotationTarget::Edge {
                        from: from.clone(),
                        to: to.clone(),
                        ordinal: *ordinal - 1,
                    }
                } else {
                    v[i].target.duplicate()
                }
            },
            _ => v[i].target.duplicate(),
        };
        let a = &mut v[i];
        a.target = t;
        i += 1;
    }
    assert(annotations::annotations_view(v@) =~= all.map_values(
        |a: AnnotationView|
            AnnotationView { target: shifted(a.target, start@, end@, removed as int), ..a },
    ));
}

impl FlowchartDb {
    /// Move a node into a subgraph, or out to the top level where there is no
    /// target. Whether the node and the target are there.
    pub fn move_vertex_to_subgraph(&mut self, vertex_id: &str, target_subgraph_id: Option<&str>)
        -> (r: bool)
        requires
            old(self).wf(),
        ensures
            final(self).wf(),
            r == (old(self)@.vertices.dom().contains(vertex_id@) && target_found(
                old(self)@.subgraphs,
                text::opt_str(target_subgraph_id),
            )),
            final(self)@ == if old(self)@.vertices.dom().contains(vertex_id@) {
                with_moved(
                    old(self)@,
                    ItemView::Node(vertex_id@),
                    Some(vertex_id@),
                    text::opt_str(target_subgraph_id),
                )
            } else {
                old(self)@
            },
    {
        if !self.vertices.contains_key(vertex_id) {
            return false;
        }
        let item = FlowSubGraphItem::Node(vertex_id.to_owned());
        let mut top = keep_other_items(&self.top_level_items, &item);
        let found = move_item(&mut self.subgraphs, &item, Some(vertex_id), target_subgraph_id);
        if target_subgraph_id.is_none() {
            let ghost kept = parts::items_view(top@);
            top.push(item);
            assert(parts::items_view(top@) =~= kept.push(item@));
        }
        self.top_level_items = top;
        found
    }

    /// Move an edge into a subgraph, or out to the top level where there is no
    /// target. Whether the edge (and its id) and the target are there.
    pub fn move_edge_to_subgraph(&mut self, edge_index: usize, target_subgraph_id: Option<&str>)
        -> (r: bool)
        requires
            old(self).wf(),
        ensures
            final(self).wf(),
            edge_index < old(self)@.edges.len() && old(self)@.edges[edge_index as int].id is Some
                ==> r == target_found(old(self)@.subgraphs, text::opt_str(target_subgraph_id))
                && final(self)@ == with_moved(
                old(self)@,
                ItemView::Edge(old(self)@.edges[edge_index as int].id->0),
                None,
                text::opt_str(target_subgraph_id),
            ),
            !(edge_index < old(self)@.edges.len()
                && old(self)@.edges[edge_index as int].id is Some) ==> !r && final(self)@ == old(
                self,
            )@,
    {
        if edge_index >= self.edges.len() {
            return false;
        }
        assert(self@.edges[edge_index as int] == self.edges@[edge_index as int]@);
        let id = match copy_opt(&self.edges[edge_index].id) {
            Some(id) => id,
            None => return false,
        };
        let item = FlowSubGraphItem::Edge(id);
        let mut top = keep_other_items(&self.top_level_items, &item);
        let found = move_item(&mut self.subgraphs, &item, None, target_subgraph_id);
        if target_subgraph_id.is_none() {
            let ghost kept = parts::items_view(top@);
            top.push(item);
            assert(parts::items_view(top@) =~= kept.push(item@));
        }
        self.top_level_items = top;
        found
    }

    /// Remove an edge by its index, and with it the items and annotations that are
    /// its own; the annotations of later edges between the same nodes move up.
    pub fn remove_edge_at(&mut self, index: usize) -> (r: Option<FlowEdge>)
        requires
            old(self).wf(),
            old(self)@.edges.len() < u32::MAX,
        ensures
            final(self).wf(),
            match r {
                Some(e) => index < old(self)@.edges.len() && e@ == old(
                    self,
                )@.edges[index as int] && final(self)@ == without_edge(old(self)@, index as int),
                None => index >= old(self)@.edges.len() && final(self)@ == old(self)@,
            },
    {
        if index >= self.edges.len() {
            return None;
        }
        let ghost v0 = self@;
        let edge = self.edges.remove(index);
        let ghost e = edge@;
        assert(v0.edges[index as int] == e);
        assert(parts::edges_view(self.edges@) =~= v0.edges.remove(index as int));
        match copy_opt(&edge.id) {
            Some(id) => {
                let item = FlowSubGraphItem::Edge(id);
                let top = keep_other_items(&self.top_level_items, &item);
                self.top_level_items = top;
                let _found = move_item(&mut self.subgraphs, &item, None, None);
            },
            None => {},
        }
        let before: usize = count_parallel(&self.edges, &edge.start, &edge.end, index);
        proof {
            lemma_parallel_same(v0.edges, v0.edges.remove(index as int), e.start, e.end, index as int);
        }
        let ordinal: u32 = before as u32 + 1;
        let target = FlowAnnotationTarget::Edge {
            from: edge.start.clone(),
            to: edge.end.clone(),
            ordinal,
        };
        let mut kept = drop_target(&self.annotations, &target);
        shift_targets(&mut kept, &edge.start, &edge.end, ordinal);
        self.annotations = kept;
        Some(edge)
    }
}

proof fn lemma_parallel_same(
    a: Seq<EdgeView>,
    b: Seq<EdgeView>,
    start: Seq<char>,
    end: Seq<char>,
    n: int,
)
    requires
        n <= a.len(),
        n <= b.len(),
        forall|i: int| 0 <= i < n ==> a[i] == b[i],
    ensures
        parallel(a, start, end, n) == parallel(b, start, end, n),
    decreases n,
{
    if n > 0 {
        lemma_parallel_same(a, b, start, end, n - 1);
    }
}

// ── what the annotations say ────────────────────────────────────────────────

/// The ordinal of the edge number `i` among those between the same nodes, from 1.
pub open spec fn edge_ordinal_of(v: Seq<EdgeView>, i: int) -> int {
    (parallel(v, v[i].start, v[i].end, i) + 1) as int
}

/// The ordinal of an edge that is none of `v`: the number of edges between its nodes,
/// but 1 at least.
pub open spec fn loose_ordinal(v: Seq<EdgeView>, e: EdgeView) -> int {
    let n = parallel(v, e.start, e.end, v.len() as int) as int;
    if n == 0 {
        1
    } else {
        n
    }
}

impl FlowchartDb {
    pub fn graph_annotation_overrides(&self) -> (r: GraphAnnotationOverrides)
        ensures
            overrides::graph_overrides(r, overrides::target_attrs(self@.annotations, TargetView::Graph)),
    {
        let a = collect_annotation_attrs(&self.annotations, &FlowAnnotationTarget::Graph);
        read_graph_overrides(&a)
    }

    pub fn node_annotation_overrides(&self, node_id: &str) -> (r: NodeAnnotationOverrides)
        ensures
            overrides::node_overrides(r, overrides::target_attrs(self@.annotations, TargetView::Node(node_id@))),
    {
        let t = FlowAnnotationTarget::Node { id: node_id.to_owned() };
        let a = collect_annotation_attrs(&self.annotations, &t);
        read_node_overrides(&a)
    }

    /// The ordinal of an edge among those between the same nodes, from 1.
    pub fn edge_ordinal(&self, edge_index: usize) -> (r: u32)
        requires
            edge_index < self@.edges.len(),
            self@.edges.len() <= u32::MAX,
        ensures
            r == edge_ordinal_of(self@.edges, edge_index as int),
    {
        assert(self@.edges[edge_index as int] == self.edges@[edge_index as int]@);
        let e = &self.edges[edge_index];
        let n: usize = count_parallel(&self.edges, &e.start, &e.end, edge_index);
        n as u32 + 1
    }

    /// What the annotations say of the edge at `edge_index`.
    pub fn edge_annotation_overrides_for(&self, edge_index: usize) -> (r: EdgeAnnotationOverrides)
        requires
            edge_index < self@.edges.len(),
            self@.edges.len() <= u32::MAX,
        ensures
            overrides::edge_overrides(
                r,
                overrides::target_attrs(
                    self@.annotations,
                    TargetView::Edge {
                        from: self@.edges[edge_index as int].start,
                        to: self@.edges[edge_index as int].end,
                        ordinal: edge_ordinal_of(self@.edges, edge_index as int),
                    },
                ),
            ),
    {
        assert(self@.edges[edge_index as int] == self.edges@[edge_index as int]@);
        let ordinal: u32 = self.edge_ordinal(edge_index);
        let t = FlowAnnotationTarget::Edge {
            from: self.edges[edge_index].start.clone(),
            to: self.edges[edge_index].end.clone(),
            ordinal,
        };
        let a = collect_annotation_attrs(&self.annotations, &t);
        read_edge_overrides(&a)
    }

    /// What the annotations say of an edge that the database does not hold itself: it
    /// counts as the last of those between its nodes, or as the first where there is
    /// none.
    pub fn loose_edge_annotation_overrides(&self, edge: &FlowEdge) -> (r: EdgeAnnotationOverrides)
        requires
            self@.edges.len() <= u32::MAX,
        ensures
            overrides::edge_overrides(
                r,
                overrides::target_attrs(
                    self@.annotations,
                    TargetView::Edge {
                        from: edge@.start,
                        to: edge@.end,
                        ordinal: loose_ordinal(self@.edges, edge@),
                    },
                ),
            ),
    {
        let n: usize = count_parallel(&self.edges, &edge.start, &edge.end, self.edges.len());
        let ordinal: u32 = if n == 0 {
            1
        } else {
            n as u32
        };
        let t = FlowAnnotationTarget::Edge {
            from: edge.start.clone(),
            to: edge.end.clone(),
            ordinal,
        };
        let a = collect_annotation_attrs(&self.annotations, &t);
        read_edge_overrides(&a)
    }

    pub fn group_annotation_overrides(&self, group_id: &str) -> (r: GroupAnnotationOverrides)
        ensures
            overrides::group_overrides(r, overrides::target_attrs(self@.annotations, TargetView::Group(group_id@))),
    {
        let t = FlowAnnotationTarget::Group { id: group_id.to_owned() };
        let a = collect_annotation_attrs(&self.annotations, &t);
        read_group_overrides(&a)
    }
}

// ── nodes ───────────────────────────────────────────────────────────────────

/// The text of a label: without surrounding white space and quotes.
pub open spec fn label_text(t: Seq<char>) -> Seq<char> {
    let s = text::trim(t);
    if s.len() >= 2 && s[0] == '"' && s.last() == '"' {
        s.subrange(1, s.len() - 1)
    } else {
        s
    }
}

fn read_label(t: &str) -> (r: String)
    ensures
        r@ == label_text(t@),
{
    let c = chars_of(t);
    let s = trimmed(&c);
    let n: usize = s.len();
    if n >= 2 && s[0] == '"' && s[n - 1] == '"' {
        string_of(slice_subrange(s, 1, n - 1))
    } else {
        string_of(s)
    }
}

/// What a reader says of a node.
pub struct VertexUpdate {
    pub text: Option<(Seq<char>, FlowTextType)>,
    pub shape: Option<ShapeView>,
    pub styles: Seq<Seq<char>>,
    pub classes: Seq<Seq<char>>,
    pub dir: Option<Seq<char>>,
}

/// The node `base`, known as `id`, with an update: what it gives replaces, styles
/// and classes are added, and the id stands for a text where there is none.
pub open spec fn updated(base: VertexView, id: Seq<char>, u: VertexUpdate) -> VertexView {
    VertexView {
        text: match u.text {
            Some((t, _)) => Some(label_text(t)),
            None => match base.text {
                Some(t) => Some(t),
                None => Some(id),
            },
        },
        label_type: match u.text {
            Some((_, k)) => k,
            None => base.label_type,
        },
        vertex_type: match u.shape {
            Some(s) => Some(s),
            None => base.vertex_type,
        },
        styles: base.styles + u.styles,
        classes: base.classes + u.classes,
        dir: match u.dir {
            Some(d) => Some(d),
            None => base.dir,
        },
        ..base
    }
}

/// The node `id` as it is before an update.
pub open spec fn base_vertex(v: FlowView, id: Seq<char>) -> VertexView {
    if v.vertices.dom().contains(id) {
        v.vertices[id]
    } else {
        parts::new_vertex(id, "flowchart-"@ + id + "-"@ + text::signed_dec(v.vertex_counter))
    }
}

/// The chart with the node `id` added or updated; a blank id changes nothing.
pub open spec fn with_vertex(v: FlowView, id: Seq<char>, u: VertexUpdate) -> FlowView {
    let id = text::trim(id);
    if id.len() == 0 {
        v
    } else {
        FlowView {
            vertices: v.vertices.insert(id, updated(base_vertex(v, id), id, u)),
            vertex_order: if v.vertices.dom().contains(id) {
                v.vertex_order
            } else {
                v.vertex_order.push(id)
            },
            vertex_counter: v.vertex_counter + 1,
            ..v
        }
    }
}

/// An update with nothing but a text and a shape.
pub open spec fn simple_update(text: Option<Seq<char>>, shape: Option<ShapeView>) -> VertexUpdate {
    VertexUpdate {
        text: match text {
            Some(t) => Some((t, FlowTextType::Text)),
            None => None,
        },
        shape,
        styles: Seq::empty(),
        classes: Seq::empty(),
        dir: None,
    }
}

proof fn lemma_order_push(v: FlowView, w: FlowView, id: Seq<char>)
    requires
        ordered(v),
        !v.vertices.dom().contains(id),
        w.vertex_order == v.vertex_order.push(id),
        w.vertices.dom() == v.vertices.dom().insert(id),
        w.subgraph_lookup == v.subgraph_lookup,
        w.subgraphs == v.subgraphs,
    ensures
        ordered(w),
{
    assert(!v.vertex_order.contains(id));
    assert forall|k: Seq<char>| w.vertices.dom().contains(k) == #[trigger] w.vertex_order.contains(
        k,
    ) by {
        if v.vertex_order.contains(k) {
            let i = choose|i: int| 0 <= i < v.vertex_order.len() && v.vertex_order[i] == k;
            assert(w.vertex_order[i] == k);
        }
        if w.vertex_order.contains(k) {
            let i = choose|i: int| 0 <= i < w.vertex_order.len() && w.vertex_order[i] == k;
            if i < v.vertex_order.len() {
                assert(v.vertex_order[i] == k);
            }
        }
        assert(w.vertex_order[v.vertex_order.len() as int] == id);
    }
}

impl FlowchartDb {
    /// Update a node's label and the way it is read. Whether the node is there.
    pub fn set_vertex_text_obj(&mut self, id: &str, text: FlowText) -> (r: bool)
        requires
            old(self).wf(),
        ensures
            final(self).wf(),
            r == old(self)@.vertices.dom().contains(id@),
            final(self)@ == if r {
                FlowView {
                    vertices: old(self)@.vertices.insert(
                        id@,
                        VertexView {
                            text: Some(text@.0),
                            label_type: text@.1,
                            ..old(self)@.vertices[id@]
                        },
                    ),
                    ..old(self)@
                }
            } else {
                old(self)@
            },
    {
        let ghost v0 = self@;
        match self.vertices.get_mut(id) {
            Some(v) => {
                v.text = Some(text.text);
                v.label_type = text.text_type;
            },
            None => return false,
        }
        assert(self@.vertices.dom() =~= v0.vertices.dom());
        true
    }

    /// Whether a node is in any of the given subgraphs.
    pub fn node_exists(&self, subgraphs: &[FlowSubGraph], node_id: &str) -> (r: bool)
        ensures
            r == in_some(parts::subgraphs_view(subgraphs@), node_id@),
    {
        let c = chars_of(node_id);
        let ghost all = parts::subgraphs_view(subgraphs@);
        let mut i: usize = 0;
        while i < subgraphs.len()
            invariant
                all == parts::subgraphs_view(subgraphs@),
                c@ == node_id@,
                i <= subgraphs@.len(),
                forall|k: int| 0 <= k < i ==> !(#[trigger] all[k]).nodes.contains(node_id@),
            decreases subgraphs@.len() - i,
        {
            assert(all[i as int] == subgraphs@[i as int]@);
            if has_string(&subgraphs[i].nodes, &c) {
                assert(all[i as int].nodes.contains(node_id@));
                return true;
            }
            i += 1;
        }
        false
    }

    /// Remove from a subgraph the nodes that are in others already.
    pub fn make_uniq(&self, subgraph: &mut FlowSubGraph, existing: &[FlowSubGraph])
        ensures
            final(subgraph)@ == (SubgraphView {
                nodes: old(subgraph)@.nodes.filter(
                    |n: Seq<char>| !in_some(parts::subgraphs_view(existing@), n),
                ),
                ..old(subgraph)@
            }),
    {
        let ghost all = text::strings(subgraph.nodes@);
        let ghost p = |n: Seq<char>| !in_some(parts::subgraphs_view(existing@), n);
        let mut r: Vec<String> = Vec::new();
        let mut i: usize = 0;
        proof {
            reveal(Seq::filter);
        }
        assert(text::strings(r@) =~= Seq::empty());
        while i < subgraph.nodes.len()
            invariant
                *subgraph == *old(subgraph),
                all == text::strings(subgraph.nodes@),
                p == (|n: Seq<char>| !in_some(parts::subgraphs_view(existing@), n)),
                i <= subgraph.nodes@.len(),
                text::strings(r@) == all.take(i as int).filter(p),
            decreases subgraph.nodes@.len() - i,
        {
            proof {
                reveal(Seq::filter);
                assert(all.take(i + 1).drop_last() =~= all.take(i as int));
                assert(all.take(i + 1).last() == subgraph.nodes@[i as int]@);
            }
            if !self.node_exists(existing, subgraph.nodes[i].as_str()) {
                let a = subgraph.nodes[i].clone();
                let ghost before = text::strings(r@);
                r.push(a);
                assert(text::strings(r@) =~= before.push(a@));
            }
            i += 1;
        }
        assert(all.take(all.len() as int) =~= all);
        subgraph.nodes = r;
    }

    /// Add a node, or update the one of that id.
    pub fn add_vertex(
        &mut self,
        id: &str,
        text_obj: Option<FlowText>,
        vertex_type: Option<FlowVertexType>,
        styles: Vec<String>,
        classes: Vec<String>,
        dir: Option<&str>,
        _metadata: Option<&str>,
    )
        requires
            old(self).wf(),
            old(self)@.vertex_counter < u32::MAX,
        ensures
            final(self).wf(),
            final(self)@ == with_vertex(
                old(self)@,
                id@,
                (VertexUpdate {
                    text: parts::opt_flow_text(text_obj),
                    shape: parts::opt_shape(vertex_type),
                    styles: text::strings(styles@),
                    classes: text::strings(classes@),
                    dir: text::opt_str(dir),
                }),
            ),
    {
        let ghost v0 = self@;
        let ghost u = VertexUpdate {
            text: parts::opt_flow_text(text_obj),
            shape: parts::opt_shape(vertex_type),
            styles: text::strings(styles@),
            classes: text::strings(classes@),
            dir: text::opt_str(dir),
        };
        let c = chars_of(id);
        let t = trimmed(&c);
        if t.len() == 0 {
            return;
        }
        let id = string_of(t);
        let is_new = !self.vertices.contains_key(id.as_str());
        let mut vertex = match self.vertices.get(id.as_str()) {
            Some(v) => v.duplicate(),
            None => {
                let mut dom_id = "flowchart-".to_owned();
                dom_id.append(id.as_str());
                dom_id.append("-");
                push_dec(&mut dom_id, self.vertex_counter as i128);
                FlowVertex::new(id.as_str(), dom_id.as_str())
            },
        };
        let ghost base = vertex@;
        assert(base == base_vertex(v0, id@));
        match text_obj {
            Some(t) => {
                vertex.text = Some(read_label(t.text.as_str()));
                vertex.label_type = t.text_type;
            },
            None => {
                if vertex.text.is_none() {
                    vertex.text = Some(id.clone());
                }
            },
        }
        match vertex_type {
            Some(vt) => {
                vertex.vertex_type = Some(vt);
            },
            None => {},
        }
        append_strings(&mut vertex.styles, &styles);
        append_strings(&mut vertex.classes, &classes);
        match dir {
            Some(d) => {
                vertex.dir = Some(d.to_owned());
            },
            None => {},
        }
        if is_new {
            let ghost before = text::strings(self.vertex_order@);
            self.vertex_order.push(id.clone());
            assert(text::strings(self.vertex_order@) =~= before.push(id@));
        }
        self.vertex_counter = self.vertex_counter + 1;
        self.vertices.insert(id.as_str(), vertex);
        proof {
            assert(self@ == with_vertex(v0, c@, u));
            if is_new {
                assert(self@.vertices.dom() =~= v0.vertices.dom().insert(id@));
                lemma_order_push(v0, self@, id@);
            } else {
                assert(self@.vertices.dom() =~= v0.vertices.dom());
            }
        }
    }

    /// Add a node by its id, with an optional text and shape.
    pub fn add_vertex_simple(
        &mut self,
        id: &str,
        text: Option<&str>,
        vertex_type: Option<FlowVertexType>,
    )
        requires
            old(self).wf(),
            old(self)@.vertex_counter < u32::MAX,
        ensures
            final(self).wf(),
            final(self)@ == with_vertex(
                old(self)@,
                id@,
                simple_update(text::opt_str(text), parts::opt_shape(vertex_type)),
            ),
    {
        let text_obj = match text {
            Some(t) => Some(FlowText::new(t)),
            None => None,
        };
        let ghost none = Seq::<String>::empty();
        assert(text::strings(none) =~= Seq::empty());
        self.add_vertex(id, text_obj, vertex_type, Vec::new(), Vec::new(), None, None);
    }
}

/// Some of the subgraphs holds the node `n`.
pub open spec fn in_some(v: Seq<SubgraphView>, n: Seq<char>) -> bool {
    exists|i: int| 0 <= i < v.len() && (#[trigger] v[i]).nodes.contains(n)
}

// ── links ───────────────────────────────────────────────────────────────────

/// Some edge has the id `id`.
pub open spec fn has_edge_id(v: Seq<EdgeView>, id: Seq<char>) -> bool {
    exists|i: int| 0 <= i < v.len() && (#[trigger] v[i]).id == Some(id)
}

/// The id that a new edge gets: the user's where it is given and free, else one made
/// of its ends and the number of edges between them.
pub open spec fn new_edge_id(
    v: Seq<EdgeView>,
    start: Seq<char>,
    end: Seq<char>,
    id: Option<Seq<char>>,
) -> (Seq<char>, bool) {
    let made = "L-"@ + start + "-"@ + end + "-"@ + text::signed_dec(
        parallel(v, start, end, v.len() as int) as int,
    );
    match id {
        Some(user) => if has_edge_id(v, user) {
            (made, false)
        } else {
            (user, true)
        },
        None => (made, false),
    }
}

/// A new edge of the chart `v`.
pub open spec fn linked_edge(
    v: FlowView,
    start: Seq<char>,
    end: Seq<char>,
    link: Option<LinkView>,
    id: Option<Seq<char>>,
) -> EdgeView {
    let base = EdgeView { interpolate: v.default_interpolate, ..parts::new_edge(start, end) };
    let (edge_id, user) = new_edge_id(v.edges, start, end, id);
    let named = EdgeView { id: Some(edge_id), is_user_defined_id: user, ..base };
    match link {
        None => named,
        Some(l) => EdgeView {
            text: match l.text {
                Some((t, _)) => label_text(t),
                None => base.text,
            },
            label_type: match l.text {
                Some((_, k)) => k,
                None => base.label_type,
            },
            edge_type: l.link_type,
            stroke: l.stroke,
            length: match l.length {
                Some(n) => Some(
                    if n > 10 {
                        10u32
                    } else {
                        n
                    },
                ),
                None => None,
            },
            ..named
        },
    }
}

/// The chart with a link added.
pub open spec fn with_link(
    v: FlowView,
    start: Seq<char>,
    end: Seq<char>,
    link: Option<LinkView>,
    id: Option<Seq<char>>,
) -> FlowView {
    FlowView { edges: v.edges.push(linked_edge(v, start, end, link, id)), ..v }
}

/// The id of a link.
pub open spec fn link_id(link: Option<LinkView>) -> Option<Seq<char>> {
    match link {
        Some(l) => l.id,
        None => None,
    }
}

/// The chart with links from the start number `si` to the first `n` ends. Only the
/// link from the last start to the first end gets the user's id.
pub open spec fn with_links_from(
    v: FlowView,
    starts: Seq<Seq<char>>,
    si: int,
    ends: Seq<Seq<char>>,
    n: int,
    link: Option<LinkView>,
) -> FlowView
    decreases n,
{
    if n <= 0 {
        v
    } else {
        let w = with_links_from(v, starts, si, ends, n - 1, link);
        let id = if si == starts.len() - 1 && n == 1 {
            link_id(link)
        } else {
            None
        };
        with_link(w, starts[si], ends[n - 1], link, id)
    }
}

/// The chart with links from the first `n` starts to all ends.
pub open spec fn with_links(
    v: FlowView,
    starts: Seq<Seq<char>>,
    n: int,
    ends: Seq<Seq<char>>,
    link: Option<LinkView>,
) -> FlowView
    decreases n,
{
    if n <= 0 {
        v
    } else {
        with_links_from(
            with_links(v, starts, n - 1, ends, link),
            starts,
            n - 1,
            ends,
            ends.len() as int,
            link,
        )
    }
}

/// The link that an arrow with a text and an id makes.
pub open spec fn arrow_link(
    arrow: Seq<char>,
    text: Option<Seq<char>>,
    id: Option<Seq<char>>,
) -> LinkView {
    LinkView {
        link_type: Some(arrow_ends(text::trim(arrow))),
        stroke: arrow_stroke(text::trim(arrow)),
        length: Some(arrow_length(text::trim(arrow)) as u32),
        text: match text {
            Some(t) => Some((t, FlowTextType::Text)),
            None => None,
        },
        id,
    }
}

/// The chart with the node `id` added where it is not there.
pub open spec fn ensured(v: FlowView, id: Seq<char>) -> FlowView {
    if v.vertices.dom().contains(id) {
        v
    } else {
        with_vertex(v, id, simple_update(None, None))
    }
}

/// The views of borrowed strings.
pub open spec fn strs(v: Seq<&str>) -> Seq<Seq<char>> {
    Seq::new(v.len(), |i: int| v[i]@)
}

/// The view of an optional link.
pub open spec fn opt_link(l: Option<&FlowLink>) -> Option<LinkView> {
    match l {
        Some(l) => Some(l@),
        None => None,
    }
}

fn find_edge_id(v: &Vec<FlowEdge>, id: &str) -> (r: bool)
    ensures
        r == has_edge_id(parts::edges_view(v@), id@),
{
    let ghost all = parts::edges_view(v@);
    let mut i: usize = 0;
    while i < v.len()
        invariant
            all == parts::edges_view(v@),
            i <= v@.len(),
            forall|k: int| 0 <= k < i ==> (#[trigger] all[k]).id != Some(id@),
        decreases v@.len() - i,
    {
        assert(all[i as int] == v@[i as int]@);
        match &v[i].id {
            Some(e) => {
                if names(Some(id), e) {
                    assert(all[i as int].id == Some(id@));
                    return true;
                }
            },
            None => {},
        }
        i += 1;
    }
    false
}

impl FlowchartDb {
    /// Add an edge between two nodes.
    fn add_single_link(
        &mut self,
        start: &str,
        end: &str,
        link_data: Option<&FlowLink>,
        id: Option<&str>,
    )
        requires
            old(self).wf(),
        ensures
            final(self).wf(),
            final(self)@ == with_link(old(self)@, start@, end@, opt_link(link_data), text::opt_str(id)),
    {
        let ghost v0 = self@;
        let mut edge = FlowEdge::new(start, end);
        edge.interpolate = copy_opt(&self.default_interpolate);
        match link_data {
            Some(link) => {
                match &link.text {
                    Some(t) => {
                        edge.text = read_label(t.text.as_str());
                        edge.label_type = t.text_type;
                    },
                    None => {},
                }
                edge.edge_type = copy_opt(&link.link_type);
                edge.stroke = link.stroke;
                edge.length = match link.length {
                    Some(n) => Some(
                        if n > 10 {
                            10
                        } else {
                            n
                        },
                    ),
                    None => None,
                };
            },
            None => {},
        }
        let mut user = false;
        match id {
            Some(u) => {
                if !find_edge_id(&self.edges, u) {
                    edge.id = Some(u.to_owned());
                    edge.is_user_defined_id = true;
                    user = true;
                }
            },
            None => {},
        }
        if !user {
            let s = start.to_owned();
            let e = end.to_owned();
            let count: usize = count_parallel(&self.edges, &s, &e, self.edges.len());
            let mut made = "L-".to_owned();
            made.append(start);
            made.append("-");
            made.append(end);
            made.append("-");
            push_dec(&mut made, count as i128);
            edge.id = Some(made);
        }
        assert(edge@ == linked_edge(v0, start@, end@, opt_link(link_data), text::opt_str(id)));
        self.edges.push(edge);
        assert(self@.edges =~= v0.edges.push(edge@));
    }

    /// Add links from every start to every end.
    pub fn add_link(&mut self, starts: &[&str], ends: &[&str], link_data: Option<&FlowLink>)
        requires
            old(self).wf(),
        ensures
            final(self).wf(),
            final(self)@ == with_links(
                old(self)@,
                strs(starts@),
                starts@.len() as int,
                strs(ends@),
                opt_link(link_data),
            ),
    {
        let ghost ss = strs(starts@);
        let ghost es = strs(ends@);
        let ghost l = opt_link(link_data);
        let n: usize = starts.len();
        let mut si: usize = 0;
        while si < n
            invariant
                n == starts@.len(),
                ss == strs(starts@),
                es == strs(ends@),
                l == opt_link(link_data),
                si <= n,
                self.wf(),
                self@ == with_links(old(self)@, ss, si as int, es, l),
            decreases n - si,
        {
            let ghost v1 = self@;
            let mut ei: usize = 0;
            while ei < ends.len()
                invariant
                    n == starts@.len(),
                    ss == strs(starts@),
                    es == strs(ends@),
                    l == opt_link(link_data),
                    si < n,
                    ei <= ends@.len(),
                    self.wf(),
                    self@ == with_links_from(v1, ss, si as int, es, ei as int, l),
                decreases ends@.len() - ei,
            {
                let id = if si + 1 == n && ei == 0 {
                    match link_data {
                        Some(link) => match &link.id {
                            Some(s) => Some(s.as_str()),
                            None => None,
                        },
                        None => None,
                    }
                } else {
                    None
                };
                assert(ss[si as int] == starts@[si as int]@);
                assert(es[ei as int] == ends@[ei as int]@);
                self.add_single_link(starts[si], ends[ei], link_data, id);
                ei += 1;
            }
            si += 1;
        }
    }

    /// Add an edge between two nodes, which are added where they are not there.
    pub fn add_edge(
        &mut self,
        start: &str,
        end: &str,
        arrow: &str,
        text: Option<&str>,
        link_id: Option<&str>,
    )
        requires
            old(self).wf(),
            old(self)@.vertex_counter + 1 < u32::MAX,
        ensures
            final(self).wf(),
            final(self)@ == with_link(
                ensured(ensured(old(self)@, start@), end@),
                start@,
                end@,
                Some(arrow_link(arrow@, text::opt_str(text), text::opt_str(link_id))),
                text::opt_str(link_id),
            ),
    {
        if !self.vertices.contains_key(start) {
            self.add_vertex_simple(start, None, None);
        }
        if !self.vertices.contains_key(end) {
            self.add_vertex_simple(end, None, None);
        }
        let (edge_type, stroke, length) = parse_arrow(arrow);
        let link = FlowLink {
            text: match text {
                Some(t) => Some(FlowText::new(t)),
                None => None,
            },
            id: own_opt(link_id),
            link_type: Some(edge_type),
            stroke,
            length: Some(length),
        };
        assert(link@ == arrow_link(arrow@, text::opt_str(text), text::opt_str(link_id)));
        self.add_single_link(start, end, Some(&link), link_id);
    }
}

// ── link styles ─────────────────────────────────────────────────────────────

/// The chart with the interpolation `how` set where `pos` says: for all edges that
/// have none and as the default, or for one edge.
pub open spec fn with_interpolate(v: FlowView, pos: Seq<char>, how: Seq<char>) -> FlowView {
    if pos == "default"@ {
        FlowView {
            default_interpolate: Some(how),
            edges: v.edges.map_values(
                |e: EdgeView|
                    if e.interpolate is None {
                        EdgeView { interpolate: Some(how), ..e }
                    } else {
                        e
                    },
            ),
            ..v
        }
    } else {
        match text::parse_unsigned(pos, usize::MAX as int) {
            Some(i) => if i < v.edges.len() {
                FlowView {
                    edges: v.edges.update(
                        i,
                        EdgeView { interpolate: Some(how), ..v.edges[i] },
                    ),
                    ..v
                }
            } else {
                v
            },
            None => v,
        }
    }
}

/// The chart with the interpolation `how` set at each of the first `n` positions.
pub open spec fn with_interpolates(
    v: FlowView,
    positions: Seq<Seq<char>>,
    n: int,
    how: Seq<char>,
) -> FlowView
    decreases n,
{
    if n <= 0 {
        v
    } else {
        with_interpolate(with_interpolates(v, positions, n - 1, how), positions[n - 1], how)
    }
}

/// A style of the list begins with `fill`.
pub open spec fn has_fill(styles: Seq<Seq<char>>) -> bool {
    exists|i: int| 0 <= i < styles.len() && text::starts_with(#[trigger] styles[i], "fill"@)
}

/// The styles of a link: an explicit fill, or none.
pub open spec fn link_styles(styles: Seq<Seq<char>>) -> Seq<Seq<char>> {
    if has_fill(styles) {
        styles
    } else {
        styles.push("fill:none"@)
    }
}

/// The chart with the styles of the link at `pos` set; the largest position stands
/// for the default.
pub open spec fn with_link_style(v: FlowView, pos: usize, styles: Seq<Seq<char>>) -> FlowView {
    if pos == usize::MAX {
        FlowView { default_style: Some(styles), ..v }
    } else if pos < v.edges.len() {
        FlowView {
            edges: v.edges.update(
                pos as int,
                EdgeView { style: link_styles(styles), ..v.edges[pos as int] },
            ),
            ..v
        }
    } else {
        v
    }
}

/// The chart with the styles of the links at the first `n` positions set.
pub open spec fn with_link_style_at(
    v: FlowView,
    positions: Seq<usize>,
    n: int,
    styles: Seq<Seq<char>>,
) -> FlowView
    decreases n,
{
    if n <= 0 {
        v
    } else {
        with_link_style(with_link_style_at(v, positions, n - 1, styles), positions[n - 1], styles)
    }
}

fn fill_interpolate(v: &mut Vec<FlowEdge>, how: &str)
    ensures
        parts::edges_view(final(v)@) == parts::edges_view(old(v)@).map_values(
            |e: EdgeView|
                if e.interpolate is None {
                    EdgeView { interpolate: Some(how@), ..e }
                } else {
                    e
                },
        ),
{
    let ghost all = parts::edges_view(v@);
    let ghost f = |e: EdgeView|
        if e.interpolate is None {
            EdgeView { interpolate: Some(how@), ..e }
        } else {
            e
        };
    let mut i: usize = 0;
    while i < v.len()
        invariant
            all == parts::edges_view(old(v)@),
            f == (|e: EdgeView|
                if e.interpolate is None {
                    EdgeView { interpolate: Some(how@), ..e }
                } else {
                    e
                }),
            v@.len() == all.len(),
            i <= v@.len(),
            forall|k: int| 0 <= k < i ==> (#[trigger] v@[k])@ == f(all[k]),
            forall|k: int| i <= k < v@.len() ==> (#[trigger] v@[k])@ == all[k],
        decreases v@.len() - i,
    {
        assert(v@[i as int]@ == all[i as int]);
        if v[i].interpolate.is_none() {
            let e = &mut v[i];
            e.interpolate = Some(how.to_owned());
        }
        i += 1;
    }
    assert(parts::edges_view(v@) =~= all.map_values(f));
}

fn find_fill(v: &Vec<String>) -> (r: bool)
    ensures
        r == has_fill(text::strings(v@)),
{
    let ghost all = text::strings(v@);
    let mut i: usize = 0;
    while i < v.len()
        invariant
            all == text::strings(v@),
            i <= v@.len(),
            forall|k: int| 0 <= k < i ==> !text::starts_with(#[trigger] all[k], "fill"@),
        decreases v@.len() - i,
    {
        let c = chars_of(v[i].as_str());
        assert(all[i as int] == c@);
        if has_prefix(&c, "fill") {
            return true;
        }
        i += 1;
    }
    false
}

impl FlowchartDb {
    /// Set the interpolation of links: of all (`default`), or by index.
    pub fn update_link_interpolate(&mut self, positions: &[String], interpolate: &str)
        requires
            old(self).wf(),
        ensures
            final(self).wf(),
            final(self)@ == with_interpolates(
                old(self)@,
                text::strings(positions@),
                positions@.len() as int,
                interpolate@,
            ),
    {
        let ghost ps = text::strings(positions@);
        let mut n: usize = 0;
        while n < positions.len()
            invariant
                ps == text::strings(positions@),
                n <= positions@.len(),
                self.wf(),
                self@ == with_interpolates(old(self)@, ps, n as int, interpolate@),
            decreases positions@.len() - n,
        {
            let ghost v1 = self@;
            let c = chars_of(positions[n].as_str());
            assert(ps[n as int] == c@);
            if is(&c, "default") {
                self.default_interpolate = Some(interpolate.to_owned());
                fill_interpolate(&mut self.edges, interpolate);
            } else {
                match unsigned_of(&c, usize::MAX as u64) {
                    Some(x) => {
                        let i: usize = x as usize;
                        if i < self.edges.len() {
                            let e = &mut self.edges[i];
                            e.interpolate = Some(interpolate.to_owned());
                            assert(self@.edges =~= v1.edges.update(
                                i as int,
                                EdgeView { interpolate: Some(interpolate@), ..v1.edges[i as int] },
                            ));
                        }
                    },
                    None => {},
                }
            }
            assert(self@ == with_interpolate(v1, c@, interpolate@));
            n += 1;
        }
    }

    /// Set the styles of links by index; the largest index stands for the default.
    pub fn update_link(&mut self, positions: &[usize], style: &[String])
        requires
            old(self).wf(),
        ensures
            final(self).wf(),
            final(self)@ == with_link_style_at(
                old(self)@,
                positions@,
                positions@.len() as int,
                text::strings(style@),
            ),
    {
        let mut n: usize = 0;
        while n < positions.len()
            invariant
                n <= positions@.len(),
                self.wf(),
                self@ == with_link_style_at(old(self)@, positions@, n as int, text::strings(style@)),
            decreases positions@.len() - n,
        {
            let ghost v1 = self@;
            let pos: usize = positions[n];
            if pos == usize::MAX {
                self.default_style = Some(copy_strings(style));
            } else if pos < self.edges.len() {
                let mut styles = copy_strings(style);
                if !find_fill(&styles) {
                    let ghost before = text::strings(styles@);
                    styles.push("fill:none".to_owned());
                    assert(text::strings(styles@) =~= before.push("fill:none"@));
                }
                let e = &mut self.edges[pos];
                e.style = styles;
                assert(self@.edges =~= v1.edges.update(
                    pos as int,
                    EdgeView { style: link_styles(text::strings(style@)), ..v1.edges[pos as int] },
                ));
            }
            assert(self@ == with_link_style(v1, pos, text::strings(style@)));
            n += 1;
        }
    }

    /// Set the styles that links have by default.
    pub fn set_default_link_style(&mut self, styles: &[String])
        requires
            old(self).wf(),
        ensures
            final(self).wf(),
            final(self)@ == (FlowView { default_style: Some(text::strings(styles@)), ..old(self)@ }),
    {
        self.default_style = Some(copy_strings(styles));
    }

    /// Set the styles of the link at `idx`, where there is one.
    pub fn set_link_style(&mut self, idx: usize, styles: &[String])
        requires
            old(self).wf(),
        ensures
            final(self).wf(),
            final(self)@ == if idx < old(self)@.edges.len() {
                FlowView {
                    edges: old(self)@.edges.update(
                        idx as int,
                        EdgeView { style: text::strings(styles@), ..old(self)@.edges[idx as int] },
                    ),
                    ..old(self)@
                }
            } else {
                old(self)@
            },
    {
        let ghost v1 = self@;
        if idx < self.edges.len() {
            let e = &mut self.edges[idx];
            e.style = copy_strings(styles);
            assert(self@.edges =~= v1.edges.update(
                idx as int,
                EdgeView { style: text::strings(styles@), ..v1.edges[idx as int] },
            ));
        }
    }

    /// Set the interpolation that links have by default.
    pub fn set_default_link_interpolate(&mut self, interpolate: &str)
        requires
            old(self).wf(),
        ensures
            final(self).wf(),
            final(self)@ == (FlowView {
                default_interpolate: Some(interpolate@),
                ..old(self)@
            }),
    {
        self.default_interpolate = Some(interpolate.to_owned());
    }
}

// ── classes ─────────────────────────────────────────────────────────────────

/// The non-empty texts of `v`.
pub open spec fn non_blank(v: Seq<Seq<char>>) -> Seq<Seq<char>> {
    v.filter(|s: Seq<char>| s.len() > 0)
}

/// The separate styles that `styles` list: commas separate, unless escaped.
pub open spec fn class_styles(styles: Seq<Seq<char>>) -> Seq<Seq<char>> {
    let all = text::join(styles, ","@);
    let marked = text::replace(text::replace(all, "\\,"@, "\0"@), ","@, ";"@);
    non_blank(text::split(text::replace(marked, "\0"@, ","@), ';'))
}

/// The class `c` with the first `n` of the styles added. Those that speak of a
/// colour are text styles too, with their fill as a background.
pub open spec fn styled_class(c: ClassView, styles: Seq<Seq<char>>, n: int) -> ClassView
    decreases n,
{
    if n <= 0 {
        c
    } else {
        let d = styled_class(c, styles, n - 1);
        let s = styles[n - 1];
        ClassView {
            styles: d.styles.push(s),
            text_styles: if text::find_text(s, "color"@) >= 0 {
                d.text_styles.push(text::replace(s, "fill"@, "bgFill"@))
            } else {
                d.text_styles
            },
            ..d
        }
    }
}

/// The classes with the styles added to the classes of the first `n` ids.
pub open spec fn with_class_styles(
    m: Map<Seq<char>, ClassView>,
    ids: Seq<Seq<char>>,
    n: int,
    styles: Seq<Seq<char>>,
) -> Map<Seq<char>, ClassView>
    decreases n,
{
    if n <= 0 {
        m
    } else {
        let w = with_class_styles(m, ids, n - 1, styles);
        let id = text::trim(ids[n - 1]);
        let base = if w.dom().contains(id) {
            w[id]
        } else {
            parts::new_class(id)
        };
        w.insert(id, styled_class(base, styles, styles.len() as int))
    }
}

fn read_class_styles(styles: &[String]) -> (r: Vec<String>)
    ensures
        text::strings(r@) == class_styles(text::strings(styles@)),
{
    let all = join_strings(styles, ",");
    let c = chars_of(all.as_str());
    let c1 = replace_text(&c, "\\,", "\0");
    let c2 = replace_text(&c1, ",", ";");
    let c3 = replace_text(&c2, "\0", ",");
    let parts = split_at_char(&c3, ';');
    let ghost sp = text::slices(parts@);
    let ghost p = |s: Seq<char>| s.len() > 0;
    let mut r: Vec<String> = Vec::new();
    let mut i: usize = 0;
    proof {
        reveal(Seq::filter);
    }
    assert(text::strings(r@) =~= Seq::empty());
    while i < parts.len()
        invariant
            sp == text::slices(parts@),
            p == (|s: Seq<char>| s.len() > 0),
            i <= parts@.len(),
            text::strings(r@) == sp.take(i as int).filter(p),
        decreases parts@.len() - i,
    {
        proof {
            reveal(Seq::filter);
            assert(sp.take(i + 1).drop_last() =~= sp.take(i as int));
            assert(sp.take(i + 1).last() == parts@[i as int]@);
        }
        if parts[i].len() > 0 {
            let a = string_of(parts[i]);
            let ghost before = text::strings(r@);
            r.push(a);
            assert(text::strings(r@) =~= before.push(a@));
        }
        i += 1;
    }
    assert(sp.take(sp.len() as int) =~= sp);
    r
}

fn style_class(c: &mut FlowClass, styles: &Vec<String>)
    ensures
        final(c)@ == styled_class(old(c)@, text::strings(styles@), styles@.len() as int),
{
    let ghost all = text::strings(styles@);
    let mut n: usize = 0;
    while n < styles.len()
        invariant
            all == text::strings(styles@),
            n <= styles@.len(),
            c@ == styled_class(old(c)@, all, n as int),
        decreases styles@.len() - n,
    {
        let ghost before = c@;
        let s = chars_of(styles[n].as_str());
        assert(all[n as int] == s@);
        if has_text(&s, "color") {
            let t = replace_text(&s, "fill", "bgFill");
            let st = string_of(&t);
            c.text_styles.push(st);
            assert(text::strings(c.text_styles@) =~= before.text_styles.push(st@));
        }
        c.styles.push(styles[n].clone());
        assert(text::strings(c.styles@) =~= before.styles.push(s@));
        n += 1;
    }
}

/// The chart with the class `class` set on what is called `id`: a node, edges, a
/// subgraph.
pub open spec fn with_class(v: FlowView, id: Seq<char>, class: Seq<char>) -> FlowView {
    FlowView {
        vertices: if v.vertices.dom().contains(id) {
            v.vertices.insert(
                id,
                VertexView {
                    classes: v.vertices[id].classes.push(class),
                    ..v.vertices[id]
                },
            )
        } else {
            v.vertices
        },
        edges: v.edges.map_values(
            |e: EdgeView|
                if e.id == Some(id) {
                    EdgeView { classes: e.classes.push(class), ..e }
                } else {
                    e
                },
        ),
        subgraphs: if v.subgraph_lookup.dom().contains(id) && v.subgraph_lookup[id]
            < v.subgraphs.len() {
            let i = v.subgraph_lookup[id] as int;
            v.subgraphs.update(
                i,
                SubgraphView {
                    classes: v.subgraphs[i].classes.push(class),
                    ..v.subgraphs[i]
                },
            )
        } else {
            v.subgraphs
        },
        ..v
    }
}

/// The chart with the class set on the first `n` ids.
pub open spec fn with_classes(v: FlowView, ids: Seq<Seq<char>>, n: int, class: Seq<char>) -> FlowView
    decreases n,
{
    if n <= 0 {
        v
    } else {
        with_class(with_classes(v, ids, n - 1, class), text::trim(ids[n - 1]), class)
    }
}

fn class_edges(v: &mut Vec<FlowEdge>, id: &str, class: &str)
    ensures
        parts::edges_view(final(v)@) == parts::edges_view(old(v)@).map_values(
            |e: EdgeView|
                if e.id == Some(id@) {
                    EdgeView { classes: e.classes.push(class@), ..e }
                } else {
                    e
                },
        ),
{
    let ghost all = parts::edges_view(v@);
    let ghost f = |e: EdgeView|
        if e.id == Some(id@) {
            EdgeView { classes: e.classes.push(class@), ..e }
        } else {
            e
        };
    let mut i: usize = 0;
    while i < v.len()
        invariant
            all == parts::edges_view(old(v)@),
            f == (|e: EdgeView|
                if e.id == Some(id@) {
                    EdgeView { classes: e.classes.push(class@), ..e }
                } else {
                    e
                }),
            v@.len() == all.len(),
            i <= v@.len(),
            forall|k: int| 0 <= k < i ==> (#[trigger] v@[k])@ == f(all[k]),
            forall|k: int| i <= k < v@.len() ==> (#[trigger] v@[k])@ == all[k],
        decreases v@.len() - i,
    {
        assert(v@[i as int]@ == all[i as int]);
        let hit = match &v[i].id {
            Some(e) => names(Some(id), e),
            None => false,
        };
        if hit {
            let e = &mut v[i];
            let ghost before = text::strings(e.classes@);
            e.classes.push(class.to_owned());
            assert(text::strings(e.classes@) =~= before.push(class@));
        }
        i += 1;
    }
    assert(parts::edges_view(v@) =~= all.map_values(f));
}

/// The styles of the first `n` of the classes that are defined.
pub open spec fn styles_of_classes(
    m: Map<Seq<char>, ClassView>,
    classes: Seq<Seq<char>>,
    n: int,
) -> Seq<Seq<char>>
    decreases n,
{
    if n <= 0 {
        Seq::empty()
    } else {
        let rest = styles_of_classes(m, classes, n - 1);
        if m.dom().contains(classes[n - 1]) {
            rest + m[classes[n - 1]].styles
        } else {
            rest
        }
    }
}

/// A style marked so that it overrides the theme's.
pub open spec fn important(s: Seq<char>) -> Seq<char> {
    let t = text::trim(s);
    if text::ends_with(t, "!important"@) {
        t
    } else {
        t + " !important"@
    }
}

/// The styles of a node: those of its classes, then its own.
pub open spec fn compiled_styles(m: Map<Seq<char>, ClassView>, v: VertexView) -> Option<Seq<char>> {
    let all = styles_of_classes(m, v.classes, v.classes.len() as int) + v.styles;
    if all.len() == 0 {
        None
    } else {
        Some(text::join(all.map_values(|s: Seq<char>| important(s)), ";"@))
    }
}

fn mark_important(s: &str) -> (r: String)
    ensures
        r@ == important(s@),
{
    let c = chars_of(s);
    let t = trimmed(&c);
    let mut m = string_of(t);
    if !has_suffix(t, "!important") {
        m.append(" !important");
    }
    m
}

proof fn lemma_still_ordered(v: FlowView, w: FlowView)
    requires
        ordered(v),
        w.vertices.dom() =~= v.vertices.dom(),
        w.vertex_order == v.vertex_order,
        w.subgraph_lookup == v.subgraph_lookup,
        w.subgraphs.len() == v.subgraphs.len(),
    ensures
        ordered(w),
{
}

impl FlowchartDb {
    /// Define classes, or add styles to them.
    pub fn add_class(&mut self, ids: &str, styles: &[String])
        requires
            old(self).wf(),
        ensures
            final(self).wf(),
            final(self)@ == (FlowView {
                classes: with_class_styles(
                    old(self)@.classes,
                    text::split(ids@, ','),
                    text::split(ids@, ',').len() as int,
                    class_styles(text::strings(styles@)),
                ),
                ..old(self)@
            }),
    {
        let processed = read_class_styles(styles);
        let c = chars_of(ids);
        let parts = split_at_char(&c, ',');
        let ghost sp = text::slices(parts@);
        let ghost st = text::strings(processed@);
        let ghost v0 = self@;
        let mut n: usize = 0;
        while n < parts.len()
            invariant
                sp == text::slices(parts@),
                st == text::strings(processed@),
                n <= parts@.len(),
                self.wf(),
                self@ == (FlowView {
                    classes: with_class_styles(v0.classes, sp, n as int, st),
                    ..v0
                }),
            decreases parts@.len() - n,
        {
            assert(sp[n as int] == parts@[n as int]@);
            let id = string_of(trimmed(parts[n]));
            let mut class = match self.classes.get(id.as_str()) {
                Some(x) => x.duplicate(),
                None => FlowClass::new(id.as_str()),
            };
            assert(st.len() == processed@.len());
            style_class(&mut class, &processed);
            let ghost v1 = self@;
            self.classes.insert(id.as_str(), class);
            proof {
                lemma_still_ordered(v1, self@);
            }
            n += 1;
        }
    }

    /// Set the direction of the flowchart.
    pub fn set_direction(&mut self, dir: &str)
        requires
            old(self).wf(),
        ensures
            final(self).wf(),
            final(self)@ == (FlowView { direction: Direction::named(dir@), ..old(self)@ }),
    {
        self.direction = Direction::parse(dir);
    }

    /// The direction of the flowchart by its name.
    pub fn get_direction(&self) -> (r: &'static str)
        ensures
            r@ == self@.direction.name(),
    {
        self.direction.as_str()
    }

    /// Set a class on what the comma-separated ids name.
    pub fn set_class(&mut self, ids: &str, class_name: &str)
        requires
            old(self).wf(),
        ensures
            final(self).wf(),
            final(self)@ == with_classes(
                old(self)@,
                text::split(ids@, ','),
                text::split(ids@, ',').len() as int,
                class_name@,
            ),
    {
        let c = chars_of(ids);
        let parts = split_at_char(&c, ',');
        let ghost sp = text::slices(parts@);
        let mut n: usize = 0;
        while n < parts.len()
            invariant
                sp == text::slices(parts@),
                n <= parts@.len(),
                self.wf(),
                self@ == with_classes(old(self)@, sp, n as int, class_name@),
            decreases parts@.len() - n,
        {
            let ghost v1 = self@;
            assert(sp[n as int] == parts@[n as int]@);
            let id = string_of(trimmed(parts[n]));
            match self.vertices.get_mut(id.as_str()) {
                Some(v) => {
                    let ghost before = text::strings(v.classes@);
                    v.classes.push(class_name.to_owned());
                    assert(text::strings(v.classes@) =~= before.push(class_name@));
                },
                None => {},
            }
            class_edges(&mut self.edges, id.as_str(), class_name);
            match self.subgraph_lookup.get(id.as_str()) {
                Some(i) => {
                    let i: usize = *i;
                    if i < self.subgraphs.len() {
                        let sg = &mut self.subgraphs[i];
                        let ghost before = text::strings(sg.classes@);
                        sg.classes.push(class_name.to_owned());
                        assert(text::strings(sg.classes@) =~= before.push(class_name@));
                    }
                },
                None => {},
            }
            assert(self@.subgraphs =~= with_class(v1, id@, class_name@).subgraphs);
            assert(self@.edges =~= with_class(v1, id@, class_name@).edges);
            assert(self@ == with_class(v1, id@, class_name@));
            proof {
                lemma_still_ordered(v1, self@);
            }
            n += 1;
        }
    }

    /// The styles of a node as one text: those of its classes, then its own, which
    /// take precedence.
    pub fn get_compiled_styles(&self, vertex: &FlowVertex) -> (r: Option<String>)
        requires
            self.wf(),
        ensures
            text::opt_text(r) == compiled_styles(self@.classes, vertex@),
    {
        let ghost cs = vertex@.classes;
        let mut all: Vec<String> = Vec::new();
        let mut n: usize = 0;
        assert(text::strings(all@) =~= Seq::empty());
        while n < vertex.classes.len()
            invariant
                self.wf(),
                cs == text::strings(vertex.classes@),
                n <= vertex.classes@.len(),
                text::strings(all@) == styles_of_classes(self@.classes, cs, n as int),
            decreases vertex.classes@.len() - n,
        {
            assert(cs[n as int] == vertex.classes@[n as int]@);
            match self.classes.get(vertex.classes[n].as_str()) {
                Some(c) => {
                    append_strings(&mut all, &c.styles);
                },
                None => {},
            }
            n += 1;
        }
        append_strings(&mut all, &vertex.styles);
        let ghost sv = text::strings(all@);
        assert(sv.len() == all@.len());
        if all.len() == 0 {
            return None;
        }
        let mut marked: Vec<String> = Vec::new();
        let mut i: usize = 0;
        assert(text::strings(marked@) =~= Seq::empty());
        while i < all.len()
            invariant
                sv == text::strings(all@),
                i <= all@.len(),
                text::strings(marked@) =~= sv.map_values(|s: Seq<char>| important(s)).take(i as int),
            decreases all@.len() - i,
        {
            let m = mark_important(all[i].as_str());
            let ghost before = text::strings(marked@);
            marked.push(m);
            assert(text::strings(marked@) =~= before.push(m@));
            assert(sv[i as int] == all@[i as int]@);
            i += 1;
        }
        assert(text::strings(marked@) =~= sv.map_values(|s: Seq<char>| important(s)));
        Some(join_strings(&marked, ";"))
    }
}

// ── subgraphs ───────────────────────────────────────────────────────────────

/// A subgraph with its nodes and direction.
pub open spec fn new_subgraph(
    nodes: Seq<Seq<char>>,
    id: Seq<char>,
    title: Seq<char>,
    dir: Seq<char>,
) -> SubgraphView {
    SubgraphView {
        id,
        title,
        label_type: "text"@,
        nodes,
        items: Seq::empty(),
        classes: Seq::empty(),
        dir: if dir.len() == 0 {
            None
        } else {
            Some(dir)
        },
        parent_id: None,
    }
}

/// The chart with a subgraph added.
pub open spec fn with_subgraph(
    v: FlowView,
    nodes: Seq<Seq<char>>,
    id: Seq<char>,
    title: Seq<char>,
    dir: Seq<char>,
) -> FlowView {
    FlowView {
        subgraphs: v.subgraphs.push(new_subgraph(nodes, id, title, dir)),
        subgraph_lookup: v.subgraph_lookup.insert(id, v.subgraphs.len() as usize),
        ..v
    }
}

fn subgraph_at(v: &mut Vec<FlowSubGraph>, i: usize) -> (r: &mut FlowSubGraph)
    requires
        i < old(v)@.len(),
    ensures
        r@ == parts::subgraphs_view(old(v)@)[i as int],
        parts::subgraphs_view(final(v)@) == parts::subgraphs_view(old(v)@).update(i as int, final(r)@),
{
    &mut v[i]
}

impl FlowchartDb {
    /// Add a subgraph.
    pub fn add_sub_graph(&mut self, nodes: Vec<String>, id: &str, title: &str, dir: &str)
        requires
            old(self).wf(),
        ensures
            final(self).wf(),
            final(self)@ == with_subgraph(old(self)@, text::strings(nodes@), id@, title@, dir@),
    {
        let ghost v0 = self@;
        let sg = FlowSubGraph {
            id: id.to_owned(),
            title: title.to_owned(),
            label_type: "text".to_owned(),
            nodes,
            items: Vec::new(),
            classes: Vec::new(),
            dir: if dir.unicode_len() == 0 {
                None
            } else {
                Some(dir.to_owned())
            },
            parent_id: None,
        };
        assert(sg@.items =~= Seq::empty());
        assert(sg@.classes =~= Seq::empty());
        assert(sg@ == new_subgraph(text::strings(nodes@), id@, title@, dir@));
        let idx: usize = self.subgraphs.len();
        self.subgraph_lookup.insert(id, idx);
        self.subgraphs.push(sg);
        assert(self@.subgraphs =~= v0.subgraphs.push(sg@));
        assert forall|k: Seq<char>| #[trigger] self@.subgraph_lookup.dom().contains(k) implies
            self@.subgraph_lookup[k] < self@.subgraphs.len() by {
            if k != id@ {
                assert(v0.subgraph_lookup.dom().contains(k));
            }
        }
    }

    /// Add a subgraph without nodes.
    pub fn add_subgraph(&mut self, id: &str, title: &str)
        requires
            old(self).wf(),
        ensures
            final(self).wf(),
            final(self)@ == with_subgraph(old(self)@, Seq::empty(), id@, title@, Seq::empty()),
    {
        proof {
            reveal_strlit("");
            assert(""@ =~= Seq::<char>::empty());
            assert(text::strings(Seq::<String>::empty()) =~= Seq::<Seq<char>>::empty());
        }
        self.add_sub_graph(Vec::new(), id, title, "");
    }

    /// Add a subgraph with its nodes.
    pub fn add_subgraph_with_nodes(&mut self, id: &str, title: &str, nodes: Vec<String>)
        requires
            old(self).wf(),
        ensures
            final(self).wf(),
            final(self)@ == with_subgraph(
                old(self)@,
                text::strings(nodes@),
                id@,
                title@,
                Seq::empty(),
            ),
    {
        proof {
            reveal_strlit("");
            assert(""@ =~= Seq::<char>::empty());
        }
        self.add_sub_graph(nodes, id, title, "");
    }

    /// Add a subgraph with its nodes and an optional direction.
    pub fn add_subgraph_with_dir(
        &mut self,
        id: &str,
        title: &str,
        nodes: Vec<String>,
        dir: Option<String>,
    )
        requires
            old(self).wf(),
        ensures
            final(self).wf(),
            final(self)@ == with_subgraph(
                old(self)@,
                text::strings(nodes@),
                id@,
                title@,
                match dir {
                    Some(d) => d@,
                    None => Seq::empty(),
                },
            ),
    {
        proof {
            reveal_strlit("");
            assert(""@ =~= Seq::<char>::empty());
        }
        match dir {
            Some(d) => self.add_sub_graph(nodes, id, title, d.as_str()),
            None => self.add_sub_graph(nodes, id, title, ""),
        }
    }

    pub fn push_top_level_item(&mut self, item: FlowSubGraphItem)
        requires
            old(self).wf(),
        ensures
            final(self).wf(),
            final(self)@ == (FlowView {
                top_level_items: old(self)@.top_level_items.push(item@),
                ..old(self)@
            }),
    {
        let ghost v0 = self@;
        self.top_level_items.push(item);
        assert(self@.top_level_items =~= v0.top_level_items.push(item@));
    }

    /// A subgraph to change, by its id.
    pub fn get_subgraph_mut(&mut self, id: &str) -> (r: Option<&mut FlowSubGraph>)
        requires
            old(self).wf(),
        ensures
            final(self).wf(),
            match r {
                Some(sg) => old(self)@.subgraph_lookup.dom().contains(id@) && sg@ == old(
                    self,
                )@.subgraphs[old(self)@.subgraph_lookup[id@] as int] && final(self)@ == (FlowView {
                    subgraphs: old(self)@.subgraphs.update(
                        old(self)@.subgraph_lookup[id@] as int,
                        final(sg)@,
                    ),
                    ..old(self)@
                }),
                None => !old(self)@.subgraph_lookup.dom().contains(id@) && final(self)@ == old(
                    self,
                )@,
            },
    {
        let i: usize = match self.subgraph_lookup.get(id) {
            Some(i) => *i,
            None => return None,
        };
        Some(subgraph_at(&mut self.subgraphs, i))
    }

    // ── clicks and tooltips ─────────────────────────────────────────────────

    /// A node to change, by its id.
    pub fn get_vertex_mut(&mut self, id: &str) -> (r: Option<&mut FlowVertex>)
        requires
            old(self).wf(),
        ensures
            final(self).wf(),
            match r {
                Some(v) => old(self)@.vertices.dom().contains(id@) && v@ == old(
                    self,
                )@.vertices[id@] && final(self)@ == (FlowView {
                    vertices: old(self)@.vertices.insert(id@, final(v)@),
                    ..old(self)@
                }),
                None => !old(self)@.vertices.dom().contains(id@) && final(self)@ == old(self)@,
            },
    {
        assert(forall|x: VertexView|
            self@.vertices.dom().contains(id@) ==> #[trigger] self@.vertices.insert(id@, x).dom()
                =~= self@.vertices.dom());
        self.vertices.get_mut(id)
    }

    /// Set the link that a click on a node follows.
    pub fn set_link(&mut self, id: &str, link: &str, target: Option<&str>)
        requires
            old(self).wf(),
        ensures
            final(self).wf(),
            final(self)@ == if old(self)@.vertices.dom().contains(id@) {
                FlowView {
                    vertices: old(self)@.vertices.insert(
                        id@,
                        VertexView {
                            link: Some(link@),
                            link_target: text::opt_str(target),
                            ..old(self)@.vertices[id@]
                        },
                    ),
                    ..old(self)@
                }
            } else {
                old(self)@
            },
    {
        let ghost v0 = self@;
        match self.vertices.get_mut(id) {
            Some(v) => {
                v.link = Some(link.to_owned());
                v.link_target = own_opt(target);
            },
            None => {},
        }
        assert(self@.vertices.dom() =~= v0.vertices.dom());
    }

    /// Mark a node as having a callback.
    pub fn set_click_event(&mut self, id: &str, _callback: &str)
        requires
            old(self).wf(),
        ensures
            final(self).wf(),
            final(self)@ == if old(self)@.vertices.dom().contains(id@) {
                FlowView {
                    vertices: old(self)@.vertices.insert(
                        id@,
                        VertexView { have_callback: true, ..old(self)@.vertices[id@] },
                    ),
                    ..old(self)@
                }
            } else {
                old(self)@
            },
    {
        let ghost v0 = self@;
        match self.vertices.get_mut(id) {
            Some(v) => {
                v.have_callback = true;
            },
            None => {},
        }
        assert(self@.vertices.dom() =~= v0.vertices.dom());
    }

    /// Set the tooltip of a node.
    pub fn set_tooltip(&mut self, id: &str, tooltip: &str)
        requires
            old(self).wf(),
        ensures
            final(self).wf(),
            final(self)@ == (FlowView {
                tooltips: old(self)@.tooltips.insert(id@, tooltip@),
                ..old(self)@
            }),
    {
        self.tooltips.insert(id, tooltip.to_owned());
    }

    // ── reading ─────────────────────────────────────────────────────────────

    /// All nodes.
    pub fn vertices(&self) -> (r: &Table<FlowVertex>)
        requires
            self.wf(),
        ensures
            r.wf(),
            r@ == self@.vertices,
    {
        &self.vertices
    }

    /// All nodes.
    pub fn get_vertices(&self) -> (r: &Table<FlowVertex>)
        requires
            self.wf(),
        ensures
            r.wf(),
            r@ == self@.vertices,
    {
        &self.vertices
    }

    /// The ids of the nodes in the order of their declaration.
    pub fn vertex_order(&self) -> (r: &[String])
        ensures
            text::strings(r@) == self@.vertex_order,
    {
        self.vertex_order.as_slice()
    }

    pub fn top_level_items(&self) -> (r: &[FlowSubGraphItem])
        ensures
            parts::items_view(r@) == self@.top_level_items,
    {
        self.top_level_items.as_slice()
    }

    /// All edges.
    pub fn edges(&self) -> (r: &[FlowEdge])
        ensures
            parts::edges_view(r@) == self@.edges,
    {
        self.edges.as_slice()
    }

    /// All edges.
    pub fn get_edges(&self) -> (r: &[FlowEdge])
        ensures
            parts::edges_view(r@) == self@.edges,
    {
        self.edges.as_slice()
    }

    /// All classes.
    pub fn get_classes(&self) -> (r: &Table<FlowClass>)
        requires
            self.wf(),
        ensures
            r.wf(),
            r@ == self@.classes,
    {
        &self.classes
    }

    /// All subgraphs.
    pub fn subgraphs(&self) -> (r: &[FlowSubGraph])
        ensures
            parts::subgraphs_view(r@) == self@.subgraphs,
    {
        self.subgraphs.as_slice()
    }

    /// A copy of what a renderer needs.
    pub fn get_data(&self) -> (r: FlowData)
        requires
            self.wf(),
        ensures
            r.vertices.wf(),
            r.classes.wf(),
            r.vertices@ == self@.vertices,
            parts::edges_view(r.edges@) == self@.edges,
            r.classes@ == self@.classes,
            parts::subgraphs_view(r.subgraphs@) == self@.subgraphs,
            annotations::annotations_view(r.annotations@) == self@.annotations,
    {
        let r = FlowData {
            vertices: self.vertices.copy(),
            edges: duplicate_all(&self.edges),
            classes: self.classes.copy(),
            subgraphs: duplicate_all(&self.subgraphs),
            annotations: duplicate_all(&self.annotations),
        };
        assert(parts::edges_view(r.edges@) =~= self@.edges);
        assert(parts::subgraphs_view(r.subgraphs@) =~= self@.subgraphs);
        assert(annotations::annotations_view(r.annotations@) =~= self@.annotations);
        r
    }

    // ── titles ──────────────────────────────────────────────────────────────

    pub fn set_acc_title(&mut self, title: &str)
        requires
            old(self).wf(),
        ensures
            final(self).wf(),
            final(self)@ == (FlowView {
                common: CommonView { acc_title: Some(title@), ..old(self)@.common },
                ..old(self)@
            }),
    {
        self.common.set_acc_title(title);
    }

    pub fn get_acc_title(&self) -> (r: Option<&str>)
        ensures
            text::opt_str(r) == self@.common.acc_title,
    {
        self.common.get_acc_title()
    }

    pub fn set_acc_description(&mut self, desc: &str)
        requires
            old(self).wf(),
        ensures
            final(self).wf(),
            final(self)@ == (FlowView {
                common: CommonView { acc_description: Some(desc@), ..old(self)@.common },
                ..old(self)@
            }),
    {
        self.common.set_acc_description(desc);
    }

    pub fn get_acc_description(&self) -> (r: Option<&str>)
        ensures
            text::opt_str(r) == self@.common.acc_description,
    {
        self.common.get_acc_description()
    }

    pub fn set_diagram_title(&mut self, title: &str)
        requires
            old(self).wf(),
        ensures
            final(self).wf(),
            final(self)@ == (FlowView {
                common: CommonView { diagram_title: Some(title@), ..old(self)@.common },
                ..old(self)@
            }),
    {
        self.common.set_diagram_title(title);
    }

    pub fn get_diagram_title(&self) -> (r: Option<&str>)
        ensures
            text::opt_str(r) == self@.common.diagram_title,
    {
        self.common.get_diagram_title()
    }
}

/// What a renderer needs of a chart.
#[derive(Debug, Clone)]
pub struct FlowData {
    pub vertices: Table<FlowVertex>,
    pub edges: Vec<FlowEdge>,
    pub classes: Table<FlowClass>,
    pub subgraphs: Vec<FlowSubGraph>,
    pub annotations: Vec<FlowAnnotation>,
}

} // verus!
