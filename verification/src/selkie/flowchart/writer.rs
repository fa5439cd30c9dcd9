//! Writing a flowchart back to its source text: the direction, nodes, subgraphs
//! with their members, edges, and annotation comments.
use crate::selkie::flowchart::annotations;
use crate::selkie::flowchart::parts;
use crate::selkie::flowchart::types;
use crate::text;
use crate::selkie::flowchart::annotations::{
    AnnotationView, AttrView, FlowAnnotation, FlowAnnotationTarget, TargetView,
};
use crate::selkie::flowchart::parts::{
    EdgeStroke, EdgeView, FlowEdge, FlowSubGraph, FlowSubGraphItem, FlowTextType, FlowVertex,
    FlowVertexType, ItemView, ShapeView, SubgraphView, VertexView,
};
use crate::selkie::flowchart::types::{FlowView, FlowchartDb};
use crate::text::{chars_of, is, join_strings, push_dec, push_text, replace_text, string_of};
use crate::winkb::suggest::has_string;
use vstd::prelude::*;

verus! {

// ── texts ───────────────────────────────────────────────────────────────────

/// A character that a label can only hold in quotes.
pub open spec fn special(c: char) -> bool {
    c == '[' || c == ']' || c == '(' || c == ')' || c == '{' || c == '}' || c == '|' || c == '"'
        || c == '\n' || c == '\r'
}

/// A label that has to be quoted.
pub open spec fn needs_quotes(s: Seq<char>) -> bool {
    s.len() == 0 || exists|i: int| 0 <= i < s.len() && special(#[trigger] s[i])
}

/// `s` with backslashes and quotes escaped.
pub open spec fn escaped(s: Seq<char>) -> Seq<char> {
    text::replace(text::replace(s, "\\"@, "\\\\"@), "\""@, "\\\""@)
}

/// A label as it is written.
pub open spec fn written_text(s: Seq<char>) -> Seq<char> {
    if needs_quotes(s) {
        "\""@ + escaped(s) + "\""@
    } else {
        s
    }
}

/// A label as it is written, by the way it is read.
pub open spec fn written_label(s: Seq<char>, kind: FlowTextType) -> Seq<char> {
    match kind {
        FlowTextType::Markdown => "\"`"@ + text::replace(
            text::replace(text::replace(s, "\\"@, "\\\\"@), "`"@, "\\`"@),
            "\""@,
            "\\\""@,
        ) + "`\""@,
        FlowTextType::Text => written_text(s),
    }
}

fn quotes_needed(s: &[char]) -> (r: bool)
    ensures
        r == needs_quotes(s@),
{
    if s.len() == 0 {
        return true;
    }
    let mut i: usize = 0;
    while i < s.len()
        invariant
            i <= s@.len(),
            forall|k: int| 0 <= k < i ==> !special(#[trigger] s@[k]),
        decreases s@.len() - i,
    {
        let c = s[i];
        if c == '[' || c == ']' || c == '(' || c == ')' || c == '{' || c == '}' || c == '|' || c
            == '"' || c == '\n' || c == '\r' {
            assert(special(s@[i as int]));
            return true;
        }
        i += 1;
    }
    false
}

fn escape_annotation_value(s: &str) -> (r: String)
    ensures
        r@ == escaped(s@),
{
    let c = chars_of(s);
    let c1 = replace_text(&c, "\\", "\\\\");
    let c2 = replace_text(&c1, "\"", "\\\"");
    string_of(&c2)
}

/// A label as it is written.
pub fn format_text_content(s: &str) -> (r: String)
    ensures
        r@ == written_text(s@),
{
    let c = chars_of(s);
    if quotes_needed(&c) {
        let mut m = "\"".to_owned();
        m.append(escape_annotation_value(s).as_str());
        m.append("\"");
        m
    } else {
        s.to_owned()
    }
}

/// A label as it is written, by the way it is read.
pub fn format_text_content_with_type(s: &str, kind: FlowTextType) -> (r: String)
    ensures
        r@ == written_label(s@, kind),
{
    match kind {
        FlowTextType::Markdown => {
            let c = chars_of(s);
            let c1 = replace_text(&c, "\\", "\\\\");
            let c2 = replace_text(&c1, "`", "\\`");
            let c3 = replace_text(&c2, "\"", "\\\"");
            let mut m = "\"`".to_owned();
            push_text(&mut m, &c3);
            m.append("`\"");
            m
        },
        FlowTextType::Text => format_text_content(s),
    }
}

// ── nodes ───────────────────────────────────────────────────────────────────

/// The shape of a node around its label `l`; a plain box is left out where the
/// label is the id.
pub open spec fn shape_text(shape: ShapeView, l: Seq<char>, label_is_id: bool) -> Seq<char> {
    match shape {
        ShapeView::Square | ShapeView::Rect => if label_is_id {
            Seq::empty()
        } else {
            "["@ + l + "]"@
        },
        ShapeView::Round => "("@ + l + ")"@,
        ShapeView::Circle => "(("@ + l + "))"@,
        ShapeView::DoubleCircle => "((("@ + l + ")))"@,
        ShapeView::Ellipse => "(-"@ + l + "-)"@,
        ShapeView::Stadium => "(["@ + l + "])"@,
        ShapeView::Subroutine => "[["@ + l + "]]"@,
        ShapeView::Cylinder => "[("@ + l + ")]"@,
        ShapeView::Diamond => "{"@ + l + "}"@,
        ShapeView::Hexagon => "{{"@ + l + "}}"@,
        ShapeView::Odd => ">"@ + l + "]"@,
        ShapeView::Trapezoid => "[/"@ + l + "\\]"@,
        ShapeView::InvTrapezoid => "[\\"@ + l + "/]"@,
        ShapeView::LeanRight => text::replace("[/"@ + l + " /]"@, " /]"@, "/]"@),
        ShapeView::LeanLeft => "[\\"@ + l + "\\]"@,
        ShapeView::Custom(name) => "@{ shape: "@ + name + ", label: \""@ + l + "\" }"@,
    }
}

/// A node as it is written.
pub open spec fn vertex_text(v: VertexView) -> Seq<char> {
    let label = match v.text {
        Some(t) => t,
        None => v.id,
    };
    let shape = match v.vertex_type {
        Some(s) => s,
        None => ShapeView::Square,
    };
    let plain = v.id + shape_text(shape, written_label(label, v.label_type), label == v.id);
    if v.classes.len() > 0 {
        plain + ":::"@ + v.classes[0]
    } else {
        plain
    }
}

fn around(before: &str, l: &str, after: &str) -> (r: String)
    ensures
        r@ == before@ + l@ + after@,
{
    let mut m = before.to_owned();
    m.append(l);
    m.append(after);
    m
}

fn write_shape(shape: &FlowVertexType, l: &str, label_is_id: bool) -> (r: String)
    ensures
        r@ == shape_text(shape@, l@, label_is_id),
{
    match shape {
        FlowVertexType::Square | FlowVertexType::Rect => {
            if label_is_id {
                proof {
                    reveal_strlit("");
                    assert(""@ =~= Seq::<char>::empty());
                }
                "".to_owned()
            } else {
                around("[", l, "]")
            }
        },
        FlowVertexType::Round => around("(", l, ")"),
        FlowVertexType::Circle => around("((", l, "))"),
        FlowVertexType::DoubleCircle => around("(((", l, ")))"),
        FlowVertexType::Ellipse => around("(-", l, "-)"),
        FlowVertexType::Stadium => around("([", l, "])"),
        FlowVertexType::Subroutine => around("[[", l, "]]"),
        FlowVertexType::Cylinder => around("[(", l, ")]"),
        FlowVertexType::Diamond => around("{", l, "}"),
        FlowVertexType::Hexagon => around("{{", l, "}}"),
        FlowVertexType::Odd => around(">", l, "]"),
        FlowVertexType::Trapezoid => around("[/", l, "\\]"),
        FlowVertexType::InvTrapezoid => around("[\\", l, "/]"),
        FlowVertexType::LeanRight => {
            let m = around("[/", l, " /]");
            let c = chars_of(m.as_str());
            let t = replace_text(&c, " /]", "/]");
            string_of(&t)
        },
        FlowVertexType::LeanLeft => around("[\\", l, "\\]"),
        FlowVertexType::Custom(name) => {
            let mut m = "@{ shape: ".to_owned();
            m.append(name.as_str());
            m.append(", label: \"");
            m.append(l);
            m.append("\" }");
            m
        },
    }
}

/// A node as it is written.
pub fn write_vertex(v: &FlowVertex) -> (r: String)
    ensures
        r@ == vertex_text(v@),
{
    let label = match &v.text {
        Some(t) => t.clone(),
        None => v.id.clone(),
    };
    let l = format_text_content_with_type(label.as_str(), v.label_type);
    let same = label == v.id;
    let body = match &v.vertex_type {
        Some(s) => write_shape(s, l.as_str(), same),
        None => write_shape(&FlowVertexType::Square, l.as_str(), same),
    };
    let mut m = v.id.clone();
    m.append(body.as_str());
    assert(v@.classes.len() == v.classes@.len());
    if v.classes.len() > 0 {
        m.append(":::");
        m.append(v.classes[0].as_str());
    }
    m
}

// ── edges ───────────────────────────────────────────────────────────────────

/// The mark at the start of an edge.
pub open spec fn start_mark(edge_type: Seq<char>) -> Seq<char> {
    if edge_type == "double_arrow_point"@ {
        "<"@
    } else if edge_type == "double_arrow_circle"@ {
        "o"@
    } else if edge_type == "double_arrow_cross"@ {
        "x"@
    } else {
        ""@
    }
}

/// The mark at the end of an edge.
pub open spec fn end_mark(edge_type: Seq<char>) -> Seq<char> {
    if edge_type == "arrow_point"@ || edge_type == "double_arrow_point"@ {
        ">"@
    } else if edge_type == "arrow_circle"@ || edge_type == "double_arrow_circle"@ {
        "o"@
    } else if edge_type == "arrow_cross"@ || edge_type == "double_arrow_cross"@ {
        "x"@
    } else {
        ""@
    }
}

/// How many characters the line of an edge has: its length, and one more, or two
/// where no mark shows where it ends.
pub open spec fn line_count(length: Option<u32>, marked: bool) -> int {
    types::clamped(
        match length {
            Some(n) => n as int,
            None => 1,
        },
        0,
    ) + if marked {
        1int
    } else {
        2
    }
}

/// `n` times the character `c`.
pub open spec fn repeated(c: char, n: int) -> Seq<char> {
    Seq::new(n as nat, |i: int| c)
}

/// The arrow of an edge.
pub open spec fn arrow_text(e: EdgeView) -> Seq<char> {
    let t = match e.edge_type {
        Some(t) => t,
        None => "arrow_open"@,
    };
    let start = start_mark(t);
    let end = end_mark(t);
    let n = line_count(e.length, start.len() > 0 || end.len() > 0);
    match e.stroke {
        EdgeStroke::Dotted => start + "-.-"@ + end,
        EdgeStroke::Thick => start + repeated('=', n) + end,
        _ => start + repeated('-', n) + end,
    }
}

/// An edge as it is written.
pub open spec fn edge_text(e: EdgeView) -> Seq<char> {
    let start = e.start + " "@;
    let named = match e.id {
        Some(id) => if e.is_user_defined_id {
            start + id + "@"@
        } else {
            start
        },
        None => start,
    };
    let arrow = named + arrow_text(e);
    let labelled = if e.text.len() == 0 {
        arrow + " "@
    } else {
        arrow + "|"@ + written_label(e.text, e.label_type) + "|"@ + " "@
    };
    labelled + e.end
}

fn repeat_char(c: char, n: usize) -> (r: String)
    ensures
        r@ == repeated(c, n as int),
{
    let mut v: Vec<char> = Vec::new();
    let mut i: usize = 0;
    while i < n
        invariant
            i <= n,
            v@ =~= repeated(c, i as int),
        decreases n - i,
    {
        v.push(c);
        i += 1;
    }
    string_of(&v)
}

/// The arrow of an edge.
pub fn edge_arrow(e: &FlowEdge) -> (r: String)
    ensures
        r@ == arrow_text(e@),
{
    let t = match &e.edge_type {
        Some(t) => t.clone(),
        None => "arrow_open".to_owned(),
    };
    let c = chars_of(t.as_str());
    let start = if is(&c, "double_arrow_point") {
        "<"
    } else if is(&c, "double_arrow_circle") {
        "o"
    } else if is(&c, "double_arrow_cross") {
        "x"
    } else {
        ""
    };
    let end = if is(&c, "arrow_point") || is(&c, "double_arrow_point") {
        ">"
    } else if is(&c, "arrow_circle") || is(&c, "double_arrow_circle") {
        "o"
    } else if is(&c, "arrow_cross") || is(&c, "double_arrow_cross") {
        "x"
    } else {
        ""
    };
    let length: u32 = match e.length {
        Some(n) => if n < 1 {
            1
        } else if n > 10 {
            10
        } else {
            n
        },
        None => 1,
    };
    let marked = start.unicode_len() > 0 || end.unicode_len() > 0;
    let n: usize = length as usize + if marked {
        1
    } else {
        2
    };
    let mut m = start.to_owned();
    match e.stroke {
        EdgeStroke::Dotted => {
            m.append("-.-");
        },
        EdgeStroke::Thick => {
            m.append(repeat_char('=', n).as_str());
        },
        _ => {
            m.append(repeat_char('-', n).as_str());
        },
    }
    m.append(end);
    m
}

/// An edge as it is written.
pub fn write_edge(e: &FlowEdge) -> (r: String)
    ensures
        r@ == edge_text(e@),
{
    let mut m = e.start.clone();
    m.append(" ");
    match &e.id {
        Some(id) => {
            if e.is_user_defined_id {
                m.append(id.as_str());
                m.append("@");
            }
        },
        None => {},
    }
    m.append(edge_arrow(e).as_str());
    if e.text.as_str().unicode_len() == 0 {
        m.append(" ");
    } else {
        m.append("|");
        m.append(format_text_content_with_type(e.text.as_str(), e.label_type).as_str());
        m.append("|");
        m.append(" ");
    }
    m.append(e.end.as_str());
    m
}

// ── annotations ─────────────────────────────────────────────────────────────

/// A target as it is written.
pub open spec fn target_source(t: TargetView) -> Seq<char> {
    match t {
        TargetView::Graph => "@graph"@,
        TargetView::Node(id) => "@node "@ + id,
        TargetView::Edge { from, to, ordinal } => if ordinal <= 1 {
            "@edge "@ + from + "->"@ + to
        } else {
            "@edge "@ + from + "->"@ + to + "#"@ + text::signed_dec(ordinal)
        },
        TargetView::Group(id) => "@group "@ + id,
    }
}

/// An attribute as it is written.
pub open spec fn attr_source(a: AttrView) -> Seq<char> {
    a.key + "=\""@ + escaped(a.value) + "\""@
}

/// An annotation as it is written.
pub open spec fn annotation_source(a: AnnotationView) -> Seq<char> {
    "%% "@ + target_source(a.target) + " "@ + text::join(
        a.attrs.map_values(|x: AttrView| attr_source(x)),
        " "@,
    )
}

/// An annotation as it is written.
pub fn write_annotation(a: &FlowAnnotation) -> (r: String)
    ensures
        r@ == annotation_source(a@),
{
    let mut m = "%% ".to_owned();
    match &a.target {
        FlowAnnotationTarget::Graph => {
            m.append("@graph");
        },
        FlowAnnotationTarget::Node { id } => {
            let t = around("@node ", id.as_str(), "");
            proof {
                reveal_strlit("");
                assert("@node "@ + id@ + ""@ =~= "@node "@ + id@);
            }
            m.append(t.as_str());
        },
        FlowAnnotationTarget::Edge { from, to, ordinal } => {
            let mut t = "@edge ".to_owned();
            t.append(from.as_str());
            t.append("->");
            t.append(to.as_str());
            if *ordinal > 1 {
                t.append("#");
                push_dec(&mut t, *ordinal as i128);
            }
            m.append(t.as_str());
        },
        FlowAnnotationTarget::Group { id } => {
            let t = around("@group ", id.as_str(), "");
            proof {
                reveal_strlit("");
                assert("@group "@ + id@ + ""@ =~= "@group "@ + id@);
            }
            m.append(t.as_str());
        },
    }
    m.append(" ");
    let ghost all = a@.attrs.map_values(|x: AttrView| attr_source(x));
    let mut parts: Vec<String> = Vec::new();
    let mut i: usize = 0;
    assert(text::strings(parts@) =~= Seq::empty());
    while i < a.attrs.len()
        invariant
            all == a@.attrs.map_values(|x: AttrView| attr_source(x)),
            i <= a.attrs@.len(),
            text::strings(parts@) =~= all.take(i as int),
        decreases a.attrs@.len() - i,
    {
        let mut t = a.attrs[i].key.clone();
        t.append("=\"");
        t.append(escape_annotation_value(a.attrs[i].value.as_str()).as_str());
        t.append("\"");
        let ghost before = text::strings(parts@);
        parts.push(t);
        assert(text::strings(parts@) =~= before.push(t@));
        assert(a@.attrs[i as int] == a.attrs@[i as int]@);
        i += 1;
    }
    assert(text::strings(parts@) =~= all);
    m.append(join_strings(&parts, " ").as_str());
    m
}

// ── subgraphs ───────────────────────────────────────────────────────────────

/// The lines written so far, and the ids of the edges among them.
pub struct Written {
    pub lines: Seq<Seq<char>>,
    pub edges: Set<Seq<char>>,
}

/// The white space in front of a line at nesting `depth`.
pub open spec fn indent(depth: int) -> Seq<char> {
    repeated(' ', 4 * depth)
}

/// The position of the first subgraph called `id` from `i` on; the length of `v`
/// where there is none.
pub open spec fn subgraph_index(v: Seq<SubgraphView>, id: Seq<char>, i: int) -> int
    decreases v.len() - i,
{
    if i >= v.len() {
        v.len() as int
    } else if v[i].id == id {
        i
    } else {
        subgraph_index(v, id, i + 1)
    }
}

/// The position of the first edge with the id `id` from `i` on; the length of `v`
/// where there is none.
pub open spec fn edge_index(v: Seq<EdgeView>, id: Seq<char>, i: int) -> int
    decreases v.len() - i,
{
    if i >= v.len() {
        v.len() as int
    } else if v[i].id == Some(id) {
        i
    } else {
        edge_index(v, id, i + 1)
    }
}

/// A member node as it is written: the node, or its bare id where it is unknown.
pub open spec fn member_text(v: FlowView, id: Seq<char>) -> Seq<char> {
    if v.vertices.dom().contains(id) {
        vertex_text(v.vertices[id])
    } else {
        id
    }
}

/// The first line of a subgraph.
pub open spec fn subgraph_header(s: SubgraphView, depth: int) -> Seq<char> {
    if s.title.len() == 0 || s.title == s.id {
        indent(depth) + "subgraph "@ + s.id
    } else {
        indent(depth) + "subgraph "@ + s.id + "["@ + written_text(s.title) + "]"@
    }
}

/// The lines of a subgraph in front of its members.
pub open spec fn subgraph_open(s: SubgraphView, depth: int) -> Seq<Seq<char>> {
    match s.dir {
        Some(d) => seq![
            subgraph_header(s, depth),
            indent(depth) + "    direction "@ + d,
        ],
        None => seq![subgraph_header(s, depth)],
    }
}

/// The lines of the first `n` member nodes.
pub open spec fn member_lines(v: FlowView, nodes: Seq<Seq<char>>, n: int, depth: int) -> Seq<
    Seq<char>,
>
    decreases n,
{
    if n <= 0 {
        Seq::empty()
    } else {
        member_lines(v, nodes, n - 1, depth).push(
            indent(depth) + "    "@ + member_text(v, nodes[n - 1]),
        )
    }
}

/// The subgraph number `i` written at nesting `depth`. `levels` bounds how deep
/// subgraphs may still nest: that is never more than there are subgraphs, unless one
/// lies within itself.
pub open spec fn write_subgraph_at(
    v: FlowView,
    i: int,
    depth: int,
    levels: nat,
    w: Written,
) -> Written
    decreases levels, 1int, 0int,
{
    let s = v.subgraphs[i];
    let open = Written { lines: w.lines + subgraph_open(s, depth), ..w };
    let body = if s.items.len() > 0 {
        write_items(v, s.items, s.items.len() as int, depth, levels, open)
    } else {
        Written { lines: open.lines + member_lines(v, s.nodes, s.nodes.len() as int, depth), ..open }
    };
    Written { lines: body.lines.push(indent(depth) + "end"@), ..body }
}

/// The first `n` items of a subgraph written.
pub open spec fn write_items(
    v: FlowView,
    items: Seq<ItemView>,
    n: int,
    depth: int,
    levels: nat,
    w: Written,
) -> Written
    decreases levels, 0int, n,
{
    if n <= 0 {
        w
    } else {
        let before = write_items(v, items, n - 1, depth, levels, w);
        match items[n - 1] {
            ItemView::Node(id) => Written {
                lines: before.lines.push(indent(depth) + "    "@ + member_text(v, id)),
                ..before
            },
            ItemView::Edge(id) => {
                let e = edge_index(v.edges, id, 0);
                if e < v.edges.len() {
                    Written {
                        lines: before.lines.push(
                            indent(depth) + "    "@ + edge_text(v.edges[e]),
                        ),
                        edges: before.edges.insert(id),
                    }
                } else {
                    before
                }
            },
            ItemView::Subgraph(id) => {
                let c = subgraph_index(v.subgraphs, id, 0);
                if c < v.subgraphs.len() && levels > 0 {
                    write_subgraph_at(v, c, depth + 1, (levels - 1) as nat, before)
                } else {
                    before
                }
            },
        }
    }
}

/// What was written, in machine terms.
struct Output {
    lines: Vec<String>,
    edges: Vec<String>,
}

impl Output {
    spec fn shown(self) -> Written {
        Written { lines: text::strings(self.lines@), edges: text::strings(self.edges@).to_set() }
    }

    fn put(&mut self, line: String)
        ensures
            final(self).shown() == (Written {
                lines: old(self).shown().lines.push(line@),
                ..old(self).shown()
            }),
    {
        let ghost before = text::strings(self.lines@);
        self.lines.push(line);
        assert(text::strings(self.lines@) =~= before.push(line@));
    }

    fn note_edge(&mut self, id: &String)
        ensures
            final(self).shown() == (Written {
                edges: old(self).shown().edges.insert(id@),
                ..old(self).shown()
            }),
    {
        let ghost before = text::strings(self.edges@);
        self.edges.push(id.clone());
        assert(text::strings(self.edges@) =~= before.push(id@));
        proof {
            lemma_push_to_set(before, id@);
        }
    }
}

proof fn lemma_push_to_set(v: Seq<Seq<char>>, x: Seq<char>)
    ensures
        v.push(x).to_set() == v.to_set().insert(x),
{
    assert forall|y: Seq<char>| v.push(x).to_set().contains(y) == v.to_set().insert(x).contains(
        y,
    ) by {
        if v.contains(y) {
            let i = choose|i: int| 0 <= i < v.len() && v[i] == y;
            assert(v.push(x)[i] == y);
        }
        assert(v.push(x)[v.len() as int] == x);
        if v.push(x).contains(y) && y != x {
            let i = choose|i: int| 0 <= i < v.push(x).len() && v.push(x)[i] == y;
            assert(v[i] == y);
        }
    }
    assert(v.push(x).to_set() =~= v.to_set().insert(x));
}

fn find_subgraph(v: &[FlowSubGraph], id: &String) -> (r: usize)
    ensures
        r == subgraph_index(parts::subgraphs_view(v@), id@, 0),
        r <= v@.len(),
{
    let ghost all = parts::subgraphs_view(v@);
    let mut i: usize = 0;
    while i < v.len()
        invariant
            all == parts::subgraphs_view(v@),
            i <= v@.len(),
            subgraph_index(all, id@, 0) == subgraph_index(all, id@, i as int),
        decreases v@.len() - i,
    {
        assert(all[i as int] == v@[i as int]@);
        if v[i].id == *id {
            return i;
        }
        i += 1;
    }
    i
}

fn find_edge(v: &[FlowEdge], id: &String) -> (r: usize)
    ensures
        r == edge_index(parts::edges_view(v@), id@, 0),
        r <= v@.len(),
{
    let ghost all = parts::edges_view(v@);
    let mut i: usize = 0;
    while i < v.len()
        invariant
            all == parts::edges_view(v@),
            i <= v@.len(),
            edge_index(all, id@, 0) == edge_index(all, id@, i as int),
        decreases v@.len() - i,
    {
        assert(all[i as int] == v@[i as int]@);
        match &v[i].id {
            Some(e) => {
                if *e == *id {
                    return i;
                }
            },
            None => {},
        }
        i += 1;
    }
    i
}

fn indented(depth: usize, more: &str, line: &str) -> (r: String)
    requires
        4 * depth <= usize::MAX,
    ensures
        r@ == indent(depth as int) + more@ + line@,
{
    let mut m = repeat_char(' ', 4 * depth);
    m.append(more);
    m.append(line);
    m
}

fn write_member(db: &FlowchartDb, id: &String) -> (r: String)
    requires
        db.wf(),
    ensures
        r@ == member_text(db@, id@),
{
    match db.vertices().get(id.as_str()) {
        Some(v) => write_vertex(v),
        None => id.clone(),
    }
}

fn write_open(s: &FlowSubGraph, depth: usize, out: &mut Output)
    requires
        4 * depth <= usize::MAX,
    ensures
        final(out).shown() == (Written {
            lines: old(out).shown().lines + subgraph_open(s@, depth as int),
            ..old(out).shown()
        }),
{
    let ghost w = out.shown();
    proof {
        reveal_strlit("");
    }
    let header = if s.title.as_str().unicode_len() == 0 || s.title == s.id {
        indented(depth, "subgraph ", s.id.as_str())
    } else {
        let mut m = indented(depth, "subgraph ", s.id.as_str());
        m.append("[");
        m.append(format_text_content(s.title.as_str()).as_str());
        m.append("]");
        m
    };
    assert(header@ == subgraph_header(s@, depth as int));
    out.put(header);
    match &s.dir {
        Some(d) => {
            out.put(indented(depth, "    direction ", d.as_str()));
        },
        None => {},
    }
    assert(out.shown().lines =~= w.lines + subgraph_open(s@, depth as int));
}

fn write_members(db: &FlowchartDb, nodes: &Vec<String>, depth: usize, out: &mut Output)
    requires
        db.wf(),
        4 * depth <= usize::MAX,
    ensures
        final(out).shown() == (Written {
            lines: old(out).shown().lines + member_lines(
                db@,
                text::strings(nodes@),
                nodes@.len() as int,
                depth as int,
            ),
            ..old(out).shown()
        }),
{
    let ghost w = out.shown();
    let ghost all = text::strings(nodes@);
    let mut n: usize = 0;
    assert(w.lines + Seq::<Seq<char>>::empty() =~= w.lines);
    while n < nodes.len()
        invariant
            db.wf(),
            4 * depth <= usize::MAX,
            all == text::strings(nodes@),
            n <= nodes@.len(),
            out.shown() == (Written {
                lines: w.lines + member_lines(db@, all, n as int, depth as int),
                ..w
            }),
        decreases nodes@.len() - n,
    {
        assert(all[n as int] == nodes@[n as int]@);
        let m = write_member(db, &nodes[n]);
        out.put(indented(depth, "    ", m.as_str()));
        assert(out.shown().lines =~= w.lines + member_lines(db@, all, n + 1, depth as int));
        n += 1;
    }
}

/// Write the subgraph at `i`.
fn write_subgraph(db: &FlowchartDb, i: usize, depth: usize, levels: usize, out: &mut Output)
    requires
        db.wf(),
        i < db@.subgraphs.len(),
        depth + levels <= usize::MAX / 4,
    ensures
        final(out).shown() == write_subgraph_at(
            db@,
            i as int,
            depth as int,
            levels as nat,
            old(out).shown(),
        ),
    decreases levels, 1int,
{
    let s = &db.subgraphs()[i];
    assert(db@.subgraphs[i as int] == s@);
    write_open(s, depth, out);
    let ghost open = out.shown();
    assert(s@.items.len() == s.items@.len());
    assert(s@.nodes.len() == s.nodes@.len());
    if s.items.len() > 0 {
        write_item_list(db, &s.items, depth, levels, out);
    } else {
        write_members(db, &s.nodes, depth, out);
    }
    out.put(indented(depth, "", "end"));
    proof {
        reveal_strlit("");
        assert(indent(depth as int) + ""@ + "end"@ =~= indent(depth as int) + "end"@);
    }
}

fn write_item_list(
    db: &FlowchartDb,
    items: &Vec<FlowSubGraphItem>,
    depth: usize,
    levels: usize,
    out: &mut Output,
)
    requires
        db.wf(),
        depth + levels <= usize::MAX / 4,
    ensures
        final(out).shown() == write_items(
            db@,
            parts::items_view(items@),
            items@.len() as int,
            depth as int,
            levels as nat,
            old(out).shown(),
        ),
    decreases levels, 0int,
{
    let ghost w = out.shown();
    let ghost all = parts::items_view(items@);
    let mut n: usize = 0;
    while n < items.len()
        invariant
            db.wf(),
            depth + levels <= usize::MAX / 4,
            all == parts::items_view(items@),
            n <= items@.len(),
            out.shown() == write_items(db@, all, n as int, depth as int, levels as nat, w),
        decreases items@.len() - n,
    {
        assert(all[n as int] == items@[n as int]@);
        match &items[n] {
            FlowSubGraphItem::Node(id) => {
                let m = write_member(db, id);
                out.put(indented(depth, "    ", m.as_str()));
            },
            FlowSubGraphItem::Edge(id) => {
                let e: usize = find_edge(db.edges(), id);
                if e < db.edges().len() {
                    let m = write_edge(&db.edges()[e]);
                    out.put(indented(depth, "    ", m.as_str()));
                    out.note_edge(id);
                }
            },
            FlowSubGraphItem::Subgraph(id) => {
                let c: usize = find_subgraph(db.subgraphs(), id);
                if c < db.subgraphs().len() && levels > 0 {
                    write_subgraph(db, c, depth + 1, levels - 1, out);
                }
            },
        }
        n += 1;
    }
}

// ── the whole ───────────────────────────────────────────────────────────────

/// What the top-level items have written: besides lines and edges, which nodes and
/// subgraphs.
pub struct TopWritten {
    pub w: Written,
    pub nodes: Set<Seq<char>>,
    pub subgraphs: Set<Seq<char>>,
}

/// The position of the first subgraph called `id` that has no parent, from `i` on;
/// the length of `v` where there is none.
pub open spec fn root_index(v: Seq<SubgraphView>, id: Seq<char>, i: int) -> int
    decreases v.len() - i,
{
    if i >= v.len() {
        v.len() as int
    } else if v[i].id == id && v[i].parent_id is None {
        i
    } else {
        root_index(v, id, i + 1)
    }
}

/// The first `n` top-level items written.
pub open spec fn write_top(v: FlowView, n: int, t: TopWritten) -> TopWritten
    decreases n,
{
    if n <= 0 {
        t
    } else {
        let b = write_top(v, n - 1, t);
        match v.top_level_items[n - 1] {
            ItemView::Node(id) => if !types::in_some(v.subgraphs, id) && v.vertices.dom().contains(id) {
                TopWritten {
                    w: Written { lines: b.w.lines.push(vertex_text(v.vertices[id])), ..b.w },
                    nodes: b.nodes.insert(id),
                    ..b
                }
            } else {
                b
            },
            ItemView::Subgraph(id) => {
                let s = root_index(v.subgraphs, id, 0);
                if s < v.subgraphs.len() {
                    TopWritten {
                        w: write_subgraph_at(v, s, 0, v.subgraphs.len(), b.w),
                        subgraphs: b.subgraphs.insert(id),
                        ..b
                    }
                } else {
                    b
                }
            },
            ItemView::Edge(id) => {
                let e = edge_index(v.edges, id, 0);
                if e < v.edges.len() {
                    TopWritten {
                        w: Written {
                            lines: b.w.lines.push(edge_text(v.edges[e])),
                            edges: b.w.edges.insert(id),
                        },
                        ..b
                    }
                } else {
                    b
                }
            },
        }
    }
}

/// The nodes among the first `n` that are in no subgraph and not yet written.
pub open spec fn write_nodes(v: FlowView, n: int, done: Set<Seq<char>>) -> Seq<Seq<char>>
    decreases n,
{
    if n <= 0 {
        Seq::empty()
    } else {
        let b = write_nodes(v, n - 1, done);
        let id = v.vertex_order[n - 1];
        if types::in_some(v.subgraphs, id) || done.contains(id) || !v.vertices.dom().contains(id) {
            b
        } else {
            b.push(vertex_text(v.vertices[id]))
        }
    }
}

/// The root subgraphs among the first `n` that are not yet written.
pub open spec fn write_roots(v: FlowView, n: int, done: Set<Seq<char>>, w: Written) -> Written
    decreases n,
{
    if n <= 0 {
        w
    } else {
        let b = write_roots(v, n - 1, done, w);
        if v.subgraphs[n - 1].parent_id is Some || done.contains(v.subgraphs[n - 1].id) {
            b
        } else {
            write_subgraph_at(v, n - 1, 0, v.subgraphs.len(), b)
        }
    }
}

/// The edges among the first `n` that are not yet written.
pub open spec fn write_edges(v: FlowView, n: int, done: Set<Seq<char>>) -> Seq<Seq<char>>
    decreases n,
{
    if n <= 0 {
        Seq::empty()
    } else {
        let b = write_edges(v, n - 1, done);
        let e = v.edges[n - 1];
        if e.id matches Some(id) && done.contains(id) {
            b
        } else {
            b.push(edge_text(e))
        }
    }
}

/// The lines of the whole chart: its header, the top-level items, the remaining
/// nodes, subgraphs and edges, and the annotations.
pub open spec fn chart_lines(v: FlowView) -> Seq<Seq<char>> {
    let start = TopWritten {
        w: Written { lines: seq!["flowchart "@ + v.direction.name()], edges: Set::empty() },
        nodes: Set::empty(),
        subgraphs: Set::empty(),
    };
    let top = write_top(v, v.top_level_items.len() as int, start);
    let nodes = write_nodes(v, v.vertex_order.len() as int, top.nodes);
    let roots = write_roots(
        v,
        v.subgraphs.len() as int,
        top.subgraphs,
        Written { lines: top.w.lines + nodes, ..top.w },
    );
    roots.lines + write_edges(v, v.edges.len() as int, roots.edges) + v.annotations.map_values(
        |a: AnnotationView| annotation_source(a),
    )
}

/// The source text of the chart.
pub open spec fn chart_source(v: FlowView) -> Seq<char> {
    text::join(chart_lines(v), "\n"@).push('\n')
}

fn find_root(v: &[FlowSubGraph], id: &String) -> (r: usize)
    ensures
        r == root_index(parts::subgraphs_view(v@), id@, 0),
        r <= v@.len(),
        r < v@.len() ==> v@[r as int]@.id == id@,
{
    let ghost all = parts::subgraphs_view(v@);
    let mut i: usize = 0;
    while i < v.len()
        invariant
            all == parts::subgraphs_view(v@),
            i <= v@.len(),
            root_index(all, id@, 0) == root_index(all, id@, i as int),
        decreases v@.len() - i,
    {
        assert(all[i as int] == v@[i as int]@);
        if v[i].id == *id && v[i].parent_id.is_none() {
            return i;
        }
        i += 1;
    }
    i
}

/// What the top-level items have written, in machine terms.
struct TopOutput {
    out: Output,
    nodes: Vec<String>,
    subgraphs: Vec<String>,
}

impl TopOutput {
    spec fn shown(self) -> TopWritten {
        TopWritten {
            w: self.out.shown(),
            nodes: text::strings(self.nodes@).to_set(),
            subgraphs: text::strings(self.subgraphs@).to_set(),
        }
    }
}

fn write_top_items(db: &FlowchartDb, t: &mut TopOutput)
    requires
        db.wf(),
        db@.subgraphs.len() <= usize::MAX / 4,
    ensures
        final(t).shown() == write_top(
            db@,
            db@.top_level_items.len() as int,
            old(t).shown(),
        ),
{
    let items = db.top_level_items();
    let levels: usize = db.subgraphs().len();
    let ghost v = db@;
    let ghost t0 = t.shown();
    assert(parts::items_view(items@).len() == items@.len());
    assert(v.subgraphs.len() == levels);
    let mut n: usize = 0;
    while n < items.len()
        invariant
            db.wf(),
            v == db@,
            levels == v.subgraphs.len(),
            levels <= usize::MAX / 4,
            parts::items_view(items@) == v.top_level_items,
            n <= items@.len(),
            t.shown() == write_top(v, n as int, t0),
        decreases items@.len() - n,
    {
        let ghost b = t.shown();
        assert(v.top_level_items[n as int] == items@[n as int]@);
        match &items[n] {
            FlowSubGraphItem::Node(id) => {
                if !db.node_exists(db.subgraphs(), id.as_str()) {
                    match db.vertices().get(id.as_str()) {
                        Some(x) => {
                            t.out.put(write_vertex(x));
                            let ghost before = text::strings(t.nodes@);
                            t.nodes.push(id.clone());
                            assert(text::strings(t.nodes@) =~= before.push(id@));
                            proof {
                                lemma_push_to_set(before, id@);
                            }
                        },
                        None => {},
                    }
                }
            },
            FlowSubGraphItem::Subgraph(id) => {
                let s: usize = find_root(db.subgraphs(), id);
                if s < levels {
                    write_subgraph(db, s, 0, levels, &mut t.out);
                    let ghost before = text::strings(t.subgraphs@);
                    t.subgraphs.push(id.clone());
                    assert(text::strings(t.subgraphs@) =~= before.push(id@));
                    proof {
                        lemma_push_to_set(before, id@);
                    }
                }
            },
            FlowSubGraphItem::Edge(id) => {
                let e: usize = find_edge(db.edges(), id);
                if e < db.edges().len() {
                    let m = write_edge(&db.edges()[e]);
                    t.out.put(m);
                    t.out.note_edge(id);
                }
            },
        }
        assert(t.shown() == write_top(v, n + 1, t0));
        n += 1;
    }
}

fn write_other_nodes(db: &FlowchartDb, done: &Vec<String>, out: &mut Output)
    requires
        db.wf(),
    ensures
        final(out).shown() == (Written {
            lines: old(out).shown().lines + write_nodes(
                db@,
                db@.vertex_order.len() as int,
                text::strings(done@).to_set(),
            ),
            ..old(out).shown()
        }),
{
    let order = db.vertex_order();
    let ghost v = db@;
    let ghost w = out.shown();
    let ghost ds = text::strings(done@).to_set();
    assert(text::strings(order@).len() == order@.len());
    assert(w.lines + Seq::<Seq<char>>::empty() =~= w.lines);
    let mut n: usize = 0;
    while n < order.len()
        invariant
            db.wf(),
            v == db@,
            ds == text::strings(done@).to_set(),
            text::strings(order@) == v.vertex_order,
            n <= order@.len(),
            out.shown() == (Written { lines: w.lines + write_nodes(v, n as int, ds), ..w }),
        decreases order@.len() - n,
    {
        assert(v.vertex_order[n as int] == order@[n as int]@);
        let c = chars_of(order[n].as_str());
        if !db.node_exists(db.subgraphs(), order[n].as_str()) && !has_string(done, &c) {
            match db.vertices().get(order[n].as_str()) {
                Some(x) => {
                    out.put(write_vertex(x));
                },
                None => {},
            }
        }
        assert(out.shown().lines =~= w.lines + write_nodes(v, n + 1, ds));
        n += 1;
    }
}

fn write_other_roots(db: &FlowchartDb, done: &Vec<String>, out: &mut Output)
    requires
        db.wf(),
        db@.subgraphs.len() <= usize::MAX / 4,
    ensures
        final(out).shown() == write_roots(
            db@,
            db@.subgraphs.len() as int,
            text::strings(done@).to_set(),
            old(out).shown(),
        ),
{
    let sgs = db.subgraphs();
    let levels: usize = sgs.len();
    let ghost v = db@;
    let ghost w = out.shown();
    let ghost ds = text::strings(done@).to_set();
    assert(v.subgraphs.len() == levels);
    let mut n: usize = 0;
    while n < levels
        invariant
            db.wf(),
            v == db@,
            ds == text::strings(done@).to_set(),
            levels == v.subgraphs.len(),
            levels == sgs@.len(),
            levels <= usize::MAX / 4,
            parts::subgraphs_view(sgs@) == v.subgraphs,
            n <= levels,
            out.shown() == write_roots(v, n as int, ds, w),
        decreases levels - n,
    {
        assert(v.subgraphs[n as int] == sgs@[n as int]@);
        let c = chars_of(sgs[n].id.as_str());
        if sgs[n].parent_id.is_none() && !has_string(done, &c) {
            write_subgraph(db, n, 0, levels, out);
        }
        n += 1;
    }
}

fn write_other_edges(db: &FlowchartDb, out: &mut Output)
    ensures
        final(out).shown() == (Written {
            lines: old(out).shown().lines + write_edges(
                db@,
                db@.edges.len() as int,
                old(out).shown().edges,
            ),
            ..old(out).shown()
        }),
{
    let es = db.edges();
    let ghost v = db@;
    let ghost w = out.shown();
    assert(parts::edges_view(es@).len() == es@.len());
    assert(w.lines + Seq::<Seq<char>>::empty() =~= w.lines);
    let mut n: usize = 0;
    while n < es.len()
        invariant
            v == db@,
            parts::edges_view(es@) == v.edges,
            n <= es@.len(),
            out.shown() == (Written { lines: w.lines + write_edges(v, n as int, w.edges), ..w }),
        decreases es@.len() - n,
    {
        assert(v.edges[n as int] == es@[n as int]@);
        let done = match &es[n].id {
            Some(id) => {
                let c = chars_of(id.as_str());
                has_string(&out.edges, &c)
            },
            None => false,
        };
        if !done {
            out.put(write_edge(&es[n]));
        }
        assert(out.shown().lines =~= w.lines + write_edges(v, n + 1, w.edges));
        n += 1;
    }
}

fn write_annotations(db: &FlowchartDb, out: &mut Output)
    ensures
        final(out).shown() == (Written {
            lines: old(out).shown().lines + db@.annotations.map_values(
                |a: AnnotationView| annotation_source(a),
            ),
            ..old(out).shown()
        }),
{
    let anns = db.annotations();
    let ghost all = db@.annotations.map_values(|a: AnnotationView| annotation_source(a));
    let ghost w = out.shown();
    assert(annotations::annotations_view(anns@).len() == anns@.len());
    let mut n: usize = 0;
    assert(w.lines + all.take(0) =~= w.lines);
    while n < anns.len()
        invariant
            all == db@.annotations.map_values(|a: AnnotationView| annotation_source(a)),
            annotations::annotations_view(anns@) == db@.annotations,
            n <= anns@.len(),
            out.shown() == (Written { lines: w.lines + all.take(n as int), ..w }),
        decreases anns@.len() - n,
    {
        assert(db@.annotations[n as int] == anns@[n as int]@);
        out.put(write_annotation(&anns[n]));
        assert(out.shown().lines =~= w.lines + all.take(n + 1));
        n += 1;
    }
    assert(all.take(all.len() as int) =~= all);
}

/// Write a flowchart back to its source text.
pub fn write(db: &FlowchartDb) -> (r: String)
    requires
        db.wf(),
        db@.subgraphs.len() <= usize::MAX / 4,
    ensures
        r@ == chart_source(db@),
{
    let mut head = "flowchart ".to_owned();
    head.append(db.get_direction());
    let mut lines: Vec<String> = Vec::new();
    lines.push(head);
    let mut t = TopOutput {
        out: Output { lines, edges: Vec::new() },
        nodes: Vec::new(),
        subgraphs: Vec::new(),
    };
    proof {
        assert(text::strings(Seq::<String>::empty()) =~= Seq::empty());
        assert(Seq::<Seq<char>>::empty().to_set() =~= Set::empty());
        assert(text::strings(lines@) =~= seq!["flowchart "@ + db@.direction.name()]);
    }
    write_top_items(db, &mut t);
    let mut out = t.out;
    write_other_nodes(db, &t.nodes, &mut out);
    write_other_roots(db, &t.subgraphs, &mut out);
    write_other_edges(db, &mut out);
    write_annotations(db, &mut out);
    assert(text::strings(out.lines@) == chart_lines(db@));
    let mut s = join_strings(&out.lines, "\n");
    s.push('\n');
    s
}

impl FlowchartDb {
    /// Write the flowchart back to its source text.
    pub fn to_mermaid(&self) -> (r: String)
        requires
            self.wf(),
            self@.subgraphs.len() <= usize::MAX / 4,
        ensures
            r@ == chart_source(self@),
    {
        write(self)
    }
}

} // verus!
