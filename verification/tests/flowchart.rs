use wrasm::selkie::direction::Direction;
use wrasm::selkie::flowchart::annotations::{
    annotation_arrow_head, annotation_connection_point, annotation_label_align, annotation_line_style,
    annotation_number, annotation_point_pair, annotation_points, annotation_string, parse_annotation_comment, ArrowHead,
    ConnectionPoint, FlowAnnotation, FlowAnnotationAttr, FlowAnnotationTarget, LabelAlign, LineStyle, PointText,
};
use wrasm::selkie::flowchart::overrides::{
    EdgeAnnotationOverrides, GraphAnnotationOverrides, GroupAnnotationOverrides, NodeAnnotationOverrides,
};
use wrasm::selkie::flowchart::parts::{
    EdgeStroke, FlowClass, FlowEdge, FlowLink, FlowSubGraph, FlowSubGraphItem, FlowText, FlowTextType, FlowVertexType,
};
use wrasm::selkie::flowchart::placement::{
    connection_side, find_flow_edge_for_layout_edge, needs_reroute, node_is_moved, route, Bearing, Course,
};
use wrasm::selkie::flowchart::types::{parse_arrow, FlowchartDb};
use wrasm::selkie::flowchart::writer::edge_arrow;
use wrasm::selkie::render::{ascii_refusal, diagram_type_name, svg_refusal, truncate_ascii_width, DiagramKind};


/// A subgraph that has been opened and not closed yet.
struct Open {
    id: String,
    title: String,
    dir: Option<String>,
    nodes: Vec<String>,
    items: Vec<FlowSubGraphItem>,
}

/// The brackets round a label, with the shape they stand for.
fn brackets() -> Vec<(&'static str, &'static str, FlowVertexType)> {
    vec![
        ("((", "))", FlowVertexType::Circle),
        ("([", "])", FlowVertexType::Stadium),
        ("[(", ")]", FlowVertexType::Cylinder),
        ("[[", "]]", FlowVertexType::Subroutine),
        ("[/", "/]", FlowVertexType::LeanRight),
        ("[\\", "\\]", FlowVertexType::LeanLeft),
        ("{{", "}}", FlowVertexType::Hexagon),
        ("[", "]", FlowVertexType::Square),
        ("(", ")", FlowVertexType::Round),
        ("{", "}", FlowVertexType::Diamond),
    ]
}

/// A node reference at the start of `s`: its id, its label and shape, and the rest.
fn read_node(s: &str) -> (String, Option<(FlowText, FlowVertexType)>, String) {
    let n = s.find(|c: char| !c.is_alphanumeric() && c != '_').unwrap_or(s.len());
    let (id, rest) = s.split_at(n);
    for (open, close, shape) in brackets() {
        if let Some(body) = rest.strip_prefix(open) {
            let end = body.find(close).expect("a closed label");
            let label = &body[..end];
            let text = match label.strip_prefix("\"`").and_then(|l| l.strip_suffix("`\"")) {
                Some(m) => FlowText::markdown(m),
                None => FlowText::new(label),
            };
            return (id.into(), Some((text, shape)), body[end + close.len()..].trim().into());
        }
    }
    (id.into(), None, rest.trim().into())
}

fn place(db: &mut FlowchartDb, open: &mut Vec<Open>, item: FlowSubGraphItem) {
    match open.last_mut() {
        Some(o) => {
            if let FlowSubGraphItem::Node(id) = &item {
                o.nodes.push(id.clone());
            }
            o.items.push(item);
        }
        None => db.push_top_level_item(item),
    }
}

fn add_node(db: &mut FlowchartDb, open: &mut Vec<Open>, id: &str, label: Option<(FlowText, FlowVertexType)>) {
    let known = db.vertices().contains_key(id);
    match label {
        Some((text, shape)) => db.add_vertex(id, Some(text), Some(shape), vec![], vec![], None, None),
        None if !known => db.add_vertex_simple(id, None, None),
        None => {}
    }
    if !known {
        place(db, open, FlowSubGraphItem::Node(id.into()));
    }
}

/// Read the subset of Mermaid in which the sources below are written: one
/// statement a line, an edge between two nodes at most.
fn parse(input: &str) -> Result<FlowchartDb, String> {
    let mut db = FlowchartDb::new();
    let mut open: Vec<Open> = vec![];
    for line in input.lines().map(|l| l.trim()) {
        if let Some(dir) = line.strip_prefix("flowchart ") {
            db.set_direction(dir);
        } else if line.starts_with("%%") {
            if let Some(a) = parse_annotation_comment(line)? {
                db.add_annotation(a);
            }
        } else if let Some(head) = line.strip_prefix("subgraph ") {
            let (id, label, _) = read_node(head);
            let title = label.map(|l| l.0.text).unwrap_or(id.clone());
            open.push(Open { id, title, dir: None, nodes: vec![], items: vec![] });
        } else if let Some(dir) = line.strip_prefix("direction ") {
            open.last_mut().ok_or("a direction outside a subgraph")?.dir = Some(dir.into());
        } else if line == "end" {
            let o = open.pop().ok_or("an end without a subgraph")?;
            for item in &o.items {
                if let FlowSubGraphItem::Subgraph(child) = item {
                    db.get_subgraph_mut(child).expect("the inner subgraph").parent_id = Some(o.id.clone());
                }
            }
            db.add_subgraph_with_dir(&o.id, &o.title, o.nodes, o.dir);
            db.get_subgraph_mut(&o.id).expect("the new subgraph").items = o.items;
            place(&mut db, &mut open, FlowSubGraphItem::Subgraph(o.id));
        } else if !line.is_empty() {
            let (from, label, rest) = read_node(line);
            add_node(&mut db, &mut open, &from, label);
            if !rest.is_empty() {
                let (link, target) = rest.split_once(' ').ok_or("an edge without a target")?;
                let (id, link) = match link.split_once('@') {
                    Some((id, l)) => (Some(id), l),
                    None => (None, link),
                };
                let (arrow, text) = match link.split_once('|') {
                    Some((a, t)) => (a, Some(t.trim_end_matches('|'))),
                    None => (link, None),
                };
                let (to, label, _) = read_node(target.trim());
                add_node(&mut db, &mut open, &to, label);
                db.add_edge(&from, &to, arrow, text, id);
                let edge = db.edges().last().and_then(|e| e.id.clone()).expect("an edge id");
                place(&mut db, &mut open, FlowSubGraphItem::Edge(edge));
            }
        }
    }
    Ok(db)
}

fn format_flowchart(input: &str) -> Result<String, String> {
    Ok(parse(input)?.to_mermaid())
}

fn number(s: &Option<String>) -> Option<f64> {
    s.as_ref().and_then(|s| s.parse().ok())
}

fn annotation_f64(attrs: &[FlowAnnotationAttr], key: &str) -> Option<f64> {
    number(&annotation_string(attrs, key))
}

fn point(p: &PointText) -> (f64, f64) {
    (p.x.parse().unwrap(), p.y.parse().unwrap())
}

#[test]
fn parses_node_annotation_comment() {
    let parsed = parse_annotation_comment(r##"%% @node Review x="120" y="80" fill="#fff4cc""##)
        .unwrap()
        .unwrap();

    assert_eq!(
        parsed.target,
        FlowAnnotationTarget::Node {
            id: "Review".to_string()
        }
    );
    assert_eq!(annotation_f64(&parsed.attrs, "x"), Some(120.0));
    assert_eq!(annotation_f64(&parsed.attrs, "y"), Some(80.0));
    assert_eq!(
        annotation_string(&parsed.attrs, "fill"),
        Some("#fff4cc".to_string())
    );
}

#[test]
fn parses_edge_annotation_comment_with_ordinal() {
    let parsed =
        parse_annotation_comment(r##"%% @edge A->B#2 line_color="#3366cc" line_style="dash""##)
            .unwrap()
            .unwrap();

    assert_eq!(
        parsed.target,
        FlowAnnotationTarget::Edge {
            from: "A".to_string(),
            to: "B".to_string(),
            ordinal: 2
        }
    );
    assert_eq!(
        annotation_string(&parsed.attrs, "line_color"),
        Some("#3366cc".to_string())
    );
    assert_eq!(
        annotation_line_style(&parsed.attrs, "line_style"),
        Some(LineStyle::Dash)
    );
}

#[test]
fn parses_arrow_head_annotation_values() {
    let parsed =
        parse_annotation_comment(r#"%% @edge A->B start_arrow="circle" end_arrow="cross""#)
            .unwrap()
            .unwrap();

    assert_eq!(
        annotation_arrow_head(&parsed.attrs, "start_arrow"),
        Some(ArrowHead::Circle)
    );
    assert_eq!(
        annotation_arrow_head(&parsed.attrs, "end_arrow"),
        Some(ArrowHead::Cross)
    );
}

#[test]
fn parses_bend_points_and_label_offset() {
    let parsed = parse_annotation_comment(
        r#"%% @edge A->B bend_points="10,20;30,40" label_offset_x="12" label_offset_y="-8""#,
    )
    .unwrap()
    .unwrap();

    assert_eq!(
        annotation_points(&parsed.attrs, "bend_points").map(|v| v.iter().map(point).collect::<Vec<_>>()),
        Some(vec![(10.0, 20.0), (30.0, 40.0)])
    );
    assert_eq!(
        annotation_point_pair(
            annotation_string(&parsed.attrs, "label_offset_x"),
            annotation_string(&parsed.attrs, "label_offset_y")
        )
        .map(|p| point(&p)),
        Some((12.0, -8.0))
    );
}

#[test]
fn parses_bend_points_with_pipe_separator() {
    let parsed = parse_annotation_comment(r#"%% @edge A->B bend_points="10,20|30,40|50,60""#)
        .unwrap()
        .unwrap();

    assert_eq!(
        annotation_points(&parsed.attrs, "bend_points").map(|v| v.iter().map(point).collect::<Vec<_>>()),
        Some(vec![
            (10.0, 20.0),
            (30.0, 40.0),
            (50.0, 60.0),
        ])
    );
}

fn assert_exact_roundtrip(input: &str) {
    let db = parse(input).expect("source should parse");
    let written = db.to_mermaid();
    assert_eq!(
        written, input,
        "unchanged canonical Mermaid should survive exact roundtrip"
    );
}

fn assert_formatter_idempotent(input: &str) {
    let once = format_flowchart(input).expect("source should format");
    let twice = format_flowchart(&once).expect("formatted source should stay formattable");
    assert_eq!(
        twice, once,
        "flowchart formatter should be idempotent once source is canonical"
    );
}

fn assert_formatter_equivalent_roundtrip(input: &str) {
    let formatted_input = format_flowchart(input).expect("input should format");
    let db = parse(input).expect("source should parse");
    let written = db.to_mermaid();
    let formatted_output = format_flowchart(&written).expect("writer output should format");
    assert_eq!(
        formatted_output, formatted_input,
        "formatted input and formatted writeback should match"
    );
    assert_formatter_idempotent(&formatted_output);
}

#[test]
fn writes_annotations_and_roundtrips_flowchart_subset() {
    let input = r##"flowchart TD
A[Start] --> B[Review]
subgraph Ops[Operations]
    C[Ship]
end
%% @graph width_cm="18" height_cm="10" font_face="Aptos"
%% @node B x="120" y="80" w="140" h="64" fill="#fff4cc"
%% @edge A->B start_arrow="circle" end_arrow="cross" start_connection="right" end_connection="left" path_mode="orthogonal" bend_points="180,65|180,230"
%% @group Ops x="40" y="50" w="540" h="260"
"##;

    let db = parse(input).expect("should parse original source");
    let written = wrasm::selkie::flowchart::writer::write(&db);
    let reparsed = parse(&written).expect("written source should parse again");

    assert!(written.contains("%% @edge A->B"));
    assert!(written.contains(r#"start_arrow="circle""#));
    assert!(written.contains(r#"end_arrow="cross""#));
    assert!(written.contains(r#"bend_points="180,65|180,230""#));

    let edge = reparsed.edge_annotation_overrides_for(0);
    assert_eq!(edge.start_arrow, Some(ArrowHead::Circle));
    assert_eq!(edge.end_arrow, Some(ArrowHead::Cross));
    assert_eq!(edge.start_connection, Some(ConnectionPoint::Right));
    assert_eq!(edge.end_connection, Some(ConnectionPoint::Left));
    assert_eq!(edge.path_mode.as_deref(), Some("orthogonal"));
    assert_eq!(edge.bend_points.len(), 2);

    let graph = reparsed.graph_annotation_overrides();
    assert_eq!(number(&graph.width_cm), Some(18.0));
    assert_eq!(number(&graph.height_cm), Some(10.0));
    assert_eq!(graph.font_face.as_deref(), Some("Aptos"));

    let group = reparsed.group_annotation_overrides("Ops");
    assert_eq!(number(&group.x), Some(40.0));
    assert_eq!(number(&group.width), Some(540.0));
}

#[test]
fn canonical_annotated_flowchart_survives_exact_roundtrip() {
    let input = r##"flowchart TB
A[Start]
subgraph Ops[Operations]
    B[Review]
    C[Ship]
end
A e1@--> B
B o--o C
%% @graph width_cm="18" height_cm="10" font_face="Aptos"
%% @node B x="120" y="80" fill="#fff4cc"
%% @edge A->B end_arrow="circle" path_mode="orthogonal" bend_points="180,65|180,230"
%% @group Ops x="40" y="50" w="540" h="260"
"##;

    assert_exact_roundtrip(input);
}

#[test]
fn canonical_shape_and_markdown_flowchart_survives_exact_roundtrip() {
    let input = r#"flowchart LR
A[Square]
B(Round)
C((Circle))
D{Diamond}
E[(Cylinder)]
F([Stadium])
G{{Hexagon}}
H[[Subroutine]]
I[/Lean Right/]
J[\Lean Left\]
K["`Markdown node`"]
"#;

    assert_exact_roundtrip(input);
}

#[test]
fn canonical_duplicate_edge_flowchart_survives_exact_roundtrip() {
    let input = r##"flowchart TB
A[Start]
B[Review]
A -->|first| B
A -->|second| B
%% @edge A->B#2 end_arrow="circle" line_color="#3366cc"
"##;

    assert_exact_roundtrip(input);
}

#[test]
fn canonical_top_level_vertex_order_survives_exact_roundtrip() {
    let input = r##"flowchart TB
C[Ship]
A[Start]
B[Review]
A --> B
"##;

    assert_exact_roundtrip(input);
}

#[test]
fn canonical_subgraph_member_order_survives_exact_roundtrip() {
    let input = r##"flowchart TB
subgraph Ops[Operations]
    direction LR
    C[Ship]
    A[Start]
    B[Review]
end
%% @group Ops x="40" y="50" w="540" h="260"
"##;

    assert_exact_roundtrip(input);
}

#[test]
fn canonical_nested_subgraph_survives_exact_roundtrip() {
    let input = r##"flowchart LR
subgraph outer[Outer]
    subgraph inner[Inner]
        A[Start]
        B[Review]
    end
    C[Ship]
end
%% @group outer x="20" y="30" w="500" h="320"
%% @group inner x="80" y="90" w="220" h="160"
"##;

    assert_exact_roundtrip(input);
}

#[test]
fn canonical_top_level_subgraph_then_node_survives_exact_roundtrip() {
    let input = r##"flowchart TB
subgraph Ops[Operations]
    A[Start]
end
C[Ship]
"##;

    assert_exact_roundtrip(input);
}

#[test]
fn formatter_canonicalizes_direction_aliases_for_diff_friendly_output() {
    let input = r##"flowchart TD
A[Start] --> B[Finish]
%% @edge A->B end_arrow="none"
"##;

    let expected = r##"flowchart TB
A[Start]
B[Finish]
A --> B
%% @edge A->B end_arrow="none"
"##;

    let formatted = format_flowchart(input).expect("source should format");
    assert_eq!(formatted, expected);
    assert_formatter_equivalent_roundtrip(input);
}

#[test]
fn formatter_equates_inline_edge_shorthand_roundtrip() {
    let input = r##"flowchart TD
A[Start] --> B[Finish]
C[Ship] --> D[Deliver]
"##;

    assert_formatter_equivalent_roundtrip(input);
}

#[test]
fn formatter_equates_nested_annotated_noncanonical_roundtrip() {
    let input = r##"flowchart TD
subgraph outer[Outer]
    subgraph inner[Inner]
        A[Start] --> B[Review]
        A --> B
    end
    C[Ship]
end
D[Deliver]
%% @graph width_cm="18" height_cm="10" font_face="Aptos"
%% @edge A->B#2 line_color="#3366cc" line_style="dash" end_arrow="circle"
%% @group outer x="20" y="30" w="500" h="320"
%% @group inner x="80" y="90" w="220" h="160"
"##;

    assert_formatter_equivalent_roundtrip(input);
}

#[test]
fn formatter_equates_top_level_mixed_subgraph_node_and_annotations() {
    let input = r##"flowchart TD
subgraph Ops[Operations]
    A[Start]
end
C[Ship] --> D[Deliver]
%% @node D x="240" y="160" fill="#eef6ff"
%% @edge C->D path_mode="straight" end_arrow="cross"
"##;

    assert_formatter_equivalent_roundtrip(input);
}

#[test]
fn formatter_is_idempotent_for_canonical_nested_subgraph() {
    let input = r##"flowchart LR
subgraph outer[Outer]
    subgraph inner[Inner]
        A[Start]
        B[Review]
    end
    C[Ship]
end
%% @group outer x="20" y="30" w="500" h="320"
%% @group inner x="80" y="90" w="220" h="160"
"##;

    assert_formatter_idempotent(input);
}

#[test]
fn flowchart_db_to_mermaid_uses_writer() {
    let input = r##"flowchart TD
A[Start] --> B[Finish]
%% @edge A->B end_arrow="none"
"##;
    let db = parse(input).expect("should parse source");
    let written = db.to_mermaid();

    assert!(written.starts_with("flowchart TB"));
    assert!(written.contains(r#"%% @edge A->B end_arrow="none""#));
}

#[test]
fn writer_roundtrips_vertex_shapes_and_markdown_labels() {
    let input = r#"flowchart LR
A[Square]
B(Round)
C((Circle))
D{Diamond}
E[(Cylinder)]
F([Stadium])
G{{Hexagon}}
H[[Subroutine]]
I[/Lean Right/]
J[\Lean Left\]
K["`Markdown node`"]
"#;

    let db = parse(input).expect("should parse original shape source");
    let written = db.to_mermaid();
    let reparsed = parse(&written).expect("written shape source should parse");

    let expected = [
        ("A", FlowVertexType::Square),
        ("B", FlowVertexType::Round),
        ("C", FlowVertexType::Circle),
        ("D", FlowVertexType::Diamond),
        ("E", FlowVertexType::Cylinder),
        ("F", FlowVertexType::Stadium),
        ("G", FlowVertexType::Hexagon),
        ("H", FlowVertexType::Subroutine),
        ("I", FlowVertexType::LeanRight),
        ("J", FlowVertexType::LeanLeft),
        ("K", FlowVertexType::Square),
    ];

    for (id, shape) in expected {
        let vertex = reparsed.vertices().get(id).expect("vertex should exist");
        assert_eq!(
            vertex.vertex_type,
            Some(shape.clone()),
            "writer should preserve shape for {id}. source:\n{written}"
        );
    }

    let markdown = reparsed
        .vertices()
        .get("K")
        .expect("markdown node should exist");
    assert_eq!(markdown.label_type, FlowTextType::Markdown);
    assert!(written.contains(r#"K["`Markdown node`"]"#));
}

#[test]
fn writer_roundtrips_edge_ids_and_arrow_variants() {
    let input = r##"flowchart LR
A e1@--> B
B o--o C
C x--x D
D -.-> E
"##;

    let db = parse(input).expect("should parse edge source");
    let written = db.to_mermaid();
    let reparsed = parse(&written).expect("written edge source should parse");

    assert!(written.contains("e1@-->"));

    let edges = reparsed.edges();
    assert_eq!(edges.len(), 4);
    assert_eq!(edges[0].id.as_deref(), Some("e1"));
    assert!(edges[0].is_user_defined_id);
    assert_eq!(edges[0].edge_type.as_deref(), Some("arrow_point"));
    assert_eq!(edges[1].edge_type.as_deref(), Some("double_arrow_circle"));
    assert_eq!(edges[2].edge_type.as_deref(), Some("double_arrow_cross"));
    assert_eq!(edges[3].stroke, EdgeStroke::Dotted);
    assert_eq!(edges[3].edge_type.as_deref(), Some("arrow_point"));
}

#[test]
fn writer_roundtrips_subgraph_direction_and_members() {
    let input = r#"flowchart TB
subgraph Ops[Operations]
    direction LR
    A[Start]
    B[Review]
end
A --> B
"#;

    let db = parse(input).expect("should parse subgraph source");
    let written = db.to_mermaid();
    let reparsed = parse(&written).expect("written subgraph source should parse");

    assert!(written.contains("subgraph Ops[Operations]"));
    assert!(written.contains("    direction LR"));
    assert_eq!(reparsed.subgraphs().len(), 1);
    assert_eq!(reparsed.subgraphs()[0].dir.as_deref(), Some("LR"));
    assert!(reparsed.subgraphs()[0].nodes.contains(&"A".to_string()));
    assert!(reparsed.subgraphs()[0].nodes.contains(&"B".to_string()));
}

#[test]
fn edit_write_parse_render_roundtrip_updates_result() {
    let input = r##"flowchart TD
A[Start] --> B[Review]
%% @node B x="120" y="80" fill="#fff4cc"
%% @edge A->B end_arrow="cross"
"##;

    let mut db = parse(input).expect("should parse editable source");

    assert!(db.set_vertex_text_obj("B", FlowText::markdown("Updated Review")));
    db.set_annotation_attr(
        FlowAnnotationTarget::Node {
            id: "B".to_string(),
        },
        "fill",
        "#cfe8ff",
    );
    db.set_annotation_attr(
        FlowAnnotationTarget::Node {
            id: "B".to_string(),
        },
        "x",
        "210",
    );
    db.set_annotation_attr(
        FlowAnnotationTarget::Edge {
            from: "A".to_string(),
            to: "B".to_string(),
            ordinal: 1,
        },
        "end_arrow",
        "circle",
    );
    db.set_annotation_attr(
        FlowAnnotationTarget::Edge {
            from: "A".to_string(),
            to: "B".to_string(),
            ordinal: 1,
        },
        "path_mode",
        "orthogonal",
    );
    db.set_annotation_attr(
        FlowAnnotationTarget::Edge {
            from: "A".to_string(),
            to: "B".to_string(),
            ordinal: 1,
        },
        "bend_points",
        "180,65|180,140",
    );

    let written = db.to_mermaid();
    let reparsed = parse(&written).expect("edited Mermaid should parse");

    let vertex = reparsed.vertices().get("B").expect("B should exist");
    assert_eq!(vertex.label_type, FlowTextType::Markdown);
    assert_eq!(vertex.text.as_deref(), Some("Updated Review"));

    let node = reparsed.node_annotation_overrides("B");
    assert_eq!(node.fill.as_deref(), Some("#cfe8ff"));
    assert_eq!(number(&node.x), Some(210.0));

    let edge = reparsed.edge_annotation_overrides_for(0);
    assert_eq!(edge.end_arrow, Some(ArrowHead::Circle));
    assert_eq!(edge.path_mode.as_deref(), Some("orthogonal"));
    assert_eq!(edge.bend_points.len(), 2);

    assert!(written.contains(r#"B["`Updated Review`"]"#));
    assert!(written.contains(r#"%% @edge A->B end_arrow="circle""#));
    assert!(written.contains(r#"bend_points="180,65|180,140""#));
}

#[test]
fn edit_roundtrip_preserves_group_membership_changes() {
    let input = r##"flowchart TD
A[Start]
B[Review]
subgraph Ops[Operations]
    C[Ship]
end
%% @node B x="35" y="55" fill="#eef6ff"
"##;

    let mut db = parse(input).expect("should parse editable group source");
    assert!(db.move_vertex_to_subgraph("B", Some("Ops")));
    db.set_annotation_attr(
        FlowAnnotationTarget::Group {
            id: "Ops".to_string(),
        },
        "x",
        "40",
    );
    db.set_annotation_attr(
        FlowAnnotationTarget::Group {
            id: "Ops".to_string(),
        },
        "y",
        "60",
    );

    let written = db.to_mermaid();
    let reparsed = parse(&written).expect("edited Mermaid should parse");

    let ops = reparsed
        .subgraphs()
        .iter()
        .find(|sg| sg.id == "Ops")
        .expect("Ops subgraph should exist");
    assert!(ops.nodes.contains(&"B".to_string()));
    assert!(ops.nodes.contains(&"C".to_string()));
    assert!(!written.contains("\nB[Review]\n"));
    assert!(written.contains("subgraph Ops[Operations]"));
    assert!(written.contains("    B[Review]"));

    let group = reparsed.group_annotation_overrides("Ops");
    assert_eq!(number(&group.x), Some(40.0));
    assert_eq!(number(&group.y), Some(60.0));
}

#[test]
fn edit_roundtrip_preserves_edge_topology_changes() {
    let input = r##"flowchart TD
A[Start] --> B[Review]
%% @edge A->B end_arrow="cross" line_color="#3366cc"
"##;

    let mut db = parse(input).expect("should parse editable topology source");
    let removed = db.remove_edge_at(0).expect("edge should be removed");
    assert_eq!(removed.start, "A");
    assert_eq!(removed.end, "B");

    db.add_vertex_simple("C", Some("Ship"), Some(FlowVertexType::Rect));
    db.add_edge("B", "C", "-->", Some("next"), None);
    db.set_annotation_attr(
        FlowAnnotationTarget::Edge {
            from: "B".to_string(),
            to: "C".to_string(),
            ordinal: 1,
        },
        "end_arrow",
        "circle",
    );
    db.set_annotation_attr(
        FlowAnnotationTarget::Edge {
            from: "B".to_string(),
            to: "C".to_string(),
            ordinal: 1,
        },
        "line_color",
        "#228833",
    );

    let written = db.to_mermaid();
    let reparsed = parse(&written).expect("edited topology Mermaid should parse");

    assert!(!written.contains(r#"%% @edge A->B end_arrow="cross""#));
    assert!(written.contains("B -->|next| C"));
    assert!(written.contains(r#"%% @edge B->C end_arrow="circle""#));

    assert_eq!(reparsed.edges().len(), 1);
    assert_eq!(reparsed.edges()[0].start, "B");
    assert_eq!(reparsed.edges()[0].end, "C");

    let edge = reparsed.edge_annotation_overrides_for(0);
    assert_eq!(edge.end_arrow, Some(ArrowHead::Circle));
    assert_eq!(edge.line_color.as_deref(), Some("#228833"));
}

#[test]
fn edit_roundtrip_retargets_duplicate_edge_annotations_after_removal() {
    let input = r##"flowchart TD
A[Start]
B[Review]
A -->|first| B
A -->|second| B
%% @edge A->B#2 end_arrow="circle" line_color="#3366cc"
"##;

    let mut db = parse(input).expect("should parse duplicate-edge source");
    let removed = db
        .remove_edge_at(0)
        .expect("first duplicate edge should be removed");
    assert_eq!(removed.text, "first");

    let written = db.to_mermaid();
    let reparsed = parse(&written).expect("retargeted Mermaid should parse");

    assert_eq!(reparsed.edges().len(), 1);
    assert_eq!(reparsed.edges()[0].text, "second");
    assert!(written.contains("A -->|second| B"));
    assert!(!written.contains("A -->|first| B"));
    assert!(written.contains(r##"%% @edge A->B end_arrow="circle" line_color="#3366cc""##));
    assert!(!written.contains("%% @edge A->B#2"));

    let edge = reparsed.edge_annotation_overrides_for(0);
    assert_eq!(edge.end_arrow, Some(ArrowHead::Circle));
    assert_eq!(edge.line_color.as_deref(), Some("#3366cc"));
}

#[test]
fn edit_roundtrip_preserves_nested_group_membership_changes() {
    let input = r##"flowchart TB
subgraph outer[Outer]
    subgraph inner[Inner]
        A[Start]
        B[Review]
    end
    C[Ship]
end
%% @group outer x="20" y="30" w="500" h="320"
%% @group inner x="80" y="90" w="220" h="160"
"##;

    let mut db = parse(input).expect("should parse nested editable source");
    assert!(db.move_vertex_to_subgraph("C", Some("inner")));
    db.set_annotation_attr(
        FlowAnnotationTarget::Node {
            id: "C".to_string(),
        },
        "fill",
        "#d9f2d9",
    );

    let written = db.to_mermaid();
    let reparsed = parse(&written).expect("edited nested Mermaid should parse");

    let inner = reparsed
        .subgraphs()
        .iter()
        .find(|sg| sg.id == "inner")
        .expect("inner subgraph should exist");
    assert!(inner.nodes.contains(&"A".to_string()));
    assert!(inner.nodes.contains(&"B".to_string()));
    assert!(inner.nodes.contains(&"C".to_string()));
    assert!(matches!(
        inner.items.last(),
        Some(FlowSubGraphItem::Node(id)) if id == "C"
    ));

    let node = reparsed.node_annotation_overrides("C");
    assert_eq!(node.fill.as_deref(), Some("#d9f2d9"));

    assert!(written.contains("subgraph inner[Inner]"));
    assert!(written.contains("        C[Ship]"));
    assert!(!written.contains("\n    C[Ship]\nend"));
}

#[test]
fn edit_roundtrip_preserves_nested_edge_placement_changes() {
    let input = r##"flowchart TB
subgraph outer[Outer]
    subgraph inner[Inner]
        A[Start]
        B[Review]
    end
    C[Ship]
end
"##;

    let mut db = parse(input).expect("should parse nested edge-edit source");
    db.add_edge("A", "B", "-->", Some("retry"), None);
    let new_edge_index = db.edges().len() - 1;
    assert!(db.move_edge_to_subgraph(new_edge_index, Some("inner")));
    db.set_annotation_attr(
        FlowAnnotationTarget::Edge {
            from: "A".to_string(),
            to: "B".to_string(),
            ordinal: 1,
        },
        "end_arrow",
        "circle",
    );

    let written = db.to_mermaid();
    let reparsed = parse(&written).expect("edited nested-edge Mermaid should parse");

    let inner = reparsed
        .subgraphs()
        .iter()
        .find(|sg| sg.id == "inner")
        .expect("inner subgraph should exist");
    assert!(matches!(
        inner.items.last(),
        Some(FlowSubGraphItem::Edge(id)) if id.starts_with("L-A-B-")
    ));
    assert!(written.contains("        A -->|retry| B"));

    let retry_edge = reparsed
        .edges()
        .iter()
        .position(|edge| edge.text == "retry")
        .expect("retry edge should exist");
    let edge = reparsed.edge_annotation_overrides_for(retry_edge);
    assert_eq!(edge.end_arrow, Some(ArrowHead::Circle));
}


#[test]
fn numerals_are_those_that_parse() {
    let texts = [
        "0", "-1", "+2", "3.", ".5", "-.5", "1e3", "1E-3", "1.5e+10", "inf", "-Infinity", "NaN", "007", "", "+",
        ".", "-.", "e5", "1e", "1e+", "1.2.3", "0x10", "1_000", " 1", "1 ", "infin", "--1", "1,5",
    ];
    for t in texts {
        let a = [FlowAnnotationAttr { key: "x".into(), value: t.into() }];
        assert_eq!(annotation_number(&a, "x").is_some(), t.parse::<f64>().is_ok(), "{t:?}");
    }
}

#[test]
fn a_point_that_is_no_number_spoils_the_list() {
    let points = |v: &str| {
        let a = [FlowAnnotationAttr { key: "p".into(), value: v.into() }];
        annotation_points(&a, "p")
    };
    assert_eq!(points("1,2; ;3,4|").unwrap().len(), 2);
    assert_eq!(points("").unwrap().len(), 0);
    assert!(points("1,2|x,4").is_none());
    assert!(points("1,2,3").is_none());
    assert!(points("1").is_none());
}

#[test]
fn the_last_attribute_of_a_key_counts() {
    let a = parse_annotation_comment("%% @node A fill=\"red\" fill=\"blue\"").unwrap().unwrap();
    assert_eq!(annotation_string(&a.attrs, "fill").as_deref(), Some("blue"));
    assert_eq!(annotation_string(&a.attrs, "stroke"), None);
}

#[test]
fn named_attribute_values_are_read() {
    let a = parse_annotation_comment("%% @node A label_align=\"center\" c=\"bottom\" l=\"dot\"").unwrap().unwrap();
    assert_eq!(annotation_label_align(&a.attrs, "label_align"), Some(LabelAlign::Center));
    assert_eq!(annotation_connection_point(&a.attrs, "c"), Some(ConnectionPoint::Bottom));
    assert_eq!(annotation_line_style(&a.attrs, "l"), Some(LineStyle::Dot));
    assert_eq!(annotation_label_align(&a.attrs, "c"), None);
}

#[test]
fn a_plain_comment_is_no_annotation() {
    assert!(parse_annotation_comment("%% just words").unwrap().is_none());
    assert!(parse_annotation_comment("%% @edge AB x=\"1\"").is_err());
}

#[test]
fn a_set_attribute_reads_back_and_leaves_others() {
    let mut db = parse("flowchart TB\nA[a]\nB[b]\n%% @node B fill=\"red\"\n").unwrap();
    let a = FlowAnnotationTarget::Node { id: "A".into() };
    db.set_annotation_attr(a.clone(), "fill", "#fff");
    db.set_annotation_attr(a.clone(), "x", "7");
    assert_eq!(db.node_annotation_overrides("A").fill.as_deref(), Some("#fff"));
    assert_eq!(db.node_annotation_overrides("B").fill.as_deref(), Some("red"));
    db.remove_annotation_attr(&a, "fill");
    assert_eq!(db.node_annotation_overrides("A").fill, None);
    assert_eq!(number(&db.node_annotation_overrides("A").x), Some(7.0));
    db.remove_annotations_for_target(&a);
    assert_eq!(db.node_annotation_overrides("A").x, None);
}

#[test]
fn annotations_round_trip_through_quotes() {
    let mut db = FlowchartDb::new();
    db.add_annotation(FlowAnnotation {
        target: FlowAnnotationTarget::Graph,
        attrs: vec![FlowAnnotationAttr { key: "note".into(), value: "a \"b\" = c".into() }],
    });
    let written = db.to_mermaid();
    let again = parse(&written).unwrap();
    assert_eq!(again.annotations(), db.annotations());
}

#[test]
fn arrows_are_read_and_written_back() {
    for (arrow, ends, stroke, length) in [
        ("-->", "arrow_point", EdgeStroke::Normal, 1),
        ("---", "arrow_open", EdgeStroke::Normal, 1),
        ("==>", "arrow_point", EdgeStroke::Thick, 1),
        ("-.->", "arrow_point", EdgeStroke::Dotted, 1),
        ("-..->", "arrow_point", EdgeStroke::Dotted, 2),
        ("<-->", "double_arrow_point", EdgeStroke::Normal, 1),
        ("x--x", "double_arrow_cross", EdgeStroke::Normal, 1),
        ("o--o", "double_arrow_circle", EdgeStroke::Normal, 1),
        ("--x", "arrow_cross", EdgeStroke::Normal, 1),
        ("~~~", "arrow_open", EdgeStroke::Invisible, 1),
    ] {
        let (e, s, n) = parse_arrow(arrow);
        assert_eq!((e.as_str(), s, n), (ends, stroke, length), "{arrow}");
    }
    let mut db = FlowchartDb::new();
    db.add_edge("A", "B", "==>", None, None);
    assert_eq!(edge_arrow(&db.edges()[0]), "==>");
}

#[test]
fn directions_have_one_spelling() {
    assert_eq!(Direction::parse("TD"), Direction::TopToBottom);
    assert_eq!(Direction::parse("LR").as_str(), "LR");
    assert_eq!(Direction::parse("RL").as_str(), "RL");
    assert_eq!(Direction::parse("BT").as_str(), "BT");
}

#[test]
fn classes_and_styles_are_collected() {
    let mut db = FlowchartDb::new();
    db.add_vertex_simple("A", None, None);
    db.add_class("hot", &["fill:red".to_string(), "color:blue".to_string()]);
    db.set_class("A", "hot");
    let a = db.vertices().get("A").unwrap().clone();
    assert_eq!(a.classes, vec!["hot".to_string()]);
    let styles = db.get_compiled_styles(&a).unwrap();
    assert!(styles.contains("fill:red"), "{styles}");
}

#[test]
fn every_start_is_linked_to_every_end() {
    let mut db = FlowchartDb::new();
    for id in ["A", "B", "C", "D"] {
        db.add_vertex_simple(id, None, None);
    }
    let none: Option<&FlowLink> = None;
    db.add_link(&["A", "B"], &["C", "D"], none);
    let pairs: Vec<(&str, &str)> = db.edges().iter().map(|e| (e.start.as_str(), e.end.as_str())).collect();
    assert_eq!(pairs, vec![("A", "C"), ("A", "D"), ("B", "C"), ("B", "D")]);
}

#[test]
fn a_moved_node_is_in_its_new_subgraph_alone() {
    let mut db = parse("flowchart TB\nsubgraph P[p]\n    A[a]\nend\nsubgraph Q[q]\n    B[b]\nend\n").unwrap();
    assert!(db.move_vertex_to_subgraph("A", Some("Q")));
    let holders: Vec<&str> =
        db.subgraphs().iter().filter(|s| s.nodes.contains(&"A".to_string())).map(|s| s.id.as_str()).collect();
    assert_eq!(holders, vec!["Q"]);
    assert!(!db.move_vertex_to_subgraph("A", Some("gone")));
    assert!(!db.move_vertex_to_subgraph("gone", Some("Q")));
}

#[test]
fn a_clear_chart_is_a_new_one() {
    let mut db = parse("flowchart LR\nA[a] --> B[b]\n%% @node A x=\"1\"\n").unwrap();
    db.clear();
    assert_eq!(db.to_mermaid(), FlowchartDb::new().to_mermaid());
    assert!(db.edges().is_empty() && db.vertex_order().is_empty());
}

#[test]
fn titles_are_kept() {
    let mut db = FlowchartDb::new();
    assert_eq!(db.get_acc_title(), None);
    db.set_acc_title("t");
    db.set_acc_description("d");
    db.set_diagram_title("g");
    assert_eq!((db.get_acc_title(), db.get_acc_description(), db.get_diagram_title()), (Some("t"), Some("d"), Some("g")));
}

#[test]
fn wide_art_is_cut() {
    assert_eq!(truncate_ascii_width("abcdef\nab", Some(4)), "abcd\nab\n");
    assert_eq!(truncate_ascii_width("abcdef\n", None), "abcdef\n");
}

#[test]
fn opposite_ends_take_opposite_sides() {
    let b = Bearing { wide: true, right: true, below: false };
    assert_eq!(connection_side(None, b, true), ConnectionPoint::Right);
    assert_eq!(connection_side(None, b, false), ConnectionPoint::Left);
    assert_eq!(connection_side(Some(ConnectionPoint::Top), b, true), ConnectionPoint::Top);
}

#[test]
fn courses_have_their_names() {
    let named = |mode: Option<&str>, bends: usize, aligned: bool| {
        let (c, n) = route(mode, bends, aligned);
        (c, n.as_str().to_string())
    };
    assert_eq!(named(None, 2, false), (Course::Bends, "manual".to_string()));
    assert_eq!(named(Some("Straight"), 0, false), (Course::Straight, "straight".to_string()));
    assert_eq!(named(Some("orth"), 0, true), (Course::Angled, "orthogonal".to_string()));
    assert_eq!(named(None, 0, true), (Course::Straight, "straight".to_string()));
    assert_eq!(named(None, 0, false), (Course::Angled, "curved".to_string()));
}

#[test]
fn a_laid_out_edge_is_found_by_id_or_by_its_ends() {
    let db = parse("flowchart LR\nA e1@--> B\nB --> C\n").unwrap();
    assert_eq!(find_flow_edge_for_layout_edge(&db, "e1", None, None), Some(0));
    assert_eq!(find_flow_edge_for_layout_edge(&db, "other", Some("B"), Some("C")), Some(1));
    assert_eq!(find_flow_edge_for_layout_edge(&db, "other", Some("C"), Some("B")), None);
    let plain = db.edge_annotation_overrides_for(0);
    assert!(needs_reroute(true, false, 0, &plain));
    assert!(!needs_reroute(false, false, 0, &plain));
    assert!(needs_reroute(false, false, 1, &plain));
}

#[test]
fn kinds_that_cannot_be_drawn_are_named() {
    assert_eq!(diagram_type_name(DiagramKind::Er), "ER");
    assert_eq!(svg_refusal(DiagramKind::Flowchart), None);
    assert_eq!(ascii_refusal(DiagramKind::Flowchart), None);
    assert!(ascii_refusal(DiagramKind::Info).is_some() || svg_refusal(DiagramKind::Info).is_some());
}

#[test]
fn annotated_nodes_move() {
    let db = parse(
        "flowchart TB\nA[a]\nB[b]\nD[d]\nsubgraph G[g]\n    C[c]\nend\n%% @node A x=\"1\"\n%% @node B w=\"wide\"\n%% @node D h=\"4\"\n",
    )
    .unwrap();
    assert!(node_is_moved(&db, "A", false, &[None]));
    assert!(!node_is_moved(&db, "A", true, &[Some(false)]));
    assert!(!node_is_moved(&db, "B", false, &[Some(true)]));
    assert!(node_is_moved(&db, "D", true, &[None]));
    assert!(node_is_moved(&db, "C", true, &[Some(true)]));
    assert!(!node_is_moved(&db, "C", true, &[Some(false)]));
}

#[test]
fn a_set_attribute_has_one_value_over_all_annotations_of_its_target() {
    let mut db = parse(
        "flowchart TB\nA[a]\nB[b]\n%% @node A fill=\"red\" x=\"1\"\n%% @node B fill=\"blue\"\n%% @node A fill=\"green\" y=\"2\"\n%% @node A fill=\"grey\"\n",
    )
    .unwrap();
    let node = |id: &str| FlowAnnotationTarget::Node { id: id.to_string() };
    db.set_annotation_attr(node("A"), "fill", "white");
    let of = |id: &str| -> Vec<(String, String)> {
        db.annotations()
            .iter()
            .filter(|a| a.target == node(id))
            .flat_map(|a| a.attrs.iter().map(|t| (t.key.clone(), t.value.clone())))
            .collect()
    };
    let pair = |k: &str, v: &str| (k.to_string(), v.to_string());
    assert_eq!(of("A"), vec![pair("x", "1"), pair("fill", "white"), pair("y", "2")]);
    assert_eq!(of("B"), vec![pair("fill", "blue")]);
    assert_eq!(db.annotations().len(), 3); // the third one of A is empty and gone
    assert_eq!(db.node_annotation_overrides("A").fill.as_deref(), Some("white"));
    assert_eq!(db.node_annotation_overrides("A").y.as_deref(), Some("2"));
    assert_eq!(db.node_annotation_overrides("B").fill.as_deref(), Some("blue"));
}

#[test]
fn an_edge_from_elsewhere_counts_as_the_last_between_its_nodes() {
    let db = parse(
        "flowchart LR\nA --> B\nA --> B\n%% @edge A->B line_color=\"red\"\n%% @edge A->B#2 line_color=\"blue\"\n%% @edge B->A line_color=\"green\"\n",
    )
    .unwrap();
    assert_eq!(db.annotations().len(), 3);
    let color = |a: &str, b: &str| db.loose_edge_annotation_overrides(&FlowEdge::new(a, b)).line_color;
    assert_eq!(color("A", "B").as_deref(), Some("blue"));
    assert_eq!(color("B", "A").as_deref(), Some("green"));
    assert_eq!(color("B", "C"), None);
    assert_eq!(db.edge_annotation_overrides_for(0).line_color.as_deref(), Some("red"));
}

#[test]
fn parts_start_out_empty() {
    let t = FlowText::default();
    assert_eq!((t.text.as_str(), t.text_type), ("", FlowTextType::Text));
    let l = FlowLink::default();
    assert!(l.link_type.is_none() && l.length.is_none() && l.text.is_none() && l.id.is_none());
    assert_eq!(l.stroke, EdgeStroke::Normal);
    let g = FlowSubGraph::default();
    assert!(g.id.is_empty() && g.nodes.is_empty() && g.items.is_empty() && g.dir.is_none());
    assert!(FlowClass::default().styles.is_empty());
    let db = parse("flowchart LR\nA --> B\n").unwrap();
    assert_eq!(db.graph_annotation_overrides(), GraphAnnotationOverrides::default());
    assert_eq!(db.node_annotation_overrides("A"), NodeAnnotationOverrides::default());
    assert_eq!(db.edge_annotation_overrides_for(0), EdgeAnnotationOverrides::default());
    assert_eq!(db.group_annotation_overrides("G"), GroupAnnotationOverrides::default());
}
