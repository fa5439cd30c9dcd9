//! What the annotations of a chart say of its parts. Numbers are kept as they are
//! written; a text that is no number counts as none.
use crate::selkie::flowchart::annotations;
use crate::text;
use crate::selkie::flowchart::annotations::{
    AnnotationView, ArrowHead, AttrView, ConnectionPoint, FlowAnnotation, FlowAnnotationAttr,
    FlowAnnotationTarget, LabelAlign, LineStyle, PointText, TargetView, annotation_arrow_head,
    annotation_connection_point, annotation_label_align, annotation_line_style, annotation_number,
    annotation_point_pair, annotation_points, annotation_string,
};
use crate::selkie::table::duplicate_all;
use vstd::prelude::*;

verus! {

/// What the annotations say of the whole chart.
#[derive(Debug, Clone, PartialEq, Eq)]
pub struct GraphAnnotationOverrides {
    pub width_cm: Option<String>,
    pub height_cm: Option<String>,
    pub canvas_fill: Option<String>,
    pub font_face: Option<String>,
    pub node_label_font_size: Option<String>,
    pub group_label_font_size: Option<String>,
    pub edge_label_font_size: Option<String>,
    pub node_label_align: Option<LabelAlign>,
    pub group_label_align: Option<LabelAlign>,
    pub edge_label_align: Option<LabelAlign>,
}

impl Default for GraphAnnotationOverrides {
    fn default() -> (r: Self)
        ensures
            r.width_cm is None,
            r.height_cm is None,
            r.canvas_fill is None,
            r.font_face is None,
            r.node_label_font_size is None,
            r.group_label_font_size is None,
            r.edge_label_font_size is None,
            r.node_label_align is None,
            r.group_label_align is None,
            r.edge_label_align is None,
    {
        GraphAnnotationOverrides {
            width_cm: None,
            height_cm: None,
            canvas_fill: None,
            font_face: None,
            node_label_font_size: None,
            group_label_font_size: None,
            edge_label_font_size: None,
            node_label_align: None,
            group_label_align: None,
            edge_label_align: None,
        }
    }
}

/// What the annotations say of a node.
#[derive(Debug, Clone, PartialEq, Eq)]
pub struct NodeAnnotationOverrides {
    pub x: Option<String>,
    pub y: Option<String>,
    pub width: Option<String>,
    pub height: Option<String>,
    pub fill: Option<String>,
    pub stroke: Option<String>,
    pub line_width: Option<String>,
    pub label_align: Option<LabelAlign>,
}

impl Default for NodeAnnotationOverrides {
    fn default() -> (r: Self)
        ensures
            r.x is None,
            r.y is None,
            r.width is None,
            r.height is None,
            r.fill is None,
            r.stroke is None,
            r.line_width is None,
            r.label_align is None,
    {
        NodeAnnotationOverrides {
            x: None,
            y: None,
            width: None,
            height: None,
            fill: None,
            stroke: None,
            line_width: None,
            label_align: None,
        }
    }
}

/// What the annotations say of an edge.
#[derive(Debug, Clone, PartialEq, Eq)]
pub struct EdgeAnnotationOverrides {
    pub line_color: Option<String>,
    pub line_width: Option<String>,
    pub line_style: Option<LineStyle>,
    pub start_arrow: Option<ArrowHead>,
    pub end_arrow: Option<ArrowHead>,
    pub start_connection: Option<ConnectionPoint>,
    pub end_connection: Option<ConnectionPoint>,
    pub path_mode: Option<String>,
    pub bend_points: Vec<PointText>,
    pub label_offset: Option<PointText>,
}

impl Default for EdgeAnnotationOverrides {
    fn default() -> (r: Self)
        ensures
            r.line_color is None,
            r.line_width is None,
            r.line_style is None,
            r.start_arrow is None,
            r.end_arrow is None,
            r.start_connection is None,
            r.end_connection is None,
            r.path_mode is None,
            r.bend_points@ == Seq::<PointText>::empty(),
            r.label_offset is None,
    {
        EdgeAnnotationOverrides {
            line_color: None,
            line_width: None,
            line_style: None,
            start_arrow: None,
            end_arrow: None,
            start_connection: None,
            end_connection: None,
            path_mode: None,
            bend_points: Vec::new(),
            label_offset: None,
        }
    }
}

/// What the annotations say of a subgraph.
#[derive(Debug, Clone, PartialEq, Eq)]
pub struct GroupAnnotationOverrides {
    pub x: Option<String>,
    pub y: Option<String>,
    pub width: Option<String>,
    pub height: Option<String>,
    pub fill: Option<String>,
    pub stroke: Option<String>,
    pub label_align: Option<LabelAlign>,
}

impl Default for GroupAnnotationOverrides {
    fn default() -> (r: Self)
        ensures
            r.x is None,
            r.y is None,
            r.width is None,
            r.height is None,
            r.fill is None,
            r.stroke is None,
            r.label_align is None,
    {
        GroupAnnotationOverrides {
            x: None,
            y: None,
            width: None,
            height: None,
            fill: None,
            stroke: None,
            label_align: None,
        }
    }
}

/// The attributes of all annotations of `target`, in order.
pub open spec fn target_attrs(v: Seq<AnnotationView>, target: TargetView) -> Seq<AttrView>
    decreases v.len(),
{
    if v.len() == 0 {
        Seq::empty()
    } else if v.last().target == target {
        target_attrs(v.drop_last(), target) + v.last().attrs
    } else {
        target_attrs(v.drop_last(), target)
    }
}

pub fn collect_annotation_attrs(v: &[FlowAnnotation], target: &FlowAnnotationTarget) -> (r: Vec<
    FlowAnnotationAttr,
>)
    ensures
        annotations::attrs_view(r@) == target_attrs(annotations::annotations_view(v@), target@),
{
    let ghost all = annotations::annotations_view(v@);
    let mut r: Vec<FlowAnnotationAttr> = Vec::new();
    let mut i: usize = 0;
    assert(annotations::attrs_view(r@) =~= Seq::empty());
    while i < v.len()
        invariant
            all == annotations::annotations_view(v@),
            i <= v@.len(),
            annotations::attrs_view(r@) == target_attrs(all.take(i as int), target@),
        decreases v@.len() - i,
    {
        assert(all.take(i + 1).drop_last() =~= all.take(i as int));
        assert(all.take(i + 1).last() == v@[i as int]@);
        if v[i].target.same(target) {
            let ghost before = annotations::attrs_view(r@);
            let mut more = duplicate_all(&v[i].attrs);
            let ghost m = more@;
            assert(annotations::attrs_view(m) =~= v@[i as int]@.attrs);
            r.append(&mut more);
            assert(annotations::attrs_view(r@) =~= before + annotations::attrs_view(m));
        }
        i += 1;
    }
    assert(all.take(all.len() as int) =~= all);
    r
}

/// What the attributes say of the whole chart.
pub open spec fn graph_overrides(r: GraphAnnotationOverrides, a: Seq<AttrView>) -> bool {
    &&& text::opt_text(r.width_cm) == annotations::number_value(a, "width_cm"@)
    &&& text::opt_text(r.height_cm) == annotations::number_value(a, "height_cm"@)
    &&& text::opt_text(r.canvas_fill) == annotations::attr_value(a, "canvas_fill"@)
    &&& text::opt_text(r.font_face) == annotations::attr_value(a, "font_face"@)
    &&& text::opt_text(r.node_label_font_size) == annotations::number_value(a, "node_label_font_size"@)
    &&& text::opt_text(r.group_label_font_size) == annotations::number_value(a, "group_label_font_size"@)
    &&& text::opt_text(r.edge_label_font_size) == annotations::number_value(a, "edge_label_font_size"@)
    &&& r.node_label_align == annotations::align_value(a, "node_label_align"@)
    &&& r.group_label_align == annotations::align_value(a, "group_label_align"@)
    &&& r.edge_label_align == annotations::align_value(a, "edge_label_align"@)
}

pub fn read_graph_overrides(a: &[FlowAnnotationAttr]) -> (r: GraphAnnotationOverrides)
    ensures
        graph_overrides(r, annotations::attrs_view(a@)),
{
    GraphAnnotationOverrides {
        width_cm: annotation_number(a, "width_cm"),
        height_cm: annotation_number(a, "height_cm"),
        canvas_fill: annotation_string(a, "canvas_fill"),
        font_face: annotation_string(a, "font_face"),
        node_label_font_size: annotation_number(a, "node_label_font_size"),
        group_label_font_size: annotation_number(a, "group_label_font_size"),
        edge_label_font_size: annotation_number(a, "edge_label_font_size"),
        node_label_align: annotation_label_align(a, "node_label_align"),
        group_label_align: annotation_label_align(a, "group_label_align"),
        edge_label_align: annotation_label_align(a, "edge_label_align"),
    }
}

/// What the attributes say of a node.
pub open spec fn node_overrides(r: NodeAnnotationOverrides, a: Seq<AttrView>) -> bool {
    &&& text::opt_text(r.x) == annotations::number_value(a, "x"@)
    &&& text::opt_text(r.y) == annotations::number_value(a, "y"@)
    &&& text::opt_text(r.width) == annotations::number_value(a, "w"@)
    &&& text::opt_text(r.height) == annotations::number_value(a, "h"@)
    &&& text::opt_text(r.fill) == annotations::attr_value(a, "fill"@)
    &&& text::opt_text(r.stroke) == annotations::attr_value(a, "stroke"@)
    &&& text::opt_text(r.line_width) == annotations::number_value(a, "line_width"@)
    &&& r.label_align == annotations::align_value(a, "label_align"@)
}

pub fn read_node_overrides(a: &[FlowAnnotationAttr]) -> (r: NodeAnnotationOverrides)
    ensures
        node_overrides(r, annotations::attrs_view(a@)),
{
    NodeAnnotationOverrides {
        x: annotation_number(a, "x"),
        y: annotation_number(a, "y"),
        width: annotation_number(a, "w"),
        height: annotation_number(a, "h"),
        fill: annotation_string(a, "fill"),
        stroke: annotation_string(a, "stroke"),
        line_width: annotation_number(a, "line_width"),
        label_align: annotation_label_align(a, "label_align"),
    }
}

/// What the attributes say of an edge. `line_style` may also be written
/// `line_type`; misshapen bend points count as none.
pub open spec fn edge_overrides(r: EdgeAnnotationOverrides, a: Seq<AttrView>) -> bool {
    &&& text::opt_text(r.line_color) == annotations::attr_value(a, "line_color"@)
    &&& text::opt_text(r.line_width) == annotations::number_value(a, "line_width"@)
    &&& r.line_style == match annotations::line_style_value(a, "line_style"@) {
        Some(s) => Some(s),
        None => annotations::line_style_value(a, "line_type"@),
    }
    &&& r.start_arrow == annotations::arrow_head_value(a, "start_arrow"@)
    &&& r.end_arrow == annotations::arrow_head_value(a, "end_arrow"@)
    &&& r.start_connection == annotations::connection_value(a, "start_connection"@)
    &&& r.end_connection == annotations::connection_value(a, "end_connection"@)
    &&& text::opt_text(r.path_mode) == annotations::attr_value(a, "path_mode"@)
    &&& annotations::points_view(r.bend_points@) == match annotations::points_value(a, "bend_points"@) {
        Some(v) => v,
        None => Seq::empty(),
    }
    &&& (match r.label_offset {
        Some(p) => Some(p@),
        None => None,
    }) == annotations::point_of(annotations::number_value(a, "label_offset_x"@), annotations::number_value(a, "label_offset_y"@))
}

pub fn read_edge_overrides(a: &[FlowAnnotationAttr]) -> (r: EdgeAnnotationOverrides)
    ensures
        edge_overrides(r, annotations::attrs_view(a@)),
{
    let line_style = match annotation_line_style(a, "line_style") {
        Some(s) => Some(s),
        None => annotation_line_style(a, "line_type"),
    };
    let bend_points = match annotation_points(a, "bend_points") {
        Some(v) => v,
        None => Vec::new(),
    };
    let r = EdgeAnnotationOverrides {
        line_color: annotation_string(a, "line_color"),
        line_width: annotation_number(a, "line_width"),
        line_style,
        start_arrow: annotation_arrow_head(a, "start_arrow"),
        end_arrow: annotation_arrow_head(a, "end_arrow"),
        start_connection: annotation_connection_point(a, "start_connection"),
        end_connection: annotation_connection_point(a, "end_connection"),
        path_mode: annotation_string(a, "path_mode"),
        bend_points,
        label_offset: annotation_point_pair(
            annotation_number(a, "label_offset_x"),
            annotation_number(a, "label_offset_y"),
        ),
    };
    assert(annotations::points_value(annotations::attrs_view(a@), "bend_points"@) is None ==> annotations::points_view(r.bend_points@)
        =~= Seq::empty());
    r
}

/// What the attributes say of a subgraph.
pub open spec fn group_overrides(r: GroupAnnotationOverrides, a: Seq<AttrView>) -> bool {
    &&& text::opt_text(r.x) == annotations::number_value(a, "x"@)
    &&& text::opt_text(r.y) == annotations::number_value(a, "y"@)
    &&& text::opt_text(r.width) == annotations::number_value(a, "w"@)
    &&& text::opt_text(r.height) == annotations::number_value(a, "h"@)
    &&& text::opt_text(r.fill) == annotations::attr_value(a, "fill"@)
    &&& text::opt_text(r.stroke) == annotations::attr_value(a, "stroke"@)
    &&& r.label_align == annotations::align_value(a, "label_align"@)
}

pub fn read_group_overrides(a: &[FlowAnnotationAttr]) -> (r: GroupAnnotationOverrides)
    ensures
        group_overrides(r, annotations::attrs_view(a@)),
{
    GroupAnnotationOverrides {
        x: annotation_number(a, "x"),
        y: annotation_number(a, "y"),
        width: annotation_number(a, "w"),
        height: annotation_number(a, "h"),
        fill: annotation_string(a, "fill"),
        stroke: annotation_string(a, "stroke"),
        label_align: annotation_label_align(a, "label_align"),
    }
}

} // verus!
