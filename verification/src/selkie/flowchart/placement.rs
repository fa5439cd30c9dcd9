//! How annotations place a flowchart: which nodes they move, which edge a laid-out
//! edge is, whether it is routed anew, where it meets a node and what course it takes. Coordinates stay with
//! the layout; what is decided here takes from them only how they compare.
use crate::selkie::flowchart::annotations;
use crate::selkie::flowchart::overrides;
use crate::selkie::flowchart::parts;
use crate::text;
use crate::selkie::flowchart::annotations::{ConnectionPoint, TargetView};
use crate::selkie::flowchart::overrides::EdgeAnnotationOverrides;
use crate::selkie::flowchart::parts::EdgeView;
use crate::selkie::flowchart::types::{FlowView, FlowchartDb};
use crate::text::{chars_of, is, string_of, to_lower};
use crate::winkb::suggest::has_string;
use vstd::prelude::*;

verus! {

/// The first edge from `i` on with an id.
pub open spec fn edge_with_id(v: Seq<EdgeView>, id: Seq<char>, i: int) -> Option<int>
    decreases v.len() - i,
{
    if i >= v.len() {
        None
    } else if v[i].id == Some(id) {
        Some(i)
    } else {
        edge_with_id(v, id, i + 1)
    }
}

/// The first edge from `i` on between two nodes.
pub open spec fn edge_between(v: Seq<EdgeView>, from: Seq<char>, to: Seq<char>, i: int) -> Option<
    int,
>
    decreases v.len() - i,
{
    if i >= v.len() {
        None
    } else if v[i].start == from && v[i].end == to {
        Some(i)
    } else {
        edge_between(v, from, to, i + 1)
    }
}

/// The edge that a laid-out edge shows: the one of its id, else the first between its
/// ends.
pub open spec fn edge_shown(
    v: Seq<EdgeView>,
    id: Seq<char>,
    from: Seq<char>,
    to: Seq<char>,
) -> Option<int> {
    match edge_with_id(v, id, 0) {
        Some(i) => Some(i),
        None => edge_between(v, from, to, 0),
    }
}

/// An optional position as a number.
pub open spec fn opt_index(r: Option<usize>) -> Option<int> {
    match r {
        Some(i) => Some(i as int),
        None => None,
    }
}

fn text_is(o: &Option<String>, s: &str) -> (r: bool)
    ensures
        r == (text::opt_text(*o) == Some(s@)),
{
    match o {
        Some(t) => {
            let c = chars_of(t.as_str());
            is(&c, s)
        },
        None => false,
    }
}

/// The edge that a laid-out edge shows, by its position among the diagram's edges. A
/// laid-out edge without an end stands for one without a name.
pub fn find_flow_edge_for_layout_edge(
    db: &FlowchartDb,
    id: &str,
    source: Option<&str>,
    target: Option<&str>,
) -> (r: Option<usize>)
    ensures
        opt_index(r) == edge_shown(
            db@.edges,
            id@,
            match source {
                Some(s) => s@,
                None => ""@,
            },
            match target {
                Some(s) => s@,
                None => ""@,
            },
        ),
{
    let edges = db.edges();
    let ghost all = db@.edges;
    let from = match source {
        Some(s) => s,
        None => "",
    };
    let to = match target {
        Some(s) => s,
        None => "",
    };
    let mut i: usize = 0;
    assert(all.len() == edges@.len());
    while i < edges.len()
        invariant
            all == parts::edges_view(edges@),
            all == db@.edges,
            i <= edges@.len(),
            edge_with_id(all, id@, 0) == edge_with_id(all, id@, i as int),
        decreases edges@.len() - i,
    {
        assert(all[i as int] == edges@[i as int]@);
        if text_is(&edges[i].id, id) {
            return Some(i);
        }
        i += 1;
    }
    let mut k: usize = 0;
    while k < edges.len()
        invariant
            all == parts::edges_view(edges@),
            all == db@.edges,
            edge_with_id(all, id@, 0) is None,
            from@ == (match source {
                Some(s) => s@,
                None => ""@,
            }),
            to@ == (match target {
                Some(s) => s@,
                None => ""@,
            }),
            k <= edges@.len(),
            edge_between(all, from@, to@, 0) == edge_between(all, from@, to@, k as int),
        decreases edges@.len() - k,
    {
        assert(all[k as int] == edges@[k as int]@);
        let s = chars_of(edges[k].start.as_str());
        let e = chars_of(edges[k].end.as_str());
        if is(&s, from) && is(&e, to) {
            return Some(k);
        }
        k += 1;
    }
    None
}

/// A number that the annotations give for a node.
pub open spec fn node_number(v: FlowView, id: Seq<char>, key: Seq<char>) -> Option<Seq<char>> {
    annotations::number_value(overrides::target_attrs(v.annotations, TargetView::Node(id)), key)
}

/// The annotations say where a node is.
pub open spec fn is_positioned(v: FlowView, id: Seq<char>) -> bool {
    node_number(v, id, "x"@) is Some || node_number(v, id, "y"@) is Some
}

/// The annotations say how large a node is.
pub open spec fn is_sized(v: FlowView, id: Seq<char>) -> bool {
    node_number(v, id, "w"@) is Some || node_number(v, id, "h"@) is Some
}

/// The node `id` moves with one of the first `n` subgraphs: one that has a box and
/// either moved itself or holds a node that is positioned within it.
pub open spec fn moves_in_group(
    v: FlowView,
    id: Seq<char>,
    boxes: Seq<Option<bool>>,
    n: int,
) -> bool
    decreases n,
{
    n > 0 && (moves_in_group(v, id, boxes, n - 1) || (boxes[n - 1] is Some && v.subgraphs[n
        - 1].nodes.contains(id) && (is_positioned(v, id) || boxes[n - 1] == Some(true))))
}

/// The annotations move the laid-out node `id`: it is sized, it moves with a
/// subgraph, or it stands outside all subgraphs and is positioned.
pub open spec fn is_moved(v: FlowView, id: Seq<char>, inside: bool, boxes: Seq<Option<bool>>) -> bool {
    ||| v.vertices.dom().contains(id) && is_sized(v, id)
    ||| moves_in_group(v, id, boxes, v.subgraphs.len() as int)
    ||| v.vertices.dom().contains(id) && is_positioned(v, id) && !inside
}

/// Whether the annotations move a laid-out node. `inside` says that the layout has it
/// inside a parent; `boxes` gives for each subgraph whether its box moved, and
/// nothing for one without a box.
pub fn node_is_moved(db: &FlowchartDb, id: &str, inside: bool, boxes: &[Option<bool>]) -> (r: bool)
    requires
        db.wf(),
        boxes@.len() == db@.subgraphs.len(),
    ensures
        r == is_moved(db@, id@, inside, boxes@),
{
    let o = db.node_annotation_overrides(id);
    let positioned = o.x.is_some() || o.y.is_some();
    let sized = o.width.is_some() || o.height.is_some();
    assert(positioned == is_positioned(db@, id@));
    assert(sized == is_sized(db@, id@));
    let known = db.vertices().contains_key(id);
    if known && (sized || (positioned && !inside)) {
        return true;
    }
    let groups = db.subgraphs();
    let c = chars_of(id);
    let mut moved = false;
    let mut i: usize = 0;
    assert(parts::subgraphs_view(groups@).len() == groups@.len());
    while i < groups.len()
        invariant
            parts::subgraphs_view(groups@) == db@.subgraphs,
            boxes@.len() == db@.subgraphs.len(),
            groups@.len() == boxes@.len(),
            c@ == id@,
            positioned == is_positioned(db@, id@),
            i <= groups@.len(),
            moved == moves_in_group(db@, id@, boxes@, i as int),
        decreases groups@.len() - i,
    {
        assert(db@.subgraphs[i as int] == groups@[i as int]@);
        match boxes[i] {
            Some(shifted) => {
                if has_string(&groups[i].nodes, &c) && (positioned || shifted) {
                    moved = true;
                }
            },
            None => {},
        }
        i += 1;
    }
    moved
}

/// An edge is routed anew: one of its ends moved, or its annotations say something of
/// its course.
pub fn needs_reroute(
    source_moved: bool,
    target_moved: bool,
    bends: usize,
    overrides: &EdgeAnnotationOverrides,
) -> (r: bool)
    ensures
        r == (source_moved || target_moved || bends > 0 || overrides.start_connection is Some
            || overrides.end_connection is Some || overrides.path_mode is Some),
{
    source_moved || target_moved || bends > 0 || overrides.start_connection.is_some()
        || overrides.end_connection.is_some() || overrides.path_mode.is_some()
}

/// How the centre of the other node lies from that of a node.
#[derive(Debug, Clone, Copy, PartialEq, Eq, Structural)]
pub struct Bearing {
    /// At least as far sideways as up or down.
    pub wide: bool,
    /// Not to the left.
    pub right: bool,
    /// Not above.
    pub below: bool,
}

/// The side of a node that faces the other end of an edge.
pub open spec fn facing_side(b: Bearing, is_source: bool) -> ConnectionPoint {
    if b.wide {
        if b.right == is_source {
            ConnectionPoint::Right
        } else {
            ConnectionPoint::Left
        }
    } else if b.below == is_source {
        ConnectionPoint::Bottom
    } else {
        ConnectionPoint::Top
    }
}

/// Where an edge meets a node: where the annotations say, else on the side that the
/// edge leaves or enters by.
pub fn connection_side(explicit: Option<ConnectionPoint>, b: Bearing, is_source: bool) -> (r:
    ConnectionPoint)
    ensures
        r == match explicit {
            Some(p) => p,
            None => facing_side(b, is_source),
        },
{
    match explicit {
        Some(p) => p,
        None => {
            if b.wide {
                if b.right {
                    if is_source {
                        ConnectionPoint::Right
                    } else {
                        ConnectionPoint::Left
                    }
                } else if is_source {
                    ConnectionPoint::Left
                } else {
                    ConnectionPoint::Right
                }
            } else if b.below {
                if is_source {
                    ConnectionPoint::Bottom
                } else {
                    ConnectionPoint::Top
                }
            } else if is_source {
                ConnectionPoint::Top
            } else {
                ConnectionPoint::Bottom
            }
        },
    }
}

/// The side across from a side.
pub open spec fn across(p: ConnectionPoint) -> ConnectionPoint {
    match p {
        ConnectionPoint::Top => ConnectionPoint::Bottom,
        ConnectionPoint::Bottom => ConnectionPoint::Top,
        ConnectionPoint::Left => ConnectionPoint::Right,
        ConnectionPoint::Right => ConnectionPoint::Left,
        ConnectionPoint::Center => ConnectionPoint::Center,
    }
}

/// The two ends of an edge face each other: it leaves a node by one side and enters
/// the other node by the side across from it.
pub proof fn law_ends_face_each_other(b: Bearing)
    ensures
        facing_side(b, false) == across(facing_side(b, true)),
        facing_side(b, true) != facing_side(b, false),
{
}

/// The course of an edge.
#[derive(Debug, Clone, Copy, PartialEq, Eq, Structural)]
pub enum Course {
    /// Through the annotated bends.
    Bends,
    /// From end to end.
    Straight,
    /// With two right angles, half way.
    Angled,
}

/// The course of an edge and the name of its routing. `aligned` says that its ends
/// are level or plumb.
pub open spec fn course_of(mode: Option<Seq<char>>, bends: int, aligned: bool) -> (
    Course,
    Seq<char>,
) {
    if bends > 0 {
        (
            Course::Bends,
            match mode {
                Some(m) => text::lower_all(m),
                None => "manual"@,
            },
        )
    } else {
        let m = match mode {
            Some(m) => text::lower_all(m),
            None => "auto"@,
        };
        if m == "straight"@ {
            (Course::Straight, "straight"@)
        } else if m == "orthogonal"@ || m == "orth"@ || m == "right-angle"@ {
            (Course::Angled, "orthogonal"@)
        } else if aligned {
            (Course::Straight, "straight"@)
        } else {
            (Course::Angled, "curved"@)
        }
    }
}

/// The course of an edge and the name of its routing.
pub fn route(path_mode: Option<&str>, bends: usize, aligned: bool) -> (r: (Course, String))
    ensures
        (r.0, r.1@) == course_of(text::opt_str(path_mode), bends as int, aligned),
{
    if bends > 0 {
        return match path_mode {
            Some(m) => {
                let c = chars_of(m);
                let low = to_lower(&c);
                (Course::Bends, string_of(&low))
            },
            None => (Course::Bends, "manual".to_owned()),
        };
    }
    let mode = match path_mode {
        Some(m) => {
            let c = chars_of(m);
            to_lower(&c)
        },
        None => chars_of("auto"),
    };
    if is(&mode, "straight") {
        (Course::Straight, "straight".to_owned())
    } else if is(&mode, "orthogonal") || is(&mode, "orth") || is(&mode, "right-angle") {
        (Course::Angled, "orthogonal".to_owned())
    } else if aligned {
        (Course::Straight, "straight".to_owned())
    } else {
        (Course::Angled, "curved".to_owned())
    }
}

} // verus!
