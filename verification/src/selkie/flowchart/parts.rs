//! The parts of a flowchart: nodes, edges, classes and subgraphs.
use crate::text;
use crate::selkie::table::{Duplicate, duplicate_all};
use crate::text::{chars_of, copy_opt, copy_strings, is, to_lower};
use vstd::prelude::*;

verus! {

/// The shape of a node.
#[derive(Debug, Clone, PartialEq, Eq)]
pub enum FlowVertexType {
    Square,
    DoubleCircle,
    Circle,
    Ellipse,
    Stadium,
    Subroutine,
    Rect,
    Cylinder,
    Round,
    Diamond,
    Hexagon,
    Odd,
    Trapezoid,
    InvTrapezoid,
    LeanRight,
    LeanLeft,
    /// An extension shape, by the name given in `@{ shape: name }` metadata.
    Custom(String),
}

/// A shape in mathematical terms.
pub enum ShapeView {
    Square,
    DoubleCircle,
    Circle,
    Ellipse,
    Stadium,
    Subroutine,
    Rect,
    Cylinder,
    Round,
    Diamond,
    Hexagon,
    Odd,
    Trapezoid,
    InvTrapezoid,
    LeanRight,
    LeanLeft,
    Custom(Seq<char>),
}

impl View for FlowVertexType {
    type V = ShapeView;

    open spec fn view(&self) -> ShapeView {
        match *self {
            FlowVertexType::Square => ShapeView::Square,
            FlowVertexType::DoubleCircle => ShapeView::DoubleCircle,
            FlowVertexType::Circle => ShapeView::Circle,
            FlowVertexType::Ellipse => ShapeView::Ellipse,
            FlowVertexType::Stadium => ShapeView::Stadium,
            FlowVertexType::Subroutine => ShapeView::Subroutine,
            FlowVertexType::Rect => ShapeView::Rect,
            FlowVertexType::Cylinder => ShapeView::Cylinder,
            FlowVertexType::Round => ShapeView::Round,
            FlowVertexType::Diamond => ShapeView::Diamond,
            FlowVertexType::Hexagon => ShapeView::Hexagon,
            FlowVertexType::Odd => ShapeView::Odd,
            FlowVertexType::Trapezoid => ShapeView::Trapezoid,
            FlowVertexType::InvTrapezoid => ShapeView::InvTrapezoid,
            FlowVertexType::LeanRight => ShapeView::LeanRight,
            FlowVertexType::LeanLeft => ShapeView::LeanLeft,
            FlowVertexType::Custom(name) => ShapeView::Custom(name@),
        }
    }
}

impl Default for FlowVertexType {
    fn default() -> (r: Self)
        ensures
            r@ == ShapeView::Square,
    {
        FlowVertexType::Square
    }
}

impl Duplicate for FlowVertexType {
    fn duplicate(&self) -> (r: Self) {
        match self {
            FlowVertexType::Square => FlowVertexType::Square,
            FlowVertexType::DoubleCircle => FlowVertexType::DoubleCircle,
            FlowVertexType::Circle => FlowVertexType::Circle,
            FlowVertexType::Ellipse => FlowVertexType::Ellipse,
            FlowVertexType::Stadium => FlowVertexType::Stadium,
            FlowVertexType::Subroutine => FlowVertexType::Subroutine,
            FlowVertexType::Rect => FlowVertexType::Rect,
            FlowVertexType::Cylinder => FlowVertexType::Cylinder,
            FlowVertexType::Round => FlowVertexType::Round,
            FlowVertexType::Diamond => FlowVertexType::Diamond,
            FlowVertexType::Hexagon => FlowVertexType::Hexagon,
            FlowVertexType::Odd => FlowVertexType::Odd,
            FlowVertexType::Trapezoid => FlowVertexType::Trapezoid,
            FlowVertexType::InvTrapezoid => FlowVertexType::InvTrapezoid,
            FlowVertexType::LeanRight => FlowVertexType::LeanRight,
            FlowVertexType::LeanLeft => FlowVertexType::LeanLeft,
            FlowVertexType::Custom(name) => FlowVertexType::Custom(name.clone()),
        }
    }
}

/// The shape called `s`, in any case of its letters.
pub open spec fn shape_named(s: Seq<char>) -> Option<ShapeView> {
    let l = text::lower_all(s);
    if l == "square"@ {
        Some(ShapeView::Square)
    } else if l == "doublecircle"@ {
        Some(ShapeView::DoubleCircle)
    } else if l == "circle"@ {
        Some(ShapeView::Circle)
    } else if l == "ellipse"@ {
        Some(ShapeView::Ellipse)
    } else if l == "stadium"@ {
        Some(ShapeView::Stadium)
    } else if l == "subroutine"@ {
        Some(ShapeView::Subroutine)
    } else if l == "rect"@ {
        Some(ShapeView::Rect)
    } else if l == "cylinder"@ {
        Some(ShapeView::Cylinder)
    } else if l == "round"@ {
        Some(ShapeView::Round)
    } else if l == "diamond"@ {
        Some(ShapeView::Diamond)
    } else if l == "hexagon"@ {
        Some(ShapeView::Hexagon)
    } else if l == "odd"@ {
        Some(ShapeView::Odd)
    } else if l == "trapezoid"@ {
        Some(ShapeView::Trapezoid)
    } else if l == "inv_trapezoid"@ {
        Some(ShapeView::InvTrapezoid)
    } else if l == "lean_right"@ {
        Some(ShapeView::LeanRight)
    } else if l == "lean_left"@ {
        Some(ShapeView::LeanLeft)
    } else {
        None
    }
}

/// The shape called `s`.
pub fn vertex_type_named(s: &str) -> (r: Option<FlowVertexType>)
    ensures
        (match r {
            Some(t) => Some(t@),
            None => None,
        }) == shape_named(s@),
{
    let c = chars_of(s);
    let l = to_lower(&c);
    if is(&l, "square") {
        Some(FlowVertexType::Square)
    } else if is(&l, "doublecircle") {
        Some(FlowVertexType::DoubleCircle)
    } else if is(&l, "circle") {
        Some(FlowVertexType::Circle)
    } else if is(&l, "ellipse") {
        Some(FlowVertexType::Ellipse)
    } else if is(&l, "stadium") {
        Some(FlowVertexType::Stadium)
    } else if is(&l, "subroutine") {
        Some(FlowVertexType::Subroutine)
    } else if is(&l, "rect") {
        Some(FlowVertexType::Rect)
    } else if is(&l, "cylinder") {
        Some(FlowVertexType::Cylinder)
    } else if is(&l, "round") {
        Some(FlowVertexType::Round)
    } else if is(&l, "diamond") {
        Some(FlowVertexType::Diamond)
    } else if is(&l, "hexagon") {
        Some(FlowVertexType::Hexagon)
    } else if is(&l, "odd") {
        Some(FlowVertexType::Odd)
    } else if is(&l, "trapezoid") {
        Some(FlowVertexType::Trapezoid)
    } else if is(&l, "inv_trapezoid") {
        Some(FlowVertexType::InvTrapezoid)
    } else if is(&l, "lean_right") {
        Some(FlowVertexType::LeanRight)
    } else if is(&l, "lean_left") {
        Some(FlowVertexType::LeanLeft)
    } else {
        None
    }
}

impl std::str::FromStr for FlowVertexType {
    type Err = ();

    fn from_str(s: &str) -> (r: Result<Self, ()>) {
        match vertex_type_named(s) {
            Some(t) => Ok(t),
            None => Err(()),
        }
    }
}

/// How the text of a label is read.
#[derive(Debug, Clone, Copy, PartialEq, Eq, Structural)]
pub enum FlowTextType {
    Text,
    Markdown,
}

impl Default for FlowTextType {
    fn default() -> (r: Self)
        ensures
            r == FlowTextType::Text,
    {
        FlowTextType::Text
    }
}

/// The text of a part, and how it is read.
#[derive(Debug, Clone)]
pub struct FlowText {
    pub text: String,
    pub text_type: FlowTextType,
}

impl View for FlowText {
    type V = (Seq<char>, FlowTextType);

    open spec fn view(&self) -> (Seq<char>, FlowTextType) {
        (self.text@, self.text_type)
    }
}

impl FlowText {
    pub fn new(text: &str) -> (r: FlowText)
        ensures
            r@ == (text@, FlowTextType::Text),
    {
        FlowText { text: text.to_owned(), text_type: FlowTextType::Text }
    }

    pub fn markdown(text: &str) -> (r: FlowText)
        ensures
            r@ == (text@, FlowTextType::Markdown),
    {
        FlowText { text: text.to_owned(), text_type: FlowTextType::Markdown }
    }
}

impl Default for FlowText {
    fn default() -> (r: Self)
        ensures
            r@ == (Seq::<char>::empty(), FlowTextType::Text),
    {
        FlowText { text: String::new(), text_type: FlowTextType::Text }
    }
}

/// The view of an optional text.
pub open spec fn opt_flow_text(t: Option<FlowText>) -> Option<(Seq<char>, FlowTextType)> {
    match t {
        Some(t) => Some(t@),
        None => None,
    }
}

/// How the line of an edge is drawn.
#[derive(Debug, Clone, Copy, PartialEq, Eq, Structural)]
pub enum EdgeStroke {
    Normal,
    Thick,
    Invisible,
    Dotted,
}

impl Default for EdgeStroke {
    fn default() -> (r: Self)
        ensures
            r == EdgeStroke::Normal,
    {
        EdgeStroke::Normal
    }
}

/// An item of the chart or of a subgraph, by its id.
#[derive(Debug, Clone, PartialEq, Eq)]
pub enum FlowSubGraphItem {
    Node(String),
    Edge(String),
    Subgraph(String),
}

/// An item in mathematical terms.
pub enum ItemView {
    Node(Seq<char>),
    Edge(Seq<char>),
    Subgraph(Seq<char>),
}

impl View for FlowSubGraphItem {
    type V = ItemView;

    open spec fn view(&self) -> ItemView {
        match *self {
            FlowSubGraphItem::Node(id) => ItemView::Node(id@),
            FlowSubGraphItem::Edge(id) => ItemView::Edge(id@),
            FlowSubGraphItem::Subgraph(id) => ItemView::Subgraph(id@),
        }
    }
}

impl Duplicate for FlowSubGraphItem {
    fn duplicate(&self) -> (r: Self) {
        match self {
            FlowSubGraphItem::Node(id) => FlowSubGraphItem::Node(id.clone()),
            FlowSubGraphItem::Edge(id) => FlowSubGraphItem::Edge(id.clone()),
            FlowSubGraphItem::Subgraph(id) => FlowSubGraphItem::Subgraph(id.clone()),
        }
    }
}

impl FlowSubGraphItem {
    /// Whether two items are the same.
    pub fn same(&self, other: &FlowSubGraphItem) -> (r: bool)
        ensures
            r == (self@ == other@),
    {
        match (self, other) {
            (FlowSubGraphItem::Node(a), FlowSubGraphItem::Node(b)) => *a == *b,
            (FlowSubGraphItem::Edge(a), FlowSubGraphItem::Edge(b)) => *a == *b,
            (FlowSubGraphItem::Subgraph(a), FlowSubGraphItem::Subgraph(b)) => *a == *b,
            _ => false,
        }
    }
}

/// The views of items.
pub open spec fn items_view(v: Seq<FlowSubGraphItem>) -> Seq<ItemView> {
    Seq::new(v.len(), |i: int| v[i]@)
}

/// The view of an optional shape.
pub open spec fn opt_shape(t: Option<FlowVertexType>) -> Option<ShapeView> {
    match t {
        Some(t) => Some(t@),
        None => None,
    }
}

fn copy_shape(t: &Option<FlowVertexType>) -> (r: Option<FlowVertexType>)
    ensures
        opt_shape(r) == opt_shape(*t),
{
    match t {
        Some(t) => Some(t.duplicate()),
        None => None,
    }
}

/// A node of a flowchart.
#[derive(Debug, Clone)]
pub struct FlowVertex {
    pub id: String,
    pub dom_id: String,
    pub text: Option<String>,
    pub label_type: FlowTextType,
    pub vertex_type: Option<FlowVertexType>,
    pub styles: Vec<String>,
    pub classes: Vec<String>,
    pub dir: Option<String>,
    pub link: Option<String>,
    pub link_target: Option<String>,
    pub have_callback: bool,
    pub icon: Option<String>,
    pub form: Option<String>,
    pub pos: Option<String>,
    pub img: Option<String>,
    pub constraint: Option<String>,
}

/// A node in mathematical terms.
pub struct VertexView {
    pub id: Seq<char>,
    pub dom_id: Seq<char>,
    pub text: Option<Seq<char>>,
    pub label_type: FlowTextType,
    pub vertex_type: Option<ShapeView>,
    pub styles: Seq<Seq<char>>,
    pub classes: Seq<Seq<char>>,
    pub dir: Option<Seq<char>>,
    pub link: Option<Seq<char>>,
    pub link_target: Option<Seq<char>>,
    pub have_callback: bool,
    pub icon: Option<Seq<char>>,
    pub form: Option<Seq<char>>,
    pub pos: Option<Seq<char>>,
    pub img: Option<Seq<char>>,
    pub constraint: Option<Seq<char>>,
}

impl View for FlowVertex {
    type V = VertexView;

    open spec fn view(&self) -> VertexView {
        VertexView {
            id: self.id@,
            dom_id: self.dom_id@,
            text: text::opt_text(self.text),
            label_type: self.label_type,
            vertex_type: opt_shape(self.vertex_type),
            styles: text::strings(self.styles@),
            classes: text::strings(self.classes@),
            dir: text::opt_text(self.dir),
            link: text::opt_text(self.link),
            link_target: text::opt_text(self.link_target),
            have_callback: self.have_callback,
            icon: text::opt_text(self.icon),
            form: text::opt_text(self.form),
            pos: text::opt_text(self.pos),
            img: text::opt_text(self.img),
            constraint: text::opt_text(self.constraint),
        }
    }
}

impl Duplicate for FlowVertex {
    fn duplicate(&self) -> (r: Self) {
        let r = FlowVertex {
            id: self.id.clone(),
            dom_id: self.dom_id.clone(),
            text: copy_opt(&self.text),
            label_type: self.label_type,
            vertex_type: copy_shape(&self.vertex_type),
            styles: copy_strings(&self.styles),
            classes: copy_strings(&self.classes),
            dir: copy_opt(&self.dir),
            link: copy_opt(&self.link),
            link_target: copy_opt(&self.link_target),
            have_callback: self.have_callback,
            icon: copy_opt(&self.icon),
            form: copy_opt(&self.form),
            pos: copy_opt(&self.pos),
            img: copy_opt(&self.img),
            constraint: copy_opt(&self.constraint),
        };
        r
    }
}

/// A node with nothing but its ids.
pub open spec fn new_vertex(id: Seq<char>, dom_id: Seq<char>) -> VertexView {
    VertexView {
        id: id,
        dom_id: dom_id,
        text: None,
        label_type: FlowTextType::Text,
        vertex_type: None,
        styles: Seq::empty(),
        classes: Seq::empty(),
        dir: None,
        link: None,
        link_target: None,
        have_callback: false,
        icon: None,
        form: None,
        pos: None,
        img: None,
        constraint: None,
    }
}

impl FlowVertex {
    pub fn new(id: &str, dom_id: &str) -> (r: FlowVertex)
        ensures
            r@ == new_vertex(id@, dom_id@),
    {
        let r = FlowVertex {
            id: id.to_owned(),
            dom_id: dom_id.to_owned(),
            text: None,
            label_type: FlowTextType::Text,
            vertex_type: None,
            styles: Vec::new(),
            classes: Vec::new(),
            dir: None,
            link: None,
            link_target: None,
            have_callback: false,
            icon: None,
            form: None,
            pos: None,
            img: None,
            constraint: None,
        };
        assert(r@.styles =~= Seq::empty());
        assert(r@.classes =~= Seq::empty());
        r
    }
}

/// An edge between two nodes.
#[derive(Debug, Clone)]
pub struct FlowEdge {
    pub id: Option<String>,
    pub is_user_defined_id: bool,
    pub start: String,
    pub end: String,
    pub interpolate: Option<String>,
    pub edge_type: Option<String>,
    pub stroke: EdgeStroke,
    pub style: Vec<String>,
    pub length: Option<u32>,
    pub text: String,
    pub label_type: FlowTextType,
    pub classes: Vec<String>,
    pub animation: Option<String>,
    pub animate: Option<bool>,
}

/// An edge in mathematical terms.
pub struct EdgeView {
    pub id: Option<Seq<char>>,
    pub is_user_defined_id: bool,
    pub start: Seq<char>,
    pub end: Seq<char>,
    pub interpolate: Option<Seq<char>>,
    pub edge_type: Option<Seq<char>>,
    pub stroke: EdgeStroke,
    pub style: Seq<Seq<char>>,
    pub length: Option<u32>,
    pub text: Seq<char>,
    pub label_type: FlowTextType,
    pub classes: Seq<Seq<char>>,
    pub animation: Option<Seq<char>>,
    pub animate: Option<bool>,
}

impl View for FlowEdge {
    type V = EdgeView;

    open spec fn view(&self) -> EdgeView {
        EdgeView {
            id: text::opt_text(self.id),
            is_user_defined_id: self.is_user_defined_id,
            start: self.start@,
            end: self.end@,
            interpolate: text::opt_text(self.interpolate),
            edge_type: text::opt_text(self.edge_type),
            stroke: self.stroke,
            style: text::strings(self.style@),
            length: self.length,
            text: self.text@,
            label_type: self.label_type,
            classes: text::strings(self.classes@),
            animation: text::opt_text(self.animation),
            animate: self.animate,
        }
    }
}

impl Duplicate for FlowEdge {
    fn duplicate(&self) -> (r: Self) {
        let r = FlowEdge {
            id: copy_opt(&self.id),
            is_user_defined_id: self.is_user_defined_id,
            start: self.start.clone(),
            end: self.end.clone(),
            interpolate: copy_opt(&self.interpolate),
            edge_type: copy_opt(&self.edge_type),
            stroke: self.stroke,
            style: copy_strings(&self.style),
            length: self.length,
            text: self.text.clone(),
            label_type: self.label_type,
            classes: copy_strings(&self.classes),
            animation: copy_opt(&self.animation),
            animate: self.animate,
        };
        r
    }
}

/// An edge with nothing but its ends.
pub open spec fn new_edge(start: Seq<char>, end: Seq<char>) -> EdgeView {
    EdgeView {
        id: None,
        is_user_defined_id: false,
        start: start,
        end: end,
        interpolate: None,
        edge_type: None,
        stroke: EdgeStroke::Normal,
        style: Seq::empty(),
        length: None,
        text: Seq::empty(),
        label_type: FlowTextType::Text,
        classes: Seq::empty(),
        animation: None,
        animate: None,
    }
}

impl FlowEdge {
    pub fn new(start: &str, end: &str) -> (r: FlowEdge)
        ensures
            r@ == new_edge(start@, end@),
    {
        proof {
            reveal_strlit("");
        }
        let r = FlowEdge {
            id: None,
            is_user_defined_id: false,
            start: start.to_owned(),
            end: end.to_owned(),
            interpolate: None,
            edge_type: None,
            stroke: EdgeStroke::Normal,
            style: Vec::new(),
            length: None,
            text: "".to_owned(),
            label_type: FlowTextType::Text,
            classes: Vec::new(),
            animation: None,
            animate: None,
        };
        assert(r@.style =~= Seq::empty());
        assert(r@.text =~= Seq::empty());
        assert(r@.classes =~= Seq::empty());
        r
    }
}

/// The views of a list of them.
pub open spec fn edges_view(v: Seq<FlowEdge>) -> Seq<EdgeView> {
    Seq::new(v.len(), |i: int| v[i]@)
}

/// A class of styles.
#[derive(Debug, Clone)]
pub struct FlowClass {
    pub id: String,
    pub styles: Vec<String>,
    pub text_styles: Vec<String>,
}

/// A class in mathematical terms.
pub struct ClassView {
    pub id: Seq<char>,
    pub styles: Seq<Seq<char>>,
    pub text_styles: Seq<Seq<char>>,
}

impl View for FlowClass {
    type V = ClassView;

    open spec fn view(&self) -> ClassView {
        ClassView {
            id: self.id@,
            styles: text::strings(self.styles@),
            text_styles: text::strings(self.text_styles@),
        }
    }
}

impl Duplicate for FlowClass {
    fn duplicate(&self) -> (r: Self) {
        let r = FlowClass {
            id: self.id.clone(),
            styles: copy_strings(&self.styles),
            text_styles: copy_strings(&self.text_styles),
        };
        r
    }
}

/// A class without styles.
pub open spec fn new_class(id: Seq<char>) -> ClassView {
    ClassView {
        id: id,
        styles: Seq::empty(),
        text_styles: Seq::empty(),
    }
}

impl FlowClass {
    pub fn new(id: &str) -> (r: FlowClass)
        ensures
            r@ == new_class(id@),
    {
        let r = FlowClass {
            id: id.to_owned(),
            styles: Vec::new(),
            text_styles: Vec::new(),
        };
        assert(r@.styles =~= Seq::empty());
        assert(r@.text_styles =~= Seq::empty());
        r
    }
}

impl Default for FlowClass {
    fn default() -> (r: Self)
        ensures
            r@ == new_class(Seq::empty()),
    {
        let r = FlowClass { id: String::new(), styles: Vec::new(), text_styles: Vec::new() };
        assert(r@.styles =~= Seq::empty());
        assert(r@.text_styles =~= Seq::empty());
        r
    }
}

/// A subgraph: a group of nodes, edges and further subgraphs.
#[derive(Debug, Clone)]
pub struct FlowSubGraph {
    pub id: String,
    pub title: String,
    pub label_type: String,
    pub nodes: Vec<String>,
    pub items: Vec<FlowSubGraphItem>,
    pub classes: Vec<String>,
    pub dir: Option<String>,
    pub parent_id: Option<String>,
}

/// A subgraph in mathematical terms.
pub struct SubgraphView {
    pub id: Seq<char>,
    pub title: Seq<char>,
    pub label_type: Seq<char>,
    pub nodes: Seq<Seq<char>>,
    pub items: Seq<ItemView>,
    pub classes: Seq<Seq<char>>,
    pub dir: Option<Seq<char>>,
    pub parent_id: Option<Seq<char>>,
}

impl View for FlowSubGraph {
    type V = SubgraphView;

    open spec fn view(&self) -> SubgraphView {
        SubgraphView {
            id: self.id@,
            title: self.title@,
            label_type: self.label_type@,
            nodes: text::strings(self.nodes@),
            items: items_view(self.items@),
            classes: text::strings(self.classes@),
            dir: text::opt_text(self.dir),
            parent_id: text::opt_text(self.parent_id),
        }
    }
}

impl Duplicate for FlowSubGraph {
    fn duplicate(&self) -> (r: Self) {
        let r = FlowSubGraph {
            id: self.id.clone(),
            title: self.title.clone(),
            label_type: self.label_type.clone(),
            nodes: copy_strings(&self.nodes),
            items: duplicate_all(&self.items),
            classes: copy_strings(&self.classes),
            dir: copy_opt(&self.dir),
            parent_id: copy_opt(&self.parent_id),
        };
        assert(r@.items =~= self@.items);
        r
    }
}

impl Default for FlowSubGraph {
    fn default() -> (r: Self)
        ensures
            r@ == (SubgraphView {
                id: Seq::empty(),
                title: Seq::empty(),
                label_type: Seq::empty(),
                nodes: Seq::empty(),
                items: Seq::empty(),
                classes: Seq::empty(),
                dir: None,
                parent_id: None,
            }),
    {
        let r = FlowSubGraph {
            id: String::new(),
            title: String::new(),
            label_type: String::new(),
            nodes: Vec::new(),
            items: Vec::new(),
            classes: Vec::new(),
            dir: None,
            parent_id: None,
        };
        assert(r@.nodes =~= Seq::empty());
        assert(r@.items =~= Seq::empty());
        assert(r@.classes =~= Seq::empty());
        r
    }
}

/// The views of a list of them.
pub open spec fn subgraphs_view(v: Seq<FlowSubGraph>) -> Seq<SubgraphView> {
    Seq::new(v.len(), |i: int| v[i]@)
}

/// A link as a reader finds it.
#[derive(Debug, Clone)]
pub struct FlowLink {
    pub link_type: Option<String>,
    pub stroke: EdgeStroke,
    pub length: Option<u32>,
    pub text: Option<FlowText>,
    pub id: Option<String>,
}

/// A link in mathematical terms.
pub struct LinkView {
    pub link_type: Option<Seq<char>>,
    pub stroke: EdgeStroke,
    pub length: Option<u32>,
    pub text: Option<(Seq<char>, FlowTextType)>,
    pub id: Option<Seq<char>>,
}

impl View for FlowLink {
    type V = LinkView;

    open spec fn view(&self) -> LinkView {
        LinkView {
            link_type: text::opt_text(self.link_type),
            stroke: self.stroke,
            length: self.length,
            text: opt_flow_text(self.text),
            id: text::opt_text(self.id),
        }
    }
}

impl Default for FlowLink {
    fn default() -> (r: Self)
        ensures
            r@ == (LinkView {
                link_type: None,
                stroke: EdgeStroke::Normal,
                length: None,
                text: None,
                id: None,
            }),
    {
        FlowLink { link_type: None, stroke: EdgeStroke::Normal, length: None, text: None, id: None }
    }
}

} // verus!
