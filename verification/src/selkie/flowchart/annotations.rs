//! Flowchart annotations: comments such as `%% @node A x="1"` that place and style
//! parts of a chart.
use crate::numeral;
use crate::text;
use crate::numeral::reads_as_number;
use crate::selkie::table::{Duplicate, duplicate_all};
use crate::text::{
    char_is_ws, chars_of, debug_of, index_of, index_of_text, is, push_dec, push_text, replace_text,
    split_at_char, string_of, to_lower, trimmed, unsigned_of, without_prefix,
};
use vstd::prelude::*;
use vstd::slice::slice_subrange;

verus! {

/// What an annotation speaks of.
#[derive(Debug, Clone, PartialEq, Eq)]
pub enum FlowAnnotationTarget {
    Graph,
    Node { id: String },
    Edge { from: String, to: String, ordinal: u32 },
    Group { id: String },
}

#[derive(Debug, Clone, PartialEq, Eq)]
pub struct FlowAnnotationAttr {
    pub key: String,
    pub value: String,
}

#[derive(Debug, Clone, PartialEq, Eq)]
pub struct FlowAnnotation {
    pub target: FlowAnnotationTarget,
    pub attrs: Vec<FlowAnnotationAttr>,
}

/// A target in mathematical terms.
pub enum TargetView {
    Graph,
    Node(Seq<char>),
    Edge { from: Seq<char>, to: Seq<char>, ordinal: int },
    Group(Seq<char>),
}

/// An attribute in mathematical terms.
pub struct AttrView {
    pub key: Seq<char>,
    pub value: Seq<char>,
}

/// An annotation in mathematical terms.
pub struct AnnotationView {
    pub target: TargetView,
    pub attrs: Seq<AttrView>,
}

impl View for FlowAnnotationTarget {
    type V = TargetView;

    open spec fn view(&self) -> TargetView {
        match *self {
            FlowAnnotationTarget::Graph => TargetView::Graph,
            FlowAnnotationTarget::Node { id } => TargetView::Node(id@),
            FlowAnnotationTarget::Edge { from, to, ordinal } => TargetView::Edge {
                from: from@,
                to: to@,
                ordinal: ordinal as int,
            },
            FlowAnnotationTarget::Group { id } => TargetView::Group(id@),
        }
    }
}

impl View for FlowAnnotationAttr {
    type V = AttrView;

    open spec fn view(&self) -> AttrView {
        AttrView { key: self.key@, value: self.value@ }
    }
}

/// The views of attributes.
pub open spec fn attrs_view(v: Seq<FlowAnnotationAttr>) -> Seq<AttrView> {
    Seq::new(v.len(), |i: int| v[i]@)
}

impl View for FlowAnnotation {
    type V = AnnotationView;

    open spec fn view(&self) -> AnnotationView {
        AnnotationView { target: self.target@, attrs: attrs_view(self.attrs@) }
    }
}

/// The views of annotations.
pub open spec fn annotations_view(v: Seq<FlowAnnotation>) -> Seq<AnnotationView> {
    Seq::new(v.len(), |i: int| v[i]@)
}

impl FlowAnnotationTarget {
    /// Whether two targets are the same.
    pub fn same(&self, other: &FlowAnnotationTarget) -> (r: bool)
        ensures
            r == (self@ == other@),
    {
        match (self, other) {
            (FlowAnnotationTarget::Graph, FlowAnnotationTarget::Graph) => true,
            (FlowAnnotationTarget::Node { id: a }, FlowAnnotationTarget::Node { id: b }) => *a
                == *b,
            (
                FlowAnnotationTarget::Edge { from: a, to: b, ordinal: n },
                FlowAnnotationTarget::Edge { from: c, to: d, ordinal: m },
            ) => *a == *c && *b == *d && *n == *m,
            (FlowAnnotationTarget::Group { id: a }, FlowAnnotationTarget::Group { id: b }) => *a
                == *b,
            _ => false,
        }
    }
}

impl Duplicate for FlowAnnotationTarget {
    fn duplicate(&self) -> (r: Self) {
        match self {
            FlowAnnotationTarget::Graph => FlowAnnotationTarget::Graph,
            FlowAnnotationTarget::Node { id } => FlowAnnotationTarget::Node { id: id.clone() },
            FlowAnnotationTarget::Edge { from, to, ordinal } => FlowAnnotationTarget::Edge {
                from: from.clone(),
                to: to.clone(),
                ordinal: *ordinal,
            },
            FlowAnnotationTarget::Group { id } => FlowAnnotationTarget::Group { id: id.clone() },
        }
    }
}

impl Duplicate for FlowAnnotationAttr {
    fn duplicate(&self) -> (r: Self) {
        FlowAnnotationAttr { key: self.key.clone(), value: self.value.clone() }
    }
}

impl Duplicate for FlowAnnotation {
    fn duplicate(&self) -> (r: Self) {
        let r = FlowAnnotation {
            target: self.target.duplicate(),
            attrs: duplicate_all(&self.attrs),
        };
        assert(r@.attrs =~= self@.attrs);
        r
    }
}

// ── named values ────────────────────────────────────────────────────────────

/// Where a label stands.
#[derive(Debug, Clone, Copy, PartialEq, Eq, Structural)]
pub enum LabelAlign {
    Left,
    Center,
    Right,
}

impl LabelAlign {
    /// The value that `value` names, in any case of its letters.
    pub open spec fn named(value: Seq<char>) -> Option<LabelAlign> {
        let v = text::lower_all(text::trim(value));
        if v == "left"@ {
            Some(LabelAlign::Left)
        } else if v == "centre"@ || v == "center"@ {
            Some(LabelAlign::Center)
        } else if v == "right"@ {
            Some(LabelAlign::Right)
        } else {
            None
        }
    }

    pub fn parse(value: &str) -> (r: Option<LabelAlign>)
        ensures
            r == LabelAlign::named(value@),
    {
        let c = chars_of(value);
        let v = to_lower(trimmed(&c));
        if is(&v, "left") {
            Some(LabelAlign::Left)
        } else if is(&v, "centre") || is(&v, "center") {
            Some(LabelAlign::Center)
        } else if is(&v, "right") {
            Some(LabelAlign::Right)
        } else {
            None
        }
    }
}

/// Where an edge meets a node.
#[derive(Debug, Clone, Copy, PartialEq, Eq, Structural)]
pub enum ConnectionPoint {
    Top,
    Right,
    Bottom,
    Left,
    Center,
}

impl ConnectionPoint {
    /// The value that `value` names, in any case of its letters.
    pub open spec fn named(value: Seq<char>) -> Option<ConnectionPoint> {
        let v = text::lower_all(text::trim(value));
        if v == "top"@ {
            Some(ConnectionPoint::Top)
        } else if v == "right"@ {
            Some(ConnectionPoint::Right)
        } else if v == "bottom"@ {
            Some(ConnectionPoint::Bottom)
        } else if v == "left"@ {
            Some(ConnectionPoint::Left)
        } else if v == "center"@ || v == "centre"@ {
            Some(ConnectionPoint::Center)
        } else {
            None
        }
    }

    pub fn parse(value: &str) -> (r: Option<ConnectionPoint>)
        ensures
            r == ConnectionPoint::named(value@),
    {
        let c = chars_of(value);
        let v = to_lower(trimmed(&c));
        if is(&v, "top") {
            Some(ConnectionPoint::Top)
        } else if is(&v, "right") {
            Some(ConnectionPoint::Right)
        } else if is(&v, "bottom") {
            Some(ConnectionPoint::Bottom)
        } else if is(&v, "left") {
            Some(ConnectionPoint::Left)
        } else if is(&v, "center") || is(&v, "centre") {
            Some(ConnectionPoint::Center)
        } else {
            None
        }
    }
}

/// How a line is drawn.
#[derive(Debug, Clone, Copy, PartialEq, Eq, Structural)]
pub enum LineStyle {
    Solid,
    Dash,
    Dot,
}

impl LineStyle {
    /// The value that `value` names, in any case of its letters.
    pub open spec fn named(value: Seq<char>) -> Option<LineStyle> {
        let v = text::lower_all(text::trim(value));
        if v == "solid"@ {
            Some(LineStyle::Solid)
        } else if v == "dash"@ || v == "dashed"@ {
            Some(LineStyle::Dash)
        } else if v == "dot"@ || v == "dotted"@ {
            Some(LineStyle::Dot)
        } else {
            None
        }
    }

    pub fn parse(value: &str) -> (r: Option<LineStyle>)
        ensures
            r == LineStyle::named(value@),
    {
        let c = chars_of(value);
        let v = to_lower(trimmed(&c));
        if is(&v, "solid") {
            Some(LineStyle::Solid)
        } else if is(&v, "dash") || is(&v, "dashed") {
            Some(LineStyle::Dash)
        } else if is(&v, "dot") || is(&v, "dotted") {
            Some(LineStyle::Dot)
        } else {
            None
        }
    }
}

/// What an edge ends in.
#[derive(Debug, Clone, Copy, PartialEq, Eq, Structural)]
pub enum ArrowHead {
    Open,
    Point,
    Circle,
    Cross,
}

impl ArrowHead {
    /// The value that `value` names, in any case of its letters.
    pub open spec fn named(value: Seq<char>) -> Option<ArrowHead> {
        let v = text::lower_all(text::trim(value));
        if v == "none"@ || v == "open"@ {
            Some(ArrowHead::Open)
        } else if v == "point"@ || v == "arrow"@ || v == "triangle"@ {
            Some(ArrowHead::Point)
        } else if v == "circle"@ {
            Some(ArrowHead::Circle)
        } else if v == "cross"@ || v == "x"@ {
            Some(ArrowHead::Cross)
        } else {
            None
        }
    }

    pub fn parse(value: &str) -> (r: Option<ArrowHead>)
        ensures
            r == ArrowHead::named(value@),
    {
        let c = chars_of(value);
        let v = to_lower(trimmed(&c));
        if is(&v, "none") || is(&v, "open") {
            Some(ArrowHead::Open)
        } else if is(&v, "point") || is(&v, "arrow") || is(&v, "triangle") {
            Some(ArrowHead::Point)
        } else if is(&v, "circle") {
            Some(ArrowHead::Circle)
        } else if is(&v, "cross") || is(&v, "x") {
            Some(ArrowHead::Cross)
        } else {
            None
        }
    }
}

// ── attributes ──────────────────────────────────────────────────────────────

/// The value of the last attribute `key`.
pub open spec fn attr_value(attrs: Seq<AttrView>, key: Seq<char>) -> Option<Seq<char>>
    decreases attrs.len(),
{
    if attrs.len() == 0 {
        None
    } else if attrs.last().key == key {
        Some(attrs.last().value)
    } else {
        attr_value(attrs.drop_last(), key)
    }
}

/// The value of the last attribute `key`.
pub fn annotation_string(attrs: &[FlowAnnotationAttr], key: &str) -> (r: Option<String>)
    ensures
        text::opt_text(r) == attr_value(attrs_view(attrs@), key@),
{
    let ghost all = attrs_view(attrs@);
    let kc = chars_of(key);
    let mut n: usize = attrs.len();
    assert(all.take(all.len() as int) =~= all);
    while n > 0
        invariant
            all == attrs_view(attrs@),
            kc@ == key@,
            n <= attrs@.len(),
            attr_value(all, key@) == attr_value(all.take(n as int), key@),
        decreases n,
    {
        assert(all.take(n as int).last() == attrs@[n - 1]@);
        assert(all.take(n as int).drop_last() =~= all.take(n - 1));
        if is(&kc, attrs[n - 1].key.as_str()) {
            return Some(attrs[n - 1].value.clone());
        }
        n -= 1;
    }
    None
}

/// The value of the attribute `key`, if it is a number.
pub open spec fn number_value(attrs: Seq<AttrView>, key: Seq<char>) -> Option<Seq<char>> {
    match attr_value(attrs, key) {
        Some(v) => if numeral::is_numeral(v) {
            Some(v)
        } else {
            None
        },
        None => None,
    }
}

/// The numeral of the attribute `key`.
pub fn annotation_number(attrs: &[FlowAnnotationAttr], key: &str) -> (r: Option<String>)
    ensures
        text::opt_text(r) == number_value(attrs_view(attrs@), key@),
{
    match annotation_string(attrs, key) {
        Some(v) => {
            let c = chars_of(v.as_str());
            if reads_as_number(&c) {
                Some(v)
            } else {
                None
            }
        },
        None => None,
    }
}

/// The value of the attribute `key`, if it names one.
pub open spec fn align_value(attrs: Seq<AttrView>, key: Seq<char>) -> Option<LabelAlign> {
    match attr_value(attrs, key) {
        Some(v) => LabelAlign::named(v),
        None => None,
    }
}

pub fn annotation_label_align(attrs: &[FlowAnnotationAttr], key: &str) -> (r: Option<LabelAlign>)
    ensures
        r == align_value(attrs_view(attrs@), key@),
{
    match annotation_string(attrs, key) {
        Some(v) => LabelAlign::parse(v.as_str()),
        None => None,
    }
}

/// The value of the attribute `key`, if it names one.
pub open spec fn connection_value(attrs: Seq<AttrView>, key: Seq<char>) -> Option<ConnectionPoint> {
    match attr_value(attrs, key) {
        Some(v) => ConnectionPoint::named(v),
        None => None,
    }
}

pub fn annotation_connection_point(attrs: &[FlowAnnotationAttr], key: &str) -> (r: Option<ConnectionPoint>)
    ensures
        r == connection_value(attrs_view(attrs@), key@),
{
    match annotation_string(attrs, key) {
        Some(v) => ConnectionPoint::parse(v.as_str()),
        None => None,
    }
}

/// The value of the attribute `key`, if it names one.
pub open spec fn line_style_value(attrs: Seq<AttrView>, key: Seq<char>) -> Option<LineStyle> {
    match attr_value(attrs, key) {
        Some(v) => LineStyle::named(v),
        None => None,
    }
}

pub fn annotation_line_style(attrs: &[FlowAnnotationAttr], key: &str) -> (r: Option<LineStyle>)
    ensures
        r == line_style_value(attrs_view(attrs@), key@),
{
    match annotation_string(attrs, key) {
        Some(v) => LineStyle::parse(v.as_str()),
        None => None,
    }
}

/// The value of the attribute `key`, if it names one.
pub open spec fn arrow_head_value(attrs: Seq<AttrView>, key: Seq<char>) -> Option<ArrowHead> {
    match attr_value(attrs, key) {
        Some(v) => ArrowHead::named(v),
        None => None,
    }
}

pub fn annotation_arrow_head(attrs: &[FlowAnnotationAttr], key: &str) -> (r: Option<ArrowHead>)
    ensures
        r == arrow_head_value(attrs_view(attrs@), key@),
{
    match annotation_string(attrs, key) {
        Some(v) => ArrowHead::parse(v.as_str()),
        None => None,
    }
}

// ── points ──────────────────────────────────────────────────────────────────

/// A point as it is written: the numerals of its coordinates.
#[derive(Debug, Clone, PartialEq, Eq)]
pub struct PointText {
    pub x: String,
    pub y: String,
}

impl View for PointText {
    type V = (Seq<char>, Seq<char>);

    open spec fn view(&self) -> (Seq<char>, Seq<char>) {
        (self.x@, self.y@)
    }
}

/// The views of points.
pub open spec fn points_view(v: Seq<PointText>) -> Seq<(Seq<char>, Seq<char>)> {
    Seq::new(v.len(), |i: int| v[i]@)
}

/// A separator of points.
pub open spec fn point_separator() -> spec_fn(char) -> bool {
    |c: char| c == ';' || c == '|'
}

/// The points among `parts`, each two numerals with a comma between; none if one
/// has another shape. Empty parts are passed over.
pub open spec fn points_among(parts: Seq<Seq<char>>) -> Option<Seq<(Seq<char>, Seq<char>)>>
    decreases parts.len(),
{
    if parts.len() == 0 {
        Some(Seq::empty())
    } else {
        match points_among(parts.drop_last()) {
            None => None,
            Some(v) => {
                let p = text::trim(parts.last());
                let c = text::split(p, ',');
                if p.len() == 0 {
                    Some(v)
                } else if c.len() == 2 && numeral::is_numeral(text::trim(c[0])) && numeral::is_numeral(
                    text::trim(c[1]),
                ) {
                    Some(v.push((text::trim(c[0]), text::trim(c[1]))))
                } else {
                    None
                }
            },
        }
    }
}

/// The points that `raw` lists, separated by `;` or `|`.
pub open spec fn points_in(raw: Seq<char>) -> Option<Seq<(Seq<char>, Seq<char>)>> {
    points_among(text::split_from(raw, point_separator(), 0))
}

fn split_points<'a>(s: &'a [char]) -> (r: Vec<&'a [char]>)
    ensures
        text::slices(r@) == text::split_from(s@, point_separator(), 0),
{
    let ghost p = point_separator();
    let ghost all = text::split_from(s@, p, 0);
    let mut r: Vec<&'a [char]> = Vec::new();
    let mut start: usize = 0;
    assert(text::slices(r@) + all =~= all);
    loop
        invariant
            p == point_separator(),
            all == text::split_from(s@, p, 0),
            start <= s@.len(),
            text::slices(r@) + text::split_from(s@, p, start as int) =~= all,
        decreases s@.len() - start,
    {
        let mut n: usize = start;
        while n < s.len()
            invariant_except_break
                p == point_separator(),
                start <= n <= s@.len(),
                text::first_from(s@, p, start as int) == text::first_from(s@, p, n as int),
            ensures
                start <= n <= s@.len(),
                text::first_from(s@, p, start as int) == n,
            decreases s@.len() - n,
        {
            if s[n] == ';' || s[n] == '|' {
                break;
            }
            n += 1;
        }
        let part = slice_subrange(s, start, n);
        let ghost before = text::slices(r@);
        r.push(part);
        assert(text::slices(r@) =~= before.push(part@));
        if n >= s.len() {
            assert(text::split_from(s@, p, start as int) =~= seq![part@]);
            assert(text::slices(r@) =~= all);
            return r;
        }
        assert(before.push(part@) + text::split_from(s@, p, n + 1) =~= before + (seq![part@] + text::split_from(
            s@,
            p,
            n + 1,
        )));
        start = n + 1;
    }
}

proof fn lemma_points_none(parts: Seq<Seq<char>>, i: int)
    requires
        0 <= i <= parts.len(),
        points_among(parts.take(i)) is None,
    ensures
        points_among(parts) is None,
    decreases parts.len() - i,
{
    if i < parts.len() {
        assert(parts.take(i + 1).drop_last() =~= parts.take(i));
        lemma_points_none(parts, i + 1);
    } else {
        assert(parts.take(i) =~= parts);
    }
}

/// The points that `raw` lists.
pub fn parse_points(raw: &[char]) -> (r: Option<Vec<PointText>>)
    ensures
        (match r {
            Some(v) => Some(points_view(v@)),
            None => None,
        }) == points_in(raw@),
{
    let parts = split_points(raw);
    let ghost all = text::slices(parts@);
    let mut r: Vec<PointText> = Vec::new();
    let mut i: usize = 0;
    assert(points_view(r@) =~= Seq::empty());
    while i < parts.len()
        invariant
            all == text::slices(parts@),
            all == text::split_from(raw@, point_separator(), 0),
            i <= parts@.len(),
            points_among(all.take(i as int)) == Some(points_view(r@)),
        decreases parts@.len() - i,
    {
        assert(all.take(i + 1).drop_last() =~= all.take(i as int));
        assert(all.take(i + 1).last() == parts@[i as int]@);
        let p = trimmed(parts[i]);
        if p.len() > 0 {
            let c = split_at_char(p, ',');
            assert(text::slices(c@).len() == c@.len());
            if c.len() != 2 {
                proof {
                    lemma_points_none(all, i + 1);
                }
                return None;
            }
            assert(text::slices(c@)[0] == c@[0]@ && text::slices(c@)[1] == c@[1]@);
            if !reads_as_number(trimmed(c[0])) || !reads_as_number(trimmed(c[1])) {
                proof {
                    lemma_points_none(all, i + 1);
                }
                return None;
            }
            let pt = PointText { x: string_of(trimmed(c[0])), y: string_of(trimmed(c[1])) };
            let ghost before = points_view(r@);
            r.push(pt);
            assert(points_view(r@) =~= before.push(pt@));
        }
        i += 1;
    }
    assert(all.take(all.len() as int) =~= all);
    Some(r)
}

/// The points of the attribute `key`; none where it is missing or misshapen.
pub open spec fn points_value(attrs: Seq<AttrView>, key: Seq<char>) -> Option<
    Seq<(Seq<char>, Seq<char>)>,
> {
    match attr_value(attrs, key) {
        Some(raw) => points_in(raw),
        None => None,
    }
}

pub fn annotation_points(attrs: &[FlowAnnotationAttr], key: &str) -> (r: Option<Vec<PointText>>)
    ensures
        (match r {
            Some(v) => Some(points_view(v@)),
            None => None,
        }) == points_value(attrs_view(attrs@), key@),
{
    match annotation_string(attrs, key) {
        Some(raw) => {
            let c = chars_of(raw.as_str());
            parse_points(&c)
        },
        None => None,
    }
}

/// The point of two coordinates, where both are given.
pub open spec fn point_of(x: Option<Seq<char>>, y: Option<Seq<char>>) -> Option<
    (Seq<char>, Seq<char>),
> {
    match (x, y) {
        (Some(a), Some(b)) => Some((a, b)),
        _ => None,
    }
}

pub fn annotation_point_pair(x: Option<String>, y: Option<String>) -> (r: Option<PointText>)
    ensures
        (match r {
            Some(p) => Some(p@),
            None => None,
        }) == point_of(text::opt_text(x), text::opt_text(y)),
{
    match (x, y) {
        (Some(a), Some(b)) => Some(PointText { x: a, y: b }),
        _ => None,
    }
}

// ── reading a comment ───────────────────────────────────────────────────────

/// The tokens of `s` from `i` on, `cur` being the token begun and `quoted` whether
/// a quote is open: white space outside quotes separates, and inside quotes a
/// backslash keeps the next character from ending them.
pub open spec fn tokens_from(s: Seq<char>, i: int, cur: Seq<char>, quoted: bool) -> Result<
    Seq<Seq<char>>,
    Seq<char>,
>
    decreases s.len() - i,
{
    if i >= s.len() {
        if quoted {
            Err("unterminated quoted annotation value"@)
        } else if cur.len() > 0 {
            Ok(seq![cur])
        } else {
            Ok(Seq::empty())
        }
    } else if s[i] == '"' {
        tokens_from(s, i + 1, cur.push('"'), !quoted)
    } else if s[i] == '\\' && quoted {
        if i + 1 < s.len() {
            tokens_from(s, i + 2, cur.push('\\').push(s[i + 1]), quoted)
        } else {
            tokens_from(s, i + 1, cur.push('\\'), quoted)
        }
    } else if text::is_ws(s[i]) && !quoted {
        if cur.len() > 0 {
            behind(seq![cur], tokens_from(s, i + 1, Seq::empty(), quoted))
        } else {
            tokens_from(s, i + 1, cur, quoted)
        }
    } else {
        tokens_from(s, i + 1, cur.push(s[i]), quoted)
    }
}

/// The tokens `first`, then those of `r`.
pub open spec fn behind(first: Seq<Seq<char>>, r: Result<Seq<Seq<char>>, Seq<char>>) -> Result<
    Seq<Seq<char>>,
    Seq<char>,
> {
    match r {
        Ok(rest) => Ok(first + rest),
        Err(m) => Err(m),
    }
}

/// The view of a result of strings.
pub open spec fn strings_result(r: Result<Vec<String>, String>) -> Result<Seq<Seq<char>>, Seq<char>> {
    match r {
        Ok(v) => Ok(text::strings(v@)),
        Err(m) => Err(m@),
    }
}

/// The tokens of an annotation's body.
pub fn tokenize_annotation_body(s: &[char]) -> (r: Result<Vec<String>, String>)
    ensures
        strings_result(r) == tokens_from(s@, 0, Seq::empty(), false),
{
    let ghost want = tokens_from(s@, 0, Seq::empty(), false);
    let mut tokens: Vec<String> = Vec::new();
    let mut cur: Vec<char> = Vec::new();
    let mut quoted = false;
    let n: usize = s.len();
    let mut i: usize = 0;
    proof {
        assert(text::strings(tokens@) =~= Seq::empty());
        assert(cur@ =~= Seq::empty());
        match want {
            Ok(rest) => {
                assert(Seq::<Seq<char>>::empty() + rest =~= rest);
            },
            Err(_) => {},
        }
    }
    while i < n
        invariant
            n == s@.len(),
            i <= n,
            want == behind(text::strings(tokens@), tokens_from(s@, i as int, cur@, quoted)),
        decreases n - i,
    {
        let c = s[i];
        if c == '"' {
            cur.push(c);
            quoted = !quoted;
            i += 1;
        } else if c == '\\' && quoted {
            cur.push(c);
            i += 1;
            if i < n {
                cur.push(s[i]);
                i += 1;
            }
        } else if char_is_ws(c) && !quoted {
            if cur.len() > 0 {
                let t = string_of(&cur);
                let ghost before = text::strings(tokens@);
                let ghost rest = tokens_from(s@, i + 1, Seq::empty(), quoted);
                tokens.push(t);
                cur = Vec::new();
                proof {
                    assert(text::strings(tokens@) =~= before.push(t@));
                    assert(cur@ =~= Seq::empty());
                    match rest {
                        Ok(v) => {
                            assert(before.push(t@) + v =~= before + (seq![t@] + v));
                        },
                        Err(_) => {},
                    }
                }
            }
            i += 1;
        } else {
            cur.push(c);
            i += 1;
        }
    }
    if quoted {
        return Err("unterminated quoted annotation value".to_owned());
    }
    if cur.len() > 0 {
        let t = string_of(&cur);
        let ghost before = text::strings(tokens@);
        tokens.push(t);
        assert(text::strings(tokens@) =~= before + seq![t@]);
    } else {
        assert(text::strings(tokens@) + Seq::<Seq<char>>::empty() =~= text::strings(tokens@));
    }
    Ok(tokens)
}

/// The target that `token` refers to: `A->B`, or `A->B#2` for the second edge.
pub open spec fn edge_target(token: Seq<char>) -> Result<TargetView, Seq<char>> {
    let h = text::find(token, '#');
    let base = token.take(h);
    let ordinal = if h < token.len() {
        text::parse_unsigned(token.skip(h + 1), u32::MAX as int)
    } else {
        Some(1)
    };
    let a = text::find_text(base, "->"@);
    match ordinal {
        None => Err("invalid edge ordinal in annotation target `"@ + token + "`"@),
        Some(n) => if a < 0 {
            Err(
                "edge annotation target `"@ + token + "` must look like A->B or A->B#2"@,
            )
        } else {
            let from = text::trim(base.take(a));
            let to = text::trim(base.skip(a + 2));
            if from.len() == 0 || to.len() == 0 {
                Err(
                    "edge annotation target `"@ + token
                        + "` must include both start and end node ids"@,
                )
            } else {
                Ok(TargetView::Edge { from, to, ordinal: n })
            }
        },
    }
}

fn quoting(before: &str, token: &[char], after: &str) -> (r: String)
    ensures
        r@ == before@ + token@ + after@,
{
    let mut m = before.to_owned();
    push_text(&mut m, token);
    m.append(after);
    m
}

pub fn parse_edge_target(token: &[char]) -> (r: Result<FlowAnnotationTarget, String>)
    ensures
        (match r {
            Ok(t) => Ok(t@),
            Err(m) => Err(m@),
        }) == edge_target(token@),
{
    let h: usize = index_of(token, '#');
    let base = slice_subrange(token, 0, h);
    let ordinal: Option<u64> = if h < token.len() {
        unsigned_of(slice_subrange(token, h + 1, token.len()), u32::MAX as u64)
    } else {
        Some(1)
    };
    let n: u64 = match ordinal {
        Some(n) => n,
        None => {
            return Err(quoting("invalid edge ordinal in annotation target `", token, "`"));
        },
    };
    let arrow = chars_of("->");
    proof {
        reveal_strlit("->");
    }
    match index_of_text(base, &arrow) {
        None => Err(
            quoting(
                "edge annotation target `",
                token,
                "` must look like A->B or A->B#2",
            ),
        ),
        Some(a) => {
            let from = trimmed(slice_subrange(base, 0, a));
            let to = trimmed(slice_subrange(base, a + 2, base.len()));
            if from.len() == 0 || to.len() == 0 {
                return Err(
                    quoting(
                        "edge annotation target `",
                        token,
                        "` must include both start and end node ids",
                    ),
                );
            }
            Ok(
                FlowAnnotationTarget::Edge {
                    from: string_of(from),
                    to: string_of(to),
                    ordinal: n as u32,
                },
            )
        },
    }
}

/// `value` without its quotes, where it has them, with `\"` read as `"`.
pub open spec fn unquoted(value: Seq<char>) -> Result<Seq<char>, Seq<char>> {
    if value.len() > 0 && value[0] == '"' {
        if value.len() < 2 || value.last() != '"' {
            Err("annotation value `"@ + value + "` has mismatched quotes"@)
        } else {
            Ok(text::replace(value.subrange(1, value.len() - 1), "\\\""@, "\""@))
        }
    } else {
        Ok(value)
    }
}

pub fn unquote_value(value: &[char]) -> (r: Result<String, String>)
    ensures
        (match r {
            Ok(s) => Ok(s@),
            Err(m) => Err(m@),
        }) == unquoted(value@),
{
    if value.len() > 0 && value[0] == '"' {
        let n: usize = value.len();
        if n < 2 || value[n - 1] != '"' {
            return Err(quoting("annotation value `", value, "` has mismatched quotes"));
        }
        let inner = replace_text(slice_subrange(value, 1, n - 1), "\\\"", "\"");
        Ok(string_of(&inner))
    } else {
        Ok(string_of(value))
    }
}

/// The attribute that `token` writes.
pub open spec fn attr_of(token: Seq<char>) -> Result<AttrView, Seq<char>> {
    let e = text::find(token, '=');
    if e >= token.len() {
        Err("annotation token `"@ + token + "` is not a key=value pair"@)
    } else if text::trim(token.take(e)).len() == 0 {
        Err("annotation token `"@ + token + "` is missing a key"@)
    } else {
        match unquoted(text::trim(token.skip(e + 1))) {
            Err(m) => Err(m),
            Ok(value) => Ok(AttrView { key: text::trim(token.take(e)), value }),
        }
    }
}

/// The attributes that `tokens` write; the first error stops.
pub open spec fn attrs_of(tokens: Seq<Seq<char>>) -> Result<Seq<AttrView>, Seq<char>>
    decreases tokens.len(),
{
    if tokens.len() == 0 {
        Ok(Seq::empty())
    } else {
        match attrs_of(tokens.drop_last()) {
            Err(m) => Err(m),
            Ok(v) => match attr_of(tokens.last()) {
                Err(m) => Err(m),
                Ok(a) => Ok(v.push(a)),
            },
        }
    }
}

fn parse_attr(token: &[char]) -> (r: Result<FlowAnnotationAttr, String>)
    ensures
        (match r {
            Ok(a) => Ok(a@),
            Err(m) => Err(m@),
        }) == attr_of(token@),
{
    let e: usize = index_of(token, '=');
    if e >= token.len() {
        return Err(quoting("annotation token `", token, "` is not a key=value pair"));
    }
    let key = trimmed(slice_subrange(token, 0, e));
    if key.len() == 0 {
        return Err(quoting("annotation token `", token, "` is missing a key"));
    }
    match unquote_value(trimmed(slice_subrange(token, e + 1, token.len()))) {
        Err(m) => Err(m),
        Ok(value) => Ok(FlowAnnotationAttr { key: string_of(key), value }),
    }
}

proof fn lemma_attrs_error(tokens: Seq<Seq<char>>, i: int)
    requires
        0 <= i <= tokens.len(),
        attrs_of(tokens.take(i)) is Err,
    ensures
        attrs_of(tokens) == attrs_of(tokens.take(i)),
    decreases tokens.len() - i,
{
    if i < tokens.len() {
        assert(tokens.take(i + 1).drop_last() =~= tokens.take(i));
        lemma_attrs_error(tokens, i + 1);
    } else {
        assert(tokens.take(i) =~= tokens);
    }
}

/// The attributes that the tokens write.
pub fn parse_attrs(tokens: &[String]) -> (r: Result<Vec<FlowAnnotationAttr>, String>)
    ensures
        (match r {
            Ok(v) => Ok(attrs_view(v@)),
            Err(m) => Err(m@),
        }) == attrs_of(text::strings(tokens@)),
{
    let ghost all = text::strings(tokens@);
    let mut v: Vec<FlowAnnotationAttr> = Vec::new();
    let mut i: usize = 0;
    assert(attrs_view(v@) =~= Seq::empty());
    while i < tokens.len()
        invariant
            all == text::strings(tokens@),
            i <= tokens@.len(),
            attrs_of(all.take(i as int)) == Ok::<Seq<AttrView>, Seq<char>>(attrs_view(v@)),
        decreases tokens@.len() - i,
    {
        assert(all.take(i + 1).drop_last() =~= all.take(i as int));
        assert(all.take(i + 1).last() == tokens@[i as int]@);
        let c = chars_of(tokens[i].as_str());
        match parse_attr(&c) {
            Err(m) => {
                proof {
                    lemma_attrs_error(all, i + 1);
                }
                return Err(m);
            },
            Ok(a) => {
                let ghost before = attrs_view(v@);
                v.push(a);
                assert(attrs_view(v@) =~= before.push(a@));
            },
        }
        i += 1;
    }
    assert(all.take(all.len() as int) =~= all);
    Ok(v)
}

/// How a target is shown in a message.
pub open spec fn target_text(t: TargetView) -> Seq<char> {
    match t {
        TargetView::Graph => "Graph"@,
        TargetView::Node(id) => "Node { id: "@ + text::debug_text(id) + " }"@,
        TargetView::Edge { from, to, ordinal } => "Edge { from: "@ + text::debug_text(from) + ", to: "@
            + text::debug_text(to) + ", ordinal: "@ + text::signed_dec(ordinal) + " }"@,
        TargetView::Group(id) => "Group { id: "@ + text::debug_text(id) + " }"@,
    }
}

fn show_target(t: &FlowAnnotationTarget) -> (r: String)
    ensures
        r@ == target_text(t@),
{
    match t {
        FlowAnnotationTarget::Graph => "Graph".to_owned(),
        FlowAnnotationTarget::Node { id } => {
            let mut m = "Node { id: ".to_owned();
            m.append(debug_of(id.as_str()).as_str());
            m.append(" }");
            m
        },
        FlowAnnotationTarget::Edge { from, to, ordinal } => {
            let mut m = "Edge { from: ".to_owned();
            m.append(debug_of(from.as_str()).as_str());
            m.append(", to: ");
            m.append(debug_of(to.as_str()).as_str());
            m.append(", ordinal: ");
            push_dec(&mut m, *ordinal as i128);
            m.append(" }");
            m
        },
        FlowAnnotationTarget::Group { id } => {
            let mut m = "Group { id: ".to_owned();
            m.append(debug_of(id.as_str()).as_str());
            m.append(" }");
            m
        },
    }
}

/// The target that the first tokens name, and how many tokens it takes; nothing
/// where the first token is no known directive.
pub open spec fn target_of(tokens: Seq<Seq<char>>) -> Result<Option<(TargetView, int)>, Seq<char>> {
    if tokens[0] == "@graph"@ {
        Ok(Some((TargetView::Graph, 1)))
    } else if tokens[0] == "@node"@ {
        if tokens.len() > 1 {
            Ok(Some((TargetView::Node(tokens[1]), 2)))
        } else {
            Err("node annotation is missing a target id"@)
        }
    } else if tokens[0] == "@group"@ {
        if tokens.len() > 1 {
            Ok(Some((TargetView::Group(tokens[1]), 2)))
        } else {
            Err("group annotation is missing a target id"@)
        }
    } else if tokens[0] == "@edge"@ {
        if tokens.len() > 1 {
            match edge_target(tokens[1]) {
                Ok(t) => Ok(Some((t, 2))),
                Err(m) => Err(m),
            }
        } else {
            Err("edge annotation is missing a target reference"@)
        }
    } else {
        Ok(None)
    }
}

/// What the tokens of an annotation say.
pub open spec fn annotation_of(tokens: Seq<Seq<char>>) -> Result<Option<AnnotationView>, Seq<char>> {
    if tokens.len() == 0 {
        Ok(None)
    } else {
        match target_of(tokens) {
            Err(m) => Err(m),
            Ok(None) => Ok(None),
            Ok(Some((target, n))) => match attrs_of(tokens.skip(n)) {
                Err(m) => Err(m),
                Ok(attrs) => if attrs.len() == 0 {
                    Err(
                        "annotation "@ + target_text(target)
                            + " must contain at least one key=value pair"@,
                    )
                } else {
                    Ok(Some(AnnotationView { target, attrs }))
                },
            },
        }
    }
}

/// What the comment `comment` annotates; nothing where it is an ordinary comment.
pub open spec fn comment_annotation(comment: Seq<char>) -> Result<
    Option<AnnotationView>,
    Seq<char>,
> {
    match text::strip_prefix(text::trim(comment), "%%"@) {
        None => Err("annotation comments must start with %%"@),
        Some(rest) => {
            let body = text::trim(rest);
            if body.len() == 0 || body[0] != '@' {
                Ok(None)
            } else {
                match tokens_from(body, 0, Seq::empty(), false) {
                    Err(m) => Err(m),
                    Ok(tokens) => annotation_of(tokens),
                }
            }
        },
    }
}

/// The view of a result of reading a comment.
pub open spec fn annotation_result(r: Result<Option<FlowAnnotation>, String>) -> Result<
    Option<AnnotationView>,
    Seq<char>,
> {
    match r {
        Ok(Some(a)) => Ok(Some(a@)),
        Ok(None) => Ok(None),
        Err(m) => Err(m@),
    }
}

fn parse_target(tokens: &Vec<String>) -> (r: Result<Option<(FlowAnnotationTarget, usize)>, String>)
    requires
        tokens@.len() > 0,
    ensures
        (match r {
            Ok(Some((t, n))) => Ok(Some((t@, n as int))),
            Ok(None) => Ok(None),
            Err(m) => Err(m@),
        }) == target_of(text::strings(tokens@)),
        r matches Ok(Some((_, n))) ==> n <= tokens@.len(),
{
    let first = chars_of(tokens[0].as_str());
    assert(text::strings(tokens@)[0] == tokens@[0]@);
    assert(tokens@.len() > 1 ==> text::strings(tokens@)[1] == tokens@[1]@);
    if is(&first, "@graph") {
        return Ok(Some((FlowAnnotationTarget::Graph, 1)));
    }
    if is(&first, "@node") {
        if tokens.len() > 1 {
            return Ok(Some((FlowAnnotationTarget::Node { id: tokens[1].clone() }, 2)));
        }
        return Err("node annotation is missing a target id".to_owned());
    }
    if is(&first, "@group") {
        if tokens.len() > 1 {
            return Ok(Some((FlowAnnotationTarget::Group { id: tokens[1].clone() }, 2)));
        }
        return Err("group annotation is missing a target id".to_owned());
    }
    if is(&first, "@edge") {
        if tokens.len() > 1 {
            let c = chars_of(tokens[1].as_str());
            return match parse_edge_target(&c) {
                Ok(t) => Ok(Some((t, 2))),
                Err(m) => Err(m),
            };
        }
        return Err("edge annotation is missing a target reference".to_owned());
    }
    Ok(None)
}

/// Read an annotation comment.
pub fn parse_annotation_comment(comment: &str) -> (r: Result<Option<FlowAnnotation>, String>)
    ensures
        annotation_result(r) == comment_annotation(comment@),
{
    let c = chars_of(comment);
    let body = match without_prefix(trimmed(&c), "%%") {
        None => return Err("annotation comments must start with %%".to_owned()),
        Some(rest) => trimmed(rest),
    };
    if body.len() == 0 || body[0] != '@' {
        return Ok(None);
    }
    let tokens = match tokenize_annotation_body(body) {
        Err(m) => return Err(m),
        Ok(t) => t,
    };
    assert(text::strings(tokens@).len() == tokens@.len());
    if tokens.len() == 0 {
        return Ok(None);
    }
    let (target, n) = match parse_target(&tokens) {
        Err(m) => return Err(m),
        Ok(None) => return Ok(None),
        Ok(Some(t)) => t,
    };
    let rest = slice_subrange(tokens.as_slice(), n, tokens.len());
    assert(text::strings(rest@) =~= text::strings(tokens@).skip(n as int));
    let attrs = match parse_attrs(rest) {
        Err(m) => return Err(m),
        Ok(a) => a,
    };
    assert(attrs_view(attrs@).len() == attrs@.len());
    if attrs.len() == 0 {
        let mut m = "annotation ".to_owned();
        m.append(show_target(&target).as_str());
        m.append(" must contain at least one key=value pair");
        return Err(m);
    }
    Ok(Some(FlowAnnotation { target, attrs }))
}

} // verus!
