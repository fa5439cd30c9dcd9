//! What rendering decides without drawing: which kinds of diagram it knows, and how
//! wide character art may be.
use crate::lines;
use crate::text;
use crate::text::{chars_of, debug_of, has_suffix, push_all, push_str, split_at_char, string_of};
use vstd::prelude::*;
use vstd::slice::slice_subrange;

verus! {

/// A kind of diagram.
#[derive(Debug, Clone, Copy, PartialEq, Eq, Structural)]
pub enum DiagramKind {
    Architecture,
    Block,
    C4,
    Class,
    Er,
    Flowchart,
    Gantt,
    Git,
    Info,
    Journey,
    Kanban,
    Mindmap,
    Packet,
    Pie,
    Quadrant,
    Radar,
    Requirement,
    Sankey,
    Sequence,
    State,
    Timeline,
    Treemap,
    XyChart,
}

/// The name of a kind of diagram.
pub open spec fn kind_name(k: DiagramKind) -> Seq<char> {
    match k {
        DiagramKind::Architecture => "Architecture"@,
        DiagramKind::Block => "Block"@,
        DiagramKind::C4 => "C4"@,
        DiagramKind::Class => "Class"@,
        DiagramKind::Er => "ER"@,
        DiagramKind::Flowchart => "Flowchart"@,
        DiagramKind::Gantt => "Gantt"@,
        DiagramKind::Git => "Git"@,
        DiagramKind::Info => "Info"@,
        DiagramKind::Journey => "Journey"@,
        DiagramKind::Kanban => "Kanban"@,
        DiagramKind::Mindmap => "Mindmap"@,
        DiagramKind::Packet => "Packet"@,
        DiagramKind::Pie => "Pie"@,
        DiagramKind::Quadrant => "Quadrant"@,
        DiagramKind::Radar => "Radar"@,
        DiagramKind::Requirement => "Requirement"@,
        DiagramKind::Sankey => "Sankey"@,
        DiagramKind::Sequence => "Sequence"@,
        DiagramKind::State => "State"@,
        DiagramKind::Timeline => "Timeline"@,
        DiagramKind::Treemap => "Treemap"@,
        DiagramKind::XyChart => "XyChart"@,
    }
}

/// The name of a kind of diagram, for messages.
pub fn diagram_type_name(k: DiagramKind) -> (r: &'static str)
    ensures
        r@ == kind_name(k),
{
    match k {
        DiagramKind::Architecture => "Architecture",
        DiagramKind::Block => "Block",
        DiagramKind::C4 => "C4",
        DiagramKind::Class => "Class",
        DiagramKind::Er => "ER",
        DiagramKind::Flowchart => "Flowchart",
        DiagramKind::Gantt => "Gantt",
        DiagramKind::Git => "Git",
        DiagramKind::Info => "Info",
        DiagramKind::Journey => "Journey",
        DiagramKind::Kanban => "Kanban",
        DiagramKind::Mindmap => "Mindmap",
        DiagramKind::Packet => "Packet",
        DiagramKind::Pie => "Pie",
        DiagramKind::Quadrant => "Quadrant",
        DiagramKind::Radar => "Radar",
        DiagramKind::Requirement => "Requirement",
        DiagramKind::Sankey => "Sankey",
        DiagramKind::Sequence => "Sequence",
        DiagramKind::State => "State",
        DiagramKind::Timeline => "Timeline",
        DiagramKind::Treemap => "Treemap",
        DiagramKind::XyChart => "XyChart",
    }
}

/// Why a kind of diagram is not drawn; `None` for one that is.
pub fn svg_refusal(k: DiagramKind) -> (r: Option<String>)
    ensures
        text::opt_text(r) == if k == DiagramKind::Info {
            Some(
                "Diagram type "@ + text::debug_text(kind_name(k))
                    + " not yet supported for rendering"@,
            )
        } else {
            None
        },
{
    if k == DiagramKind::Info {
        let mut m = "Diagram type ".to_owned();
        m.append(debug_of(diagram_type_name(k)).as_str());
        m.append(" not yet supported for rendering");
        Some(m)
    } else {
        None
    }
}

/// Why a kind of diagram has no character art; `None` for one that has.
pub fn ascii_refusal(k: DiagramKind) -> (r: Option<String>)
    ensures
        text::opt_text(r) == if k == DiagramKind::Info {
            Some("ASCII format not yet supported for this diagram type"@)
        } else {
            None
        },
{
    if k == DiagramKind::Info {
        Some("ASCII format not yet supported for this diagram type".to_owned())
    } else {
        None
    }
}

// ── width ───────────────────────────────────────────────────────────────────

/// The first `w` characters of a line.
pub open spec fn cut_line(line: Seq<char>, w: int) -> Seq<char> {
    if line.len() > w {
        line.take(w)
    } else {
        line
    }
}

/// The lines of a text, each cut to `w` characters.
pub open spec fn cut_lines(v: Seq<Seq<char>>, w: int) -> Seq<Seq<char>> {
    Seq::new(v.len(), |i: int| cut_line(v[i], w))
}

/// The first `n` lines, each with a line end behind it.
pub open spec fn ended(v: Seq<Seq<char>>, n: int) -> Seq<char>
    decreases n,
{
    if n <= 0 {
        Seq::empty()
    } else {
        ended(v, n - 1) + v[n - 1] + "\n"@
    }
}

/// Character art cut to the width `w`: no line is longer, and a line end at the end
/// of the text does not become two.
pub open spec fn cut_art(s: Seq<char>, w: int) -> Seq<char> {
    let v = cut_lines(text::split(s, '\n'), w);
    let t = ended(v, v.len() as int);
    if s.len() == 0 {
        Seq::empty()
    } else if !text::ends_with(s, "\n\n"@) && text::ends_with(t, "\n\n"@) {
        t.drop_last()
    } else {
        t
    }
}

/// Character art under an optional width.
pub open spec fn fitted_art(s: Seq<char>, max: Option<usize>) -> Seq<char> {
    match max {
        Some(w) => if w > 0 {
            cut_art(s, w as int)
        } else {
            s
        },
        None => s,
    }
}

/// Cuts each line of character art to a width, where there is one.
pub fn truncate_ascii_width(output: &str, max_width: Option<usize>) -> (r: String)
    ensures
        r@ == fitted_art(output@, max_width),
{
    let w: usize = match max_width {
        Some(w) => w,
        None => 0,
    };
    if w == 0 {
        return output.to_owned();
    }
    let c = chars_of(output);
    let mut out: Vec<char> = Vec::new();
    if c.len() == 0 {
        assert(out@ =~= Seq::empty());
        return string_of(&out);
    }
    let v = split_at_char(&c, '\n');
    let ghost cut = cut_lines(text::split(output@, '\n'), w as int);
    let mut i: usize = 0;
    assert(text::slices(v@).len() == v@.len());
    while i < v.len()
        invariant
            cut == cut_lines(text::slices(v@), w as int),
            i <= v@.len(),
            out@ == ended(cut, i as int),
        decreases v@.len() - i,
    {
        assert(text::slices(v@)[i as int] == v@[i as int]@);
        if v[i].len() > w {
            push_all(&mut out, slice_subrange(v[i], 0, w));
        } else {
            push_all(&mut out, v[i]);
        }
        push_str(&mut out, "\n");
        assert(out@ =~= ended(cut, i + 1));
        i += 1;
    }
    if !has_suffix(&c, "\n\n") && has_suffix(&out, "\n\n") {
        let n: usize = out.len();
        proof {
            reveal_strlit("\n\n");
        }
        let shorter = slice_subrange(&out, 0, n - 1);
        assert(shorter@ =~= out@.drop_last());
        return string_of(shorter);
    }
    string_of(&out)
}

proof fn lemma_ended_is_join(v: Seq<Seq<char>>, n: int)
    requires
        0 <= n <= v.len(),
    ensures
        ended(v, n) == text::join(v.take(n).push(Seq::empty()), "\n"@),
    decreases n,
{
    let e = Seq::<char>::empty();
    if n == 0 {
        assert(v.take(0).push(e) =~= seq![e]);
        assert(text::join(seq![e], "\n"@) =~= Seq::empty());
    } else {
        lemma_ended_is_join(v, n - 1);
        let a = v.take(n - 1);
        lines::lemma_join_push(a, e, "\n"@);
        lines::lemma_join_push(a, v[n - 1], "\n"@);
        assert(v.take(n) =~= a.push(v[n - 1]));
        lines::lemma_join_push(v.take(n), e, "\n"@);
        if n == 1 {
            assert(ended(v, 0) =~= Seq::empty());
            assert(ended(v, 1) =~= v[0] + "\n"@);
            assert(a =~= Seq::empty());
            assert(text::join(v.take(1), "\n"@) =~= v[0]);
            assert(v[0] + "\n"@ + e =~= v[0] + "\n"@);
        } else {
            assert(ended(v, n - 1) =~= text::join(a, "\n"@) + "\n"@ + e);
            assert(ended(v, n) =~= text::join(a, "\n"@) + "\n"@ + v[n - 1] + "\n"@ + e);
        }
    }
}

proof fn lemma_split_is_one_line(s: Seq<char>, a: int)
    requires
        0 <= a <= s.len(),
    ensures
        lines::all_one_line(text::split_from(s, text::eq_char('\n'), a)),
        text::split_from(s, text::eq_char('\n'), a).len() > 0,
    decreases s.len() - a,
{
    let p = text::eq_char('\n');
    let n = text::first_from(s, p, a);
    text::lemma_first_from(s, p, a);
    let v = text::split_from(s, p, a);
    assert forall|j: int| a <= j < n implies #[trigger] s[j] != '\n' by {
        assert(!p(s[j]));
    }
    if n >= s.len() {
        let one = s.subrange(a, s.len() as int);
        assert forall|j: int| 0 <= j < one.len() implies #[trigger] one[j] != '\n' by {
            assert(one[j] == s[a + j]);
        }
        assert forall|i: int| 0 <= i < v.len() implies lines::is_one_line(#[trigger] v[i]) by {}
    } else {
        lemma_split_is_one_line(s, n + 1);
        let rest = text::split_from(s, p, n + 1);
        let one = s.subrange(a, n);
        assert forall|j: int| 0 <= j < one.len() implies #[trigger] one[j] != '\n' by {
            assert(one[j] == s[a + j]);
        }
        assert forall|i: int| 0 <= i < v.len() implies lines::is_one_line(#[trigger] v[i]) by {
            if i > 0 {
                assert(v[i] == rest[i - 1]);
            }
        }
    }
}

/// No line of character art is wider than it may be.
pub proof fn law_art_fits(s: Seq<char>, w: int)
    requires
        w > 0,
    ensures
        forall|i: int|
            0 <= i < text::split(cut_art(s, w), '\n').len() ==> (#[trigger] text::split(
                cut_art(s, w),
                '\n',
            )[i]).len() <= w,
{
    let e = Seq::<char>::empty();
    let v = cut_lines(text::split(s, '\n'), w);
    let t = ended(v, v.len() as int);
    lemma_split_is_one_line(s, 0);
    assert forall|i: int| 0 <= i < v.len() implies lines::is_one_line(#[trigger] v[i]) && v[i].len()
        <= w by {
        let x = text::split(s, '\n')[i];
        assert(lines::is_one_line(x));
        assert forall|j: int| 0 <= j < v[i].len() implies #[trigger] v[i][j] != '\n' by {
            assert(v[i][j] == x[j]);
        }
    }
    lemma_ended_is_join(v, v.len() as int);
    assert(v.take(v.len() as int) =~= v);
    let full = v.push(e);
    assert forall|i: int| 0 <= i < full.len() implies lines::is_one_line(#[trigger] full[i]) by {
        if i < v.len() {
            assert(full[i] == v[i]);
        }
    }
    lines::lemma_split_of_join(full);
    lines::lemma_split_of_join(v);
    lines::lemma_join_push(v, e, "\n"@);
    reveal_strlit("\n");
    assert(t =~= text::join(v, "\n"@) + "\n"@);
    assert(t.drop_last() =~= text::join(v, "\n"@));
    let r = text::split(cut_art(s, w), '\n');
    if s.len() == 0 {
        lines::lemma_split_of_join(seq![e]);
        assert(text::join(seq![e], "\n"@) =~= e);
        assert(r =~= seq![e]);
    } else if r == v {
    } else {
        assert(r == full);
        assert forall|i: int| 0 <= i < r.len() implies (#[trigger] r[i]).len() <= w by {
            if i < v.len() {
                assert(full[i] == v[i]);
            }
        }
    }
}

} // verus!
