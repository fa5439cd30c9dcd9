//! What holds of the editor document across its operations.
use crate::lines;
use crate::studio::doc_model;
use crate::text;
use crate::studio::doc_model::{DocView, Place};
use vstd::prelude::*;

verus! {

// ── text and lines ──────────────────────────────────────────────────────────

/// Two runs of lines set one behind the other, the last line of the first and the
/// first line of the second in one.
pub open spec fn glued(a: Seq<Seq<char>>, b: Seq<Seq<char>>) -> Seq<Seq<char>> {
    a.drop_last() + seq![a.last() + b[0]] + b.drop_first()
}

proof fn lemma_join_glued(a: Seq<Seq<char>>, b: Seq<Seq<char>>, sep: Seq<char>)
    requires
        a.len() > 0,
        b.len() > 0,
    ensures
        text::join(glued(a, b), sep) == text::join(a, sep) + text::join(b, sep),
    decreases b.len(),
{
    let g = glued(a, b);
    if b.len() == 1 {
        assert(g =~= a.drop_last().push(a.last() + b[0]));
        lines::lemma_join_push(a.drop_last(), a.last() + b[0], sep);
        assert(a =~= a.drop_last().push(a.last()));
        lines::lemma_join_push(a.drop_last(), a.last(), sep);
        if a.len() > 1 {
            assert(text::join(a.drop_last(), sep) + sep + (a.last() + b[0]) =~= text::join(a.drop_last(), sep)
                + sep + a.last() + b[0]);
        }
    } else {
        let d = b.drop_last();
        lemma_join_glued(a, d, sep);
        assert(g =~= glued(a, d).push(b.last()));
        lines::lemma_join_push(glued(a, d), b.last(), sep);
        assert(b =~= d.push(b.last()));
        lines::lemma_join_push(d, b.last(), sep);
        assert(text::join(a, sep) + text::join(d, sep) + sep + b.last() =~= text::join(a, sep) + (text::join(d, sep) + sep
            + b.last()));
    }
}

/// The text of a document made from a text is that text.
pub proof fn law_text_round_trip(t: Seq<char>)
    ensures
        doc_model::full_text(text::split(t, '\n')) == t,
        text::split(t, '\n').len() > 0,
{
    lines::lemma_join_of_split(t, 0);
    assert(t.skip(0) =~= t);
}

/// Lines are found again in their text.
pub proof fn law_lines_round_trip(lines: Seq<Seq<char>>)
    requires
        lines.len() > 0,
        lines::all_one_line(lines),
    ensures
        text::split(doc_model::full_text(lines), '\n') == lines,
{
    lines::lemma_split_of_join(lines);
}

// ── insertion and deletion ──────────────────────────────────────────────────

/// The lines up to a position.
pub open spec fn lines_before(lines: Seq<Seq<char>>, p: Place) -> Seq<Seq<char>> {
    lines.take(p.row).push(lines[p.row].take(doc_model::index_in(lines, p)))
}

/// The lines from a position on.
pub open spec fn lines_after(lines: Seq<Seq<char>>, p: Place) -> Seq<Seq<char>> {
    seq![lines[p.row].skip(doc_model::index_in(lines, p))] + lines.skip(p.row + 1)
}

/// The text up to a position.
pub open spec fn text_before(lines: Seq<Seq<char>>, p: Place) -> Seq<char> {
    doc_model::full_text(lines_before(lines, p))
}

/// The text from a position on.
pub open spec fn text_after(lines: Seq<Seq<char>>, p: Place) -> Seq<char> {
    doc_model::full_text(lines_after(lines, p))
}

/// The text of a document is what stands before a position and what stands behind it.
pub proof fn law_text_at_position(lines: Seq<Seq<char>>, p: Place)
    requires
        doc_model::fits(lines, p),
    ensures
        doc_model::full_text(lines) == text_before(lines, p) + text_after(lines, p),
{
    text::lemma_index_at(lines[p.row], p.col);
    let k = doc_model::index_in(lines, p);
    let a = lines_before(lines, p);
    let b = lines_after(lines, p);
    lemma_join_glued(a, b, "\n"@);
    assert(lines[p.row].take(k) + lines[p.row].skip(k) =~= lines[p.row]);
    assert(glued(a, b) =~= lines);
}

/// An insertion puts its text at the position and changes nothing else.
pub proof fn law_insert_puts_text_in(lines: Seq<Seq<char>>, p: Place, s: Seq<char>)
    requires
        doc_model::fits(lines, p),
    ensures
        doc_model::full_text(doc_model::with_text(lines, p, s)) == text_before(lines, p) + s + text_after(lines, p),
{
    text::lemma_index_at(lines[p.row], p.col);
    let k = doc_model::index_in(lines, p);
    let line = lines[p.row];
    let a = lines_before(lines, p);
    let b = lines_after(lines, p);
    let m = text::split(s, '\n');
    law_text_round_trip(s);
    lemma_join_glued(a, m, "\n"@);
    lemma_join_glued(glued(a, m), b, "\n"@);
    let f = doc_model::framed(line.take(k), m, line.skip(k));
    let g = glued(glued(a, m), b);
    let w = doc_model::with_text(lines, p, s);
    assert(g.len() == w.len());
    assert forall|i: int| 0 <= i < w.len() implies #[trigger] w[i] == g[i] by {
        if p.row <= i < p.row + m.len() {
            assert(w[i] == f[i - p.row]);
            assert(w[i] =~= g[i]);
        }
    }
    assert(w =~= g);
}

/// A deletion takes out what stands between two positions and nothing else.
pub proof fn law_delete_takes_text_out(lines: Seq<Seq<char>>, s: Place, e: Place)
    requires
        doc_model::fits(lines, s),
        doc_model::fits(lines, e),
        doc_model::not_after(s, e),
    ensures
        doc_model::full_text(lines) == text_before(lines, s) + doc_model::text_between_places(lines, s, e)
            + text_after(lines, e),
        doc_model::full_text(doc_model::without_range(lines, s, e)) == text_before(lines, s) + text_after(lines, e),
{
    text::lemma_index_at(lines[s.row], s.col);
    text::lemma_index_at(lines[e.row], e.col);
    let i = doc_model::index_in(lines, s);
    let j = doc_model::index_in(lines, e);
    if s.row == e.row && i > j {
        text::lemma_offset_grows(lines[s.row], j, i);
    }
    let a = lines_before(lines, s);
    let m = doc_model::lines_between(lines, s, e);
    let b = lines_after(lines, e);
    lemma_join_glued(a, b, "\n"@);
    assert(glued(a, b) =~= doc_model::without_range(lines, s, e));
    lemma_join_glued(a, m, "\n"@);
    lemma_join_glued(glued(a, m), b, "\n"@);
    lemma_between_is_middle(lines, s, e, i, j);
}

proof fn lemma_between_is_middle(lines: Seq<Seq<char>>, s: Place, e: Place, i: int, j: int)
    requires
        0 <= s.row <= e.row < lines.len(),
        i == doc_model::index_in(lines, s),
        j == doc_model::index_in(lines, e),
        0 <= i <= lines[s.row].len(),
        0 <= j <= lines[e.row].len(),
        s.row == e.row ==> i <= j,
    ensures
        glued(glued(lines_before(lines, s), doc_model::lines_between(lines, s, e)), lines_after(lines, e))
            == lines,
{
    let a = lines_before(lines, s);
    let m = doc_model::lines_between(lines, s, e);
    let b = lines_after(lines, e);
    let g = glued(glued(a, m), b);
    let x = lines[s.row];
    let y = lines[e.row];
    if s.row == e.row {
        assert(x.take(i) + x.subrange(i, j) + x.skip(j) =~= x);
        assert(g =~= lines);
    } else {
        assert(x.take(i) + x.skip(i) =~= x);
        assert(y.take(j) + y.skip(j) =~= y);
        assert(g.len() == lines.len());
        assert forall|q: int| 0 <= q < lines.len() implies #[trigger] g[q] == lines[q] by {}
        assert(g =~= lines);
    }
}

/// Text that is taken out and put in again where it was restores the lines.
pub proof fn law_cut_and_insert_restores(lines: Seq<Seq<char>>, s: Place, e: Place)
    requires
        doc_model::fits(lines, s),
        doc_model::fits(lines, e),
        doc_model::not_after(s, e),
        lines::all_one_line(lines),
    ensures
        doc_model::with_text(doc_model::without_range(lines, s, e), s, doc_model::text_between_places(lines, s, e)) == lines,
{
    text::lemma_index_at(lines[s.row], s.col);
    text::lemma_index_at(lines[e.row], e.col);
    let i = doc_model::index_in(lines, s);
    let j = doc_model::index_in(lines, e);
    if s.row == e.row && i > j {
        text::lemma_offset_grows(lines[s.row], j, i);
    }
    let m = doc_model::lines_between(lines, s, e);
    assert forall|q: int| 0 <= q < m.len() implies lines::is_one_line(#[trigger] m[q]) by {
        if s.row == e.row {
            assert(lines::is_one_line(lines[s.row]));
        } else {
            assert(lines::is_one_line(lines[s.row + q]));
        }
    }
    law_lines_round_trip(m);
    let cut = doc_model::without_range(lines, s, e);
    let line = lines[s.row].take(i) + lines[e.row].skip(j);
    assert(cut[s.row] == line);
    assert(line.take(i) =~= lines[s.row].take(i));
    text::lemma_index_of_offset(line, i);
    assert(text::offset_of(line, i) == text::offset_of(lines[s.row], i));
    assert(doc_model::index_in(cut, s) == i);
    lemma_between_is_middle(lines, s, e, i, j);
    let a = lines_before(lines, s);
    let b = lines_after(lines, e);
    let g = glued(glued(a, m), b);
    let w = doc_model::with_text(cut, s, doc_model::full_text(m));
    let f = doc_model::framed(line.take(i), m, line.skip(i));
    assert(line.skip(i) =~= lines[e.row].skip(j));
    assert(w.len() == g.len());
    assert forall|q: int| 0 <= q < w.len() implies #[trigger] w[q] == g[q] by {
        if s.row <= q < s.row + m.len() {
            assert(w[q] == f[q - s.row]);
            assert(w[q] =~= g[q]);
        }
    }
    assert(w =~= g);
}

/// The whole document selected is its text.
pub proof fn law_select_all_is_text(lines: Seq<Seq<char>>)
    requires
        lines.len() > 0,
    ensures
        doc_model::text_between_places(lines, Place { row: 0, col: 0 }, doc_model::end_of(lines, lines.len() - 1))
            == doc_model::full_text(lines),
{
    let last = lines.len() - 1;
    text::lemma_offset_of_end(lines[0]);
    text::lemma_offset_of_end(lines[last]);
    let m = doc_model::lines_between(lines, Place { row: 0, col: 0 }, doc_model::end_of(lines, last));
    assert(lines[0].skip(0) =~= lines[0]);
    assert(lines[last].take(lines[last].len() as int) =~= lines[last]);
    assert(lines[0].subrange(0, lines[0].len() as int) =~= lines[0]);
    assert(m =~= lines);
}

// ── undo and redo ───────────────────────────────────────────────────────────

/// A redo takes an undo back.
pub proof fn law_redo_takes_undo_back(v: DocView)
    requires
        v.undo.len() > 0,
    ensures
        doc_model::redone(doc_model::undone(v)) == (DocView { coalescing: false, ..v }),
{
    let w = doc_model::redone(doc_model::undone(v));
    assert(v.redo.push(doc_model::snap_of(v)).drop_last() =~= v.redo);
    assert(v.undo.drop_last().push(v.undo.last()) =~= v.undo);
    assert(w =~= (DocView { coalescing: false, ..v }));
}

/// An edit recorded the state before it and left nothing to redo.
pub open spec fn records(v: DocView, e: DocView) -> bool {
    e.undo == doc_model::with_undo(v.undo, doc_model::snap_of(v)) && e.redo.len() == 0
}

/// Every edit records the state before it and clears the redo history; a character
/// typed within a run of typing records nothing.
pub proof fn law_edits_record(
    v: DocView,
    s: Seq<char>,
    c: char,
    p: Place,
    start: int,
    other: int,
)
    ensures
        records(v, doc_model::inserted(v, s)),
        !v.coalescing ==> records(v, doc_model::typed(v, c)),
        v.coalescing ==> doc_model::typed(v, c).undo == v.undo,
        records(v, doc_model::erased_left(v, p)),
        records(v, doc_model::erased_right(v, p)),
        records(v, doc_model::completed(v, start, s)),
        records(v, doc_model::unselected(doc_model::edit_start(v))),
        records(v, doc_model::broken_line(v)),
        records(v, doc_model::indented(v)),
        records(v, doc_model::outdented(v)),
        records(v, doc_model::doubled(v)),
        records(v, doc_model::row_deleted(v)),
        records(v, doc_model::swapped(v, other)),
        records(v, doc_model::toggled(v)),
{
}

/// An undo after an edit brings back the lines, the caret and the selection.
pub proof fn law_undo_takes_edit_back(v: DocView, e: DocView)
    requires
        records(v, e),
    ensures
        e.undo.len() > 0,
        doc_model::snap_of(doc_model::undone(e)) == doc_model::snap_of(v),
        doc_model::undone(e).redo.last() == doc_model::snap_of(e),
{
    let u = v.undo.push(doc_model::snap_of(v));
    assert(u.last() == doc_model::snap_of(v));
    assert(e.undo.last() == u.last());
}

/// A run of typing is one undo step, and a caret move ends it.
pub proof fn law_typing_is_one_step(v: DocView, c: char, d: char, p: Place)
    ensures
        doc_model::typed(v, c).coalescing,
        doc_model::typed(doc_model::typed(v, c), d).undo == doc_model::typed(v, c).undo,
        !doc_model::moved(doc_model::typed(v, c), p).coalescing,
{
}

/// No more than 500 states are kept by edits.
pub proof fn law_history_is_bounded(v: DocView)
    requires
        v.undo.len() <= 500,
    ensures
        doc_model::recorded(v).undo.len() <= 500,
{
}

// ── movement ────────────────────────────────────────────────────────────────

/// A step right takes a step left back, but at the start of the document.
pub proof fn law_right_takes_left_back(lines: Seq<Seq<char>>, p: Place)
    requires
        doc_model::fits(lines, p),
        p.col > 0 || p.row > 0,
    ensures
        doc_model::right_of(lines, doc_model::left_of(lines, p)) == p,
{
    let line = lines[p.row];
    let k = doc_model::index_in(lines, p);
    text::lemma_index_at(line, p.col);
    text::lemma_index_of_offset(line, k);
    text::lemma_offset_of_end(line);
    if p.col > 0 {
        text::lemma_offset_grows(line, 0, k);
        assert(k > 0);
        text::lemma_index_of_offset(line, k - 1);
        text::lemma_offset_grows(line, k - 1, k);
        text::lemma_offset_grows(line, k, line.len() as int);
    } else {
        text::lemma_offset_of_end(lines[p.row - 1]);
    }
}

/// A step left takes a step right back, but at the end of the document.
pub proof fn law_left_takes_right_back(lines: Seq<Seq<char>>, p: Place)
    requires
        doc_model::fits(lines, p),
        p.col < text::byte_len(lines[p.row]) || p.row + 1 < lines.len(),
    ensures
        doc_model::left_of(lines, doc_model::right_of(lines, p)) == p,
{
    let line = lines[p.row];
    let k = doc_model::index_in(lines, p);
    text::lemma_index_at(line, p.col);
    text::lemma_index_of_offset(line, k);
    text::lemma_offset_of_end(line);
    if p.col < text::byte_len(line) {
        assert(k < line.len());
        text::lemma_index_of_offset(line, k + 1);
        text::lemma_offset_grows(line, k, k + 1);
    } else {
        text::lemma_offset_grows(line, k, line.len() as int);
    }
}

// ── lines ───────────────────────────────────────────────────────────────────

/// A row moved and moved back is where it was.
pub proof fn law_moved_row_moves_back(v: DocView, other: int)
    requires
        0 <= v.caret.row < v.lines.len(),
        0 <= other < v.lines.len(),
    ensures
        doc_model::swapped(doc_model::swapped(v, other), v.caret.row).lines == v.lines,
        doc_model::swapped(doc_model::swapped(v, other), v.caret.row).caret == v.caret,
{
    assert(doc_model::swapped(doc_model::swapped(v, other), v.caret.row).lines =~= v.lines);
}

/// An outdent takes an indent back: the lines, the caret and the selection.
pub proof fn law_outdent_takes_indent_back(v: DocView)
    requires
        doc_model::good_snap(doc_model::snap_of(v), false),
        doc_model::anchor_on_row(v.lines, v.anchor),
        v.anchor matches Some(a) ==> 0 <= a.col,
    ensures
        doc_model::outdented(doc_model::indented(v)).lines == v.lines,
        doc_model::outdented(doc_model::indented(v)).caret == v.caret,
        doc_model::outdented(doc_model::indented(v)).anchor == v.anchor,
{
    reveal_strlit("  ");
    let w = doc_model::indented(v);
    let (r0, r1) = doc_model::row_range(v);
    assert("  "@ =~= seq![' ', ' ']);
    assert(doc_model::row_range(w) == doc_model::row_range(v));
    let x = doc_model::outdented(w);
    assert forall|r: int| 0 <= r < v.lines.len() implies #[trigger] x.lines[r] == v.lines[r] by {
        if r0 <= r <= r1 {
            assert(doc_model::outdent_of(w.lines[r]) == 2);
            assert(w.lines[r].skip(2) =~= v.lines[r]);
        }
    }
    assert(x.lines =~= v.lines);
    assert(r0 <= v.caret.row <= r1 ==> doc_model::outdent_of(w.lines[v.caret.row]) == 2);
    match v.anchor {
        Some(a) => {
            assert(r0 <= a.row <= r1 ==> doc_model::outdent_of(w.lines[a.row]) == 2);
        },
        None => {},
    }
}

proof fn lemma_marked_line(line: Seq<char>)
    ensures
        doc_model::is_commented(doc_model::toggled_line(line, false)),
        doc_model::toggled_line(doc_model::toggled_line(line, false), true) == line,
{
    reveal_strlit("; ");
    let n = doc_model::indent_at(line);
    text::lemma_first_from(line, text::not_ws(), 0);
    let m = doc_model::toggled_line(line, false);
    if n < line.len() {
        assert(m.len() == line.len() + 2);
        assert(m[n] == ';');
        assert(m.take(n) =~= line.take(n));
        lemma_same_indent(line, m, 0);
        text::lemma_first_from(m, text::not_ws(), 0);
        assert(doc_model::indent_at(m) == n);
        assert(text::trim_start(m) =~= m.skip(n));
        assert(m.skip(n)[0] == ';');
        let t = m.skip(n);
        assert(t =~= "; "@ + line.skip(n));
        assert(t.take(2) =~= "; "@);
        assert(t.skip(2) =~= line.skip(n));
        assert(doc_model::uncommented(t) == line.skip(n));
        assert(m.take(n) =~= line.take(n));
        assert(line.take(n) + line.skip(n) =~= line);
    } else {
        assert(text::trim_start(line) =~= Seq::empty());
    }
}

proof fn lemma_same_indent(line: Seq<char>, m: Seq<char>, a: int)
    requires
        0 <= a <= doc_model::indent_at(line) < line.len(),
        doc_model::indent_at(line) == text::first_from(line, text::not_ws(), a),
        m.len() > doc_model::indent_at(line),
        m.take(doc_model::indent_at(line)) == line.take(doc_model::indent_at(line)),
        m[doc_model::indent_at(line)] == ';',
    ensures
        text::first_from(m, text::not_ws(), a) == doc_model::indent_at(line),
    decreases doc_model::indent_at(line) - a,
{
    let n = doc_model::indent_at(line);
    text::lemma_first_from(line, text::not_ws(), a);
    if a < n {
        assert(m[a] == m.take(n)[a]);
        assert(line[a] == line.take(n)[a]);
        assert(!text::not_ws()(line[a]));
        lemma_same_indent(line, m, a + 1);
    }
}

/// Comment marks that are set are taken away by the next toggle of the same rows.
pub proof fn law_comment_toggles_back(lines: Seq<Seq<char>>, r0: int, r1: int)
    requires
        0 <= r0 <= r1 < lines.len(),
        !doc_model::all_commented(lines, r0, r1),
    ensures
        doc_model::all_commented(doc_model::toggled_lines(lines, r0, r1), r0, r1),
        doc_model::toggled_lines(doc_model::toggled_lines(lines, r0, r1), r0, r1) == lines,
{
    let w = doc_model::toggled_lines(lines, r0, r1);
    assert forall|r: int| r0 <= r <= r1 implies doc_model::is_commented(#[trigger] w[r]) by {
        lemma_marked_line(lines[r]);
    }
    let x = doc_model::toggled_lines(w, r0, r1);
    assert forall|r: int| 0 <= r < lines.len() implies #[trigger] x[r] == lines[r] by {
        if r0 <= r <= r1 {
            lemma_marked_line(lines[r]);
        }
    }
    assert(x =~= lines);
}

proof fn lemma_mark_keeps_start(line: Seq<char>, col: int)
    requires
        text::on_boundary(line, col),
        col > 0,
    ensures
        text::offset_of(
            doc_model::toggled_line(line, false),
            text::index_at(doc_model::toggled_line(line, false), col),
        ) > 0,
        col <= text::byte_len(doc_model::toggled_line(line, false)),
{
    let m = doc_model::toggled_line(line, false);
    let n = doc_model::indent_at(line);
    text::lemma_first_from(line, text::not_ws(), 0);
    let k = text::index_at(line, col);
    text::lemma_index_at(line, col);
    text::lemma_index_of_offset(line, k);
    if n < line.len() {
        reveal_strlit("; ");
        assert(m =~= line.take(n) + "; "@ + line.skip(n));
        text::lemma_byte_len_concat(line.take(n), "; "@ + line.skip(n));
        text::lemma_byte_len_concat("; "@, line.skip(n));
        assert(m =~= line.take(n) + ("; "@ + line.skip(n)));
        assert(line =~= line.take(n) + line.skip(n));
        text::lemma_byte_len_concat(line.take(n), line.skip(n));
        text::lemma_index_at(m, col);
        if text::index_at(m, col) == 0 {
            assert(m.take(1) =~= seq![m[0]]);
            assert(m.take(1) =~= Seq::<char>::empty().push(m[0]));
            text::lemma_byte_len_push(Seq::empty(), m[0]);
            if n > 0 {
                assert(m[0] == line[0]);
                assert(line.take(1) =~= Seq::<char>::empty().push(line[0]));
                if k > 0 {
                    text::lemma_offset_grows(line, 1, k);
                } else {
                    assert(line.take(0) =~= Seq::empty());
                }
            } else {
                assert(m[0] == ';');
            }
        } else {
            text::lemma_offset_grows(m, 0, text::index_at(m, col));
            assert(m.take(0) =~= Seq::empty());
        }
    }
}

/// A line with a mark is no shorter than without.
proof fn lemma_mark_makes_longer(line: Seq<char>)
    ensures
        text::byte_len(doc_model::toggled_line(line, false)) >= text::byte_len(line),
{
    let n = doc_model::indent_at(line);
    text::lemma_first_from(line, text::not_ws(), 0);
    if n < line.len() {
        assert(line =~= line.take(n) + line.skip(n));
        text::lemma_byte_len_concat(line.take(n), line.skip(n));
        text::lemma_byte_len_concat(line.take(n) + "; "@, line.skip(n));
        text::lemma_byte_len_concat(line.take(n), "; "@);
    }
}

/// An empty row at the end of a range takes no part in a toggle.
proof fn lemma_blank_last_row(lines: Seq<Seq<char>>, r0: int, r1: int)
    requires
        0 <= r0 < r1 < lines.len(),
        lines[r1].len() == 0,
    ensures
        doc_model::all_commented(lines, r0, r1) == doc_model::all_commented(lines, r0, r1 - 1),
        doc_model::toggled_lines(lines, r0, r1) == doc_model::toggled_lines(lines, r0, r1 - 1),
{
    text::lemma_first_from(lines[r1], text::not_ws(), 0);
    assert(text::trim_start(lines[r1]).len() == 0);
    if doc_model::all_commented(lines, r0, r1 - 1) {
        assert(doc_model::all_commented(lines, r0, r1));
    }
    assert(doc_model::toggled_lines(lines, r0, r1) =~= doc_model::toggled_lines(lines, r0, r1 - 1));
}

/// Two toggles of the comment marks of a selection restore the lines, where not all
/// of them were comments. The selection's fixed end may be at any column of its row.
pub proof fn law_toggle_twice_restores(v: DocView)
    requires
        doc_model::good_snap(doc_model::snap_of(v), false),
        doc_model::anchor_on_row(v.lines, v.anchor),
        v.anchor matches Some(a) ==> 0 <= a.col,
        !doc_model::all_commented(v.lines, doc_model::row_range(v).0, doc_model::row_range(v).1),
    ensures
        doc_model::toggled(doc_model::toggled(v)).lines == v.lines,
{
    let w = doc_model::toggled(v);
    let (r0, r1) = doc_model::row_range(v);
    law_comment_toggles_back(v.lines, r0, r1);
    let c = v.caret;
    let line = v.lines[c.row];
    text::lemma_index_at(line, c.col);
    text::lemma_offset_of_end(w.lines[c.row]);
    if c.col > 0 {
        if r0 <= c.row <= r1 {
            lemma_mark_keeps_start(line, c.col);
        }
    }
    assert(w.caret.row == c.row);
    assert(w.caret.col > 0 <==> c.col > 0);
    match v.anchor {
        Some(a) => {
            if v.lines[a.row].len() > 0 {
                if r0 <= a.row <= r1 {
                    lemma_mark_makes_longer(v.lines[a.row]);
                }
                text::lemma_byte_len_bounds(v.lines[a.row]);
                assert(a.col > 0 ==> w.anchor->0.col > 0);
                assert(doc_model::row_range(w) == doc_model::row_range(v));
            } else if c.row < a.row && a.col > 0 {
                lemma_blank_last_row(v.lines, r0, r1);
                law_comment_toggles_back(v.lines, r0, r1 - 1);
                assert(doc_model::row_range(w) == (r0, r1 - 1));
            } else {
                assert(doc_model::row_range(w) == doc_model::row_range(v));
            }
        },
        None => {
            assert(doc_model::row_range(w) == doc_model::row_range(v));
        },
    }
}

// ── searches ────────────────────────────────────────────────────────────────

/// A range found by a search: it lies on a row, and what it holds is the needle as it
/// is compared.
pub open spec fn is_hit(
    lines: Seq<Seq<char>>,
    needle: Seq<char>,
    case_sensitive: bool,
    h: (int, int, int),
) -> bool {
    &&& 0 <= h.0 < lines.len()
    &&& exists|f: int|
        {
            &&& 0 <= f
            &&& h.1 == #[trigger] text::offset_of(lines[h.0], f)
            &&& h.2 == h.1 + text::byte_len(needle)
            &&& text::occurs_at(
                doc_model::folded(lines[h.0], case_sensitive),
                doc_model::folded(needle, case_sensitive),
                f,
            )
        }
}

proof fn lemma_row_hits(
    lines: Seq<Seq<char>>,
    needle: Seq<char>,
    case_sensitive: bool,
    row: int,
    i: int,
)
    requires
        0 <= row < lines.len(),
        0 <= i,
    ensures
        forall|k: int|
            0 <= k < doc_model::row_hits(lines[row], needle, case_sensitive, row, i).len() ==> is_hit(
                lines,
                needle,
                case_sensitive,
                #[trigger] doc_model::row_hits(lines[row], needle, case_sensitive, row, i)[k],
            ),
    decreases lines[row].len() - i,
{
    let line = lines[row];
    let fl = doc_model::folded(line, case_sensitive);
    let fn_ = doc_model::folded(needle, case_sensitive);
    let f = text::find_text_from(fl, fn_, i);
    if !(needle.len() == 0 || f < i || f + needle.len() > line.len()) {
        text::lemma_find_text_from(fl, fn_, i);
        lemma_row_hits(lines, needle, case_sensitive, row, f + needle.len());
        let v = doc_model::row_hits(line, needle, case_sensitive, row, i);
        let rest = doc_model::row_hits(line, needle, case_sensitive, row, f + needle.len());
        assert forall|k: int| 0 <= k < v.len() implies is_hit(
            lines,
            needle,
            case_sensitive,
            #[trigger] v[k],
        ) by {
            if k == 0 {
                assert(v[0].1 == text::offset_of(lines[row], f));
            } else {
                assert(v[k] == rest[k - 1]);
            }
        }
    }
}

/// Whatever a search finds is a match.
pub proof fn law_hits_match(
    lines: Seq<Seq<char>>,
    needle: Seq<char>,
    case_sensitive: bool,
    r: int,
)
    requires
        0 <= r,
    ensures
        forall|k: int|
            0 <= k < doc_model::hits_from(lines, needle, case_sensitive, r).len() ==> is_hit(
                lines,
                needle,
                case_sensitive,
                #[trigger] doc_model::hits_from(lines, needle, case_sensitive, r)[k],
            ),
    decreases lines.len() - r,
{
    if r < lines.len() {
        law_hits_match(lines, needle, case_sensitive, r + 1);
        lemma_row_hits(lines, needle, case_sensitive, r, 0);
        let v = doc_model::hits_from(lines, needle, case_sensitive, r);
        let first = doc_model::row_hits(lines[r], needle, case_sensitive, r, 0);
        let rest = doc_model::hits_from(lines, needle, case_sensitive, r + 1);
        assert forall|k: int| 0 <= k < v.len() implies is_hit(
            lines,
            needle,
            case_sensitive,
            #[trigger] v[k],
        ) by {
            if k < first.len() {
                assert(v[k] == first[k]);
            } else {
                assert(v[k] == rest[k - first.len()]);
            }
        }
    }
}

proof fn lemma_folding_keeps_width(s: Seq<char>)
    ensures
        text::byte_len(text::lower_all(s)) == text::byte_len(s),
    decreases s.len(),
{
    if s.len() > 0 {
        lemma_folding_keeps_width(s.drop_first());
        assert(text::lower_all(s).drop_first() =~= text::lower_all(s.drop_first()));
    }
}

proof fn lemma_hit_end(line: Seq<char>, needle: Seq<char>, case_sensitive: bool, f: int)
    requires
        0 <= f,
        text::occurs_at(
            doc_model::folded(line, case_sensitive),
            doc_model::folded(needle, case_sensitive),
            f,
        ),
    ensures
        f + needle.len() <= line.len(),
        text::offset_of(line, f) + text::byte_len(needle) == text::offset_of(line, f + needle.len()),
{
    let e = f + needle.len();
    let part = line.subrange(f, e);
    assert(doc_model::folded(part, case_sensitive) =~= doc_model::folded(needle, case_sensitive)) by {
        let fl = doc_model::folded(line, case_sensitive);
        assert(fl.subrange(f, e) =~= doc_model::folded(needle, case_sensitive));
        assert forall|k: int| 0 <= k < needle.len() implies #[trigger] doc_model::folded(
            part,
            case_sensitive,
        )[k] == doc_model::folded(needle, case_sensitive)[k] by {
            assert(fl.subrange(f, e)[k] == fl[f + k]);
            assert(part[k] == line[f + k]);
        }
    }
    lemma_folding_keeps_width(part);
    lemma_folding_keeps_width(needle);
    assert(line.take(e) =~= line.take(f) + part);
    text::lemma_byte_len_concat(line.take(f), part);
}

proof fn lemma_row_hits_order(
    line: Seq<char>,
    needle: Seq<char>,
    case_sensitive: bool,
    row: int,
    i: int,
)
    requires
        0 <= i <= line.len(),
    ensures
        in_order(doc_model::row_hits(line, needle, case_sensitive, row, i)),
        forall|k: int|
            0 <= k < doc_model::row_hits(line, needle, case_sensitive, row, i).len() ==> (
            #[trigger] doc_model::row_hits(line, needle, case_sensitive, row, i)[k]).0 == row
                && text::offset_of(line, i) <= doc_model::row_hits(
                line,
                needle,
                case_sensitive,
                row,
                i,
            )[k].1,
    decreases line.len() - i,
{
    let fl = doc_model::folded(line, case_sensitive);
    let fn_ = doc_model::folded(needle, case_sensitive);
    let f = text::find_text_from(fl, fn_, i);
    if !(needle.len() == 0 || f < i || f + needle.len() > line.len()) {
        text::lemma_find_text_from(fl, fn_, i);
        lemma_hit_end(line, needle, case_sensitive, f);
        lemma_row_hits_order(line, needle, case_sensitive, row, f + needle.len());
        text::lemma_byte_len_take(line, i, f);
        text::lemma_byte_len_take(line, i, f + needle.len());
        let v = doc_model::row_hits(line, needle, case_sensitive, row, i);
        let rest = doc_model::row_hits(line, needle, case_sensitive, row, f + needle.len());
        assert forall|k: int| 0 <= k < v.len() implies (#[trigger] v[k]).0 == row && text::offset_of(
            line,
            i,
        ) <= v[k].1 by {
            if k > 0 {
                assert(v[k] == rest[k - 1]);
            }
        }
        assert forall|a: int, b: int| 0 <= a < b < v.len() implies before(
            #[trigger] v[a],
            #[trigger] v[b],
        ) by {
            assert(v[b] == rest[b - 1]);
            if a > 0 {
                assert(v[a] == rest[a - 1]);
                assert(before(rest[a - 1], rest[b - 1]));
            }
        }
    }
}

proof fn lemma_row_met(
    line: Seq<char>,
    needle: Seq<char>,
    case_sensitive: bool,
    row: int,
    i: int,
    j: int,
)
    requires
        0 <= i <= j,
        needle.len() > 0,
        text::occurs_at(
            doc_model::folded(line, case_sensitive),
            doc_model::folded(needle, case_sensitive),
            j,
        ),
    ensures
        exists|k: int|
            0 <= k < doc_model::row_hits(line, needle, case_sensitive, row, i).len() && meets(
                #[trigger] doc_model::row_hits(line, needle, case_sensitive, row, i)[k],
                (row, text::offset_of(line, j), text::offset_of(line, j) + text::byte_len(needle)),
            ),
    decreases line.len() - i,
{
    let fl = doc_model::folded(line, case_sensitive);
    let fn_ = doc_model::folded(needle, case_sensitive);
    let f = text::find_text_from(fl, fn_, i);
    let n = needle.len() as int;
    let h = (row, text::offset_of(line, j), text::offset_of(line, j) + text::byte_len(needle));
    text::lemma_find_text_from(fl, fn_, i);
    lemma_hit_end(line, needle, case_sensitive, j);
    assert(i <= f <= j);
    lemma_hit_end(line, needle, case_sensitive, f);
    let v = doc_model::row_hits(line, needle, case_sensitive, row, i);
    let rest = doc_model::row_hits(line, needle, case_sensitive, row, f + n);
    assert(v.len() == rest.len() + 1);
    if j < f + n {
        text::lemma_offset_grows(line, j, f + n);
        text::lemma_offset_grows(line, f, j + n);
        assert(meets(v[0], h));
    } else {
        lemma_row_met(line, needle, case_sensitive, row, f + n, j);
        let k = choose|k: int| 0 <= k < rest.len() && meets(#[trigger] rest[k], h);
        assert(v[k + 1] == rest[k]);
        assert(meets(v[k + 1], h));
    }
}

/// The range `a` ends before `b` starts.
pub open spec fn before(a: (int, int, int), b: (int, int, int)) -> bool {
    a.0 < b.0 || (a.0 == b.0 && a.2 <= b.1)
}

/// The ranges `a` and `b` have something in common.
pub open spec fn meets(a: (int, int, int), b: (int, int, int)) -> bool {
    a.0 == b.0 && a.1 < b.2 && b.1 < a.2
}

/// The ranges stand in order and none overlaps another.
pub open spec fn in_order(v: Seq<(int, int, int)>) -> bool {
    forall|i: int, j: int| 0 <= i < j < v.len() ==> before(#[trigger] v[i], #[trigger] v[j])
}

proof fn lemma_hits_order(lines: Seq<Seq<char>>, needle: Seq<char>, case_sensitive: bool, r: int)
    requires
        0 <= r,
    ensures
        in_order(doc_model::hits_from(lines, needle, case_sensitive, r)),
        forall|k: int|
            0 <= k < doc_model::hits_from(lines, needle, case_sensitive, r).len() ==> r <= (
            #[trigger] doc_model::hits_from(lines, needle, case_sensitive, r)[k]).0,
    decreases lines.len() - r,
{
    if r < lines.len() {
        lemma_hits_order(lines, needle, case_sensitive, r + 1);
        lemma_row_hits_order(lines[r], needle, case_sensitive, r, 0);
        let v = doc_model::hits_from(lines, needle, case_sensitive, r);
        let first = doc_model::row_hits(lines[r], needle, case_sensitive, r, 0);
        let rest = doc_model::hits_from(lines, needle, case_sensitive, r + 1);
        assert forall|k: int| 0 <= k < v.len() implies r <= (#[trigger] v[k]).0 by {
            if k >= first.len() {
                assert(v[k] == rest[k - first.len()]);
            }
        }
        assert forall|a: int, b: int| 0 <= a < b < v.len() implies before(
            #[trigger] v[a],
            #[trigger] v[b],
        ) by {
            if b < first.len() {
                assert(before(first[a], first[b]));
            } else {
                assert(v[b] == rest[b - first.len()]);
                if a >= first.len() {
                    assert(v[a] == rest[a - first.len()]);
                    assert(before(rest[a - first.len()], rest[b - first.len()]));
                } else {
                    assert(v[a] == first[a]);
                }
            }
        }
    }
}

proof fn lemma_hits_met(
    lines: Seq<Seq<char>>,
    needle: Seq<char>,
    case_sensitive: bool,
    r: int,
    h: (int, int, int),
)
    requires
        0 <= r <= h.0,
        needle.len() > 0,
        is_hit(lines, needle, case_sensitive, h),
    ensures
        exists|k: int|
            0 <= k < doc_model::hits_from(lines, needle, case_sensitive, r).len() && meets(
                #[trigger] doc_model::hits_from(lines, needle, case_sensitive, r)[k],
                h,
            ),
    decreases lines.len() - r,
{
    let v = doc_model::hits_from(lines, needle, case_sensitive, r);
    let first = doc_model::row_hits(lines[r], needle, case_sensitive, r, 0);
    let rest = doc_model::hits_from(lines, needle, case_sensitive, r + 1);
    if r == h.0 {
        let f = choose|f: int|
            {
                &&& 0 <= f
                &&& h.1 == #[trigger] text::offset_of(lines[h.0], f)
                &&& h.2 == h.1 + text::byte_len(needle)
                &&& text::occurs_at(
                    doc_model::folded(lines[h.0], case_sensitive),
                    doc_model::folded(needle, case_sensitive),
                    f,
                )
            };
        lemma_row_met(lines[r], needle, case_sensitive, r, 0, f);
        let k = choose|k: int| 0 <= k < first.len() && meets(#[trigger] first[k], h);
        assert(v[k] == first[k]);
        assert(meets(v[k], h));
    } else {
        lemma_hits_met(lines, needle, case_sensitive, r + 1, h);
        let k = choose|k: int| 0 <= k < rest.len() && meets(#[trigger] rest[k], h);
        assert(v[first.len() + k] == rest[k]);
        assert(meets(v[first.len() + k], h));
    }
}

/// What a search finds stands in the order of the text, and no two matches overlap.
pub proof fn law_hits_in_order(lines: Seq<Seq<char>>, needle: Seq<char>, case_sensitive: bool)
    ensures
        in_order(doc_model::hits_from(lines, needle, case_sensitive, 0)),
{
    lemma_hits_order(lines, needle, case_sensitive, 0);
}

/// A search passes over no match: where the needle occurs, a match found is there or
/// overlaps it.
pub proof fn law_no_match_is_missed(
    lines: Seq<Seq<char>>,
    needle: Seq<char>,
    case_sensitive: bool,
    h: (int, int, int),
)
    requires
        needle.len() > 0,
        is_hit(lines, needle, case_sensitive, h),
    ensures
        exists|k: int|
            0 <= k < doc_model::hits_from(lines, needle, case_sensitive, 0).len() && meets(
                #[trigger] doc_model::hits_from(lines, needle, case_sensitive, 0)[k],
                h,
            ),
{
    lemma_hits_met(lines, needle, case_sensitive, 0, h);
}

} // verus!
