//! The editor document in mathematical terms: its state, and what each operation
//! makes of it.
use crate::studio::words;
use crate::text;
use vstd::prelude::*;

verus! {

/// A position: a row, and a byte column within it.
pub struct Place {
    pub row: int,
    pub col: int,
}

/// A state to go back to.
#[verifier::ext_equal]
pub struct SnapView {
    pub lines: Seq<Seq<char>>,
    pub caret: Place,
    pub anchor: Option<Place>,
}

/// A document: its lines, the caret, the fixed end of the selection, the states to
/// undo and redo to, whether typing goes on in one undo step, and the column that
/// vertical movement keeps.
#[verifier::ext_equal]
pub struct DocView {
    pub lines: Seq<Seq<char>>,
    pub caret: Place,
    pub anchor: Option<Place>,
    pub undo: Seq<SnapView>,
    pub redo: Seq<SnapView>,
    pub coalescing: bool,
    pub goal: Option<int>,
}

/// A document as it is opened: the caret at its start, nothing selected, and nothing to
/// undo or redo.
pub open spec fn opened(lines: Seq<Seq<char>>) -> DocView {
    DocView {
        lines,
        caret: Place { row: 0, col: 0 },
        anchor: None,
        undo: Seq::empty(),
        redo: Seq::empty(),
        coalescing: false,
        goal: None,
    }
}

// ── positions ───────────────────────────────────────────────────────────────

/// The position lies in the text, between two characters or at an end of its line.
pub open spec fn fits(lines: Seq<Seq<char>>, p: Place) -> bool {
    0 <= p.row < lines.len() && text::on_boundary(lines[p.row], p.col)
}

/// The position of the character position `k` of a row.
pub open spec fn at(lines: Seq<Seq<char>>, row: int, k: int) -> Place {
    Place { row, col: text::offset_of(lines[row], k) }
}

/// The character position of a position.
pub open spec fn index_in(lines: Seq<Seq<char>>, p: Place) -> int {
    text::index_at(lines[p.row], p.col)
}

/// The position at the column `col` of a row, or at the boundary before it.
pub open spec fn snapped(lines: Seq<Seq<char>>, row: int, col: int) -> Place {
    at(lines, row, text::index_at(lines[row], col))
}

/// The last row, where `row` is beyond it.
pub open spec fn clamped_row(lines: Seq<Seq<char>>, row: int) -> int {
    if row < lines.len() {
        row
    } else {
        lines.len() - 1
    }
}

/// The end of a row.
pub open spec fn end_of(lines: Seq<Seq<char>>, row: int) -> Place {
    Place { row, col: text::byte_len(lines[row]) as int }
}

/// `p` does not come after `q`.
pub open spec fn not_after(p: Place, q: Place) -> bool {
    p.row < q.row || (p.row == q.row && p.col <= q.col)
}

/// One character to the left, over the end of the row before.
pub open spec fn left_of(lines: Seq<Seq<char>>, p: Place) -> Place {
    if p.col > 0 {
        at(lines, p.row, index_in(lines, p) - 1)
    } else if p.row > 0 {
        end_of(lines, p.row - 1)
    } else {
        p
    }
}

/// One character to the right, over the start of the row behind.
pub open spec fn right_of(lines: Seq<Seq<char>>, p: Place) -> Place {
    if p.col < text::byte_len(lines[p.row]) {
        at(lines, p.row, index_in(lines, p) + 1)
    } else if p.row + 1 < lines.len() {
        Place { row: p.row + 1, col: 0 }
    } else {
        p
    }
}

/// The word boundary to the left, over the end of the row before.
pub open spec fn word_left_of(lines: Seq<Seq<char>>, p: Place) -> Place {
    if p.col > 0 {
        at(lines, p.row, words::word_left_at(lines[p.row], index_in(lines, p)))
    } else if p.row > 0 {
        end_of(lines, p.row - 1)
    } else {
        p
    }
}

/// The word boundary to the right, over the start of the row behind.
pub open spec fn word_right_of(lines: Seq<Seq<char>>, p: Place) -> Place {
    if p.col < text::byte_len(lines[p.row]) {
        at(lines, p.row, words::word_right_at(lines[p.row], index_in(lines, p)))
    } else if p.row + 1 < lines.len() {
        Place { row: p.row + 1, col: 0 }
    } else {
        p
    }
}

// ── texts ───────────────────────────────────────────────────────────────────

/// The whole text.
pub open spec fn full_text(lines: Seq<Seq<char>>) -> Seq<char> {
    text::join(lines, "\n"@)
}

/// The lines between two positions.
pub open spec fn lines_between(lines: Seq<Seq<char>>, s: Place, e: Place) -> Seq<Seq<char>> {
    let i = index_in(lines, s);
    let j = index_in(lines, e);
    if s.row == e.row {
        seq![lines[s.row].subrange(i, j)]
    } else {
        seq![lines[s.row].skip(i)] + lines.subrange(s.row + 1, e.row) + seq![lines[e.row].take(j)]
    }
}

/// The text between two positions.
pub open spec fn text_between_places(lines: Seq<Seq<char>>, s: Place, e: Place) -> Seq<char> {
    text::join(lines_between(lines, s, e), "\n"@)
}

/// The lines without what stands between two positions.
pub open spec fn without_range(lines: Seq<Seq<char>>, s: Place, e: Place) -> Seq<Seq<char>> {
    let i = index_in(lines, s);
    let j = index_in(lines, e);
    lines.take(s.row) + seq![lines[s.row].take(i) + lines[e.row].skip(j)] + lines.skip(e.row + 1)
}

/// The pieces with `head` before the first and `tail` behind the last.
pub open spec fn framed(head: Seq<char>, pieces: Seq<Seq<char>>, tail: Seq<char>) -> Seq<Seq<char>> {
    Seq::new(
        pieces.len(),
        |i: int|
            (if i == 0 {
                head
            } else {
                Seq::empty()
            }) + pieces[i] + (if i == pieces.len() - 1 {
                tail
            } else {
                Seq::empty()
            }),
    )
}

/// The lines with the text `s` put in at a position.
pub open spec fn with_text(lines: Seq<Seq<char>>, p: Place, s: Seq<char>) -> Seq<Seq<char>> {
    let k = index_in(lines, p);
    let line = lines[p.row];
    lines.take(p.row) + framed(line.take(k), text::split(s, '\n'), line.skip(k)) + lines.skip(p.row + 1)
}

/// The position behind the text `s` put in at a position.
pub open spec fn behind_text(lines: Seq<Seq<char>>, p: Place, s: Seq<char>) -> Place {
    let pieces = text::split(s, '\n');
    let n = pieces.len();
    let k = (if n == 1 {
        index_in(lines, p)
    } else {
        0
    }) + pieces[n - 1].len();
    at(with_text(lines, p, s), p.row + n - 1, k)
}

// ── the state ───────────────────────────────────────────────────────────────

/// The state in its lines, caret and selection.
pub open spec fn snap_of(v: DocView) -> SnapView {
    SnapView { lines: v.lines, caret: v.caret, anchor: v.anchor }
}

/// A selection end, where there is one, lies in the text.
pub open spec fn anchor_fits(lines: Seq<Seq<char>>, a: Option<Place>) -> bool {
    match a {
        Some(p) => fits(lines, p),
        None => true,
    }
}

/// The selection's fixed end is on a row of the text.
pub open spec fn anchor_on_row(lines: Seq<Seq<char>>, anchor: Option<Place>) -> bool {
    match anchor {
        Some(a) => 0 <= a.row < lines.len(),
        None => true,
    }
}

/// A kept state has a line and its caret lies in the text; with `anchors`, its
/// selection end too.
pub open spec fn good_snap(s: SnapView, anchors: bool) -> bool {
    &&& s.lines.len() > 0
    &&& fits(s.lines, s.caret)
    &&& anchors ==> anchor_fits(s.lines, s.anchor)
}

/// The same of the document and of every state it keeps.
pub open spec fn state_ok(v: DocView, anchors: bool) -> bool {
    &&& good_snap(snap_of(v), anchors)
    &&& forall|i: int| 0 <= i < v.undo.len() ==> good_snap(#[trigger] v.undo[i], anchors)
    &&& forall|i: int| 0 <= i < v.redo.len() ==> good_snap(#[trigger] v.redo[i], anchors)
}

/// The selection, in order; `None` where it is empty.
pub open spec fn selected(v: DocView) -> Option<(Place, Place)> {
    match v.anchor {
        None => None,
        Some(a) => if a == v.caret {
            None
        } else if not_after(a, v.caret) {
            Some((a, v.caret))
        } else {
            Some((v.caret, a))
        },
    }
}

/// The rows that the selection takes in, or the caret's row. A selection that ends
/// at the start of a row does not take that row in.
pub open spec fn row_range(v: DocView) -> (int, int) {
    match selected(v) {
        Some((s, e)) => (
            s.row,
            if e.col == 0 && e.row > s.row {
                e.row - 1
            } else {
                e.row
            },
        ),
        None => (v.caret.row, v.caret.row),
    }
}

// ── undo ────────────────────────────────────────────────────────────────────

/// The states to undo to with `s` on top; the oldest of more than 500 is dropped.
pub open spec fn with_undo(undo: Seq<SnapView>, s: SnapView) -> Seq<SnapView> {
    let u = undo.push(s);
    if u.len() > 500 {
        u.drop_first()
    } else {
        u
    }
}

/// The state is kept to undo to, and nothing is left to redo.
pub open spec fn recorded(v: DocView) -> DocView {
    DocView { undo: with_undo(v.undo, snap_of(v)), redo: Seq::empty(), ..v }
}

/// The start of an edit of its own undo step.
pub open spec fn edit_start(v: DocView) -> DocView {
    DocView { coalescing: false, ..recorded(v) }
}

/// The start of an edit of its own undo step that moves the caret sideways.
pub open spec fn edit_begin(v: DocView) -> DocView {
    DocView { goal: None, ..edit_start(v) }
}

/// The state `s` in place of the current one.
pub open spec fn restored(v: DocView, s: SnapView) -> DocView {
    DocView { lines: s.lines, caret: s.caret, anchor: s.anchor, coalescing: false, ..v }
}

/// After an undo.
pub open spec fn undone(v: DocView) -> DocView {
    if v.undo.len() == 0 {
        v
    } else {
        restored(
            (DocView { undo: v.undo.drop_last(), redo: v.redo.push(snap_of(v)), ..v }),
            v.undo.last(),
        )
    }
}

/// After a redo.
pub open spec fn redone(v: DocView) -> DocView {
    if v.redo.len() == 0 {
        v
    } else {
        restored(
            (DocView { redo: v.redo.drop_last(), undo: v.undo.push(snap_of(v)), ..v }),
            v.redo.last(),
        )
    }
}

// ── edits ───────────────────────────────────────────────────────────────────

/// The caret moved sideways.
pub open spec fn moved(v: DocView, p: Place) -> DocView {
    DocView { caret: p, coalescing: false, goal: None, ..v }
}

/// What stands between two positions is gone, and the caret is where it was.
pub open spec fn cut_range(v: DocView, s: Place, e: Place) -> DocView {
    DocView { lines: without_range(v.lines, s, e), caret: s, ..v }
}

/// The selection and what it holds are gone.
pub open spec fn unselected(v: DocView) -> DocView {
    match selected(v) {
        Some((s, e)) => DocView { anchor: None, ..cut_range(v, s, e) },
        None => DocView { anchor: None, ..v },
    }
}

/// The text `s` is put in at the caret, and the caret is behind it.
pub open spec fn put_in(v: DocView, s: Seq<char>) -> DocView {
    DocView {
        lines: with_text(v.lines, v.caret, s),
        caret: behind_text(v.lines, v.caret, s),
        ..v
    }
}

/// After text is inserted.
pub open spec fn inserted(v: DocView, s: Seq<char>) -> DocView {
    put_in(unselected(edit_begin(v)), s)
}

/// After a character is typed: within a run of typing no new undo step begins.
pub open spec fn typed(v: DocView, c: char) -> DocView {
    let b = if v.coalescing {
        DocView { goal: None, ..v }
    } else {
        DocView { goal: None, coalescing: true, ..recorded(v) }
    };
    put_in(unselected(b), seq![c])
}

/// After a deletion up to the position `p` on the left: of the selection, where there
/// is one.
pub open spec fn erased_left(v: DocView, p: Place) -> DocView {
    let b = edit_begin(v);
    match selected(v) {
        Some(_) => unselected(b),
        None => cut_range(unselected(b), p, v.caret),
    }
}

/// After a deletion up to the position `p` on the right: of the selection, where
/// there is one.
pub open spec fn erased_right(v: DocView, p: Place) -> DocView {
    let b = edit_begin(v);
    match selected(v) {
        Some(_) => unselected(b),
        None => cut_range(unselected(b), v.caret, p),
    }
}

/// After `with` replaces what stands on the caret's row from the byte `start` to the
/// caret.
pub open spec fn completed(v: DocView, start: int, with: Seq<char>) -> DocView {
    let row = v.caret.row;
    let line = v.lines[row];
    let from = if start < v.caret.col {
        start
    } else {
        v.caret.col
    };
    let i = text::index_at(line, from);
    let new = line.take(i) + with + line.skip(index_in(v.lines, v.caret));
    DocView {
        lines: v.lines.update(row, new),
        caret: Place { row, col: from + text::byte_len(with) },
        ..edit_begin(v)
    }
}

/// No selection end stands behind the byte `start` on the caret's row.
pub open spec fn anchor_before(v: DocView, start: int) -> bool {
    match v.anchor {
        Some(a) => a.row != v.caret.row || (a.col <= start && a.col <= v.caret.col),
        None => true,
    }
}

/// The spaces and tabs that a line begins with.
pub open spec fn not_indent() -> spec_fn(char) -> bool {
    |c: char| c != ' ' && c != '\t'
}

/// What a new line after the caret begins with: the indent of the caret's line, and
/// one level more where what stands before the caret opens a block.
pub open spec fn next_indent(v: DocView) -> Seq<char> {
    let line = v.lines[v.caret.row];
    let own = line.take(text::first_from(line, not_indent(), 0));
    if words::block_opener(line.take(index_in(v.lines, v.caret))) {
        own + "  "@
    } else {
        own
    }
}

/// After a new line that keeps the indent.
pub open spec fn broken_line(v: DocView) -> DocView {
    let w = unselected(edit_begin(v));
    put_in(w, "\n"@ + next_indent(w))
}

/// A selection end or caret, `by` columns further right on the rows of a range.
pub open spec fn shifted(p: Place, r0: int, r1: int, by: int) -> Place {
    if r0 <= p.row <= r1 {
        Place { row: p.row, col: p.col + by }
    } else {
        p
    }
}

/// After the selected rows are indented by one level.
pub open spec fn indented(v: DocView) -> DocView {
    let (r0, r1) = row_range(v);
    DocView {
        lines: Seq::new(
            v.lines.len(),
            |r: int|
                if r0 <= r <= r1 {
                    "  "@ + v.lines[r]
                } else {
                    v.lines[r]
                },
        ),
        caret: shifted(v.caret, r0, r1, 2),
        anchor: match v.anchor {
            Some(a) => Some(shifted(a, r0, r1, 2)),
            None => None,
        },
        ..edit_start(v)
    }
}

/// How many spaces an outdent takes from a line: two at most.
pub open spec fn outdent_of(line: Seq<char>) -> int {
    if line.len() == 0 || line[0] != ' ' {
        0
    } else if line.len() == 1 || line[1] != ' ' {
        1
    } else {
        2
    }
}

/// A selection end or caret after its row lost what an outdent takes.
pub open spec fn pulled(lines: Seq<Seq<char>>, p: Place, r0: int, r1: int) -> Place {
    if r0 <= p.row <= r1 {
        let n = outdent_of(lines[p.row]);
        Place {
            row: p.row,
            col: if p.col < n {
                0
            } else {
                p.col - n
            },
        }
    } else {
        p
    }
}

/// After the selected rows are outdented by up to one level.
pub open spec fn outdented(v: DocView) -> DocView {
    let (r0, r1) = row_range(v);
    DocView {
        lines: Seq::new(
            v.lines.len(),
            |r: int|
                if r0 <= r <= r1 {
                    v.lines[r].skip(outdent_of(v.lines[r]))
                } else {
                    v.lines[r]
                },
        ),
        caret: pulled(v.lines, v.caret, r0, r1),
        anchor: match v.anchor {
            Some(a) => Some(pulled(v.lines, a, r0, r1)),
            None => None,
        },
        ..edit_start(v)
    }
}

/// After the caret's row is doubled.
pub open spec fn doubled(v: DocView) -> DocView {
    let row = v.caret.row;
    DocView {
        lines: v.lines.insert(row + 1, v.lines[row]),
        caret: Place { row: row + 1, col: v.caret.col },
        anchor: None,
        ..edit_start(v)
    }
}

/// After the caret's row is deleted; the last row is only emptied.
pub open spec fn row_deleted(v: DocView) -> DocView {
    let b = DocView { anchor: None, ..edit_start(v) };
    if v.lines.len() == 1 {
        DocView { lines: seq![Seq::empty()], caret: Place { row: v.caret.row, col: 0 }, ..b }
    } else {
        let lines = v.lines.remove(v.caret.row);
        DocView {
            lines,
            caret: snapped(lines, clamped_row(lines, v.caret.row), v.caret.col),
            ..b
        }
    }
}

/// After the caret's row trades places with row `other`.
pub open spec fn swapped(v: DocView, other: int) -> DocView {
    let row = v.caret.row;
    DocView {
        lines: v.lines.update(row, v.lines[other]).update(other, v.lines[row]),
        caret: Place { row: other, col: v.caret.col },
        anchor: None,
        ..edit_start(v)
    }
}

/// A line that is blank or a comment.
pub open spec fn is_commented(line: Seq<char>) -> bool {
    let t = text::trim_start(line);
    t.len() == 0 || t[0] == ';'
}

/// Every row of a range is blank or a comment.
pub open spec fn all_commented(lines: Seq<Seq<char>>, r0: int, r1: int) -> bool {
    forall|r: int| r0 <= r <= r1 ==> is_commented(#[trigger] lines[r])
}

/// The first position of a line that is no white space.
pub open spec fn indent_at(line: Seq<char>) -> int {
    text::first_from(line, text::not_ws(), 0)
}

/// A comment without its mark and one space behind it.
pub open spec fn uncommented(t: Seq<char>) -> Seq<char> {
    match text::strip_prefix(t, "; "@) {
        Some(s) => s,
        None => match text::strip_prefix(t, ";"@) {
            Some(s) => s,
            None => t,
        },
    }
}

/// A line with its comment mark set or taken away; a blank line stays.
pub open spec fn toggled_line(line: Seq<char>, commented: bool) -> Seq<char> {
    let n = indent_at(line);
    if n == line.len() {
        line
    } else if commented {
        line.take(n) + uncommented(line.skip(n))
    } else {
        line.take(n) + "; "@ + line.skip(n)
    }
}

/// The rows of a range with their comment marks set or taken away.
pub open spec fn toggled_lines(lines: Seq<Seq<char>>, r0: int, r1: int) -> Seq<Seq<char>> {
    let commented = all_commented(lines, r0, r1);
    Seq::new(
        lines.len(),
        |r: int|
            if r0 <= r <= r1 {
                toggled_line(lines[r], commented)
            } else {
                lines[r]
            },
    )
}

/// After the comment marks of the selected rows are set, or taken away where every
/// one of them is a comment or blank.
pub open spec fn toggled(v: DocView) -> DocView {
    let (r0, r1) = row_range(v);
    let lines = toggled_lines(v.lines, r0, r1);
    DocView {
        lines,
        caret: snapped(lines, v.caret.row, v.caret.col),
        anchor: match v.anchor {
            Some(a) => Some(
                Place {
                    row: a.row,
                    col: if a.col < text::byte_len(lines[a.row]) {
                        a.col
                    } else {
                        text::byte_len(lines[a.row]) as int
                    },
                },
            ),
            None => None,
        },
        ..edit_start(v)
    }
}

/// After a vertical move to row `row`.
pub open spec fn moved_to_row(v: DocView, row: int) -> DocView {
    let goal = match v.goal {
        Some(g) => g,
        None => v.caret.col,
    };
    DocView { caret: snapped(v.lines, row, goal), coalescing: false, goal: Some(goal), ..v }
}

/// After the word at a place is selected. Where no word touches the place, nothing
/// changes on white space, and the caret moves there on anything else.
pub open spec fn word_selected(v: DocView, row: int, col: int) -> DocView {
    let r = clamped_row(v.lines, row);
    let line = v.lines[r];
    let k = text::index_at(line, col);
    let s = words::word_begin_at(line, k);
    let e = words::word_end_at(line, k);
    if e > s {
        DocView {
            anchor: Some(at(v.lines, r, s)),
            caret: at(v.lines, r, e),
            goal: None,
            ..v
        }
    } else if k < line.len() && text::is_ws(line[k]) {
        v
    } else {
        moved(v, snapped(v.lines, r, col))
    }
}

/// After a row is selected with its end.
pub open spec fn row_selected(v: DocView, row: int) -> DocView {
    let r = clamped_row(v.lines, row);
    DocView {
        anchor: Some(Place { row: r, col: 0 }),
        caret: if r + 1 < v.lines.len() {
            Place { row: r + 1, col: 0 }
        } else {
            end_of(v.lines, r)
        },
        goal: None,
        ..v
    }
}

// ── searches ────────────────────────────────────────────────────────────────

/// A text as it is compared.
pub open spec fn folded(s: Seq<char>, case_sensitive: bool) -> Seq<char> {
    if case_sensitive {
        s
    } else {
        text::lower_all(s)
    }
}

/// The matches of `needle` in a row from the character position `i` on, as byte
/// ranges; none overlaps the one before it.
pub open spec fn row_hits(
    line: Seq<char>,
    needle: Seq<char>,
    case_sensitive: bool,
    row: int,
    i: int,
) -> Seq<(int, int, int)>
    decreases line.len() - i,
{
    let f = text::find_text_from(folded(line, case_sensitive), folded(needle, case_sensitive), i);
    if needle.len() == 0 || i < 0 || f < i || f + needle.len() > line.len() {
        Seq::empty()
    } else {
        seq![(row, text::offset_of(line, f), text::offset_of(line, f) + text::byte_len(needle))] + row_hits(
            line,
            needle,
            case_sensitive,
            row,
            f + needle.len(),
        )
    }
}

/// The matches of `needle` from row `r` on.
pub open spec fn hits_from(
    lines: Seq<Seq<char>>,
    needle: Seq<char>,
    case_sensitive: bool,
    r: int,
) -> Seq<(int, int, int)>
    decreases lines.len() - r,
{
    if r >= lines.len() {
        Seq::empty()
    } else {
        row_hits(lines[r], needle, case_sensitive, r, 0) + hits_from(
            lines,
            needle,
            case_sensitive,
            r + 1,
        )
    }
}

/// A text that is worth showing elsewhere: two bytes at least, all of a word.
pub open spec fn worth_showing(t: Seq<char>) -> Option<Seq<char>> {
    if text::byte_len(t) >= 2 && words::all_word(t) {
        Some(t)
    } else {
        None
    }
}

/// What to show the other occurrences of: a selection on one row, else the word at
/// the caret.
pub open spec fn needle_of(v: DocView) -> Option<Seq<char>> {
    match selected(v) {
        Some((s, e)) => if s.row != e.row {
            None
        } else {
            worth_showing(
                v.lines[s.row].subrange(index_in(v.lines, s), index_in(v.lines, e)),
            )
        },
        None => {
            let line = v.lines[v.caret.row];
            let k = index_in(v.lines, v.caret);
            worth_showing(line.subrange(words::word_begin_at(line, k), words::word_end_at(line, k)))
        },
    }
}

/// The bracket that matches the one at, or right before, a place.
pub open spec fn bracket_match(lines: Seq<Seq<char>>, row: int, col: int) -> Option<(int, int)> {
    let line = lines[row];
    match words::bracket_near(line, text::index_at(line, col)) {
        Some(b) => match words::partner(line, b) {
            Some(p) => Some((row, text::offset_of(line, p))),
            None => None,
        },
        None => None,
    }
}

} // verus!
