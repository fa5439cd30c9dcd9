//! The editor document: text, caret, selection, edits with undo, and a token view.
//!
//! Columns are byte offsets within a line.
use crate::studio::doc_model;
use crate::studio::syntax;
use crate::text;
use crate::studio::doc_model::{DocView, Place, SnapView};
use crate::studio::syntax::{Token, lex_line};
use crate::studio::words::{
    find_bracket, find_partner, is_all_word, opens_block, word_end, word_left, word_right,
    word_start,
};
use crate::text::{
    byte_offset, bytes_in, char_index, char_is_ws, chars_of, copy_of, copy_strings, indent_of,
    join_strings, push_all, push_str, split_at_char, string_of, text_at, to_lower, trimmed_start,
    without_prefix,
};
use vstd::prelude::*;
use vstd::slice::slice_subrange;

verus! {

/// A caret position: a row, counted from 0, and a byte column within it.
#[derive(Debug, Clone, Copy, PartialEq, Eq, Structural)]
pub struct Caret {
    pub row: usize,
    pub col: usize,
}

impl Default for Caret {
    fn default() -> (r: Caret)
        ensures
            r@ == (Place { row: 0, col: 0 }),
    {
        Caret { row: 0, col: 0 }
    }
}

impl View for Caret {
    type V = Place;

    open spec fn view(&self) -> Place {
        Place { row: self.row as int, col: self.col as int }
    }
}

/// The view of an optional position.
pub open spec fn opt_place(c: Option<Caret>) -> Option<Place> {
    match c {
        Some(p) => Some(p@),
        None => None,
    }
}

/// The view of an optional range.
pub open spec fn opt_range(c: Option<(Caret, Caret)>) -> Option<(Place, Place)> {
    match c {
        Some((s, e)) => Some((s@, e@)),
        None => None,
    }
}

/// A state to undo or redo to.
#[derive(Debug, Clone)]
pub(crate) struct Snapshot {
    pub(crate) lines: Vec<String>,
    pub(crate) caret: Caret,
    pub(crate) anchor: Option<Caret>,
}

spec fn snap_view(s: Snapshot) -> SnapView {
    SnapView { lines: text::strings(s.lines@), caret: s.caret@, anchor: opt_place(s.anchor) }
}

spec fn snaps_view(v: Seq<Snapshot>) -> Seq<SnapView> {
    Seq::new(v.len(), |i: int| snap_view(v[i]))
}

/// A text document with one caret, an optional selection and a history.
#[derive(Debug, Clone)]
pub struct Doc {
    pub(crate) lines: Vec<String>,
    pub caret: Caret,
    /// The fixed end of the selection; the caret is the moving one.
    pub(crate) anchor: Option<Caret>,
    pub(crate) undo: Vec<Snapshot>,
    pub(crate) redo: Vec<Snapshot>,
    /// A run of typed characters goes on in one undo step.
    pub(crate) coalescing: bool,
    /// The column that vertical movement keeps.
    pub(crate) goal_col: Option<usize>,
}

impl View for Doc {
    type V = DocView;

    closed spec fn view(&self) -> DocView {
        DocView {
            lines: text::strings(self.lines@),
            caret: self.caret@,
            anchor: opt_place(self.anchor),
            undo: snaps_view(self.undo@),
            redo: snaps_view(self.redo@),
            coalescing: self.coalescing,
            goal: match self.goal_col {
                Some(g) => Some(g as int),
                None => None,
            },
        }
    }
}

impl Default for Doc {
    fn default() -> (r: Doc)
        ensures
            r@ == doc_model::opened(seq![Seq::<char>::empty()]),
            r.sound(),
    {
        let mut lines: Vec<String> = Vec::new();
        let none = "".to_owned();
        proof {
            reveal_strlit("");
            assert(none@ =~= Seq::<char>::empty());
        }
        lines.push(none);
        assert(text::strings(lines@) =~= seq![Seq::<char>::empty()]);
        let d = Doc {
            lines,
            caret: Caret { row: 0, col: 0 },
            anchor: None,
            undo: Vec::new(),
            redo: Vec::new(),
            coalescing: false,
            goal_col: None,
        };
        proof {
            text::lemma_offset_of_end(Seq::empty());
            assert(d@ =~= doc_model::opened(seq![Seq::<char>::empty()]));
        }
        d
    }
}

// ── positions and states ────────────────────────────────────────────────────

proof fn lemma_at_fits(lines: Seq<Seq<char>>, row: int, k: int)
    requires
        0 <= row < lines.len(),
        0 <= k <= lines[row].len(),
    ensures
        doc_model::fits(lines, doc_model::at(lines, row, k)),
        doc_model::index_in(lines, doc_model::at(lines, row, k)) == k,
{
    text::lemma_index_of_offset(lines[row], k);
}

proof fn lemma_fits(lines: Seq<Seq<char>>, p: Place)
    requires
        doc_model::fits(lines, p),
    ensures
        0 <= doc_model::index_in(lines, p) <= lines[p.row].len(),
        doc_model::at(lines, p.row, doc_model::index_in(lines, p)) == p,
        p.col <= text::byte_len(lines[p.row]),
        p.col > 0 <==> doc_model::index_in(lines, p) > 0,
        p.col < text::byte_len(lines[p.row]) <==> doc_model::index_in(lines, p) < lines[p.row].len(),
{
    let line = lines[p.row];
    let k = doc_model::index_in(lines, p);
    text::lemma_index_at(line, p.col);
    text::lemma_index_of_offset(line, k);
    text::lemma_offset_of_end(line);
    text::lemma_offset_grows(line, 0, k);
    text::lemma_offset_grows(line, k, line.len() as int);
}

proof fn lemma_ends_fit(lines: Seq<Seq<char>>, row: int)
    requires
        0 <= row < lines.len(),
    ensures
        doc_model::fits(lines, Place { row, col: 0 }),
        doc_model::fits(lines, doc_model::end_of(lines, row)),
        doc_model::end_of(lines, row) == doc_model::at(lines, row, lines[row].len() as int),
        doc_model::index_in(lines, Place { row, col: 0 }) == 0,
        doc_model::index_in(lines, doc_model::end_of(lines, row)) == lines[row].len(),
{
    text::lemma_offset_of_end(lines[row]);
}

/// A position holds in another text whose row begins in the same way.
proof fn lemma_same_start(a: Seq<char>, b: Seq<char>, k: int)
    requires
        0 <= k <= a.len(),
        k <= b.len(),
        a.take(k) == b.take(k),
    ensures
        text::offset_of(b, k) == text::offset_of(a, k),
        text::on_boundary(b, text::offset_of(a, k)),
        text::index_at(b, text::offset_of(a, k)) == k,
{
    text::lemma_index_of_offset(b, k);
}

proof fn lemma_recorded_ok(v: DocView, anchors: bool)
    requires
        doc_model::state_ok(v, anchors),
    ensures
        doc_model::state_ok(doc_model::recorded(v), anchors),
{
    let u = v.undo.push(doc_model::snap_of(v));
    assert forall|i: int| 0 <= i < u.len() implies doc_model::good_snap(#[trigger] u[i], anchors) by {
        if i < v.undo.len() {
            assert(u[i] == v.undo[i]);
        }
    }
    let w = doc_model::with_undo(v.undo, doc_model::snap_of(v));
    assert forall|i: int| 0 <= i < w.len() implies doc_model::good_snap(#[trigger] w[i], anchors) by {
        if u.len() > 500 {
            assert(w[i] == u[i + 1]);
        }
    }
}

proof fn lemma_cut_ok(v: DocView, s: Place, e: Place, anchors: bool)
    requires
        doc_model::state_ok(v, anchors),
        v.anchor is None,
        doc_model::fits(v.lines, s),
        doc_model::fits(v.lines, e),
        doc_model::not_after(s, e),
    ensures
        doc_model::state_ok(doc_model::cut_range(v, s, e), anchors),
{
    let i = doc_model::index_in(v.lines, s);
    let j = doc_model::index_in(v.lines, e);
    lemma_fits(v.lines, s);
    lemma_fits(v.lines, e);
    let line = v.lines[s.row].take(i) + v.lines[e.row].skip(j);
    let w = doc_model::without_range(v.lines, s, e);
    assert(w[s.row] == line);
    assert(line.take(i) =~= v.lines[s.row].take(i));
    lemma_same_start(v.lines[s.row], line, i);
}

proof fn lemma_unselected_ok(v: DocView, anchors: bool)
    requires
        doc_model::state_ok(v, anchors),
        doc_model::anchor_fits(v.lines, v.anchor),
    ensures
        doc_model::state_ok(doc_model::unselected(v), anchors),
        doc_model::unselected(v).anchor is None,
{
    let n = DocView { anchor: None, ..v };
    assert(doc_model::state_ok(n, anchors));
    match doc_model::selected(v) {
        Some((s, e)) => {
            lemma_cut_ok(n, s, e, anchors);
        },
        None => {},
    }
}

proof fn lemma_split_nonempty(s: Seq<char>, c: char)
    ensures
        text::split(s, c).len() > 0,
{
}

proof fn lemma_put_ok(v: DocView, s: Seq<char>, anchors: bool)
    requires
        doc_model::state_ok(v, anchors),
        v.anchor is None,
    ensures
        doc_model::state_ok(doc_model::put_in(v, s), anchors),
{
    let pieces = text::split(s, '\n');
    let n = pieces.len();
    lemma_split_nonempty(s, '\n');
    lemma_fits(v.lines, v.caret);
    let row = v.caret.row;
    let k = doc_model::index_in(v.lines, v.caret);
    let head = v.lines[row].take(k);
    let tail = v.lines[row].skip(k);
    let f = doc_model::framed(head, pieces, tail);
    let w = doc_model::with_text(v.lines, v.caret, s);
    assert(w[row + n - 1] == f[n - 1]);
    let m = (if n == 1 {
        k
    } else {
        0
    }) + pieces[n - 1].len();
    lemma_at_fits(w, row + n - 1, m);
}

// ── the pieces that edits are made of ───────────────────────────────────────

impl Doc {
    /// There is a line, and the caret lies in the text; so of every state that the
    /// history keeps.
    pub open spec fn placed(&self) -> bool {
        doc_model::state_ok(self@, false)
    }

    /// The selection's fixed end lies in the text.
    pub open spec fn anchored(&self) -> bool {
        doc_model::anchor_fits(self@.lines, self@.anchor)
    }

    /// The selection's fixed end is on a row of the text.
    pub open spec fn rooted(&self) -> bool {
        doc_model::anchor_on_row(self@.lines, self@.anchor)
    }

    /// Placed and anchored, with every state that the history keeps.
    pub open spec fn sound(&self) -> bool {
        doc_model::state_ok(self@, true)
    }

    fn chars_at(&self, row: usize) -> (r: Vec<char>)
        requires
            row < self@.lines.len(),
        ensures
            r@ == self@.lines[row as int],
            text::byte_len(r@) <= usize::MAX,
    {
        let _bytes: usize = bytes_in(self.lines[row].as_str());
        chars_of(self.lines[row].as_str())
    }

    fn caret_at(&self, row: usize, k: usize) -> (r: Caret)
        requires
            row < self@.lines.len(),
            k <= self@.lines[row as int].len(),
        ensures
            r@ == doc_model::at(self@.lines, row as int, k as int),
    {
        let c = self.chars_at(row);
        Caret { row, col: byte_offset(&c, k) }
    }

    fn end_of_row(&self, row: usize) -> (r: Caret)
        requires
            row < self@.lines.len(),
        ensures
            r@ == doc_model::end_of(self@.lines, row as int),
    {
        Caret { row, col: bytes_in(self.lines[row].as_str()) }
    }

    fn snap(&self, row: usize, col: usize) -> (r: Caret)
        requires
            row < self@.lines.len(),
        ensures
            r@ == doc_model::snapped(self@.lines, row as int, col as int),
            doc_model::fits(self@.lines, r@),
    {
        let c = self.chars_at(row);
        let k: usize = char_index(&c, col);
        proof {
            lemma_at_fits(self@.lines, row as int, k as int);
        }
        self.caret_at(row, k)
    }

    fn row_in(&self, row: usize) -> (r: usize)
        requires
            self@.lines.len() > 0,
        ensures
            r == doc_model::clamped_row(self@.lines, row as int),
            r < self@.lines.len(),
    {
        assert(self@.lines.len() == self.lines@.len());
        if row < self.lines.len() {
            row
        } else {
            self.lines.len() - 1
        }
    }

    fn set_line(&mut self, row: usize, c: &[char])
        requires
            row < old(self)@.lines.len(),
        ensures
            final(self)@ == (DocView {
                lines: old(self)@.lines.update(row as int, c@),
                ..old(self)@
            }),
    {
        let s = string_of(c);
        self.lines.set(row, s);
        assert(text::strings(self.lines@) =~= old(self)@.lines.update(row as int, c@));
    }

    fn snapshot(&self) -> (r: Snapshot)
        ensures
            snap_view(r) == doc_model::snap_of(self@),
    {
        Snapshot { lines: copy_strings(&self.lines), caret: self.caret, anchor: self.anchor }
    }

    fn push_undo(&mut self)
        ensures
            final(self)@ == doc_model::recorded(old(self)@),
    {
        let s = self.snapshot();
        let ghost u = self@.undo.push(doc_model::snap_of(self@));
        self.undo.push(s);
        assert(snaps_view(self.undo@) =~= u);
        if self.undo.len() > 500 {
            let _oldest = self.undo.remove(0);
            assert(snaps_view(self.undo@) =~= u.drop_first());
        }
        self.redo.clear();
        assert(snaps_view(self.redo@) =~= Seq::empty());
    }

    fn edit_start(&mut self)
        ensures
            final(self)@ == doc_model::edit_start(old(self)@),
            old(self).placed() ==> final(self).placed(),
            old(self).sound() ==> final(self).sound(),
    {
        self.push_undo();
        self.coalescing = false;
        proof {
            if old(self).placed() {
                lemma_recorded_ok(old(self)@, false);
            }
            if old(self).sound() {
                lemma_recorded_ok(old(self)@, true);
            }
        }
    }

    fn edit_begin(&mut self)
        ensures
            final(self)@ == doc_model::edit_begin(old(self)@),
            old(self).placed() ==> final(self).placed(),
            old(self).sound() ==> final(self).sound(),
    {
        self.edit_start();
        self.goal_col = None;
    }

    fn cut_between(&mut self, s: Caret, e: Caret)
        requires
            doc_model::fits(old(self)@.lines, s@),
            doc_model::fits(old(self)@.lines, e@),
            doc_model::not_after(s@, e@),
        ensures
            final(self)@ == doc_model::cut_range(old(self)@, s@, e@),
    {
        let ghost base = self@.lines;
        proof {
            lemma_fits(base, s@);
            lemma_fits(base, e@);
        }
        let first = self.chars_at(s.row);
        let i: usize = char_index(&first, s.col);
        let last = self.chars_at(e.row);
        let j: usize = char_index(&last, e.col);
        let mut line = copy_of(slice_subrange(&first, 0, i));
        let end: usize = last.len();
        push_all(&mut line, slice_subrange(&last, j, end));
        assert(line@ =~= base[s@.row].take(i as int) + base[e@.row].skip(j as int));
        self.set_line(s.row, &line);
        let ghost set = base.update(s.row as int, line@);
        let mut n: usize = e.row - s.row;
        assert(self@.lines =~= set.take(s.row + 1) + set.skip(e.row + 1 - n));
        while n > 0
            invariant
                n <= e.row - s.row,
                e.row < set.len(),
                text::strings(self.lines@) =~= set.take(s.row + 1) + set.skip(e.row + 1 - n),
                self@ == (DocView { lines: text::strings(self.lines@), ..old(self)@ }),
            decreases n,
        {
            let ghost now = text::strings(self.lines@);
            assert(now.len() == self.lines@.len());
            let _gone = self.lines.remove(s.row + 1);
            assert(text::strings(self.lines@) =~= now.remove(s.row + 1));
            n -= 1;
        }
        self.caret = s;
        assert(self@.lines =~= doc_model::without_range(base, s@, e@));
    }

    /// Puts text in at the caret, without a thought for undo or selection.
    fn insert_raw(&mut self, s: &[char])
        requires
            doc_model::fits(old(self)@.lines, old(self)@.caret),
        ensures
            final(self)@ == doc_model::put_in(old(self)@, s@),
    {
        let ghost base = self@.lines;
        let ghost p = self@.caret;
        let ghost pieces = text::split(s@, '\n');
        proof {
            lemma_fits(base, p);
            lemma_split_nonempty(s@, '\n');
        }
        let row: usize = self.caret.row;
        let line = self.chars_at(row);
        let k: usize = char_index(&line, self.caret.col);
        let end: usize = line.len();
        let v = split_at_char(s, '\n');
        assert(text::slices(v@).len() == v@.len());
        let n: usize = v.len();
        let ghost head = line@.take(k as int);
        let ghost tail = line@.skip(k as int);
        let ghost f = doc_model::framed(head, pieces, tail);
        let mut i: usize = 0;
        while i < n
            invariant
                n == v@.len(),
                n == pieces.len(),
                pieces == text::slices(v@),
                f == doc_model::framed(head, pieces, tail),
                line@ == base[row as int],
                end == line@.len(),
                k <= end,
                head == line@.take(k as int),
                tail == line@.skip(k as int),
                row < base.len(),
                i <= n,
                i == 0 ==> text::strings(self.lines@) == base,
                i > 0 ==> text::strings(self.lines@) =~= base.take(row as int) + f.take(i as int)
                    + base.skip(row + 1),
                self@ == (DocView { lines: text::strings(self.lines@), ..old(self)@ }),
            decreases n - i,
        {
            let mut c: Vec<char> = Vec::new();
            if i == 0 {
                push_all(&mut c, slice_subrange(&line, 0, k));
            }
            assert(pieces[i as int] == v@[i as int]@);
            push_all(&mut c, v[i]);
            if i == n - 1 {
                push_all(&mut c, slice_subrange(&line, k, end));
            }
            assert(c@ =~= f[i as int]);
            let ghost now = text::strings(self.lines@);
            assert(now.len() == self.lines@.len());
            if i == 0 {
                self.set_line(row, &c);
                assert(text::strings(self.lines@) =~= base.take(row as int) + f.take(1) + base.skip(
                    row + 1,
                ));
            } else {
                let total: usize = self.lines.len();
                assert(row + i <= total);
                self.lines.insert(row + i, string_of(&c));
                assert(text::strings(self.lines@) =~= now.insert(row + i, c@));
                assert(f.take(i + 1) =~= f.take(i as int).push(f[i as int]));
            }
            i += 1;
        }
        assert(f.take(n as int) =~= f);
        let ghost w = doc_model::with_text(base, p, s@);
        assert(self@.lines =~= w);
        let total: usize = self.lines.len();
        assert(text::strings(self.lines@).len() == total);
        let r: usize = row + (n - 1);
        assert(w[r as int] == f[n - 1]);
        let new = self.chars_at(r);
        let piece: usize = v[n - 1].len();
        assert(pieces[n - 1] == v@[n - 1]@);
        let m: usize = if n == 1 {
            assert(k + piece <= new@.len());
            let room: usize = new.len();
            k + piece
        } else {
            piece
        };
        self.caret = self.caret_at(r, m);
    }

    /// Deletes the selection and says whether there was one. The caret ends at its
    /// start.
    fn delete_selection(&mut self) -> (r: bool)
        requires
            old(self).placed(),
            old(self).anchored(),
        ensures
            final(self)@ == doc_model::unselected(old(self)@),
            r == doc_model::selected(old(self)@) is Some,
            final(self).placed(),
            final(self)@.anchor is None,
            old(self).sound() ==> final(self).sound(),
    {
        proof {
            lemma_unselected_ok(self@, false);
            if self.sound() {
                lemma_unselected_ok(self@, true);
            }
        }
        match self.selection() {
            None => {
                self.anchor = None;
                false
            },
            Some((s, e)) => {
                self.cut_between(s, e);
                self.anchor = None;
                true
            },
        }
    }
}

// ── the document ────────────────────────────────────────────────────────────

impl Doc {
    /// An empty document.
    pub fn new() -> (r: Doc)
        ensures
            r@ == doc_model::opened(seq![Seq::<char>::empty()]),
            r.sound(),
    {
        Doc::default()
    }

    /// A document of the given text, the caret at its start.
    pub fn from_str(text: &str) -> (r: Doc)
        ensures
            r@ == doc_model::opened(text::split(text@, '\n')),
            r.sound(),
    {
        let c = chars_of(text);
        let v = split_at_char(&c, '\n');
        let ghost all = text::split(text@, '\n');
        let mut lines: Vec<String> = Vec::new();
        let mut i: usize = 0;
        assert(text::slices(v@).len() == v@.len());
        while i < v.len()
            invariant
                all == text::slices(v@),
                i <= v@.len(),
                text::strings(lines@) =~= all.take(i as int),
            decreases v@.len() - i,
        {
            let ghost before = text::strings(lines@);
            assert(all[i as int] == v@[i as int]@);
            let s = string_of(v[i]);
            lines.push(s);
            assert(text::strings(lines@) =~= before.push(s@));
            i += 1;
        }
        assert(text::strings(lines@) =~= all);
        let mut d = Doc::default();
        d.lines = lines;
        proof {
            lemma_split_nonempty(text@, '\n');
            lemma_ends_fit(d@.lines, 0);
        }
        d
    }

    /// The caret that can be seen is the caret.
    pub(crate) proof fn lemma_caret_is_shown(&self)
        ensures
            self@.caret == self.caret@,
    {
    }

    /// Where the caret is: the field of that name, as the document's view has it.
    pub fn caret(&self) -> (r: Caret)
        ensures
            r@ == self@.caret,
    {
        self.caret
    }

    /// The whole text.
    pub fn text(&self) -> (r: String)
        ensures
            r@ == doc_model::full_text(self@.lines),
    {
        join_strings(&self.lines, "\n")
    }

    pub fn line_count(&self) -> (r: usize)
        ensures
            r == self@.lines.len(),
    {
        self.lines.len()
    }

    /// A row's text, empty beyond the last row.
    pub fn line(&self, row: usize) -> (r: &str)
        ensures
            r@ == if row < self@.lines.len() {
                self@.lines[row as int]
            } else {
                ""@
            },
    {
        if row < self.lines.len() {
            self.lines[row].as_str()
        } else {
            ""
        }
    }

    /// The tokens of a row.
    pub fn tokens(&self, row: usize) -> (r: Vec<Token>)
        ensures
            syntax::tokens_view(r@) == syntax::line_tokens(
                if row < self@.lines.len() {
                    self@.lines[row as int]
                } else {
                    ""@
                },
            ),
    {
        lex_line(self.line(row))
    }

    /// The tokens of every row.
    pub fn all_tokens(&self) -> (r: Vec<Vec<Token>>)
        ensures
            r@.len() == self@.lines.len(),
            forall|i: int|
                0 <= i < r@.len() ==> syntax::tokens_view((#[trigger] r@[i])@) == syntax::line_tokens(
                    self@.lines[i],
                ),
    {
        let mut r: Vec<Vec<Token>> = Vec::new();
        let mut i: usize = 0;
        while i < self.lines.len()
            invariant
                i <= self.lines@.len(),
                r@.len() == i,
                forall|k: int|
                    0 <= k < i ==> syntax::tokens_view((#[trigger] r@[k])@) == syntax::line_tokens(self@.lines[k]),
            decreases self.lines@.len() - i,
        {
            let t = lex_line(self.lines[i].as_str());
            r.push(t);
            i += 1;
        }
        r
    }

    /// Sets the caret, kept within the text and between two characters. A run of
    /// typing ends.
    pub fn set_caret(&mut self, row: usize, col: usize)
        requires
            old(self).placed(),
        ensures
            final(self)@ == doc_model::moved(
                old(self)@,
                doc_model::snapped(
                    old(self)@.lines,
                    doc_model::clamped_row(old(self)@.lines, row as int),
                    col as int,
                ),
            ),
            final(self).placed(),
            old(self).sound() ==> final(self).sound(),
    {
        let r: usize = self.row_in(row);
        self.caret = self.snap(r, col);
        self.coalescing = false;
        self.goal_col = None;
    }

    /// Inserts text at the caret, in place of any selection, as one undo step. The
    /// caret ends behind it.
    pub fn insert(&mut self, s: &str)
        requires
            old(self).placed(),
            old(self).anchored(),
        ensures
            final(self)@ == doc_model::inserted(old(self)@, s@),
            final(self).placed(),
            old(self).sound() ==> final(self).sound(),
    {
        self.edit_begin();
        let _gone = self.delete_selection();
        let c = chars_of(s);
        proof {
            lemma_put_ok(self@, s@, false);
            if self.sound() {
                lemma_put_ok(self@, s@, true);
            }
        }
        self.insert_raw(&c);
    }

    /// Types a character, in place of any selection. A run of typing is one undo
    /// step.
    pub fn type_char(&mut self, c: char)
        requires
            old(self).placed(),
            old(self).anchored(),
        ensures
            final(self)@ == doc_model::typed(old(self)@, c),
            final(self).placed(),
            old(self).sound() ==> final(self).sound(),
    {
        self.goal_col = None;
        if !self.coalescing {
            proof {
                lemma_recorded_ok(self@, false);
                if self.sound() {
                    lemma_recorded_ok(self@, true);
                }
            }
            self.push_undo();
            self.coalescing = true;
        }
        let _gone = self.delete_selection();
        let v = vec![c];
        assert(v@ =~= seq![c]);
        proof {
            lemma_put_ok(self@, v@, false);
            if self.sound() {
                lemma_put_ok(self@, v@, true);
            }
        }
        self.insert_raw(&v);
    }

    /// Deletes the character before the caret, or joins the row to the one before;
    /// a selection is deleted instead. One undo step.
    pub fn backspace(&mut self)
        requires
            old(self).placed(),
            old(self).anchored(),
        ensures
            final(self)@ == doc_model::erased_left(
                old(self)@,
                doc_model::left_of(old(self)@.lines, old(self)@.caret),
            ),
            final(self).placed(),
            old(self).sound() ==> final(self).sound(),
    {
        let p = self.left();
        self.erase_left(p);
    }

    /// Deletes the character behind the caret, or joins the next row to this one; a
    /// selection is deleted instead. One undo step.
    pub fn delete_forward(&mut self)
        requires
            old(self).placed(),
            old(self).anchored(),
        ensures
            final(self)@ == doc_model::erased_right(
                old(self)@,
                doc_model::right_of(old(self)@.lines, old(self)@.caret),
            ),
            final(self).placed(),
            old(self).sound() ==> final(self).sound(),
    {
        let p = self.right();
        self.erase_right(p);
    }

    /// Puts `replacement` in place of what stands on the caret's row from the byte
    /// `replace_start` to the caret. One undo step.
    pub fn apply_completion(&mut self, replace_start: usize, replacement: &str)
        requires
            old(self).placed(),
            replace_start >= old(self)@.caret.col || text::on_boundary(
                old(self)@.lines[old(self)@.caret.row],
                replace_start as int,
            ),
        ensures
            final(self)@ == doc_model::completed(old(self)@, replace_start as int, replacement@),
            final(self).placed(),
            old(self).sound() && doc_model::anchor_before(old(self)@, replace_start as int) 
                ==> final(self).sound(),
    {
        let ghost v = self@;
        let row: usize = self.caret.row;
        let start: usize = if replace_start < self.caret.col {
            replace_start
        } else {
            self.caret.col
        };
        let line = self.chars_at(row);
        let i: usize = char_index(&line, start);
        let k: usize = char_index(&line, self.caret.col);
        let end: usize = line.len();
        let c = chars_of(replacement);
        let mut new = copy_of(slice_subrange(&line, 0, i));
        push_all(&mut new, &c);
        push_all(&mut new, slice_subrange(&line, k, end));
        let ghost want = line@.take(i as int) + replacement@ + line@.skip(k as int);
        assert(new@ =~= want);
        self.edit_begin();
        self.set_line(row, &new);
        let total: usize = new.len();
        assert(i + c@.len() <= total);
        let m: usize = i + c.len();
        self.caret = self.caret_at(row, m);
        proof {
            let lines = v.lines.update(row as int, want);
            lemma_fits(v.lines, v.caret);
            lemma_at_fits(lines, row as int, m as int);
            assert(want.take(m as int) =~= line@.take(i as int) + replacement@);
            text::lemma_byte_len_concat(line@.take(i as int), replacement@);
            assert(self@.caret.col == start + text::byte_len(replacement@));
            assert(self@ == doc_model::completed(v, replace_start as int, replacement@));
            if v.anchor is Some && doc_model::fits(v.lines, v.anchor->0) {
                let a = v.anchor->0;
                if a.row == row && a.col <= start {
                    lemma_fits(v.lines, a);
                    let q = doc_model::index_in(v.lines, a);
                    text::lemma_index_at(line@, start as int);
                    if q > i {
                        text::lemma_offset_grows(line@, i as int, q);
                    }
                    assert(want.take(q) =~= line@.take(q));
                    lemma_same_start(line@, want, q);
                } else if a.row != row {
                    assert(lines[a.row] == v.lines[a.row]);
                }
            }
        }
    }
}

// ── movement ────────────────────────────────────────────────────────────────

impl Doc {
    fn left(&self) -> (r: Caret)
        requires
            self.placed(),
        ensures
            r@ == doc_model::left_of(self@.lines, self@.caret),
            doc_model::fits(self@.lines, r@),
            doc_model::not_after(r@, self@.caret),
    {
        proof {
            lemma_fits(self@.lines, self@.caret);
        }
        let Caret { row, col } = self.caret;
        if col > 0 {
            let c = self.chars_at(row);
            let k: usize = char_index(&c, col);
            proof {
                lemma_at_fits(self@.lines, row as int, k - 1);
                text::lemma_offset_grows(c@, k - 1, k as int);
            }
            self.caret_at(row, k - 1)
        } else if row > 0 {
            proof {
                lemma_ends_fit(self@.lines, row - 1);
            }
            self.end_of_row(row - 1)
        } else {
            self.caret
        }
    }

    fn right(&self) -> (r: Caret)
        requires
            self.placed(),
        ensures
            r@ == doc_model::right_of(self@.lines, self@.caret),
            doc_model::fits(self@.lines, r@),
            doc_model::not_after(self@.caret, r@),
    {
        proof {
            lemma_fits(self@.lines, self@.caret);
        }
        let Caret { row, col } = self.caret;
        let count: usize = self.lines.len();
        assert(self@.lines.len() == count);
        if col < bytes_in(self.lines[row].as_str()) {
            let c = self.chars_at(row);
            let k: usize = char_index(&c, col);
            proof {
                lemma_at_fits(self@.lines, row as int, k + 1);
                text::lemma_offset_grows(c@, k as int, k + 1);
            }
            let len: usize = c.len();
            assert(k < len);
            self.caret_at(row, k + 1)
        } else if row + 1 < count {
            proof {
                lemma_ends_fit(self@.lines, row + 1);
            }
            Caret { row: row + 1, col: 0 }
        } else {
            self.caret
        }
    }

    fn word_left_caret(&self) -> (r: Caret)
        requires
            self.placed(),
        ensures
            r@ == doc_model::word_left_of(self@.lines, self@.caret),
            doc_model::fits(self@.lines, r@),
            doc_model::not_after(r@, self@.caret),
    {
        proof {
            lemma_fits(self@.lines, self@.caret);
        }
        let Caret { row, col } = self.caret;
        if col > 0 {
            let c = self.chars_at(row);
            let k: usize = char_index(&c, col);
            let w: usize = word_left(&c, k);
            proof {
                lemma_at_fits(self@.lines, row as int, w as int);
                text::lemma_offset_grows(c@, w as int, k as int);
            }
            self.caret_at(row, w)
        } else if row > 0 {
            proof {
                lemma_ends_fit(self@.lines, row - 1);
            }
            self.end_of_row(row - 1)
        } else {
            self.caret
        }
    }

    fn word_right_caret(&self) -> (r: Caret)
        requires
            self.placed(),
        ensures
            r@ == doc_model::word_right_of(self@.lines, self@.caret),
            doc_model::fits(self@.lines, r@),
            doc_model::not_after(self@.caret, r@),
    {
        proof {
            lemma_fits(self@.lines, self@.caret);
        }
        let Caret { row, col } = self.caret;
        let count: usize = self.lines.len();
        assert(self@.lines.len() == count);
        if col < bytes_in(self.lines[row].as_str()) {
            let c = self.chars_at(row);
            let k: usize = char_index(&c, col);
            let w: usize = word_right(&c, k);
            proof {
                lemma_at_fits(self@.lines, row as int, w as int);
                text::lemma_offset_grows(c@, k as int, w as int);
            }
            self.caret_at(row, w)
        } else if row + 1 < count {
            proof {
                lemma_ends_fit(self@.lines, row + 1);
            }
            Caret { row: row + 1, col: 0 }
        } else {
            self.caret
        }
    }

    fn erase_left(&mut self, p: Caret)
        requires
            old(self).placed(),
            old(self).anchored(),
            doc_model::fits(old(self)@.lines, p@),
            doc_model::not_after(p@, old(self)@.caret),
        ensures
            final(self)@ == doc_model::erased_left(old(self)@, p@),
            final(self).placed(),
            old(self).sound() ==> final(self).sound(),
    {
        self.edit_begin();
        if !self.delete_selection() {
            proof {
                lemma_cut_ok(self@, p@, self@.caret, false);
                if self.sound() {
                    lemma_cut_ok(self@, p@, self@.caret, true);
                }
            }
            self.cut_between(p, self.caret);
        }
    }

    fn erase_right(&mut self, p: Caret)
        requires
            old(self).placed(),
            old(self).anchored(),
            doc_model::fits(old(self)@.lines, p@),
            doc_model::not_after(old(self)@.caret, p@),
        ensures
            final(self)@ == doc_model::erased_right(old(self)@, p@),
            final(self).placed(),
            old(self).sound() ==> final(self).sound(),
    {
        self.edit_begin();
        if !self.delete_selection() {
            proof {
                lemma_cut_ok(self@, self@.caret, p@, false);
                if self.sound() {
                    lemma_cut_ok(self@, self@.caret, p@, true);
                }
            }
            self.cut_between(self.caret, p);
        }
    }

    fn move_to(&mut self, p: Caret)
        requires
            old(self).placed(),
            doc_model::fits(old(self)@.lines, p@),
        ensures
            final(self)@ == doc_model::moved(old(self)@, p@),
            final(self).placed(),
            old(self).sound() ==> final(self).sound(),
    {
        self.caret = p;
        self.coalescing = false;
        self.goal_col = None;
    }

    /// One character left, over the end of the row before.
    pub fn move_left(&mut self)
        requires
            old(self).placed(),
        ensures
            final(self)@ == doc_model::moved(old(self)@, doc_model::left_of(old(self)@.lines, old(self)@.caret)),
            final(self).placed(),
            old(self).sound() ==> final(self).sound(),
    {
        let p = self.left();
        self.move_to(p);
    }

    /// One character right, over the start of the next row.
    pub fn move_right(&mut self)
        requires
            old(self).placed(),
        ensures
            final(self)@ == doc_model::moved(old(self)@, doc_model::right_of(old(self)@.lines, old(self)@.caret)),
            final(self).placed(),
            old(self).sound() ==> final(self).sound(),
    {
        let p = self.right();
        self.move_to(p);
    }

    fn move_to_row(&mut self, row: usize)
        requires
            old(self).placed(),
            row < old(self)@.lines.len(),
        ensures
            final(self)@ == doc_model::moved_to_row(old(self)@, row as int),
            final(self).placed(),
            old(self).sound() ==> final(self).sound(),
    {
        let goal: usize = match self.goal_col {
            Some(g) => g,
            None => self.caret.col,
        };
        self.goal_col = Some(goal);
        self.coalescing = false;
        self.caret = self.snap(row, goal);
    }

    /// To the row above, in the column that the vertical movement began with.
    pub fn move_up(&mut self)
        requires
            old(self).placed(),
        ensures
            final(self)@ == if old(self)@.caret.row > 0 {
                doc_model::moved_to_row(old(self)@, old(self)@.caret.row - 1)
            } else {
                DocView { coalescing: false, ..old(self)@ }
            },
            final(self).placed(),
            old(self).sound() ==> final(self).sound(),
    {
        if self.caret.row > 0 {
            self.move_to_row(self.caret.row - 1);
        } else {
            self.coalescing = false;
        }
    }

    /// To the row below, in the column that the vertical movement began with.
    pub fn move_down(&mut self)
        requires
            old(self).placed(),
        ensures
            final(self)@ == if old(self)@.caret.row + 1 < old(self)@.lines.len() {
                doc_model::moved_to_row(old(self)@, old(self)@.caret.row + 1)
            } else {
                DocView { coalescing: false, ..old(self)@ }
            },
            final(self).placed(),
            old(self).sound() ==> final(self).sound(),
    {
        let count: usize = self.lines.len();
        assert(self@.lines.len() == count);
        if self.caret.row + 1 < count {
            self.move_to_row(self.caret.row + 1);
        } else {
            self.coalescing = false;
        }
    }

    /// To the start of the row.
    pub fn home(&mut self)
        requires
            old(self).placed(),
        ensures
            final(self)@ == doc_model::moved(old(self)@, Place { row: old(self)@.caret.row, col: 0 }),
            final(self).placed(),
            old(self).sound() ==> final(self).sound(),
    {
        proof {
            lemma_ends_fit(self@.lines, self@.caret.row);
        }
        self.move_to(Caret { row: self.caret.row, col: 0 });
    }

    /// To the first character that is no white space, or to the start of the row
    /// where the caret is there already.
    pub fn smart_home(&mut self)
        requires
            old(self).placed(),
        ensures
            final(self)@ == ({
                let v = old(self)@;
                let first = doc_model::at(v.lines, v.caret.row, doc_model::indent_at(v.lines[v.caret.row]));
                doc_model::moved(
                    v,
                    if v.caret == first {
                        Place { row: v.caret.row, col: 0 }
                    } else {
                        first
                    },
                )
            }),
            final(self).placed(),
            old(self).sound() ==> final(self).sound(),
    {
        let row: usize = self.caret.row;
        let c = self.chars_at(row);
        let n: usize = indent_of(&c);
        proof {
            lemma_ends_fit(self@.lines, row as int);
            text::lemma_first_from(c@, text::not_ws(), 0);
            lemma_at_fits(self@.lines, row as int, n as int);
        }
        let first = self.caret_at(row, n);
        if self.caret.col == first.col {
            self.move_to(Caret { row, col: 0 });
        } else {
            self.move_to(first);
        }
    }

    /// To the end of the row.
    pub fn end(&mut self)
        requires
            old(self).placed(),
        ensures
            final(self)@ == doc_model::moved(old(self)@, doc_model::end_of(old(self)@.lines, old(self)@.caret.row)),
            final(self).placed(),
            old(self).sound() ==> final(self).sound(),
    {
        proof {
            lemma_ends_fit(self@.lines, self@.caret.row);
        }
        let p = self.end_of_row(self.caret.row);
        self.move_to(p);
    }

    /// To the word boundary on the left.
    pub fn move_word_left(&mut self)
        requires
            old(self).placed(),
        ensures
            final(self)@ == doc_model::moved(old(self)@, doc_model::word_left_of(old(self)@.lines, old(self)@.caret)),
            final(self).placed(),
            old(self).sound() ==> final(self).sound(),
    {
        let p = self.word_left_caret();
        self.move_to(p);
    }

    /// To the word boundary on the right.
    pub fn move_word_right(&mut self)
        requires
            old(self).placed(),
        ensures
            final(self)@ == doc_model::moved(old(self)@, doc_model::word_right_of(old(self)@.lines, old(self)@.caret)),
            final(self).placed(),
            old(self).sound() ==> final(self).sound(),
    {
        let p = self.word_right_caret();
        self.move_to(p);
    }

    /// Deletes up to the word boundary on the left; a selection is deleted instead.
    /// One undo step.
    pub fn delete_word_left(&mut self)
        requires
            old(self).placed(),
            old(self).anchored(),
        ensures
            final(self)@ == doc_model::erased_left(
                old(self)@,
                doc_model::word_left_of(old(self)@.lines, old(self)@.caret),
            ),
            final(self).placed(),
            old(self).sound() ==> final(self).sound(),
    {
        let p = self.word_left_caret();
        self.erase_left(p);
    }

    /// Deletes up to the word boundary on the right; a selection is deleted instead.
    /// One undo step.
    pub fn delete_word_right(&mut self)
        requires
            old(self).placed(),
            old(self).anchored(),
        ensures
            final(self)@ == doc_model::erased_right(
                old(self)@,
                doc_model::word_right_of(old(self)@.lines, old(self)@.caret),
            ),
            final(self).placed(),
            old(self).sound() ==> final(self).sound(),
    {
        let p = self.word_right_caret();
        self.erase_right(p);
    }
}

// ── selection, clipboard and undo ───────────────────────────────────────────

impl Doc {
    /// The selection, in order; `None` where it is empty.
    pub fn selection(&self) -> (r: Option<(Caret, Caret)>)
        ensures
            opt_range(r) == doc_model::selected(self@),
    {
        match self.anchor {
            None => None,
            Some(a) => {
                let c = self.caret;
                if a.row == c.row && a.col == c.col {
                    None
                } else if a.row < c.row || (a.row == c.row && a.col <= c.col) {
                    Some((a, c))
                } else {
                    Some((c, a))
                }
            },
        }
    }

    pub fn has_selection(&self) -> (r: bool)
        ensures
            r == doc_model::selected(self@) is Some,
    {
        self.selection().is_some()
    }

    /// The selected text, where there is any.
    pub fn selected_text(&self) -> (r: Option<String>)
        requires
            self.placed(),
            self.anchored(),
        ensures
            text::opt_text(r) == match doc_model::selected(self@) {
                Some((s, e)) => Some(doc_model::text_between_places(self@.lines, s, e)),
                None => None,
            },
    {
        match self.selection() {
            Some((s, e)) => Some(self.text_range(s, e)),
            None => None,
        }
    }

    /// Begins a selection at the caret, or keeps the one there is.
    pub fn start_selection(&mut self)
        requires
            old(self).placed(),
        ensures
            final(self)@ == (DocView {
                anchor: match old(self)@.anchor {
                    None => Some(old(self)@.caret),
                    Some(a) => Some(a),
                },
                ..old(self)@
            }),
            final(self).placed(),
            old(self).sound() ==> final(self).sound(),
    {
        if self.anchor.is_none() {
            self.anchor = Some(self.caret);
        }
    }

    /// Drops the selection.
    pub fn clear_selection(&mut self)
        requires
            old(self).placed(),
        ensures
            final(self)@ == (DocView { anchor: None, ..old(self)@ }),
            final(self).placed(),
            old(self).sound() ==> final(self).sound(),
    {
        self.anchor = None;
    }

    /// Selects the whole document.
    pub fn select_all(&mut self)
        requires
            old(self).placed(),
        ensures
            final(self)@ == (DocView {
                anchor: Some(Place { row: 0, col: 0 }),
                caret: doc_model::end_of(old(self)@.lines, old(self)@.lines.len() - 1),
                ..old(self)@
            }),
            final(self).placed(),
            old(self).sound() ==> final(self).sound(),
    {
        assert(self@.lines.len() == self.lines@.len());
        proof {
            lemma_ends_fit(self@.lines, 0);
            lemma_ends_fit(self@.lines, self@.lines.len() - 1);
        }
        let row: usize = self.lines.len() - 1;
        self.anchor = Some(Caret { row: 0, col: 0 });
        self.caret = self.end_of_row(row);
    }

    fn text_range(&self, s: Caret, e: Caret) -> (r: String)
        requires
            doc_model::fits(self@.lines, s@),
            doc_model::fits(self@.lines, e@),
            doc_model::not_after(s@, e@),
        ensures
            r@ == doc_model::text_between_places(self@.lines, s@, e@),
    {
        let ghost all = self@.lines;
        proof {
            lemma_fits(all, s@);
            lemma_fits(all, e@);
        }
        let first = self.chars_at(s.row);
        let i: usize = char_index(&first, s.col);
        let last = self.chars_at(e.row);
        let j: usize = char_index(&last, e.col);
        let ghost want = doc_model::lines_between(all, s@, e@);
        let mut v: Vec<String> = Vec::new();
        assert(text::strings(v@) =~= Seq::empty());
        if s.row == e.row {
            proof {
                if i > j {
                    text::lemma_offset_grows(first@, j as int, i as int);
                }
            }
            let t = string_of(slice_subrange(&first, i, j));
            v.push(t);
            assert(text::strings(v@) =~= want);
        } else {
            let end: usize = first.len();
            let t = string_of(slice_subrange(&first, i, end));
            v.push(t);
            assert(text::strings(v@) =~= seq![all[s@.row].skip(i as int)]);
            let mut r: usize = s.row + 1;
            assert(all.subrange(s.row + 1, s.row + 1) =~= Seq::empty());
            while r < e.row
                invariant
                    all == self@.lines,
                    s.row < r <= e.row,
                    e.row < all.len(),
                    text::strings(v@) =~= seq![all[s.row as int].skip(i as int)] + all.subrange(
                        s.row + 1,
                        r as int,
                    ),
                decreases e.row - r,
            {
                assert(self.lines@.len() == all.len());
                let line = self.lines[r].clone();
                let ghost before = text::strings(v@);
                v.push(line);
                assert(text::strings(v@) =~= before.push(line@));
                assert(all.subrange(s.row + 1, r + 1) =~= all.subrange(s.row + 1, r as int).push(
                    all[r as int],
                ));
                r += 1;
            }
            let ghost before = text::strings(v@);
            let t = string_of(slice_subrange(&last, 0, j));
            v.push(t);
            assert(text::strings(v@) =~= before.push(t@));
            assert(text::strings(v@) =~= want);
        }
        join_strings(&v, "\n")
    }

    /// The text to copy: the selected one.
    pub fn copy(&self) -> (r: Option<String>)
        requires
            self.placed(),
            self.anchored(),
        ensures
            text::opt_text(r) == match doc_model::selected(self@) {
                Some((s, e)) => Some(doc_model::text_between_places(self@.lines, s, e)),
                None => None,
            },
    {
        self.selected_text()
    }

    /// Takes the selected text out as one undo step. Nothing changes without a
    /// selection.
    pub fn cut(&mut self) -> (r: Option<String>)
        requires
            old(self).placed(),
            old(self).anchored(),
        ensures
            text::opt_text(r) == match doc_model::selected(old(self)@) {
                Some((s, e)) => Some(doc_model::text_between_places(old(self)@.lines, s, e)),
                None => None,
            },
            final(self)@ == match doc_model::selected(old(self)@) {
                Some(_) => doc_model::unselected(doc_model::edit_start(old(self)@)),
                None => old(self)@,
            },
            final(self).placed(),
            old(self).sound() ==> final(self).sound(),
    {
        match self.selected_text() {
            Some(t) => {
                self.edit_start();
                let _gone = self.delete_selection();
                Some(t)
            },
            None => None,
        }
    }

    fn restore(&mut self, s: Snapshot)
        ensures
            final(self)@ == doc_model::restored(old(self)@, snap_view(s)),
    {
        self.lines = s.lines;
        self.caret = s.caret;
        self.anchor = s.anchor;
        self.coalescing = false;
    }

    /// Goes back to the state before the last edit, and says whether there was one.
    pub fn undo(&mut self) -> (r: bool)
        requires
            old(self).placed(),
        ensures
            r == (old(self)@.undo.len() > 0),
            final(self)@ == doc_model::undone(old(self)@),
            final(self).placed(),
            old(self).sound() ==> final(self).sound(),
    {
        let ghost v = self@;
        match self.undo.pop() {
            None => {
                assert(self@ =~= v);
                false
            },
            Some(prev) => {
                assert(snaps_view(self.undo@) =~= v.undo.drop_last());
                assert(snap_view(prev) == v.undo.last());
                let s = self.snapshot();
                self.redo.push(s);
                assert(snaps_view(self.redo@) =~= v.redo.push(doc_model::snap_of(v)));
                self.restore(prev);
                proof {
                    lemma_undone_ok(v, false);
                    if doc_model::state_ok(v, true) {
                        lemma_undone_ok(v, true);
                    }
                }
                true
            },
        }
    }

    /// Goes to the state that the last undo left, and says whether there was one.
    pub fn redo(&mut self) -> (r: bool)
        requires
            old(self).placed(),
        ensures
            r == (old(self)@.redo.len() > 0),
            final(self)@ == doc_model::redone(old(self)@),
            final(self).placed(),
            old(self).sound() ==> final(self).sound(),
    {
        let ghost v = self@;
        match self.redo.pop() {
            None => {
                assert(self@ =~= v);
                false
            },
            Some(next) => {
                assert(snaps_view(self.redo@) =~= v.redo.drop_last());
                assert(snap_view(next) == v.redo.last());
                let s = self.snapshot();
                self.undo.push(s);
                assert(snaps_view(self.undo@) =~= v.undo.push(doc_model::snap_of(v)));
                self.restore(next);
                proof {
                    lemma_redone_ok(v, false);
                    if doc_model::state_ok(v, true) {
                        lemma_redone_ok(v, true);
                    }
                }
                true
            },
        }
    }

    /// Selects the word at a place. Without a word there, nothing changes on white
    /// space, and the caret moves there on anything else.
    pub fn select_word_at(&mut self, row: usize, col: usize)
        requires
            old(self).placed(),
        ensures
            final(self)@ == doc_model::word_selected(old(self)@, row as int, col as int),
            final(self).placed(),
            old(self).sound() ==> final(self).sound(),
    {
        let r: usize = self.row_in(row);
        let line = self.chars_at(r);
        let k: usize = char_index(&line, col);
        let s: usize = word_start(&line, k);
        let e: usize = word_end(&line, k);
        proof {
            lemma_at_fits(self@.lines, r as int, s as int);
            lemma_at_fits(self@.lines, r as int, e as int);
        }
        if e > s {
            self.goal_col = None;
            self.anchor = Some(self.caret_at(r, s));
            self.caret = self.caret_at(r, e);
        } else if k >= line.len() || !char_is_ws(line[k]) {
            self.set_caret(r, col);
        }
    }

    /// Selects a row with its end.
    pub fn select_line(&mut self, row: usize)
        requires
            old(self).placed(),
        ensures
            final(self)@ == doc_model::row_selected(old(self)@, row as int),
            final(self).placed(),
            old(self).sound() ==> final(self).sound(),
    {
        let r: usize = self.row_in(row);
        let count: usize = self.lines.len();
        assert(self@.lines.len() == count);
        proof {
            lemma_ends_fit(self@.lines, r as int);
            if r + 1 < count {
                lemma_ends_fit(self@.lines, r + 1);
            }
        }
        self.goal_col = None;
        self.anchor = Some(Caret { row: r, col: 0 });
        self.caret = if r + 1 < count {
            Caret { row: r + 1, col: 0 }
        } else {
            self.end_of_row(r)
        };
    }
}

proof fn lemma_undone_ok(v: DocView, anchors: bool)
    requires
        doc_model::state_ok(v, anchors),
    ensures
        doc_model::state_ok(doc_model::undone(v), anchors),
{
    let w = doc_model::undone(v);
    if v.undo.len() > 0 {
        assert(v.undo.last() == v.undo[v.undo.len() - 1]);
        assert forall|i: int| 0 <= i < w.undo.len() implies doc_model::good_snap(
            #[trigger] w.undo[i],
            anchors,
        ) by {
            assert(w.undo[i] == v.undo[i]);
        }
        assert forall|i: int| 0 <= i < w.redo.len() implies doc_model::good_snap(
            #[trigger] w.redo[i],
            anchors,
        ) by {
            if i < v.redo.len() {
                assert(w.redo[i] == v.redo[i]);
            }
        }
    }
}

proof fn lemma_redone_ok(v: DocView, anchors: bool)
    requires
        doc_model::state_ok(v, anchors),
    ensures
        doc_model::state_ok(doc_model::redone(v), anchors),
{
    let w = doc_model::redone(v);
    if v.redo.len() > 0 {
        assert(v.redo.last() == v.redo[v.redo.len() - 1]);
        assert forall|i: int| 0 <= i < w.redo.len() implies doc_model::good_snap(
            #[trigger] w.redo[i],
            anchors,
        ) by {
            assert(w.redo[i] == v.redo[i]);
        }
        assert forall|i: int| 0 <= i < w.undo.len() implies doc_model::good_snap(
            #[trigger] w.undo[i],
            anchors,
        ) by {
            if i < v.undo.len() {
                assert(w.undo[i] == v.undo[i]);
            }
        }
    }
}

// ── lines ───────────────────────────────────────────────────────────────────

proof fn lemma_row_range(v: DocView)
    requires
        doc_model::good_snap(doc_model::snap_of(v), false),
        doc_model::anchor_on_row(v.lines, v.anchor),
    ensures
        0 <= doc_model::row_range(v).0 <= doc_model::row_range(v).1 < v.lines.len(),
{
}

proof fn lemma_indented_ok(v: DocView, anchors: bool)
    requires
        doc_model::state_ok(v, anchors),
        doc_model::anchor_on_row(v.lines, v.anchor),
    ensures
        doc_model::state_ok(doc_model::indented(v), anchors),
        text::byte_len("  "@) == 2,
        doc_model::indented(v).caret.col <= text::byte_len(doc_model::indented(v).lines[v.caret.row]),
        doc_model::anchor_fits(v.lines, v.anchor) ==> (v.anchor matches Some(a) ==> doc_model::shifted(a, doc_model::row_range(v).0, doc_model::row_range(v).1, 2).col
            <= text::byte_len(doc_model::indented(v).lines[a.row])),
{
    let w = doc_model::indented(v);
    let (r0, r1) = doc_model::row_range(v);
    lemma_row_range(v);
    lemma_recorded_ok(v, anchors);
    lemma_two_spaces();
    lemma_shifted_fits(v.lines, w.lines, v.caret, r0, r1);
    match v.anchor {
        Some(a) => {
            if doc_model::fits(v.lines, a) {
                lemma_shifted_fits(v.lines, w.lines, a, r0, r1);
            }
        },
        None => {},
    }
}

proof fn lemma_two_spaces()
    ensures
        "  "@ == seq![' ', ' '],
        text::byte_len("  "@) == 2,
{
    reveal_strlit("  ");
    assert("  "@ =~= seq![' ', ' ']);
    let e = Seq::<char>::empty();
    assert("  "@ =~= e.push(' ').push(' '));
    text::lemma_byte_len_push(e, ' ');
    text::lemma_byte_len_push(e.push(' '), ' ');
}

proof fn lemma_shifted_fits(
    lines: Seq<Seq<char>>,
    new: Seq<Seq<char>>,
    p: Place,
    r0: int,
    r1: int,
)
    requires
        doc_model::fits(lines, p),
        new.len() == lines.len(),
        new[p.row] == if r0 <= p.row <= r1 {
            "  "@ + lines[p.row]
        } else {
            lines[p.row]
        },
    ensures
        doc_model::fits(new, doc_model::shifted(p, r0, r1, 2)),
        doc_model::shifted(p, r0, r1, 2).col <= text::byte_len(new[p.row]),
{
    lemma_fits(lines, p);
    if r0 <= p.row <= r1 {
        let line = lines[p.row];
        let k = doc_model::index_in(lines, p);
        lemma_two_spaces();
        assert(new[p.row].take(k + 2) =~= "  "@ + line.take(k));
        text::lemma_byte_len_concat("  "@, line.take(k));
        text::lemma_index_of_offset(new[p.row], k + 2);
    }
}

proof fn lemma_pulled_fits(
    lines: Seq<Seq<char>>,
    new: Seq<Seq<char>>,
    p: Place,
    r0: int,
    r1: int,
)
    requires
        doc_model::fits(lines, p),
        new.len() == lines.len(),
        new[p.row] == if r0 <= p.row <= r1 {
            lines[p.row].skip(doc_model::outdent_of(lines[p.row]))
        } else {
            lines[p.row]
        },
    ensures
        doc_model::fits(new, doc_model::pulled(lines, p, r0, r1)),
{
    lemma_fits(lines, p);
    if r0 <= p.row <= r1 {
        let line = lines[p.row];
        let k = doc_model::index_in(lines, p);
        let n = doc_model::outdent_of(line);
        text::lemma_offset_of_end(new[p.row]);
        let e = Seq::<char>::empty();
        text::lemma_byte_len_push(e, ' ');
        text::lemma_byte_len_push(e.push(' '), ' ');
        if n == 0 {
            assert(line.skip(0) =~= line);
        } else {
            assert(line.take(n) =~= if n == 1 {
                e.push(' ')
            } else {
                e.push(' ').push(' ')
            });
            if k >= n {
                assert(line.take(k) =~= line.take(n) + new[p.row].take(k - n));
                text::lemma_byte_len_concat(line.take(n), new[p.row].take(k - n));
                text::lemma_index_of_offset(new[p.row], k - n);
            } else {
                text::lemma_offset_grows(line, k, n);
            }
        }
    }
}

proof fn lemma_outdented_ok(v: DocView, anchors: bool)
    requires
        doc_model::state_ok(v, anchors),
        doc_model::anchor_on_row(v.lines, v.anchor),
    ensures
        doc_model::state_ok(doc_model::outdented(v), anchors),
{
    let w = doc_model::outdented(v);
    let (r0, r1) = doc_model::row_range(v);
    lemma_row_range(v);
    lemma_recorded_ok(v, anchors);
    lemma_pulled_fits(v.lines, w.lines, v.caret, r0, r1);
    match v.anchor {
        Some(a) => {
            if doc_model::fits(v.lines, a) {
                lemma_pulled_fits(v.lines, w.lines, a, r0, r1);
            }
        },
        None => {},
    }
}

impl Doc {
    fn selected_rows(&self) -> (r: (usize, usize))
        requires
            self.placed(),
            self.rooted(),
        ensures
            (r.0 as int, r.1 as int) == doc_model::row_range(self@),
            r.0 <= r.1 < self@.lines.len(),
    {
        proof {
            lemma_row_range(self@);
        }
        match self.selection() {
            Some((s, e)) => (
                s.row,
                if e.col == 0 && e.row > s.row {
                    e.row - 1
                } else {
                    e.row
                },
            ),
            None => (self.caret.row, self.caret.row),
        }
    }

    fn indent_for_next(&self) -> (r: Vec<char>)
        requires
            self.placed(),
        ensures
            r@ == doc_model::next_indent(self@),
    {
        let line = self.chars_at(self.caret.row);
        let k: usize = char_index(&line, self.caret.col);
        let mut n: usize = 0;
        while n < line.len()
            invariant_except_break
                n <= line@.len(),
                text::first_from(line@, doc_model::not_indent(), 0) == text::first_from(line@, doc_model::not_indent(), n as int),
            ensures
                n <= line@.len(),
                n == text::first_from(line@, doc_model::not_indent(), 0),
            decreases line@.len() - n,
        {
            if line[n] != ' ' && line[n] != '\t' {
                break;
            }
            n += 1;
        }
        let mut r = copy_of(slice_subrange(&line, 0, n));
        if opens_block(slice_subrange(&line, 0, k)) {
            push_str(&mut r, "  ");
        }
        r
    }

    /// Begins a new line with the indent of this one, and one level more behind what
    /// opens a block. A selection is replaced. One undo step.
    pub fn insert_newline(&mut self)
        requires
            old(self).placed(),
            old(self).anchored(),
        ensures
            final(self)@ == doc_model::broken_line(old(self)@),
            final(self).placed(),
            old(self).sound() ==> final(self).sound(),
    {
        self.edit_begin();
        let _gone = self.delete_selection();
        let mut c = chars_of("\n");
        let next = self.indent_for_next();
        push_all(&mut c, &next);
        proof {
            lemma_put_ok(self@, c@, false);
            if self.sound() {
                lemma_put_ok(self@, c@, true);
            }
        }
        self.insert_raw(&c);
    }

    /// Indents the selected rows, or the caret's row, by one level. One undo step. A
    /// selection end that lies in no line must leave room for two more columns.
    pub fn indent(&mut self)
        requires
            old(self).placed(),
            old(self).rooted(),
            old(self).anchored() || (old(self)@.anchor matches Some(a) && a.col + 2 <= usize::MAX),
        ensures
            final(self)@ == doc_model::indented(old(self)@),
            final(self).placed(),
            final(self).rooted(),
            old(self).sound() ==> final(self).sound(),
    {
        let ghost v = self@;
        let ghost want = doc_model::indented(v).lines;
        let (r0, r1) = self.selected_rows();
        proof {
            lemma_indented_ok(v, false);
            if doc_model::state_ok(v, true) {
                lemma_indented_ok(v, true);
            }
        }
        self.edit_start();
        let mut r: usize = r0;
        while r <= r1
            invariant
                r0 <= r <= r1 + 1,
                r1 < v.lines.len(),
                (r0 as int, r1 as int) == doc_model::row_range(v),
                want == doc_model::indented(v).lines,
                self@.lines.len() == v.lines.len(),
                forall|q: int|
                    0 <= q < v.lines.len() ==> (#[trigger] self@.lines[q]) == if q < r {
                        want[q]
                    } else {
                        v.lines[q]
                    },
                self@ == (DocView { lines: self@.lines, ..doc_model::edit_start(v) }),
            decreases r1 + 1 - r,
        {
            let line = self.chars_at(r);
            let mut c = chars_of("  ");
            push_all(&mut c, &line);
            let ghost before = self@.lines;
            self.set_line(r, &c);
            assert(c@ == want[r as int]);
            let total: usize = self.lines.len();
            assert(self@.lines.len() == total);
            r += 1;
        }
        assert(self@.lines =~= want);
        self.shift_cols(r0, r1);
    }

    fn shift(&self, c: Caret, r0: usize, r1: usize) -> (r: Caret)
        requires
            r0 <= c.row <= r1 ==> c.col + 2 <= text::byte_len(self@.lines[c.row as int]) || c.col + 2
                <= usize::MAX,
            c.row < self@.lines.len(),
        ensures
            r@ == doc_model::shifted(c@, r0 as int, r1 as int, 2),
    {
        if c.row >= r0 && c.row <= r1 {
            let _room: usize = bytes_in(self.lines[c.row].as_str());
            Caret { row: c.row, col: c.col + 2 }
        } else {
            c
        }
    }

    /// Moves the caret and the selection's end one level to the right on the rows of
    /// a range.
    fn shift_cols(&mut self, r0: usize, r1: usize)
        requires
            old(self)@.caret.row < old(self)@.lines.len(),
            doc_model::shifted(old(self)@.caret, r0 as int, r1 as int, 2).col <= text::byte_len(
                old(self)@.lines[old(self)@.caret.row],
            ),
            old(self)@.anchor matches Some(a) ==> a.row < old(self)@.lines.len() && (
            doc_model::shifted(a, r0 as int, r1 as int, 2).col <= text::byte_len(
                old(self)@.lines[a.row],
            ) || a.col + 2 <= usize::MAX),
        ensures
            final(self)@ == (DocView {
                caret: doc_model::shifted(old(self)@.caret, r0 as int, r1 as int, 2),
                anchor: match old(self)@.anchor {
                    Some(a) => Some(doc_model::shifted(a, r0 as int, r1 as int, 2)),
                    None => None,
                },
                ..old(self)@
            }),
    {
        self.caret = self.shift(self.caret, r0, r1);
        match self.anchor {
            Some(a) => {
                assert(opt_place(old(self).anchor) == Some(a@));
                self.anchor = Some(self.shift(a, r0, r1));
            },
            None => {},
        }
    }

    fn pull(lines: &Vec<String>, c: Caret, r0: usize, r1: usize) -> (r: Caret)
        requires
            c.row < lines@.len(),
        ensures
            r@ == doc_model::pulled(text::strings(lines@), c@, r0 as int, r1 as int),
    {
        if c.row >= r0 && c.row <= r1 {
            let line = chars_of(lines[c.row].as_str());
            let n: usize = outdent_width(&line);
            Caret {
                row: c.row,
                col: if c.col < n {
                    0
                } else {
                    c.col - n
                },
            }
        } else {
            c
        }
    }

    /// Outdents the selected rows, or the caret's row, by up to one level. One undo
    /// step.
    pub fn outdent(&mut self)
        requires
            old(self).placed(),
            old(self).rooted(),
        ensures
            final(self)@ == doc_model::outdented(old(self)@),
            final(self).placed(),
            final(self).rooted(),
            old(self).sound() ==> final(self).sound(),
    {
        let ghost v = self@;
        let ghost want = doc_model::outdented(v).lines;
        let (r0, r1) = self.selected_rows();
        proof {
            lemma_outdented_ok(v, false);
            if doc_model::state_ok(v, true) {
                lemma_outdented_ok(v, true);
            }
        }
        self.edit_start();
        let caret = Self::pull(&self.lines, self.caret, r0, r1);
        let anchor = match self.anchor {
            Some(a) => {
                assert(opt_place(self.anchor) == Some(a@));
                Some(Self::pull(&self.lines, a, r0, r1))
            },
            None => None,
        };
        let mut r: usize = r0;
        while r <= r1
            invariant
                r0 <= r <= r1 + 1,
                r1 < v.lines.len(),
                (r0 as int, r1 as int) == doc_model::row_range(v),
                want == doc_model::outdented(v).lines,
                self@.lines.len() == v.lines.len(),
                forall|q: int|
                    0 <= q < v.lines.len() ==> (#[trigger] self@.lines[q]) == if q < r {
                        want[q]
                    } else {
                        v.lines[q]
                    },
                self@ == (DocView { lines: self@.lines, ..doc_model::edit_start(v) }),
            decreases r1 + 1 - r,
        {
            let line = self.chars_at(r);
            let n: usize = outdent_width(&line);
            let end: usize = line.len();
            let rest = slice_subrange(&line, n, end);
            assert(rest@ =~= line@.skip(n as int));
            self.set_line(r, rest);
            assert(rest@ == want[r as int]);
            let total: usize = self.lines.len();
            assert(self@.lines.len() == total);
            r += 1;
        }
        assert(self@.lines =~= want);
        self.caret = caret;
        self.anchor = anchor;
    }

    /// Doubles the caret's row below it. One undo step.
    pub fn duplicate_line(&mut self)
        requires
            old(self).placed(),
        ensures
            final(self)@ == doc_model::doubled(old(self)@),
            final(self).placed(),
            old(self).sound() ==> final(self).sound(),
    {
        let ghost v = self@;
        self.edit_start();
        self.anchor = None;
        let row: usize = self.caret.row;
        let count: usize = self.lines.len();
        assert(self@.lines.len() == count);
        let dup = self.lines[row].clone();
        self.lines.insert(row + 1, dup);
        assert(text::strings(self.lines@) =~= v.lines.insert(row + 1, v.lines[row as int]));
        self.caret = Caret { row: row + 1, col: self.caret.col };
    }

    /// Deletes the caret's row; the only row is emptied. One undo step.
    pub fn delete_line(&mut self)
        requires
            old(self).placed(),
        ensures
            final(self)@ == doc_model::row_deleted(old(self)@),
            final(self).placed(),
            old(self).sound() ==> final(self).sound(),
    {
        let ghost v = self@;
        self.edit_start();
        self.anchor = None;
        let row: usize = self.caret.row;
        assert(self@.lines.len() == self.lines@.len());
        if self.lines.len() == 1 {
            let none: Vec<char> = Vec::new();
            self.set_line(0, &none);
            assert(self@.lines =~= seq![Seq::<char>::empty()]);
            self.caret = Caret { row, col: 0 };
            proof {
                lemma_ends_fit(self@.lines, 0);
            }
            return;
        }
        let _gone = self.lines.remove(row);
        assert(text::strings(self.lines@) =~= v.lines.remove(row as int));
        let r: usize = self.row_in(row);
        self.caret = self.snap(r, self.caret.col);
    }

    fn swap_with(&mut self, other: usize)
        requires
            old(self).placed(),
            other < old(self)@.lines.len(),
        ensures
            final(self)@ == doc_model::swapped(old(self)@, other as int),
            final(self).placed(),
            old(self).sound() ==> final(self).sound(),
    {
        let ghost v = self@;
        self.edit_start();
        self.anchor = None;
        let row: usize = self.caret.row;
        let mine = self.chars_at(row);
        let theirs = self.chars_at(other);
        self.set_line(row, &theirs);
        self.set_line(other, &mine);
        self.caret = Caret { row: other, col: self.caret.col };
        assert(self@.lines[other as int] == v.lines[row as int]);
    }

    /// Trades the caret's row with the one above. One undo step; nothing in the first
    /// row.
    pub fn move_line_up(&mut self)
        requires
            old(self).placed(),
        ensures
            final(self)@ == if old(self)@.caret.row == 0 {
                old(self)@
            } else {
                doc_model::swapped(old(self)@, old(self)@.caret.row - 1)
            },
            final(self).placed(),
            old(self).sound() ==> final(self).sound(),
    {
        if self.caret.row > 0 {
            self.swap_with(self.caret.row - 1);
        }
    }

    /// Trades the caret's row with the one below. One undo step; nothing in the last
    /// row.
    pub fn move_line_down(&mut self)
        requires
            old(self).placed(),
        ensures
            final(self)@ == if old(self)@.caret.row + 1 >= old(self)@.lines.len() {
                old(self)@
            } else {
                doc_model::swapped(old(self)@, old(self)@.caret.row + 1)
            },
            final(self).placed(),
            old(self).sound() ==> final(self).sound(),
    {
        let count: usize = self.lines.len();
        assert(self@.lines.len() == count);
        if self.caret.row + 1 < count {
            self.swap_with(self.caret.row + 1);
        }
    }
}

fn outdent_width(line: &[char]) -> (r: usize)
    ensures
        r == doc_model::outdent_of(line@),
        r <= line@.len(),
{
    if line.len() == 0 || line[0] != ' ' {
        0
    } else if line.len() == 1 || line[1] != ' ' {
        1
    } else {
        2
    }
}

// ── comments, searches and brackets ─────────────────────────────────────────

fn line_is_commented(line: &[char]) -> (r: bool)
    ensures
        r == doc_model::is_commented(line@),
{
    let t = trimmed_start(line);
    t.len() == 0 || t[0] == ';'
}

fn toggle_line(line: &[char], commented: bool) -> (r: Vec<char>)
    ensures
        r@ == doc_model::toggled_line(line@, commented),
{
    let n: usize = indent_of(line);
    let end: usize = line.len();
    if n == end {
        return copy_of(line);
    }
    let mut r = copy_of(slice_subrange(line, 0, n));
    let rest = slice_subrange(line, n, end);
    if commented {
        match without_prefix(rest, "; ") {
            Some(s) => {
                push_all(&mut r, s);
            },
            None => {
                match without_prefix(rest, ";") {
                    Some(s) => {
                        push_all(&mut r, s);
                    },
                    None => {
                        push_all(&mut r, rest);
                    },
                }
            },
        }
    } else {
        push_str(&mut r, "; ");
        push_all(&mut r, rest);
    }
    r
}

/// The ranges of a search as plain numbers.
pub open spec fn ranges_view(v: Seq<(usize, usize, usize)>) -> Seq<(int, int, int)> {
    Seq::new(v.len(), |i: int| (v[i].0 as int, v[i].1 as int, v[i].2 as int))
}

proof fn lemma_folded_bytes(s: Seq<char>, case_sensitive: bool, a: int, b: int)
    requires
        0 <= a <= b <= s.len(),
    ensures
        doc_model::folded(s, case_sensitive).len() == s.len(),
        text::byte_len(doc_model::folded(s, case_sensitive).subrange(a, b)) == text::byte_len(s.subrange(a, b)),
    decreases b - a,
{
    let f = doc_model::folded(s, case_sensitive);
    if a < b {
        lemma_folded_bytes(s, case_sensitive, a + 1, b);
        assert(s.subrange(a, b).drop_first() =~= s.subrange(a + 1, b));
        assert(f.subrange(a, b).drop_first() =~= f.subrange(a + 1, b));
        assert(s.subrange(a, b)[0] == s[a] && f.subrange(a, b)[0] == f[a]);
        assert(text::width(f[a]) == text::width(s[a]));
    } else {
        assert(s.subrange(a, b) =~= Seq::empty());
        assert(f.subrange(a, b) =~= Seq::empty());
    }
}

/// A match takes as many bytes of the line as the needle has.
proof fn lemma_hit_bytes(line: Seq<char>, needle: Seq<char>, case_sensitive: bool, f: int)
    requires
        0 <= f,
        f + needle.len() <= line.len(),
        text::occurs_at(doc_model::folded(line, case_sensitive), doc_model::folded(needle, case_sensitive), f),
    ensures
        text::offset_of(line, f) + text::byte_len(needle) == text::offset_of(line, f + needle.len()),
{
    let n = needle.len() as int;
    let part = line.subrange(f, f + n);
    lemma_folded_bytes(line, case_sensitive, f, f + n);
    lemma_folded_bytes(needle, case_sensitive, 0, n);
    assert(needle.subrange(0, n) =~= needle);
    let fneedle = doc_model::folded(needle, case_sensitive);
    assert(fneedle.subrange(0, n) =~= fneedle);
    assert(doc_model::folded(line, case_sensitive).subrange(f, f + n) =~= fneedle);
    assert(line.take(f + n) =~= line.take(f) + part);
    text::lemma_byte_len_concat(line.take(f), part);
}

fn find_in_row(
    line: &[char],
    needle: &[char],
    case_sensitive: bool,
    row: usize,
    hits: &mut Vec<(usize, usize, usize)>,
)
    requires
        needle@.len() > 0,
        text::byte_len(line@) <= usize::MAX,
    ensures
        ranges_view(final(hits)@) == ranges_view(old(hits)@) + doc_model::row_hits(
            line@,
            needle@,
            case_sensitive,
            row as int,
            0,
        ),
{
    let hay = if case_sensitive {
        copy_of(line)
    } else {
        to_lower(line)
    };
    let pin = if case_sensitive {
        copy_of(needle)
    } else {
        to_lower(needle)
    };
    let ghost start = ranges_view(hits@);
    let ghost want = start + doc_model::row_hits(line@, needle@, case_sensitive, row as int, 0);
    let n: usize = needle.len();
    let len: usize = line.len();
    let mut from: usize = 0;
    loop
        invariant_except_break
            from <= len,
            ranges_view(hits@) + doc_model::row_hits(
                line@,
                needle@,
                case_sensitive,
                row as int,
                from as int,
            ) =~= want,
        invariant
            n == needle@.len(),
            n > 0,
            len == line@.len(),
            text::byte_len(line@) <= usize::MAX,
            hay@ == doc_model::folded(line@, case_sensitive),
            pin@ == doc_model::folded(needle@, case_sensitive),
            hay@.len() == len,
            pin@.len() == n,
        ensures
            ranges_view(hits@) =~= want,
        decreases len - from,
    {
        let f: usize = match find_from(&hay, &pin, from) {
            Some(f) => f,
            None => {
                break;
            },
        };
        proof {
            lemma_hit_bytes(line@, needle@, case_sensitive, f as int);
        }
        let s: usize = byte_offset(line, f);
        let e: usize = byte_offset(line, f + n);
        let ghost before = ranges_view(hits@);
        hits.push((row, s, e));
        assert(ranges_view(hits@) =~= before.push((row as int, s as int, e as int)));
        assert(before.push((row as int, s as int, e as int)) + doc_model::row_hits(
            line@,
            needle@,
            case_sensitive,
            row as int,
            f + n,
        ) =~= before + (seq![(row as int, s as int, e as int)] + doc_model::row_hits(
            line@,
            needle@,
            case_sensitive,
            row as int,
            f + n,
        )));
        from = f + n;
    }
}

fn find_from(s: &[char], p: &[char], i: usize) -> (r: Option<usize>)
    requires
        i <= s@.len(),
        p@.len() > 0,
    ensures
        (match r {
            Some(f) => f == text::find_text_from(s@, p@, i as int) && i <= f && f + p@.len() <= s@.len()
                && text::occurs_at(s@, p@, f as int),
            None => text::find_text_from(s@, p@, i as int) == -1,
        }),
{
    let mut k: usize = i;
    while k < s.len()
        invariant
            i <= k <= s@.len(),
            p@.len() > 0,
            text::find_text_from(s@, p@, i as int) == text::find_text_from(s@, p@, k as int),
        decreases s@.len() - k,
    {
        if p.len() <= s.len() - k && text_at(s, p, k) {
            return Some(k);
        }
        k += 1;
    }
    None
}

impl Doc {
    /// Sets the comment mark of the selected rows, or of the caret's row; takes it
    /// away where every one of them is a comment or blank. One undo step.
    pub fn toggle_comment(&mut self)
        requires
            old(self).placed(),
            old(self).rooted(),
        ensures
            final(self)@ == doc_model::toggled(old(self)@),
            final(self).placed(),
            final(self).rooted(),
            old(self).sound() && doc_model::anchor_fits(
                doc_model::toggled(old(self)@).lines,
                doc_model::toggled(old(self)@).anchor,
            ) ==> final(self).sound(),
    {
        let ghost v = self@;
        let ghost want = doc_model::toggled(v).lines;
        let (r0, r1) = self.selected_rows();
        self.edit_start();
        let mut commented = true;
        let mut q: usize = r0;
        while q <= r1
            invariant
                r0 <= q <= r1 + 1,
                r1 < v.lines.len(),
                self@.lines == v.lines,
                commented == doc_model::all_commented(v.lines, r0 as int, q - 1),
            decreases r1 + 1 - q,
        {
            let line = self.chars_at(q);
            let here = line_is_commented(&line);
            let total: usize = self.lines.len();
            assert(self@.lines.len() == total);
            proof {
                if commented && here {
                    assert forall|r: int| r0 <= r <= q implies doc_model::is_commented(
                        #[trigger] v.lines[r],
                    ) by {}
                }
            }
            commented = commented && here;
            q += 1;
        }
        let mut r: usize = r0;
        while r <= r1
            invariant
                r0 <= r <= r1 + 1,
                r1 < v.lines.len(),
                (r0 as int, r1 as int) == doc_model::row_range(v),
                commented == doc_model::all_commented(v.lines, r0 as int, r1 as int),
                want == doc_model::toggled(v).lines,
                self@.lines.len() == v.lines.len(),
                forall|q: int|
                    0 <= q < v.lines.len() ==> (#[trigger] self@.lines[q]) == if q < r {
                        want[q]
                    } else {
                        v.lines[q]
                    },
                self@ == (DocView { lines: self@.lines, ..doc_model::edit_start(v) }),
            decreases r1 + 1 - r,
        {
            let line = self.chars_at(r);
            let c = toggle_line(&line, commented);
            self.set_line(r, &c);
            assert(c@ == want[r as int]);
            let total: usize = self.lines.len();
            assert(self@.lines.len() == total);
            r += 1;
        }
        assert(self@.lines =~= want);
        self.caret = self.snap(self.caret.row, self.caret.col);
        match self.anchor {
            Some(a) => {
                assert(opt_place(self.anchor) == Some(a@));
                assert(v.anchor == Some(a@));
                let len: usize = bytes_in(self.lines[a.row].as_str());
                self.anchor = Some(
                    Caret {
                        row: a.row,
                        col: if a.col < len {
                            a.col
                        } else {
                            len
                        },
                    },
                );
            },
            None => {},
        }
    }

    /// Every match of `needle` as a row and a byte range, none of which overlaps.
    /// Letters are compared by their ASCII case, or in any.
    pub fn find_all(&self, needle: &str, case_sensitive: bool) -> (r: Vec<(usize, usize, usize)>)
        ensures
            ranges_view(r@) == doc_model::hits_from(self@.lines, needle@, case_sensitive, 0),
    {
        let pin = chars_of(needle);
        let mut hits: Vec<(usize, usize, usize)> = Vec::new();
        assert(ranges_view(hits@) =~= Seq::empty());
        if pin.len() == 0 {
            proof {
                lemma_no_needle(self@.lines, needle@, case_sensitive, 0);
            }
            return hits;
        }
        let ghost want = doc_model::hits_from(self@.lines, needle@, case_sensitive, 0);
        let mut r: usize = 0;
        while r < self.lines.len()
            invariant
                pin@ == needle@,
                pin@.len() > 0,
                r <= self.lines@.len(),
                ranges_view(hits@) + doc_model::hits_from(self@.lines, needle@, case_sensitive, r as int)
                    =~= want,
            decreases self.lines@.len() - r,
        {
            let line = self.chars_at(r);
            let ghost before = ranges_view(hits@);
            find_in_row(&line, &pin, case_sensitive, r, &mut hits);
            assert(ranges_view(hits@) + doc_model::hits_from(self@.lines, needle@, case_sensitive, r + 1)
                =~= before + (doc_model::row_hits(line@, needle@, case_sensitive, r as int, 0) + doc_model::hits_from(
                self@.lines,
                needle@,
                case_sensitive,
                r + 1,
            )));
            r += 1;
        }
        assert(ranges_view(hits@) =~= want);
        hits
    }

    /// The bracket that matches the one at, or right before, a place on its row.
    pub fn matching_bracket(&self, row: usize, col: usize) -> (r: Option<(usize, usize)>)
        requires
            row < self@.lines.len(),
        ensures
            (match r {
                Some((a, b)) => Some((a as int, b as int)),
                None => None,
            }) == doc_model::bracket_match(self@.lines, row as int, col as int),
    {
        let line = self.chars_at(row);
        let k: usize = char_index(&line, col);
        match find_bracket(&line, k) {
            Some(b) => match find_partner(&line, b) {
                Some(p) => Some((row, byte_offset(&line, p))),
                None => None,
            },
            None => None,
        }
    }

    /// What to show the other occurrences of: a word-like selection on one row, else
    /// the word at the caret; nothing that is too short.
    pub fn occurrence_needle(&self) -> (r: Option<String>)
        requires
            self.placed(),
            self.anchored(),
        ensures
            text::opt_text(r) == doc_model::needle_of(self@),
    {
        match self.selection() {
            Some((s, e)) => {
                if s.row != e.row {
                    return None;
                }
                let line = self.chars_at(s.row);
                let i: usize = char_index(&line, s.col);
                let j: usize = char_index(&line, e.col);
                proof {
                    lemma_fits(self@.lines, s@);
                    lemma_fits(self@.lines, e@);
                    if i > j {
                        text::lemma_offset_grows(line@, j as int, i as int);
                    }
                }
                show_worth(slice_subrange(&line, i, j))
            },
            None => {
                let line = self.chars_at(self.caret.row);
                let k: usize = char_index(&line, self.caret.col);
                let s: usize = word_start(&line, k);
                let e: usize = word_end(&line, k);
                show_worth(slice_subrange(&line, s, e))
            },
        }
    }
}

fn show_worth(t: &[char]) -> (r: Option<String>)
    ensures
        text::opt_text(r) == doc_model::worth_showing(t@),
{
    let s = string_of(t);
    if bytes_in(s.as_str()) >= 2 && is_all_word(t) {
        Some(s)
    } else {
        None
    }
}

proof fn lemma_no_needle(lines: Seq<Seq<char>>, needle: Seq<char>, case_sensitive: bool, r: int)
    requires
        needle.len() == 0,
        0 <= r,
    ensures
        doc_model::hits_from(lines, needle, case_sensitive, r) == Seq::<(int, int, int)>::empty(),
    decreases lines.len() - r,
{
    if r < lines.len() {
        lemma_no_needle(lines, needle, case_sensitive, r + 1);
    }
}

} // verus!
