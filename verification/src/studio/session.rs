//! The editor session: what each key, character, command and reply does to the
//! document, the completion popup, the search box and the label palette, and what is
//! left for the window to do.
use crate::studio::complete;
use crate::studio::doc_model;
use crate::studio::lang;
use crate::studio::listing;
use crate::studio::outline;
use crate::studio::tips;
use crate::text;
use crate::was::decls;
use crate::was::includes;
use crate::winkb::search;
use crate::studio::complete::{CompletionKind, ContextKind, context};
use crate::studio::doc::Doc;
use crate::studio::doc_model::{DocView, Place};
use crate::studio::lang::{FindingView, ReplyView, Response};
use crate::studio::listing::{ListingRow, RowView};
use crate::studio::outline::{Label, LabelView, classified};
use crate::text::{
    chars_of, index_of_text, push_dec, replace_text, string_of, to_lower, trimmed_end,
};
use crate::was::includes::com_bindings;
use crate::winkb::kb::Completion;
use crate::winkb::search::begins_ignoring_case;
use vstd::prelude::*;

verus! {

// ── state ───────────────────────────────────────────────────────────────────

/// The ids of the latest requests; a reply to another is stale.
#[derive(Debug, Clone, Copy, PartialEq, Eq, Structural)]
pub struct Pending {
    pub check: u64,
    pub listing: u64,
    pub card: u64,
    pub complete: u64,
}

/// An editor session.
#[derive(Debug, Clone)]
pub struct Session {
    pub doc: Doc,
    /// The text of the search box, and whether it has the focus.
    pub search: Vec<char>,
    pub search_active: bool,
    /// The candidates of the completion popup (none: it is hidden), the highlighted
    /// one, and the byte at which the completed prefix begins.
    pub comp: Vec<Completion>,
    pub comp_sel: usize,
    pub comp_start: usize,
    /// The label palette: whether it is open, its filter, the highlighted match and
    /// the labels it was opened with.
    pub find_active: bool,
    pub find_query: Vec<char>,
    pub find_sel: usize,
    pub find_labels: Vec<Label>,
    /// The interfaces of the buffer's typed pointers.
    pub binds: Vec<(String, String)>,
    /// The status line.
    pub notice: String,
    pub pending: Pending,
    pub diags: Vec<lang::Diag>,
    pub rows: Vec<Vec<ListingRow>>,
    pub card: String,
}

/// A session in mathematical terms.
#[verifier::ext_equal]
pub struct SessionView {
    pub doc: DocView,
    pub search: Seq<char>,
    pub search_active: bool,
    pub comp: Seq<(Seq<char>, Seq<char>, Seq<char>)>,
    pub comp_sel: int,
    pub comp_start: int,
    pub find_active: bool,
    pub find_query: Seq<char>,
    pub find_sel: int,
    pub find_labels: Seq<LabelView>,
    pub binds: Seq<(Seq<char>, Seq<char>)>,
    pub notice: Seq<char>,
    pub pending: Pending,
    pub diags: Seq<FindingView>,
    pub rows: Seq<Seq<RowView>>,
    pub card: Seq<char>,
}

impl View for Session {
    type V = SessionView;

    open spec fn view(&self) -> SessionView {
        SessionView {
            doc: self.doc@,
            search: self.search@,
            search_active: self.search_active,
            comp: search::completions_view(self.comp@),
            comp_sel: self.comp_sel as int,
            comp_start: self.comp_start as int,
            find_active: self.find_active,
            find_query: self.find_query@,
            find_sel: self.find_sel as int,
            find_labels: outline::marks_view(self.find_labels@),
            binds: tips::binds_view(self.binds@),
            notice: self.notice@,
            pending: self.pending,
            diags: lang::findings_view(self.diags@),
            rows: listing::listing_view(self.rows@),
            card: self.card@,
        }
    }
}

/// What is left to do after a step.
#[derive(Debug, Clone)]
pub enum Act {
    /// The key is not for the editor.
    Ignored,
    Nothing,
    Redraw,
    /// The caret moved.
    Moved,
    /// The text changed.
    Edited,
    /// The text changed, and candidates are wanted.
    Complete,
    /// A text for the clipboard.
    Copy(String),
    /// A text for the clipboard; the document changed.
    Cut(String),
    Paste,
    Search,
    NewFile,
    OpenFile,
    OpenRecent(usize),
    SaveFile,
    SaveFileAs,
    Export,
    Exit,
    Build,
    Run,
    Snapshot,
    PageUp,
    PageDown,
}

/// What is left to do, in mathematical terms.
pub enum ActView {
    Ignored,
    Nothing,
    Redraw,
    Moved,
    Edited,
    Complete,
    Copy(Seq<char>),
    Cut(Seq<char>),
    Paste,
    Search,
    NewFile,
    OpenFile,
    OpenRecent(int),
    SaveFile,
    SaveFileAs,
    Export,
    Exit,
    Build,
    Run,
    Snapshot,
    PageUp,
    PageDown,
}

impl View for Act {
    type V = ActView;

    open spec fn view(&self) -> ActView {
        match *self {
            Act::Ignored => ActView::Ignored,
            Act::Nothing => ActView::Nothing,
            Act::Redraw => ActView::Redraw,
            Act::Moved => ActView::Moved,
            Act::Edited => ActView::Edited,
            Act::Complete => ActView::Complete,
            Act::Copy(t) => ActView::Copy(t@),
            Act::Cut(t) => ActView::Cut(t@),
            Act::Paste => ActView::Paste,
            Act::Search => ActView::Search,
            Act::NewFile => ActView::NewFile,
            Act::OpenFile => ActView::OpenFile,
            Act::OpenRecent(i) => ActView::OpenRecent(i as int),
            Act::SaveFile => ActView::SaveFile,
            Act::SaveFileAs => ActView::SaveFileAs,
            Act::Export => ActView::Export,
            Act::Exit => ActView::Exit,
            Act::Build => ActView::Build,
            Act::Run => ActView::Run,
            Act::Snapshot => ActView::Snapshot,
            Act::PageUp => ActView::PageUp,
            Act::PageDown => ActView::PageDown,
        }
    }
}

// ── keys ────────────────────────────────────────────────────────────────────

pub const KEY_BACK: u16 = 0x08;

pub const KEY_TAB: u16 = 0x09;

pub const KEY_ENTER: u16 = 0x0D;

pub const KEY_ESCAPE: u16 = 0x1B;

pub const KEY_PRIOR: u16 = 0x21;

pub const KEY_NEXT: u16 = 0x22;

pub const KEY_END: u16 = 0x23;

pub const KEY_HOME: u16 = 0x24;

pub const KEY_LEFT: u16 = 0x25;

pub const KEY_UP: u16 = 0x26;

pub const KEY_RIGHT: u16 = 0x27;

pub const KEY_DOWN: u16 = 0x28;

pub const KEY_DELETE: u16 = 0x2E;

pub const KEY_A: u16 = 0x41;

pub const KEY_C: u16 = 0x43;

pub const KEY_F: u16 = 0x46;

pub const KEY_G: u16 = 0x47;

pub const KEY_N: u16 = 0x4E;

pub const KEY_O: u16 = 0x4F;

pub const KEY_S: u16 = 0x53;

pub const KEY_V: u16 = 0x56;

pub const KEY_X: u16 = 0x58;

pub const KEY_Y: u16 = 0x59;

pub const KEY_Z: u16 = 0x5A;

pub const KEY_F5: u16 = 0x74;

pub const KEY_F6: u16 = 0x75;

pub const KEY_F12: u16 = 0x7B;

/// A key that moves the caret along its row, or by pages.
pub open spec fn leaves_word(vk: u16) -> bool {
    vk == KEY_LEFT || vk == KEY_RIGHT || vk == KEY_HOME || vk == KEY_END || vk == KEY_PRIOR || vk
        == KEY_NEXT
}

/// A key that moves the caret.
pub open spec fn moves_caret(vk: u16) -> bool {
    leaves_word(vk) || vk == KEY_UP || vk == KEY_DOWN
}

// ── the label palette ───────────────────────────────────────────────────────

/// The label's name holds the query, in any case of its letters.
pub open spec fn mark_hit(l: LabelView, q: Seq<char>) -> bool {
    text::find_text(text::lower_all(l.name), text::lower_all(q)) >= 0
}

/// The label's name begins with the query, in any case of its letters.
pub open spec fn mark_begins(l: LabelView, q: Seq<char>) -> bool {
    text::starts_with(text::lower_all(l.name), text::lower_all(q))
}

/// `a` is listed before `b`: names that begin with the query first, then by line.
pub open spec fn mark_before(a: LabelView, b: LabelView, q: Seq<char>) -> bool {
    if mark_begins(a, q) == mark_begins(b, q) {
        a.line < b.line
    } else {
        mark_begins(a, q)
    }
}

/// `x` listed among `v`, behind those that do not come after it.
pub open spec fn insert_mark(v: Seq<LabelView>, x: LabelView, q: Seq<char>) -> Seq<LabelView>
    decreases v.len(),
{
    if v.len() == 0 || !mark_before(x, v.last(), q) {
        v.push(x)
    } else {
        insert_mark(v.drop_last(), x, q).push(v.last())
    }
}

/// The first `n` labels that hold the query: as they stand without one, else those
/// that begin with it first.
pub open spec fn marks_for(v: Seq<LabelView>, q: Seq<char>, n: int) -> Seq<LabelView>
    decreases n,
{
    if n <= 0 {
        Seq::empty()
    } else {
        let before = marks_for(v, q, n - 1);
        if !mark_hit(v[n - 1], q) {
            before
        } else if q.len() == 0 {
            before.push(v[n - 1])
        } else {
            insert_mark(before, v[n - 1], q)
        }
    }
}

/// The labels that the palette lists.
pub open spec fn listed_marks(v: SessionView) -> Seq<LabelView> {
    marks_for(v.find_labels, v.find_query, v.find_labels.len() as int)
}

proof fn lemma_insert_mark(v: Seq<LabelView>, x: LabelView, q: Seq<char>, i: int)
    requires
        0 <= i <= v.len(),
        forall|k: int| i <= k < v.len() ==> mark_before(x, #[trigger] v[k], q),
        i > 0 ==> !mark_before(x, v[i - 1], q),
    ensures
        insert_mark(v, x, q) == v.insert(i, x),
    decreases v.len(),
{
    if i == v.len() {
        assert(v.insert(i, x) =~= v.push(x));
    } else {
        assert(v[v.len() - 1] == v.last());
        let d = v.drop_last();
        assert forall|k: int| i <= k < d.len() implies mark_before(x, #[trigger] d[k], q) by {
            assert(d[k] == v[k]);
        }
        lemma_insert_mark(d, x, q, i);
        assert(v.insert(i, x) =~= d.insert(i, x).push(v.last()));
    }
}

fn comes_first(a: &Label, b: &Label, q: &[char]) -> (r: bool)
    ensures
        r == mark_before(a@, b@, q@),
{
    let ac = chars_of(a.name.as_str());
    let bc = chars_of(b.name.as_str());
    let pa = begins_ignoring_case(&ac, q);
    let pb = begins_ignoring_case(&bc, q);
    if pa == pb {
        a.line < b.line
    } else {
        pa
    }
}

fn place_mark(v: &mut Vec<Label>, x: Label, q: &[char])
    ensures
        outline::marks_view(final(v)@) == insert_mark(outline::marks_view(old(v)@), x@, q@),
{
    let ghost all = outline::marks_view(v@);
    let mut i: usize = v.len();
    while i > 0 && comes_first(&x, &v[i - 1], q)
        invariant
            *v == *old(v),
            all == outline::marks_view(v@),
            i <= v@.len(),
            forall|k: int| i <= k < all.len() ==> mark_before(x@, #[trigger] all[k], q@),
        decreases i,
    {
        assert(all[i - 1] == v@[i - 1]@);
        i -= 1;
    }
    proof {
        if i > 0 {
            assert(all[i - 1] == v@[i - 1]@);
        }
        lemma_insert_mark(all, x@, q@, i as int);
    }
    let ghost xv = x@;
    v.insert(i, x);
    assert(outline::marks_view(v@) =~= all.insert(i as int, xv));
}

/// The labels that hold the query, those that begin with it first.
pub fn find_matches(labels: &Vec<Label>, query: &[char]) -> (r: Vec<Label>)
    ensures
        outline::marks_view(r@) == marks_for(outline::marks_view(labels@), query@, labels@.len() as int),
{
    let ghost all = outline::marks_view(labels@);
    let q = to_lower(query);
    let mut out: Vec<Label> = Vec::new();
    let mut i: usize = 0;
    assert(outline::marks_view(out@) =~= Seq::empty());
    while i < labels.len()
        invariant
            all == outline::marks_view(labels@),
            q@ == text::lower_all(query@),
            i <= labels@.len(),
            outline::marks_view(out@) == marks_for(all, query@, i as int),
        decreases labels@.len() - i,
    {
        assert(all[i as int] == labels@[i as int]@);
        let name = chars_of(labels[i].name.as_str());
        let low = to_lower(&name);
        if index_of_text(&low, &q).is_some() {
            let x = Label {
                name: labels[i].name.clone(),
                line: labels[i].line,
                kind: labels[i].kind,
            };
            if query.len() == 0 {
                let ghost before = outline::marks_view(out@);
                out.push(x);
                assert(outline::marks_view(out@) =~= before.push(x@));
            } else {
                place_mark(&mut out, x, query);
            }
        }
        i += 1;
    }
    out
}

// ── steps ───────────────────────────────────────────────────────────────────

/// The session with the document `d`.
pub open spec fn with_doc(v: SessionView, d: DocView) -> SessionView {
    SessionView { doc: d, ..v }
}

/// The popup hidden.
pub open spec fn no_popup(v: SessionView) -> SessionView {
    SessionView { comp: Seq::empty(), ..v }
}

/// The labels of a text.
pub open spec fn labels_in(t: Seq<char>) -> Seq<LabelView> {
    outline::marks_among(text::lines(t), text::lines(t).len() as int)
}

/// The palette opened on the labels of the text.
pub open spec fn palette_opened(v: SessionView) -> SessionView {
    SessionView {
        find_labels: labels_in(doc_model::full_text(v.doc.lines)),
        find_query: Seq::empty(),
        find_sel: 0,
        find_active: true,
        comp: Seq::empty(),
        ..v
    }
}

/// A key while the palette is open.
pub open spec fn palette_key(v: SessionView, vk: u16) -> (SessionView, ActView) {
    if vk == KEY_ESCAPE {
        (SessionView { find_active: false, ..v }, ActView::Redraw)
    } else if vk == KEY_UP && v.find_sel > 0 {
        (SessionView { find_sel: v.find_sel - 1, ..v }, ActView::Redraw)
    } else if vk == KEY_DOWN && v.find_sel + 1 < listed_marks(v).len() {
        (SessionView { find_sel: v.find_sel + 1, ..v }, ActView::Redraw)
    } else {
        (v, ActView::Nothing)
    }
}

/// The selection before a caret key: begun or kept with Shift, else dropped.
pub open spec fn with_anchor(d: DocView, shift: bool) -> DocView {
    DocView {
        anchor: if !shift {
            None
        } else {
            match d.anchor {
                None => Some(d.caret),
                Some(a) => Some(a),
            }
        },
        ..d
    }
}

/// A key with Ctrl.
pub open spec fn control_key(v: SessionView, vk: u16, shift: bool) -> (SessionView, ActView) {
    if vk == KEY_F {
        (SessionView { search_active: true, ..v }, ActView::Redraw)
    } else if vk == KEY_G {
        (palette_opened(v), ActView::Redraw)
    } else if vk == KEY_A {
        (with_doc(v, all_selected(v.doc)), ActView::Redraw)
    } else if vk == KEY_C {
        copy_step(v)
    } else if vk == KEY_X {
        cut_step(v)
    } else if vk == KEY_V {
        (v, ActView::Paste)
    } else if vk == KEY_Y || (vk == KEY_Z && shift) {
        redo_step(v)
    } else if vk == KEY_Z {
        undo_step(v)
    } else if vk == KEY_N {
        (v, ActView::NewFile)
    } else if vk == KEY_O {
        (v, ActView::OpenFile)
    } else if vk == KEY_S && shift {
        (v, ActView::SaveFileAs)
    } else if vk == KEY_S {
        (v, ActView::SaveFile)
    } else {
        (v, ActView::Ignored)
    }
}

/// The whole document selected.
pub open spec fn all_selected(d: DocView) -> DocView {
    DocView {
        anchor: Some(Place { row: 0, col: 0 }),
        caret: doc_model::end_of(d.lines, d.lines.len() - 1),
        ..d
    }
}

pub open spec fn copy_step(v: SessionView) -> (SessionView, ActView) {
    match doc_model::selected(v.doc) {
        Some((s, e)) => (v, ActView::Copy(doc_model::text_between_places(v.doc.lines, s, e))),
        None => (v, ActView::Redraw),
    }
}

pub open spec fn cut_step(v: SessionView) -> (SessionView, ActView) {
    match doc_model::selected(v.doc) {
        Some((s, e)) => (
            with_doc(v, doc_model::unselected(doc_model::edit_start(v.doc))),
            ActView::Cut(doc_model::text_between_places(v.doc.lines, s, e)),
        ),
        None => (v, ActView::Redraw),
    }
}

pub open spec fn undo_step(v: SessionView) -> (SessionView, ActView) {
    if v.doc.undo.len() > 0 {
        (with_doc(v, doc_model::undone(v.doc)), ActView::Edited)
    } else {
        (v, ActView::Redraw)
    }
}

pub open spec fn redo_step(v: SessionView) -> (SessionView, ActView) {
    if v.doc.redo.len() > 0 {
        (with_doc(v, doc_model::redone(v.doc)), ActView::Edited)
    } else {
        (v, ActView::Redraw)
    }
}

/// The document after an up key.
pub open spec fn up_moved(d: DocView) -> DocView {
    if d.caret.row > 0 {
        doc_model::moved_to_row(d, d.caret.row - 1)
    } else {
        DocView { coalescing: false, ..d }
    }
}

/// The document after a down key.
pub open spec fn down_moved(d: DocView) -> DocView {
    if d.caret.row + 1 < d.lines.len() {
        doc_model::moved_to_row(d, d.caret.row + 1)
    } else {
        DocView { coalescing: false, ..d }
    }
}

/// A key without Ctrl.
pub open spec fn plain_key(v: SessionView, vk: u16, shift: bool) -> (SessionView, ActView) {
    let d = if moves_caret(vk) {
        with_anchor(v.doc, shift)
    } else {
        v.doc
    };
    if vk == KEY_LEFT {
        (with_doc(v, doc_model::moved(d, doc_model::left_of(d.lines, d.caret))), ActView::Moved)
    } else if vk == KEY_RIGHT {
        (with_doc(v, doc_model::moved(d, doc_model::right_of(d.lines, d.caret))), ActView::Moved)
    } else if vk == KEY_UP {
        (with_doc(v, up_moved(d)), ActView::Moved)
    } else if vk == KEY_DOWN {
        (with_doc(v, down_moved(d)), ActView::Moved)
    } else if vk == KEY_HOME {
        (with_doc(v, doc_model::moved(d, Place { row: d.caret.row, col: 0 })), ActView::Moved)
    } else if vk == KEY_END {
        (with_doc(v, doc_model::moved(d, doc_model::end_of(d.lines, d.caret.row))), ActView::Moved)
    } else if vk == KEY_PRIOR {
        (with_doc(v, d), ActView::PageUp)
    } else if vk == KEY_NEXT {
        (with_doc(v, d), ActView::PageDown)
    } else if vk == KEY_DELETE {
        (with_doc(v, doc_model::erased_right(d, doc_model::right_of(d.lines, d.caret))), ActView::Edited)
    } else if vk == KEY_F5 {
        (v, ActView::Build)
    } else if vk == KEY_F6 {
        (v, ActView::Run)
    } else if vk == KEY_F12 {
        (v, ActView::Snapshot)
    } else {
        (v, ActView::Ignored)
    }
}

/// What a key does.
pub open spec fn key_step(v: SessionView, vk: u16, ctrl: bool, shift: bool) -> (
    SessionView,
    ActView,
) {
    let n = v.comp.len() as int;
    let popup = n > 0 && !ctrl;
    if v.find_active {
        palette_key(v, vk)
    } else if v.search_active {
        if vk == KEY_ESCAPE {
            (SessionView { search_active: false, ..v }, ActView::Redraw)
        } else {
            (v, ActView::Nothing)
        }
    } else if popup && vk == KEY_DOWN {
        (SessionView { comp_sel: (v.comp_sel + 1) % n, ..v }, ActView::Redraw)
    } else if popup && vk == KEY_UP {
        (SessionView { comp_sel: (v.comp_sel + n - 1) % n, ..v }, ActView::Redraw)
    } else if popup && vk == KEY_ESCAPE {
        (no_popup(v), ActView::Redraw)
    } else {
        let w = if popup && leaves_word(vk) {
            no_popup(v)
        } else {
            v
        };
        if ctrl {
            control_key(w, vk, shift)
        } else {
            plain_key(w, vk, shift)
        }
    }
}

/// The character with a code, where the code is one of a character.
pub open spec fn char_with(code: u32) -> Option<char> {
    if code < 0xD800 || (0xE000 <= code && code < 0x110000) {
        Some(code as char)
    } else {
        None
    }
}

/// A code that is typed into the text.
pub open spec fn is_printable(code: u32) -> bool {
    code >= 0x20 && code != 0x7F
}

/// A text without its last character.
pub open spec fn popped(s: Seq<char>) -> Seq<char> {
    if s.len() == 0 {
        s
    } else {
        s.drop_last()
    }
}

/// A text with a typed character behind it.
pub open spec fn typed_into(s: Seq<char>, code: u32) -> Seq<char> {
    match char_with(code) {
        Some(c) => s.push(c),
        None => s,
    }
}

/// The palette's highlighted label is gone to.
pub open spec fn palette_taken(v: SessionView) -> (SessionView, ActView) {
    let m = listed_marks(v);
    let w = SessionView { find_active: false, ..v };
    if 0 <= v.find_sel < m.len() {
        let l = m[v.find_sel];
        let d = DocView { anchor: None, ..v.doc };
        let to = doc_model::snapped(d.lines, doc_model::clamped_row(d.lines, l.line), 0);
        (
            SessionView {
                doc: doc_model::moved(d, to),
                notice: "went to "@ + l.name + " (line "@ + text::dec(l.line + 1) + ")"@,
                ..w
            },
            ActView::Moved,
        )
    } else {
        (w, ActView::Redraw)
    }
}

/// A character while the palette is open.
pub open spec fn palette_char(v: SessionView, code: u32) -> (SessionView, ActView) {
    if code == 0x08 {
        (SessionView { find_query: popped(v.find_query), find_sel: 0, ..v }, ActView::Redraw)
    } else if code == 0x0D {
        palette_taken(v)
    } else if code == 0x1B {
        (SessionView { find_active: false, ..v }, ActView::Redraw)
    } else if is_printable(code) {
        (
            SessionView {
                find_query: typed_into(v.find_query, code),
                find_sel: if char_with(code) is Some {
                    0
                } else {
                    v.find_sel
                },
                ..v
            },
            ActView::Redraw,
        )
    } else {
        (v, ActView::Nothing)
    }
}

/// A character while the search box has the focus.
pub open spec fn search_char(v: SessionView, code: u32) -> (SessionView, ActView) {
    if code == 0x08 {
        (SessionView { search: popped(v.search), ..v }, ActView::Redraw)
    } else if code == 0x0D {
        (v, ActView::Search)
    } else if is_printable(code) {
        (SessionView { search: typed_into(v.search, code), ..v }, ActView::Redraw)
    } else {
        (v, ActView::Nothing)
    }
}

/// The highlighted candidate takes the place of the typed prefix.
pub open spec fn candidate_taken(v: SessionView) -> SessionView {
    let d = v.doc;
    let row = d.caret.row;
    let col = d.caret.col;
    let from = if v.comp_start < col {
        v.comp_start
    } else {
        col
    };
    let d1 = doc_model::moved(d, doc_model::snapped(d.lines, doc_model::clamped_row(d.lines, row), from));
    let d2 = with_anchor(d1, true);
    let d3 = doc_model::moved(d2, doc_model::snapped(d2.lines, doc_model::clamped_row(d2.lines, row), col));
    no_popup(with_doc(v, doc_model::inserted(d3, v.comp[v.comp_sel].0)))
}

/// Candidates are wanted at the caret: behind a dot, or once a prefix is typed.
pub open spec fn wants_candidates(d: DocView) -> bool {
    let line = d.lines[d.caret.row];
    let ctx = complete::context_at(line, text::index_at(line, d.caret.col));
    match ctx.kind {
        ContextKind::Field(_) => true,
        ContextKind::Nothing => false,
        _ => ctx.prefix.len() > 0,
    }
}

/// A character typed into the document.
pub open spec fn document_char(v: SessionView, code: u32) -> (SessionView, ActView) {
    let d = v.doc;
    let after = if code == 0x08 {
        doc_model::erased_left(d, doc_model::left_of(d.lines, d.caret))
    } else if code == 0x0D {
        doc_model::inserted(d, "\n"@)
    } else if code == 0x09 {
        doc_model::inserted(d, "  "@)
    } else {
        match char_with(code) {
            Some(c) => doc_model::typed(d, c),
            None => d,
        }
    };
    if code == 0x08 || is_printable(code) {
        if wants_candidates(after) {
            (with_doc(v, after), ActView::Complete)
        } else {
            (no_popup(with_doc(v, after)), ActView::Edited)
        }
    } else if code == 0x0D || code == 0x09 {
        (no_popup(with_doc(v, after)), ActView::Edited)
    } else {
        (v, ActView::Nothing)
    }
}

/// What a character does.
pub open spec fn char_step(v: SessionView, code: u32) -> (SessionView, ActView) {
    if v.find_active {
        palette_char(v, code)
    } else if v.search_active {
        search_char(v, code)
    } else if v.comp.len() > 0 && (code == 0x09 || code == 0x0D) {
        (candidate_taken(v), ActView::Edited)
    } else {
        document_char(v, code)
    }
}

/// What a menu command does.
pub open spec fn command_step(v: SessionView, id: u16) -> (SessionView, ActView) {
    if id == 0x100 {
        (v, ActView::NewFile)
    } else if id == 0x101 {
        (v, ActView::OpenFile)
    } else if id == 0x102 {
        (v, ActView::SaveFile)
    } else if id == 0x103 {
        (v, ActView::SaveFileAs)
    } else if id == 0x104 {
        (v, ActView::Export)
    } else if id == 0x105 {
        (v, ActView::Exit)
    } else if id == 0x110 {
        undo_step(v)
    } else if id == 0x111 {
        redo_step(v)
    } else if id == 0x112 {
        cut_step(v)
    } else if id == 0x113 {
        copy_step(v)
    } else if id == 0x114 {
        (v, ActView::Paste)
    } else if id == 0x115 {
        (with_doc(v, all_selected(v.doc)), ActView::Redraw)
    } else if id == 0x120 {
        (v, ActView::Build)
    } else if id == 0x121 {
        (v, ActView::Run)
    } else if id >= 0x200 {
        (v, ActView::OpenRecent(id - 0x200))
    } else {
        (v, ActView::Nothing)
    }
}

/// A reply's part in the session: taken in where it answers the latest request, and
/// whether it was.
pub open spec fn reply_step(v: SessionView, id: u64, r: ReplyView) -> (SessionView, bool) {
    match r {
        ReplyView::Check(d) => if id == v.pending.check {
            (SessionView { diags: d, ..v }, true)
        } else {
            (v, false)
        },
        ReplyView::Listing(rows) => if id == v.pending.listing {
            (SessionView { rows, ..v }, true)
        } else {
            (v, false)
        },
        ReplyView::Card(m) => if id == v.pending.card {
            (SessionView { card: m, ..v }, true)
        } else {
            (v, false)
        },
        ReplyView::Completions { items, replace_start } => if id == v.pending.complete {
            (SessionView { comp: items, comp_sel: 0, comp_start: replace_start, ..v }, true)
        } else {
            (v, false)
        },
        _ => (v, false),
    }
}

/// Text with its line ends as the document has them.
pub open spec fn with_line_feeds(t: Seq<char>) -> Seq<char> {
    text::replace(text::replace(t, "\r\n"@, "\n"@), "\r"@, "\n"@)
}

// ── the session ─────────────────────────────────────────────────────────────

/// The status line of a session without a knowledge base.
pub const NO_KNOWLEDGE: &'static str = "knowledge db not found — set WINKB_DB; editing + highlighting only";

/// The text that the editor opens with.
pub const STARTER: &'static str = "\
.globl main

APPEND MACRO chr            ; a user macro (MASM-style) — no code until used
  mov al, chr
  mov [rdi + rcx], al
  inc rcx
ENDM

banner BYTE \"WRASM: \", 0   ; global data — a string, shown with its bytes

main:
  sub rsp, 64               ; a buffer + scratch on the stack
  lea rdi, [rsp + 32]       ; rdi = &buffer
  xor rcx, rcx              ; rcx = index

  .for al = '0' to '9'      ; a counted loop: digits 0..9
    mov [rdi + rcx], al
    inc rcx
  .endfor

  APPEND '!'                ; macro invocations expand inline below
  APPEND '!'

  mov r13, rcx              ; the byte count (saved before invoke clobbers rcx)
  invoke GetStdHandle, -11  ; STD_OUTPUT_HANDLE -> rax
  mov rsi, rax              ; rsi = stdout
  lea r12, [rsp + 24]       ; r12 = &bytesWritten
  invoke WriteFile, rsi, banner, 7, r12, 0  ; the global string
  invoke WriteFile, rsi, rdi, r13, r12, 0   ; the built buffer
  invoke ExitProcess, 0
";

/// The card that a session opens with.
pub const WELCOME: &'static str = "# RASM Studio\n\nType assembly on the left. As the caret moves over a **function**, **constant**, or **struct**, its card appears here.\n\nThe status bar shows the **machine-code bytes** of the caret's line. Press **F5** to assemble the whole buffer to a self-contained `.exe`.\n\nTry moving the caret onto `ExitProcess`.\n";

/// A session on a text before anything has happened: nothing is selected or to be
/// undone, nothing is shown, and no reply is awaited.
pub open spec fn fresh(t: Seq<char>) -> SessionView {
    SessionView {
        doc: doc_model::opened(text::split(t, '\n')),
        search: Seq::empty(),
        search_active: false,
        comp: Seq::empty(),
        comp_sel: 0,
        comp_start: 0,
        find_active: false,
        find_query: Seq::empty(),
        find_sel: 0,
        find_labels: Seq::empty(),
        binds: Seq::empty(),
        notice: Seq::empty(),
        pending: Pending { check: 0, listing: 0, card: 0, complete: 0 },
        diags: Seq::empty(),
        rows: Seq::empty(),
        card: Seq::empty(),
    }
}

/// A session as the editor opens it.
pub open spec fn started(t: Seq<char>, knows: bool) -> SessionView {
    let s = fresh(text::trim_end(t));
    let lines = s.doc.lines;
    SessionView {
        doc: doc_model::moved(
            s.doc,
            doc_model::snapped(lines, doc_model::clamped_row(lines, 2), 2),
        ),
        binds: includes::sorted_pairs(decls::com_objects(text::lines(text::trim_end(t)))),
        notice: if knows {
            Seq::empty()
        } else {
            NO_KNOWLEDGE@
        },
        card: WELCOME@,
        ..s
    }
}

/// `char::from_u32`: the character with a code, `None` where the code lies outside
/// the range of characters or among the surrogates.
#[verifier::external_body]
fn char_of(code: u32) -> (r: Option<char>)
    ensures
        r == char_with(code),
{
    char::from_u32(code)
}

pub proof fn lemma_sound_is_placed(d: &Doc)
    requires
        d.sound(),
    ensures
        d.placed(),
        d.anchored(),
{
    let v = d@;
    assert forall|i: int| 0 <= i < v.undo.len() implies doc_model::good_snap(#[trigger] v.undo[i], false) by {
        assert(doc_model::good_snap(v.undo[i], true));
    }
    assert forall|i: int| 0 <= i < v.redo.len() implies doc_model::good_snap(#[trigger] v.redo[i], false) by {
        assert(doc_model::good_snap(v.redo[i], true));
    }
}

impl Session {
    /// The document is sound, and a popup has a highlighted candidate.
    pub open spec fn wf(&self) -> bool {
        &&& self.doc.sound()
        &&& self.comp@.len() > 0 ==> self.comp_sel < self.comp@.len()
    }

    /// A session on a text.
    pub fn new(text: &str) -> (r: Session)
        ensures
            r.wf(),
            r@ == fresh(text@),
    {
        proof {
            reveal_strlit("");
        }
        let r = Session {
            doc: Doc::from_str(text),
            search: Vec::new(),
            search_active: false,
            comp: Vec::new(),
            comp_sel: 0,
            comp_start: 0,
            find_active: false,
            find_query: Vec::new(),
            find_sel: 0,
            find_labels: Vec::new(),
            binds: Vec::new(),
            notice: "".to_owned(),
            pending: Pending { check: 0, listing: 0, card: 0, complete: 0 },
            diags: Vec::new(),
            rows: Vec::new(),
            card: "".to_owned(),
        };
        assert(r@ =~= fresh(text@));
        r
    }

    /// The session that the editor opens with: on a text, without the white space at its
    /// end, with the caret at the third column of the third row, and with the welcome
    /// card. `knows` tells whether there is a knowledge base.
    pub fn start(text: &str, knows: bool) -> (r: Session)
        ensures
            r.wf(),
            r@ == started(text@, knows),
    {
        let c = chars_of(text);
        let t = string_of(trimmed_end(&c));
        let mut r = Session::new(t.as_str());
        proof {
            lemma_sound_is_placed(&r.doc);
        }
        r.doc.set_caret(2, 2);
        r.binds = com_bindings(t.as_str());
        if !knows {
            r.notice = NO_KNOWLEDGE.to_owned();
        }
        r.card = WELCOME.to_owned();
        assert(tips::binds_view(r.binds@) =~= includes::pair_strings(r.binds@));
        assert(r@ =~= started(text@, knows));
        r
    }

    fn hide_popup(&mut self)
        ensures
            final(self)@ == no_popup(old(self)@),
            final(self).doc == old(self).doc,
            final(self).comp@.len() == 0,
    {
        self.comp = Vec::new();
        assert(search::completions_view(self.comp@) =~= Seq::empty());
    }

    fn open_palette(&mut self)
        requires
            old(self).wf(),
        ensures
            final(self).wf(),
            final(self)@ == palette_opened(old(self)@),
    {
        let t = self.doc.text();
        self.find_labels = classified(t.as_str());
        self.find_query = Vec::new();
        self.find_sel = 0;
        self.find_active = true;
        self.hide_popup();
        assert(self.find_query@ =~= Seq::empty());
    }

    fn palette_key(&mut self, vk: u16) -> (r: Act)
        requires
            old(self).wf(),
        ensures
            final(self).wf(),
            (final(self)@, r@) == palette_key(old(self)@, vk),
    {
        if vk == KEY_ESCAPE {
            self.find_active = false;
            Act::Redraw
        } else if vk == KEY_UP && self.find_sel > 0 {
            self.find_sel = self.find_sel - 1;
            Act::Redraw
        } else if vk == KEY_DOWN {
            let m = find_matches(&self.find_labels, &self.find_query);
            let n: usize = m.len();
            assert(outline::marks_view(m@).len() == n);
            if n > 0 && self.find_sel < n - 1 {
                self.find_sel = self.find_sel + 1;
                Act::Redraw
            } else {
                Act::Nothing
            }
        } else {
            Act::Nothing
        }
    }

    fn copy_text(&mut self) -> (r: Act)
        requires
            old(self).wf(),
        ensures
            final(self).wf(),
            (final(self)@, r@) == copy_step(old(self)@),
    {
        proof {
            lemma_sound_is_placed(&self.doc);
        }
        match self.doc.copy() {
            Some(t) => Act::Copy(t),
            None => Act::Redraw,
        }
    }

    fn cut_text(&mut self) -> (r: Act)
        requires
            old(self).wf(),
        ensures
            final(self).wf(),
            (final(self)@, r@) == cut_step(old(self)@),
    {
        proof {
            lemma_sound_is_placed(&self.doc);
        }
        match self.doc.cut() {
            Some(t) => Act::Cut(t),
            None => Act::Redraw,
        }
    }

    fn undo_edit(&mut self) -> (r: Act)
        requires
            old(self).wf(),
        ensures
            final(self).wf(),
            (final(self)@, r@) == undo_step(old(self)@),
    {
        proof {
            lemma_sound_is_placed(&self.doc);
        }
        if self.doc.undo() {
            Act::Edited
        } else {
            Act::Redraw
        }
    }

    fn redo_edit(&mut self) -> (r: Act)
        requires
            old(self).wf(),
        ensures
            final(self).wf(),
            (final(self)@, r@) == redo_step(old(self)@),
    {
        proof {
            lemma_sound_is_placed(&self.doc);
        }
        if self.doc.redo() {
            Act::Edited
        } else {
            Act::Redraw
        }
    }

    fn control_key(&mut self, vk: u16, shift: bool) -> (r: Act)
        requires
            old(self).wf(),
        ensures
            final(self).wf(),
            (final(self)@, r@) == control_key(old(self)@, vk, shift),
    {
        if vk == KEY_F {
            self.search_active = true;
            Act::Redraw
        } else if vk == KEY_G {
            self.open_palette();
            Act::Redraw
        } else if vk == KEY_A {
            proof {
                lemma_sound_is_placed(&self.doc);
            }
            self.doc.select_all();
            Act::Redraw
        } else if vk == KEY_C {
            self.copy_text()
        } else if vk == KEY_X {
            self.cut_text()
        } else if vk == KEY_V {
            Act::Paste
        } else if vk == KEY_Y || (vk == KEY_Z && shift) {
            self.redo_edit()
        } else if vk == KEY_Z {
            self.undo_edit()
        } else if vk == KEY_N {
            Act::NewFile
        } else if vk == KEY_O {
            Act::OpenFile
        } else if vk == KEY_S && shift {
            Act::SaveFileAs
        } else if vk == KEY_S {
            Act::SaveFile
        } else {
            Act::Ignored
        }
    }

    fn plain_key(&mut self, vk: u16, shift: bool) -> (r: Act)
        requires
            old(self).wf(),
        ensures
            final(self).wf(),
            (final(self)@, r@) == plain_key(old(self)@, vk, shift),
    {
        proof {
            lemma_sound_is_placed(&self.doc);
        }
        if vk == KEY_LEFT || vk == KEY_RIGHT || vk == KEY_UP || vk == KEY_DOWN || vk == KEY_HOME
            || vk == KEY_END || vk == KEY_PRIOR || vk == KEY_NEXT {
            if shift {
                self.doc.start_selection();
            } else {
                self.doc.clear_selection();
            }
            proof {
                lemma_sound_is_placed(&self.doc);
            }
        }
        assert(self@.doc == if moves_caret(vk) {
            with_anchor(old(self)@.doc, shift)
        } else {
            old(self)@.doc
        });
        if vk == KEY_LEFT {
            self.doc.move_left();
            Act::Moved
        } else if vk == KEY_RIGHT {
            self.doc.move_right();
            Act::Moved
        } else if vk == KEY_UP {
            self.doc.move_up();
            Act::Moved
        } else if vk == KEY_DOWN {
            self.doc.move_down();
            Act::Moved
        } else if vk == KEY_HOME {
            self.doc.home();
            Act::Moved
        } else if vk == KEY_END {
            self.doc.end();
            Act::Moved
        } else if vk == KEY_PRIOR {
            Act::PageUp
        } else if vk == KEY_NEXT {
            Act::PageDown
        } else if vk == KEY_DELETE {
            self.doc.delete_forward();
            Act::Edited
        } else if vk == KEY_F5 {
            Act::Build
        } else if vk == KEY_F6 {
            Act::Run
        } else if vk == KEY_F12 {
            Act::Snapshot
        } else {
            Act::Ignored
        }
    }

    /// A navigation or command key. Characters come through [`Session::on_char`].
    pub fn on_key(&mut self, vk: u16, ctrl: bool, shift: bool) -> (r: Act)
        requires
            old(self).wf(),
        ensures
            final(self).wf(),
            (final(self)@, r@) == key_step(old(self)@, vk, ctrl, shift),
    {
        if self.find_active {
            return self.palette_key(vk);
        }
        if self.search_active {
            if vk == KEY_ESCAPE {
                self.search_active = false;
                return Act::Redraw;
            }
            return Act::Nothing;
        }
        let n: usize = self.comp.len();
        assert(self@.comp.len() == n);
        if n > 0 && !ctrl {
            if vk == KEY_DOWN {
                let i: usize = self.comp_sel;
                self.comp_sel = if i + 1 < n {
                    i + 1
                } else {
                    0
                };
                proof {
                    lemma_next_in_ring(i as int, n as int);
                }
                return Act::Redraw;
            }
            if vk == KEY_UP {
                let i: usize = self.comp_sel;
                self.comp_sel = if i > 0 {
                    i - 1
                } else {
                    n - 1
                };
                proof {
                    lemma_next_in_ring(i as int, n as int);
                }
                return Act::Redraw;
            }
            if vk == KEY_ESCAPE {
                self.hide_popup();
                return Act::Redraw;
            }
            if vk == KEY_LEFT || vk == KEY_RIGHT || vk == KEY_HOME || vk == KEY_END || vk
                == KEY_PRIOR || vk == KEY_NEXT {
                self.hide_popup();
            }
        }
        if ctrl {
            self.control_key(vk, shift)
        } else {
            self.plain_key(vk, shift)
        }
    }

    fn take_label(&mut self) -> (r: Act)
        requires
            old(self).wf(),
        ensures
            final(self).wf(),
            (final(self)@, r@) == palette_taken(old(self)@),
    {
        let m = find_matches(&self.find_labels, &self.find_query);
        let ghost listed = listed_marks(self@);
        assert(outline::marks_view(m@).len() == m@.len());
        self.find_active = false;
        if self.find_sel < m.len() {
            let l = &m[self.find_sel];
            assert(listed[self.find_sel as int] == l@);
            proof {
                lemma_sound_is_placed(&self.doc);
            }
            self.doc.clear_selection();
            self.doc.set_caret(l.line, 0);
            let mut t = "went to ".to_owned();
            t.append(l.name.as_str());
            t.append(" (line ");
            push_dec(&mut t, l.line as i128 + 1);
            t.append(")");
            self.notice = t;
            Act::Moved
        } else {
            Act::Redraw
        }
    }

    fn palette_char(&mut self, code: u32) -> (r: Act)
        requires
            old(self).wf(),
        ensures
            final(self).wf(),
            (final(self)@, r@) == palette_char(old(self)@, code),
    {
        if code == 0x08 {
            drop_char(&mut self.find_query);
            self.find_sel = 0;
            Act::Redraw
        } else if code == 0x0D {
            self.take_label()
        } else if code == 0x1B {
            self.find_active = false;
            Act::Redraw
        } else if code >= 0x20 && code != 0x7F {
            match char_of(code) {
                Some(c) => {
                    self.find_query.push(c);
                    self.find_sel = 0;
                },
                None => {},
            }
            Act::Redraw
        } else {
            Act::Nothing
        }
    }

    fn search_char(&mut self, code: u32) -> (r: Act)
        requires
            old(self).wf(),
        ensures
            final(self).wf(),
            (final(self)@, r@) == search_char(old(self)@, code),
    {
        if code == 0x08 {
            drop_char(&mut self.search);
            Act::Redraw
        } else if code == 0x0D {
            Act::Search
        } else if code >= 0x20 && code != 0x7F {
            match char_of(code) {
                Some(c) => {
                    self.search.push(c);
                },
                None => {},
            }
            Act::Redraw
        } else {
            Act::Nothing
        }
    }

    fn accept_completion(&mut self)
        requires
            old(self).wf(),
            old(self).comp@.len() > 0,
        ensures
            final(self).wf(),
            final(self)@ == candidate_taken(old(self)@),
    {
        proof {
            lemma_sound_is_placed(&self.doc);
        }
        let name = self.comp[self.comp_sel].name.clone();
        let row: usize = self.doc.caret.row;
        let col: usize = self.doc.caret.col;
        proof {
            self.doc.lemma_caret_is_shown();
        }
        let from: usize = if self.comp_start < col {
            self.comp_start
        } else {
            col
        };
        self.doc.set_caret(row, from);
        self.doc.start_selection();
        self.doc.set_caret(row, col);
        proof {
            lemma_sound_is_placed(&self.doc);
        }
        self.doc.insert(name.as_str());
        self.hide_popup();
    }

    fn wants_completion(&self) -> (r: bool)
        requires
            self.wf(),
        ensures
            r == wants_candidates(self@.doc),
    {
        proof {
            lemma_sound_is_placed(&self.doc);
            self.doc.lemma_caret_is_shown();
        }
        let ctx = context(self.doc.line(self.doc.caret.row), self.doc.caret.col);
        match &ctx.kind {
            CompletionKind::Field { .. } => true,
            CompletionKind::Nothing => false,
            _ => {
                let p = chars_of(ctx.prefix.as_str());
                p.len() > 0
            },
        }
    }

    fn document_char(&mut self, code: u32) -> (r: Act)
        requires
            old(self).wf(),
        ensures
            final(self).wf(),
            (final(self)@, r@) == document_char(old(self)@, code),
    {
        proof {
            lemma_sound_is_placed(&self.doc);
        }
        if code == 0x08 {
            self.doc.backspace();
        } else if code == 0x0D {
            self.doc.insert("\n");
        } else if code == 0x09 {
            self.doc.insert("  ");
        } else if code >= 0x20 && code != 0x7F {
            match char_of(code) {
                Some(c) => {
                    self.doc.type_char(c);
                },
                None => {},
            }
        } else {
            return Act::Nothing;
        }
        if code == 0x08 || (code >= 0x20 && code != 0x7F) {
            if self.wants_completion() {
                return Act::Complete;
            }
        }
        self.hide_popup();
        Act::Edited
    }

    /// A character from the keyboard: to the palette, the search box, the popup or
    /// the document.
    pub fn on_char(&mut self, code: u32) -> (r: Act)
        requires
            old(self).wf(),
        ensures
            final(self).wf(),
            (final(self)@, r@) == char_step(old(self)@, code),
    {
        assert(self@.comp.len() == self.comp@.len());
        if self.find_active {
            self.palette_char(code)
        } else if self.search_active {
            self.search_char(code)
        } else if self.comp.len() > 0 && (code == 0x09 || code == 0x0D) {
            self.accept_completion();
            Act::Edited
        } else {
            self.document_char(code)
        }
    }

    /// A menu command.
    pub fn on_command(&mut self, id: u16) -> (r: Act)
        requires
            old(self).wf(),
        ensures
            final(self).wf(),
            (final(self)@, r@) == command_step(old(self)@, id),
    {
        match id {
            0x100 => Act::NewFile,
            0x101 => Act::OpenFile,
            0x102 => Act::SaveFile,
            0x103 => Act::SaveFileAs,
            0x104 => Act::Export,
            0x105 => Act::Exit,
            0x110 => self.undo_edit(),
            0x111 => self.redo_edit(),
            0x112 => self.cut_text(),
            0x113 => self.copy_text(),
            0x114 => Act::Paste,
            0x115 => {
                proof {
                    lemma_sound_is_placed(&self.doc);
                }
                self.doc.select_all();
                Act::Redraw
            },
            0x120 => Act::Build,
            0x121 => Act::Run,
            _ => {
                if id >= 0x200 {
                    Act::OpenRecent((id - 0x200) as usize)
                } else {
                    Act::Nothing
                }
            },
        }
    }

    /// Puts a text from the clipboard in at the caret, its line ends as the document
    /// has them.
    pub fn paste(&mut self, text: &str)
        requires
            old(self).wf(),
        ensures
            final(self).wf(),
            final(self)@ == with_doc(
                old(self)@,
                doc_model::inserted(old(self)@.doc, with_line_feeds(text@)),
            ),
    {
        proof {
            lemma_sound_is_placed(&self.doc);
        }
        let t = line_feeds(text);
        self.doc.insert(t.as_str());
    }

    /// Takes a reply in, where it answers the latest request, and says whether it
    /// did.
    pub fn apply_reply(&mut self, reply: Response) -> (r: bool)
        requires
            old(self).wf(),
        ensures
            final(self).wf(),
            (final(self)@, r) == reply_step(old(self)@, reply@.0, reply@.1),
    {
        match reply {
            Response::Check { id, diags } => {
                if id == self.pending.check {
                    self.diags = diags;
                    true
                } else {
                    false
                }
            },
            Response::Listing { id, rows } => {
                if id == self.pending.listing {
                    self.rows = rows;
                    true
                } else {
                    false
                }
            },
            Response::Card { id, markdown } => {
                if id == self.pending.card {
                    self.card = markdown;
                    true
                } else {
                    false
                }
            },
            Response::Completions { id, items, replace_start } => {
                if id == self.pending.complete {
                    self.comp = items;
                    self.comp_sel = 0;
                    self.comp_start = replace_start;
                    true
                } else {
                    false
                }
            },
            _ => false,
        }
    }
}

proof fn lemma_next_in_ring(i: int, n: int)
    requires
        0 <= i < n,
    ensures
        (i + 1) % n == if i + 1 < n {
            i + 1
        } else {
            0
        },
        (i + n - 1) % n == if i > 0 {
            i - 1
        } else {
            n - 1
        },
{
    if i + 1 < n {
        vstd::arithmetic::div_mod::lemma_small_mod((i + 1) as nat, n as nat);
    } else {
        vstd::arithmetic::div_mod::lemma_mod_self_0(n);
    }
    if i > 0 {
        vstd::arithmetic::div_mod::lemma_mod_add_multiples_vanish(i - 1, n);
        vstd::arithmetic::div_mod::lemma_small_mod((i - 1) as nat, n as nat);
    } else {
        vstd::arithmetic::div_mod::lemma_small_mod((n - 1) as nat, n as nat);
    }
}

fn drop_char(v: &mut Vec<char>)
    ensures
        final(v)@ == popped(old(v)@),
{
    let _last = v.pop();
    assert(v@ =~= popped(old(v)@));
}

/// Text with its line ends as the document has them.
pub fn line_feeds(text: &str) -> (r: String)
    ensures
        r@ == with_line_feeds(text@),
{
    let c = chars_of(text);
    let a = replace_text(&c, "\r\n", "\n");
    let b = replace_text(&a, "\r", "\n");
    string_of(&b)
}

} // verus!
