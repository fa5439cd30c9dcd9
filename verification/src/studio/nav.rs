//! The history of the assistant pane: visits, back and forward, as in a browser.
use crate::text;
use crate::text::{chars_of, is, string_of, without_prefix};
use vstd::prelude::*;

verus! {

/// A linear history of visits with a current position.
#[derive(Debug, Clone)]
pub struct History {
    entries: Vec<String>,
    pos: usize,
}

/// A history in mathematical terms.
pub struct HistoryView {
    pub entries: Seq<Seq<char>>,
    pub pos: int,
}

impl View for History {
    type V = HistoryView;

    closed spec fn view(&self) -> HistoryView {
        HistoryView { entries: text::strings(self.entries@), pos: self.pos as int }
    }
}

/// The query shown.
pub open spec fn current_of(h: HistoryView) -> Option<Seq<char>> {
    if 0 <= h.pos < h.entries.len() {
        Some(h.entries[h.pos])
    } else {
        None
    }
}

/// The history after a visit: what lay ahead is gone. A visit of what is shown
/// changes nothing.
pub open spec fn visited(h: HistoryView, query: Seq<char>) -> HistoryView {
    if current_of(h) == Some(query) {
        h
    } else {
        HistoryView {
            entries: h.entries.take(
                if h.entries.len() == 0 {
                    0
                } else {
                    h.pos + 1
                },
            ).push(query),
            pos: if h.entries.len() == 0 {
                0
            } else {
                h.pos + 1
            },
        }
    }
}

/// The history one step back.
pub open spec fn stepped_back(h: HistoryView) -> HistoryView {
    if h.pos > 0 {
        HistoryView { pos: h.pos - 1, ..h }
    } else {
        h
    }
}

/// The history one step forward.
pub open spec fn stepped_forward(h: HistoryView) -> HistoryView {
    if h.pos + 1 < h.entries.len() {
        HistoryView { pos: h.pos + 1, ..h }
    } else {
        h
    }
}

/// The position lies on an entry, or at the start of an empty history.
pub open spec fn placed_well(h: HistoryView) -> bool {
    0 <= h.pos && (h.pos < h.entries.len() || h.entries.len() == 0 && h.pos == 0)
}

impl Default for History {
    fn default() -> (r: Self)
        ensures
            r@ == (HistoryView { entries: Seq::empty(), pos: 0 }),
    {
        History::new()
    }
}

impl History {
    pub fn new() -> (r: History)
        ensures
            r@ == (HistoryView { entries: Seq::empty(), pos: 0 }),
    {
        let r = History { entries: Vec::new(), pos: 0 };
        assert(r@.entries =~= Seq::empty());
        r
    }

    /// The query shown, if any.
    pub fn current(&self) -> (r: Option<&str>)
        ensures
            text::opt_str(r) == current_of(self@),
    {
        if self.pos < self.entries.len() {
            Some(self.entries[self.pos].as_str())
        } else {
            None
        }
    }

    /// Visit `query`: what lay ahead is gone. A visit of what is shown changes
    /// nothing.
    pub fn visit(&mut self, query: &str)
        requires
            placed_well(old(self)@),
        ensures
            placed_well(final(self)@),
            final(self)@ == visited(old(self)@, query@),
    {
        let ghost h = self@;
        let shown = match self.current() {
            Some(c) => {
                let cc = chars_of(c);
                is(&cc, query)
            },
            None => false,
        };
        if shown {
            return;
        }
        let n: usize = if self.entries.len() == 0 {
            0
        } else {
            self.pos + 1
        };
        self.entries.truncate(n);
        assert(text::strings(self.entries@) =~= h.entries.take(n as int));
        self.entries.push(query.to_owned());
        assert(text::strings(self.entries@) =~= h.entries.take(n as int).push(query@));
        self.pos = n;
    }

    pub fn can_back(&self) -> (r: bool)
        ensures
            r == (self@.pos > 0),
    {
        self.pos > 0
    }

    pub fn can_forward(&self) -> (r: bool)
        requires
            placed_well(self@),
        ensures
            r == (self@.pos + 1 < self@.entries.len()),
    {
        self.entries.len() > 0 && self.pos < self.entries.len() - 1
    }

    /// Step back; the query then shown.
    pub fn back(&mut self) -> (r: Option<&str>)
        requires
            placed_well(old(self)@),
        ensures
            placed_well(final(self)@),
            final(self)@ == stepped_back(old(self)@),
            text::opt_str(r) == current_of(stepped_back(old(self)@)),
    {
        if self.pos > 0 {
            self.pos = self.pos - 1;
        }
        self.current()
    }

    /// Step forward; the query then shown.
    pub fn forward(&mut self) -> (r: Option<&str>)
        requires
            placed_well(old(self)@),
        ensures
            placed_well(final(self)@),
            final(self)@ == stepped_forward(old(self)@),
            text::opt_str(r) == current_of(stepped_forward(old(self)@)),
    {
        let n: usize = self.entries.len();
        if self.can_forward() {
            assert(self.pos < n);
            self.pos = self.pos + 1;
        }
        self.current()
    }
}

/// What is visited is shown.
pub proof fn law_visit_shows(h: HistoryView, query: Seq<char>)
    requires
        placed_well(h),
    ensures
        placed_well(visited(h, query)),
        current_of(visited(h, query)) == Some(query),
        visited(h, query).pos + 1 >= visited(h, query).entries.len() || visited(h, query) == h,
{
}

/// A step back from a visit leads to where it was made from.
pub proof fn law_back_undoes_visit(h: HistoryView, query: Seq<char>)
    requires
        placed_well(h),
        h.entries.len() > 0,
        current_of(h) != Some(query),
    ensures
        current_of(stepped_back(visited(h, query))) == current_of(h),
{
}

/// Back and forward undo each other, but at the ends.
pub proof fn law_back_and_forward(h: HistoryView)
    requires
        placed_well(h),
    ensures
        h.pos > 0 ==> stepped_forward(stepped_back(h)) == h,
        h.pos + 1 < h.entries.len() ==> stepped_back(stepped_forward(h)) == h,
{
}

/// What a link of the form `was:NAME` leads to.
pub fn nav_target(href: &str) -> (r: Option<String>)
    ensures
        text::opt_text(r) == text::strip_prefix(href@, "was:"@),
{
    let c = chars_of(href);
    match without_prefix(&c, "was:") {
        Some(t) => Some(string_of(t)),
        None => None,
    }
}

} // verus!
