//! The insert frame: a line with holes that the user steps through and fills.
use crate::text;
use crate::text::{
    bytes_in, char_index, chars_of, index_of, push_str, push_text, split_at_char, string_of,
    text_at, without_prefix,
};
use vstd::prelude::*;
use vstd::slice::slice_subrange;

verus! {

/// A hole of the inserted line: `text[start..end]` is its value. With options it is
/// a choice, without it takes free text.
#[derive(Debug, Clone, PartialEq, Eq)]
pub struct Field {
    pub name: String,
    pub start: usize,
    pub end: usize,
    pub options: Vec<String>,
}

/// A hole in mathematical terms.
pub struct HoleView {
    pub name: Seq<char>,
    pub start: int,
    pub end: int,
    pub options: Seq<Seq<char>>,
}

impl View for Field {
    type V = HoleView;

    open spec fn view(&self) -> HoleView {
        HoleView {
            name: self.name@,
            start: self.start as int,
            end: self.end as int,
            options: text::strings(self.options@),
        }
    }
}

impl Field {
    pub fn is_dropdown(&self) -> (r: bool)
        ensures
            r == (self@.options.len() > 0),
    {
        self.options.len() > 0
    }
}

/// The views of holes.
pub open spec fn holes_view(v: Seq<Field>) -> Seq<HoleView> {
    Seq::new(v.len(), |i: int| v[i]@)
}

/// An inserted line with its holes.
#[derive(Debug, Clone)]
pub struct Snippet {
    /// The text as it stands.
    pub text: String,
    /// The holes in the order of the tab key.
    pub fields: Vec<Field>,
    /// Which hole has the focus.
    pub active: usize,
}

/// An inserted line in mathematical terms.
pub struct SnippetView {
    pub text: Seq<char>,
    pub fields: Seq<HoleView>,
    pub active: int,
}

impl View for Snippet {
    type V = SnippetView;

    open spec fn view(&self) -> SnippetView {
        SnippetView {
            text: self.text@,
            fields: holes_view(self.fields@),
            active: self.active as int,
        }
    }
}

/// The holes lie in the text, between characters, in order and apart.
pub open spec fn holes_fit(text: Seq<char>, fields: Seq<HoleView>) -> bool {
    &&& forall|i: int|
        0 <= i < fields.len() ==> 0 <= (#[trigger] fields[i]).start <= fields[i].end <= text::byte_len(
            text,
        ) && text::on_boundary(text, fields[i].start) && text::on_boundary(text, fields[i].end)
    &&& forall|i: int, j: int|
        0 <= i < j < fields.len() ==> (#[trigger] fields[i]).end <= (#[trigger] fields[j]).start
}

/// The value of a hole.
pub open spec fn hole_value(text: Seq<char>, f: HoleView) -> Seq<char> {
    text.subrange(text::index_at(text, f.start), text::index_at(text, f.end))
}

// ── reading a frame ─────────────────────────────────────────────────────────

/// What an unfilled hole shows.
pub open spec fn shown_name(name: Seq<char>) -> Seq<char> {
    "<"@ + name + ">"@
}

/// The hole that `inner` describes: its name, and its options for a choice.
pub open spec fn hole_of(inner: Seq<char>) -> Option<(Seq<char>, Seq<Seq<char>>)> {
    match text::strip_prefix(inner, "field:"@) {
        Some(name) => Some((name, Seq::empty())),
        None => match text::strip_prefix(inner, "select:"@) {
            Some(rest) => {
                let p = text::find(rest, '|');
                if p < rest.len() {
                    Some((rest.take(p), text::split(rest.skip(p + 1), ',')))
                } else {
                    None
                }
            },
            None => None,
        },
    }
}

/// Where the hole that opens at `i` closes; negative where none opens there.
pub open spec fn hole_end(s: Seq<char>, i: int) -> int {
    if text::occurs_at(s, "{{"@, i) {
        text::find_text_from(s, "}}"@, i + 2)
    } else {
        -1
    }
}

/// What a hole shows at first: its first option, or its name.
pub open spec fn first_value(name: Seq<char>, options: Seq<Seq<char>>) -> Seq<char> {
    if options.len() > 0 {
        options[0]
    } else {
        shown_name(name)
    }
}

/// The frame `s` from `i` on, behind the text and the holes so far.
pub open spec fn frame_from(s: Seq<char>, i: int, text: Seq<char>, fields: Seq<HoleView>) -> (
    Seq<char>,
    Seq<HoleView>,
)
    decreases s.len() - i,
    via frame_from_decreases
{
    if i < 0 || i >= s.len() {
        (text, fields)
    } else {
        let e = hole_end(s, i);
        match hole_of(s.subrange(i + 2, e)) {
            Some((name, options)) => if e >= 0 {
                let t = text + first_value(name, options);
                frame_from(
                    s,
                    e + 2,
                    t,
                    fields.push(
                        HoleView {
                            name,
                            start: text::byte_len(text) as int,
                            end: text::byte_len(t) as int,
                            options,
                        },
                    ),
                )
            } else {
                frame_from(s, i + 1, text.push(s[i]), fields)
            },
            None => frame_from(s, i + 1, text.push(s[i]), fields),
        }
    }
}

#[via_fn]
proof fn frame_from_decreases(s: Seq<char>, i: int, text: Seq<char>, fields: Seq<HoleView>) {
    if 0 <= i < s.len() {
        text::lemma_find_text_from(s, "}}"@, i + 2);
        reveal_strlit("}}");
    }
}

fn read_hole(inner: &[char]) -> (r: Option<(String, Vec<String>)>)
    ensures
        (match r {
            Some((n, o)) => Some((n@, text::strings(o@))),
            None => None,
        }) == hole_of(inner@),
{
    match without_prefix(inner, "field:") {
        Some(name) => {
            let o: Vec<String> = Vec::new();
            assert(text::strings(o@) =~= Seq::empty());
            return Some((string_of(name), o));
        },
        None => {},
    }
    match without_prefix(inner, "select:") {
        Some(rest) => {
            let p: usize = index_of(rest, '|');
            if p < rest.len() {
                let name = string_of(slice_subrange(rest, 0, p));
                let parts = split_at_char(slice_subrange(rest, p + 1, rest.len()), ',');
                let ghost all = text::slices(parts@);
                let mut o: Vec<String> = Vec::new();
                let mut i: usize = 0;
                assert(text::strings(o@) =~= Seq::empty());
                while i < parts.len()
                    invariant
                        all == text::slices(parts@),
                        i <= parts@.len(),
                        text::strings(o@) =~= all.take(i as int),
                    decreases parts@.len() - i,
                {
                    let t = string_of(parts[i]);
                    let ghost before = text::strings(o@);
                    o.push(t);
                    assert(text::strings(o@) =~= before.push(t@));
                    assert(all[i as int] == parts@[i as int]@);
                    i += 1;
                }
                assert(text::strings(o@) =~= all);
                return Some((name, o));
            }
            None
        },
        None => None,
    }
}

fn find_hole_end(s: &[char], i: usize) -> (r: Option<usize>)
    requires
        i < s@.len(),
    ensures
        r matches Some(e) ==> e == hole_end(s@, i as int) && i + 2 <= e && e + 2 <= s@.len(),
        r is None ==> hole_end(s@, i as int) < 0,
{
    proof {
        reveal_strlit("{{");
        reveal_strlit("}}");
    }
    let open = chars_of("{{");
    let close = chars_of("}}");
    if !text_at(s, &open, i) {
        return None;
    }
    let n: usize = s.len();
    let mut e: usize = i + 2;
    while e < n
        invariant
            n == s@.len(),
            close@ == "}}"@,
            close@.len() == 2,
            i + 2 <= e <= n,
            text::occurs_at(s@, "{{"@, i as int),
            text::find_text_from(s@, "}}"@, i + 2) == text::find_text_from(s@, "}}"@, e as int),
        decreases n - e,
    {
        if text_at(s, &close, e) {
            return Some(e);
        }
        e += 1;
    }
    None
}

proof fn lemma_fit_push(text: Seq<char>, more: Seq<char>, fields: Seq<HoleView>, h: HoleView)
    requires
        holes_fit(text, fields),
        h.start == text::byte_len(text),
        h.end == text::byte_len(text + more),
    ensures
        holes_fit(text + more, fields.push(h)),
        holes_fit(text + more, fields),
{
    let t = text + more;
    text::lemma_byte_len_concat(text, more);
    let w = fields.push(h);
    text::lemma_offset_of_end(text);
    lemma_grown(text, more, text::byte_len(text) as int);
    text::lemma_offset_of_end(t);
    assert forall|i: int| 0 <= i < w.len() implies 0 <= (#[trigger] w[i]).start <= w[i].end
        <= text::byte_len(t) && text::on_boundary(t, w[i].start) && text::on_boundary(t, w[i].end) by {
        if i < fields.len() {
            assert(w[i] == fields[i]);
            lemma_grown(text, more, fields[i].start);
            lemma_grown(text, more, fields[i].end);
        }
    }
    assert forall|i: int| 0 <= i < fields.len() implies 0 <= (#[trigger] fields[i]).start
        <= fields[i].end <= text::byte_len(t) && text::on_boundary(t, fields[i].start) && text::on_boundary(
        t,
        fields[i].end,
    ) by {
        assert(w[i] == fields[i]);
    }
}

/// A boundary stays one when the text grows at its end.
proof fn lemma_grown(text: Seq<char>, more: Seq<char>, b: int)
    requires
        text::on_boundary(text, b),
    ensures
        text::on_boundary(text + more, b),
        text::index_at(text + more, b) == text::index_at(text, b),
{
    let n = text::index_at(text, b);
    text::lemma_index_at(text, b);
    assert((text + more).take(n) =~= text.take(n));
    text::lemma_index_of_offset(text + more, n);
}

impl Snippet {
    /// Read a frame: each hole shows its first option, or its name.
    pub fn from_frame(frame: &str) -> (r: Snippet)
        ensures
            r@.text == frame_from(frame@, 0, Seq::empty(), Seq::empty()).0,
            r@.fields == frame_from(frame@, 0, Seq::empty(), Seq::empty()).1,
            r@.active == 0,
            holes_fit(r@.text, r@.fields),
    {
        let s = chars_of(frame);
        let ghost want = frame_from(frame@, 0, Seq::empty(), Seq::empty());
        let mut text: Vec<char> = Vec::new();
        let mut fields: Vec<Field> = Vec::new();
        let mut i: usize = 0;
        assert(text@ =~= Seq::empty());
        assert(holes_view(fields@) =~= Seq::empty());
        while i < s.len()
            invariant
                s@ == frame@,
                i <= s@.len(),
                want == frame_from(s@, i as int, text@, holes_view(fields@)),
                holes_fit(text@, holes_view(fields@)),
            decreases s@.len() - i,
        {
            let ghost t0 = text@;
            let ghost f0 = holes_view(fields@);
            let mut hole: Option<(String, Vec<String>)> = None;
            let mut end: usize = 0;
            match find_hole_end(&s, i) {
                Some(e) => {
                    hole = read_hole(slice_subrange(&s, i + 2, e));
                    end = e;
                },
                None => {},
            }
            match hole {
                Some((name, options)) => {
                    let before = string_of(&text);
                    let start: usize = bytes_in(before.as_str());
                    let first = if options.len() > 0 {
                        options[0].clone()
                    } else {
                        let mut m = "<".to_owned();
                        m.append(name.as_str());
                        m.append(">");
                        m
                    };
                    let ghost v = first@;
                    assert(v == first_value(name@, text::strings(options@)));
                    push_str(&mut text, first.as_str());
                    let after = string_of(&text);
                    let f = Field { name, start, end: bytes_in(after.as_str()), options };
                    fields.push(f);
                    assert(holes_view(fields@) =~= f0.push(f@));
                    proof {
                        lemma_fit_push(t0, v, f0, f@);
                    }
                    i = end + 2;
                },
                None => {
                    text.push(s[i]);
                    proof {
                        assert(text@ =~= t0 + seq![s@[i as int]]);
                        lemma_fit_push(
                            t0,
                            seq![s@[i as int]],
                            f0,
                            HoleView {
                                name: Seq::empty(),
                                start: text::byte_len(t0) as int,
                                end: text::byte_len(t0 + seq![s@[i as int]]) as int,
                                options: Seq::empty(),
                            },
                        );
                    }
                    i += 1;
                },
            }
        }
        Snippet { text: string_of(&text), fields, active: 0 }
    }

    /// The hole with the focus, if any.
    pub fn active_field(&self) -> (r: Option<&Field>)
        ensures
            (match r {
                Some(f) => Some(f@),
                None => None,
            }) == if self@.active < self@.fields.len() {
                Some(self@.fields[self@.active])
            } else {
                None
            },
    {
        if self.active < self.fields.len() {
            Some(&self.fields[self.active])
        } else {
            None
        }
    }

    /// The value of the hole with the focus.
    pub fn active_value(&self) -> (r: String)
        requires
            holes_fit(self@.text, self@.fields),
        ensures
            r@ == if self@.active < self@.fields.len() {
                hole_value(self@.text, self@.fields[self@.active])
            } else {
                Seq::empty()
            },
    {
        if self.active < self.fields.len() {
            assert(self@.fields[self@.active] == self.fields@[self.active as int]@);
            value_text(self.text.as_str(), &self.fields[self.active])
        } else {
            proof {
                reveal_strlit("");
                assert(""@ =~= Seq::<char>::empty());
            }
            "".to_owned()
        }
    }

    /// Replace the value of the hole with the focus; later holes move along.
    pub fn set_active_value(&mut self, value: &str)
        requires
            holes_fit(old(self)@.text, old(self)@.fields),
        ensures
            final(self)@ == with_value(old(self)@, value@),
            holes_fit(final(self)@.text, final(self)@.fields),
    {
        if self.active >= self.fields.len() {
            return;
        }
        let ghost v = self@;
        let k: usize = self.active;
        assert(v.fields[k as int] == self.fields@[k as int]@);
        let s = chars_of(self.text.as_str());
        let a: usize = char_index(&s, self.fields[k].start);
        let b: usize = char_index(&s, self.fields[k].end);
        proof {
            law_set_value(v, value@);
            lemma_hole_order(v.text, v.fields, k as int);
        }
        let mut t = string_of(slice_subrange(&s, 0, a));
        t.append(value);
        push_text(&mut t, slice_subrange(&s, b, s.len()));
        let ghost w = with_value(v, value@);
        assert(t@ == w.text);
        let total: usize = bytes_in(t.as_str());
        let old_end: usize = self.fields[k].end;
        let new_end: usize = self.fields[k].start + bytes_in(value);
        let f = &mut self.fields[k];
        f.end = new_end;
        let n: usize = self.fields.len();
        let mut j: usize = k + 1;
        while j < n
            invariant
                holes_fit(v.text, v.fields),
                holes_fit(w.text, w.fields),
                w == with_value(v, value@),
                n == self.fields@.len(),
                n == v.fields.len(),
                k < j <= n,
                v.active == k,
                old_end == v.fields[k as int].end,
                new_end == w.fields[k as int].end,
                new_end == v.fields[k as int].start + text::byte_len(value@),
                total == text::byte_len(w.text),
                self.active == k,
                self.text@ == v.text,
                forall|x: int| 0 <= x < j ==> (#[trigger] self.fields@[x])@ == w.fields[x],
                forall|x: int| j <= x < n ==> (#[trigger] self.fields@[x])@ == v.fields[x],
            decreases n - j,
        {
            assert(self.fields@[j as int]@ == v.fields[j as int]);
            assert(v.fields[k as int].end <= v.fields[j as int].start);
            assert(w.fields[j as int].end <= text::byte_len(w.text));
            let start: usize = (self.fields[j].start - old_end) + new_end;
            let end: usize = (self.fields[j].end - old_end) + new_end;
            let f = &mut self.fields[j];
            f.start = start;
            f.end = end;
            assert(self.fields@[j as int]@ == w.fields[j as int]);
            j += 1;
        }
        self.text = t;
        assert(holes_view(self.fields@) =~= w.fields);
    }

    /// Move the focus to the next hole; whether there was one.
    pub fn next(&mut self) -> (r: bool)
        ensures
            r == (old(self)@.active + 1 < old(self)@.fields.len()),
            final(self)@ == (SnippetView {
                active: if r {
                    old(self)@.active + 1
                } else {
                    old(self)@.active
                },
                ..old(self)@
            }),
    {
        let n: usize = self.fields.len();
        if n > 0 && self.active < n - 1 {
            self.active = self.active + 1;
            true
        } else {
            false
        }
    }

    /// Move the focus to the previous hole; whether there was one.
    pub fn prev(&mut self) -> (r: bool)
        ensures
            r == (old(self)@.active > 0),
            final(self)@ == (SnippetView {
                active: if r {
                    old(self)@.active - 1
                } else {
                    0
                },
                ..old(self)@
            }),
    {
        if self.active > 0 {
            self.active = self.active - 1;
            true
        } else {
            false
        }
    }

    /// Whether no free-text hole still shows its name.
    pub fn is_complete(&self) -> (r: bool)
        requires
            holes_fit(self@.text, self@.fields),
        ensures
            r == all_filled(self@),
    {
        let ghost v = self@;
        let mut i: usize = 0;
        while i < self.fields.len()
            invariant
                v == self@,
                holes_fit(v.text, v.fields),
                i <= self.fields@.len(),
                forall|k: int| 0 <= k < i ==> filled(v.text, #[trigger] v.fields[k]),
            decreases self.fields@.len() - i,
        {
            assert(v.fields[i as int] == self.fields@[i as int]@);
            let f = &self.fields[i];
            if !f.is_dropdown() {
                let value = value_text(self.text.as_str(), f);
                let mut m = "<".to_owned();
                m.append(f.name.as_str());
                m.append(">");
                if value == m {
                    assert(!filled(v.text, v.fields[i as int]));
                    return false;
                }
            }
            i += 1;
        }
        true
    }

    /// The line to keep.
    pub fn finish(self) -> (r: String)
        ensures
            r@ == self@.text,
    {
        self.text
    }
}

/// A hole is filled: it is a choice, or no longer shows its name.
pub open spec fn filled(text: Seq<char>, f: HoleView) -> bool {
    f.options.len() > 0 || hole_value(text, f) != shown_name(f.name)
}

/// Every hole is filled.
pub open spec fn all_filled(v: SnippetView) -> bool {
    forall|k: int| 0 <= k < v.fields.len() ==> filled(v.text, #[trigger] v.fields[k])
}

fn value_text(text: &str, f: &Field) -> (r: String)
    requires
        0 <= f@.start <= f@.end <= text::byte_len(text@),
    ensures
        r@ == hole_value(text@, f@),
{
    let s = chars_of(text);
    let a: usize = char_index(&s, f.start);
    let b: usize = char_index(&s, f.end);
    proof {
        lemma_index_grows(s@, f.start as int, f.end as int);
    }
    string_of(slice_subrange(&s, a, b))
}

proof fn lemma_index_grows(s: Seq<char>, a: int, b: int)
    requires
        0 <= a <= b,
    ensures
        0 <= text::index_at(s, a) <= text::index_at(s, b) <= s.len(),
{
    text::lemma_index_at(s, a);
    text::lemma_index_at(s, b);
    if text::index_at(s, b) < text::index_at(s, a) {
        text::lemma_offset_grows(s, text::index_at(s, b) + 1, text::index_at(s, a));
    }
}

/// The line with the value of the hole in focus replaced: later holes move along.
pub open spec fn with_value(v: SnippetView, value: Seq<char>) -> SnippetView {
    if v.active >= v.fields.len() {
        v
    } else {
        let f = v.fields[v.active];
        let delta = f.start + text::byte_len(value) - f.end;
        SnippetView {
            text: v.text.take(text::index_at(v.text, f.start)) + value + v.text.skip(
                text::index_at(v.text, f.end),
            ),
            fields: Seq::new(
                v.fields.len(),
                |k: int|
                    if k < v.active {
                        v.fields[k]
                    } else if k == v.active {
                        HoleView { end: f.start + text::byte_len(value), ..f }
                    } else {
                        HoleView {
                            start: v.fields[k].start + delta,
                            end: v.fields[k].end + delta,
                            ..v.fields[k]
                        }
                    },
            ),
            ..v
        }
    }
}

proof fn lemma_hole_order(text: Seq<char>, fields: Seq<HoleView>, k: int)
    requires
        holes_fit(text, fields),
        0 <= k < fields.len(),
    ensures
        0 <= text::index_at(text, fields[k].start) <= text::index_at(text, fields[k].end) <= text.len(),
{
    lemma_index_grows(text, fields[k].start, fields[k].end);
}

/// A boundary behind the replaced part moves along with it.
proof fn lemma_moved_boundary(text: Seq<char>, a: int, b: int, value: Seq<char>, p: int)
    requires
        0 <= a <= b <= text.len(),
        text::on_boundary(text, p),
        text::offset_of(text, b) <= p,
    ensures
        ({
            let t = text.take(a) + value + text.skip(b);
            let q = p - text::offset_of(text, b) + text::offset_of(text, a) + text::byte_len(value);
            &&& b <= text::index_at(text, p) <= text.len()
            &&& text::on_boundary(t, q)
            &&& text::index_at(t, q) == text::index_at(text, p) - b + a + value.len()
        }),
{
    let t = text.take(a) + value + text.skip(b);
    let x = text::index_at(text, p);
    text::lemma_index_at(text, p);
    if x < b {
        text::lemma_offset_grows(text, x + 1, b);
    }
    let n = x - b + a + value.len() as int;
    assert(t.take(n) =~= text.take(a) + value + text.subrange(b, x));
    text::lemma_byte_len_concat(text.take(a) + value, text.subrange(b, x));
    text::lemma_byte_len_concat(text.take(a), value);
    text::lemma_byte_len_take(text, b, x);
    text::lemma_index_of_offset(t, n);
}

/// A boundary in front of the replaced part stays.
proof fn lemma_kept_boundary(text: Seq<char>, a: int, b: int, value: Seq<char>, p: int)
    requires
        0 <= a <= b <= text.len(),
        text::on_boundary(text, p),
        p <= text::offset_of(text, a),
    ensures
        ({
            let t = text.take(a) + value + text.skip(b);
            &&& 0 <= text::index_at(text, p) <= a
            &&& text::on_boundary(t, p)
            &&& text::index_at(t, p) == text::index_at(text, p)
        }),
{
    let t = text.take(a) + value + text.skip(b);
    let x = text::index_at(text, p);
    text::lemma_index_at(text, p);
    if x > a {
        text::lemma_offset_grows(text, a, x);
    }
    assert(t.take(x) =~= text.take(x));
    text::lemma_index_of_offset(t, x);
}

/// Replacing the value of the hole in focus keeps the holes in place: what was set
/// is read back, and every other hole keeps its value.
pub proof fn law_set_value(v: SnippetView, value: Seq<char>)
    requires
        holes_fit(v.text, v.fields),
        0 <= v.active < v.fields.len(),
    ensures
        holes_fit(with_value(v, value).text, with_value(v, value).fields),
        hole_value(with_value(v, value).text, with_value(v, value).fields[v.active]) == value,
        forall|k: int|
            0 <= k < v.fields.len() && k != v.active ==> hole_value(
                with_value(v, value).text,
                #[trigger] with_value(v, value).fields[k],
            ) == hole_value(v.text, v.fields[k]),
{
    let w = with_value(v, value);
    let f = v.fields[v.active];
    let a = text::index_at(v.text, f.start);
    let b = text::index_at(v.text, f.end);
    lemma_hole_order(v.text, v.fields, v.active);
    assert(text::offset_of(v.text, a) == f.start);
    assert(text::offset_of(v.text, b) == f.end);
    let t = w.text;
    text::lemma_byte_len_concat(v.text.take(a) + value, v.text.skip(b));
    text::lemma_byte_len_concat(v.text.take(a), value);
    assert(v.text =~= v.text.take(b) + v.text.skip(b));
    text::lemma_byte_len_concat(v.text.take(b), v.text.skip(b));
    lemma_kept_boundary(v.text, a, b, value, f.start);
    lemma_moved_boundary(v.text, a, b, value, f.end);
    assert(t.subrange(a, a + value.len()) =~= value);
    assert forall|k: int| 0 <= k < w.fields.len() implies 0 <= (#[trigger] w.fields[k]).start
        <= w.fields[k].end <= text::byte_len(t) && text::on_boundary(t, w.fields[k].start) && text::on_boundary(
        t,
        w.fields[k].end,
    ) && (k != v.active ==> hole_value(t, w.fields[k]) == hole_value(v.text, v.fields[k])) by {
        let g = v.fields[k];
        if k < v.active {
            assert(g.end <= f.start);
            lemma_kept_boundary(v.text, a, b, value, g.start);
            lemma_kept_boundary(v.text, a, b, value, g.end);
            lemma_index_grows(v.text, g.start, g.end);
            assert(hole_value(t, g) =~= hole_value(v.text, g));
        } else if k > v.active {
            assert(f.end <= g.start);
            lemma_moved_boundary(v.text, a, b, value, g.start);
            lemma_moved_boundary(v.text, a, b, value, g.end);
            lemma_index_grows(v.text, g.start, g.end);
            assert(hole_value(t, w.fields[k]) =~= hole_value(v.text, g));
        }
    }
    assert forall|i: int, j: int| 0 <= i < j < w.fields.len() implies (#[trigger] w.fields[i]).end
        <= (#[trigger] w.fields[j]).start by {
        assert(v.fields[i].end <= v.fields[j].start);
        assert(v.fields[i].start <= v.fields[i].end);
        if i < v.active && v.active < j {
            assert(v.fields[i].end <= f.start);
            assert(f.end <= v.fields[j].start);
        }
    }
}

} // verus!
