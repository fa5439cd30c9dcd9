//! The labels of a document, for the outline and for going to a definition.
use crate::studio::syntax;
use crate::text;
use crate::studio::syntax::{Raw, TokKind, raw_tokens};
use crate::text::{
    char_is_alpha, char_is_word, chars_of, first_word_of, is, is_ignoring_case, lines_of,
    string_of, to_lower, trimmed,
};
use vstd::prelude::*;
use vstd::slice::slice_subrange;

verus! {

/// The label that a line defines at its head.
pub open spec fn line_label(s: Seq<char>) -> Option<Seq<char>> {
    let t = syntax::char_tokens(s);
    if t.len() > 0 && t[0].0 == TokKind::Label {
        Some(s.subrange(t[0].1, t[0].2))
    } else {
        None
    }
}

/// The labels of the first `n` lines, each with its line.
pub open spec fn labels_among(v: Seq<Seq<char>>, n: int) -> Seq<(Seq<char>, int)>
    decreases n,
{
    if n <= 0 {
        Seq::empty()
    } else {
        match line_label(v[n - 1]) {
            Some(l) => labels_among(v, n - 1).push((l, n - 1)),
            None => labels_among(v, n - 1),
        }
    }
}

/// Every label of a text with its line.
pub open spec fn labels_of(t: Seq<char>) -> Seq<(Seq<char>, int)> {
    labels_among(text::lines(t), text::lines(t).len() as int)
}

/// The views of labels.
pub open spec fn labels_view(v: Seq<(String, usize)>) -> Seq<(Seq<char>, int)> {
    Seq::new(v.len(), |i: int| (v[i].0@, v[i].1 as int))
}

fn read_label(s: &[char]) -> (r: Option<String>)
    ensures
        text::opt_text(r) == line_label(s@),
{
    let raws = raw_tokens(s);
    let ghost v = syntax::lexemes(s@);
    assert(v.len() == raws@.len());
    assert(raws@.len() > 0 ==> syntax::lexemes_view(raws@)[0] == v[0]);
    assert(raws@.len() > 1 ==> syntax::lexemes_view(raws@)[1] == v[1]);
    if raws.len() >= 2 && raws[0].0 == Raw::Word && raws[1].0 == Raw::Punct && is(
        slice_subrange(s, raws[1].1, raws[1].2),
        ":",
    ) {
        assert(syntax::class_of(s@, v, 0) == TokKind::Label);
        Some(string_of(slice_subrange(s, raws[0].1, raws[0].2)))
    } else {
        proof {
            if v.len() > 0 {
                assert(syntax::class_of(s@, v, 0) != TokKind::Label);
            }
        }
        None
    }
}

/// Every label of `text` with its line, from 0, in order.
pub fn labels(text: &str) -> (r: Vec<(String, usize)>)
    ensures
        labels_view(r@) == labels_of(text@),
{
    let c = chars_of(text);
    let lv = lines_of(&c);
    let ghost all = text::lines(text@);
    let mut r: Vec<(String, usize)> = Vec::new();
    let mut i: usize = 0;
    assert(labels_view(r@) =~= Seq::empty());
    while i < lv.len()
        invariant
            all == text::lines(text@),
            text::slices(lv@) == all,
            i <= lv@.len(),
            labels_view(r@) == labels_among(all, i as int),
        decreases lv@.len() - i,
    {
        assert(all[i as int] == lv@[i as int]@);
        match read_label(lv[i]) {
            Some(l) => {
                let ghost before = labels_view(r@);
                let x = (l, i);
                r.push(x);
                assert(labels_view(r@) =~= before.push((x.0@, i as int)));
            },
            None => {},
        }
        i += 1;
    }
    r
}

/// The line of the first of the labels `v` from `k` on that is called `name`.
pub open spec fn definition(v: Seq<(Seq<char>, int)>, name: Seq<char>, k: int) -> Option<int>
    decreases v.len() - k,
{
    if k >= v.len() {
        None
    } else if v[k].0 == name {
        Some(v[k].1)
    } else {
        definition(v, name, k + 1)
    }
}

/// The line that a label is defined on.
pub fn line_of(text: &str, label: &str) -> (r: Option<usize>)
    ensures
        (match r {
            Some(n) => Some(n as int),
            None => None,
        }) == definition(labels_of(text@), label@, 0),
{
    let v = labels(text);
    let name = chars_of(label);
    let ghost all = labels_of(text@);
    assert(all.len() == v@.len());
    let mut k: usize = 0;
    while k < v.len()
        invariant
            all == labels_view(v@),
            all == labels_of(text@),
            name@ == label@,
            k <= v@.len(),
            definition(all, label@, 0) == definition(all, label@, k as int),
        decreases v@.len() - k,
    {
        assert(all[k as int] == (v@[k as int].0@, v@[k as int].1 as int));
        if is(&name, v[k].0.as_str()) {
            return Some(v[k].1);
        }
        k += 1;
    }
    None
}

/// Whether a label names code or data.
#[derive(Debug, Clone, Copy, PartialEq, Eq, Structural)]
pub enum LabelKind {
    Code,
    Data,
}

/// A label to go to.
#[derive(Debug, Clone, PartialEq, Eq)]
pub struct Label {
    pub name: String,
    pub line: usize,
    pub kind: LabelKind,
}

/// A label in mathematical terms.
pub struct LabelView {
    pub name: Seq<char>,
    pub line: int,
    pub kind: LabelKind,
}

impl View for Label {
    type V = LabelView;

    open spec fn view(&self) -> LabelView {
        LabelView { name: self.name@, line: self.line as int, kind: self.kind }
    }
}

/// The views of labels to go to.
pub open spec fn marks_view(v: Seq<Label>) -> Seq<LabelView> {
    Seq::new(v.len(), |i: int| v[i]@)
}

/// `s` without its leading dots.
pub open spec fn without_dots(s: Seq<char>) -> Seq<char> {
    s.skip(text::first_from(s, |c: char| c != '.', 0))
}

/// The first word of `s` is a data directive or type.
pub open spec fn data_word(s: Seq<char>) -> bool {
    let l = text::lower_all(without_dots(text::first_word(s)));
    l == "byte"@ || l == "sbyte"@ || l == "word"@ || l == "sword"@ || l == "dword"@
        || l == "sdword"@ || l == "qword"@ || l == "sqword"@ || l == "tbyte"@ || l == "wchar"@
        || l == "db"@ || l == "dw"@ || l == "dd"@ || l == "dq"@ || l == "dt"@ || l == "long"@
        || l == "quad"@ || l == "ascii"@ || l == "asciz"@ || l == "asciistring"@
        || l == "widestring"@ || l == "string"@ || l == "zero"@ || l == "skip"@ || l == "space"@
        || l == "single"@ || l == "double"@ || l == "real4"@ || l == "real8"@ || l == "real10"@
}

/// The text of the lexeme number `k`; empty where there is none.
pub open spec fn lexeme_text(s: Seq<char>, k: int) -> Seq<char> {
    let v = syntax::lexemes(s);
    if k < v.len() {
        s.subrange(v[k].1, v[k].2)
    } else {
        Seq::empty()
    }
}

/// A name: a letter or `_`, then letters, digits, `_`, `$` and `@`.
pub open spec fn name_shaped(s: Seq<char>) -> bool {
    &&& s.len() > 0
    &&& text::is_alpha(s[0]) || s[0] == '_'
    &&& forall|i: int|
        0 <= i < s.len() ==> (text::is_word_char(#[trigger] s[i]) || s[i] == '_' || s[i] == '$' || s[i]
            == '@')
}

/// A line that is neither blank nor a comment.
pub open spec fn has_content(s: Seq<char>) -> bool {
    let t = text::trim(s);
    t.len() > 0 && t[0] != ';' && t[0] != '#'
}

/// The first line with content from `i` on; the length of `v` where there is none.
pub open spec fn content_from(v: Seq<Seq<char>>, i: int) -> int
    decreases v.len() - i,
{
    if i >= v.len() {
        v.len() as int
    } else if has_content(v[i]) {
        i
    } else {
        content_from(v, i + 1)
    }
}

/// A label with a colon names data where its body, on this line or the next with
/// content, is a data directive.
pub open spec fn labels_data(v: Seq<Seq<char>>, i: int) -> bool {
    let s = v[i];
    let rest = text::trim(s.skip(syntax::lexemes(s)[1].2));
    if rest.len() > 0 {
        data_word(rest)
    } else {
        let n = content_from(v, i + 1);
        n < v.len() && data_word(v[n])
    }
}

pub open spec fn kind_of_data(data: bool) -> LabelKind {
    if data {
        LabelKind::Data
    } else {
        LabelKind::Code
    }
}

/// What the line `i` defines: a label with a colon, a `proc`, a `struct`, a `macro`,
/// an equate, or a data declaration.
pub open spec fn mark_of(v: Seq<Seq<char>>, i: int) -> Option<LabelView> {
    let s = v[i];
    let w0 = lexeme_text(s, 0);
    let w1 = lexeme_text(s, 1);
    let w2 = lexeme_text(s, 2);
    if syntax::lexemes(s).len() == 0 {
        None
    } else if line_label(s) is Some {
        Some(LabelView { name: line_label(s)->0, line: i, kind: kind_of_data(labels_data(v, i)) })
    } else if text::same_ignoring_case(w0, "proc"@) && name_shaped(w1) {
        Some(LabelView { name: w1, line: i, kind: LabelKind::Code })
    } else if text::same_ignoring_case(w0, "struct"@) && name_shaped(w1) {
        Some(LabelView { name: w1, line: i, kind: LabelKind::Data })
    } else if text::same_ignoring_case(w1, "macro"@) && name_shaped(w0) {
        Some(LabelView { name: w0, line: i, kind: LabelKind::Code })
    } else if (text::same_ignoring_case(w1, "equ"@) || w1 == "="@) && name_shaped(w0) {
        Some(LabelView { name: w0, line: i, kind: LabelKind::Data })
    } else if name_shaped(w0) && data_word(w1) && !text::same_ignoring_case(w2, "ptr"@) {
        Some(LabelView { name: w0, line: i, kind: LabelKind::Data })
    } else {
        None
    }
}

/// What the first `n` lines define.
pub open spec fn marks_among(v: Seq<Seq<char>>, n: int) -> Seq<LabelView>
    decreases n,
{
    if n <= 0 {
        Seq::empty()
    } else {
        match mark_of(v, n - 1) {
            Some(m) => marks_among(v, n - 1).push(m),
            None => marks_among(v, n - 1),
        }
    }
}

fn first_word_is_data(s: &[char]) -> (r: bool)
    ensures
        r == data_word(s@),
{
    let w = first_word_of(s);
    let mut i: usize = 0;
    while i < w.len()
        invariant_except_break
            i <= w@.len(),
            text::first_from(w@, |c: char| c != '.', 0) == text::first_from(w@, |c: char| c != '.', i as int),
        ensures
            i <= w@.len(),
            text::first_from(w@, |c: char| c != '.', 0) == i,
        decreases w@.len() - i,
    {
        if w[i] != '.' {
            break;
        }
        i += 1;
    }
    let l = to_lower(slice_subrange(w, i, w.len()));
    is(&l, "byte") || is(&l, "sbyte") || is(&l, "word") || is(&l, "sword")
        || is(&l, "dword") || is(&l, "sdword") || is(&l, "qword") || is(&l, "sqword")
        || is(&l, "tbyte") || is(&l, "wchar") || is(&l, "db") || is(&l, "dw") || is(&l, "dd")
        || is(&l, "dq") || is(&l, "dt") || is(&l, "long") || is(&l, "quad") || is(&l, "ascii")
        || is(&l, "asciz") || is(&l, "asciistring") || is(&l, "widestring") || is(&l, "string")
        || is(&l, "zero") || is(&l, "skip") || is(&l, "space") || is(&l, "single")
        || is(&l, "double") || is(&l, "real4") || is(&l, "real8") || is(&l, "real10")
}

fn is_name(s: &[char]) -> (r: bool)
    ensures
        r == name_shaped(s@),
{
    if s.len() == 0 || !(char_is_alpha(s[0]) || s[0] == '_') {
        return false;
    }
    let mut i: usize = 0;
    while i < s.len()
        invariant
            i <= s@.len(),
            forall|k: int|
                0 <= k < i ==> (text::is_word_char(#[trigger] s@[k]) || s@[k] == '_' || s@[k] == '$'
                    || s@[k] == '@'),
        decreases s@.len() - i,
    {
        if !(char_is_word(s[i]) || s[i] == '_' || s[i] == '$' || s[i] == '@') {
            assert(!(text::is_word_char(s@[i as int]) || s@[i as int] == '_' || s@[i as int] == '$'
                || s@[i as int] == '@'));
            return false;
        }
        i += 1;
    }
    true
}

fn next_content_line(v: &Vec<&[char]>, from: usize) -> (r: usize)
    requires
        from <= v@.len(),
    ensures
        r == content_from(text::slices(v@), from as int),
        r <= v@.len(),
{
    let ghost all = text::slices(v@);
    let mut i: usize = from;
    while i < v.len()
        invariant
            all == text::slices(v@),
            from <= i <= v@.len(),
            content_from(all, from as int) == content_from(all, i as int),
        decreases v@.len() - i,
    {
        assert(all[i as int] == v@[i as int]@);
        let t = trimmed(v[i]);
        if t.len() > 0 && t[0] != ';' && t[0] != '#' {
            return i;
        }
        i += 1;
    }
    i
}

fn lexeme_at<'a>(s: &'a [char], raws: &Vec<(Raw, usize, usize)>, k: usize) -> (r: &'a [char])
    requires
        syntax::lexemes_view(raws@) == syntax::lexemes(s@),
        forall|j: int| 0 <= j < raws@.len() ==> (#[trigger] raws@[j]).1 <= raws@[j].2 <= s@.len(),
    ensures
        r@ == lexeme_text(s@, k as int),
{
    assert(syntax::lexemes(s@).len() == raws@.len());
    if k < raws.len() {
        assert(syntax::lexemes_view(raws@)[k as int] == syntax::lexemes(s@)[k as int]);
        slice_subrange(s, raws[k].1, raws[k].2)
    } else {
        let e = slice_subrange(s, 0, 0);
        assert(e@ =~= Seq::empty());
        e
    }
}

fn mark(name: &[char], line: usize, kind: LabelKind) -> (r: Option<Label>)
    ensures
        r matches Some(l) && l@ == (LabelView { name: name@, line: line as int, kind }),
{
    Some(Label { name: string_of(name), line, kind })
}

fn classify_line(v: &Vec<&[char]>, i: usize) -> (r: Option<Label>)
    requires
        i < v@.len(),
    ensures
        (match r {
            Some(l) => Some(l@),
            None => None,
        }) == mark_of(text::slices(v@), i as int),
{
    let count: usize = v.len();
    let s = v[i];
    assert(text::slices(v@)[i as int] == s@);
    let raws = raw_tokens(s);
    assert(syntax::lexemes(s@).len() == raws@.len());
    if raws.len() == 0 {
        return None;
    }
    match read_label(s) {
        Some(name) => {
            assert(raws@.len() >= 2);
            assert(syntax::lexemes_view(raws@)[1] == syntax::lexemes(s@)[1]);
            let e: usize = raws[1].2;
            let rest = trimmed(slice_subrange(s, e, s.len()));
            let data = if rest.len() > 0 {
                first_word_is_data(rest)
            } else {
                let n: usize = next_content_line(v, i + 1);
                assert(n < v@.len() ==> text::slices(v@)[n as int] == v@[n as int]@);
                n < count && first_word_is_data(v[n])
            };
            let kind = if data {
                LabelKind::Data
            } else {
                LabelKind::Code
            };
            return Some(Label { name, line: i, kind });
        },
        None => {},
    }
    let w0 = lexeme_at(s, &raws, 0);
    let w1 = lexeme_at(s, &raws, 1);
    let w2 = lexeme_at(s, &raws, 2);
    if is_ignoring_case(w0, "proc") && is_name(w1) {
        return mark(w1, i, LabelKind::Code);
    }
    if is_ignoring_case(w0, "struct") && is_name(w1) {
        return mark(w1, i, LabelKind::Data);
    }
    if is_ignoring_case(w1, "macro") && is_name(w0) {
        return mark(w0, i, LabelKind::Code);
    }
    if (is_ignoring_case(w1, "equ") || is(w1, "=")) && is_name(w0) {
        return mark(w0, i, LabelKind::Data);
    }
    if is_name(w0) && first_word_is_data(w1) && !is_ignoring_case(w2, "ptr") {
        return mark(w0, i, LabelKind::Data);
    }
    None
}

/// Every label to go to in `text`, of code or of data, in order.
pub fn classified(text: &str) -> (r: Vec<Label>)
    ensures
        marks_view(r@) == marks_among(text::lines(text@), text::lines(text@).len() as int),
{
    let c = chars_of(text);
    let lv = lines_of(&c);
    let ghost all = text::lines(text@);
    let mut r: Vec<Label> = Vec::new();
    let mut i: usize = 0;
    assert(marks_view(r@) =~= Seq::empty());
    while i < lv.len()
        invariant
            all == text::lines(text@),
            text::slices(lv@) == all,
            i <= lv@.len(),
            marks_view(r@) == marks_among(all, i as int),
        decreases lv@.len() - i,
    {
        match classify_line(&lv, i) {
            Some(l) => {
                let ghost before = marks_view(r@);
                r.push(l);
                assert(marks_view(r@) =~= before.push(l@));
            },
            None => {},
        }
        i += 1;
    }
    r
}

} // verus!
