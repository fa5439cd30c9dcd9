//! The shape of one source line: comments, keywords, labels, comma lists and
//! call sites.
use crate::text;
use crate::text::{
    char_is_alpha, char_is_digit, char_is_ident, char_is_word, char_is_ws, chars_of, digits_value,
    has_prefix, index_of, is, string_of, to_lower, trimmed, trimmed_start, without_prefix,
};
use vstd::prelude::*;
use vstd::slice::slice_subrange;

verus! {

// ── comments and keywords ───────────────────────────────────────────────────

/// Where the comment of `s` starts, scanning from `i` inside `depth` brackets
/// and, perhaps, a quote: at the first `;` or `#` outside both.
pub open spec fn comment_from(s: Seq<char>, i: int, depth: int, quote: Option<char>) -> int
    decreases s.len() - i,
{
    if i >= s.len() {
        s.len() as int
    } else if quote is Some {
        comment_from(
            s,
            i + 1,
            depth,
            if s[i] == quote->0 {
                None
            } else {
                quote
            },
        )
    } else if s[i] == '\'' || s[i] == '"' {
        comment_from(s, i + 1, depth, Some(s[i]))
    } else if s[i] == '[' {
        comment_from(s, i + 1, depth + 1, None)
    } else if s[i] == ']' {
        comment_from(s, i + 1, depth - 1, None)
    } else if (s[i] == ';' || s[i] == '#') && depth == 0 {
        i
    } else {
        comment_from(s, i + 1, depth, None)
    }
}

/// `line` without its comment. A comment sign inside brackets or quotes is none.
pub open spec fn strip_comment(line: Seq<char>) -> Seq<char> {
    line.take(comment_from(line, 0, 0, None))
}

/// The comment of a line is a suffix that starts at a comment sign, if anywhere.
pub proof fn lemma_comment_from(s: Seq<char>, i: int, depth: int, quote: Option<char>)
    requires
        0 <= i <= s.len(),
    ensures
        i <= comment_from(s, i, depth, quote) <= s.len(),
        comment_from(s, i, depth, quote) < s.len() ==> (s[comment_from(s, i, depth, quote)] == ';'
            || s[comment_from(s, i, depth, quote)] == '#'),
    decreases s.len() - i,
{
    if i < s.len() {
        if quote is Some {
            lemma_comment_from(
                s,
                i + 1,
                depth,
                if s[i] == quote->0 {
                    None
                } else {
                    quote
                },
            );
        } else if s[i] == '\'' || s[i] == '"' {
            lemma_comment_from(s, i + 1, depth, Some(s[i]));
        } else if s[i] == '[' {
            lemma_comment_from(s, i + 1, depth + 1, None);
        } else if s[i] == ']' {
            lemma_comment_from(s, i + 1, depth - 1, None);
        } else {
            lemma_comment_from(s, i + 1, depth, None);
        }
    }
}

pub fn without_comment<'a>(line: &'a [char]) -> (r: &'a [char])
    ensures
        r@ == strip_comment(line@),
{
    let mut depth: i128 = 0;
    let mut quote: Option<char> = None;
    let mut i: usize = 0;
    while i < line.len()
        invariant
            i <= line@.len(),
            -(i as int) <= depth <= i,
            comment_from(line@, 0, 0, None) == comment_from(line@, i as int, depth as int, quote),
        decreases line@.len() - i,
    {
        let c = line[i];
        match quote {
            Some(q) => {
                if c == q {
                    quote = None;
                }
            },
            None => {
                if c == '\'' || c == '"' {
                    quote = Some(c);
                } else if c == '[' {
                    depth += 1;
                } else if c == ']' {
                    depth -= 1;
                } else if (c == ';' || c == '#') && depth == 0 {
                    return slice_subrange(line, 0, i);
                }
            },
        }
        i += 1;
    }
    assert(line@.take(line@.len() as int) =~= line@);
    line
}

/// If `t` starts with the whole word `kw`, what follows it (left-trimmed).
pub open spec fn strip_keyword(t: Seq<char>, kw: Seq<char>) -> Option<Seq<char>> {
    match text::strip_prefix(t, kw) {
        Some(rest) => if rest.len() == 0 || text::is_ws(rest[0]) {
            Some(text::trim_start(rest))
        } else {
            None
        },
        None => None,
    }
}

pub fn after_keyword<'a>(t: &'a [char], kw: &str) -> (r: Option<&'a [char]>)
    ensures
        text::opt(r) == strip_keyword(t@, kw@),
{
    match without_prefix(t, kw) {
        Some(rest) => if rest.len() == 0 || char_is_ws(rest[0]) {
            Some(trimmed_start(rest))
        } else {
            None
        },
        None => None,
    }
}

// ── comma lists ─────────────────────────────────────────────────────────────

/// The pieces of `s` between top-level commas, the current piece starting at
/// `start` and the scan standing at `i` inside `depth` brackets and, perhaps, a
/// quote.
pub open spec fn commas_from(
    s: Seq<char>,
    start: int,
    i: int,
    depth: int,
    quote: Option<char>,
) -> Seq<Seq<char>>
    decreases s.len() - i,
{
    if i >= s.len() {
        seq![s.subrange(start, s.len() as int)]
    } else if quote is Some {
        commas_from(
            s,
            start,
            i + 1,
            depth,
            if s[i] == quote->0 {
                None
            } else {
                quote
            },
        )
    } else if s[i] == '\'' || s[i] == '"' {
        commas_from(s, start, i + 1, depth, Some(s[i]))
    } else if s[i] == '[' || s[i] == '(' {
        commas_from(s, start, i + 1, depth + 1, None)
    } else if s[i] == ']' || s[i] == ')' {
        commas_from(s, start, i + 1, depth - 1, None)
    } else if s[i] == ',' && depth == 0 {
        seq![s.subrange(start, i)] + commas_from(s, i + 1, i + 1, depth, None)
    } else {
        commas_from(s, start, i + 1, depth, None)
    }
}

/// The pieces of `s` between top-level commas: commas inside `[]`, `()` or
/// quotes do not separate.
pub open spec fn split_commas(s: Seq<char>) -> Seq<Seq<char>> {
    commas_from(s, 0, 0, 0, None)
}

pub fn split_top_commas<'a>(s: &'a [char]) -> (r: Vec<&'a [char]>)
    ensures
        text::slices(r@) == split_commas(s@),
        r@.len() >= 1,
        r@.len() <= s@.len() + 1,
{
    let mut out: Vec<&'a [char]> = Vec::new();
    let mut depth: i128 = 0;
    let mut start: usize = 0;
    let mut quote: Option<char> = None;
    let mut i: usize = 0;
    while i < s.len()
        invariant
            start <= i <= s@.len(),
            out@.len() <= i,
            -(i as int) <= depth <= i,
            text::slices(out@) + commas_from(s@, start as int, i as int, depth as int, quote)
                =~= split_commas(s@),
        decreases s@.len() - i,
    {
        let c = s[i];
        match quote {
            Some(q) => {
                if c == q {
                    quote = None;
                }
            },
            None => {
                if c == '\'' || c == '"' {
                    quote = Some(c);
                } else if c == '[' || c == '(' {
                    depth += 1;
                } else if c == ']' || c == ')' {
                    depth -= 1;
                } else if c == ',' && depth == 0 {
                    let piece = slice_subrange(s, start, i);
                    let ghost before = text::slices(out@);
                    let ghost rest = commas_from(s@, i + 1, i + 1, 0, None);
                    out.push(piece);
                    assert(text::slices(out@) =~= before.push(piece@));
                    assert(text::slices(out@) + rest =~= before + (seq![piece@] + rest));
                    start = i + 1;
                }
            },
        }
        i += 1;
    }
    let piece = slice_subrange(s, start, s.len());
    let ghost before = text::slices(out@);
    out.push(piece);
    assert(text::slices(out@) =~= before.push(piece@));
    assert(text::slices(out@) =~= split_commas(s@));
    out
}

/// A list of texts, each trimmed.
pub open spec fn trim_each(v: Seq<Seq<char>>) -> Seq<Seq<char>> {
    v.map_values(|x: Seq<char>| text::trim(x))
}

proof fn lemma_commas_join(s: Seq<char>, start: int, i: int, depth: int, quote: Option<char>)
    requires
        0 <= start <= i <= s.len(),
    ensures
        commas_from(s, start, i, depth, quote).len() >= 1,
        join_front(commas_from(s, start, i, depth, quote), seq![',']) == s.subrange(
            start,
            s.len() as int,
        ),
    decreases s.len() - i,
{
    if i >= s.len() {
    } else if quote is Some {
        lemma_commas_join(
            s,
            start,
            i + 1,
            depth,
            if s[i] == quote->0 {
                None
            } else {
                quote
            },
        );
    } else if s[i] == '\'' || s[i] == '"' {
        lemma_commas_join(s, start, i + 1, depth, Some(s[i]));
    } else if s[i] == '[' || s[i] == '(' {
        lemma_commas_join(s, start, i + 1, depth + 1, None);
    } else if s[i] == ']' || s[i] == ')' {
        lemma_commas_join(s, start, i + 1, depth - 1, None);
    } else if s[i] == ',' && depth == 0 {
        lemma_commas_join(s, i + 1, i + 1, depth, None);
        let rest = commas_from(s, i + 1, i + 1, depth, None);
        let all = seq![s.subrange(start, i)] + rest;
        assert(all.drop_first() =~= rest);
        assert(s.subrange(start, i) + seq![','] + s.subrange(i + 1, s.len() as int) =~= s.subrange(
            start,
            s.len() as int,
        ));
    } else {
        lemma_commas_join(s, start, i + 1, depth, None);
    }
}

/// The texts joined with `sep` between them, read from the front.
pub open spec fn join_front(v: Seq<Seq<char>>, sep: Seq<char>) -> Seq<char>
    decreases v.len(),
{
    if v.len() == 0 {
        Seq::empty()
    } else if v.len() == 1 {
        v[0]
    } else {
        v[0] + sep + join_front(v.drop_first(), sep)
    }
}

/// Splitting at the top-level commas loses nothing: putting the commas back
/// between the pieces gives the text again, and there is always a piece.
pub proof fn law_split_commas_joins_back(s: Seq<char>)
    ensures
        split_commas(s).len() >= 1,
        join_front(split_commas(s), seq![',']) == s,
{
    lemma_commas_join(s, 0, 0, 0, None);
    assert(s.subrange(0, s.len() as int) =~= s);
}

// ── labels ──────────────────────────────────────────────────────────────────

pub open spec fn ident_chars(s: Seq<char>) -> bool {
    forall|i: int| 0 <= i < s.len() ==> text::is_ident(#[trigger] s[i])
}

pub fn all_ident(s: &[char]) -> (r: bool)
    ensures
        r == ident_chars(s@),
{
    let mut i: usize = 0;
    while i < s.len()
        invariant
            i <= s@.len(),
            forall|j: int| 0 <= j < i ==> text::is_ident(#[trigger] s@[j]),
        decreases s@.len() - i,
    {
        if !char_is_ident(s[i]) {
            assert(!text::is_ident(s@[i as int]));
            return false;
        }
        i += 1;
    }
    true
}

/// A character of a code label: alphanumeric in any script, `_`, `.` or `$`.
pub open spec fn is_label_char(c: char) -> bool {
    text::is_word_char(c) || c == '_' || c == '.' || c == '$'
}

pub open spec fn label_chars(s: Seq<char>) -> bool {
    forall|i: int| 0 <= i < s.len() ==> is_label_char(#[trigger] s[i])
}

pub fn all_label(s: &[char]) -> (r: bool)
    ensures
        r == label_chars(s@),
{
    let mut i: usize = 0;
    while i < s.len()
        invariant
            i <= s@.len(),
            forall|j: int| 0 <= j < i ==> is_label_char(#[trigger] s@[j]),
        decreases s@.len() - i,
    {
        let c = s[i];
        if !(char_is_word(c) || c == '_' || c == '.' || c == '$') {
            assert(!is_label_char(s@[i as int]));
            return false;
        }
        i += 1;
    }
    true
}

/// Alphanumeric in any script, or `_`.
pub open spec fn is_name_char(c: char) -> bool {
    text::is_word_char(c) || c == '_'
}

pub open spec fn name_chars(s: Seq<char>) -> bool {
    forall|i: int| 0 <= i < s.len() ==> is_name_char(#[trigger] s[i])
}

pub fn all_name(s: &[char]) -> (r: bool)
    ensures
        r == name_chars(s@),
{
    let mut i: usize = 0;
    while i < s.len()
        invariant
            i <= s@.len(),
            forall|j: int| 0 <= j < i ==> is_name_char(#[trigger] s@[j]),
        decreases s@.len() - i,
    {
        let c = s[i];
        if !(char_is_word(c) || c == '_') {
            assert(!is_name_char(s@[i as int]));
            return false;
        }
        i += 1;
    }
    true
}

/// A label line (`name:`), a block boundary.
pub open spec fn label_line(t: Seq<char>) -> bool {
    t.len() > 1 && t.last() == ':' && label_chars(t.drop_last())
}

pub fn is_label_line(t: &[char]) -> (r: bool)
    ensures
        r == label_line(t@),
{
    if t.len() < 2 || t[t.len() - 1] != ':' {
        return false;
    }
    let head = slice_subrange(t, 0, t.len() - 1);
    assert(head@ =~= t@.drop_last());
    all_label(head)
}

/// If `line` begins with `name:`, the name.
pub open spec fn label_of(line: Seq<char>) -> Option<Seq<char>> {
    let colon = text::find(line, ':');
    let name = text::trim(line.take(colon));
    if colon < line.len() && name.len() > 0 && ident_chars(name) && text::is_alpha(name[0]) {
        Some(name)
    } else {
        None
    }
}

pub fn leading_label<'a>(line: &'a [char]) -> (r: Option<&'a [char]>)
    ensures
        text::opt(r) == label_of(line@),
{
    let colon: usize = index_of(line, ':');
    if colon >= line.len() {
        return None;
    }
    let name = trimmed(slice_subrange(line, 0, colon));
    if name.len() > 0 && all_ident(name) && char_is_alpha(name[0]) {
        Some(name)
    } else {
        None
    }
}

// ── call sites ──────────────────────────────────────────────────────────────

/// The `obj.Method( … )` shape: a typed COM call.
pub open spec fn method_call_shape(t: Seq<char>) -> bool {
    let dot = text::find(t, '.');
    let obj = t.take(dot);
    let rest = t.skip(dot + 1);
    let open = text::find(rest, '(');
    let m = text::trim(rest.take(open));
    &&& dot < t.len()
    &&& obj.len() > 0 && name_chars(obj)
    &&& open < rest.len()
    &&& m.len() > 0 && name_chars(m)
}

pub fn is_method_call_shape(t: &[char]) -> (r: bool)
    ensures
        r == method_call_shape(t@),
{
    let dot: usize = index_of(t, '.');
    if dot >= t.len() {
        return false;
    }
    let obj = slice_subrange(t, 0, dot);
    let rest = slice_subrange(t, dot + 1, t.len());
    let open: usize = index_of(rest, '(');
    if open >= rest.len() {
        return false;
    }
    let m = trimmed(slice_subrange(rest, 0, open));
    obj.len() > 0 && all_name(obj) && m.len() > 0 && all_name(m)
}

/// A call to external code (`invoke`, `comcall`, `obj.Method(…)`), which follows
/// the Win64 ABI and so destroys the caller-saved registers. A plain
/// `call <label>` targets one of the program's own functions and is none.
pub open spec fn call_site(t: Seq<char>) -> bool {
    let l = text::lower_all(t);
    ||| text::starts_with(l, "invoke "@)
    ||| text::starts_with(l, "invoke\t"@)
    ||| text::starts_with(l, "comcall "@)
    ||| method_call_shape(t)
}

pub fn is_call_site(t: &[char]) -> (r: bool)
    ensures
        r == call_site(t@),
{
    let l = to_lower(t);
    has_prefix(&l, "invoke ") || has_prefix(&l, "invoke\t") || has_prefix(&l, "comcall ")
        || is_method_call_shape(t)
}

/// Any call, external or a plain `call <label>`: where a framed procedure's
/// stack must sit at the aligned frame level.
pub open spec fn any_call(t: Seq<char>) -> bool {
    let l = text::lower_all(t);
    call_site(t) || l == "call"@ || text::starts_with(l, "call "@) || text::starts_with(l, "call\t"@)
}

pub fn is_any_call(t: &[char]) -> (r: bool)
    ensures
        r == any_call(t@),
{
    let l = to_lower(t);
    is_call_site(t) || is(&l, "call") || has_prefix(&l, "call ") || has_prefix(&l, "call\t")
}

// ── message tags ────────────────────────────────────────────────────────────

/// How many leading characters of `s` are decimal digits.
pub open spec fn digit_run(s: Seq<char>) -> int {
    text::first_from(s, |c: char| !text::is_digit(c), 0)
}

/// A leading ``line N: `` tag split off a message: the number (where it fits a
/// machine word) and the remainder. Without such a tag, the message itself.
pub open spec fn line_tag(msg: Seq<char>) -> (Option<int>, Seq<char>) {
    match text::strip_prefix(msg, "line "@) {
        Some(after) => {
            let n = digit_run(after);
            match text::strip_prefix(after.skip(n), ": "@) {
                Some(rest) => if n > 0 {
                    (text::parse_digits(after.take(n), 10, usize::MAX as int), rest)
                } else {
                    (None, msg)
                },
                None => (None, msg),
            }
        },
        None => (None, msg),
    }
}

/// Split a leading ``line N: `` tag off an error message, so that the caller can
/// place the line itself.
pub fn split_line_tag(msg: &str) -> (r: (Option<usize>, String))
    ensures
        r.1@ == line_tag(msg@).1,
        r.0 matches Some(n) ==> line_tag(msg@).0 == Some(n as int),
        r.0 is None ==> line_tag(msg@).0 is None,
{
    let m = chars_of(msg);
    match without_prefix(&m, "line ") {
        Some(after) => {
            let mut n: usize = 0;
            let ghost p = |c: char| !text::is_digit(c);
            while n < after.len()
                invariant_except_break
                    p == (|c: char| !text::is_digit(c)),
                    n <= after@.len(),
                    digit_run(after@) == text::first_from(after@, p, n as int),
                ensures
                    n <= after@.len(),
                    n == digit_run(after@),
                decreases after@.len() - n,
            {
                if !char_is_digit(after[n]) {
                    break;
                }
                n += 1;
            }
            if n > 0 {
                match without_prefix(slice_subrange(after, n, after.len()), ": ") {
                    Some(rest) => {
                        let digits = slice_subrange(after, 0, n);
                        let line: Option<usize> = match digits_value(digits, 10, usize::MAX as u64) {
                            Some(v) => Some(v as usize),
                            None => None,
                        };
                        return (line, string_of(rest));
                    },
                    None => {},
                }
            }
        },
        None => {},
    }
    (None, string_of(&m))
}

} // verus!
