//! What a completion at the caret is for, found from the text of the line alone.
use crate::studio::syntax;
use crate::text;
use crate::studio::syntax::{char_is_lex, end_of_word};
use crate::text::{
    byte_offset, bytes_in, char_index, char_is_ws, chars_of, indent_of, is_ignoring_case,
    last_index_of, string_of,
};
use vstd::prelude::*;
use vstd::slice::slice_subrange;

verus! {

/// What kind of name the caret is placed to complete.
#[derive(Debug, Clone, PartialEq, Eq)]
pub enum CompletionKind {
    /// The function name after `invoke`.
    Function,
    /// A field of a struct, `Type.field`, or a method of a typed pointer.
    Field { ty: String },
    /// An operand: a function, a constant or a type.
    Symbol,
    /// Nothing to complete, as when the mnemonic is typed.
    Nothing,
}

/// A completion: what is chosen replaces `line[start..cursor]`.
#[derive(Debug, Clone, PartialEq, Eq)]
pub struct CompletionContext {
    pub kind: CompletionKind,
    pub prefix: String,
    pub start: usize,
}

/// A kind of completion in mathematical terms.
pub enum ContextKind {
    Function,
    Field(Seq<char>),
    Symbol,
    Nothing,
}

/// A completion in mathematical terms.
pub struct ContextView {
    pub kind: ContextKind,
    pub prefix: Seq<char>,
    pub start: int,
}

impl View for CompletionKind {
    type V = ContextKind;

    open spec fn view(&self) -> ContextKind {
        match *self {
            CompletionKind::Function => ContextKind::Function,
            CompletionKind::Field { ty } => ContextKind::Field(ty@),
            CompletionKind::Symbol => ContextKind::Symbol,
            CompletionKind::Nothing => ContextKind::Nothing,
        }
    }
}

impl View for CompletionContext {
    type V = ContextView;

    open spec fn view(&self) -> ContextView {
        ContextView { kind: self.kind@, prefix: self.prefix@, start: self.start as int }
    }
}

/// A character of a word.
pub open spec fn lex_char() -> spec_fn(char) -> bool {
    |c: char| syntax::is_lex_char(c)
}

/// Where the word begins that ends at `n`.
pub open spec fn word_start_at(s: Seq<char>, n: int) -> int {
    text::last_below(s, syntax::not_lex_char(), n) + 1
}

/// The next word at or after `from`.
pub open spec fn next_word_at(s: Seq<char>, from: int) -> Option<(int, int)> {
    let a = text::first_from(s, lex_char(), from);
    if a >= s.len() {
        None
    } else {
        Some((a, text::first_from(s, syntax::not_lex_char(), a)))
    }
}

/// The head word of a line, behind its label where it has one.
pub open spec fn head_word_of(s: Seq<char>) -> Option<(int, int)> {
    match next_word_at(s, text::first_from(s, text::not_ws(), 0)) {
        None => None,
        Some((a, b)) => {
            let c = text::first_from(s, text::not_ws(), b);
            if c < s.len() && s[c] == ':' {
                next_word_at(s, c + 1)
            } else {
                Some((a, b))
            }
        },
    }
}

/// The change of bracket depth that `c` makes.
pub open spec fn bracket(c: char) -> int {
    if c == '[' {
        1
    } else if c == ']' {
        -1
    } else {
        0
    }
}

/// The bracket depth behind `s`.
pub open spec fn depth_of(s: Seq<char>) -> int
    decreases s.len(),
{
    if s.len() == 0 {
        0
    } else {
        depth_of(s.drop_last()) + bracket(s.last())
    }
}

/// How many commas of `s` stand outside brackets.
pub open spec fn top_commas(s: Seq<char>) -> nat
    decreases s.len(),
{
    if s.len() == 0 {
        0
    } else {
        top_commas(s.drop_last()) + if s.last() == ',' && depth_of(s.drop_last()) == 0 {
            1nat
        } else {
            0nat
        }
    }
}

/// The first comma outside brackets at or after `i`, `depth` brackets being open;
/// the length of `s` where there is none.
pub open spec fn top_comma_from(s: Seq<char>, i: int, depth: int) -> int
    decreases s.len() - i,
{
    if i >= s.len() {
        s.len() as int
    } else if s[i] == ',' && depth == 0 {
        i
    } else {
        top_comma_from(s, i + 1, depth + bracket(s[i]))
    }
}

/// The completion of `line` at the character position `c`.
pub open spec fn context_at(line: Seq<char>, c: int) -> ContextView {
    let ws = word_start_at(line, c);
    let word = line.subrange(ws, c);
    let dot = text::rfind(word, '.');
    if dot > 0 {
        ContextView {
            kind: ContextKind::Field(word.take(dot)),
            prefix: word.skip(dot + 1),
            start: text::offset_of(line, ws + dot + 1),
        }
    } else {
        let kind = match head_word_of(line) {
            Some((hs, he)) => if ws == hs {
                ContextKind::Nothing
            } else if text::same_ignoring_case(line.subrange(hs, he), "invoke"@) && c > he && {
                let comma = top_comma_from(line, he, 0);
                comma >= line.len() || c <= comma
            } {
                ContextKind::Function
            } else if word.len() == 0 {
                ContextKind::Nothing
            } else {
                ContextKind::Symbol
            },
            None => if word.len() == 0 {
                ContextKind::Nothing
            } else {
                ContextKind::Symbol
            },
        };
        ContextView { kind, prefix: word, start: text::offset_of(line, ws) }
    }
}

pub fn start_of_word(s: &[char], n: usize) -> (r: usize)
    requires
        n <= s@.len(),
    ensures
        r == word_start_at(s@, n as int),
        r <= n,
{
    let mut i: usize = n;
    while i > 0
        invariant
            i <= n <= s@.len(),
            text::last_below(s@, syntax::not_lex_char(), n as int) == text::last_below(s@, syntax::not_lex_char(), i as int),
        decreases i,
    {
        if !char_is_lex(s[i - 1]) {
            return i;
        }
        i -= 1;
    }
    i
}

/// The next word at or after `from`, by character positions.
pub fn next_word(s: &[char], from: usize) -> (r: Option<(usize, usize)>)
    ensures
        (match r {
            Some((a, b)) => Some((a as int, b as int)),
            None => None,
        }) == next_word_at(s@, from as int),
        r matches Some((a, b)) ==> from <= a <= b <= s@.len() && a < s@.len(),
{
    let mut i: usize = from;
    while i < s.len()
        invariant
            from <= i,
            from <= s@.len() ==> i <= s@.len(),
            text::first_from(s@, lex_char(), from as int) == text::first_from(s@, lex_char(), i as int),
        decreases s@.len() - i,
    {
        if char_is_lex(s[i]) {
            let b: usize = end_of_word(s, i);
            return Some((i, b));
        }
        i += 1;
    }
    None
}

/// The head word of a line, by character positions.
pub fn head_word(s: &[char]) -> (r: Option<(usize, usize)>)
    ensures
        (match r {
            Some((a, b)) => Some((a as int, b as int)),
            None => None,
        }) == head_word_of(s@),
        r matches Some((a, b)) ==> a <= b <= s@.len(),
{
    let i: usize = indent_of(s);
    match next_word(s, i) {
        None => None,
        Some((a, b)) => {
            let n: usize = s.len();
            let mut c: usize = b;
            while c < n
                invariant_except_break
                    n == s@.len(),
                    b <= c <= n,
                    text::first_from(s@, text::not_ws(), b as int) == text::first_from(s@, text::not_ws(), c as int),
                ensures
                    b <= c <= n,
                    text::first_from(s@, text::not_ws(), b as int) == c,
                decreases n - c,
            {
                if !char_is_ws(s[c]) {
                    break;
                }
                c += 1;
            }
            if c < n && s[c] == ':' {
                next_word(s, c + 1)
            } else {
                Some((a, b))
            }
        },
    }
}

/// How many commas of `s` stand outside brackets.
pub fn count_top_level_commas(s: &[char]) -> (r: usize)
    ensures
        r == top_commas(s@),
{
    let mut depth: i128 = 0;
    let mut n: usize = 0;
    let mut i: usize = 0;
    while i < s.len()
        invariant
            i <= s@.len(),
            n <= i,
            -i <= depth <= i,
            depth == depth_of(s@.take(i as int)),
            n == top_commas(s@.take(i as int)),
        decreases s@.len() - i,
    {
        assert(s@.take(i + 1).drop_last() =~= s@.take(i as int));
        let c = s[i];
        if c == '[' {
            depth += 1;
        } else if c == ']' {
            depth -= 1;
        } else if c == ',' && depth == 0 {
            n += 1;
        }
        i += 1;
    }
    assert(s@.take(s@.len() as int) =~= s@);
    n
}

fn top_level_comma(s: &[char], from: usize) -> (r: usize)
    requires
        from <= s@.len(),
    ensures
        r == top_comma_from(s@, from as int, 0),
        r <= s@.len(),
{
    let mut depth: i128 = 0;
    let mut i: usize = from;
    while i < s.len()
        invariant
            from <= i <= s@.len(),
            -i <= depth <= i,
            top_comma_from(s@, from as int, 0) == top_comma_from(s@, i as int, depth as int),
        decreases s@.len() - i,
    {
        let c = s[i];
        if c == ',' && depth == 0 {
            return i;
        }
        if c == '[' {
            depth += 1;
        } else if c == ']' {
            depth -= 1;
        }
        i += 1;
    }
    i
}

/// What a completion of `line` at the byte `cursor` is for.
pub fn context(line: &str, cursor: usize) -> (r: CompletionContext)
    ensures
        r@ == context_at(line@, text::index_at(line@, cursor as int)),
{
    let s = chars_of(line);
    let _bytes: usize = bytes_in(line);
    let c: usize = char_index(&s, cursor);
    let ws: usize = start_of_word(&s, c);
    let word = slice_subrange(&s, ws, c);
    match last_index_of(word, '.') {
        Some(dot) => {
            if dot > 0 {
                return CompletionContext {
                    kind: CompletionKind::Field { ty: string_of(slice_subrange(word, 0, dot)) },
                    prefix: string_of(slice_subrange(word, dot + 1, word.len())),
                    start: byte_offset(&s, ws + dot + 1),
                };
            }
        },
        None => {},
    }
    let head = head_word(&s);
    let kind = match head {
        Some((hs, he)) => {
            if ws == hs {
                CompletionKind::Nothing
            } else if is_ignoring_case(slice_subrange(&s, hs, he), "invoke") && c > he && {
                let comma: usize = top_level_comma(&s, he);
                comma >= s.len() || c <= comma
            } {
                CompletionKind::Function
            } else if word.len() == 0 {
                CompletionKind::Nothing
            } else {
                CompletionKind::Symbol
            }
        },
        None => {
            if word.len() == 0 {
                CompletionKind::Nothing
            } else {
                CompletionKind::Symbol
            }
        },
    };
    CompletionContext { kind, prefix: string_of(word), start: byte_offset(&s, ws) }
}

/// What is completed is the text between the start and the cursor.
pub proof fn law_prefix_ends_at_cursor(line: Seq<char>, c: int)
    requires
        0 <= c <= line.len(),
    ensures
        context_at(line, c).start == text::offset_of(line, c - context_at(line, c).prefix.len()),
        context_at(line, c).prefix == line.subrange(
            c - context_at(line, c).prefix.len(),
            c,
        ),
{
    text::lemma_last_below(line, syntax::not_lex_char(), c);
    let ws = word_start_at(line, c);
    let word = line.subrange(ws, c);
    let dot = text::rfind(word, '.');
    text::lemma_last_below(word, text::eq_char('.'), word.len() as int);
    if dot > 0 {
        assert(word.skip(dot + 1) =~= line.subrange(ws + dot + 1, c));
    }
}

} // verus!
