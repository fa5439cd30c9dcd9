//! The lexer behind the editor's highlighting. It works line by line and gives each
//! token its byte range. A constant is recognised by its shape alone.
use crate::text;
use crate::was::regs;
use crate::text::{
    byte_offset, bytes_in, char_is_digit, char_is_upper, char_is_word, char_is_ws, chars_of,
    digit_value_of, is, is_ignoring_case, lines_of, to_lower,
};
use crate::was::regs::{gp_reg, is_register};
use vstd::prelude::*;
use vstd::slice::slice_subrange;

verus! {

/// What a token is, for colouring.
#[derive(Debug, Clone, Copy, PartialEq, Eq, Structural)]
pub enum TokKind {
    /// A `;` or `#` comment, to the end of the line.
    Comment,
    /// A `name:` label at the head of a line.
    Label,
    /// An assembler directive such as `.text`.
    Directive,
    /// The instruction word.
    Mnemonic,
    /// `invoke`, a size word, `ptr` or `sizeof`.
    Keyword,
    /// A general or vector register, or `rip`.
    Register,
    /// An integer literal (`42`, `0x1F`).
    Number,
    /// A string literal.
    String,
    /// An `UPPER_SNAKE` operand.
    Constant,
    /// Any other word.
    Ident,
    /// Punctuation.
    Punct,
}

/// A token: `line[start..end]` is its text.
#[derive(Debug, Clone, Copy, PartialEq, Eq, Structural)]
pub struct Token {
    pub kind: TokKind,
    pub start: usize,
    pub end: usize,
}

/// A token in mathematical terms: its kind and where it begins and ends.
pub type TokenView = (TokKind, int, int);

impl View for Token {
    type V = TokenView;

    open spec fn view(&self) -> TokenView {
        (self.kind, self.start as int, self.end as int)
    }
}

/// The views of tokens.
pub open spec fn tokens_view(v: Seq<Token>) -> Seq<TokenView> {
    Seq::new(v.len(), |i: int| v[i]@)
}

/// A lexeme before it is classified.
#[derive(Clone, Copy, PartialEq, Eq, Structural)]
pub enum Raw {
    Word,
    Punct,
    Str,
    Comment,
}

/// A lexeme and the characters it takes.
pub type Lexeme = (Raw, int, int);

/// A character of a word.
pub open spec fn is_lex_char(c: char) -> bool {
    text::is_word_char(c) || c == '_' || c == '.' || c == '$' || c == '@'
}

/// Not a character of a word.
pub open spec fn not_lex_char() -> spec_fn(char) -> bool {
    |c: char| !is_lex_char(c)
}

pub fn char_is_lex(c: char) -> (r: bool)
    ensures
        r == is_lex_char(c),
{
    char_is_word(c) || c == '_' || c == '.' || c == '$' || c == '@'
}

/// Where the string with the quote `q` ends that is open at `i`.
pub open spec fn quote_end(s: Seq<char>, i: int, q: char) -> int
    decreases s.len() - i,
{
    if i >= s.len() {
        s.len() as int
    } else if s[i] == '\\' {
        if i + 1 < s.len() {
            quote_end(s, i + 2, q)
        } else {
            i + 1
        }
    } else if s[i] == q {
        i + 1
    } else {
        quote_end(s, i + 1, q)
    }
}

pub proof fn lemma_quote_end(s: Seq<char>, i: int, q: char)
    requires
        0 <= i <= s.len(),
    ensures
        i <= quote_end(s, i, q) <= s.len(),
    decreases s.len() - i,
{
    if i < s.len() {
        if s[i] == '\\' {
            if i + 1 < s.len() {
                lemma_quote_end(s, i + 2, q);
            }
        } else if s[i] != q {
            lemma_quote_end(s, i + 1, q);
        }
    }
}

/// The lexemes of `s` from `i` on, `depth` brackets being open: inside brackets a
/// `;` or `#` begins no comment.
pub open spec fn lexemes_from(s: Seq<char>, i: int, depth: int) -> Seq<Lexeme>
    decreases s.len() - i,
    via lexemes_from_decreases
{
    if i < 0 || i >= s.len() {
        Seq::empty()
    } else if text::is_ws(s[i]) {
        lexemes_from(s, i + 1, depth)
    } else if (s[i] == ';' || s[i] == '#') && depth == 0 {
        seq![(Raw::Comment, i, s.len() as int)]
    } else if s[i] == '"' || s[i] == '\'' {
        let e = quote_end(s, i + 1, s[i]);
        seq![(Raw::Str, i, e)] + lexemes_from(s, e, depth)
    } else if is_lex_char(s[i]) {
        let e = text::first_from(s, not_lex_char(), i);
        seq![(Raw::Word, i, e)] + lexemes_from(s, e, depth)
    } else {
        let d = if s[i] == '[' {
            depth + 1
        } else if s[i] == ']' {
            depth - 1
        } else {
            depth
        };
        seq![(Raw::Punct, i, i + 1)] + lexemes_from(s, i + 1, d)
    }
}

#[via_fn]
proof fn lexemes_from_decreases(s: Seq<char>, i: int, depth: int) {
    if 0 <= i < s.len() {
        lemma_quote_end(s, i + 1, s[i]);
        text::lemma_first_from(s, not_lex_char(), i);
        if is_lex_char(s[i]) && text::first_from(s, not_lex_char(), i) == i {
            assert(not_lex_char()(s[i]));
        }
    }
}

/// The lexemes of a line.
pub open spec fn lexemes(s: Seq<char>) -> Seq<Lexeme> {
    lexemes_from(s, 0, 0)
}

/// The line begins with a label: a word and a colon.
pub open spec fn labelled(s: Seq<char>, v: Seq<Lexeme>) -> bool {
    v.len() >= 2 && v[0].0 == Raw::Word && v[1].0 == Raw::Punct && s.subrange(v[1].1, v[1].2)
        == ":"@
}

/// The position of the head word among the lexemes.
pub open spec fn head_at(s: Seq<char>, v: Seq<Lexeme>) -> int {
    if labelled(s, v) {
        2
    } else {
        0
    }
}

/// A size word.
pub open spec fn size_keyword(w: Seq<char>) -> bool {
    let l = text::lower_all(w);
    l == "byte"@ || l == "word"@ || l == "dword"@ || l == "qword"@ || l == "tbyte"@ || l
        == "oword"@ || l == "xmmword"@ || l == "ymmword"@ || l == "zmmword"@
}

/// An integer literal: decimal digits, or `0x` and hexadecimal digits.
pub open spec fn number_like(w: Seq<char>) -> bool {
    ||| text::all_digits(w, 10)
    ||| w.len() > 2 && w[0] == '0' && (w[1] == 'x' || w[1] == 'X') && text::all_digits(w.skip(2), 16)
}

/// An `UPPER_SNAKE` word of more than one byte with at least one letter.
pub open spec fn upper_snake(w: Seq<char>) -> bool {
    &&& w.len() > 1
    &&& exists|i: int| 0 <= i < w.len() && text::is_upper(#[trigger] w[i])
    &&& forall|i: int|
        0 <= i < w.len() ==> (text::is_upper(#[trigger] w[i]) || text::is_digit(w[i]) || w[i] == '_')
}

/// A register: of the general ones any width, a vector register, or `rip`.
pub open spec fn any_register(w: Seq<char>) -> bool {
    regs::names_register(w) || regs::register_named(w) is Some
}

/// What a word in operand position is.
pub open spec fn operand_class(w: Seq<char>) -> TokKind {
    if any_register(w) {
        TokKind::Register
    } else if number_like(w) {
        TokKind::Number
    } else if size_keyword(w) || text::same_ignoring_case(w, "ptr"@) || text::same_ignoring_case(w, "sizeof"@) {
        TokKind::Keyword
    } else if upper_snake(w) {
        TokKind::Constant
    } else {
        TokKind::Ident
    }
}

/// What the lexeme number `k` of the line is.
pub open spec fn class_of(s: Seq<char>, v: Seq<Lexeme>, k: int) -> TokKind {
    let w = s.subrange(v[k].1, v[k].2);
    match v[k].0 {
        Raw::Comment => TokKind::Comment,
        Raw::Str => TokKind::String,
        Raw::Punct => TokKind::Punct,
        Raw::Word => if labelled(s, v) && k == 0 {
            TokKind::Label
        } else if k == head_at(s, v) {
            if w.len() > 0 && w[0] == '.' {
                TokKind::Directive
            } else if text::same_ignoring_case(w, "invoke"@) {
                TokKind::Keyword
            } else {
                TokKind::Mnemonic
            }
        } else {
            operand_class(w)
        },
    }
}

/// The tokens of a line, by character positions.
pub open spec fn char_tokens(s: Seq<char>) -> Seq<TokenView> {
    Seq::new(
        lexemes(s).len(),
        |k: int| (class_of(s, lexemes(s), k), lexemes(s)[k].1, lexemes(s)[k].2),
    )
}

/// The tokens of a line, by byte positions.
pub open spec fn line_tokens(s: Seq<char>) -> Seq<TokenView> {
    Seq::new(
        char_tokens(s).len(),
        |k: int|
            (
                char_tokens(s)[k].0,
                text::offset_of(s, char_tokens(s)[k].1),
                text::offset_of(s, char_tokens(s)[k].2),
            ),
    )
}

fn end_of_quote(s: &[char], start: usize, q: char) -> (r: usize)
    requires
        start <= s@.len(),
    ensures
        r == quote_end(s@, start as int, q),
        r <= s@.len(),
        r >= start,
{
    let n: usize = s.len();
    let mut i: usize = start;
    while i < n
        invariant
            n == s@.len(),
            start <= i <= n,
            quote_end(s@, start as int, q) == quote_end(s@, i as int, q),
        decreases n - i,
    {
        if s[i] == '\\' {
            if i + 1 < n {
                i += 2;
            } else {
                return i + 1;
            }
        } else if s[i] == q {
            return i + 1;
        } else {
            i += 1;
        }
    }
    i
}

pub fn end_of_word(s: &[char], start: usize) -> (r: usize)
    requires
        start <= s@.len(),
    ensures
        r == text::first_from(s@, not_lex_char(), start as int),
        start <= r <= s@.len(),
{
    let mut i: usize = start;
    while i < s.len()
        invariant
            start <= i <= s@.len(),
            text::first_from(s@, not_lex_char(), start as int) == text::first_from(
                s@,
                not_lex_char(),
                i as int,
            ),
        decreases s@.len() - i,
    {
        if !char_is_lex(s[i]) {
            return i;
        }
        i += 1;
    }
    i
}

/// The views of lexemes.
pub open spec fn lexemes_view(v: Seq<(Raw, usize, usize)>) -> Seq<Lexeme> {
    Seq::new(v.len(), |i: int| (v[i].0, v[i].1 as int, v[i].2 as int))
}

/// Split a line into lexemes.
pub fn raw_tokens(s: &[char]) -> (r: Vec<(Raw, usize, usize)>)
    ensures
        lexemes_view(r@) == lexemes(s@),
        forall|k: int| 0 <= k < r@.len() ==> (#[trigger] r@[k]).1 <= r@[k].2 <= s@.len(),
{
    let ghost want = lexemes(s@);
    let n: usize = s.len();
    let mut r: Vec<(Raw, usize, usize)> = Vec::new();
    let mut i: usize = 0;
    let mut depth: i128 = 0;
    assert(lexemes_view(r@) + want =~= want);
    while i < n
        invariant
            n == s@.len(),
            i <= n,
            -i <= depth <= i,
            lexemes_view(r@) + lexemes_from(s@, i as int, depth as int) =~= want,
            want == lexemes(s@),
            forall|k: int| 0 <= k < r@.len() ==> (#[trigger] r@[k]).1 <= r@[k].2 <= s@.len(),
        decreases n - i,
    {
        let ghost before = lexemes_view(r@);
        let c = s[i];
        if char_is_ws(c) {
            i += 1;
            continue;
        }
        if (c == ';' || c == '#') && depth == 0 {
            r.push((Raw::Comment, i, n));
            assert(lexemes_view(r@) =~= before.push((Raw::Comment, i as int, n as int)));
            assert(lexemes_view(r@) =~= want);
            return r;
        }
        let start: usize = i;
        let raw = if c == '"' || c == '\'' {
            i = end_of_quote(s, start + 1, c);
            Raw::Str
        } else if char_is_lex(c) {
            i = end_of_word(s, start);
            proof {
                text::lemma_first_from(s@, not_lex_char(), start as int);
                if i == start {
                    assert(not_lex_char()(s@[i as int]));
                }
            }
            Raw::Word
        } else {
            if c == '[' {
                depth += 1;
            } else if c == ']' {
                depth -= 1;
            }
            i += 1;
            Raw::Punct
        };
        r.push((raw, start, i));
        let ghost x = (raw, start as int, i as int);
        let ghost rest = lexemes_from(s@, i as int, depth as int);
        assert(lexemes_view(r@) =~= before.push(x));
        assert(before.push(x) + rest =~= before + (seq![x] + rest));
    }
    assert(lexemes_view(r@) =~= want);
    r
}

fn is_size_keyword(w: &[char]) -> (r: bool)
    ensures
        r == size_keyword(w@),
{
    let l = to_lower(w);
    is(&l, "byte") || is(&l, "word") || is(&l, "dword") || is(&l, "qword") || is(&l, "tbyte")
        || is(&l, "oword") || is(&l, "xmmword") || is(&l, "ymmword") || is(&l, "zmmword")
}

fn digits_only(w: &[char], radix: u32) -> (r: bool)
    requires
        radix == 10 || radix == 16,
    ensures
        r == text::all_digits(w@, radix as int),
{
    let mut i: usize = 0;
    while i < w.len()
        invariant
            radix == 10 || radix == 16,
            i <= w@.len(),
            forall|k: int| 0 <= k < i ==> text::digit_value(#[trigger] w@[k], radix as int) >= 0,
        decreases w@.len() - i,
    {
        if digit_value_of(w[i], radix).is_none() {
            assert(text::digit_value(w@[i as int], radix as int) < 0);
            return false;
        }
        i += 1;
    }
    w.len() > 0
}

/// Whether a word is an integer literal: decimal digits, or `0x` with hexadecimal
/// ones. It stands in for the assembler's own test of a literal, which is not part of
/// this library and may take further forms.
pub fn looks_like_number(w: &[char]) -> (r: bool)
    ensures
        r == number_like(w@),
{
    if digits_only(w, 10) {
        return true;
    }
    w.len() > 2 && w[0] == '0' && (w[1] == 'x' || w[1] == 'X') && digits_only(
        slice_subrange(w, 2, w.len()),
        16,
    )
}

/// Whether a word has the shape of a constant.
pub fn constant_shaped(w: &[char]) -> (r: bool)
    ensures
        r == upper_snake(w@),
{
    if w.len() <= 1 {
        return false;
    }
    let mut any = false;
    let mut i: usize = 0;
    while i < w.len()
        invariant
            i <= w@.len(),
            any == exists|k: int| 0 <= k < i && text::is_upper(#[trigger] w@[k]),
            forall|k: int|
                0 <= k < i ==> (text::is_upper(#[trigger] w@[k]) || text::is_digit(w@[k]) || w@[k] == '_'),
        decreases w@.len() - i,
    {
        if char_is_upper(w[i]) {
            any = true;
        } else if !(char_is_digit(w[i]) || w[i] == '_') {
            assert(!(text::is_upper(w@[i as int]) || text::is_digit(w@[i as int]) || w@[i as int] == '_'));
            return false;
        }
        i += 1;
    }
    any
}

/// What a word in operand position is. A register is one that the lowering knows, as
/// the assembler's own table of registers is not part of this library.
pub fn operand_kind(w: &[char]) -> (r: TokKind)
    ensures
        r == operand_class(w@),
{
    if is_register(w) || gp_reg(w).is_some() {
        TokKind::Register
    } else if looks_like_number(w) {
        TokKind::Number
    } else if is_size_keyword(w) || is_ignoring_case(w, "ptr") || is_ignoring_case(w, "sizeof") {
        TokKind::Keyword
    } else if constant_shaped(w) {
        TokKind::Constant
    } else {
        TokKind::Ident
    }
}

/// The tokens of a line (white space gives none).
pub fn lex_line(line: &str) -> (r: Vec<Token>)
    ensures
        tokens_view(r@) == line_tokens(line@),
{
    let c = chars_of(line);
    let _bytes: usize = bytes_in(line);
    lex_chars(&c)
}

/// The tokens of a line given by its characters.
pub fn lex_chars(s: &[char]) -> (r: Vec<Token>)
    requires
        text::byte_len(s@) <= usize::MAX,
    ensures
        tokens_view(r@) == line_tokens(s@),
{
    let raws = raw_tokens(s);
    let ghost v = lexemes(s@);
    assert(v.len() == raws@.len());
    assert forall|k: int| 0 <= k < raws@.len() implies #[trigger] v[k] == (
        raws@[k].0,
        raws@[k].1 as int,
        raws@[k].2 as int,
    ) by {
        assert(lexemes_view(raws@)[k] == v[k]);
    }
    let has_label = if raws.len() >= 2 && raws[0].0 == Raw::Word && raws[1].0 == Raw::Punct {
        is(slice_subrange(s, raws[1].1, raws[1].2), ":")
    } else {
        false
    };
    assert(has_label == labelled(s@, v));
    let head: usize = if has_label {
        2
    } else {
        0
    };
    let mut out: Vec<Token> = Vec::new();
    let mut k: usize = 0;
    while k < raws.len()
        invariant
            text::byte_len(s@) <= usize::MAX,
            v == lexemes(s@),
            v.len() == raws@.len(),
            forall|j: int| 0 <= j < raws@.len() ==> #[trigger] v[j] == (
                raws@[j].0,
                raws@[j].1 as int,
                raws@[j].2 as int,
            ),
            forall|j: int| 0 <= j < raws@.len() ==> (#[trigger] raws@[j]).1 <= raws@[j].2
                <= s@.len(),
            has_label == labelled(s@, v),
            head == head_at(s@, v),
            k <= raws@.len(),
            tokens_view(out@) =~= line_tokens(s@).take(k as int),
        decreases raws@.len() - k,
    {
        let (raw, a, b) = raws[k];
        assert(v[k as int] == (raw, a as int, b as int));
        let w = slice_subrange(s, a, b);
        let kind = match raw {
            Raw::Comment => TokKind::Comment,
            Raw::Str => TokKind::String,
            Raw::Punct => TokKind::Punct,
            Raw::Word => if has_label && k == 0 {
                TokKind::Label
            } else if k == head {
                if w.len() > 0 && w[0] == '.' {
                    TokKind::Directive
                } else if is_ignoring_case(w, "invoke") {
                    TokKind::Keyword
                } else {
                    TokKind::Mnemonic
                }
            } else {
                operand_kind(w)
            },
        };
        assert(kind == class_of(s@, v, k as int));
        let t = Token { kind, start: byte_offset(s, a), end: byte_offset(s, b) };
        let ghost before = tokens_view(out@);
        out.push(t);
        assert(tokens_view(out@) =~= before.push(t@));
        assert(line_tokens(s@)[k as int] == t@);
        k += 1;
    }
    assert(tokens_view(out@) =~= line_tokens(s@));
    out
}

/// The tokens of a text, a row for each line.
pub open spec fn text_tokens(t: Seq<char>) -> Seq<Seq<TokenView>> {
    Seq::new(text::lines(t).len(), |i: int| line_tokens(text::lines(t)[i]))
}

/// The views of rows of tokens.
pub open spec fn rows_view(v: Seq<Vec<Token>>) -> Seq<Seq<TokenView>> {
    Seq::new(v.len(), |i: int| tokens_view(v[i]@))
}

/// The tokens of a whole buffer, a row for each line.
pub fn lex(text: &str) -> (r: Vec<Vec<Token>>)
    ensures
        rows_view(r@) == text_tokens(text@),
{
    let c = chars_of(text);
    let _bytes: usize = bytes_in(text);
    let lv = lines_of(&c);
    let ghost all = text::lines(text@);
    proof {
        text::lemma_lines_bytes(text@);
    }
    let mut r: Vec<Vec<Token>> = Vec::new();
    let mut i: usize = 0;
    while i < lv.len()
        invariant
            all == text::lines(text@),
            text::slices(lv@) == all,
            text::byte_len(text@) <= usize::MAX,
            forall|k: int| 0 <= k < all.len() ==> text::byte_len(#[trigger] all[k]) <= text::byte_len(text@),
            i <= lv@.len(),
            rows_view(r@) =~= text_tokens(text@).take(i as int),
        decreases lv@.len() - i,
    {
        assert(all[i as int] == lv@[i as int]@);
        let t = lex_chars(lv[i]);
        let ghost before = rows_view(r@);
        r.push(t);
        assert(rows_view(r@) =~= before.push(tokens_view(t@)));
        i += 1;
    }
    assert(rows_view(r@) =~= text_tokens(text@));
    r
}

// ── what holds of tokens ────────────────────────────────────────────────────

/// Every lexeme from `i` on lies behind `i`, is not empty, and begins no earlier
/// than the one before it ends.
#[verifier::spinoff_prover]
proof fn lemma_lexemes(s: Seq<char>, i: int, depth: int)
    requires
        0 <= i <= s.len(),
    ensures
        forall|k: int|
            0 <= k < lexemes_from(s, i, depth).len() ==> i <= (#[trigger] lexemes_from(
                s,
                i,
                depth,
            )[k]).1 < lexemes_from(s, i, depth)[k].2 <= s.len(),
        forall|j: int, k: int|
            0 <= j < k < lexemes_from(s, i, depth).len() ==> (#[trigger] lexemes_from(
                s,
                i,
                depth,
            )[j]).2 <= (#[trigger] lexemes_from(s, i, depth)[k]).1,
    decreases s.len() - i,
{
    let v = lexemes_from(s, i, depth);
    if i < s.len() {
        if text::is_ws(s[i]) {
            lemma_lexemes(s, i + 1, depth);
            assert(v == lexemes_from(s, i + 1, depth));
        } else if (s[i] == ';' || s[i] == '#') && depth == 0 {
            assert(v.len() == 1);
            assert(v[0] == (Raw::Comment, i, s.len() as int));
        } else {
            lemma_quote_end(s, i + 1, s[i]);
            text::lemma_first_from(s, not_lex_char(), i);
            if is_lex_char(s[i]) && text::first_from(s, not_lex_char(), i) == i {
                assert(not_lex_char()(s[i]));
            }
            let e = v[0].2;
            let d = if s[i] == '"' || s[i] == '\'' || is_lex_char(s[i]) {
                depth
            } else if s[i] == '[' {
                depth + 1
            } else if s[i] == ']' {
                depth - 1
            } else {
                depth
            };
            let rest = lexemes_from(s, e, d);
            assert(v == seq![v[0]] + rest);
            lemma_lexemes(s, e, d);
            assert forall|k: int| 0 <= k < v.len() implies i <= (#[trigger] v[k]).1 < v[k].2
                <= s.len() by {
                if k > 0 {
                    assert(v[k] == rest[k - 1]);
                }
            }
            assert forall|j: int, k: int| 0 <= j < k < v.len() implies (#[trigger] v[j]).2 <= (
            #[trigger] v[k]).1 by {
                assert(v[k] == rest[k - 1]);
                if j > 0 {
                    assert(v[j] == rest[j - 1]);
                }
            }
        }
    }
}

/// Tokens lie within their line, are not empty, begin and end between characters,
/// and come in order without overlapping.
pub proof fn law_tokens_are_ordered_spans(s: Seq<char>)
    ensures
        forall|k: int|
            0 <= k < line_tokens(s).len() ==> 0 <= (#[trigger] line_tokens(s)[k]).1
                < line_tokens(s)[k].2 <= text::byte_len(s) && text::on_boundary(s, line_tokens(s)[k].1)
                && text::on_boundary(s, line_tokens(s)[k].2),
        forall|j: int, k: int|
            0 <= j < k < line_tokens(s).len() ==> (#[trigger] line_tokens(s)[j]).2 <= (
            #[trigger] line_tokens(s)[k]).1,
{
    let v = lexemes(s);
    let t = line_tokens(s);
    lemma_lexemes(s, 0, 0);
    assert forall|k: int| 0 <= k < t.len() implies 0 <= (#[trigger] t[k]).1 < t[k].2 <= text::byte_len(s)
        && text::on_boundary(s, t[k].1) && text::on_boundary(s, t[k].2) by {
        assert(0 <= v[k].1 < v[k].2 <= s.len());
        text::lemma_offset_grows(s, v[k].1, v[k].2);
        text::lemma_index_of_offset(s, v[k].1);
        text::lemma_index_of_offset(s, v[k].2);
    }
    assert forall|j: int, k: int| 0 <= j < k < t.len() implies (#[trigger] t[j]).2 <= (
    #[trigger] t[k]).1 by {
        assert(v[j].2 <= v[k].1);
        assert(v[k].1 < v[k].2 <= s.len());
        assert(0 <= v[j].1 < v[j].2);
        text::lemma_offset_grows(s, v[j].2, v[k].1);
    }
}

} // verus!
