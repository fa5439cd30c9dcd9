//! Words and brackets on one line, by character positions.
use crate::text;
use crate::text::{char_is_word, char_is_ws, first_word_of, is, to_lower};
use vstd::prelude::*;

verus! {

// ── words ───────────────────────────────────────────────────────────────────

/// A character of a word.
pub open spec fn word_part(c: char) -> bool {
    text::is_word_char(c) || c == '_'
}

/// Where a walk along the line stops.
#[derive(Clone, Copy, PartialEq, Eq, Structural)]
pub enum Stop {
    /// At a character that is no part of a word.
    NotWord,
    /// At a character that is no white space.
    NotSpace,
    /// At white space, and where words and other characters meet.
    Turn { word: bool },
}

/// The characters at which a walk stops.
pub open spec fn stops(s: Stop) -> spec_fn(char) -> bool {
    |c: char|
        match s {
            Stop::NotWord => !word_part(c),
            Stop::NotSpace => !text::is_ws(c),
            Stop::Turn { word } => text::is_ws(c) || word_part(c) != word,
        }
}

/// The first position of the word that position `k` is in.
pub open spec fn word_begin_at(line: Seq<char>, k: int) -> int {
    text::last_below(line, stops(Stop::NotWord), k) + 1
}

/// The position behind the word that position `k` is in.
pub open spec fn word_end_at(line: Seq<char>, k: int) -> int {
    text::first_from(line, stops(Stop::NotWord), k)
}

/// The word boundary before position `k`: white space is passed, then a run of word
/// characters or of others.
pub open spec fn word_left_at(line: Seq<char>, k: int) -> int {
    let a = text::last_below(line, stops(Stop::NotSpace), k) + 1;
    if a > 0 {
        text::last_below(line, stops(Stop::Turn { word: word_part(line[a - 1]) }), a) + 1
    } else {
        a
    }
}

/// The word boundary after position `k`: a run of word characters or of others is
/// passed, then white space.
pub open spec fn word_right_at(line: Seq<char>, k: int) -> int {
    let a = if k < line.len() && !text::is_ws(line[k]) {
        text::first_from(line, stops(Stop::Turn { word: word_part(line[k]) }), k)
    } else {
        k
    };
    text::first_from(line, stops(Stop::NotSpace), a)
}

/// Every character is part of a word.
pub open spec fn all_word(s: Seq<char>) -> bool {
    forall|i: int| 0 <= i < s.len() ==> word_part(#[trigger] s[i])
}

pub fn is_word(c: char) -> (r: bool)
    ensures
        r == word_part(c),
{
    char_is_word(c) || c == '_'
}

fn stops_at(s: Stop, c: char) -> (r: bool)
    ensures
        r == stops(s)(c),
{
    match s {
        Stop::NotWord => !is_word(c),
        Stop::NotSpace => !char_is_ws(c),
        Stop::Turn { word } => char_is_ws(c) || is_word(c) != word,
    }
}

fn walk_right(line: &[char], s: Stop, k: usize) -> (r: usize)
    requires
        k <= line@.len(),
    ensures
        r == text::first_from(line@, stops(s), k as int),
        k <= r <= line@.len(),
{
    let mut i: usize = k;
    while i < line.len()
        invariant_except_break
            k <= i <= line@.len(),
            text::first_from(line@, stops(s), k as int) == text::first_from(line@, stops(s), i as int),
        ensures
            k <= i <= line@.len(),
            i == text::first_from(line@, stops(s), k as int),
        decreases line@.len() - i,
    {
        if stops_at(s, line[i]) {
            break;
        }
        i += 1;
    }
    i
}

fn walk_left(line: &[char], s: Stop, k: usize) -> (r: usize)
    requires
        k <= line@.len(),
    ensures
        r == text::last_below(line@, stops(s), k as int) + 1,
        r <= k,
{
    let mut i: usize = k;
    while i > 0
        invariant_except_break
            i <= k <= line@.len(),
            text::last_below(line@, stops(s), k as int) == text::last_below(line@, stops(s), i as int),
        ensures
            i <= k,
            i == text::last_below(line@, stops(s), k as int) + 1,
        decreases i,
    {
        if stops_at(s, line[i - 1]) {
            break;
        }
        i -= 1;
    }
    i
}

pub fn word_start(line: &[char], k: usize) -> (r: usize)
    requires
        k <= line@.len(),
    ensures
        r == word_begin_at(line@, k as int),
        r <= k,
{
    walk_left(line, Stop::NotWord, k)
}

pub fn word_end(line: &[char], k: usize) -> (r: usize)
    requires
        k <= line@.len(),
    ensures
        r == word_end_at(line@, k as int),
        k <= r <= line@.len(),
{
    walk_right(line, Stop::NotWord, k)
}

pub fn word_left(line: &[char], k: usize) -> (r: usize)
    requires
        k <= line@.len(),
    ensures
        r == word_left_at(line@, k as int),
        r <= k,
{
    let a: usize = walk_left(line, Stop::NotSpace, k);
    if a > 0 {
        walk_left(line, Stop::Turn { word: is_word(line[a - 1]) }, a)
    } else {
        a
    }
}

pub fn word_right(line: &[char], k: usize) -> (r: usize)
    requires
        k <= line@.len(),
    ensures
        r == word_right_at(line@, k as int),
        k <= r <= line@.len(),
{
    let a: usize = if k < line.len() && !char_is_ws(line[k]) {
        walk_right(line, Stop::Turn { word: is_word(line[k]) }, k)
    } else {
        k
    };
    walk_right(line, Stop::NotSpace, a)
}

pub fn is_all_word(s: &[char]) -> (r: bool)
    ensures
        r == all_word(s@),
{
    let mut i: usize = 0;
    while i < s.len()
        invariant
            i <= s@.len(),
            forall|k: int| 0 <= k < i ==> word_part(#[trigger] s@[k]),
        decreases s@.len() - i,
    {
        if !is_word(s[i]) {
            assert(!word_part(s@[i as int]));
            return false;
        }
        i += 1;
    }
    true
}

/// The word boundaries to the left and right stay within the line, on their side of
/// the position, and away from it unless it is the line's end.
pub proof fn law_word_moves_advance(line: Seq<char>, k: int)
    requires
        0 <= k <= line.len(),
    ensures
        0 <= word_left_at(line, k) <= k,
        k <= word_right_at(line, k) <= line.len(),
        k > 0 ==> word_left_at(line, k) < k,
        k < line.len() ==> word_right_at(line, k) > k,
        word_begin_at(line, k) <= k <= word_end_at(line, k),
{
    text::lemma_last_below(line, stops(Stop::NotSpace), k);
    let a = text::last_below(line, stops(Stop::NotSpace), k) + 1;
    if a > 0 {
        let s = Stop::Turn { word: word_part(line[a - 1]) };
        text::lemma_last_below(line, stops(s), a);
        assert(!stops(s)(line[a - 1]));
    }
    let b = if k < line.len() && !text::is_ws(line[k]) {
        let s = Stop::Turn { word: word_part(line[k]) };
        text::lemma_first_from(line, stops(s), k);
        assert(!stops(s)(line[k]));
        text::first_from(line, stops(s), k)
    } else {
        k
    };
    text::lemma_first_from(line, stops(Stop::NotSpace), b);
    text::lemma_last_below(line, stops(Stop::NotWord), k);
    text::lemma_first_from(line, stops(Stop::NotWord), k);
}

// ── block openers ───────────────────────────────────────────────────────────

/// The text's first word opens an indented block.
pub open spec fn block_opener(s: Seq<char>) -> bool {
    let w = text::lower_all(text::first_word(s));
    ||| w == "proc"@
    ||| w == ".if"@
    ||| w == ".while"@
    ||| w == ".repeat"@
    ||| w == ".for"@
    ||| w == "struct"@
    ||| w == "macro"@
}

pub fn opens_block(s: &[char]) -> (r: bool)
    ensures
        r == block_opener(s@),
{
    let w = to_lower(first_word_of(s));
    is(&w, "proc") || is(&w, ".if") || is(&w, ".while") || is(&w, ".repeat") || is(&w, ".for")
        || is(&w, "struct") || is(&w, "macro")
}

// ── brackets ────────────────────────────────────────────────────────────────

/// The bracket that closes `c`.
pub open spec fn closing(c: char) -> Option<char> {
    if c == '(' {
        Some(')')
    } else if c == '[' {
        Some(']')
    } else if c == '{' {
        Some('}')
    } else {
        None
    }
}

/// The bracket that opens for `c`.
pub open spec fn opening(c: char) -> Option<char> {
    if c == ')' {
        Some('(')
    } else if c == ']' {
        Some('[')
    } else if c == '}' {
        Some('{')
    } else {
        None
    }
}

pub open spec fn is_bracket(c: char) -> bool {
    closing(c) is Some || opening(c) is Some
}

/// The bracket that position `k` is at or right behind.
pub open spec fn bracket_near(line: Seq<char>, k: int) -> Option<int> {
    if k < line.len() && is_bracket(line[k]) {
        Some(k)
    } else if k > 0 && is_bracket(line[k - 1]) {
        Some(k - 1)
    } else {
        None
    }
}

/// From position `i` on, with `depth` brackets open, where the last of them closes.
pub open spec fn close_from(line: Seq<char>, open: char, close: char, i: int, depth: int) -> Option<
    int,
>
    decreases line.len() - i,
{
    if i >= line.len() {
        None
    } else if line[i] == open {
        close_from(line, open, close, i + 1, depth + 1)
    } else if line[i] == close {
        if depth == 1 {
            Some(i)
        } else {
            close_from(line, open, close, i + 1, depth - 1)
        }
    } else {
        close_from(line, open, close, i + 1, depth)
    }
}

/// Below position `n`, with `depth` brackets to be opened, where the last of them
/// opens.
pub open spec fn open_below(line: Seq<char>, open: char, close: char, n: int, depth: int) -> Option<
    int,
>
    decreases n,
{
    if n <= 0 {
        None
    } else if line[n - 1] == close {
        open_below(line, open, close, n - 1, depth + 1)
    } else if line[n - 1] == open {
        if depth == 1 {
            Some(n - 1)
        } else {
            open_below(line, open, close, n - 1, depth - 1)
        }
    } else {
        open_below(line, open, close, n - 1, depth)
    }
}

/// The bracket that matches the one at position `b`.
pub open spec fn partner(line: Seq<char>, b: int) -> Option<int> {
    match closing(line[b]) {
        Some(c) => close_from(line, line[b], c, b, 0),
        None => match opening(line[b]) {
            Some(o) => open_below(line, o, line[b], b + 1, 0),
            None => None,
        },
    }
}

fn closing_of(c: char) -> (r: Option<char>)
    ensures
        r == closing(c),
{
    if c == '(' {
        Some(')')
    } else if c == '[' {
        Some(']')
    } else if c == '{' {
        Some('}')
    } else {
        None
    }
}

fn opening_of(c: char) -> (r: Option<char>)
    ensures
        r == opening(c),
{
    if c == ')' {
        Some('(')
    } else if c == ']' {
        Some('[')
    } else if c == '}' {
        Some('{')
    } else {
        None
    }
}

fn bracket(c: char) -> (r: bool)
    ensures
        r == is_bracket(c),
{
    closing_of(c).is_some() || opening_of(c).is_some()
}

pub fn find_bracket(line: &[char], k: usize) -> (r: Option<usize>)
    requires
        k <= line@.len(),
    ensures
        (match r {
            Some(b) => Some(b as int),
            None => None,
        }) == bracket_near(line@, k as int),
{
    if k < line.len() && bracket(line[k]) {
        Some(k)
    } else if k > 0 && bracket(line[k - 1]) {
        Some(k - 1)
    } else {
        None
    }
}

pub fn find_partner(line: &[char], b: usize) -> (r: Option<usize>)
    requires
        b < line@.len(),
    ensures
        (match r {
            Some(p) => Some(p as int),
            None => None,
        }) == partner(line@, b as int),
        r matches Some(p) ==> p < line@.len(),
{
    let ch = line[b];
    match closing_of(ch) {
        Some(close) => {
            let mut i: usize = b;
            let mut depth: usize = 0;
            while i < line.len()
                invariant
                    b <= i <= line@.len(),
                    b < line@.len(),
                    ch == line@[b as int],
                    closing(ch) == Some(close),
                    depth <= i - b,
                    i > b ==> depth >= 1,
                    close_from(line@, ch, close, b as int, 0) == close_from(
                        line@,
                        ch,
                        close,
                        i as int,
                        depth as int,
                    ),
                decreases line@.len() - i,
            {
                let c = line[i];
                if c == ch {
                    depth += 1;
                } else if c == close {
                    if depth == 1 {
                        return Some(i);
                    }
                    depth -= 1;
                }
                i += 1;
            }
            None
        },
        None => {
            match opening_of(ch) {
                Some(open) => {
                    let mut n: usize = b + 1;
                    let mut depth: usize = 0;
                    while n > 0
                        invariant
                            n <= b + 1 <= line@.len(),
                            ch == line@[b as int],
                            opening(ch) == Some(open),
                            depth <= b + 1 - n,
                            n <= b ==> depth >= 1,
                            open_below(line@, open, ch, b + 1, 0) == open_below(
                                line@,
                                open,
                                ch,
                                n as int,
                                depth as int,
                            ),
                        decreases n,
                    {
                        let c = line[n - 1];
                        if c == ch {
                            depth += 1;
                        } else if c == open {
                            if depth == 1 {
                                return Some(n - 1);
                            }
                            depth -= 1;
                        }
                        n -= 1;
                    }
                    None
                },
                None => None,
            }
        },
    }
}

/// How many more brackets open than close between the positions `b` and `i`.
spec fn open_count(line: Seq<char>, open: char, close: char, b: int, i: int) -> int
    decreases i - b,
{
    if i <= b {
        0
    } else {
        let before = open_count(line, open, close, b, i - 1);
        if line[i - 1] == open {
            before + 1
        } else if line[i - 1] == close {
            before - 1
        } else {
            before
        }
    }
}

proof fn lemma_close_from(line: Seq<char>, open: char, close: char, b: int, i: int)
    requires
        0 <= b <= i <= line.len(),
        b < line.len(),
        line[b] == open,
        open != close,
        forall|k: int| b < k <= i ==> #[trigger] open_count(line, open, close, b, k) >= 1,
        close_from(line, open, close, i, open_count(line, open, close, b, i)) is Some,
    ensures
        ({
            let e = close_from(line, open, close, i, open_count(line, open, close, b, i))->0;
            &&& i <= e < line.len()
            &&& e > b
            &&& line[e] == close
            &&& open_count(line, open, close, b, e + 1) == 0
            &&& forall|k: int| b < k <= e ==> #[trigger] open_count(line, open, close, b, k) >= 1
        }),
    decreases line.len() - i,
{
    let d = open_count(line, open, close, b, i);
    if line[i] == close && d == 1 {
        assert(open_count(line, open, close, b, i + 1) == 0);
    } else {
        assert(open_count(line, open, close, b, i + 1) >= 1) by {
            if i == b {
                assert(open_count(line, open, close, b, b) == 0);
            } else {
                assert(open_count(line, open, close, b, i) >= 1);
            }
        }
        lemma_close_from(line, open, close, b, i + 1);
    }
}

proof fn lemma_open_below(line: Seq<char>, open: char, close: char, b: int, e: int, n: int)
    requires
        0 <= b < n <= e + 1,
        e < line.len(),
        line[b] == open,
        open != close,
        open_count(line, open, close, b, e + 1) == 0,
        forall|k: int| b < k <= e ==> #[trigger] open_count(line, open, close, b, k) >= 1,
    ensures
        open_below(line, open, close, n, open_count(line, open, close, b, n)) == Some(b),
    decreases n,
{
    let d = open_count(line, open, close, b, n);
    if n == b + 1 {
        assert(open_count(line, open, close, b, b) == 0);
    } else {
        assert(open_count(line, open, close, b, n - 1) >= 1);
        lemma_open_below(line, open, close, b, e, n - 1);
    }
}

/// How many more brackets close than open from position `n` to position `e`.
spec fn shut_count(line: Seq<char>, open: char, close: char, n: int, e: int) -> int
    decreases e + 1 - n,
{
    if n > e {
        0
    } else {
        let behind = shut_count(line, open, close, n + 1, e);
        if line[n] == close {
            behind + 1
        } else if line[n] == open {
            behind - 1
        } else {
            behind
        }
    }
}

proof fn lemma_open_found(line: Seq<char>, open: char, close: char, e: int, n: int)
    requires
        0 <= n <= e + 1 <= line.len(),
        0 <= e,
        line[e] == close,
        open != close,
        forall|k: int| n <= k <= e ==> #[trigger] shut_count(line, open, close, k, e) >= 1,
        open_below(line, open, close, n, shut_count(line, open, close, n, e)) is Some,
    ensures
        ({
            let b = open_below(line, open, close, n, shut_count(line, open, close, n, e))->0;
            &&& 0 <= b < n
            &&& b < e
            &&& line[b] == open
            &&& shut_count(line, open, close, b, e) == 0
            &&& forall|k: int| b < k <= e ==> #[trigger] shut_count(line, open, close, k, e) >= 1
        }),
    decreases n,
{
    let d = shut_count(line, open, close, n, e);
    if n == e + 1 {
        assert(shut_count(line, open, close, e + 1, e) == 0);
    } else {
        assert(d >= 1);
    }
    if n > 0 {
        if line[n - 1] == open && d == 1 {
            assert(shut_count(line, open, close, n - 1, e) == 0);
        } else {
            assert(shut_count(line, open, close, n - 1, e) >= 1);
            lemma_open_found(line, open, close, e, n - 1);
        }
    }
}

proof fn lemma_close_found(line: Seq<char>, open: char, close: char, b: int, e: int, i: int)
    requires
        0 <= b <= i <= e < line.len(),
        b < e,
        line[b] == open,
        line[e] == close,
        open != close,
        shut_count(line, open, close, b, e) == 0,
        forall|k: int| b < k <= e ==> #[trigger] shut_count(line, open, close, k, e) >= 1,
    ensures
        close_from(line, open, close, i, shut_count(line, open, close, i, e)) == Some(e),
    decreases e - i,
{
    if i == e {
        assert(shut_count(line, open, close, e + 1, e) == 0);
    } else {
        assert(shut_count(line, open, close, i + 1, e) >= 1);
        lemma_close_found(line, open, close, b, e, i + 1);
    }
}

/// The match of a bracket's match is that bracket. The match of an opening one lies
/// behind it, that of a closing one before it.
pub proof fn law_brackets_match_both_ways(line: Seq<char>, b: int)
    requires
        0 <= b < line.len(),
        partner(line, b) is Some,
    ensures
        0 <= partner(line, b)->0 < line.len(),
        closing(line[b]) is Some ==> b < partner(line, b)->0,
        opening(line[b]) is Some ==> partner(line, b)->0 < b,
        partner(line, partner(line, b)->0) == Some(b),
{
    let e = partner(line, b)->0;
    if closing(line[b]) is Some {
        let open = line[b];
        let close = closing(open)->0;
        lemma_close_from(line, open, close, b, b);
        lemma_open_below(line, open, close, b, e, e + 1);
    } else {
        let close = line[b];
        let open = opening(close)->0;
        assert(shut_count(line, open, close, b + 1, b) == 0);
        lemma_open_found(line, open, close, b, b + 1);
        lemma_close_found(line, open, close, e, b, e);
    }
}

/// The word around a position is the longest run of word characters there.
pub proof fn law_word_is_the_longest_run(line: Seq<char>, k: int)
    requires
        0 <= k <= line.len(),
    ensures
        forall|i: int|
            word_begin_at(line, k) <= i < word_end_at(line, k) ==> word_part(#[trigger] line[i]),
        word_begin_at(line, k) > 0 ==> !word_part(line[word_begin_at(line, k) - 1]),
        word_end_at(line, k) < line.len() ==> !word_part(line[word_end_at(line, k)]),
{
    let p = stops(Stop::NotWord);
    text::lemma_last_below(line, p, k);
    text::lemma_first_from(line, p, k);
    assert forall|i: int| word_begin_at(line, k) <= i < word_end_at(line, k) implies word_part(
        #[trigger] line[i],
    ) by {
        assert(!p(line[i]));
    }
}

/// Moving left by a word skips the white space in front of the position and then the run of
/// one class, word characters or others, and stops where the run begins. Moving right leaves
/// the run that the position is in, and stops in front of what follows the white space.
pub proof fn law_word_moves_stop_at_runs(line: Seq<char>, k: int)
    requires
        0 <= k <= line.len(),
    ensures
        ({
            let p = word_left_at(line, k);
            exists|a: int|
                p <= a <= k && #[trigger] blank_between(line, a, k) && (a > 0 ==> !text::is_ws(
                    line[a - 1],
                ) && p < a) && one_run(line, p, a) && (p > 0 ==> !one_run(line, p - 1, a))
        }),
        ({
            let p = word_right_at(line, k);
            exists|a: int|
                k <= a <= p && one_run(line, k, a) && #[trigger] blank_between(line, a, p) && (p
                    < line.len() ==> !text::is_ws(line[p])) && (a < p || p == line.len() || k == a
                    || !one_run(line, k, p + 1))
        }),
{
    let ns = stops(Stop::NotSpace);
    // to the left
    text::lemma_last_below(line, ns, k);
    let a = text::last_below(line, ns, k) + 1;
    assert forall|i: int| a <= i < k implies text::is_ws(#[trigger] line[i]) by {
        assert(!ns(line[i]));
    }
    assert(blank_between(line, a, k));
    let p = word_left_at(line, k);
    if a > 0 {
        assert(ns(line[a - 1]));
        let w = word_part(line[a - 1]);
        let turn = stops(Stop::Turn { word: w });
        text::lemma_last_below(line, turn, a);
        assert(!turn(line[a - 1]));
        assert forall|i: int| p <= i < a implies !text::is_ws(#[trigger] line[i]) && word_part(line[i])
            == w by {
            assert(!turn(line[i]));
        }
        assert(one_run(line, p, a));
        if p > 0 {
            assert(turn(line[p - 1]));
            assert(!one_run(line, p - 1, a)) by {
                if one_run(line, p - 1, a) {
                    assert(word_part(line[p - 1]) == word_part(line[a - 1]));
                }
            }
        }
    } else {
        assert(one_run(line, p, a));
    }
    // to the right
    let b = if k < line.len() && !text::is_ws(line[k]) {
        text::first_from(line, stops(Stop::Turn { word: word_part(line[k]) }), k)
    } else {
        k
    };
    let q = word_right_at(line, k);
    if k < line.len() && !text::is_ws(line[k]) {
        let w = word_part(line[k]);
        let turn = stops(Stop::Turn { word: w });
        text::lemma_first_from(line, turn, k);
        assert forall|i: int| k <= i < b implies !text::is_ws(#[trigger] line[i]) && word_part(line[i])
            == w by {
            assert(!turn(line[i]));
        }
        assert(!turn(line[k]));
        assert(b > k);
    }
    assert(one_run(line, k, b));
    text::lemma_first_from(line, ns, b);
    assert forall|i: int| b <= i < q implies text::is_ws(#[trigger] line[i]) by {
        assert(!ns(line[i]));
    }
    assert(blank_between(line, b, q));
    if q < line.len() {
        assert(ns(line[q]));
    }
    if b == q && q < line.len() && k < b {
        assert(!one_run(line, k, q + 1)) by {
            let turn = stops(Stop::Turn { word: word_part(line[k]) });
            assert(turn(line[q]));
            if one_run(line, k, q + 1) {
                assert(word_part(line[k]) == word_part(line[q]));
            }
        }
    }
}

/// Only white space stands from `a` up to `b`.
pub open spec fn blank_between(line: Seq<char>, a: int, b: int) -> bool {
    forall|i: int| a <= i < b ==> text::is_ws(#[trigger] line[i])
}

/// From `a` up to `b` stands one run: no white space, and word characters only or none.
pub open spec fn one_run(line: Seq<char>, a: int, b: int) -> bool {
    &&& forall|i: int| a <= i < b ==> !text::is_ws(#[trigger] line[i])
    &&& forall|i: int, j: int|
        a <= i < b && a <= j < b ==> word_part(#[trigger] line[i]) == word_part(#[trigger] line[j])
}

} // verus!
