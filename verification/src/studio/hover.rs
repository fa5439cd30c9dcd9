//! The token that the caret rests on.
use crate::studio::syntax;
use crate::studio::syntax::{Token, TokenView, lex_line};
use vstd::prelude::*;

verus! {

/// The position of the first of the tokens `v` from `k` on that covers the byte
/// `col`; the length of `v` where none does.
pub open spec fn covering(v: Seq<TokenView>, col: int, k: int) -> int
    decreases v.len() - k,
{
    if k >= v.len() {
        v.len() as int
    } else if v[k].1 <= col < v[k].2 {
        k
    } else {
        covering(v, col, k + 1)
    }
}

/// The token of `line` that covers the byte `col`.
pub open spec fn covering_token(line: Seq<char>, col: int) -> Option<TokenView> {
    let v = syntax::line_tokens(line);
    let k = covering(v, col, 0);
    if k < v.len() {
        Some(v[k])
    } else {
        None
    }
}

pub fn find_covering(v: &Vec<Token>, col: usize) -> (r: Option<Token>)
    ensures
        (match r {
            Some(t) => Some(t@),
            None => None,
        }) == ({
            let k = covering(syntax::tokens_view(v@), col as int, 0);
            if k < v@.len() {
                Some(syntax::tokens_view(v@)[k])
            } else {
                None
            }
        }),
{
    let ghost all = syntax::tokens_view(v@);
    let mut k: usize = 0;
    while k < v.len()
        invariant
            all == syntax::tokens_view(v@),
            k <= v@.len(),
            covering(all, col as int, 0) == covering(all, col as int, k as int),
        decreases v@.len() - k,
    {
        assert(all[k as int] == v@[k as int]@);
        if v[k].start <= col && col < v[k].end {
            return Some(v[k]);
        }
        k += 1;
    }
    None
}

/// The token that covers the byte `col` of `line`, if there is one.
pub fn token_at(line: &str, col: usize) -> (r: Option<Token>)
    ensures
        (match r {
            Some(t) => Some(t@),
            None => None,
        }) == covering_token(line@, col as int),
{
    let v = lex_line(line);
    assert(syntax::line_tokens(line@).len() == v@.len());
    find_covering(&v, col)
}

} // verus!
