//! Where a diagnostic is underlined in the editor.
use crate::selkie::flowchart::types;
use crate::studio::hover;
use crate::studio::syntax;
use crate::text;
use crate::studio::hover::find_covering;
use crate::studio::lang::Diag;
use crate::studio::syntax::{Token, TokenView, lex_line};
use crate::text::bytes_in;
use vstd::prelude::*;

verus! {

/// The position of the first of the tokens `v` from `k` on that begins at the byte
/// `col`; the length of `v` where none does.
pub open spec fn beginning(v: Seq<TokenView>, col: int, k: int) -> int
    decreases v.len() - k,
{
    if k >= v.len() {
        v.len() as int
    } else if v[k].1 == col {
        k
    } else {
        beginning(v, col, k + 1)
    }
}

/// The byte range of `line` to underline for a diagnostic at the column `col`, from
/// 1: the token that begins there, else the one that covers it, else one byte;
/// column 0 underlines the line.
pub open spec fn underline_of(line: Seq<char>, col: int) -> (int, int) {
    let v = syntax::line_tokens(line);
    let n = text::byte_len(line) as int;
    let target = col - 1;
    let b = beginning(v, target, 0);
    let k = hover::covering(v, target, 0);
    if col == 0 {
        (0, n)
    } else if b < v.len() {
        (v[b].1, v[b].2)
    } else if k < v.len() {
        (v[k].1, v[k].2)
    } else if target < n {
        (target, target + 1)
    } else {
        (n, n)
    }
}

fn find_beginning(v: &Vec<Token>, col: usize) -> (r: Option<Token>)
    ensures
        (match r {
            Some(t) => Some(t@),
            None => None,
        }) == ({
            let k = beginning(syntax::tokens_view(v@), col as int, 0);
            if k < v@.len() {
                Some(syntax::tokens_view(v@)[k])
            } else {
                None
            }
        }),
{
    let ghost all = syntax::tokens_view(v@);
    let mut k: usize = 0;
    while k < v.len()
        invariant
            all == syntax::tokens_view(v@),
            k <= v@.len(),
            beginning(all, col as int, 0) == beginning(all, col as int, k as int),
        decreases v@.len() - k,
    {
        assert(all[k as int] == v@[k as int]@);
        if v[k].start == col {
            return Some(v[k]);
        }
        k += 1;
    }
    None
}

/// The byte range of `line` to underline for a diagnostic at the column `col`.
pub fn underline(line: &str, col: usize) -> (r: (usize, usize))
    ensures
        (r.0 as int, r.1 as int) == underline_of(line@, col as int),
{
    let n: usize = bytes_in(line);
    if col == 0 {
        return (0, n);
    }
    let target: usize = col - 1;
    let v = lex_line(line);
    assert(syntax::line_tokens(line@).len() == v@.len());
    match find_beginning(&v, target) {
        Some(t) => return (t.start, t.end),
        None => {},
    }
    match find_covering(&v, target) {
        Some(t) => return (t.start, t.end),
        None => {},
    }
    if target < n {
        (target, target + 1)
    } else {
        (n, n)
    }
}

/// A diagnostic placed in the editor: a row, and a byte range in it.
#[derive(Debug, Clone, PartialEq, Eq)]
pub struct Underline {
    pub row: usize,
    pub start: usize,
    pub end: usize,
    pub message: String,
}

/// An underline in mathematical terms.
pub struct UnderlineView {
    pub row: int,
    pub start: int,
    pub end: int,
    pub message: Seq<char>,
}

impl View for Underline {
    type V = UnderlineView;

    open spec fn view(&self) -> UnderlineView {
        UnderlineView {
            row: self.row as int,
            start: self.start as int,
            end: self.end as int,
            message: self.message@,
        }
    }
}

/// Where `d` is underlined in a buffer of the lines `v`: at its column, or on the
/// whole first row where its line is out of range, as for one that speaks of the file.
pub open spec fn placed_diag(v: Seq<Seq<char>>, d: Diag) -> UnderlineView {
    if 1 <= d.line <= v.len() {
        let (start, end) = underline_of(v[d.line - 1], d.col as int);
        UnderlineView { row: d.line - 1, start, end, message: d.message@ }
    } else {
        UnderlineView {
            row: 0,
            start: 0,
            end: if v.len() == 0 {
                0
            } else {
                text::byte_len(v[0]) as int
            },
            message: d.message@,
        }
    }
}

/// The views of underlines.
pub open spec fn underlines_view(v: Seq<Underline>) -> Seq<UnderlineView> {
    Seq::new(v.len(), |i: int| v[i]@)
}

fn place_diag(lines: &[&str], d: &Diag) -> (r: Underline)
    ensures
        r@ == placed_diag(types::strs(lines@), *d),
{
    let ghost v = types::strs(lines@);
    let n: usize = lines.len();
    assert(v.len() == n);
    let message = d.message.clone();
    if d.line >= 1 && d.line <= n {
        let row: usize = d.line - 1;
        assert(v[row as int] == lines@[row as int]@);
        let (start, end) = underline(lines[row], d.col);
        Underline { row, start, end, message }
    } else if n == 0 {
        Underline { row: 0, start: 0, end: 0, message }
    } else {
        assert(v[0] == lines@[0]@);
        Underline { row: 0, start: 0, end: bytes_in(lines[0]), message }
    }
}

/// Where each diagnostic is underlined in the buffer `lines`.
pub fn underlines(lines: &[&str], diags: &[Diag]) -> (r: Vec<Underline>)
    ensures
        underlines_view(r@) == diags@.map_values(|d: Diag| placed_diag(types::strs(lines@), d)),
{
    let ghost all = diags@.map_values(|d: Diag| placed_diag(types::strs(lines@), d));
    let mut r: Vec<Underline> = Vec::new();
    let mut i: usize = 0;
    assert(underlines_view(r@) =~= Seq::empty());
    while i < diags.len()
        invariant
            all == diags@.map_values(|d: Diag| placed_diag(types::strs(lines@), d)),
            i <= diags@.len(),
            underlines_view(r@) =~= all.take(i as int),
        decreases diags@.len() - i,
    {
        let u = place_diag(lines, &diags[i]);
        let ghost before = underlines_view(r@);
        r.push(u);
        assert(underlines_view(r@) =~= before.push(u@));
        i += 1;
    }
    assert(underlines_view(r@) =~= all);
    r
}

/// An underline lies within its line.
pub proof fn law_underline_within(line: Seq<char>, col: int)
    requires
        col >= 0,
    ensures
        0 <= underline_of(line, col).0 <= underline_of(line, col).1 <= text::byte_len(line),
{
    syntax::law_tokens_are_ordered_spans(line);
    let v = syntax::line_tokens(line);
    lemma_beginning(v, col - 1, 0);
    lemma_covering(v, col - 1, 0);
}

proof fn lemma_beginning(v: Seq<TokenView>, col: int, k: int)
    requires
        0 <= k <= v.len(),
    ensures
        k <= beginning(v, col, k) <= v.len(),
    decreases v.len() - k,
{
    if k < v.len() && v[k].1 != col {
        lemma_beginning(v, col, k + 1);
    }
}

proof fn lemma_covering(v: Seq<TokenView>, col: int, k: int)
    requires
        0 <= k <= v.len(),
    ensures
        k <= hover::covering(v, col, k) <= v.len(),
    decreases v.len() - k,
{
    if k < v.len() && !(v[k].1 <= col < v[k].2) {
        lemma_covering(v, col, k + 1);
    }
}

} // verus!
