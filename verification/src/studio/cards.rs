//! What the assistant shows for the caret, and where a definition is.
use crate::studio::doc_model;
use crate::studio::hover;
use crate::studio::lang;
use crate::studio::session;
use crate::studio::tips;
use crate::text;
use crate::studio::doc_model::DocView;
use crate::studio::hover::token_at;
use crate::studio::lang::text_between;
use crate::studio::session::{Session, SessionView};
use crate::studio::syntax::TokKind;
use crate::studio::tips::bound_interface;
use crate::text::{char_index, char_is_word, chars_of, index_of, is, push_dec, push_text, string_of};
use vstd::prelude::*;
use vstd::slice::slice_subrange;

verus! {

pub open spec fn not_dotted() -> spec_fn(char) -> bool {
    |c: char| !(text::is_word_char(c) || c == '_' || c == '.')
}

/// The name around a position, with the dots in it.
pub open spec fn dotted_token(line: Seq<char>, k: int) -> Seq<char> {
    line.subrange(text::last_below(line, not_dotted(), k) + 1, text::first_from(line, not_dotted(), k))
}

/// The token at a byte that a card is worth showing for: a name, a constant, a
/// register or a mnemonic.
pub open spec fn card_word(line: Seq<char>, col: int) -> Option<Seq<char>> {
    match hover::covering_token(line, col) {
        Some(t) => if t.0 == TokKind::Ident || t.0 == TokKind::Constant || t.0
            == TokKind::Register || t.0 == TokKind::Mnemonic {
            Some(lang::bytes_between(line, t.1, t.2))
        } else {
            None
        },
        None => None,
    }
}

/// What the card at a place is asked for: a typed pointer's interface, a method on
/// one, a field of a struct, or the word there.
pub open spec fn query_at(
    line: Seq<char>,
    col: int,
    binds: Seq<(Seq<char>, Seq<char>)>,
) -> Option<Seq<char>> {
    let tok = dotted_token(line, text::index_at(line, col));
    let n = text::find(tok, '.');
    if n < tok.len() {
        match tips::bound_from(binds, tok.take(n), 0) {
            Some(iface) => Some(iface + "::"@ + tok.skip(n + 1)),
            None => if n > 0 {
                Some(tok)
            } else {
                card_word(line, col)
            },
        }
    } else {
        match tips::bound_from(binds, tok, 0) {
            Some(iface) => Some(iface),
            None => card_word(line, col),
        }
    }
}

fn is_dotted(c: char) -> (r: bool)
    ensures
        r == !not_dotted()(c),
{
    char_is_word(c) || c == '_' || c == '.'
}

fn dotted_at<'a>(line: &'a [char], k: usize) -> (r: &'a [char])
    requires
        k <= line@.len(),
    ensures
        r@ == dotted_token(line@, k as int),
{
    let mut s: usize = k;
    while s > 0
        invariant_except_break
            s <= k <= line@.len(),
            text::last_below(line@, not_dotted(), k as int) == text::last_below(
                line@,
                not_dotted(),
                s as int,
            ),
        ensures
            s <= k,
            s == text::last_below(line@, not_dotted(), k as int) + 1,
        decreases s,
    {
        if !is_dotted(line[s - 1]) {
            break;
        }
        s -= 1;
    }
    let mut e: usize = k;
    while e < line.len()
        invariant_except_break
            k <= e <= line@.len(),
            text::first_from(line@, not_dotted(), k as int) == text::first_from(
                line@,
                not_dotted(),
                e as int,
            ),
        ensures
            k <= e <= line@.len(),
            e == text::first_from(line@, not_dotted(), k as int),
        decreases line@.len() - e,
    {
        if !is_dotted(line[e]) {
            break;
        }
        e += 1;
    }
    slice_subrange(line, s, e)
}

/// The word at a byte of a line that a card is worth showing for.
pub fn lang_word(line: &str, col: usize) -> (r: Option<String>)
    ensures
        text::opt_text(r) == card_word(line@, col as int),
{
    match token_at(line, col) {
        Some(t) => {
            if t.kind == TokKind::Ident || t.kind == TokKind::Constant || t.kind
                == TokKind::Register || t.kind == TokKind::Mnemonic {
                let w = text_between(line, t.start, t.end);
                Some(string_of(&w))
            } else {
                None
            }
        },
        None => None,
    }
}

/// What the card for a byte of a line is asked for.
pub fn card_query(line: &str, col: usize, binds: &[(String, String)]) -> (r: Option<String>)
    ensures
        text::opt_text(r) == query_at(line@, col as int, tips::binds_view(binds@)),
{
    let c = chars_of(line);
    let k: usize = char_index(&c, col);
    let tok = dotted_at(&c, k);
    let n: usize = index_of(tok, '.');
    let len: usize = tok.len();
    if n < len {
        let name = string_of(slice_subrange(tok, 0, n));
        match bound_interface(binds, name.as_str()) {
            Some(iface) => {
                let mut m = iface.to_owned();
                m.append("::");
                push_text(&mut m, slice_subrange(tok, n + 1, len));
                Some(m)
            },
            None => {
                if n > 0 {
                    Some(string_of(tok))
                } else {
                    lang_word(line, col)
                }
            },
        }
    } else {
        let name = string_of(tok);
        match bound_interface(binds, name.as_str()) {
            Some(iface) => Some(iface.to_owned()),
            None => lang_word(line, col),
        }
    }
}

// ── equates ─────────────────────────────────────────────────────────────────

/// A constant that the buffer defines: its name, expression, value and line, counted
/// from 1.
#[derive(Debug, Clone)]
pub struct EquateDef {
    pub name: String,
    pub expr: String,
    pub value: i64,
    pub line: usize,
}

/// The first equate of a name from `i` on.
pub open spec fn equate_from(v: Seq<EquateDef>, name: Seq<char>, i: int) -> Option<EquateDef>
    decreases v.len() - i,
{
    if i >= v.len() {
        None
    } else if v[i].name@ == name {
        Some(v[i])
    } else {
        equate_from(v, name, i + 1)
    }
}

/// The card of an equate.
pub open spec fn equate_text(e: EquateDef) -> Seq<char> {
    "## "@ + e.name@ + " — your equate\n\n`"@ + e.name@ + " = "@ + e.expr@ + "` = **"@
        + text::signed_dec(e.value as int) + "**\n\nDefined at line **"@ + text::dec(e.line as int)
        + "**. Ctrl+click the name to jump there.\n"@
}

/// The equate of a name.
pub fn find_equate<'a>(v: &'a Vec<EquateDef>, name: &[char]) -> (r: Option<&'a EquateDef>)
    ensures
        (match r {
            Some(e) => Some(*e),
            None => None,
        }) == equate_from(v@, name@, 0),
{
    let mut i: usize = 0;
    while i < v.len()
        invariant
            i <= v@.len(),
            equate_from(v@, name@, 0) == equate_from(v@, name@, i as int),
        decreases v@.len() - i,
    {
        if is(name, v[i].name.as_str()) {
            return Some(&v[i]);
        }
        i += 1;
    }
    None
}

/// The card of an equate: its definition, value and line.
pub fn equate_card(e: &EquateDef) -> (r: String)
    ensures
        r@ == equate_text(*e),
{
    let mut m = "## ".to_owned();
    m.append(e.name.as_str());
    m.append(" — your equate\n\n`");
    m.append(e.name.as_str());
    m.append(" = ");
    m.append(e.expr.as_str());
    m.append("` = **");
    push_dec(&mut m, e.value as i128);
    m.append("**\n\nDefined at line **");
    push_dec(&mut m, e.line as i128);
    m.append("**. Ctrl+click the name to jump there.\n");
    m
}

/// The equate that the token at a place names.
pub open spec fn equate_at(
    lines: Seq<Seq<char>>,
    equates: Seq<EquateDef>,
    row: int,
    col: int,
) -> Option<EquateDef> {
    let line = if row < lines.len() {
        lines[row]
    } else {
        ""@
    };
    match hover::covering_token(line, col) {
        Some(t) => equate_from(equates, lang::bytes_between(line, t.1, t.2), 0),
        None => None,
    }
}

/// The session after a jump to the equate at a place, and whether there is one.
pub open spec fn equate_jump(
    v: SessionView,
    equates: Seq<EquateDef>,
    row: int,
    col: int,
) -> (SessionView, bool) {
    match equate_at(v.doc.lines, equates, row, col) {
        Some(e) => {
            let d = DocView { anchor: None, ..v.doc };
            let line = if e.line > 0 {
                e.line - 1
            } else {
                0
            };
            (
                SessionView {
                    doc: doc_model::moved(d, doc_model::snapped(d.lines, doc_model::clamped_row(d.lines, line), 0)),
                    notice: "jumped to `"@ + e.name@ + "` (line "@ + text::dec(e.line as int) + ")"@,
                    ..v
                },
                true,
            )
        },
        None => (v, false),
    }
}

impl Session {
    /// Goes to the definition of the equate that the token at a place names, and says
    /// whether there is one.
    pub fn goto_equate(&mut self, equates: &Vec<EquateDef>, row: usize, col: usize) -> (r: bool)
        requires
            old(self).wf(),
        ensures
            final(self).wf(),
            (final(self)@, r) == equate_jump(old(self)@, equates@, row as int, col as int),
    {
        let name = match token_at(self.doc.line(row), col) {
            Some(t) => text_between(self.doc.line(row), t.start, t.end),
            None => return false,
        };
        match find_equate(equates, &name) {
            Some(e) => {
                proof {
                    session::lemma_sound_is_placed(&self.doc);
                }
                let line: usize = if e.line > 0 {
                    e.line - 1
                } else {
                    0
                };
                self.doc.clear_selection();
                self.doc.set_caret(line, 0);
                let mut m = "jumped to `".to_owned();
                m.append(e.name.as_str());
                m.append("` (line ");
                push_dec(&mut m, e.line as i128);
                m.append(")");
                self.notice = m;
                true
            },
            None => false,
        }
    }
}

// ── recent files ────────────────────────────────────────────────────────────

/// The paths of `v` other than `p`.
pub open spec fn other_paths(v: Seq<Seq<char>>, p: Seq<char>) -> Seq<Seq<char>> {
    v.filter(|x: Seq<char>| x != p)
}

/// The recent files with `p` in front: each once, nine at most.
pub open spec fn recent_with(v: Seq<Seq<char>>, p: Seq<char>) -> Seq<Seq<char>> {
    at_most_paths(seq![p] + other_paths(v, p), 9)
}

/// The first `n` paths.
pub open spec fn at_most_paths(v: Seq<Seq<char>>, n: int) -> Seq<Seq<char>> {
    if v.len() > n {
        v.take(n)
    } else {
        v
    }
}

/// The recent files after `path` was used.
pub fn add_recent(recent: &[String], path: &str) -> (r: Vec<String>)
    ensures
        text::strings(r@) == recent_with(text::strings(recent@), path@),
{
    let ghost p = |x: Seq<char>| x != path@;
    let ghost all = text::strings(recent@);
    let mut out: Vec<String> = Vec::new();
    out.push(path.to_owned());
    let mut i: usize = 0;
    let ghost want = seq![path@] + all.filter(p);
    assert(all.take(0) =~= Seq::empty());
    proof {
        reveal(Seq::filter);
    }
    assert(text::strings(out@) =~= seq![path@] + all.take(0).filter(p));
    while i < recent.len()
        invariant
            p == (|x: Seq<char>| x != path@),
            all == text::strings(recent@),
            i <= recent@.len(),
            text::strings(out@) =~= seq![path@] + all.take(i as int).filter(p),
        decreases recent@.len() - i,
    {
        proof {
            reveal(Seq::filter);
        }
        assert(all.take(i + 1).drop_last() =~= all.take(i as int));
        assert(all[i as int] == recent@[i as int]@);
        let ghost before = text::strings(out@);
        let c = chars_of(recent[i].as_str());
        let hit = is(&c, path);
        if !hit {
            let s = recent[i].clone();
            out.push(s);
            assert(text::strings(out@) =~= before.push(s@));
        }
        i += 1;
    }
    assert(all.take(all.len() as int) =~= all);
    let ghost full = text::strings(out@);
    if out.len() > 9 {
        out.truncate(9);
        assert(text::strings(out@) =~= full.take(9));
    }
    out
}

/// The file last used comes first, and no more than nine are kept.
pub proof fn law_recent_is_short(v: Seq<Seq<char>>, p: Seq<char>)
    ensures
        1 <= recent_with(v, p).len() <= 9,
        recent_with(v, p)[0] == p,
{
}

} // verus!
