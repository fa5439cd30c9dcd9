//! What the readers of a line see: quotes and brackets shield what is in them, a comment and
//! a top-level comma stand outside, and a name in an operand becomes what it stands for.
use crate::text;
use crate::was::check_laws;
use crate::was::lex;
use crate::was::macros;
use crate::was::operands;
use crate::was::regs;
use crate::winkb::kb::Kb;
use vstd::prelude::*;

verus! {

// ── quotes and brackets ─────────────────────────────────────────────────────

/// The quote that is open in front of position `i`.
pub open spec fn quote_before(s: Seq<char>, i: int) -> Option<char>
    decreases i,
{
    if i <= 0 {
        None
    } else {
        let c = s[i - 1];
        match quote_before(s, i - 1) {
            Some(q) => if c == q {
                None
            } else {
                Some(q)
            },
            None => if c == '\'' || c == '"' {
                Some(c)
            } else {
                None
            },
        }
    }
}

/// How many brackets are open in front of position `i`, those in quotes aside; round ones
/// count where `round` is set.
pub open spec fn depth_before(s: Seq<char>, i: int, round: bool) -> int
    decreases i,
{
    if i <= 0 {
        0
    } else {
        let c = s[i - 1];
        depth_before(s, i - 1, round) + (if quote_before(s, i - 1) is Some {
            0int
        } else if c == '[' || (round && c == '(') {
            1
        } else if c == ']' || (round && c == ')') {
            -1
        } else {
            0
        })
    }
}

/// A comment starts at `k`: a `;` or `#` outside quotes and square brackets.
pub open spec fn comment_at(s: Seq<char>, k: int) -> bool {
    &&& 0 <= k < s.len()
    &&& s[k] == ';' || s[k] == '#'
    &&& quote_before(s, k) is None
    &&& depth_before(s, k, false) == 0
}

/// A comma at `k` that separates: outside quotes and brackets.
pub open spec fn comma_at(s: Seq<char>, k: int) -> bool {
    &&& 0 <= k < s.len()
    &&& s[k] == ','
    &&& quote_before(s, k) is None
    &&& depth_before(s, k, true) == 0
}

proof fn lemma_comment_from(s: Seq<char>, i: int)
    requires
        0 <= i <= s.len(),
    ensures
        ({
            let e = lex::comment_from(s, i, depth_before(s, i, false), quote_before(s, i));
            &&& i <= e <= s.len()
            &&& e < s.len() ==> comment_at(s, e)
            &&& forall|k: int| i <= k < e ==> !#[trigger] comment_at(s, k)
        }),
    decreases s.len() - i,
{
    if i < s.len() {
        lemma_comment_from(s, i + 1);
    }
}

/// A line loses its comment and nothing else: what is left is the line up to the first `;` or
/// `#` outside quotes and square brackets.
pub proof fn law_comment_starts_at_the_first_mark(s: Seq<char>)
    ensures
        lex::strip_comment(s) == s.take(lex::strip_comment(s).len() as int),
        lex::strip_comment(s).len() <= s.len(),
        lex::strip_comment(s).len() < s.len() ==> comment_at(s, lex::strip_comment(s).len() as int),
        forall|k: int|
            0 <= k < lex::strip_comment(s).len() ==> !#[trigger] comment_at(s, k),
{
    lemma_comment_from(s, 0);
}

proof fn lemma_commas_shift(
    x: Seq<char>,
    s: Seq<char>,
    start: int,
    i: int,
    depth: int,
    quote: Option<char>,
)
    requires
        0 <= start <= i <= s.len(),
    ensures
        lex::commas_from(x + s, x.len() + start, x.len() + i, depth, quote) == lex::commas_from(
            s,
            start,
            i,
            depth,
            quote,
        ),
    decreases s.len() - i,
{
    let t = x + s;
    if i >= s.len() {
        assert(t.subrange(x.len() + start, t.len() as int) =~= s.subrange(start, s.len() as int));
    } else {
        assert(t[x.len() + i] == s[i]);
        if quote is Some {
            lemma_commas_shift(
                x,
                s,
                start,
                i + 1,
                depth,
                if s[i] == quote->0 {
                    None
                } else {
                    quote
                },
            );
        } else if s[i] == '\'' || s[i] == '"' {
            lemma_commas_shift(x, s, start, i + 1, depth, Some(s[i]));
        } else if s[i] == '[' || s[i] == '(' {
            lemma_commas_shift(x, s, start, i + 1, depth + 1, None);
        } else if s[i] == ']' || s[i] == ')' {
            lemma_commas_shift(x, s, start, i + 1, depth - 1, None);
        } else if s[i] == ',' && depth == 0 {
            lemma_commas_shift(x, s, i + 1, i + 1, depth, None);
            assert(t.subrange(x.len() + start, x.len() + i) =~= s.subrange(start, i));
        } else {
            lemma_commas_shift(x, s, start, i + 1, depth, None);
        }
    }
}

proof fn lemma_commas_up_to(s: Seq<char>, i: int, k: int)
    requires
        0 <= i <= k <= s.len(),
        forall|l: int| i <= l < k ==> !#[trigger] comma_at(s, l),
    ensures
        lex::commas_from(s, 0, i, depth_before(s, i, true), quote_before(s, i)) == lex::commas_from(
            s,
            0,
            k,
            depth_before(s, k, true),
            quote_before(s, k),
        ),
    decreases k - i,
{
    if i < k {
        assert(!comma_at(s, i));
        lemma_commas_up_to(s, i + 1, k);
    }
}

/// A list is split at the commas outside quotes and brackets: at the first of them into what
/// stands in front and the list behind, and where there is none it is one piece.
pub proof fn law_lists_are_split_at_the_top(s: Seq<char>, k: int)
    ensures
        (forall|l: int| !#[trigger] comma_at(s, l)) ==> lex::split_commas(s) == seq![s],
        comma_at(s, k) && (forall|l: int| 0 <= l < k ==> !#[trigger] comma_at(s, l))
            ==> lex::split_commas(s) == seq![s.take(k)] + lex::split_commas(s.skip(k + 1)),
{
    if forall|l: int| !#[trigger] comma_at(s, l) {
        lemma_commas_up_to(s, 0, s.len() as int);
        assert(s.subrange(0, s.len() as int) =~= s);
    }
    if comma_at(s, k) && (forall|l: int| 0 <= l < k ==> !#[trigger] comma_at(s, l)) {
        lemma_commas_up_to(s, 0, k);
        let x = s.take(k + 1);
        let rest = s.skip(k + 1);
        assert(x + rest =~= s);
        lemma_commas_shift(x, rest, 0, 0, 0, None);
        assert(s.subrange(0, k) =~= s.take(k));
    }
}

// ── names in operands ───────────────────────────────────────────────────────

/// What a name in an operand becomes. A register or a label stays; a known constant becomes
/// its value; a member path of a known structure becomes the member's offset, unless it
/// begins with a register or a label; any other name stays.
pub proof fn law_what_a_name_becomes(kb: &Kb, labels: Seq<Seq<char>>, tok: Seq<char>)
    ensures
        !tok.contains('.') && (regs::names_register(tok) || labels.contains(tok))
            ==> operands::token_text(kb, labels, tok) == tok,
        !tok.contains('.') && !regs::names_register(tok) && !labels.contains(tok) && kb.spec_resolve(
            tok,
        ).len() > 0 ==> operands::token_text(kb, labels, tok) == text::signed_dec(
            kb.spec_resolve(tok)[0].i64v as int,
        ),
        !tok.contains('.') && kb.spec_resolve(tok).len() == 0 ==> operands::token_text(
            kb,
            labels,
            tok,
        ) == tok,
        forall|lhs: Seq<char>, path: Seq<char>|
            tok == #[trigger] (lhs + seq!['.'] + path) && !lhs.contains('.') ==> operands::token_text(
                kb,
                labels,
                tok,
            ) == (if regs::names_register(lhs) || labels.contains(lhs) {
                tok
            } else {
                match operands::path_offset(kb, lhs, path) {
                    Some((off, size)) => text::signed_dec(off),
                    None => tok,
                }
            }),
{
    let p = text::eq_char('.');
    text::lemma_first_from(tok, p, 0);
    let d = text::find(tok, '.');
    if d < tok.len() {
        assert(tok[d] == '.');
        assert(tok.contains(tok[d]));
    }
    assert forall|lhs: Seq<char>, path: Seq<char>|
        tok == #[trigger] (lhs + seq!['.'] + path) && !lhs.contains('.') implies operands::token_text(
        kb,
        labels,
        tok,
    ) == (if regs::names_register(lhs) || labels.contains(lhs) {
        tok
    } else {
        match operands::path_offset(kb, lhs, path) {
            Some((off, size)) => text::signed_dec(off),
            None => tok,
        }
    }) by {
        let n = lhs.len() as int;
        assert(tok[n] == '.');
        assert(p(tok[n]));
        if d < n {
            assert(tok[d] == lhs[d]);
            assert(lhs.contains(lhs[d]));
        }
        assert(d == n);
        assert(tok.take(d) =~= lhs);
        assert(tok.skip(d + 1) =~= path);
    }
}

proof fn lemma_first_moved(x: Seq<char>, s: Seq<char>, p: spec_fn(char) -> bool, a: int)
    requires
        0 <= a <= s.len(),
    ensures
        text::first_from(x + s, p, x.len() + a) == x.len() + text::first_from(s, p, a),
    decreases s.len() - a,
{
    if a < s.len() {
        assert((x + s)[x.len() + a] == s[a]);
        if !p(s[a]) {
            lemma_first_moved(x, s, p, a + 1);
        }
    }
}

proof fn lemma_operands_shift(kb: &Kb, labels: Seq<Seq<char>>, x: Seq<char>, s: Seq<char>, i: int)
    requires
        0 <= i <= s.len(),
    ensures
        operands::operands_from(kb, labels, x + s, x.len() + i) == operands::operands_from(
            kb,
            labels,
            s,
            i,
        ),
    decreases s.len() - i,
{
    let t = x + s;
    if i < s.len() {
        assert(t[x.len() + i] == s[i]);
        check_laws::lemma_reading_advances(s, i);
        if s[i] == '\'' || s[i] == '"' {
            lemma_first_moved(x, s, text::eq_char(s[i]), i + 1);
            let e = macros::literal_end(s, i);
            assert(macros::literal_end(t, x.len() + i) == x.len() + e);
            lemma_operands_shift(kb, labels, x, s, e);
            assert(t.subrange(x.len() + i, x.len() + e) =~= s.subrange(i, e));
        } else if text::is_alpha(s[i]) || s[i] == '_' {
            let p = |c: char| !text::is_ident(c) && c != '.';
            lemma_first_moved(x, s, p, i);
            let e = operands::dotted_end(s, i);
            assert(operands::dotted_end(t, x.len() + i) == x.len() + e);
            assert(t.subrange(x.len() + i, x.len() + e) =~= s.subrange(i, e));
            assert(t.skip(x.len() + e) =~= s.skip(e));
            let (n, ty) = operands::sizeof_arg(s.skip(e));
            operands::lemma_sizeof_arg(s.skip(e));
            if s.subrange(i, e) == "sizeof"@ {
                lemma_operands_shift(kb, labels, x, s, e + n);
            } else {
                lemma_operands_shift(kb, labels, x, s, e);
            }
        } else {
            lemma_operands_shift(kb, labels, x, s, i + 1);
        }
    }
}

/// `head` put in front of a text, where there is one.
pub open spec fn led_by(head: Seq<char>, r: Result<Seq<char>, Seq<char>>) -> Result<
    Seq<char>,
    Seq<char>,
> {
    match r {
        Ok(t) => Ok(head + t),
        Err(m) => Err(m),
    }
}

/// An operand is resolved piece by piece: a whole name, dots included, becomes what it stands
/// for, a quoted literal stays as it is, and so does any other character.
#[verifier::spinoff_prover]
pub proof fn law_operands_go_by_pieces(
    kb: &Kb,
    labels: Seq<Seq<char>>,
    w: Seq<char>,
    c: char,
    q: char,
    lit: Seq<char>,
    rest: Seq<char>,
)
    requires
        w.len() > 0 && (text::is_alpha(w[0]) || w[0] == '_'),
        forall|i: int| 0 <= i < w.len() ==> text::is_ident(#[trigger] w[i]) || w[i] == '.',
        w != "sizeof"@,
        !text::is_alpha(c) && c != '_' && c != '\'' && c != '"',
        q == '\'' || q == '"',
        !lit.contains(q),
    ensures
        rest.len() == 0 || (!text::is_ident(rest[0]) && rest[0] != '.') ==> operands::resolved(
            kb,
            labels,
            w + rest,
        ) == led_by(operands::token_text(kb, labels, w), operands::resolved(kb, labels, rest)),
        operands::resolved(kb, labels, seq![c] + rest) == led_by(
            seq![c],
            operands::resolved(kb, labels, rest),
        ),
        operands::resolved(kb, labels, seq![q] + lit + seq![q] + rest) == led_by(
            seq![q] + lit + seq![q],
            operands::resolved(kb, labels, rest),
        ),
        operands::resolved(kb, labels, Seq::empty()) == Ok::<Seq<char>, Seq<char>>(Seq::empty()),
{
    if rest.len() == 0 || (!text::is_ident(rest[0]) && rest[0] != '.') {
        let s = w + rest;
        let p = |x: char| !text::is_ident(x) && x != '.';
        text::lemma_first_from(s, p, 0);
        let e = operands::dotted_end(s, 0);
        assert(e == w.len()) by {
            if e < w.len() {
                assert(s[e] == w[e]);
            }
            if rest.len() > 0 {
                assert(s[w.len() as int] == rest[0]);
                assert(p(s[w.len() as int]));
            }
        }
        assert(s[0] == w[0]);
        assert(s.subrange(0, e) =~= w);
        lemma_operands_shift(kb, labels, w, rest, 0);
    }
    let one = seq![c];
    lemma_operands_shift(kb, labels, one, rest, 0);
    assert((one + rest)[0] == c);
    let x = seq![q] + lit + seq![q];
    let t = x + rest;
    text::lemma_first_from(t, text::eq_char(q), 1);
    let j = text::first_from(t, text::eq_char(q), 1);
    assert(j == lit.len() + 1) by {
        assert(t[lit.len() as int + 1] == q);
        assert(text::eq_char(q)(t[lit.len() as int + 1]));
        if j < lit.len() + 1 {
            assert(t[j] == lit[j - 1]);
            assert(lit.contains(lit[j - 1]));
        }
    }
    assert(t[0] == q);
    assert(macros::literal_end(t, 0) == x.len());
    assert(t.subrange(0, x.len() as int) =~= x);
    lemma_operands_shift(kb, labels, x, rest, 0);
}

// ── call sites ──────────────────────────────────────────────────────────────

/// An `invoke`, a `comcall` and a method call on an object are calls of external code, in
/// whatever case the keyword is written.
pub proof fn law_call_sites(w: Seq<char>, rest: Seq<char>, obj: Seq<char>, m: Seq<char>)
    requires
        obj.len() > 0 && lex::name_chars(obj) && !obj.contains('.'),
        m.len() > 0 && lex::name_chars(m) && !m.contains('(') && text::trim(m) == m,
    ensures
        text::lower_all(w) == "invoke"@ || text::lower_all(w) == "comcall"@ ==> lex::call_site(
            w + " "@ + rest,
        ),
        lex::call_site(obj + seq!['.'] + (m + seq!['('] + rest)),
{
    reveal_strlit("invoke");
    reveal_strlit("comcall");
    reveal_strlit("invoke ");
    reveal_strlit("comcall ");
    reveal_strlit(" ");
    if text::lower_all(w) == "invoke"@ || text::lower_all(w) == "comcall"@ {
        let t = w + " "@ + rest;
        let n = w.len() as int + 1;
        let l = text::lower_all(t);
        assert(text::lower_all(w).len() == w.len());
        assert forall|i: int| 0 <= i < w.len() implies l[i] == text::lower_all(w)[i] by {
            assert(t[i] == w[i]);
        }
        assert(l[w.len() as int] == ' ') by {
            assert(t[w.len() as int] == ' ');
        }
        if text::lower_all(w) == "invoke"@ {
            assert(l.take(7) =~= "invoke "@);
        } else {
            assert(l.take(8) =~= "comcall "@);
        }
    }
    let t = obj + seq!['.'] + (m + seq!['('] + rest);
    text::lemma_first_from(t, text::eq_char('.'), 0);
    let d = text::find(t, '.');
    assert(d == obj.len()) by {
        assert(t[obj.len() as int] == '.');
        assert(text::eq_char('.')(t[obj.len() as int]));
        if d < obj.len() {
            assert(t[d] == obj[d]);
            assert(obj.contains(obj[d]));
        }
    }
    assert(t.take(d) =~= obj);
    let r = m + seq!['('] + rest;
    assert(t.skip(d + 1) =~= r);
    text::lemma_first_from(r, text::eq_char('('), 0);
    let o = text::find(r, '(');
    assert(o == m.len()) by {
        assert(r[m.len() as int] == '(');
        assert(text::eq_char('(')(r[m.len() as int]));
        if o < m.len() {
            assert(r[o] == m[o]);
            assert(m.contains(m[o]));
        }
    }
    assert(r.take(o) =~= m);
}

/// A line without a dot that begins with neither keyword calls no external code.
pub proof fn law_other_lines_are_no_call_sites(t: Seq<char>)
    requires
        !t.contains('.'),
        !text::same_ignoring_case(t.take(text::find_ws(t)), "invoke"@),
        !text::same_ignoring_case(t.take(text::find_ws(t)), "comcall"@),
    ensures
        !lex::call_site(t),
{
    reveal_strlit("invoke");
    reveal_strlit("comcall");
    reveal_strlit("invoke ");
    reveal_strlit("invoke\t");
    reveal_strlit("comcall ");
    let l = text::lower_all(t);
    text::lemma_first_from(t, text::eq_char('.'), 0);
    if text::find(t, '.') < t.len() {
        assert(t.contains(t[text::find(t, '.')]));
    }
    if text::starts_with(l, "invoke "@) {
        assert("invoke "@.take(6) =~= "invoke"@);
        lemma_keyword_word(t, "invoke"@, "invoke "@);
    }
    if text::starts_with(l, "invoke\t"@) {
        assert("invoke\t"@.take(6) =~= "invoke"@);
        lemma_keyword_word(t, "invoke"@, "invoke\t"@);
    }
    if text::starts_with(l, "comcall "@) {
        assert("comcall "@.take(7) =~= "comcall"@);
        lemma_keyword_word(t, "comcall"@, "comcall "@);
    }
}

proof fn lemma_keyword_word(t: Seq<char>, kw: Seq<char>, p: Seq<char>)
    requires
        p.len() == kw.len() + 1,
        p.take(kw.len() as int) == kw,
        p.last() == ' ' || p.last() == '\t',
        kw.len() > 0,
        forall|i: int| 0 <= i < kw.len() ==> 'a' <= #[trigger] kw[i] <= 'z',
        text::starts_with(text::lower_all(t), p),
    ensures
        text::same_ignoring_case(t.take(text::find_ws(t)), kw),
{
    let l = text::lower_all(t);
    let n = kw.len() as int;
    let h = l.take(p.len() as int);
    assert(h == p);
    assert forall|i: int| 0 <= i < n implies #[trigger] l[i] == kw[i] by {
        assert(h[i] == l[i]);
        assert(p.take(n)[i] == p[i]);
    }
    assert(h[n] == l[n]);
    text::lemma_first_from(t, text::ws(), 0);
    let f = text::find_ws(t);
    assert(f == n) by {
        assert(text::lower(t[n]) == p.last());
        assert(text::ws()(t[n]));
        if f < n {
            assert(text::ws()(t[f]));
            assert(l[f] == kw[f]);
            assert(text::lower(t[f]) == kw[f]);
        }
    }
    let w = t.take(n);
    assert(text::lower_all(w) =~= kw);
    assert(text::lower_all(kw) =~= kw);
}

} // verus!
