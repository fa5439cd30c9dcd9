//! What a macro invocation becomes: its body, with the arguments in place of the parameters
//! and with labels of its own.
use crate::text;
use crate::was::block_laws;
use crate::was::clobber_laws;
use crate::was::macros;
use crate::was::macros::{Expanded, MacroView, NumberedLine};
use vstd::prelude::*;

verus! {

// ── substitution ────────────────────────────────────────────────────────────

/// A character of a word.
pub open spec fn word_char(c: char) -> bool {
    text::is_alnum(c) || c == '_'
}

/// A word: letters, digits and underscores, with no digit in front.
pub open spec fn is_word(w: Seq<char>) -> bool {
    &&& w.len() > 0
    &&& text::is_alpha(w[0]) || w[0] == '_'
    &&& forall|i: int| 0 <= i < w.len() ==> word_char(#[trigger] w[i])
}

proof fn lemma_first_shift(x: Seq<char>, s: Seq<char>, p: spec_fn(char) -> bool, a: int)
    requires
        0 <= a <= s.len(),
    ensures
        text::first_from(x + s, p, x.len() + a) == x.len() + text::first_from(s, p, a),
    decreases s.len() - a,
{
    if a < s.len() {
        assert((x + s)[x.len() + a] == s[a]);
        if !p(s[a]) {
            lemma_first_shift(x, s, p, a + 1);
        }
    }
}

proof fn lemma_steps(s: Seq<char>, i: int)
    requires
        0 <= i < s.len(),
    ensures
        i < macros::literal_end(s, i) <= s.len(),
        text::is_alpha(s[i]) || s[i] == '_' ==> i < macros::word_end(s, i) <= s.len(),
{
    text::lemma_first_from(s, text::eq_char(s[i]), i + 1);
    let p = |c: char| !(text::is_alnum(c) || c == '_');
    text::lemma_first_from(s, p, i);
}

proof fn lemma_substitute_shift(
    x: Seq<char>,
    s: Seq<char>,
    subs: Seq<(Seq<char>, Seq<char>)>,
    i: int,
)
    requires
        0 <= i <= s.len(),
    ensures
        macros::substitute_from(x + s, subs, x.len() + i) == macros::substitute_from(s, subs, i),
    decreases s.len() - i,
{
    let t = x + s;
    if i < s.len() {
        assert(t[x.len() + i] == s[i]);
        lemma_steps(s, i);
        if s[i] == '\'' || s[i] == '"' {
            lemma_first_shift(x, s, text::eq_char(s[i]), i + 1);
            let e = macros::literal_end(s, i);
            assert(macros::literal_end(t, x.len() + i) == x.len() + e);
            lemma_substitute_shift(x, s, subs, e);
            assert(t.subrange(x.len() + i, x.len() + e) =~= s.subrange(i, e));
        } else if text::is_alpha(s[i]) || s[i] == '_' {
            let p = |c: char| !(text::is_alnum(c) || c == '_');
            lemma_first_shift(x, s, p, i);
            let e = macros::word_end(s, i);
            assert(macros::word_end(t, x.len() + i) == x.len() + e);
            lemma_substitute_shift(x, s, subs, e);
            assert(t.subrange(x.len() + i, x.len() + e) =~= s.subrange(i, e));
        } else {
            lemma_substitute_shift(x, s, subs, i + 1);
        }
    }
}

/// A text is substituted piece by piece: a whole word is looked up, a quoted literal stays as
/// it is, and so does any other character.
pub proof fn law_substitution_goes_by_pieces(
    subs: Seq<(Seq<char>, Seq<char>)>,
    w: Seq<char>,
    c: char,
    q: char,
    lit: Seq<char>,
    rest: Seq<char>,
)
    requires
        is_word(w),
        !text::is_alpha(c) && c != '_' && c != '\'' && c != '"',
        q == '\'' || q == '"',
        !lit.contains(q),
    ensures
        rest.len() == 0 || !word_char(rest[0]) ==> macros::substitution(w + rest, subs)
            == macros::replaced(w, subs) + macros::substitution(rest, subs),
        macros::substitution(seq![c] + rest, subs) == seq![c] + macros::substitution(rest, subs),
        macros::substitution(seq![q] + lit + seq![q] + rest, subs) == seq![q] + lit + seq![q]
            + macros::substitution(rest, subs),
        macros::substitution(Seq::empty(), subs) == Seq::<char>::empty(),
{
    if rest.len() == 0 || !word_char(rest[0]) {
        let s = w + rest;
        let p = |x: char| !(text::is_alnum(x) || x == '_');
        text::lemma_first_from(s, p, 0);
        let e = macros::word_end(s, 0);
        assert(e == w.len()) by {
            if e < w.len() {
                assert(s[e] == w[e]);
                assert(word_char(w[e]));
            }
            if rest.len() > 0 {
                assert(s[w.len() as int] == rest[0]);
                assert(p(s[w.len() as int]));
            }
        }
        assert(s[0] == w[0]);
        assert(s.subrange(0, e) =~= w);
        lemma_substitute_shift(w, rest, subs, 0);
    }
    let one = seq![c];
    lemma_substitute_shift(one, rest, subs, 0);
    assert((one + rest)[0] == c);
    let x = seq![q] + lit + seq![q];
    let t = x + rest;
    text::lemma_first_from(t, text::eq_char(q), 1);
    let j = text::first_from(t, text::eq_char(q), 1);
    assert(j == lit.len() + 1) by {
        assert(t[lit.len() as int + 1] == q);
        assert(text::eq_char(q)(t[lit.len() as int + 1]));
        if j < lit.len() + 1 {
            assert(t[j] == lit[j - 1]);
            assert(lit.contains(lit[j - 1]));
        }
    }
    assert(t[0] == q);
    assert(macros::literal_end(t, 0) == x.len());
    assert(t.subrange(0, x.len() as int) =~= x);
    lemma_substitute_shift(x, rest, subs, 0);
}

proof fn lemma_unsubstituted_from(s: Seq<char>, i: int)
    requires
        0 <= i <= s.len(),
    ensures
        macros::substitute_from(s, Seq::empty(), i) == s.skip(i),
    decreases s.len() - i,
{
    if i < s.len() {
        lemma_steps(s, i);
        let e = if s[i] == '\'' || s[i] == '"' {
            macros::literal_end(s, i)
        } else if text::is_alpha(s[i]) || s[i] == '_' {
            macros::word_end(s, i)
        } else {
            i + 1
        };
        lemma_unsubstituted_from(s, e);
        assert(s.subrange(i, e) + s.skip(e) =~= s.skip(i));
        assert(s.subrange(i, i + 1) =~= seq![s[i]]);
    } else {
        assert(s.skip(i) =~= Seq::empty());
    }
}

/// With nothing to put in, a text stays as it is.
pub proof fn law_empty_substitution_changes_nothing(s: Seq<char>)
    ensures
        macros::substitution(s, Seq::empty()) == s,
{
    lemma_unsubstituted_from(s, 0);
    assert(s.skip(0) =~= s);
}

// ── invocations ─────────────────────────────────────────────────────────────

/// What a word of a macro body becomes: the argument of the first parameter of that name, a
/// label of its own for the first local of that name, or itself.
pub open spec fn becomes(mac: MacroView, args: Seq<Seq<char>>, id: int, w: Seq<char>, x: Seq<char>) -> bool {
    ||| exists|k: int| #[trigger] first_at(mac.params, k, w) && x == args[k]
    ||| !mac.params.contains(w) && mac.locals.contains(w) && x == w + "__m"@ + text::signed_dec(id)
    ||| !mac.params.contains(w) && !mac.locals.contains(w) && x == w
}

/// `k` is the first position of `w` in `v`.
pub open spec fn first_at(v: Seq<Seq<char>>, k: int, w: Seq<char>) -> bool {
    0 <= k < v.len() && v[k] == w && forall|i: int| 0 <= i < k ==> #[trigger] v[i] != w
}

proof fn lemma_replaced_first(subs: Seq<(Seq<char>, Seq<char>)>, w: Seq<char>, k: int)
    requires
        0 <= k < subs.len(),
        subs[k].0 == w,
        forall|i: int| 0 <= i < k ==> (#[trigger] subs[i]).0 != w,
    ensures
        macros::replaced(w, subs) == subs[k].1,
    decreases k,
{
    if k > 0 {
        assert(subs[0].0 != w);
        let u = subs.drop_first();
        assert(u[k - 1] == subs[k]);
        assert forall|i: int| 0 <= i < k - 1 implies (#[trigger] u[i]).0 != w by {
            assert(u[i] == subs[i + 1]);
        }
        lemma_replaced_first(u, w, k - 1);
    }
}

proof fn lemma_replaced_none(subs: Seq<(Seq<char>, Seq<char>)>, w: Seq<char>)
    requires
        forall|i: int| 0 <= i < subs.len() ==> (#[trigger] subs[i]).0 != w,
    ensures
        macros::replaced(w, subs) == w,
    decreases subs.len(),
{
    if subs.len() > 0 {
        let u = subs.drop_first();
        assert forall|i: int| 0 <= i < u.len() implies (#[trigger] u[i]).0 != w by {
            assert(u[i] == subs[i + 1]);
        }
        lemma_replaced_none(u, w);
    }
}

proof fn lemma_first_exists(v: Seq<Seq<char>>, w: Seq<char>, n: int) -> (k: int)
    requires
        0 <= n < v.len(),
        v[n] == w,
    ensures
        first_at(v, k, w),
    decreases n,
{
    if exists|i: int| 0 <= i < n && #[trigger] v[i] == w {
        let i = choose|i: int| 0 <= i < n && #[trigger] v[i] == w;
        lemma_first_exists(v, w, i)
    } else {
        n
    }
}

/// In an expansion, a parameter becomes its argument and a local a label with the number of
/// the expansion; other words stay.
pub proof fn law_words_of_a_macro_body(mac: MacroView, args: Seq<Seq<char>>, id: int, w: Seq<char>)
    requires
        args.len() == mac.params.len(),
    ensures
        becomes(mac, args, id, w, macros::replaced(w, macros::expansion_subs(mac, args, id))),
{
    let subs = macros::expansion_subs(mac, args, id);
    let n = mac.params.len();
    if mac.params.contains(w) {
        let m = choose|m: int| 0 <= m < n && mac.params[m] == w;
        let k = lemma_first_exists(mac.params, w, m);
        assert forall|i: int| 0 <= i < k implies (#[trigger] subs[i]).0 != w by {
            assert(subs[i].0 == mac.params[i]);
        }
        lemma_replaced_first(subs, w, k);
        assert(first_at(mac.params, k, w));
    } else if mac.locals.contains(w) {
        let m = choose|m: int| 0 <= m < mac.locals.len() && mac.locals[m] == w;
        let k = lemma_first_exists(mac.locals, w, m);
        assert forall|i: int| 0 <= i < n + k implies (#[trigger] subs[i]).0 != w by {
            if i < n {
                assert(subs[i].0 == mac.params[i]);
                assert(mac.params.contains(mac.params[i]));
            } else {
                assert(subs[i].0 == mac.locals[i - n]);
            }
        }
        assert(subs[n + k].0 == w);
        lemma_replaced_first(subs, w, n + k);
    } else {
        assert forall|i: int| 0 <= i < subs.len() implies (#[trigger] subs[i]).0 != w by {
            if i < n {
                assert(mac.params.contains(mac.params[i]));
            } else {
                assert(mac.locals.contains(mac.locals[i - n]));
            }
        }
        lemma_replaced_none(subs, w);
    }
}

proof fn lemma_suffix_differs(l: Seq<char>, m: Seq<char>, x: Seq<char>, y: Seq<char>)
    requires
        l + "__m"@ + x == m + "__m"@ + y,
        forall|i: int| 0 <= i < x.len() ==> '0' <= #[trigger] x[i] <= '9',
        forall|i: int| 0 <= i < y.len() ==> '0' <= #[trigger] y[i] <= '9',
    ensures
        x == y,
        l == m,
{
    reveal_strlit("__m");
    let a = l + "__m"@ + x;
    let b = m + "__m"@ + y;
    let n = a.len();
    if x.len() < y.len() {
        let k = n - x.len() - 1;
        assert(a[k] == "__m"@[2]);
        assert(b[k] == y[k - m.len() - 3]);
        assert(false);
    }
    if y.len() < x.len() {
        let k = n - y.len() - 1;
        assert(b[k] == "__m"@[2]);
        assert(a[k] == x[k - l.len() - 3]);
        assert(false);
    }
    assert(a.skip(n - x.len()) =~= x);
    assert(b.skip(n - y.len()) =~= y);
    assert(a.take(l.len() as int) =~= l);
    assert(b.take(m.len() as int) =~= m);
}

/// Labels are hygienic: the locals of two expansions, or two locals of one, never get the
/// same label.
pub proof fn law_local_labels_differ(l: Seq<char>, a: int, m: Seq<char>, b: int)
    requires
        0 <= a,
        0 <= b,
        macros::local_label(l, a) == macros::local_label(m, b),
    ensures
        a == b,
        l == m,
{
    block_laws::lemma_dec_is_digits(a);
    block_laws::lemma_dec_is_digits(b);
    lemma_suffix_differs(l, m, text::signed_dec(a), text::signed_dec(b));
    block_laws::lemma_dec_differs(a, b);
}

/// The name that an invocation line would call.
pub open spec fn invoked(line: Seq<char>) -> Seq<char> {
    macros::head_name(clobber_laws::statement(line))
}

/// The lines that an expansion of `mac` numbered `id` gives.
pub open spec fn body_lines(
    mac: MacroView,
    args: Seq<Seq<char>>,
    id: int,
    orig: int,
    n: int,
) -> Seq<NumberedLine> {
    Seq::new(
        n as nat,
        |i: int|
            (macros::substitution(mac.body[i], macros::expansion_subs(mac, args, id)), orig),
    )
}

proof fn lemma_plain_body(
    mac: MacroView,
    args: Seq<Seq<char>>,
    id: int,
    orig: int,
    ms: Seq<(Seq<char>, MacroView)>,
    st: Expanded,
    depth: int,
    n: int,
)
    requires
        0 <= n <= mac.body.len(),
        depth <= macros::max_depth(),
        forall|i: int|
            0 <= i < n ==> macros::macro_named(
                ms,
                invoked((#[trigger] body_lines(mac, args, id, orig, mac.body.len() as int)[i]).0),
            ) is None,
    ensures
        macros::expand_body(
            mac.body.take(n),
            macros::expansion_subs(mac, args, id),
            orig,
            ms,
            st,
            depth,
        ) == Ok::<Expanded, Seq<char>>(
            Expanded { out: st.out + body_lines(mac, args, id, orig, n), count: st.count },
        ),
    decreases n,
{
    let subs = macros::expansion_subs(mac, args, id);
    reveal_with_fuel(macros::expand, 2);
    reveal_with_fuel(macros::expand_body, 2);
    if n == 0 {
        assert(mac.body.take(0) =~= Seq::empty());
        assert(st.out + body_lines(mac, args, id, orig, 0) =~= st.out);
    } else {
        lemma_plain_body(mac, args, id, orig, ms, st, depth, n - 1);
        assert(mac.body.take(n).drop_last() =~= mac.body.take(n - 1));
        let all = body_lines(mac, args, id, orig, mac.body.len() as int);
        assert(all[n - 1].0 == macros::substitution(mac.body[n - 1], subs));
        assert(mac.body.take(n).last() == mac.body[n - 1]);
        let line = macros::substitution(mac.body[n - 1], subs);
        assert(macros::macro_named(ms, invoked(line)) is None);
        let st1 = Expanded { out: st.out + body_lines(mac, args, id, orig, n - 1), ..st };
        assert(macros::expand(line, orig, ms, st1, depth) == Ok::<Expanded, Seq<char>>(
            Expanded { out: st1.out.push((line, orig)), ..st1 },
        ));
        let before = st.out + body_lines(mac, args, id, orig, n - 1);
        assert(before.push((macros::substitution(mac.body[n - 1], subs), orig)) =~= st.out
            + body_lines(mac, args, id, orig, n));
    }
}

/// An invocation of a macro whose body invokes none becomes the body's lines in order, each
/// substituted, all standing for the invocation's line; the expansion uses up one number. An
/// invocation with another number of arguments than the macro has parameters is refused.
pub proof fn law_invocation_becomes_the_body(
    line: Seq<char>,
    orig: int,
    ms: Seq<(Seq<char>, MacroView)>,
    st: Expanded,
    depth: int,
    mac: MacroView,
)
    requires
        0 <= depth < macros::max_depth(),
        macros::macro_named(ms, invoked(line)) == Some(mac),
        forall|i: int|
            0 <= i < mac.body.len() ==> macros::macro_named(
                ms,
                invoked(
                    (#[trigger] body_lines(
                        mac,
                        macros::invocation_args(clobber_laws::statement(line)),
                        st.count,
                        orig,
                        mac.body.len() as int,
                    )[i]).0,
                ),
            ) is None,
    ensures
        ({
            let args = macros::invocation_args(clobber_laws::statement(line));
            let r = macros::expand(line, orig, ms, st, depth);
            &&& args.len() == mac.params.len() ==> (r matches Ok(e) && e.out == st.out + body_lines(
                mac,
                args,
                st.count,
                orig,
                mac.body.len() as int,
            ) && (st.count < usize::MAX ==> e.count == st.count + 1))
            &&& args.len() != mac.params.len() ==> r is Err
        }),
{
    let args = macros::invocation_args(clobber_laws::statement(line));
    let n = mac.body.len() as int;
    assert(mac.body.take(n) =~= mac.body);
    let st1 = Expanded { count: macros::next_count(st.count), ..st };
    lemma_plain_body(mac, args, st.count, orig, ms, st1, depth + 1, n);
    reveal_with_fuel(macros::expand, 2);
}

} // verus!
