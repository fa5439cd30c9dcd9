//! Texts and their lines: joining and splitting undo each other.
use crate::text;
use vstd::prelude::*;

verus! {

pub proof fn lemma_join_push(a: Seq<Seq<char>>, x: Seq<char>, sep: Seq<char>)
    ensures
        text::join(a.push(x), sep) == if a.len() == 0 {
            x
        } else {
            text::join(a, sep) + sep + x
        },
{
    assert(a.push(x).drop_last() =~= a);
}

pub proof fn lemma_join_cons(x: Seq<char>, a: Seq<Seq<char>>, sep: Seq<char>)
    ensures
        text::join(seq![x] + a, sep) == if a.len() == 0 {
            x
        } else {
            x + sep + text::join(a, sep)
        },
    decreases a.len(),
{
    if a.len() == 0 {
        assert(seq![x] + a =~= seq![x]);
    } else {
        let d = a.drop_last();
        lemma_join_cons(x, d, sep);
        assert(seq![x] + a =~= (seq![x] + d).push(a.last()));
        lemma_join_push(seq![x] + d, a.last(), sep);
        assert(a =~= d.push(a.last()));
        lemma_join_push(d, a.last(), sep);
        if d.len() > 0 {
            assert(x + sep + text::join(d, sep) + sep + a.last() =~= x + sep + (text::join(d, sep) + sep
                + a.last()));
        }
    }
}

pub proof fn lemma_join_of_split(s: Seq<char>, a: int)
    requires
        0 <= a <= s.len(),
    ensures
        text::join(text::split_from(s, text::eq_char('\n'), a), "\n"@) == s.skip(a),
        text::split_from(s, text::eq_char('\n'), a).len() > 0,
    decreases s.len() - a,
{
    reveal_strlit("\n");
    let p = text::eq_char('\n');
    let n = text::first_from(s, p, a);
    text::lemma_first_from(s, p, a);
    if n >= s.len() {
        assert(s.subrange(a, s.len() as int) =~= s.skip(a));
        let one = seq![s.subrange(a, s.len() as int)];
        assert(text::join(one, "\n"@) == one[0]);
    } else {
        lemma_join_of_split(s, n + 1);
        let rest = text::split_from(s, p, n + 1);
        lemma_join_cons(s.subrange(a, n), rest, "\n"@);
        assert(p(s[n]));
        assert("\n"@ =~= seq!['\n']);
        assert(s.subrange(a, n) + "\n"@ + s.skip(n + 1) =~= s.skip(a));
    }
}

/// A line holds no line break.
pub open spec fn is_one_line(s: Seq<char>) -> bool {
    forall|i: int| 0 <= i < s.len() ==> #[trigger] s[i] != '\n'
}

/// Every line is one line.
pub open spec fn all_one_line(lines: Seq<Seq<char>>) -> bool {
    forall|i: int| 0 <= i < lines.len() ==> is_one_line(#[trigger] lines[i])
}

pub proof fn lemma_split_first(x: Seq<char>, rest: Seq<char>, a: int)
    requires
        is_one_line(x),
        0 <= a <= x.len(),
    ensures
        text::first_from(x + "\n"@ + rest, text::eq_char('\n'), a) == x.len(),
    decreases x.len() - a,
{
    reveal_strlit("\n");
    let t = x + "\n"@ + rest;
    if a < x.len() {
        assert(t[a] == x[a]);
        lemma_split_first(x, rest, a + 1);
    } else {
        assert(t[a] == '\n');
    }
}

pub proof fn lemma_no_break(x: Seq<char>, a: int)
    requires
        is_one_line(x),
        0 <= a <= x.len(),
    ensures
        text::first_from(x, text::eq_char('\n'), a) == x.len(),
    decreases x.len() - a,
{
    if a < x.len() {
        lemma_no_break(x, a + 1);
    }
}

pub proof fn lemma_first_from_shift(pre: Seq<char>, s: Seq<char>, p: spec_fn(char) -> bool, a: int)
    requires
        0 <= a <= s.len(),
    ensures
        text::first_from(pre + s, p, pre.len() + a) == pre.len() + text::first_from(s, p, a),
    decreases s.len() - a,
{
    if a < s.len() {
        assert((pre + s)[pre.len() + a] == s[a]);
        lemma_first_from_shift(pre, s, p, a + 1);
    }
}

pub proof fn lemma_split_shift(pre: Seq<char>, s: Seq<char>, p: spec_fn(char) -> bool, a: int)
    requires
        0 <= a <= s.len(),
    ensures
        text::split_from(pre + s, p, pre.len() + a) == text::split_from(s, p, a),
    decreases s.len() - a,
{
    let t = pre + s;
    let n = text::first_from(s, p, a);
    text::lemma_first_from(s, p, a);
    lemma_first_from_shift(pre, s, p, a);
    if n < s.len() {
        lemma_split_shift(pre, s, p, n + 1);
        assert(t.subrange(pre.len() + a, pre.len() + n) =~= s.subrange(a, n));
    } else {
        assert(t.subrange(pre.len() + a, t.len() as int) =~= s.subrange(a, s.len() as int));
    }
}

/// Lines are found again in their text.
pub proof fn lemma_split_of_join(lines: Seq<Seq<char>>)
    requires
        lines.len() > 0,
        all_one_line(lines),
    ensures
        text::split(text::join(lines, "\n"@), '\n') == lines,
    decreases lines.len(),
{
    reveal_strlit("\n");
    let x = lines[0];
    let p = text::eq_char('\n');
    if lines.len() == 1 {
        lemma_no_break(x, 0);
        assert(x.subrange(0, x.len() as int) =~= x);
        assert(text::split(text::join(lines, "\n"@), '\n') =~= lines);
    } else {
        let rest = lines.drop_first();
        assert forall|i: int| 0 <= i < rest.len() implies is_one_line(#[trigger] rest[i]) by {
            assert(rest[i] == lines[i + 1]);
        }
        lemma_split_of_join(rest);
        assert(lines =~= seq![x] + rest);
        lemma_join_cons(x, rest, "\n"@);
        let r = text::join(rest, "\n"@);
        let t = x + "\n"@ + r;
        lemma_split_first(x, r, 0);
        let pre = x + "\n"@;
        assert(t =~= pre + r);
        assert(pre.len() == x.len() + 1);
        lemma_split_shift(pre, r, p, 0);
        assert(t.subrange(0, x.len() as int) =~= x);
        assert(text::split(t, '\n') =~= seq![x] + text::split(r, '\n'));
        assert(text::split(t, '\n') =~= lines);
    }
}

} // verus!
