//! What is written can be read back.
use crate::selkie::flowchart::annotations;
use crate::selkie::flowchart::types;
use crate::selkie::flowchart::writer;
use crate::text;
use crate::selkie::flowchart::annotations::{AnnotationView, AttrView, TargetView};
use crate::selkie::flowchart::parts::{EdgeStroke, EdgeView};
use vstd::prelude::*;

verus! {

// ── trimming ────────────────────────────────────────────────────────────────

/// A text with nothing to trim: its ends are not white space.
pub open spec fn tight(s: Seq<char>) -> bool {
    s.len() > 0 && !text::is_ws(s[0]) && !text::is_ws(s.last())
}

proof fn lemma_trim_tight(s: Seq<char>)
    requires
        tight(s),
    ensures
        text::trim(s) == s,
{
    text::lemma_first_from(s, text::not_ws(), 0);
    assert(text::first_from(s, text::not_ws(), 0) == 0) by {
        if text::first_from(s, text::not_ws(), 0) > 0 {
            assert(!text::not_ws()(s[0]));
        }
    }
    assert(text::trim_start(s) =~= s);
    text::lemma_last_below(s, text::not_ws(), s.len() as int);
    assert(text::last_below(s, text::not_ws(), s.len() as int) == s.len() - 1) by {
        if text::last_below(s, text::not_ws(), s.len() as int) < s.len() - 1 {
            assert(!text::not_ws()(s[s.len() - 1]));
        }
    }
    assert(text::trim_end(s) =~= s);
}

proof fn lemma_trim_space(s: Seq<char>)
    requires
        tight(s),
    ensures
        text::trim(seq![' '] + s) == s,
{
    let t = seq![' '] + s;
    text::lemma_first_from(t, text::not_ws(), 0);
    assert(text::first_from(t, text::not_ws(), 0) == 1) by {
        let n = text::first_from(t, text::not_ws(), 0);
        assert(text::not_ws()(t[1]));
        assert(!text::not_ws()(t[0]));
        if n > 1 {
            assert(!text::not_ws()(t[1]));
        }
        if n == 0 {
            assert(text::not_ws()(t[0]));
        }
    }
    assert(text::trim_start(t) =~= s);
    lemma_trim_tight(s);
    text::lemma_last_below(s, text::not_ws(), s.len() as int);
    assert(text::last_below(s, text::not_ws(), s.len() as int) == s.len() - 1) by {
        if text::last_below(s, text::not_ws(), s.len() as int) < s.len() - 1 {
            assert(!text::not_ws()(s[s.len() - 1]));
        }
    }
    assert(text::trim_end(s) =~= s);
}

// ── escaping ────────────────────────────────────────────────────────────────

proof fn lemma_nothing_to_replace(s: Seq<char>, p: Seq<char>, with: Seq<char>, i: int)
    requires
        0 <= i <= s.len(),
        forall|k: int| i <= k < s.len() ==> !#[trigger] text::occurs_at(s, p, k),
    ensures
        text::replace_from(s, p, with, i) == s.skip(i),
    decreases s.len() - i,
{
    if i < s.len() {
        lemma_nothing_to_replace(s, p, with, i + 1);
        assert(!text::occurs_at(s, p, i));
        assert(seq![s[i]] + s.skip(i + 1) =~= s.skip(i));
    } else {
        assert(s.skip(i) =~= Seq::empty());
    }
}

/// `s` holds no backslash.
pub open spec fn no_backslash(s: Seq<char>) -> bool {
    forall|i: int| 0 <= i < s.len() ==> #[trigger] s[i] != '\\'
}

/// `s` from `i` on with its quotes escaped.
spec fn esc(s: Seq<char>, i: int) -> Seq<char> {
    text::replace_from(s, "\""@, "\\\""@, i)
}

proof fn lemma_escaped(s: Seq<char>)
    requires
        no_backslash(s),
    ensures
        writer::escaped(s) == esc(s, 0),
{
    reveal_strlit("\\");
    assert forall|k: int| 0 <= k < s.len() implies !#[trigger] text::occurs_at(s, "\\"@, k) by {
        if text::occurs_at(s, "\\"@, k) {
            assert(s.subrange(k, k + 1)[0] == "\\"@[0]);
        }
    }
    lemma_nothing_to_replace(s, "\\"@, "\\\\"@, 0);
    assert(s.skip(0) =~= s);
}

proof fn lemma_esc_step(s: Seq<char>, i: int)
    requires
        0 <= i < s.len(),
    ensures
        s[i] == '"' ==> esc(s, i) == seq!['\\', '"'] + esc(s, i + 1),
        s[i] != '"' ==> esc(s, i) == seq![s[i]] + esc(s, i + 1),
{
    reveal_strlit("\"");
    reveal_strlit("\\\"");
    assert("\""@ =~= seq!['"']);
    assert("\\\""@ =~= seq!['\\', '"']);
    if s[i] == '"' {
        assert(s.subrange(i, i + 1) =~= "\""@);
    } else if text::occurs_at(s, "\""@, i) {
        assert(s.subrange(i, i + 1)[0] == "\""@[0]);
    }
}

/// Reading escaped quotes back gives the text.
proof fn lemma_unescape(t: Seq<char>, k: int, s: Seq<char>, i: int)
    requires
        no_backslash(s),
        0 <= i <= s.len(),
        0 <= k <= t.len(),
        t.skip(k) == esc(s, i),
    ensures
        text::replace_from(t, "\\\""@, "\""@, k) == s.skip(i),
    decreases s.len() - i,
{
    reveal_strlit("\"");
    reveal_strlit("\\\"");
    assert("\""@ =~= seq!['"']);
    assert("\\\""@ =~= seq!['\\', '"']);
    let e = esc(s, i);
    if i < s.len() {
        lemma_esc_step(s, i);
        let rest = esc(s, i + 1);
        assert(t.skip(k).len() == t.len() - k);
        if s[i] == '"' {
            assert(e.len() == 2 + rest.len());
            assert(t[k] == t.skip(k)[0] && t[k + 1] == t.skip(k)[1]);
            assert(t.subrange(k, k + 2) =~= "\\\""@);
            assert(text::occurs_at(t, "\\\""@, k));
            assert(t.skip(k + 2) =~= rest) by {
                assert forall|x: int| 0 <= x < rest.len() implies t.skip(k + 2)[x] == rest[x] by {
                    assert(t.skip(k)[x + 2] == e[x + 2]);
                }
            }
            lemma_unescape(t, k + 2, s, i + 1);
        } else {
            assert(t[k] == t.skip(k)[0]);
            assert(t[k] != '\\');
            if text::occurs_at(t, "\\\""@, k) {
                assert(t.subrange(k, k + 2)[0] == "\\\""@[0]);
            }
            assert(t.skip(k + 1) =~= rest) by {
                assert forall|x: int| 0 <= x < rest.len() implies t.skip(k + 1)[x] == rest[x] by {
                    assert(t.skip(k)[x + 1] == e[x + 1]);
                }
            }
            lemma_unescape(t, k + 1, s, i + 1);
        }
        assert(seq![s[i]] + s.skip(i + 1) =~= s.skip(i));
    } else {
        assert(t.len() == k) by {
            assert(t.skip(k).len() == 0);
        }
        assert(s.skip(i) =~= Seq::empty());
    }
}

// ── tokens ──────────────────────────────────────────────────────────────────

/// A character of a bare token: neither white space nor a quote.
pub open spec fn bare(c: char) -> bool {
    !text::is_ws(c) && c != '"'
}

/// Every character of `s` can stand in a bare token.
pub open spec fn all_bare(s: Seq<char>) -> bool {
    forall|i: int| 0 <= i < s.len() ==> bare(#[trigger] s[i])
}

/// A bare text is read into the token begun.
proof fn lemma_read_bare(s: Seq<char>, i: int, x: Seq<char>, cur: Seq<char>)
    requires
        0 <= i,
        i + x.len() <= s.len(),
        s.subrange(i, i + x.len()) == x,
        all_bare(x),
    ensures
        annotations::tokens_from(s, i, cur, false) == annotations::tokens_from(s, i + x.len(), cur + x, false),
    decreases x.len(),
{
    if x.len() == 0 {
        assert(cur + x =~= cur);
    } else {
        assert(s[i] == s.subrange(i, i + x.len())[0]);
        assert(bare(x[0]));
        let y = x.skip(1);
        assert(s.subrange(i + 1, i + 1 + y.len()) =~= y) by {
            assert forall|k: int| 0 <= k < y.len() implies s.subrange(i + 1, i + 1 + y.len())[k]
                == y[k] by {
                assert(s.subrange(i, i + x.len())[k + 1] == x[k + 1]);
            }
        }
        assert forall|k: int| 0 <= k < y.len() implies bare(#[trigger] y[k]) by {
            assert(y[k] == x[k + 1]);
        }
        lemma_read_bare(s, i + 1, y, cur.push(s[i]));
        assert(cur.push(s[i]) + y =~= cur + x);
    }
}

/// An escaped text is read inside quotes into the token begun.
proof fn lemma_read_escaped(s: Seq<char>, k: int, v: Seq<char>, i: int, cur: Seq<char>)
    requires
        no_backslash(v),
        0 <= i <= v.len(),
        0 <= k,
        k + esc(v, i).len() <= s.len(),
        s.subrange(k, k + esc(v, i).len()) == esc(v, i),
    ensures
        annotations::tokens_from(s, k, cur, true) == annotations::tokens_from(
            s,
            k + esc(v, i).len(),
            cur + esc(v, i),
            true,
        ),
    decreases v.len() - i,
{
    let e = esc(v, i);
    if i >= v.len() {
        assert(cur + e =~= cur);
    } else {
        lemma_esc_step(v, i);
        let rest = esc(v, i + 1);
        let n: int = if v[i] == '"' {
            2
        } else {
            1
        };
        assert(e.len() == n + rest.len());
        assert(s.subrange(k + n, k + n + rest.len()) =~= rest) by {
            assert forall|x: int| 0 <= x < rest.len() implies s.subrange(
                k + n,
                k + n + rest.len(),
            )[x] == rest[x] by {
                assert(s.subrange(k, k + e.len())[x + n] == e[x + n]);
            }
        }
        assert(s[k] == s.subrange(k, k + e.len())[0]);
        if v[i] == '"' {
            assert(s[k + 1] == s.subrange(k, k + e.len())[1]);
            lemma_read_escaped(s, k + 2, v, i + 1, cur.push('\\').push('"'));
            assert(cur.push('\\').push('"') + rest =~= cur + e);
        } else {
            lemma_read_escaped(s, k + 1, v, i + 1, cur.push(v[i]));
            assert(cur.push(v[i]) + rest =~= cur + e);
        }
    }
}

/// A key that can be written and read back.
pub open spec fn plain_key(k: Seq<char>) -> bool {
    k.len() > 0 && all_bare(k) && forall|i: int| 0 <= i < k.len() ==> #[trigger] k[i] != '='
}

/// An attribute that can be written and read back.
pub open spec fn plain_attr(a: AttrView) -> bool {
    plain_key(a.key) && no_backslash(a.value)
}

/// A written attribute is read as one token.
proof fn lemma_read_attr(s: Seq<char>, i: int, a: AttrView)
    requires
        plain_attr(a),
        0 <= i,
        i + writer::attr_source(a).len() <= s.len(),
        s.subrange(i, i + writer::attr_source(a).len()) == writer::attr_source(a),
    ensures
        annotations::tokens_from(s, i, Seq::empty(), false) == annotations::tokens_from(
            s,
            i + writer::attr_source(a).len(),
            writer::attr_source(a),
            false,
        ),
{
    reveal_strlit("=\"");
    reveal_strlit("\"");
    lemma_escaped(a.value);
    let src = writer::attr_source(a);
    let e = esc(a.value, 0);
    let n = a.key.len() as int;
    assert(src.len() == n + 2 + e.len() + 1);
    let head = a.key.push('=');
    assert(s.subrange(i, i + head.len()) =~= head) by {
        assert forall|k: int| 0 <= k < head.len() implies s.subrange(i, i + head.len())[k]
            == head[k] by {
            assert(s.subrange(i, i + src.len())[k] == src[k]);
        }
    }
    assert forall|k: int| 0 <= k < head.len() implies bare(#[trigger] head[k]) by {
        if k < n {
            assert(head[k] == a.key[k]);
        }
    }
    lemma_read_bare(s, i, head, Seq::empty());
    assert(Seq::<char>::empty() + head =~= head);
    let q = i + n + 1;
    assert(s[q] == '"') by {
        assert(s.subrange(i, i + src.len())[n + 1] == src[n + 1]);
    }
    assert(s.subrange(q + 1, q + 1 + e.len()) =~= e) by {
        assert forall|k: int| 0 <= k < e.len() implies s.subrange(q + 1, q + 1 + e.len())[k]
            == e[k] by {
            assert(s.subrange(i, i + src.len())[n + 2 + k] == src[n + 2 + k]);
        }
    }
    lemma_read_escaped(s, q + 1, a.value, 0, head.push('"'));
    let z = q + 1 + e.len();
    assert(s[z] == '"') by {
        assert(s.subrange(i, i + src.len())[n + 2 + e.len()] == src[n + 2 + e.len()]);
    }
    assert((head.push('"') + e).push('"') =~= src);
}

/// The written attributes.
pub open spec fn attr_sources(v: Seq<AttrView>) -> Seq<Seq<char>> {
    v.map_values(|x: AttrView| writer::attr_source(x))
}

proof fn lemma_join_first(v: Seq<Seq<char>>, sep: Seq<char>)
    requires
        v.len() > 1,
    ensures
        text::join(v, sep) == v[0] + sep + text::join(v.drop_first(), sep),
    decreases v.len(),
{
    reveal_with_fuel(text::join, 3);
    if v.len() == 2 {
        assert(v.drop_last().len() == 1);
        assert(v.drop_last()[0] == v[0]);
        assert(v.drop_first().len() == 1);
        assert(v.drop_first()[0] == v[1]);
        assert(v.last() == v[1]);
    } else {
        lemma_join_first(v.drop_last(), sep);
        assert(v.drop_last()[0] == v[0]);
        assert(v.drop_last().drop_first() =~= v.drop_first().drop_last());
        assert(v.drop_first().last() == v.last());
        let mid = text::join(v.drop_first().drop_last(), sep);
        assert(v[0] + sep + mid + sep + v.last() =~= v[0] + sep + (mid + sep + v.last()));
    }
}

/// Written attributes, to the end of the text, are read as their tokens.
proof fn lemma_read_attrs(s: Seq<char>, i: int, v: Seq<AttrView>)
    requires
        v.len() > 0,
        forall|k: int| 0 <= k < v.len() ==> plain_attr(#[trigger] v[k]),
        0 <= i <= s.len(),
        s.skip(i) == text::join(attr_sources(v), " "@),
    ensures
        annotations::tokens_from(s, i, Seq::empty(), false) == Ok::<Seq<Seq<char>>, Seq<char>>(attr_sources(v)),
    decreases v.len(),
{
    reveal_strlit(" ");
    let all = attr_sources(v);
    let a = v[0];
    let src = writer::attr_source(a);
    assert(all[0] == src);
    assert(plain_attr(v[0]));
    if v.len() == 1 {
        assert(s.skip(i) == src);
        assert(s.subrange(i, i + src.len()) =~= src) by {
            assert(s.len() - i == src.len());
            assert forall|k: int| 0 <= k < src.len() implies s.subrange(i, i + src.len())[k]
                == src[k] by {
                assert(s.skip(i)[k] == s[i + k]);
            }
        }
        lemma_read_attr(s, i, a);
        assert(i + src.len() == s.len());
        assert(all =~= seq![src]);
    } else {
        let w = v.drop_first();
        assert(all.drop_first() =~= attr_sources(w));
        lemma_join_first(all, " "@);
        let j = text::join(attr_sources(w), " "@);
        let t = s.skip(i);
        assert(t == src + " "@ + j);
        assert(s.subrange(i, i + src.len()) =~= src) by {
            assert forall|k: int| 0 <= k < src.len() implies s.subrange(i, i + src.len())[k]
                == src[k] by {
                assert(t[k] == s[i + k]);
            }
        }
        lemma_read_attr(s, i, a);
        let z = i + src.len();
        assert(s[z] == ' ') by {
            assert(t[src.len() as int] == ' ');
        }
        assert(s.skip(z + 1) =~= j) by {
            assert(s.len() - i == t.len());
            assert forall|k: int| 0 <= k < j.len() implies s.skip(z + 1)[k] == j[k] by {
                assert(t[src.len() + 1 + k] == j[k]);
            }
        }
        assert forall|k: int| 0 <= k < w.len() implies plain_attr(#[trigger] w[k]) by {
            assert(w[k] == v[k + 1]);
        }
        lemma_read_attrs(s, z + 1, w);
        assert(src.len() > 0) by {
            assert(a.key.len() > 0);
        }
        assert(seq![src] + attr_sources(w) =~= all);
    }
}

// ── reading attributes and targets ──────────────────────────────────────────

proof fn lemma_find_char(s: Seq<char>, c: char, n: int)
    requires
        0 <= n < s.len(),
        s[n] == c,
        forall|i: int| 0 <= i < n ==> #[trigger] s[i] != c,
    ensures
        text::find(s, c) == n,
{
    text::lemma_first_from(s, text::eq_char(c), 0);
    let m = text::first_from(s, text::eq_char(c), 0);
    assert(text::eq_char(c)(s[n]));
    if m < n {
        assert(text::eq_char(c)(s[m]));
    }
    if m > n {
        assert(!text::eq_char(c)(s[n]));
    }
}

/// A written attribute is read back.
proof fn lemma_attr_back(a: AttrView)
    requires
        plain_attr(a),
    ensures
        annotations::attr_of(writer::attr_source(a)) == Ok::<AttrView, Seq<char>>(a),
{
    reveal_strlit("=\"");
    reveal_strlit("\"");
    lemma_escaped(a.value);
    let src = writer::attr_source(a);
    let e = esc(a.value, 0);
    let n = a.key.len() as int;
    assert(src[n] == '=');
    assert forall|i: int| 0 <= i < n implies #[trigger] src[i] != '=' by {
        assert(src[i] == a.key[i]);
    }
    lemma_find_char(src, '=', n);
    assert(src.take(n) =~= a.key);
    assert(bare(a.key[0]));
    assert(bare(a.key[n - 1]));
    lemma_trim_tight(a.key);
    let q = src.skip(n + 1);
    assert(q =~= "\""@ + e + "\""@);
    assert(q[0] == '"' && q.last() == '"');
    lemma_trim_tight(q);
    let inner = q.subrange(1, q.len() - 1);
    assert(inner =~= e);
    assert(inner.skip(0) =~= e);
    lemma_unescape(inner, 0, a.value, 0);
    assert(a.value.skip(0) =~= a.value);
}

proof fn lemma_attrs_back(v: Seq<AttrView>)
    requires
        forall|k: int| 0 <= k < v.len() ==> plain_attr(#[trigger] v[k]),
    ensures
        annotations::attrs_of(attr_sources(v)) == Ok::<Seq<AttrView>, Seq<char>>(v),
    decreases v.len(),
{
    if v.len() == 0 {
        assert(v =~= Seq::empty());
    } else {
        let w = v.drop_last();
        assert forall|k: int| 0 <= k < w.len() implies plain_attr(#[trigger] w[k]) by {
            assert(w[k] == v[k]);
        }
        lemma_attrs_back(w);
        assert(attr_sources(v).drop_last() =~= attr_sources(w));
        assert(attr_sources(v).last() == writer::attr_source(v.last()));
        assert(plain_attr(v[v.len() - 1]));
        lemma_attr_back(v.last());
        assert(w.push(v.last()) =~= v);
    }
}

/// An id that can be written and read back.
pub open spec fn plain_id(s: Seq<char>) -> bool {
    s.len() > 0 && all_bare(s)
}

/// A target that can be written and read back: its ids are bare, and those of an
/// edge hold neither the mark of an ordinal nor, at the start, an arrow.
pub open spec fn plain_target(t: TargetView) -> bool {
    match t {
        TargetView::Graph => true,
        TargetView::Node(id) => plain_id(id),
        TargetView::Group(id) => plain_id(id),
        TargetView::Edge { from, to, ordinal } => {
            &&& plain_id(from)
            &&& plain_id(to)
            &&& 1 <= ordinal <= u32::MAX
            &&& !from.contains('#')
            &&& !to.contains('#')
            &&& text::find_text(from, "->"@) < 0
        },
    }
}

/// An annotation that can be written and read back.
pub open spec fn plain_annotation(a: AnnotationView) -> bool {
    &&& plain_target(a.target)
    &&& a.attrs.len() > 0
    &&& forall|k: int| 0 <= k < a.attrs.len() ==> plain_attr(#[trigger] a.attrs[k])
}

proof fn lemma_dec_digits(n: int)
    requires
        n >= 0,
    ensures
        text::dec(n).len() > 0,
        forall|i: int| 0 <= i < text::dec(n).len() ==> text::is_digit(#[trigger] text::dec(n)[i]),
        text::all_digits(text::dec(n), 10),
        text::number(text::dec(n), 10) == n,
    decreases n,
{
    let d = n % 10;
    assert(text::is_digit(text::digit(d)) && text::digit_value(text::digit(d), 10) == d);
    if n < 10 {
        assert(text::dec(n).drop_last() =~= Seq::empty());
        assert(text::dec(n).last() == text::digit(n));
        reveal_with_fuel(text::number, 2);
    } else {
        lemma_dec_digits(n / 10);
        let p = text::dec(n / 10);
        assert(text::dec(n) == p.push(text::digit(d)));
        assert(p.push(text::digit(d)).drop_last() =~= p);
        assert forall|i: int| 0 <= i < text::dec(n).len() implies text::is_digit(#[trigger] text::dec(n)[i]) by {
            if i < p.len() {
                assert(text::dec(n)[i] == p[i]);
            }
        }
        assert forall|i: int| 0 <= i < text::dec(n).len() implies text::digit_value(
            #[trigger] text::dec(n)[i],
            10,
        ) >= 0 by {
            if i < p.len() {
                assert(text::dec(n)[i] == p[i]);
                assert(text::is_digit(p[i]));
            }
        }
    }
}

/// The reference to an edge, as it is written.
pub open spec fn edge_source(from: Seq<char>, to: Seq<char>, ordinal: int) -> Seq<char> {
    if ordinal <= 1 {
        from + "->"@ + to
    } else {
        from + "->"@ + to + "#"@ + text::signed_dec(ordinal)
    }
}

proof fn lemma_find_arrow(s: Seq<char>, from: Seq<char>, to: Seq<char>)
    requires
        s == from + "->"@ + to,
        text::find_text(from, "->"@) < 0,
    ensures
        text::find_text(s, "->"@) == from.len(),
{
    reveal_strlit("->");
    let p = "->"@;
    let n = from.len() as int;
    assert(p.len() == 2 && p[0] == '-' && p[1] == '>');
    text::lemma_find_text_from(s, p, 0);
    text::lemma_find_text_from(from, p, 0);
    assert(s.subrange(n, n + 2) =~= p);
    assert(text::occurs_at(s, p, n));
    let m = text::find_text(s, p);
    assert(m != -1);
    if m < n {
        assert(text::occurs_at(s, p, m));
        assert(s.subrange(m, m + 2)[0] == '-' && s.subrange(m, m + 2)[1] == '>');
        assert(s[m] == '-' && s[m + 1] == '>');
        if m + 1 < n {
            assert(from.subrange(m, m + 2) =~= p);
            assert(text::occurs_at(from, p, m));
        } else {
            assert(s[n] == '-');
        }
    }
    if m > n {
        assert(!text::occurs_at(s, p, n));
    }
}

proof fn lemma_edge_back(from: Seq<char>, to: Seq<char>, ordinal: int)
    requires
        plain_target(TargetView::Edge { from, to, ordinal }),
    ensures
        annotations::edge_target(edge_source(from, to, ordinal)) == Ok::<TargetView, Seq<char>>(
            TargetView::Edge { from, to, ordinal },
        ),
{
    reveal_strlit("->");
    reveal_strlit("#");
    let base = from + "->"@ + to;
    let s = edge_source(from, to, ordinal);
    let n = base.len() as int;
    assert forall|i: int| 0 <= i < n implies #[trigger] base[i] != '#' by {
        if i < from.len() {
            assert(from.contains(from[i]));
            assert(base[i] == from[i]);
        } else if i >= from.len() + 2 {
            assert(to.contains(to[i - from.len() - 2]));
            assert(base[i] == to[i - from.len() - 2]);
        }
    }
    lemma_find_arrow(base, from, to);
    assert(base.take(from.len() as int) =~= from);
    assert(base.skip(from.len() as int + 2) =~= to);
    assert(bare(from[0]) && bare(from[from.len() - 1]));
    assert(bare(to[0]) && bare(to[to.len() - 1]));
    lemma_trim_tight(from);
    lemma_trim_tight(to);
    if ordinal <= 1 {
        text::lemma_first_from(s, text::eq_char('#'), 0);
        let h = text::find(s, '#');
        if h < s.len() {
            assert(text::eq_char('#')(s[h]));
        }
        assert(s.take(h) =~= base);
    } else {
        let d = text::dec(ordinal);
        lemma_dec_digits(ordinal);
        assert forall|i: int| 0 <= i < n implies #[trigger] s[i] != '#' by {
            assert(s[i] == base[i]);
        }
        assert(s[n] == '#');
        lemma_find_char(s, '#', n);
        assert(s.take(n) =~= base);
        assert(s.skip(n + 1) =~= d);
        assert(text::is_digit(d[0]));
    }
}

/// The tokens of a target.
spec fn target_tokens(t: TargetView) -> Seq<Seq<char>> {
    match t {
        TargetView::Graph => seq!["@graph"@],
        TargetView::Node(id) => seq!["@node"@, id],
        TargetView::Group(id) => seq!["@group"@, id],
        TargetView::Edge { from, to, ordinal } => seq!["@edge"@, edge_source(from, to, ordinal)],
    }
}

proof fn lemma_edge_source_bare(from: Seq<char>, to: Seq<char>, ordinal: int)
    requires
        plain_target(TargetView::Edge { from, to, ordinal }),
    ensures
        all_bare(edge_source(from, to, ordinal)),
        edge_source(from, to, ordinal).len() > 0,
{
    reveal_strlit("->");
    reveal_strlit("#");
    let s = edge_source(from, to, ordinal);
    let n = from.len() + 2 + to.len();
    lemma_dec_digits(ordinal);
    assert forall|i: int| 0 <= i < s.len() implies bare(#[trigger] s[i]) by {
        if i < from.len() {
            assert(s[i] == from[i]);
        } else if i < from.len() + 2 {
        } else if i < n {
            assert(s[i] == to[i - from.len() - 2]);
        } else if i > n {
            assert(s[i] == text::dec(ordinal)[i - n - 1]);
        }
    }
}

/// Two bare words and a space are read as two tokens, and what follows as its own.
proof fn lemma_read_two(s: Seq<char>, a: Seq<char>, b: Seq<char>, rest: Seq<char>)
    requires
        plain_id(a),
        plain_id(b),
        s == a + seq![' '] + b + seq![' '] + rest,
    ensures
        annotations::tokens_from(s, 0, Seq::empty(), false) == annotations::behind(
            seq![a, b],
            annotations::tokens_from(s, (a.len() + b.len() + 2) as int, Seq::empty(), false),
        ),
{
    let n = a.len() as int;
    let m = b.len() as int;
    assert(s.subrange(0, n) =~= a);
    lemma_read_bare(s, 0, a, Seq::empty());
    assert(Seq::<char>::empty() + a =~= a);
    assert(s[n] == ' ');
    assert(s.subrange(n + 1, n + 1 + m) =~= b);
    lemma_read_bare(s, n + 1, b, Seq::empty());
    assert(Seq::<char>::empty() + b =~= b);
    assert(s[n + 1 + m] == ' ');
    let r = annotations::tokens_from(s, n + m + 2, Seq::empty(), false);
    assert(annotations::tokens_from(s, n + 1 + m, b, false) == annotations::behind(seq![b], r));
    match r {
        Ok(v) => {
            assert(seq![a] + (seq![b] + v) =~= seq![a, b] + v);
        },
        Err(_) => {},
    }
}

/// The text of an annotation behind the comment mark.
spec fn annotation_body(a: AnnotationView) -> Seq<char> {
    writer::target_source(a.target) + seq![' '] + text::join(attr_sources(a.attrs), " "@)
}

/// The comment mark and the white space behind it are passed over.
proof fn lemma_comment_body(a: AnnotationView)
    requires
        a.attrs.len() > 0,
    ensures
        annotations::comment_annotation(writer::annotation_source(a)) == match annotations::tokens_from(
            annotation_body(a),
            0,
            Seq::empty(),
            false,
        ) {
            Err(m) => Err(m),
            Ok(tokens) => annotations::annotation_of(tokens),
        },
{
    reveal_strlit("%% ");
    reveal_strlit("%%");
    reveal_strlit(" ");
    let attrs = text::join(attr_sources(a.attrs), " "@);
    let body = annotation_body(a);
    let src = writer::annotation_source(a);
    lemma_attrs_end(a.attrs);
    lemma_target_begins(a.target);
    assert(src =~= "%%"@ + (seq![' '] + body));
    assert(body[0] == writer::target_source(a.target)[0]);
    assert(body.last() == attrs.last());
    assert(tight(body));
    assert(src.last() == body.last());
    assert(tight(src));
    lemma_trim_tight(src);
    assert(src.skip(2) =~= seq![' '] + body);
    assert(text::starts_with(src, "%%"@)) by {
        assert(src.take(2) =~= "%%"@);
    }
    lemma_trim_space(body);
}

proof fn lemma_target_begins(t: TargetView)
    ensures
        writer::target_source(t).len() > 0,
        writer::target_source(t)[0] == '@',
{
    reveal_strlit("@graph");
    reveal_strlit("@node ");
    reveal_strlit("@group ");
    reveal_strlit("@edge ");
}

/// The body of an annotation is read as the tokens of its target and attributes.
proof fn lemma_body_tokens(a: AnnotationView)
    requires
        plain_annotation(a),
    ensures
        annotations::tokens_from(annotation_body(a), 0, Seq::empty(), false) == Ok::<
            Seq<Seq<char>>,
            Seq<char>,
        >(target_tokens(a.target) + attr_sources(a.attrs)),
{
    let attrs = text::join(attr_sources(a.attrs), " "@);
    let body = annotation_body(a);
    let at = attr_sources(a.attrs);
    let n = writer::target_source(a.target).len() as int + 1;
    assert(body.skip(n) =~= attrs);
    lemma_read_attrs(body, n, a.attrs);
    match a.target {
        TargetView::Graph => {
            reveal_strlit("@graph");
            let g = "@graph"@;
            assert(body.subrange(0, 6) =~= g);
            lemma_read_bare(body, 0, g, Seq::empty());
            assert(Seq::<char>::empty() + g =~= g);
            assert(body[6] == ' ');
        },
        TargetView::Node(id) => {
            reveal_strlit("@node");
            reveal_strlit("@node ");
            assert(body =~= "@node"@ + seq![' '] + id + seq![' '] + attrs);
            lemma_read_two(body, "@node"@, id, attrs);
        },
        TargetView::Group(id) => {
            reveal_strlit("@group");
            reveal_strlit("@group ");
            assert(body =~= "@group"@ + seq![' '] + id + seq![' '] + attrs);
            lemma_read_two(body, "@group"@, id, attrs);
        },
        TargetView::Edge { from, to, ordinal } => {
            reveal_strlit("@edge");
            reveal_strlit("@edge ");
            let e = edge_source(from, to, ordinal);
            lemma_edge_source_bare(from, to, ordinal);
            assert(writer::target_source(a.target) =~= "@edge"@ + seq![' '] + e);
            assert(body =~= "@edge"@ + seq![' '] + e + seq![' '] + attrs);
            lemma_read_two(body, "@edge"@, e, attrs);
        },
    }
}

/// What is written of an annotation is read back as that annotation.
pub proof fn law_annotation_round_trip(a: AnnotationView)
    requires
        plain_annotation(a),
    ensures
        annotations::comment_annotation(writer::annotation_source(a)) == Ok::<Option<AnnotationView>, Seq<char>>(
            Some(a),
        ),
{
    lemma_comment_body(a);
    lemma_body_tokens(a);
    lemma_attrs_back(a.attrs);
    lemma_differ();
    let tt = target_tokens(a.target);
    let at = attr_sources(a.attrs);
    assert((tt + at)[0] == tt[0]);
    assert((tt + at).skip(tt.len() as int) =~= at);
    match a.target {
        TargetView::Edge { from, to, ordinal } => {
            assert((tt + at)[1] == tt[1]);
            lemma_edge_back(from, to, ordinal);
        },
        TargetView::Graph => {},
        _ => {
            assert((tt + at)[1] == tt[1]);
        },
    }
}

/// The directives are different words.
proof fn lemma_differ()
    ensures
        "@node"@ != "@graph"@,
        "@group"@ != "@graph"@,
        "@edge"@ != "@graph"@,
        "@group"@ != "@node"@,
        "@edge"@ != "@node"@,
        "@edge"@ != "@group"@,
{
    reveal_strlit("@graph");
    reveal_strlit("@node");
    reveal_strlit("@group");
    reveal_strlit("@edge");
    assert("@node"@[1] == 'n');
    assert("@group"@[1] == 'g' && "@group"@[3] == 'o');
    assert("@graph"@[1] == 'g' && "@graph"@[3] == 'a');
    assert("@edge"@[1] == 'e');
}

/// Written attributes end with a quote.
proof fn lemma_attrs_end(v: Seq<AttrView>)
    requires
        v.len() > 0,
    ensures
        text::join(attr_sources(v), " "@).len() > 0,
        text::join(attr_sources(v), " "@).last() == '"',
{
    reveal_strlit("\"");
    reveal_strlit(" ");
    let all = attr_sources(v);
    let last = writer::attr_source(v.last());
    assert(all.last() == last);
    assert(last.last() == '"');
    if v.len() == 1 {
        assert(all[0] == last);
    } else {
        let j = text::join(all.drop_last(), " "@);
        assert((j + " "@ + last).last() == last.last());
    }
}

// ── arrows ──────────────────────────────────────────────────────────────────

/// The marks that an edge can have.
pub open spec fn known_ends(t: Seq<char>) -> bool {
    ||| t == "arrow_open"@
    ||| t == "arrow_point"@
    ||| t == "arrow_circle"@
    ||| t == "arrow_cross"@
    ||| t == "double_arrow_point"@
    ||| t == "double_arrow_circle"@
    ||| t == "double_arrow_cross"@
}

proof fn lemma_count_repeated(c: char, n: nat, p: spec_fn(char) -> bool)
    requires
        p(c),
    ensures
        types::count_of(writer::repeated(c, n as int), p) == n,
    decreases n,
{
    if n > 0 {
        lemma_count_repeated(c, (n - 1) as nat, p);
        assert(writer::repeated(c, n as int).drop_last() =~= writer::repeated(c, n - 1));
        assert(writer::repeated(c, n as int).last() == c);
    } else {
        assert(writer::repeated(c, 0) =~= Seq::empty());
    }
}

proof fn lemma_count_concat(a: Seq<char>, b: Seq<char>, p: spec_fn(char) -> bool)
    ensures
        types::count_of(a + b, p) == types::count_of(a, p) + types::count_of(b, p),
    decreases b.len(),
{
    if b.len() == 0 {
        assert(a + b =~= a);
    } else {
        lemma_count_concat(a, b.drop_last(), p);
        assert((a + b).drop_last() =~= a + b.drop_last());
        assert((a + b).last() == b.last());
    }
}

proof fn lemma_marks_differ()
    ensures
        "arrow_open"@ != "arrow_point"@,
        "arrow_open"@ != "arrow_circle"@,
        "arrow_open"@ != "arrow_cross"@,
        "arrow_open"@ != "double_arrow_point"@,
        "arrow_open"@ != "double_arrow_circle"@,
        "arrow_open"@ != "double_arrow_cross"@,
        "arrow_point"@ != "arrow_circle"@,
        "arrow_point"@ != "arrow_cross"@,
        "arrow_point"@ != "double_arrow_point"@,
        "arrow_point"@ != "double_arrow_circle"@,
        "arrow_point"@ != "double_arrow_cross"@,
        "arrow_circle"@ != "arrow_cross"@,
        "arrow_circle"@ != "double_arrow_point"@,
        "arrow_circle"@ != "double_arrow_circle"@,
        "arrow_circle"@ != "double_arrow_cross"@,
        "arrow_cross"@ != "double_arrow_point"@,
        "arrow_cross"@ != "double_arrow_circle"@,
        "arrow_cross"@ != "double_arrow_cross"@,
        "double_arrow_point"@ != "double_arrow_circle"@,
        "double_arrow_point"@ != "double_arrow_cross"@,
        "double_arrow_circle"@ != "double_arrow_cross"@,
{
    reveal_strlit("arrow_open");
    reveal_strlit("arrow_point");
    reveal_strlit("arrow_circle");
    reveal_strlit("arrow_cross");
    reveal_strlit("double_arrow_point");
    reveal_strlit("double_arrow_circle");
    reveal_strlit("double_arrow_cross");
    assert("arrow_open"@.len() == 10);
    assert("arrow_point"@.len() == 11 && "arrow_point"@[6] == 'p');
    assert("arrow_circle"@.len() == 12);
    assert("arrow_cross"@.len() == 11 && "arrow_cross"@[6] == 'c');
    assert("double_arrow_point"@.len() == 18 && "double_arrow_point"@[13] == 'p');
    assert("double_arrow_circle"@.len() == 19);
    assert("double_arrow_cross"@.len() == 18 && "double_arrow_cross"@[13] == 'c');
}

/// No dot: no sign of a dotted line.
proof fn lemma_not_dotted(a: Seq<char>)
    requires
        forall|i: int| 0 <= i < a.len() ==> #[trigger] a[i] != '.',
    ensures
        text::find_text(a, "-."@) < 0,
        text::find_text(a, ".-"@) < 0,
{
    reveal_strlit("-.");
    reveal_strlit(".-");
    text::lemma_find_text_from(a, "-."@, 0);
    text::lemma_find_text_from(a, ".-"@, 0);
    let m = text::find_text(a, "-."@);
    if m >= 0 {
        assert(a.subrange(m, m + 2)[1] == '.');
        assert(a[m + 1] == '.');
    }
    let k = text::find_text(a, ".-"@);
    if k >= 0 {
        assert(a.subrange(k, k + 2)[0] == '.');
        assert(a[k] == '.');
    }
}

/// The arrow of a normal or thick edge is read back: its marks, its stroke and its
/// length.
pub proof fn law_arrow_round_trip(e: EdgeView)
    requires
        e.edge_type matches Some(t) && known_ends(t),
        e.stroke == EdgeStroke::Normal || e.stroke == EdgeStroke::Thick,
        e.length matches Some(n) && 1 <= n <= 10,
    ensures
        types::arrow_ends(text::trim(writer::arrow_text(e))) == e.edge_type->0,
        types::arrow_stroke(text::trim(writer::arrow_text(e))) == e.stroke,
        types::arrow_length(text::trim(writer::arrow_text(e))) == e.length->0,
{
    reveal_strlit("<");
    reveal_strlit(">");
    reveal_strlit("o");
    reveal_strlit("x");
    reveal_strlit("");
    lemma_marks_differ();
    let t = e.edge_type->0;
    let start = writer::start_mark(t);
    let end = writer::end_mark(t);
    let n = writer::line_count(e.length, start.len() > 0 || end.len() > 0);
    let c = if e.stroke == EdgeStroke::Thick {
        '='
    } else {
        '-'
    };
    let line = writer::repeated(c, n);
    let a = writer::arrow_text(e);
    assert(a == start + line + end);
    assert(start.len() <= 1 && end.len() <= 1);
    assert(a.len() == start.len() + n + end.len());
    assert(n >= 2);
    assert(forall|i: int| start.len() <= i < start.len() + n ==> a[i] == c);
    assert forall|i: int| 0 <= i < a.len() implies #[trigger] a[i] != '.' by {
        if i < start.len() {
            assert(a[i] == start[i]);
        } else if i >= start.len() + n {
            assert(a[i] == end[i - start.len() - n]);
        }
    }
    lemma_not_dotted(a);
    if start.len() == 1 {
        assert(a[0] == start[0]);
        assert(a[1] == c);
    } else {
        assert(a[0] == c);
    }
    if end.len() == 1 {
        assert(a.last() == end[0]);
    } else {
        assert(a.last() == c);
    }
    assert(tight(a));
    lemma_trim_tight(a);
    if e.stroke == EdgeStroke::Thick {
        assert(a[start.len() as int] == '=');
        let p = |x: char| x == '=';
        lemma_count_repeated('=', n as nat, p);
        lemma_count_concat(start, line, p);
        lemma_count_concat(start + line, end, p);
        lemma_count_mark(start, p);
        lemma_count_mark(end, p);
    } else {
        assert forall|i: int| 0 <= i < a.len() implies #[trigger] a[i] != '=' by {
            if i < start.len() {
                assert(a[i] == start[i]);
            } else if i >= start.len() + n {
                assert(a[i] == end[i - start.len() - n]);
            }
        }
        let p = |x: char| x == '-' || x == '~';
        lemma_count_repeated('-', n as nat, p);
        lemma_count_concat(start, line, p);
        lemma_count_concat(start + line, end, p);
        lemma_count_mark(start, p);
        lemma_count_mark(end, p);
    }
}

proof fn lemma_count_mark(s: Seq<char>, p: spec_fn(char) -> bool)
    requires
        s.len() <= 1,
        s.len() == 1 ==> !p(s[0]),
    ensures
        types::count_of(s, p) == 0,
{
    if s.len() == 1 {
        assert(s.drop_last() =~= Seq::empty());
        assert(s.last() == s[0]);
        reveal_with_fuel(types::count_of, 2);
    }
}

} // verus!
