//! What holds of the text functions: what is cut off is white space, and what is split goes
//! together again.
use crate::text;
use crate::was::block_laws;
use crate::was::data_laws;
use vstd::prelude::*;

verus! {

/// Trimming cuts white space off the two ends, all of it and nothing else.
pub proof fn law_trim_cuts_white_space(s: Seq<char>) -> (r: (int, int))
    ensures
        0 <= r.0 <= r.1 <= s.len(),
        text::trim(s) == s.subrange(r.0, r.1),
        forall|i: int| 0 <= i < r.0 || r.1 <= i < s.len() ==> text::is_ws(#[trigger] s[i]),
        r.0 < r.1 ==> !text::is_ws(s[r.0]) && !text::is_ws(s[r.1 - 1]),
{
    let a = text::first_from(s, text::not_ws(), 0);
    text::lemma_first_from(s, text::not_ws(), 0);
    let t = text::trim_start(s);
    text::lemma_last_below(t, text::not_ws(), t.len() as int);
    let n = text::last_below(t, text::not_ws(), t.len() as int) + 1;
    let b = a + n;
    assert(text::trim(s) =~= s.subrange(a, b));
    assert forall|i: int| 0 <= i < a || b <= i < s.len() implies text::is_ws(#[trigger] s[i]) by {
        if i < a {
            assert(!text::not_ws()(s[i]));
        } else {
            assert(t[i - a] == s[i]);
            assert(!text::not_ws()(t[i - a]));
        }
    }
    if a < b {
        assert(t[n - 1] == s[b - 1]);
        assert(text::not_ws()(t[n - 1]));
        assert(text::not_ws()(s[a]));
    }
    (a, b)
}

/// The pieces put together with `c` in between.
pub open spec fn rejoined(v: Seq<Seq<char>>, c: char) -> Seq<char>
    decreases v.len(),
{
    if v.len() == 0 {
        Seq::empty()
    } else if v.len() == 1 {
        v[0]
    } else {
        v[0] + seq![c] + rejoined(v.drop_first(), c)
    }
}

proof fn lemma_split_from(s: Seq<char>, c: char, a: int)
    requires
        0 <= a <= s.len(),
    ensures
        text::split_from(s, text::eq_char(c), a).len() >= 1,
        rejoined(text::split_from(s, text::eq_char(c), a), c) == s.skip(a),
        forall|k: int|
            0 <= k < text::split_from(s, text::eq_char(c), a).len() ==> !(
            #[trigger] text::split_from(s, text::eq_char(c), a)[k]).contains(c),
    decreases s.len() - a,
{
    let p = text::eq_char(c);
    text::lemma_first_from(s, p, a);
    let n = text::first_from(s, p, a);
    let v = text::split_from(s, p, a);
    let head = s.subrange(a, n);
    assert(!head.contains(c)) by {
        if head.contains(c) {
            let k = choose|k: int| 0 <= k < head.len() && head[k] == c;
            assert(s[a + k] == c);
            assert(p(s[a + k]));
        }
    }
    if n >= s.len() {
        assert(s.subrange(a, s.len() as int) =~= s.skip(a));
        assert(v =~= seq![s.subrange(a, s.len() as int)]);
    } else {
        lemma_split_from(s, c, n + 1);
        let rest = text::split_from(s, p, n + 1);
        assert(v.drop_first() =~= rest);
        assert(v[0] == head);
        assert(head + seq![c] + s.skip(n + 1) =~= s.skip(a));
        assert forall|k: int| 0 <= k < v.len() implies !(#[trigger] v[k]).contains(c) by {
            if k > 0 {
                assert(v[k] == rest[k - 1]);
            }
        }
    }
}

/// Splitting a text at a character gives pieces without it that go together again.
pub proof fn law_split_pieces_go_together(s: Seq<char>, c: char)
    ensures
        text::split(s, c).len() >= 1,
        rejoined(text::split(s, c), c) == s,
        forall|k: int|
            0 <= k < text::split(s, c).len() ==> !(#[trigger] text::split(s, c)[k]).contains(c),
{
    lemma_split_from(s, c, 0);
    assert(s.skip(0) =~= s);
}

proof fn lemma_words_from(s: Seq<char>, a: int)
    requires
        0 <= a <= s.len(),
    ensures
        forall|k: int|
            #![trigger text::words_from(s, a)[k]]
            0 <= k < text::words_from(s, a).len() ==> text::words_from(s, a)[k].len() > 0 && forall|
                i: int,
            |
                0 <= i < text::words_from(s, a)[k].len() ==> !text::is_ws(
                    #[trigger] text::words_from(s, a)[k][i],
                ),
        text::words_from(s, a).len() == 0 ==> forall|i: int|
            a <= i < s.len() ==> text::is_ws(#[trigger] s[i]),
    decreases s.len() - a,
{
    if a < s.len() {
        text::lemma_first_from(s, text::not_ws(), a);
        let b = text::first_from(s, text::not_ws(), a);
        if b < s.len() {
            text::lemma_first_from(s, text::ws(), b);
            let n = text::first_from(s, text::ws(), b);
            assert(text::not_ws()(s[b]));
            assert(n > b) by {
                if n == b {
                    assert(text::ws()(s[b]));
                }
            }
            lemma_words_from(s, n);
            let w = s.subrange(b, n);
            let v = text::words_from(s, a);
            let rest = text::words_from(s, n);
            assert(v == seq![w] + rest);
            assert forall|k: int| 0 <= k < v.len() implies v[k].len() > 0 && forall|i: int|
                0 <= i < v[k].len() ==> !text::is_ws(#[trigger] v[k][i]) by {
                if k == 0 {
                    assert forall|i: int| 0 <= i < w.len() implies !text::is_ws(#[trigger] w[i]) by {
                        assert(w[i] == s[b + i]);
                        assert(!text::ws()(s[b + i]));
                    }
                } else {
                    assert(v[k] == rest[k - 1]);
                }
            }
        } else {
            assert forall|i: int| a <= i < s.len() implies text::is_ws(#[trigger] s[i]) by {
                assert(!text::not_ws()(s[i]));
            }
        }
    }
}

/// The words of a text are its runs without white space; a text without words is blank.
pub proof fn law_words_hold_no_white_space(s: Seq<char>)
    ensures
        forall|k: int|
            #![trigger text::words(s)[k]]
            0 <= k < text::words(s).len() ==> text::words(s)[k].len() > 0 && forall|i: int|
                0 <= i < text::words(s)[k].len() ==> !text::is_ws(#[trigger] text::words(s)[k][i]),
        text::words(s).len() == 0 ==> forall|i: int|
            0 <= i < s.len() ==> text::is_ws(#[trigger] s[i]),
{
    lemma_words_from(s, 0);
}

/// A signed decimal numeral reads back as its number, throughout the 64-bit range.
pub proof fn law_signed_decimal_reads_back(n: int)
    requires
        i64::MIN <= n <= i64::MAX,
    ensures
        text::parse_i64(text::signed_dec(n), 10) == Some(n),
{
    let m = if n < 0 {
        -n
    } else {
        n
    };
    data_laws::law_decimal_reads_back(m);
    block_laws::lemma_dec_is_digits(m);
    let d = text::dec(m);
    let s = text::signed_dec(n);
    if n < 0 {
        assert(s.skip(1) =~= d);
        assert(s[0] == '-');
    } else {
        assert('0' <= d[0] <= '9');
    }
}

/// Padding adds spaces on one side, up to the width and no further.
pub proof fn law_padding_reaches_the_width(s: Seq<char>, w: int)
    ensures
        text::pad_right(s, w).take(s.len() as int) == s,
        text::pad_left(s, w).skip(text::pad_left(s, w).len() - s.len()) == s,
        s.len() <= w ==> text::pad_right(s, w).len() == w && text::pad_left(s, w).len() == w,
        s.len() >= w ==> text::pad_right(s, w) == s && text::pad_left(s, w) == s,
        forall|i: int|
            s.len() <= i < text::pad_right(s, w).len() ==> #[trigger] text::pad_right(s, w)[i] == ' ',
        forall|i: int|
            0 <= i < text::pad_left(s, w).len() - s.len() ==> #[trigger] text::pad_left(s, w)[i]
                == ' ',
{
    assert(text::pad_right(s, w).take(s.len() as int) =~= s);
    assert(text::pad_left(s, w).skip(text::pad_left(s, w).len() - s.len()) =~= s);
    if s.len() >= w {
        assert(text::pad_right(s, w) =~= s);
        assert(text::pad_left(s, w) =~= s);
    }
}

} // verus!
