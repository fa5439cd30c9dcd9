//! What holds of lowering and inlining as a whole.
use crate::text;
use crate::was::data;
use crate::was::decls;
use crate::was::graph;
use crate::was::includes;
use crate::was::inliner;
use crate::was::lex;
use crate::was::lower;
use crate::was::macros;
use crate::was::graph::TreeView;
use crate::was::includes::IncludeFile;
use crate::was::inliner::{BufferLine, KindView, Placed, SpanView};
use crate::was::lower::{LowerView, SourceView};
use crate::was::macros::{Collected, Expanded, MacroView, NumberedLine};
use crate::winkb::kb::Kb;
use vstd::prelude::*;

verus! {

// ── macros ──────────────────────────────────────────────────────────────────

/// Every number of `v` lies between 1 and `n`.
pub open spec fn numbers_within(v: Seq<NumberedLine>, n: int) -> bool {
    forall|i: int| 0 <= i < v.len() ==> 1 <= (#[trigger] v[i]).1 <= n
}

/// The numbers of `v` never decrease.
pub open spec fn numbers_in_order(v: Seq<NumberedLine>) -> bool {
    forall|i: int, j: int| 0 <= i <= j < v.len() ==> (#[trigger] v[i]).1 <= (#[trigger] v[j]).1
}

/// `w` is `v` with lines numbered `orig` added.
pub open spec fn adds_from(v: Seq<NumberedLine>, w: Seq<NumberedLine>, orig: int) -> bool {
    &&& v.len() <= w.len()
    &&& forall|i: int| 0 <= i < v.len() ==> #[trigger] w[i] == v[i]
    &&& forall|i: int| v.len() <= i < w.len() ==> (#[trigger] w[i]).1 == orig
}

/// The entries of a map, those that are 0 left out, never decrease.
pub open spec fn never_decreases(map: Seq<int>) -> bool {
    forall|i: int, j: int|
        0 <= i <= j < map.len() && map[i] != 0 && map[j] != 0 ==> #[trigger] map[i]
            <= #[trigger] map[j]
}

proof fn lemma_kept_numbers(v: Seq<Seq<char>>)
    ensures
        macros::collect_lines(v) matches Ok(st) ==> numbers_within(st.kept, v.len() as int),
    decreases v.len(),
{
    if v.len() > 0 {
        lemma_kept_numbers(v.drop_last());
    }
}

proof fn lemma_expand_numbers(
    line: Seq<char>,
    orig: int,
    ms: Seq<(Seq<char>, MacroView)>,
    st: Expanded,
    depth: int,
    n: int,
)
    requires
        numbers_within(st.out, n),
        1 <= orig <= n,
    ensures
        macros::expand(line, orig, ms, st, depth) matches Ok(e) ==> numbers_within(e.out, n),
    decreases macros::max_depth() + 1 - depth, 0int, 1int,
{
    let body = text::trim(lex::strip_comment(line));
    if depth <= macros::max_depth() {
        match macros::macro_named(ms, macros::head_name(body)) {
            None => {},
            Some(mac) => {
                let args = macros::invocation_args(body);
                if args.len() == mac.params.len() {
                    lemma_expand_body_numbers(
                        mac.body,
                        macros::expansion_subs(mac, args, st.count),
                        orig,
                        ms,
                        Expanded { count: macros::next_count(st.count), ..st },
                        depth + 1,
                        n,
                    );
                }
            },
        }
    }
}

proof fn lemma_expand_body_numbers(
    body: Seq<Seq<char>>,
    subs: Seq<(Seq<char>, Seq<char>)>,
    orig: int,
    ms: Seq<(Seq<char>, MacroView)>,
    st: Expanded,
    depth: int,
    n: int,
)
    requires
        numbers_within(st.out, n),
        1 <= orig <= n,
    ensures
        macros::expand_body(body, subs, orig, ms, st, depth) matches Ok(e) ==> numbers_within(e.out, n),
    decreases macros::max_depth() + 1 - depth, body.len(), 2int,
{
    if body.len() > 0 {
        lemma_expand_body_numbers(body.drop_last(), subs, orig, ms, st, depth, n);
        match macros::expand_body(body.drop_last(), subs, orig, ms, st, depth) {
            Ok(st1) => {
                lemma_expand_numbers(
                    macros::substitution(body.last(), subs),
                    orig,
                    ms,
                    st1,
                    depth,
                    n,
                );
            },
            Err(_) => {},
        }
    }
}

proof fn lemma_expand_kept_numbers(v: Seq<NumberedLine>, ms: Seq<(Seq<char>, MacroView)>, n: int)
    requires
        numbers_within(v, n),
    ensures
        macros::expand_kept(v, ms) matches Ok(e) ==> numbers_within(e.out, n),
    decreases v.len(),
{
    if v.len() > 0 {
        assert forall|i: int| 0 <= i < v.drop_last().len() implies 1 <= (
        #[trigger] v.drop_last()[i]).1 <= n by {
            assert(v.drop_last()[i] == v[i]);
        }
        lemma_expand_kept_numbers(v.drop_last(), ms, n);
        match macros::expand_kept(v.drop_last(), ms) {
            Ok(st) => {
                assert(v[v.len() - 1] == v.last());
                lemma_expand_numbers(v.last().0, v.last().1, ms, st, 0, n);
            },
            Err(_) => {},
        }
    }
}

proof fn lemma_kept_in_order(v: Seq<Seq<char>>)
    ensures
        macros::collect_lines(v) matches Ok(st) ==> numbers_in_order(st.kept),
    decreases v.len(),
{
    if v.len() > 0 {
        lemma_kept_in_order(v.drop_last());
        lemma_kept_numbers(v.drop_last());
    }
}

proof fn lemma_expand_adds(
    line: Seq<char>,
    orig: int,
    ms: Seq<(Seq<char>, MacroView)>,
    st: Expanded,
    depth: int,
)
    ensures
        macros::expand(line, orig, ms, st, depth) matches Ok(e) ==> adds_from(st.out, e.out, orig),
    decreases macros::max_depth() + 1 - depth, 0int, 1int,
{
    let body = text::trim(lex::strip_comment(line));
    if depth <= macros::max_depth() {
        match macros::macro_named(ms, macros::head_name(body)) {
            None => {},
            Some(mac) => {
                let args = macros::invocation_args(body);
                if args.len() == mac.params.len() {
                    lemma_expand_body_adds(
                        mac.body,
                        macros::expansion_subs(mac, args, st.count),
                        orig,
                        ms,
                        Expanded { count: macros::next_count(st.count), ..st },
                        depth + 1,
                    );
                }
            },
        }
    }
}

proof fn lemma_expand_body_adds(
    body: Seq<Seq<char>>,
    subs: Seq<(Seq<char>, Seq<char>)>,
    orig: int,
    ms: Seq<(Seq<char>, MacroView)>,
    st: Expanded,
    depth: int,
)
    ensures
        macros::expand_body(body, subs, orig, ms, st, depth) matches Ok(e) ==> adds_from(
            st.out,
            e.out,
            orig,
        ),
    decreases macros::max_depth() + 1 - depth, body.len(), 2int,
{
    if body.len() > 0 {
        lemma_expand_body_adds(body.drop_last(), subs, orig, ms, st, depth);
        match macros::expand_body(body.drop_last(), subs, orig, ms, st, depth) {
            Ok(st1) => {
                lemma_expand_adds(macros::substitution(body.last(), subs), orig, ms, st1, depth);
            },
            Err(_) => {},
        }
    }
}

proof fn lemma_expand_kept_in_order(v: Seq<NumberedLine>, ms: Seq<(Seq<char>, MacroView)>)
    requires
        numbers_in_order(v),
        forall|i: int| 0 <= i < v.len() ==> 1 <= (#[trigger] v[i]).1,
    ensures
        macros::expand_kept(v, ms) matches Ok(e) ==> numbers_in_order(e.out) && forall|i: int|
            0 <= i < e.out.len() ==> v.len() > 0 && (#[trigger] e.out[i]).1 <= v.last().1,
    decreases v.len(),
{
    if v.len() > 0 {
        let w = v.drop_last();
        assert forall|i: int| 0 <= i < w.len() implies 1 <= (#[trigger] w[i]).1 by {
            assert(w[i] == v[i]);
        }
        assert(numbers_in_order(w)) by {
            assert forall|i: int, j: int| 0 <= i <= j < w.len() implies (#[trigger] w[i]).1 <= (
            #[trigger] w[j]).1 by {
                assert(w[i] == v[i] && w[j] == v[j]);
            }
        }
        lemma_expand_kept_in_order(w, ms);
        match macros::expand_kept(w, ms) {
            Ok(st) => {
                lemma_expand_adds(v.last().0, v.last().1, ms, st, 0);
                if w.len() > 0 {
                    assert(v[w.len() - 1].1 <= v[v.len() - 1].1);
                    assert(w.last() == v[w.len() - 1]);
                }
                match macros::expand(v.last().0, v.last().1, ms, st, 0) {
                    Ok(e) => {
                        assert forall|i: int| 0 <= i < e.out.len() implies (#[trigger] e.out[i]).1
                            <= v.last().1 by {
                            if i < st.out.len() {
                                assert(e.out[i] == st.out[i]);
                            }
                        }
                        assert forall|i: int, j: int| 0 <= i <= j < e.out.len() implies (
                        #[trigger] e.out[i]).1 <= (#[trigger] e.out[j]).1 by {
                            if j < st.out.len() {
                                assert(e.out[i] == st.out[i] && e.out[j] == st.out[j]);
                            }
                        }
                    },
                    Err(_) => {},
                }
            },
            Err(_) => {},
        }
    }
}

/// Every line of the macro-free text comes from a line of the source, and the lines
/// keep their order.
pub proof fn law_expansion_comes_from_source(src: Seq<char>)
    ensures
        macros::macro_expansion(src) matches Ok((_, map)) ==> (forall|i: int|
            0 <= i < map.len() ==> 1 <= #[trigger] map[i] <= text::lines(src).len())
            && never_decreases(map),
{
    lemma_kept_in_order(text::lines(src));
    lemma_kept_numbers(text::lines(src));
    match macros::collect_lines(text::lines(src)) {
        Ok(st) => {
            if st.open is None {
                lemma_expand_kept_numbers(st.kept, st.macros, text::lines(src).len() as int);
                lemma_expand_kept_in_order(st.kept, st.macros);
            }
        },
        Err(_) => {},
    }
}

/// The lines `v` numbered from 1.
pub open spec fn numbered(v: Seq<Seq<char>>) -> Seq<NumberedLine> {
    Seq::new(v.len(), |i: int| (v[i], i + 1))
}

proof fn lemma_no_headers(v: Seq<Seq<char>>)
    requires
        forall|i: int| 0 <= i < v.len() ==> macros::macro_header(text::trim(lex::strip_comment(#[trigger] v[i]))) is None,
    ensures
        macros::collect_lines(v) == Ok::<Collected, Seq<char>>(
            Collected { macros: Seq::empty(), kept: numbered(v), open: None },
        ),
    decreases v.len(),
{
    if v.len() == 0 {
        assert(numbered(v) =~= Seq::empty());
    } else {
        assert forall|i: int| 0 <= i < v.drop_last().len() implies macros::macro_header(
            text::trim(lex::strip_comment(#[trigger] v.drop_last()[i])),
        ) is None by {
            assert(v.drop_last()[i] == v[i]);
        }
        lemma_no_headers(v.drop_last());
        assert(v[v.len() - 1] == v.last());
        assert(numbered(v) =~= numbered(v.drop_last()).push((v.last(), v.len() as int)));
    }
}

proof fn lemma_expand_none(v: Seq<NumberedLine>)
    ensures
        macros::expand_kept(v, Seq::empty()) == Ok::<Expanded, Seq<char>>(Expanded { out: v, count: 0 }),
    decreases v.len(),
{
    if v.len() == 0 {
        assert(v =~= Seq::empty());
    } else {
        lemma_expand_none(v.drop_last());
        assert(v =~= v.drop_last().push(v.last()));
    }
}

/// A source without macro definitions is passed through line by line.
pub proof fn law_no_macros_no_change(src: Seq<char>)
    requires
        forall|i: int|
            0 <= i < text::lines(src).len() ==> macros::macro_header(
                text::trim(lex::strip_comment(#[trigger] text::lines(src)[i])),
            ) is None,
    ensures
        macros::macro_expansion(src) == Ok::<(Seq<char>, Seq<int>), Seq<char>>(
            (macros::joined_lines(numbered(text::lines(src))), Seq::new(text::lines(src).len(), |i: int| i + 1)),
        ),
{
    lemma_no_headers(text::lines(src));
    lemma_expand_none(numbered(text::lines(src)));
    assert(macros::line_numbers(numbered(text::lines(src))) =~= Seq::new(text::lines(src).len(), |i: int| i + 1));
}

// ── lowering ────────────────────────────────────────────────────────────────

proof fn lemma_line_feeds_concat(a: Seq<char>, b: Seq<char>)
    ensures
        lower::line_feeds(a + b) == lower::line_feeds(a) + lower::line_feeds(b),
    decreases b.len(),
{
    if b.len() == 0 {
        assert(a + b =~= a);
    } else {
        lemma_line_feeds_concat(a, b.drop_last());
        assert((a + b).drop_last() =~= a + b.drop_last());
        assert((a + b).last() == b.last());
    }
}

/// The lowered line `i` is data of the raw string block that ends on line `n` of the
/// source.
pub open spec fn block_data(kb: &Kb, src: SourceView, n: nat, i: int) -> bool {
    match lower::lower_lines(kb, src, (n - 1) as nat) {
        Ok(low) => match low.st.open_string {
            Some((ls, wide)) => text::same_ignoring_case(
                text::trim(src.lines[n - 1]),
                lower::string_end(wide),
            ) && low.map.len() <= i < low.map.len() + lower::line_feeds(data::string_block(ls, wide)),
            None => false,
        },
        Err(_) => false,
    }
}

proof fn lemma_code_is_shown(
    kb: &Kb,
    src: SourceView,
    st: LowerView,
    body: Seq<char>,
    t: Seq<char>,
    raw: Seq<char>,
    line: int,
)
    ensures
        lower::code_line(kb, src, st, body, t, raw, line) matches Ok(l) ==> !l.silent,
{
    reveal(lower::code_line);
}

proof fn lemma_silent_line(kb: &Kb, src: SourceView, st: LowerView, raw: Seq<char>, line: int)
    ensures
        lower::lower_line(kb, src, st, raw, line) matches Ok(l) ==> l.silent == (st.open_string matches Some(
            (ls, wide),
        ) && text::same_ignoring_case(text::trim(raw), lower::string_end(wide))),
        lower::lower_line(kb, src, st, raw, line) matches Ok(l) ==> l.silent ==> (st.open_string matches Some(
            (ls, wide),
        ) && l.text == data::string_block(ls, wide)),
{
    reveal(lower::lower_line);
    let body = lex::strip_comment(raw);
    lemma_code_is_shown(kb, src, st, body, text::trim(body), raw, line);
}

proof fn lemma_lowered_map(kb: &Kb, src: SourceView, n: nat)
    ensures
        lower::lower_lines(kb, src, n) matches Ok(low) ==> low.map.len() == lower::line_feeds(low.text)
            && (forall|i: int| 0 <= i < low.map.len() ==> 0 <= #[trigger] low.map[i] <= n)
            && never_decreases(low.map),
        lower::lower_lines(kb, src, n) matches Ok(low) ==> forall|m: nat, i: int|
            1 <= m <= n && #[trigger] block_data(kb, src, m, i) ==> 0 <= i < low.map.len()
                && low.map[i] == 0,
        lower::lower_lines(kb, src, n) matches Ok(low) ==> forall|i: int|
            0 <= i < low.map.len() && #[trigger] low.map[i] == 0 ==> exists|m: nat|
                1 <= m <= n && block_data(kb, src, m, i),
    decreases n,
{
    if n > 0 {
        lemma_lowered_map(kb, src, (n - 1) as nat);
        match lower::lower_lines(kb, src, (n - 1) as nat) {
            Ok(low) => match lower::lower_line(kb, src, low.st, src.lines[n - 1], n as int) {
                Ok(l) => {
                    lemma_line_feeds_concat(low.text, l.text);
                    lemma_silent_line(kb, src, low.st, src.lines[n - 1], n as int);
                    let next = lower::add_line(low, l, n as int);
                    assert forall|m: nat, i: int|
                        1 <= m <= n && #[trigger] block_data(kb, src, m, i) implies 0 <= i
                        < next.map.len() && next.map[i] == 0 by {
                        if m < n {
                            assert(low.map[i] == 0);
                        }
                    }
                    assert forall|i: int| 0 <= i < next.map.len() && #[trigger] next.map[i] == 0 implies exists|
                        m: nat,
                    |
                        1 <= m <= n && block_data(kb, src, m, i) by {
                        if i < low.map.len() {
                            assert(low.map[i] == 0);
                            let m = choose|m: nat| 1 <= m <= n - 1 && block_data(kb, src, m, i);
                            assert(1 <= m <= n && block_data(kb, src, m, i));
                        } else {
                            assert(l.silent);
                            assert(block_data(kb, src, n, i));
                        }
                    }
                },
                Err(_) => {},
            },
            Err(_) => {},
        }
    }
}

/// Lowering keeps a map with one entry per lowered line, each naming a line of the
/// source it was given. The entries never decrease; an entry is 0 where the lowered
/// line is data of a raw string block, and nowhere else.
pub proof fn law_lowering_map_covers_text(kb: &Kb, src: Seq<char>)
    ensures
        lower::lowering(kb, src) matches Ok((text, map)) ==> map.len() == lower::line_feeds(text) && (forall|
            i: int,
        |
            0 <= i < map.len() ==> 0 <= #[trigger] map[i] <= text::lines(src).len())
            && never_decreases(map) && forall|i: int|
            0 <= i < map.len() ==> (#[trigger] map[i] == 0 <==> exists|m: nat|
                1 <= m <= text::lines(src).len() && block_data(kb, lower::source_view(src), m, i)),
{
    let sv = lower::source_view(src);
    lemma_lowered_map(kb, sv, sv.lines.len());
}

/// The same of lowering with macros: one entry per lowered line, each naming a line
/// of the source as written, in an order that never decreases, or 0.
pub proof fn law_full_lowering_map_covers_text(kb: &Kb, src: Seq<char>)
    ensures
        lower::full_lowering(kb, src) matches Ok((text, map)) ==> map.len() == lower::line_feeds(text) && (forall|
            i: int,
        |
            0 <= i < map.len() ==> 0 <= #[trigger] map[i] <= text::lines(src).len())
            && never_decreases(map),
{
    law_expansion_comes_from_source(src);
    match macros::macro_expansion(src) {
        Ok((expanded, emap)) => {
            law_lowering_map_covers_text(kb, expanded);
            match lower::lowering(kb, expanded) {
                Ok((text, lmap)) => {
                    let map = lmap.map_values(|n: int| lower::mapped(emap, n));
                    assert forall|i: int| 0 <= i < map.len() implies 0 <= #[trigger] map[i]
                        <= text::lines(src).len() by {
                        let n = lmap[i];
                        assert(map[i] == lower::mapped(emap, n));
                        if 1 <= n <= emap.len() {
                            assert(1 <= emap[n - 1]);
                        }
                    }
                    assert forall|i: int, j: int|
                        0 <= i <= j < map.len() && map[i] != 0 && map[j] != 0 implies #[trigger] map[i]
                        <= #[trigger] map[j] by {
                        assert(map[i] == lower::mapped(emap, lmap[i]));
                        assert(map[j] == lower::mapped(emap, lmap[j]));
                        assert(lmap[i] <= lmap[j]);
                        assert(emap[lmap[i] - 1] != 0 && emap[lmap[j] - 1] != 0);
                    }
                },
                Err(_) => {},
            }
        },
        Err(_) => {},
    }
}

// ── inlining ────────────────────────────────────────────────────────────────

/// `s` holds no line feed.
pub open spec fn one_line(s: Seq<char>) -> bool {
    forall|i: int| 0 <= i < s.len() ==> #[trigger] s[i] != '\n'
}

/// A marker of a procedure span.
pub open spec fn is_marker(l: BufferLine) -> bool {
    l.kind is ProcMark || l.kind is EndMark
}

/// The texts that the kind of a line carries hold no line feed.
pub open spec fn one_line_kind(k: KindView) -> bool {
    match k {
        KindView::Label(s) => one_line(s),
        KindView::Call(s) => one_line(s),
        KindView::Jump(s) => one_line(s),
        _ => true,
    }
}

proof fn lemma_one_line_trim(s: Seq<char>)
    requires
        one_line(s),
    ensures
        one_line(text::trim(s)),
        one_line(text::trim_start(s)),
{
    text::lemma_first_from(s, text::not_ws(), 0);
    let t = text::trim_start(s);
    text::lemma_last_below(t, text::not_ws(), t.len() as int);
    assert forall|i: int| 0 <= i < t.len() implies #[trigger] t[i] != '\n' by {
        assert(t[i] == s[text::first_from(s, text::not_ws(), 0) + i]);
    }
    assert forall|i: int| 0 <= i < text::trim(s).len() implies #[trigger] text::trim(s)[i] != '\n' by {
        assert(text::trim(s)[i] == t[i]);
    }
}

proof fn lemma_parsed_one_line(s: Seq<char>, a: int)
    requires
        0 <= a <= s.len(),
    ensures
        forall|i: int| 0 <= i < text::lines_from(s, a).len() ==> one_line(#[trigger] text::lines_from(s, a)[i]),
    decreases s.len() - a,
{
    if a < s.len() {
        text::lemma_first_from(s, text::eq_char('\n'), a);
        let n = text::first_from(s, text::eq_char('\n'), a);
        let l = text::line_text(s, a, n);
        assert forall|i: int| 0 <= i < l.len() implies #[trigger] l[i] != '\n' by {
            assert(l[i] == s[a + i]);
            assert(!text::eq_char('\n')(s[a + i]));
        }
        if n < s.len() {
            lemma_parsed_one_line(s, n + 1);
            assert forall|i: int| 0 <= i < text::lines_from(s, a).len() implies one_line(
                #[trigger] text::lines_from(s, a)[i],
            ) by {
                if i > 0 {
                    assert(text::lines_from(s, a)[i] == text::lines_from(s, n + 1)[i - 1]);
                }
            }
        }
    }
}

proof fn lemma_kind_one_line(line: Seq<char>)
    requires
        one_line(line),
    ensures
        one_line_kind(inliner::kind_of(line)),
{
    lemma_one_line_trim(line);
    let t = text::trim(line);
    let w = text::find_ws(t);
    text::lemma_first_from(t, text::ws(), 0);
    if w < t.len() {
        let r = t.skip(w + 1);
        assert forall|i: int| 0 <= i < r.len() implies #[trigger] r[i] != '\n' by {
            assert(r[i] == t[w + 1 + i]);
        }
        lemma_one_line_trim(r);
    }
    if t.len() > 0 {
        assert forall|i: int| 0 <= i < t.drop_last().len() implies #[trigger] t.drop_last()[i]
            != '\n' by {
            assert(t.drop_last()[i] == t[i]);
        }
    }
}

proof fn lemma_dec_one_line(n: int)
    requires
        n >= 0,
    ensures
        one_line(text::dec(n)),
    decreases n,
{
    if n < 10 {
        assert(text::digit(n) != '\n');
    } else {
        lemma_dec_one_line(n / 10);
        assert(text::digit(n % 10) != '\n');
    }
}

proof fn lemma_one_line_concat(a: Seq<char>, b: Seq<char>)
    requires
        one_line(a),
        one_line(b),
    ensures
        one_line(a + b),
{
    assert forall|i: int| 0 <= i < (a + b).len() implies #[trigger] (a + b)[i] != '\n' by {
        if i < a.len() {
            assert((a + b)[i] == a[i]);
        } else {
            assert((a + b)[i] == b[i - a.len()]);
        }
    }
}

/// A line that the inliner may write: a single line, and no marker.
pub open spec fn clean(l: BufferLine) -> bool {
    one_line(l.text) && !is_marker(l)
}

/// Every line of `v` is a single line whose kind carries single lines.
pub open spec fn sound_buffer(v: Seq<BufferLine>) -> bool {
    forall|i: int|
        0 <= i < v.len() ==> one_line((#[trigger] v[i]).text) && one_line_kind(v[i].kind)
}

proof fn lemma_spliced_line_clean(body: Seq<BufferLine>, l: BufferLine, site: int)
    requires
        clean(l),
        one_line_kind(l.kind),
        site >= 0,
    ensures
        clean(inliner::spliced_line(body, l, site)),
{
    reveal_strlit("  jmp ");
    reveal_strlit("__wfi_cont_");
    reveal_strlit("__wfi");
    reveal_strlit(":");
    reveal_strlit(" ");
    lemma_dec_one_line(site);
    lemma_one_line_concat("__wfi_cont_"@, text::signed_dec(site));
    lemma_one_line_concat("  jmp "@, inliner::cont_label(site));
    let ind = inliner::indentation(l.text);
    text::lemma_first_from(l.text, text::not_ws(), 0);
    assert forall|i: int| 0 <= i < ind.len() implies #[trigger] ind[i] != '\n' by {
        assert(ind[i] == l.text[i]);
    }
    match l.kind {
        KindView::Label(n) => {
            lemma_one_line_concat(n, "__wfi"@);
            lemma_one_line_concat(n + "__wfi"@, text::signed_dec(site));
            lemma_one_line_concat(ind, inliner::site_label(n, site));
            lemma_one_line_concat(ind + inliner::site_label(n, site), ":"@);
        },
        KindView::Jump(n) => {
            lemma_one_line_concat(n, "__wfi"@);
            lemma_one_line_concat(n + "__wfi"@, text::signed_dec(site));
            lemma_one_line_trim(l.text);
            let t = text::trim_start(l.text);
            text::lemma_first_from(t, text::ws(), 0);
            let f = text::first_word(l.text);
            assert forall|i: int| 0 <= i < f.len() implies #[trigger] f[i] != '\n' by {
                assert(f[i] == t[i]);
            }
            lemma_one_line_concat(ind, f);
            lemma_one_line_concat(ind + f, " "@);
            lemma_one_line_concat(ind + f + " "@, inliner::site_label(n, site));
        },
        _ => {},
    }
}

/// Between the two markers of a span there is no other marker.
pub proof fn law_span_bodies_hold_no_marker(v: Seq<BufferLine>, n: nat)
    requires
        n <= v.len(),
    ensures
        forall|i: int, k: int|
            #![trigger inliner::spans_scan(v, n).spans[i], v[k]]
            0 <= i < inliner::spans_scan(v, n).spans.len() && inliner::spans_scan(v, n).spans[i].open < k
                < inliner::spans_scan(v, n).spans[i].close ==> !is_marker(v[k]),
        forall|k: int|
            inliner::spans_scan(v, n).open matches Some((_, o, _)) ==> o < k < n ==> !is_marker(
                #[trigger] v[k],
            ),
    decreases n,
{
    if n > 0 {
        law_span_bodies_hold_no_marker(v, (n - 1) as nat);
        inliner::law_spans_within(v, (n - 1) as nat);
    }
}

/// The property `p` holds of every item of `v`.
pub open spec fn every(v: Seq<Placed>, p: spec_fn(Placed) -> bool) -> bool {
    forall|i: int| 0 <= i < v.len() ==> p(#[trigger] v[i])
}

pub proof fn lemma_kept_every(
    v: Seq<Placed>,
    keep: spec_fn(int) -> bool,
    n: int,
    p: spec_fn(Placed) -> bool,
)
    requires
        n <= v.len(),
        every(v, p),
    ensures
        every(inliner::kept(v, keep, n), p),
    decreases n,
{
    if n > 0 {
        lemma_kept_every(v, keep, n - 1, p);
        assert(p(v[n - 1]));
    }
}

pub proof fn lemma_settled_every(v: Seq<Placed>, n: nat, p: spec_fn(Placed) -> bool)
    requires
        every(v, p),
    ensures
        every(inliner::settled(v, n), p),
    decreases n,
{
    if n > 0 {
        lemma_kept_every(v, |k: int| !inliner::drops_from(inliner::lines_only(v), 0, k), v.len() as int, p);
        lemma_settled_every(inliner::without_dead_frames(v), (n - 1) as nat, p);
    }
}

pub proof fn lemma_every_concat(a: Seq<Placed>, b: Seq<Placed>, p: spec_fn(Placed) -> bool)
    requires
        every(a, p),
        every(b, p),
    ensures
        every(a + b, p),
{
    assert forall|i: int| 0 <= i < (a + b).len() implies p(#[trigger] (a + b)[i]) by {
        if i < a.len() {
            assert((a + b)[i] == a[i]);
        } else {
            assert((a + b)[i] == b[i - a.len()]);
        }
    }
}

pub proof fn lemma_span_named_is_span(spans: Seq<SpanView>, name: Seq<char>)
    ensures
        inliner::span_named(spans, name) matches Some(s) ==> exists|i: int|
            0 <= i < spans.len() && #[trigger] spans[i] == s,
    decreases spans.len(),
{
    if spans.len() > 0 {
        if spans.last().name == name {
            assert(spans[spans.len() - 1] == spans.last());
        } else {
            lemma_span_named_is_span(spans.drop_last(), name);
            match inliner::span_named(spans.drop_last(), name) {
                Some(s) => {
                    let i = choose|i: int|
                        0 <= i < spans.drop_last().len() && #[trigger] spans.drop_last()[i] == s;
                    assert(spans[i] == s);
                },
                None => {},
            }
        }
    }
}

proof fn lemma_region_clean(v: Seq<BufferLine>, name: Seq<char>, site: int)
    requires
        sound_buffer(v),
        one_line(name),
        site >= 0,
    ensures
        forall|i: int|
            0 <= i < inliner::inlined_region(v, inliner::proc_spans(v), name, site).len() ==> clean(
                #[trigger] inliner::inlined_region(v, inliner::proc_spans(v), name, site)[i],
            ),
{
    let spans = inliner::proc_spans(v);
    let r = inliner::inlined_region(v, spans, name, site);
    reveal_strlit("  ; \u{2500}\u{2500} inline ");
    reveal_strlit("  ; \u{2500}\u{2500} end ");
    reveal_strlit("__wfi_cont_");
    reveal_strlit(":");
    lemma_one_line_concat("  ; \u{2500}\u{2500} inline "@, name);
    lemma_one_line_concat("  ; \u{2500}\u{2500} end "@, name);
    lemma_dec_one_line(site);
    lemma_one_line_concat("__wfi_cont_"@, text::signed_dec(site));
    lemma_one_line_concat(inliner::cont_label(site), ":"@);
    lemma_span_named_is_span(spans, name);
    law_span_bodies_hold_no_marker(v, v.len());
    inliner::law_spans_within(v, v.len());
    match inliner::span_named(spans, name) {
        Some(s) => {
            let j = choose|j: int| 0 <= j < spans.len() && #[trigger] spans[j] == s;
            let body = inliner::span_body(v, s);
            let sp = inliner::spliced_body(body, site);
            assert forall|i: int| 0 <= i < sp.len() implies clean(#[trigger] sp[i]) by {
                if i < body.len() {
                    assert(body[i] == v[s.open + 1 + i]);
                    assert(spans[j].open < s.open + 1 + i < spans[j].close);
                    assert(!is_marker(v[s.open + 1 + i]));
                    lemma_spliced_line_clean(body, body[i], site);
                }
            }
            assert forall|i: int| 0 <= i < r.len() implies clean(#[trigger] r[i]) by {
                if 0 < i < r.len() - 1 {
                    assert(r[i] == sp[i - 1]);
                }
            }
        },
        None => {},
    }
}

/// What every placed line is: clean, and derived from a line of the input.
pub open spec fn clean_and_within(n: int) -> spec_fn(Placed) -> bool {
    |x: Placed| clean(x.line) && 0 <= x.origin < n
}

proof fn lemma_inlined_clean(v: Seq<BufferLine>, threshold: int, i: int, site: int)
    requires
        sound_buffer(v),
        site >= 0,
    ensures
        every(
            inliner::inlined_from(v, inliner::proc_spans(v), threshold, i, site),
            clean_and_within(v.len() as int),
        ),
    decreases v.len() - i,
{
    let spans = inliner::proc_spans(v);
    let p = clean_and_within(v.len() as int);
    if 0 <= i < v.len() {
        lemma_inlined_clean(v, threshold, i + 1, site);
        if !is_marker(v[i]) {
            match inliner::skip_dead(v, spans, threshold, i) {
                Some(j) => {
                    if i < j <= v.len() {
                        lemma_inlined_clean(v, threshold, j, site);
                    }
                },
                None => {
                    let one = seq![Placed { line: v[i], origin: i }];
                    assert(p(one[0]));
                    lemma_every_concat(one, inliner::inlined_from(v, spans, threshold, i + 1, site), p);
                    match v[i].kind {
                        KindView::Call(name) => {
                            lemma_inlined_clean(v, threshold, i + 1, site + 1);
                            lemma_region_clean(v, name, site + 1);
                            let reg = inliner::inlined_region(v, spans, name, site + 1);
                            let all = inliner::all_from(reg, i);
                            assert forall|k: int| 0 <= k < all.len() implies p(
                                #[trigger] all[k],
                            ) by {
                                assert(clean(reg[k]));
                            }
                            lemma_every_concat(
                                all,
                                inliner::inlined_from(v, spans, threshold, i + 1, site + 1),
                                p,
                            );
                        },
                        _ => {},
                    }
                },
            }
        }
    }
}

/// The origins of `v` never decrease.
pub open spec fn origins_in_order(v: Seq<Placed>) -> bool {
    forall|i: int, j: int|
        0 <= i <= j < v.len() ==> (#[trigger] v[i]).origin <= (#[trigger] v[j]).origin
}

proof fn lemma_kept_origins(v: Seq<Placed>, keep: spec_fn(int) -> bool, n: int)
    requires
        n <= v.len(),
        origins_in_order(v),
    ensures
        origins_in_order(inliner::kept(v, keep, n)),
        forall|i: int|
            0 <= i < inliner::kept(v, keep, n).len() ==> n > 0 && (#[trigger] inliner::kept(
                v,
                keep,
                n,
            )[i]).origin <= v[n - 1].origin,
    decreases n,
{
    if n > 0 {
        lemma_kept_origins(v, keep, n - 1);
        if n > 1 {
            assert(v[n - 2].origin <= v[n - 1].origin);
        }
    }
}

proof fn lemma_settled_origins(v: Seq<Placed>, n: nat)
    requires
        origins_in_order(v),
    ensures
        origins_in_order(inliner::settled(v, n)),
    decreases n,
{
    if n > 0 {
        lemma_kept_origins(
            v,
            |k: int| !inliner::drops_from(inliner::lines_only(v), 0, k),
            v.len() as int,
        );
        lemma_settled_origins(inliner::without_dead_frames(v), (n - 1) as nat);
    }
}

proof fn lemma_inlined_origins(v: Seq<BufferLine>, threshold: int, i: int, site: int)
    requires
        0 <= i,
    ensures
        origins_in_order(inliner::inlined_from(v, inliner::proc_spans(v), threshold, i, site)),
        forall|k: int|
            0 <= k < inliner::inlined_from(v, inliner::proc_spans(v), threshold, i, site).len()
                ==> i <= (#[trigger] inliner::inlined_from(
                v,
                inliner::proc_spans(v),
                threshold,
                i,
                site,
            )[k]).origin,
    decreases v.len() - i,
{
    let spans = inliner::proc_spans(v);
    if i < v.len() {
        lemma_inlined_origins(v, threshold, i + 1, site);
        lemma_inlined_origins(v, threshold, i + 1, site + 1);
        if !is_marker(v[i]) {
            match inliner::skip_dead(v, spans, threshold, i) {
                Some(j) => {
                    if i < j <= v.len() {
                        lemma_inlined_origins(v, threshold, j, site);
                    }
                },
                None => {},
            }
        }
    }
}

/// The lines of the reduced text keep the order of the lines that they derive from.
pub proof fn law_origins_never_decrease(code: Seq<char>, threshold: int)
    ensures
        never_decreases(inliner::origins(inliner::reduced(code, threshold))),
        origins_in_order(inliner::reduced(code, threshold)),
{
    let v = inliner::parsed(code);
    let a = inliner::inlined_from(v, inliner::proc_spans(v), threshold, 0, 0);
    lemma_inlined_origins(v, threshold, 0, 0);
    lemma_kept_origins(a, |i: int| !inliner::jumps_to_next(a, i), a.len() as int);
    let b = inliner::without_idle_jumps(a);
    lemma_kept_origins(b, |i: int| !inliner::dead_cont(b, i), b.len() as int);
    lemma_settled_origins(inliner::without_dead_conts(b), 4);
    let r = inliner::reduced(code, threshold);
    assert(origins_in_order(r));
    assert forall|i: int, j: int| 0 <= i <= j < r.len() implies #[trigger] inliner::origins(r)[i]
        <= #[trigger] inliner::origins(r)[j] by {
        assert(r[i].origin <= r[j].origin);
    }
}

/// Every line of the reduced text derives from a line of the input, is a single
/// line, and is no marker: markers are always stripped.
pub proof fn law_reduced_lines(code: Seq<char>, threshold: int)
    ensures
        forall|i: int|
            0 <= i < inliner::reduced(code, threshold).len() ==> 0 <= (#[trigger] inliner::reduced(
                code,
                threshold,
            )[i]).origin < text::lines(code).len() && one_line(inliner::reduced(code, threshold)[i].line.text)
                && !is_marker(inliner::reduced(code, threshold)[i].line),
{
    let v = inliner::parsed(code);
    lemma_parsed_one_line(code, 0);
    assert forall|i: int| 0 <= i < v.len() implies one_line((#[trigger] v[i]).text)
        && one_line_kind(v[i].kind) by {
        assert(v[i].text == text::lines_from(code, 0)[i]);
        lemma_kind_one_line(text::lines_from(code, 0)[i]);
    }
    let p = clean_and_within(v.len() as int);
    lemma_inlined_clean(v, threshold, 0, 0);
    let a = inliner::inlined_from(v, inliner::proc_spans(v), threshold, 0, 0);
    lemma_kept_every(a, |i: int| !inliner::jumps_to_next(a, i), a.len() as int, p);
    let b = inliner::without_idle_jumps(a);
    lemma_kept_every(b, |i: int| !inliner::dead_cont(b, i), b.len() as int, p);
    lemma_settled_every(inliner::without_dead_conts(b), 4, p);
    assert(every(inliner::reduced(code, threshold), p));
    assert forall|i: int| 0 <= i < inliner::reduced(code, threshold).len() implies p(
        #[trigger] inliner::reduced(code, threshold)[i],
    ) by {}
}

proof fn lemma_rendered_feeds(v: Seq<BufferLine>)
    requires
        forall|i: int| 0 <= i < v.len() ==> one_line((#[trigger] v[i]).text),
    ensures
        lower::line_feeds(inliner::rendered(v)) == v.len(),
    decreases v.len(),
{
    if v.len() > 0 {
        assert forall|i: int| 0 <= i < v.drop_last().len() implies one_line(
            (#[trigger] v.drop_last()[i]).text,
        ) by {
            assert(v.drop_last()[i] == v[i]);
        }
        lemma_rendered_feeds(v.drop_last());
        assert(v[v.len() - 1] == v.last());
        let t = v.last().text;
        lemma_one_line_feeds(t);
        lemma_line_feeds_concat(inliner::rendered(v.drop_last()), t);
        assert((inliner::rendered(v.drop_last()) + t).push('\n').drop_last() =~= inliner::rendered(v.drop_last())
            + t);
    }
}

proof fn lemma_one_line_feeds(s: Seq<char>)
    requires
        one_line(s),
    ensures
        lower::line_feeds(s) == 0,
    decreases s.len(),
{
    if s.len() > 0 {
        assert(s[s.len() - 1] != '\n');
        assert forall|i: int| 0 <= i < s.drop_last().len() implies #[trigger] s.drop_last()[i]
            != '\n' by {
            assert(s.drop_last()[i] == s[i]);
        }
        lemma_one_line_feeds(s.drop_last());
    }
}

/// The origin map of the reduced text has one entry per line of that text.
pub proof fn law_origins_cover_text(code: Seq<char>, threshold: int)
    ensures
        inliner::origins(inliner::reduced(code, threshold)).len() == lower::line_feeds(
            inliner::rendered(inliner::lines_only(inliner::reduced(code, threshold))),
        ),
{
    law_reduced_lines(code, threshold);
    let v = inliner::lines_only(inliner::reduced(code, threshold));
    assert forall|i: int| 0 <= i < v.len() implies one_line((#[trigger] v[i]).text) by {
        assert(v[i] == inliner::reduced(code, threshold)[i].line);
    }
    lemma_rendered_feeds(v);
}

/// Text without a marker and with plain line ends is left as it is.
pub proof fn law_unmarked_text_unchanged(code: Seq<char>, threshold: int)
    requires
        inliner::plain_lines(code),
        forall|i: int| 0 <= i < text::lines(code).len() ==> !(inliner::kind_of(#[trigger] text::lines(code)[i]) is ProcMark)
            && !(inliner::kind_of(text::lines(code)[i]) is EndMark),
    ensures
        inliner::rendered(inliner::lines_only(inliner::reduced(code, threshold))) == code,
{
    let v = inliner::parsed(code);
    assert forall|i: int| 0 <= i < v.len() implies !is_marker(#[trigger] v[i]) by {
        assert(v[i].kind == inliner::kind_of(text::lines(code)[i]));
    }
    lemma_no_spans(v, v.len());
    lemma_nothing_inlined(v, threshold, 0);
    assert(inliner::lines_only(inliner::reduced(code, threshold)) =~= v);
    inliner::law_render_undoes_parse(code);
}

proof fn lemma_no_spans(v: Seq<BufferLine>, n: nat)
    requires
        n <= v.len(),
        forall|i: int| 0 <= i < v.len() ==> !is_marker(#[trigger] v[i]),
    ensures
        inliner::spans_scan(v, n).spans.len() == 0,
        inliner::spans_scan(v, n).open is None,
    decreases n,
{
    if n > 0 {
        lemma_no_spans(v, (n - 1) as nat);
        assert(!is_marker(v[n - 1]));
    }
}

proof fn lemma_nothing_inlined(v: Seq<BufferLine>, threshold: int, i: int)
    requires
        forall|k: int| 0 <= k < v.len() ==> !is_marker(#[trigger] v[k]),
        inliner::proc_spans(v).len() == 0,
        0 <= i <= v.len(),
    ensures
        inliner::inlined_from(v, inliner::proc_spans(v), threshold, i, 0).len() == v.len() - i,
        forall|k: int|
            0 <= k < v.len() - i ==> (#[trigger] inliner::inlined_from(
                v,
                inliner::proc_spans(v),
                threshold,
                i,
                0,
            )[k]).line == v[i + k],
    decreases v.len() - i,
{
    if i < v.len() {
        lemma_nothing_inlined(v, threshold, i + 1);
        assert(!is_marker(v[i]));
        assert(inliner::skip_dead(v, inliner::proc_spans(v), threshold, i) is None);
        let rest = inliner::inlined_from(v, inliner::proc_spans(v), threshold, i + 1, 0);
        let all = inliner::inlined_from(v, inliner::proc_spans(v), threshold, i, 0);
        assert(all == seq![Placed { line: v[i], origin: i }] + rest);
        assert forall|k: int| 0 <= k < v.len() - i implies (#[trigger] all[k]).line == v[i + k] by {
            if k > 0 {
                assert(all[k] == rest[k - 1]);
            }
        }
    }
}

// ── includes ────────────────────────────────────────────────────────────────

proof fn lemma_tree_lines(
    files: Seq<IncludeFile>,
    v: Seq<Seq<char>>,
    dir: Seq<char>,
    depth: int,
    me: int,
    t: TreeView,
)
    requires
        forall|i: int| 0 <= i < v.len() ==> one_line(#[trigger] v[i]),
        t.line_file.len() == lower::line_feeds(t.text),
    ensures
        graph::tree(files, v, dir, depth, me, t) matches Ok(r) ==> r.line_file.len()
            == lower::line_feeds(r.text),
    decreases includes::max_include_depth() + 1 - depth, v.len(),
{
    if depth <= includes::max_include_depth() && v.len() > 0 {
        assert forall|i: int| 0 <= i < v.drop_last().len() implies one_line(
            #[trigger] v.drop_last()[i],
        ) by {
            assert(v.drop_last()[i] == v[i]);
        }
        lemma_tree_lines(files, v.drop_last(), dir, depth, me, t);
        match graph::tree(files, v.drop_last(), dir, depth, me, t) {
            Ok(out) => {
                assert(one_line(v[v.len() - 1]));
                lemma_line_adds_one(out, v.last(), me);
                match decls::included_file(v.last()) {
                    Some(path) => match includes::file_from(files, dir, path, 0) {
                        Some(f) => {
                            let start = graph::with_file(out, f.name@, me, v.len() as int);
                            lemma_parsed_one_line(f.content@, 0);
                            lemma_tree_lines(
                                files,
                                text::lines(f.content@),
                                f.sub_dir@,
                                depth + 1,
                                out.files.len() as int,
                                start,
                            );
                            match graph::tree(
                                files,
                                text::lines(f.content@),
                                f.sub_dir@,
                                depth + 1,
                                out.files.len() as int,
                                start,
                            ) {
                                Ok(sub) => {
                                    lemma_line_adds_one(sub, Seq::empty(), me);
                                },
                                Err(_) => {},
                            }
                        },
                        None => {},
                    },
                    None => {},
                }
            },
            Err(_) => {},
        }
    }
}

proof fn lemma_line_adds_one(t: TreeView, line: Seq<char>, me: int)
    requires
        one_line(line),
    ensures
        lower::line_feeds(graph::with_line(t, line, me).text) == lower::line_feeds(t.text) + 1,
{
    lemma_one_line_feeds(line);
    lemma_line_feeds_concat(t.text, line);
    assert((t.text + line).push('\n').drop_last() =~= t.text + line);
}

/// Every line of an expanded text is given a file.
pub proof fn law_tree_covers_text(
    files: Seq<IncludeFile>,
    src: Seq<char>,
    name: Seq<char>,
    dir: Seq<char>,
)
    ensures
        graph::include_tree(files, src, name, dir) matches Ok(t) ==> t.line_file.len()
            == lower::line_feeds(t.text),
{
    lemma_parsed_one_line(src, 0);
    lemma_tree_lines(files, text::lines(src), dir, 0, 0, graph::tree_start(name));
}

} // verus!
