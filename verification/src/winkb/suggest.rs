//! "Did you mean": known names close to an unknown one.
use crate::text;
use crate::winkb::distance;
use crate::text::{bytes_in, char_lower, char_width, chars_of, copy_of, is, string_of};
use crate::winkb::distance::levenshtein;
use crate::winkb::kb::{Kb, NamedValue};
use vstd::prelude::*;
use vstd::slice::slice_subrange;

verus! {

// ── pattern matching ────────────────────────────────────────────────────────

/// `s` matches the SQL `LIKE` pattern `p`: `%` stands for any text, `_` for any
/// one character, and letters match in either ASCII case.
pub open spec fn like(p: Seq<char>, s: Seq<char>) -> bool
    decreases p.len() + s.len(),
{
    if p.len() == 0 {
        s.len() == 0
    } else if p[0] == '%' {
        like(p.drop_first(), s) || (s.len() > 0 && like(p, s.drop_first()))
    } else {
        s.len() > 0 && (p[0] == '_' || text::lower(p[0]) == text::lower(s[0])) && like(
            p.drop_first(),
            s.drop_first(),
        )
    }
}

pub fn matches_like(p: &[char], s: &[char]) -> (r: bool)
    ensures
        r == like(p@, s@),
    decreases p@.len() + s@.len(),
{
    if p.len() == 0 {
        return s.len() == 0;
    }
    let pt = slice_subrange(p, 1, p.len());
    assert(pt@ =~= p@.drop_first());
    if p[0] == '%' {
        if matches_like(pt, s) {
            return true;
        }
        if s.len() == 0 {
            return false;
        }
        let st = slice_subrange(s, 1, s.len());
        assert(st@ =~= s@.drop_first());
        matches_like(p, st)
    } else {
        if s.len() == 0 || !(p[0] == '_' || char_lower(p[0]) == char_lower(s[0])) {
            return false;
        }
        let st = slice_subrange(s, 1, s.len());
        assert(st@ =~= s@.drop_first());
        matches_like(pt, st)
    }
}

/// `s` with the `LIKE` metacharacters escaped, from `i` on.
pub open spec fn escape_from(s: Seq<char>, i: int) -> Seq<char>
    decreases s.len() - i,
{
    if i >= s.len() {
        Seq::empty()
    } else if s[i] == '%' || s[i] == '_' || s[i] == '\\' {
        seq!['\\', s[i]] + escape_from(s, i + 1)
    } else {
        seq![s[i]] + escape_from(s, i + 1)
    }
}

/// Escape SQL `LIKE` metacharacters so that a string matches literally (used with
/// `ESCAPE '\'`). Windows names contain `_` constantly, which would otherwise be a
/// single-character wildcard.
pub fn escape_like(s: &str) -> (r: String)
    ensures
        r@ == escape_from(s@, 0),
{
    let c = chars_of(s);
    let mut out: Vec<char> = Vec::new();
    let mut i: usize = 0;
    while i < c.len()
        invariant
            c@ == s@,
            i <= c@.len(),
            out@ + escape_from(s@, i as int) =~= escape_from(s@, 0),
        decreases c@.len() - i,
    {
        let ghost before = out@;
        let x = c[i];
        if x == '%' || x == '_' || x == '\\' {
            out.push('\\');
            out.push(x);
            assert(out@ + escape_from(s@, i + 1) =~= before + (seq!['\\', x] + escape_from(
                s@,
                i + 1,
            )));
        } else {
            out.push(x);
            assert(out@ + escape_from(s@, i + 1) =~= before + (seq![x] + escape_from(s@, i + 1)));
        }
        i += 1;
    }
    assert(out@ =~= escape_from(s@, 0));
    string_of(&out)
}

// ── ordering ────────────────────────────────────────────────────────────────

/// `a` does not come after `b` in the order of their characters.
pub open spec fn lex_le(a: Seq<char>, b: Seq<char>) -> bool
    decreases a.len(),
{
    if a.len() == 0 {
        true
    } else if b.len() == 0 {
        false
    } else if a[0] == b[0] {
        lex_le(a.drop_first(), b.drop_first())
    } else {
        a[0] < b[0]
    }
}

pub fn comes_before(a: &[char], b: &[char]) -> (r: bool)
    ensures
        r == lex_le(a@, b@),
{
    let mut i: usize = 0;
    assert(a@.skip(0) =~= a@);
    assert(b@.skip(0) =~= b@);
    while i < a.len() && i < b.len()
        invariant
            i <= a@.len(),
            i <= b@.len(),
            lex_le(a@, b@) == lex_le(a@.skip(i as int), b@.skip(i as int)),
        decreases a@.len() - i,
    {
        assert(a@.skip(i as int)[0] == a@[i as int]);
        assert(b@.skip(i as int)[0] == b@[i as int]);
        assert(a@.skip(i as int).drop_first() =~= a@.skip(i as int + 1));
        assert(b@.skip(i as int).drop_first() =~= b@.skip(i as int + 1));
        if a[i] != b[i] {
            return a[i] < b[i];
        }
        i += 1;
    }
    i >= a.len()
}

/// The order is total: of two texts, one does not come after the other.
pub proof fn law_lex_total(a: Seq<char>, b: Seq<char>)
    ensures
        lex_le(a, b) || lex_le(b, a),
    decreases a.len(),
{
    if a.len() > 0 && b.len() > 0 && a[0] == b[0] {
        law_lex_total(a.drop_first(), b.drop_first());
    }
}

/// The order is transitive.
pub proof fn law_lex_transitive(a: Seq<char>, b: Seq<char>, c: Seq<char>)
    requires
        lex_le(a, b),
        lex_le(b, c),
    ensures
        lex_le(a, c),
    decreases a.len(),
{
    if a.len() > 0 && b.len() > 0 && c.len() > 0 && a[0] == b[0] && b[0] == c[0] {
        law_lex_transitive(a.drop_first(), b.drop_first(), c.drop_first());
    }
}

// ── candidates ──────────────────────────────────────────────────────────────

/// How many leading characters of `s` fit in `n` bytes.
pub open spec fn chars_within(s: Seq<char>, n: int) -> nat
    decreases s.len(),
{
    if s.len() == 0 || text::width(s[0]) > n {
        0
    } else {
        1 + chars_within(s.drop_first(), n - text::width(s[0]))
    }
}

/// The pattern of the names that begin like `name`: its first four bytes.
pub open spec fn near_pattern(name: Seq<char>) -> Seq<char> {
    name.take(chars_within(name, 4) as int).push('%')
}

/// The most names that are looked at.
pub open spec fn candidate_limit() -> nat {
    800
}

/// The names of `v` that match `p`, without repetition, at most as many as are
/// looked at. Where more match, the rows that come first in the table are looked at.
pub open spec fn candidates(v: Seq<NamedValue>, p: Seq<char>) -> Seq<Seq<char>>
    decreases v.len(),
{
    if v.len() == 0 {
        Seq::empty()
    } else {
        let before = candidates(v.drop_last(), p);
        let n = v.last().name@;
        if before.len() < candidate_limit() && like(p, n) && !before.contains(n) {
            before.push(n)
        } else {
            before
        }
    }
}

/// A name with its distance goes before another: it is nearer, or as near and
/// not later in the alphabet.
pub open spec fn ranks_before(name: Seq<char>, a: Seq<char>, b: Seq<char>) -> bool {
    let x = distance::text_distance(name, a);
    let y = distance::text_distance(name, b);
    x < y || (x == y && lex_le(a, b))
}

/// The names `v` with `n` put in behind those that rank before it.
pub open spec fn insert_ranked(name: Seq<char>, v: Seq<Seq<char>>, n: Seq<char>) -> Seq<Seq<char>>
    decreases v.len(),
{
    if v.len() == 0 || ranks_before(name, v.last(), n) {
        v.push(n)
    } else {
        insert_ranked(name, v.drop_last(), n).push(v.last())
    }
}

/// Near, but not the same: an edit distance from 1 to 3.
pub open spec fn is_near(name: Seq<char>, n: Seq<char>) -> bool {
    1 <= distance::text_distance(name, n) <= 3
}

/// The near names among `v`, the nearest first and equally near ones in
/// alphabetical order.
pub open spec fn ranked(name: Seq<char>, v: Seq<Seq<char>>) -> Seq<Seq<char>>
    decreases v.len(),
{
    if v.len() == 0 {
        Seq::empty()
    } else {
        let before = ranked(name, v.drop_last());
        if is_near(name, v.last()) {
            insert_ranked(name, before, v.last())
        } else {
            before
        }
    }
}

/// The first `n` items, or all where there are fewer.
pub open spec fn at_most<A>(v: Seq<A>, n: int) -> Seq<A> {
    if v.len() <= n {
        v
    } else {
        v.take(n)
    }
}

proof fn lemma_insert_ranked(name: Seq<char>, v: Seq<Seq<char>>, n: Seq<char>, i: int)
    requires
        0 <= i <= v.len(),
        i > 0 ==> ranks_before(name, v[i - 1], n),
        forall|j: int| i <= j < v.len() ==> !ranks_before(name, #[trigger] v[j], n),
    ensures
        insert_ranked(name, v, n) == v.insert(i, n),
    decreases v.len(),
{
    if i == v.len() {
        assert(v.insert(i, n) =~= v.push(n));
    } else {
        assert(!ranks_before(name, v[v.len() - 1], n));
        lemma_insert_ranked(name, v.drop_last(), n, i);
        assert(v.drop_last().insert(i, n).push(v.last()) =~= v.insert(i, n));
    }
}

spec fn sorted_by_rank(name: Seq<char>, v: Seq<Seq<char>>) -> bool {
    forall|i: int, j: int|
        0 <= i < j < v.len() ==> ranks_before(name, #[trigger] v[i], #[trigger] v[j])
}

proof fn lemma_insert_keeps_order(name: Seq<char>, v: Seq<Seq<char>>, n: Seq<char>)
    requires
        sorted_by_rank(name, v),
    ensures
        sorted_by_rank(name, insert_ranked(name, v, n)),
        insert_ranked(name, v, n).len() == v.len() + 1,
        forall|i: int|
            0 <= i <= v.len() ==> v.contains(#[trigger] insert_ranked(name, v, n)[i])
                || insert_ranked(name, v, n)[i] == n,
    decreases v.len(),
{
    let r = insert_ranked(name, v, n);
    if v.len() == 0 {
    } else if ranks_before(name, v.last(), n) {
        assert forall|i: int, j: int| 0 <= i < j < r.len() implies ranks_before(
            name,
            #[trigger] r[i],
            #[trigger] r[j],
        ) by {
            if j == v.len() {
                if i < v.len() - 1 {
                    assert(ranks_before(name, v[i], v[v.len() - 1]));
                    law_rank_transitive(name, v[i], v.last(), n);
                }
            } else {
                assert(r[i] == v[i] && r[j] == v[j]);
            }
        }
        assert forall|i: int| 0 <= i <= v.len() implies v.contains(#[trigger] r[i]) || r[i] == n by {
            if i < v.len() {
                assert(r[i] == v[i]);
            }
        }
    } else {
        let w = v.drop_last();
        lemma_insert_keeps_order(name, w, n);
        let q = insert_ranked(name, w, n);
        law_rank_total(name, v.last(), n);
        assert forall|i: int, j: int| 0 <= i < j < r.len() implies ranks_before(
            name,
            #[trigger] r[i],
            #[trigger] r[j],
        ) by {
            assert(r[i] == q[i]);
            if j < q.len() {
                assert(r[j] == q[j]);
            } else {
                assert(r[j] == v.last());
                if q[i] != n {
                    assert(w.contains(q[i]));
                    let k = choose|k: int| 0 <= k < w.len() && w[k] == q[i];
                    assert(v[k] == w[k]);
                    assert(ranks_before(name, v[k], v[v.len() - 1]));
                }
            }
        }
        assert forall|i: int| 0 <= i <= v.len() implies v.contains(#[trigger] r[i]) || r[i] == n by {
            if i < q.len() {
                assert(r[i] == q[i]);
                if q[i] != n {
                    let k = choose|k: int| 0 <= k < w.len() && w[k] == q[i];
                    assert(v[k] == w[k]);
                }
            } else {
                assert(v[v.len() - 1] == r[i]);
            }
        }
    }
}

/// Of two names, one ranks before the other.
pub proof fn law_rank_total(name: Seq<char>, a: Seq<char>, b: Seq<char>)
    ensures
        ranks_before(name, a, b) || ranks_before(name, b, a),
{
    law_lex_total(a, b);
}

/// The ranking is transitive.
pub proof fn law_rank_transitive(name: Seq<char>, a: Seq<char>, b: Seq<char>, c: Seq<char>)
    requires
        ranks_before(name, a, b),
        ranks_before(name, b, c),
    ensures
        ranks_before(name, a, c),
{
    if distance::text_distance(name, a) == distance::text_distance(name, b) && distance::text_distance(name, b) == distance::text_distance(
        name,
        c,
    ) {
        law_lex_transitive(a, b, c);
    }
}

/// What is suggested for `name` comes nearest first, and every suggestion is a
/// candidate at a distance from 1 to 3.
pub proof fn law_suggestions_are_ranked(name: Seq<char>, v: Seq<Seq<char>>)
    ensures
        forall|i: int, j: int|
            0 <= i < j < ranked(name, v).len() ==> ranks_before(
                name,
                #[trigger] ranked(name, v)[i],
                #[trigger] ranked(name, v)[j],
            ),
        forall|i: int|
            0 <= i < ranked(name, v).len() ==> v.contains(#[trigger] ranked(name, v)[i])
                && is_near(name, ranked(name, v)[i]),
    decreases v.len(),
{
    if v.len() > 0 {
        let w = v.drop_last();
        law_suggestions_are_ranked(name, w);
        let b = ranked(name, w);
        let r = ranked(name, v);
        if is_near(name, v.last()) {
            lemma_insert_keeps_order(name, b, v.last());
        }
        assert forall|i: int| 0 <= i < r.len() implies v.contains(#[trigger] r[i]) && is_near(
            name,
            r[i],
        ) by {
            if is_near(name, v.last()) && r[i] == v.last() {
                assert(v[v.len() - 1] == r[i]);
            } else {
                assert(b.contains(r[i])) by {
                    if !is_near(name, v.last()) {
                        assert(b[i] == r[i]);
                    }
                }
                let k = choose|k: int| 0 <= k < b.len() && b[k] == r[i];
                assert(w.contains(b[k]));
                let m = choose|m: int| 0 <= m < w.len() && w[m] == b[k];
                assert(v[m] == w[m]);
            }
        }
    }
}

impl Kb {
    /// The known names near `name`.
    pub open spec fn spec_suggest(&self, name: Seq<char>, limit: int) -> Seq<Seq<char>> {
        if text::byte_len(name) < 2 {
            Seq::empty()
        } else {
            at_most(ranked(name, candidates(self.values@, near_pattern(name))), limit)
        }
    }

    fn near_candidates(&self, pat: &[char]) -> (r: Vec<String>)
        ensures
            text::strings(r@) == candidates(self.values@, pat@),
    {
        let ghost all = self.values@;
        let mut r: Vec<String> = Vec::new();
        assert(text::strings(r@) =~= Seq::empty());
        let mut i: usize = 0;
        while i < self.values.len()
            invariant
                all == self.values@,
                i <= all.len(),
                text::strings(r@) == candidates(all.take(i as int), pat@),
            decreases all.len() - i,
        {
            assert(all.take(i as int + 1).drop_last() =~= all.take(i as int));
            assert(text::strings(r@).len() == r@.len());
            let n = chars_of(self.values[i].name.as_str());
            if r.len() < 800 && matches_like(pat, &n) && !has_string(&r, &n) {
                let ghost before = text::strings(r@);
                r.push(string_of(&n));
                assert(text::strings(r@) =~= before.push(n@));
            }
            i += 1;
        }
        assert(all.take(all.len() as int) =~= all);
        r
    }

    /// "Did you mean": constant and enum names close to `name` (edit distance at
    /// most 3), nearest first, at most `limit` of them.
    pub fn suggest(&self, name: &str, limit: usize) -> (r: Vec<String>)
        ensures
            text::strings(r@) == self.spec_suggest(name@, limit as int),
    {
        if bytes_in(name) < 2 {
            let none: Vec<String> = Vec::new();
            assert(text::strings(none@) =~= Seq::empty());
            return none;
        }
        let nc = chars_of(name);
        let mut pat: Vec<char> = copy_of(slice_subrange(&nc, 0, prefix_len(&nc, 4)));
        pat.push('%');
        assert(pat@ =~= near_pattern(name@));
        let cands = self.near_candidates(&pat);
        let mut r = rank_names(name, &cands);
        assert(text::strings(r@).len() == r@.len());
        if r.len() > limit {
            let ghost before = text::strings(r@);
            r.truncate(limit);
            assert(text::strings(r@) =~= before.take(limit as int));
        }
        r
    }
}

fn prefix_len(s: &[char], n: usize) -> (r: usize)
    ensures
        r == chars_within(s@, n as int),
        r <= s@.len(),
    decreases s@.len(),
{
    if s.len() == 0 || char_width(s[0]) > n {
        0
    } else {
        let t = slice_subrange(s, 1, s.len());
        assert(t@ =~= s@.drop_first());
        1 + prefix_len(t, n - char_width(s[0]))
    }
}

/// Whether the text `s` is in the list `v`.
pub fn has_string(v: &Vec<String>, s: &[char]) -> (r: bool)
    ensures
        r == text::strings(v@).contains(s@),
{
    let mut i: usize = 0;
    while i < v.len()
        invariant
            i <= v@.len(),
            forall|j: int| 0 <= j < i ==> v@[j]@ != s@,
        decreases v@.len() - i,
    {
        if is(s, v[i].as_str()) {
            assert(text::strings(v@)[i as int] == s@);
            return true;
        }
        i += 1;
    }
    assert forall|j: int| 0 <= j < v@.len() implies text::strings(v@)[j] != s@ by {
        assert(v@[j]@ != s@);
    }
    false
}

/// The near names among `cands`, nearest first.
pub fn rank_names(name: &str, cands: &Vec<String>) -> (r: Vec<String>)
    ensures
        text::strings(r@) == ranked(name@, text::strings(cands@)),
{
    let ghost all = text::strings(cands@);
    let mut r: Vec<String> = Vec::new();
    let mut dist: Vec<usize> = Vec::new();
    assert(text::strings(r@) =~= Seq::empty());
    let mut i: usize = 0;
    while i < cands.len()
        invariant
            all == text::strings(cands@),
            i <= cands@.len(),
            text::strings(r@) == ranked(name@, all.take(i as int)),
            dist@.len() == r@.len(),
            forall|k: int| 0 <= k < dist@.len() ==> #[trigger] dist@[k] == distance::text_distance(name@, r@[k]@),
        decreases cands@.len() - i,
    {
        assert(all.take(i as int + 1).drop_last() =~= all.take(i as int));
        assert(all.take(i as int + 1).last() == cands@[i as int]@);
        let d: usize = levenshtein(name, cands[i].as_str());
        if d > 0 && d <= 3 {
            let c = chars_of(cands[i].as_str());
            let ghost v = text::strings(r@);
            let mut k: usize = r.len();
            loop
                invariant_except_break
                    v == text::strings(r@),
                    k <= r@.len(),
                    c@ == cands@[i as int]@,
                    d == distance::text_distance(name@, c@),
                    dist@.len() == r@.len(),
                    forall|j: int|
                        0 <= j < dist@.len() ==> #[trigger] dist@[j] == distance::text_distance(
                            name@,
                            r@[j]@,
                        ),
                    forall|j: int| k <= j < v.len() ==> !ranks_before(name@, #[trigger] v[j], c@),
                ensures
                    k <= r@.len(),
                    k > 0 ==> ranks_before(name@, v[k - 1], c@),
                    forall|j: int| k <= j < v.len() ==> !ranks_before(name@, #[trigger] v[j], c@),
                decreases k,
            {
                if k == 0 {
                    break;
                }
                let x = chars_of(r[k - 1].as_str());
                assert(v[k - 1] == x@);
                assert(dist@[k - 1] == distance::text_distance(name@, r@[k - 1]@));
                let e: usize = dist[k - 1];
                if e < d || (e == d && comes_before(&x, &c)) {
                    break;
                }
                k -= 1;
            }
            proof {
                lemma_insert_ranked(name@, v, c@, k as int);
            }
            let ghost r0 = r@;
            let ghost d0 = dist@;
            let s = string_of(&c);
            r.insert(k, s);
            dist.insert(k, d);
            assert(text::strings(r@) =~= v.insert(k as int, c@));
            assert forall|j: int| 0 <= j < dist@.len() implies #[trigger] dist@[j]
                == distance::text_distance(name@, r@[j]@) by {
                if j < k {
                    assert(dist@[j] == d0[j]);
                    assert(r@[j] == r0[j]);
                } else if j > k {
                    assert(dist@[j] == d0[j - 1]);
                    assert(r@[j] == r0[j - 1]);
                }
            }
        }
        i += 1;
    }
    assert(all.take(all.len() as int) =~= all);
    r
}

} // verus!
