//! What the listings of the knowledge base hold: everything that matches, in the order in
//! which a reader looks for it.
use crate::text;
use crate::winkb::distance;
use crate::winkb::search;
use crate::winkb::suggest;
use crate::winkb::kb::NameRow;
use vstd::prelude::*;

verus! {

// ── listings ────────────────────────────────────────────────────────────────

/// How well a name answers a fragment: the fragment itself, in its own case, comes first, then
/// the names that begin with it in whatever case, then those that hold it.
pub open spec fn answers(frag: Option<Seq<char>>, name: Seq<char>, how: int) -> bool {
    match frag {
        None => how == 0,
        Some(f) => if how == 0 {
            name == f
        } else if how == 1 {
            name != f && f.len() <= name.len() && text::same_ignoring_case(
                name.take(f.len() as int),
                f,
            )
        } else {
            how == 2 && name != f && !(f.len() <= name.len() && text::same_ignoring_case(
                name.take(f.len() as int),
                f,
            ))
        },
    }
}

/// `a` may stand in front of `b`: it answers better, or as well and is shorter, or is as long
/// and comes no later in the alphabet.
pub open spec fn may_precede(frag: Option<Seq<char>>, a: Seq<char>, b: Seq<char>) -> bool {
    forall|x: int, y: int|
        #[trigger] answers(frag, a, x) && #[trigger] answers(frag, b, y) ==> x < y || (x == y && (
        a.len() < b.len() || (a.len() == b.len() && suggest::lex_le(a, b))))
}

proof fn lemma_rank_answers(frag: Option<Seq<char>>, name: Seq<char>, how: int)
    ensures
        answers(frag, name, how) <==> how == search::match_rank(frag, name),
{
    if let Some(f) = frag {
        let l = text::lower_all(name);
        if f.len() <= name.len() {
            assert(l.take(f.len() as int) =~= text::lower_all(name.take(f.len() as int)));
        }
        assert(text::lower_all(f).len() == f.len());
        assert(l.len() == name.len());
    }
}

proof fn lemma_not_before(frag: Option<Seq<char>>, a: Seq<char>, b: Seq<char>)
    requires
        !search::listed_before(frag, b, a),
    ensures
        may_precede(frag, a, b),
{
    suggest::law_lex_total(a, b);
    lemma_lex_reflexive(a);
    assert forall|x: int, y: int|
        #[trigger] answers(frag, a, x) && #[trigger] answers(frag, b, y) implies x < y || (x == y
        && (a.len() < b.len() || (a.len() == b.len() && suggest::lex_le(a, b)))) by {
        lemma_rank_answers(frag, a, x);
        lemma_rank_answers(frag, b, y);
    }
}

proof fn lemma_lex_reflexive(a: Seq<char>)
    ensures
        suggest::lex_le(a, a),
    decreases a.len(),
{
    if a.len() > 0 {
        lemma_lex_reflexive(a.drop_first());
    }
}

proof fn lemma_lex_antisymmetric(a: Seq<char>, b: Seq<char>)
    requires
        suggest::lex_le(a, b),
        suggest::lex_le(b, a),
    ensures
        a == b,
    decreases a.len(),
{
    if a.len() > 0 && b.len() > 0 {
        lemma_lex_antisymmetric(a.drop_first(), b.drop_first());
        assert(a =~= seq![a[0]] + a.drop_first());
        assert(b =~= seq![b[0]] + b.drop_first());
    } else {
        assert(a =~= b);
    }
}

/// Not being in front is transitive.
proof fn lemma_before_transitive(frag: Option<Seq<char>>, a: Seq<char>, b: Seq<char>, c: Seq<char>)
    requires
        !search::listed_before(frag, b, a),
        !search::listed_before(frag, c, b),
    ensures
        !search::listed_before(frag, c, a),
{
    if search::listed_before(frag, c, a) {
        suggest::law_lex_total(a, b);
        suggest::law_lex_total(b, c);
        if search::match_rank(frag, a) == search::match_rank(frag, c) && a.len() == c.len() && c != a
            && suggest::lex_le(c, a) {
            if suggest::lex_le(a, b) && suggest::lex_le(b, c) {
                suggest::law_lex_transitive(a, b, c);
                lemma_lex_antisymmetric(a, c);
            }
            if a == b {
                lemma_lex_antisymmetric(b, c);
            }
        }
    }
}

/// The rows of `v` come in order.
pub open spec fn rows_in_order(frag: Option<Seq<char>>, v: Seq<NameRow>) -> bool {
    forall|i: int, j: int|
        0 <= i < j < v.len() ==> may_precede(
            frag,
            (#[trigger] v[i]).name@,
            (#[trigger] v[j]).name@,
        )
}

spec fn sorted(frag: Option<Seq<char>>, v: Seq<NameRow>) -> bool {
    forall|i: int, j: int|
        0 <= i < j < v.len() ==> !search::listed_before(
            frag,
            (#[trigger] v[j]).name@,
            (#[trigger] v[i]).name@,
        )
}

proof fn lemma_insert(frag: Option<Seq<char>>, v: Seq<NameRow>, x: NameRow)
    requires
        sorted(frag, v),
    ensures
        sorted(frag, search::insert_listed(frag, v, x)),
        search::insert_listed(frag, v, x).to_multiset() == v.to_multiset().insert(x),
        forall|y: NameRow|
            #[trigger] search::insert_listed(frag, v, x).contains(y) <==> v.contains(y) || y == x,
    decreases v.len(),
{
    broadcast use vstd::seq_lib::group_to_multiset_ensures;

    let r = search::insert_listed(frag, v, x);
    if v.len() == 0 || !search::listed_before(frag, x.name@, v.last().name@) {
        assert(r == v.push(x));
        assert forall|i: int, j: int| 0 <= i < j < r.len() implies !search::listed_before(
            frag,
            (#[trigger] r[j]).name@,
            (#[trigger] r[i]).name@,
        ) by {
            if j == v.len() {
                if i < v.len() - 1 {
                    assert(v[i] == r[i]);
                    assert(!search::listed_before(frag, v[v.len() - 1].name@, v[i].name@));
                    lemma_before_transitive(frag, v[i].name@, v.last().name@, x.name@);
                }
            } else {
                assert(r[i] == v[i] && r[j] == v[j]);
            }
        }
        assert(r[v.len() as int] == x);
        assert forall|y: NameRow| #[trigger] r.contains(y) <==> v.contains(y) || y == x by {
            if v.contains(y) {
                let k = choose|k: int| 0 <= k < v.len() && v[k] == y;
                assert(r[k] == y);
            }
            if r.contains(y) && y != x {
                let k = choose|k: int| 0 <= k < r.len() && r[k] == y;
                assert(v[k] == y);
            }
        }
    } else {
        let u = v.drop_last();
        let l = v.last();
        let a = search::insert_listed(frag, u, x);
        assert forall|i: int, j: int| 0 <= i < j < u.len() implies !search::listed_before(
            frag,
            (#[trigger] u[j]).name@,
            (#[trigger] u[i]).name@,
        ) by {
            assert(u[i] == v[i] && u[j] == v[j]);
        }
        lemma_insert(frag, u, x);
        assert(r == a.push(l));
        assert(v =~= u.push(l));
        assert(v.to_multiset() =~= u.to_multiset().insert(l));
        assert(r.to_multiset() =~= v.to_multiset().insert(x));
        assert(v[v.len() - 1] == l);
        assert forall|i: int, j: int| 0 <= i < j < r.len() implies !search::listed_before(
            frag,
            (#[trigger] r[j]).name@,
            (#[trigger] r[i]).name@,
        ) by {
            if j < a.len() {
                assert(r[i] == a[i] && r[j] == a[j]);
            } else {
                assert(r[i] == a[i]);
                assert(a.contains(a[i]));
                if a[i] == x {
                    suggest::law_lex_total(x.name@, l.name@);
                    assert(!search::listed_before(frag, l.name@, x.name@)) by {
                        if x.name@ != l.name@ && suggest::lex_le(x.name@, l.name@)
                            && suggest::lex_le(l.name@, x.name@) {
                            lemma_lex_antisymmetric(x.name@, l.name@);
                        }
                    }
                } else {
                    assert(u.contains(a[i]));
                    let k = choose|k: int| 0 <= k < u.len() && u[k] == a[i];
                    assert(v[k] == a[i]);
                }
            }
        }
        assert(r[a.len() as int] == l);
        assert forall|y: NameRow| #[trigger] r.contains(y) <==> v.contains(y) || y == x by {
            if a.contains(y) {
                let k = choose|k: int| 0 <= k < a.len() && a[k] == y;
                assert(r[k] == y);
                if u.contains(y) {
                    let m = choose|m: int| 0 <= m < u.len() && u[m] == y;
                    assert(v[m] == y);
                }
            }
            if v.contains(y) && y != l {
                let m = choose|m: int| 0 <= m < v.len() && v[m] == y;
                assert(u[m] == y);
            }
            if r.contains(y) && y != l {
                let k = choose|k: int| 0 <= k < r.len() && r[k] == y;
                assert(a[k] == y);
            }
        }
    }
}

proof fn lemma_listed(frag: Option<Seq<char>>, v: Seq<NameRow>, p: spec_fn(NameRow) -> bool)
    ensures
        sorted(frag, search::listed(frag, v, p)),
        forall|y: NameRow|
            #[trigger] search::listed(frag, v, p).contains(y) <==> v.contains(y) && p(y),
        forall|y: NameRow|
            p(y) ==> #[trigger] search::listed(frag, v, p).to_multiset().count(y)
                == v.to_multiset().count(y),
    decreases v.len(),
{
    broadcast use vstd::seq_lib::group_to_multiset_ensures;

    if v.len() > 0 {
        let u = v.drop_last();
        let x = v.last();
        lemma_listed(frag, u, p);
        let a = search::listed(frag, u, p);
        lemma_insert(frag, a, x);
        assert(v =~= u.push(x));
        assert(v.to_multiset() =~= u.to_multiset().insert(x));
        assert(v[v.len() - 1] == x);
        assert forall|y: NameRow| #[trigger] search::listed(frag, v, p).contains(y) <==> v.contains(
            y,
        ) && p(y) by {
            if u.contains(y) {
                let k = choose|k: int| 0 <= k < u.len() && u[k] == y;
                assert(v[k] == y);
            }
            if v.contains(y) && y != x {
                let k = choose|k: int| 0 <= k < v.len() && v[k] == y;
                assert(u[k] == y);
            }
        }
        assert forall|y: NameRow| p(y) implies #[trigger] search::listed(frag, v, p).to_multiset().count(
            y,
        ) == v.to_multiset().count(y) by {
            assert(a.to_multiset().count(y) == u.to_multiset().count(y));
        }
    }
}

/// A listing holds every row that is asked for, as often as it is there, and no other: the
/// best answers first, then the shorter names, then by the alphabet.
pub proof fn law_listing_is_complete_and_in_order(
    frag: Option<Seq<char>>,
    v: Seq<NameRow>,
    p: spec_fn(NameRow) -> bool,
    y: NameRow,
)
    ensures
        rows_in_order(frag, search::listed(frag, v, p)),
        search::listed(frag, v, p).contains(y) <==> v.contains(y) && p(y),
        p(y) ==> search::listed(frag, v, p).to_multiset().count(y) == v.to_multiset().count(y),
{
    lemma_listed(frag, v, p);
    let r = search::listed(frag, v, p);
    assert forall|i: int, j: int| 0 <= i < j < r.len() implies may_precede(
        frag,
        (#[trigger] r[i]).name@,
        (#[trigger] r[j]).name@,
    ) by {
        lemma_not_before(frag, r[i].name@, r[j].name@);
    }
}

/// A search shows the best `limit` of the rows whose names hold the fragment, in whatever
/// case; a completion those of its scope whose names begin with the prefix.
pub proof fn law_search_shows_the_best(
    v: Seq<NameRow>,
    frag: Seq<char>,
    scope: Seq<char>,
    limit: int,
    k: int,
)
    requires
        0 <= k < limit,
    ensures
        k < search::listed(Some(frag), v, search::holds_fragment(frag)).len() ==> (search::search_of(
            v,
            frag,
            limit,
        ).len() > k && search::search_of(v, frag, limit)[k] == search::row_shown(
            search::listed(Some(frag), v, search::holds_fragment(frag))[k],
        )),
        k < search::listed(None, v, search::completes(frag, scope)).len() ==> (
        search::completion_of(v, frag, scope, limit).len() > k && search::completion_of(
            v,
            frag,
            scope,
            limit,
        )[k] == search::row_shown(search::listed(None, v, search::completes(frag, scope))[k])),
{
}

// ── suggestions ─────────────────────────────────────────────────────────────

proof fn lemma_insert_ranked(name: Seq<char>, v: Seq<Seq<char>>, n: Seq<char>, y: Seq<char>)
    ensures
        suggest::insert_ranked(name, v, n).contains(y) <==> v.contains(y) || y == n,
    decreases v.len(),
{
    let r = suggest::insert_ranked(name, v, n);
    if v.len() == 0 || suggest::ranks_before(name, v.last(), n) {
        assert(r[v.len() as int] == n);
        if v.contains(y) {
            let k = choose|k: int| 0 <= k < v.len() && v[k] == y;
            assert(r[k] == y);
        }
        if r.contains(y) && y != n {
            let k = choose|k: int| 0 <= k < r.len() && r[k] == y;
            assert(v[k] == y);
        }
    } else {
        let u = v.drop_last();
        let a = suggest::insert_ranked(name, u, n);
        lemma_insert_ranked(name, u, n, y);
        assert(r[a.len() as int] == v.last());
        assert(v[v.len() - 1] == v.last());
        if a.contains(y) {
            let k = choose|k: int| 0 <= k < a.len() && a[k] == y;
            assert(r[k] == y);
        }
        if r.contains(y) && y != v.last() {
            let k = choose|k: int| 0 <= k < r.len() && r[k] == y;
            assert(a[k] == y);
        }
        if u.contains(y) {
            let k = choose|k: int| 0 <= k < u.len() && u[k] == y;
            assert(v[k] == y);
        }
        if v.contains(y) && y != v.last() {
            let k = choose|k: int| 0 <= k < v.len() && v[k] == y;
            assert(u[k] == y);
        }
    }
}

/// Suggestions are the candidates at a distance of one to three edits, all of them.
pub proof fn law_no_near_name_is_missed(name: Seq<char>, v: Seq<Seq<char>>, y: Seq<char>)
    ensures
        suggest::ranked(name, v).contains(y) <==> v.contains(y) && 1 <= distance::text_distance(
            name,
            y,
        ) <= 3,
    decreases v.len(),
{
    if v.len() > 0 {
        let u = v.drop_last();
        law_no_near_name_is_missed(name, u, y);
        lemma_insert_ranked(name, suggest::ranked(name, u), v.last(), y);
        assert(v[v.len() - 1] == v.last());
        if u.contains(y) {
            let k = choose|k: int| 0 <= k < u.len() && u[k] == y;
            assert(v[k] == y);
        }
        if v.contains(y) && y != v.last() {
            let k = choose|k: int| 0 <= k < v.len() && v[k] == y;
            assert(u[k] == y);
        }
    }
}

proof fn lemma_like_any(s: Seq<char>)
    ensures
        suggest::like(seq!['%'], s),
    decreases s.len(),
{
    let p = seq!['%'];
    assert(p.drop_first() =~= Seq::empty());
    reveal_with_fuel(suggest::like, 2);
    if s.len() > 0 {
        lemma_like_any(s.drop_first());
    }
}

/// A pattern that is a plain text and `%` is met by the names that begin with the text, in
/// whatever case.
pub proof fn law_prefix_pattern(t: Seq<char>, s: Seq<char>)
    requires
        forall|i: int| 0 <= i < t.len() ==> #[trigger] t[i] != '%' && t[i] != '_',
    ensures
        suggest::like(t.push('%'), s) <==> t.len() <= s.len() && text::same_ignoring_case(
            s.take(t.len() as int),
            t,
        ),
    decreases t.len(),
{
    if t.len() == 0 {
        assert(t.push('%') =~= seq!['%']);
        lemma_like_any(s);
        assert(s.take(0) =~= t);
    } else {
        let u = t.drop_first();
        assert forall|i: int| 0 <= i < u.len() implies #[trigger] u[i] != '%' && u[i] != '_' by {
            assert(u[i] == t[i + 1]);
        }
        assert(t.push('%').drop_first() =~= u.push('%'));
        assert(t.push('%')[0] == t[0]);
        if s.len() > 0 {
            let r = s.drop_first();
            law_prefix_pattern(u, r);
            if t.len() <= s.len() {
                let a = s.take(t.len() as int);
                let b = r.take(u.len() as int);
                assert(a.drop_first() =~= b);
                let la = text::lower_all(a);
                let lt = text::lower_all(t);
                assert(la.drop_first() =~= text::lower_all(b));
                assert(lt.drop_first() =~= text::lower_all(u));
                assert(la[0] == text::lower(s[0]) && lt[0] == text::lower(t[0]));
                if la == lt {
                    assert(text::lower_all(b) == text::lower_all(u));
                }
                if text::lower_all(b) == text::lower_all(u) && text::lower(s[0]) == text::lower(t[0]) {
                    assert(la =~= seq![la[0]] + la.drop_first());
                    assert(lt =~= seq![lt[0]] + lt.drop_first());
                }
            }
        }
    }
}

/// One edit more changes the distance by at most one: a byte put in, taken out or replaced.
pub proof fn law_one_edit_is_one_step(a: Seq<u8>, b: Seq<u8>, x: u8, y: u8)
    ensures
        distance::edit_distance(a.push(x), b) <= distance::edit_distance(a, b) + 1,
        distance::edit_distance(a, b.push(y)) <= distance::edit_distance(a, b) + 1,
        distance::edit_distance(a.push(x), b.push(y)) <= distance::edit_distance(a, b) + 1,
        distance::edit_distance(a.push(x), b.push(x)) <= distance::edit_distance(a, b),
{
    distance::law_distance_bounds(a, b);
    assert(a.push(x).drop_last() =~= a);
    assert(b.push(y).drop_last() =~= b);
    assert(b.push(x).drop_last() =~= b);
    if b.len() == 0 {
        distance::law_distance_bounds(a, b);
    }
}

} // verus!
