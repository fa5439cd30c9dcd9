//! Edit distance, for "did you mean".
use vstd::prelude::*;
use vstd::utf8::encode_utf8;

verus! {

pub open spec fn min2(a: int, b: int) -> int {
    if a <= b {
        a
    } else {
        b
    }
}

/// The edit distance of `a` and `b`: how many single-item insertions, deletions
/// and replacements turn one into the other at least.
pub open spec fn edit_distance(a: Seq<u8>, b: Seq<u8>) -> int
    decreases a.len(), b.len(),
{
    if a.len() == 0 {
        b.len() as int
    } else if b.len() == 0 {
        a.len() as int
    } else {
        min2(
            min2(edit_distance(a.drop_last(), b) + 1, edit_distance(a, b.drop_last()) + 1),
            edit_distance(a.drop_last(), b.drop_last()) + if a.last() == b.last() {
                0int
            } else {
                1int
            },
        )
    }
}

/// The distance is at least the difference in length and at most the greater
/// length.
pub proof fn law_distance_bounds(a: Seq<u8>, b: Seq<u8>)
    ensures
        a.len() - b.len() <= edit_distance(a, b),
        b.len() - a.len() <= edit_distance(a, b),
        edit_distance(a, b) <= a.len() || edit_distance(a, b) <= b.len(),
        0 <= edit_distance(a, b),
    decreases a.len(), b.len(),
{
    if a.len() > 0 && b.len() > 0 {
        law_distance_bounds(a.drop_last(), b);
        law_distance_bounds(a, b.drop_last());
        law_distance_bounds(a.drop_last(), b.drop_last());
    }
}

/// The distance is the same read either way.
pub proof fn law_distance_symmetric(a: Seq<u8>, b: Seq<u8>)
    ensures
        edit_distance(a, b) == edit_distance(b, a),
    decreases a.len(), b.len(),
{
    if a.len() > 0 && b.len() > 0 {
        law_distance_symmetric(a.drop_last(), b);
        law_distance_symmetric(a, b.drop_last());
        law_distance_symmetric(a.drop_last(), b.drop_last());
    }
}

/// The distance is zero between a text and itself, and only there.
pub proof fn law_distance_zero(a: Seq<u8>, b: Seq<u8>)
    ensures
        edit_distance(a, b) == 0 <==> a == b,
    decreases a.len(), b.len(),
{
    if a.len() == 0 || b.len() == 0 {
        assert(a.len() == b.len() ==> a =~= b);
    } else {
        law_distance_zero(a.drop_last(), b.drop_last());
        law_distance_bounds(a.drop_last(), b);
        law_distance_bounds(a, b.drop_last());
        law_distance_bounds(a.drop_last(), b.drop_last());
        if a.last() == b.last() && a.drop_last() == b.drop_last() {
            assert(a =~= a.drop_last().push(a.last()));
            assert(b =~= b.drop_last().push(b.last()));
        }
    }
}

/// The edit distance of the UTF-8 bytes of two texts.
pub open spec fn text_distance(a: Seq<char>, b: Seq<char>) -> int {
    edit_distance(encode_utf8(a), encode_utf8(b))
}

fn min_of(a: u128, b: u128) -> (r: u128)
    ensures
        r == min2(a as int, b as int),
{
    if a <= b {
        a
    } else {
        b
    }
}

/// Classic edit distance, over bytes.
pub fn levenshtein(a: &str, b: &str) -> (r: usize)
    ensures
        r == text_distance(a@, b@),
{
    let x = a.as_bytes();
    let y = b.as_bytes();
    let n: usize = y.len();
    let mut prev: Vec<usize> = Vec::new();
    let mut j: usize = 0;
    assert(x@.take(0) =~= Seq::empty());
    while j < n
        invariant
            n == y@.len(),
            j <= n,
            prev@.len() == j,
            forall|k: int| 0 <= k < j ==> prev@[k] == k,
        decreases n - j,
    {
        prev.push(j);
        j += 1;
    }
    let mut last: usize = n;
    proof {
        assert(y@.take(n as int) =~= y@);
        assert forall|k: int| 0 <= k < n implies prev@[k] == edit_distance(
            x@.take(0),
            y@.take(k),
        ) by {}
    }
    let mut i: usize = 0;
    while i < x.len()
        invariant
            n == y@.len(),
            i <= x@.len(),
            prev@.len() == n,
            forall|k: int|
                0 <= k < n ==> #[trigger] prev@[k] == edit_distance(x@.take(i as int), y@.take(k)),
            last == edit_distance(x@.take(i as int), y@.take(n as int)),
        decreases x@.len() - i,
    {
        let c = x[i];
        let ghost xi = x@.take(i as int);
        let ghost xj = x@.take(i as int + 1);
        assert(xj.drop_last() =~= xi);
        assert(xj.last() == c);
        assert(y@.take(0) =~= Seq::empty());
        let mut cur: Vec<usize> = Vec::new();
        let mut left: usize = i + 1;
        let mut k: usize = 0;
        while k < n
            invariant
                n == y@.len(),
                i < x@.len() <= usize::MAX,
                prev@.len() == n,
                xi == x@.take(i as int),
                xj == x@.take(i as int + 1),
                xj.drop_last() == xi,
                xj.last() == c,
                xj.len() == i + 1,
                k <= n,
                cur@.len() == k,
                left == edit_distance(xj, y@.take(k as int)),
                last == edit_distance(xi, y@.take(n as int)),
                forall|m: int| 0 <= m < n ==> #[trigger] prev@[m] == edit_distance(xi, y@.take(m)),
                forall|m: int| 0 <= m < k ==> #[trigger] cur@[m] == edit_distance(xj, y@.take(m)),
            decreases n - k,
        {
            let up: usize = if k + 1 < n {
                prev[k + 1]
            } else {
                last
            };
            let diag: usize = prev[k];
            let ghost yk = y@.take(k as int + 1);
            proof {
                assert(yk.drop_last() =~= y@.take(k as int));
                law_distance_bounds(xi, yk);
                law_distance_bounds(xj, y@.take(k as int));
                law_distance_bounds(xi, y@.take(k as int));
                assert(up == edit_distance(xi, yk));
                assert(diag == edit_distance(xi, y@.take(k as int)));
            }
            cur.push(left);
            let cost: usize = if c == y[k] {
                0
            } else {
                1
            };
            proof {
                law_distance_bounds(xj, yk);
            }
            left = shortest(left, up, diag, cost) as usize;
            k += 1;
        }
        prev = cur;
        last = left;
        i += 1;
    }
    assert(x@.take(x@.len() as int) =~= x@);
    last
}

/// One step of the table: the shortest of the three ways to a cell.
fn shortest(left: usize, up: usize, diag: usize, cost: usize) -> (r: u128)
    ensures
        r == min2(min2(up + 1, left + 1), diag + cost),
{
    min_of(min_of(up as u128 + 1, left as u128 + 1), diag as u128 + cost as u128)
}

} // verus!
