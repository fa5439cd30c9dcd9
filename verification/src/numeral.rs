//! Which texts are numerals: decimal numbers, with or without a fraction and an
//! exponent, and the names of the values that are no finite numbers.
use crate::text;
use crate::text::is_ignoring_case;
use vstd::prelude::*;
use vstd::slice::slice_subrange;

verus! {

/// A character that is no decimal digit.
pub open spec fn not_digit() -> spec_fn(char) -> bool {
    |c: char| !text::is_digit(c)
}

/// A sign.
pub open spec fn is_sign(c: char) -> bool {
    c == '+' || c == '-'
}

/// Where the text behind a sign at `i` begins, if there is a sign.
pub open spec fn behind_sign(s: Seq<char>, i: int) -> int {
    if i < s.len() && is_sign(s[i]) {
        i + 1
    } else {
        i
    }
}

/// Digits from `i` to the end, behind a sign or not, and one digit at least.
pub open spec fn is_exponent(s: Seq<char>, i: int) -> bool {
    let m = behind_sign(s, i);
    m < s.len() && text::first_from(s, not_digit(), m) == s.len()
}

/// An unsigned decimal number from `i` on: digits with a point among them, before
/// them or behind them, or without one, and one digit at least; then perhaps an
/// exponent.
pub open spec fn is_decimal(s: Seq<char>, i: int) -> bool {
    let w = text::first_from(s, not_digit(), i);
    let point = w < s.len() && s[w] == '.';
    let f = if point {
        text::first_from(s, not_digit(), w + 1)
    } else {
        w
    };
    &&& w > i || f > w + 1
    &&& f == s.len() || ((s[f] == 'e' || s[f] == 'E') && is_exponent(s, f + 1))
}

/// A numeral: a decimal number, infinity or "not a number", behind a sign or not.
/// Letters count in either case.
pub open spec fn is_numeral(s: Seq<char>) -> bool {
    let i = behind_sign(s, 0);
    let name = s.skip(i);
    text::same_ignoring_case(name, "inf"@) || text::same_ignoring_case(name, "infinity"@)
        || text::same_ignoring_case(name, "nan"@) || is_decimal(s, i)
}

fn digits_end(s: &[char], from: usize) -> (r: usize)
    requires
        from <= s@.len(),
    ensures
        r == text::first_from(s@, not_digit(), from as int),
        from <= r <= s@.len(),
{
    let mut i: usize = from;
    while i < s.len() && '0' <= s[i] && s[i] <= '9'
        invariant
            from <= i <= s@.len(),
            text::first_from(s@, not_digit(), from as int) == text::first_from(s@, not_digit(), i as int),
        decreases s@.len() - i,
    {
        assert(!not_digit()(s@[i as int]));
        i += 1;
    }
    assert(i < s@.len() ==> not_digit()(s@[i as int]));
    i
}

fn sign_end(s: &[char], from: usize) -> (r: usize)
    requires
        from <= s@.len(),
    ensures
        r == behind_sign(s@, from as int),
        from <= r <= s@.len(),
{
    if from < s.len() && (s[from] == '+' || s[from] == '-') {
        from + 1
    } else {
        from
    }
}

/// Whether a text is a numeral.
pub fn reads_as_number(s: &[char]) -> (r: bool)
    ensures
        r == is_numeral(s@),
{
    let n: usize = s.len();
    let i: usize = sign_end(s, 0);
    let name = slice_subrange(s, i, n);
    assert(name@ =~= s@.skip(i as int));
    if is_ignoring_case(name, "inf") || is_ignoring_case(name, "infinity") || is_ignoring_case(
        name,
        "nan",
    ) {
        return true;
    }
    let w: usize = digits_end(s, i);
    let f: usize = if w < n && s[w] == '.' {
        digits_end(s, w + 1)
    } else {
        w
    };
    if !(w > i || f - w > 1) {
        return false;
    }
    if f == n {
        return true;
    }
    if !(s[f] == 'e' || s[f] == 'E') {
        return false;
    }
    let m: usize = sign_end(s, f + 1);
    m < n && digits_end(s, m) == n
}

} // verus!
