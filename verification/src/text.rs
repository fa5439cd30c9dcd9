//! Text as sequences of characters: the vocabulary every other module is
//! specified in, and the scanning, splitting and formatting routines they share.
//!
//! A `&str` or `String` is viewed as its `Seq<char>`. The routines here work on
//! character slices, so that a sub-text is a subrange and costs nothing.
use vstd::prelude::*;
use vstd::slice::slice_subrange;
use vstd::utf8::*;

verus! {

/// `String::push` appends one character.
pub assume_specification[ std::string::String::push ](s: &mut std::string::String, c: char)
    ensures
        final(s)@ == old(s)@.push(c),
;

/// Whether a character outside ASCII is alphanumeric in the Unicode sense
/// (what `char::is_alphanumeric` answers for it).
pub uninterp spec fn unicode_alphanumeric(c: char) -> bool;

/// `char::is_alphanumeric`, on a character outside ASCII. Nothing is claimed of
/// the Unicode tables beyond that the answer depends on the character alone.
#[verifier::external_body]
fn wide_alphanumeric(c: char) -> (r: bool)
    requires
        c as u32 >= 128,
    ensures
        r == unicode_alphanumeric(c),
{
    c.is_alphanumeric()
}

/// Whether a character outside ASCII is alphabetic in the Unicode sense (what
/// `char::is_alphabetic` answers for it).
pub uninterp spec fn unicode_alphabetic(c: char) -> bool;

/// `char::is_alphabetic`, on a character outside ASCII. Nothing is claimed of the
/// Unicode tables beyond that the answer depends on the character alone.
#[verifier::external_body]
fn wide_alphabetic(c: char) -> (r: bool)
    requires
        c as u32 >= 128,
    ensures
        r == unicode_alphabetic(c),
{
    c.is_alphabetic()
}

/// What `{:?}` writes for a string: the string in quotes, with the characters
/// that `str`'s `Debug` escapes escaped.
pub uninterp spec fn debug_text(s: Seq<char>) -> Seq<char>;

/// `Debug` of `str`, through `format!`. The text is a function of the string
/// alone; which characters are escaped is left unsaid.
#[verifier::external_body]
pub(crate) fn debug_of(s: &str) -> (r: String)
    ensures
        r@ == debug_text(s@),
{
    format!("{:?}", s)
}

// ── character classes ───────────────────────────────────────────────────────

/// The Unicode `White_Space` property.
pub open spec fn is_ws(c: char) -> bool {
    let n = c as int;
    ||| 0x09 <= n <= 0x0d
    ||| n == 0x20
    ||| n == 0x85
    ||| n == 0xa0
    ||| n == 0x1680
    ||| 0x2000 <= n <= 0x200a
    ||| n == 0x2028
    ||| n == 0x2029
    ||| n == 0x202f
    ||| n == 0x205f
    ||| n == 0x3000
}

pub open spec fn is_digit(c: char) -> bool {
    '0' <= c <= '9'
}

pub open spec fn is_upper(c: char) -> bool {
    'A' <= c <= 'Z'
}

pub open spec fn is_lower(c: char) -> bool {
    'a' <= c <= 'z'
}

/// An ASCII letter.
pub open spec fn is_alpha(c: char) -> bool {
    is_upper(c) || is_lower(c)
}

/// An ASCII letter or digit.
pub open spec fn is_alnum(c: char) -> bool {
    is_alpha(c) || is_digit(c)
}

/// A letter or digit of any script.
pub open spec fn is_word_char(c: char) -> bool {
    if (c as int) < 128 {
        is_alnum(c)
    } else {
        unicode_alphanumeric(c)
    }
}

/// A Unicode letter.
pub open spec fn is_letter(c: char) -> bool {
    if (c as u32) < 128 {
        is_alpha(c)
    } else {
        unicode_alphabetic(c)
    }
}

pub open spec fn is_hex_digit(c: char) -> bool {
    is_digit(c) || 'a' <= c <= 'f' || 'A' <= c <= 'F'
}

/// A symbol character: ASCII alphanumeric, `_` or `$`.
pub open spec fn is_ident(c: char) -> bool {
    is_alnum(c) || c == '_' || c == '$'
}

/// ASCII lower-casing; other characters stay.
pub open spec fn lower(c: char) -> char {
    if is_upper(c) {
        ((c as int) + 32) as char
    } else {
        c
    }
}

/// ASCII upper-casing; other characters stay.
pub open spec fn upper(c: char) -> char {
    if is_lower(c) {
        ((c as int) - 32) as char
    } else {
        c
    }
}

pub fn char_is_ws(c: char) -> (r: bool)
    ensures
        r == is_ws(c),
{
    let n: u32 = c as u32;
    (0x09 <= n && n <= 0x0d) || n == 0x20 || n == 0x85 || n == 0xa0 || n == 0x1680 || (0x2000 <= n
        && n <= 0x200a) || n == 0x2028 || n == 0x2029 || n == 0x202f || n == 0x205f || n == 0x3000
}

/// The code point of `c`.
pub fn char_code(c: char) -> (r: u32)
    ensures
        r as int == c as int,
        r <= 0x10ffff,
{
    c as u32
}

pub fn char_is_digit(c: char) -> (r: bool)
    ensures
        r == is_digit(c),
{
    '0' <= c && c <= '9'
}

pub fn char_is_upper(c: char) -> (r: bool)
    ensures
        r == is_upper(c),
{
    'A' <= c && c <= 'Z'
}

pub fn char_is_lower(c: char) -> (r: bool)
    ensures
        r == is_lower(c),
{
    'a' <= c && c <= 'z'
}

pub fn char_is_alpha(c: char) -> (r: bool)
    ensures
        r == is_alpha(c),
{
    char_is_upper(c) || char_is_lower(c)
}

pub fn char_is_alnum(c: char) -> (r: bool)
    ensures
        r == is_alnum(c),
{
    char_is_alpha(c) || char_is_digit(c)
}

pub fn char_is_word(c: char) -> (r: bool)
    ensures
        r == is_word_char(c),
{
    if (c as u32) < 128 {
        char_is_alnum(c)
    } else {
        wide_alphanumeric(c)
    }
}

pub fn char_is_letter(c: char) -> (r: bool)
    ensures
        r == is_letter(c),
{
    if (c as u32) < 128 {
        char_is_alpha(c)
    } else {
        wide_alphabetic(c)
    }
}

pub fn char_is_hex(c: char) -> (r: bool)
    ensures
        r == is_hex_digit(c),
{
    char_is_digit(c) || ('a' <= c && c <= 'f') || ('A' <= c && c <= 'F')
}

pub fn char_is_ident(c: char) -> (r: bool)
    ensures
        r == is_ident(c),
{
    char_is_alnum(c) || c == '_' || c == '$'
}

pub fn char_lower(c: char) -> (r: char)
    ensures
        r == lower(c),
{
    if char_is_upper(c) {
        ((c as u8) + 32) as char
    } else {
        c
    }
}

pub fn char_upper(c: char) -> (r: char)
    ensures
        r == upper(c),
{
    if char_is_lower(c) {
        ((c as u8) - 32) as char
    } else {
        c
    }
}

// ── conversions ─────────────────────────────────────────────────────────────

/// The characters of `s`, in order.
pub fn chars_of(s: &str) -> (r: Vec<char>)
    ensures
        r@ == s@,
{
    let mut r: Vec<char> = Vec::new();
    for c in it: s.chars()
        invariant
            it.seq() == s@,
            r@ == it.seq().take(it.index() as int),
    {
        r.push(c);
        assert(it.seq().take(it.index() as int + 1) =~= it.seq().take(it.index() as int).push(c));
    }
    assert(s@.take(s@.len() as int) =~= s@);
    r
}

/// The string made of the characters of `s`.
pub fn string_of(s: &[char]) -> (r: String)
    ensures
        r@ == s@,
{
    let mut r = String::new();
    let mut i: usize = 0;
    while i < s.len()
        invariant
            i <= s@.len(),
            r@ == s@.take(i as int),
        decreases s@.len() - i,
    {
        r.push(s[i]);
        assert(s@.take(i as int + 1) =~= s@.take(i as int).push(s@[i as int]));
        i += 1;
    }
    assert(s@.take(s@.len() as int) =~= s@);
    r
}

/// A copy of the characters of `s`.
pub fn copy_of(s: &[char]) -> (r: Vec<char>)
    ensures
        r@ == s@,
{
    let mut r: Vec<char> = Vec::new();
    push_all(&mut r, s);
    assert(r@ =~= s@);
    r
}

/// Append the characters of `s`.
pub fn push_all(out: &mut Vec<char>, s: &[char])
    ensures
        final(out)@ == old(out)@ + s@,
{
    let ghost before = out@;
    let mut i: usize = 0;
    while i < s.len()
        invariant
            i <= s@.len(),
            out@ == before + s@.take(i as int),
        decreases s@.len() - i,
    {
        out.push(s[i]);
        assert(before + s@.take(i as int + 1) =~= (before + s@.take(i as int)).push(s@[i as int]));
        i += 1;
    }
    assert(s@.take(s@.len() as int) =~= s@);
}

/// Append the characters of the string `s`.
pub fn push_str(out: &mut Vec<char>, s: &str)
    ensures
        final(out)@ == old(out)@ + s@,
{
    let ghost before = out@;
    for c in it: s.chars()
        invariant
            it.seq() == s@,
            out@ == before + s@.take(it.index() as int),
    {
        out.push(c);
        assert(before + s@.take(it.index() as int + 1) =~= (before + s@.take(
            it.index() as int,
        )).push(c));
    }
    assert(s@.take(s@.len() as int) =~= s@);
}

/// The views of a sequence of slices.
pub open spec fn slices(v: Seq<&[char]>) -> Seq<Seq<char>> {
    Seq::new(v.len(), |i: int| v[i]@)
}

/// The views of a sequence of strings.
pub open spec fn strings(v: Seq<String>) -> Seq<Seq<char>> {
    Seq::new(v.len(), |i: int| v[i]@)
}

/// The views of a sequence of character vectors.
pub open spec fn texts(v: Seq<Vec<char>>) -> Seq<Seq<char>> {
    Seq::new(v.len(), |i: int| v[i]@)
}

// ── comparison ──────────────────────────────────────────────────────────────

/// Whether the characters `s` are those of `lit`.
pub fn is(s: &[char], lit: &str) -> (r: bool)
    ensures
        r == (s@ == lit@),
{
    let mut i: usize = 0;
    for c in it: lit.chars()
        invariant
            it.seq() == lit@,
            i == it.index(),
            i <= s@.len(),
            lit@.take(i as int) =~= s@.take(i as int),
    {
        if i >= s.len() || s[i] != c {
            assert(lit@.len() > i);
            assert(i < s@.len() ==> s@[i as int] != lit@[i as int]);
            return false;
        }
        assert(lit@.take(i as int + 1) =~= lit@.take(i as int).push(c));
        assert(s@.take(i as int + 1) =~= s@.take(i as int).push(c));
        i += 1;
    }
    assert(lit@.take(i as int) =~= lit@);
    if i == s.len() {
        assert(s@.take(i as int) =~= s@);
        true
    } else {
        false
    }
}

/// Whether two texts hold the same characters.
pub fn same(a: &[char], b: &[char]) -> (r: bool)
    ensures
        r == (a@ == b@),
{
    if a.len() != b.len() {
        return false;
    }
    let mut i: usize = 0;
    while i < a.len()
        invariant
            i <= a@.len(),
            a@.len() == b@.len(),
            forall|j: int| 0 <= j < i ==> a@[j] == b@[j],
        decreases a@.len() - i,
    {
        if a[i] != b[i] {
            assert(a@[i as int] != b@[i as int]);
            return false;
        }
        i += 1;
    }
    assert(a@ =~= b@);
    true
}

/// ASCII lower-casing of a text.
pub open spec fn lower_all(s: Seq<char>) -> Seq<char> {
    s.map_values(|c: char| lower(c))
}

/// ASCII upper-casing of a text.
pub open spec fn upper_all(s: Seq<char>) -> Seq<char> {
    s.map_values(|c: char| upper(c))
}

/// Equality up to ASCII case.
pub open spec fn same_ignoring_case(a: Seq<char>, b: Seq<char>) -> bool {
    lower_all(a) == lower_all(b)
}

pub fn to_lower(s: &[char]) -> (r: Vec<char>)
    ensures
        r@ == lower_all(s@),
{
    let mut r: Vec<char> = Vec::new();
    let mut i: usize = 0;
    while i < s.len()
        invariant
            i <= s@.len(),
            r@ =~= lower_all(s@.take(i as int)),
        decreases s@.len() - i,
    {
        r.push(char_lower(s[i]));
        i += 1;
    }
    assert(s@.take(s@.len() as int) =~= s@);
    r
}

pub fn to_upper(s: &[char]) -> (r: Vec<char>)
    ensures
        r@ == upper_all(s@),
{
    let mut r: Vec<char> = Vec::new();
    let mut i: usize = 0;
    while i < s.len()
        invariant
            i <= s@.len(),
            r@ =~= upper_all(s@.take(i as int)),
        decreases s@.len() - i,
    {
        r.push(char_upper(s[i]));
        i += 1;
    }
    assert(s@.take(s@.len() as int) =~= s@);
    r
}

pub fn is_ignoring_case(s: &[char], lit: &str) -> (r: bool)
    ensures
        r == same_ignoring_case(s@, lit@),
{
    let a = to_lower(s);
    let l = chars_of(lit);
    let b = to_lower(&l);
    same(&a, &b)
}

pub open spec fn starts_with(s: Seq<char>, p: Seq<char>) -> bool {
    s.len() >= p.len() && s.take(p.len() as int) == p
}

pub open spec fn ends_with(s: Seq<char>, p: Seq<char>) -> bool {
    s.len() >= p.len() && s.skip(s.len() - p.len()) == p
}

pub fn has_prefix(s: &[char], p: &str) -> (r: bool)
    ensures
        r == starts_with(s@, p@),
{
    let n: usize = p.unicode_len();
    if n > s.len() {
        return false;
    }
    is(slice_subrange(s, 0, n), p)
}

pub fn has_suffix(s: &[char], p: &str) -> (r: bool)
    ensures
        r == ends_with(s@, p@),
{
    let n: usize = p.unicode_len();
    if n > s.len() {
        return false;
    }
    is(slice_subrange(s, s.len() - n, s.len()), p)
}

/// What is left of `s` behind the prefix `p`.
pub open spec fn strip_prefix(s: Seq<char>, p: Seq<char>) -> Option<Seq<char>> {
    if starts_with(s, p) {
        Some(s.skip(p.len() as int))
    } else {
        None
    }
}

/// The view of an optional slice.
pub open spec fn opt(r: Option<&[char]>) -> Option<Seq<char>> {
    match r {
        Some(x) => Some(x@),
        None => None,
    }
}

pub fn without_prefix<'a>(s: &'a [char], p: &str) -> (r: Option<&'a [char]>)
    ensures
        opt(r) == strip_prefix(s@, p@),
{
    if has_prefix(s, p) {
        let n: usize = p.unicode_len();
        Some(slice_subrange(s, n, s.len()))
    } else {
        None
    }
}

// ── searching ───────────────────────────────────────────────────────────────

/// The first position at or after `i` whose character satisfies `p`; the length
/// of `s` where there is none.
pub open spec fn first_from(s: Seq<char>, p: spec_fn(char) -> bool, i: int) -> int
    decreases s.len() - i,
{
    if i >= s.len() {
        s.len() as int
    } else if p(s[i]) {
        i
    } else {
        first_from(s, p, i + 1)
    }
}

/// The last position below `n` whose character satisfies `p`; -1 where there is
/// none.
pub open spec fn last_below(s: Seq<char>, p: spec_fn(char) -> bool, n: int) -> int
    decreases n,
{
    if n <= 0 {
        -1
    } else if p(s[n - 1]) {
        n - 1
    } else {
        last_below(s, p, n - 1)
    }
}

pub proof fn lemma_first_from(s: Seq<char>, p: spec_fn(char) -> bool, i: int)
    requires
        0 <= i <= s.len(),
    ensures
        i <= first_from(s, p, i) <= s.len(),
        first_from(s, p, i) < s.len() ==> p(s[first_from(s, p, i)]),
        forall|j: int| i <= j < first_from(s, p, i) ==> !p(#[trigger] s[j]),
    decreases s.len() - i,
{
    if i < s.len() && !p(s[i]) {
        lemma_first_from(s, p, i + 1);
    }
}

pub proof fn lemma_last_below(s: Seq<char>, p: spec_fn(char) -> bool, n: int)
    requires
        0 <= n <= s.len(),
    ensures
        -1 <= last_below(s, p, n) < n,
        last_below(s, p, n) >= 0 ==> p(s[last_below(s, p, n)]),
        forall|j: int| last_below(s, p, n) < j < n ==> !p(#[trigger] s[j]),
    decreases n,
{
    if n > 0 && !p(s[n - 1]) {
        lemma_last_below(s, p, n - 1);
    }
}

pub open spec fn eq_char(c: char) -> spec_fn(char) -> bool {
    |x: char| x == c
}

pub open spec fn ws() -> spec_fn(char) -> bool {
    |x: char| is_ws(x)
}

pub open spec fn not_ws() -> spec_fn(char) -> bool {
    |x: char| !is_ws(x)
}

/// Position of the first `c` in `s`, the length of `s` where there is none.
pub open spec fn find(s: Seq<char>, c: char) -> int {
    first_from(s, eq_char(c), 0)
}

/// Position of the last `c` in `s`, -1 where there is none.
pub open spec fn rfind(s: Seq<char>, c: char) -> int {
    last_below(s, eq_char(c), s.len() as int)
}

/// Position of the first white space in `s`, the length of `s` where there is
/// none.
pub open spec fn find_ws(s: Seq<char>) -> int {
    first_from(s, ws(), 0)
}

pub fn index_of_from(s: &[char], c: char, start: usize) -> (r: usize)
    requires
        start <= s@.len(),
    ensures
        r == first_from(s@, eq_char(c), start as int),
        start <= r <= s@.len(),
        r < s@.len() ==> s@[r as int] == c,
        forall|j: int| start <= j < r ==> s@[j] != c,
{
    let mut i: usize = start;
    while i < s.len()
        invariant_except_break
            start <= i <= s@.len(),
            first_from(s@, eq_char(c), start as int) == first_from(s@, eq_char(c), i as int),
            forall|j: int| start <= j < i ==> s@[j] != c,
        ensures
            start <= i <= s@.len(),
            i == first_from(s@, eq_char(c), start as int),
            i < s@.len() ==> s@[i as int] == c,
            forall|j: int| start <= j < i ==> s@[j] != c,
        decreases s@.len() - i,
    {
        if s[i] == c {
            break;
        }
        i += 1;
    }
    i
}

pub fn index_of(s: &[char], c: char) -> (r: usize)
    ensures
        r == find(s@, c),
        r <= s@.len(),
        r < s@.len() ==> s@[r as int] == c,
        forall|j: int| 0 <= j < r ==> s@[j] != c,
{
    index_of_from(s, c, 0)
}

pub fn has_char(s: &[char], c: char) -> (r: bool)
    ensures
        r == s@.contains(c),
{
    let i: usize = index_of(s, c);
    assert(i < s@.len() ==> s@[i as int] == c);
    i < s.len()
}

pub fn last_index_of(s: &[char], c: char) -> (r: Option<usize>)
    ensures
        r matches Some(i) ==> i == rfind(s@, c) && i < s@.len() && s@[i as int] == c,
        r is None ==> rfind(s@, c) == -1,
{
    let mut n: usize = s.len();
    while n > 0
        invariant
            n <= s@.len(),
            rfind(s@, c) == last_below(s@, eq_char(c), n as int),
        decreases n,
    {
        if s[n - 1] == c {
            return Some(n - 1);
        }
        n -= 1;
    }
    None
}

pub fn index_of_ws(s: &[char]) -> (r: usize)
    ensures
        r == find_ws(s@),
        r <= s@.len(),
        r < s@.len() ==> is_ws(s@[r as int]),
        forall|j: int| 0 <= j < r ==> !is_ws(s@[j]),
{
    let mut i: usize = 0;
    while i < s.len()
        invariant_except_break
            i <= s@.len(),
            find_ws(s@) == first_from(s@, ws(), i as int),
            forall|j: int| 0 <= j < i ==> !is_ws(s@[j]),
        ensures
            i <= s@.len(),
            i == find_ws(s@),
            i < s@.len() ==> is_ws(s@[i as int]),
            forall|j: int| 0 <= j < i ==> !is_ws(s@[j]),
        decreases s@.len() - i,
    {
        if char_is_ws(s[i]) {
            break;
        }
        i += 1;
    }
    i
}

/// `p` occurs in `s` at position `i`.
pub open spec fn occurs_at(s: Seq<char>, p: Seq<char>, i: int) -> bool {
    0 <= i <= s.len() - p.len() && s.subrange(i, i + p.len()) == p
}

/// The first position at or after `i` at which `p` occurs in `s`; -1 where
/// there is none.
pub open spec fn find_text_from(s: Seq<char>, p: Seq<char>, i: int) -> int
    decreases s.len() - p.len() - i + 1,
{
    if i > s.len() - p.len() {
        -1
    } else if occurs_at(s, p, i) {
        i
    } else {
        find_text_from(s, p, i + 1)
    }
}

/// The first position at which `p` occurs in `s`; -1 where there is none.
pub open spec fn find_text(s: Seq<char>, p: Seq<char>) -> int {
    find_text_from(s, p, 0)
}

pub proof fn lemma_find_text_from(s: Seq<char>, p: Seq<char>, i: int)
    requires
        0 <= i,
    ensures
        find_text_from(s, p, i) == -1 || (i <= find_text_from(s, p, i) && occurs_at(
            s,
            p,
            find_text_from(s, p, i),
        )),
        forall|j: int|
            i <= j && (find_text_from(s, p, i) == -1 || j < find_text_from(s, p, i))
                ==> !#[trigger] occurs_at(s, p, j),
    decreases s.len() - p.len() - i + 1,
{
    if i <= s.len() - p.len() && !occurs_at(s, p, i) {
        lemma_find_text_from(s, p, i + 1);
    }
}

pub fn index_of_text(s: &[char], p: &[char]) -> (r: Option<usize>)
    ensures
        r matches Some(i) ==> i == find_text(s@, p@) && occurs_at(s@, p@, i as int),
        r is None ==> find_text(s@, p@) == -1,
{
    if p.len() > s.len() {
        return None;
    }
    let m: usize = p.len();
    let last: usize = s.len() - m;
    let mut i: usize = 0;
    loop
        invariant
            m == p@.len(),
            last + m == s@.len(),
            last + m <= usize::MAX,
            i <= last,
            find_text(s@, p@) == find_text_from(s@, p@, i as int),
        decreases last - i,
    {
        if same(slice_subrange(s, i, i + m), p) {
            return Some(i);
        }
        assert(find_text(s@, p@) == find_text_from(s@, p@, i as int + 1));
        if i == last {
            return None;
        }
        i += 1;
    }
}

/// The last position at or below `i` at which `p` occurs in `s`; -1 where there
/// is none.
pub open spec fn rfind_text_from(s: Seq<char>, p: Seq<char>, i: int) -> int
    decreases i + 1,
{
    if i < 0 {
        -1
    } else if occurs_at(s, p, i) {
        i
    } else {
        rfind_text_from(s, p, i - 1)
    }
}

/// The last position at which `p` occurs in `s`; -1 where there is none.
pub open spec fn rfind_text(s: Seq<char>, p: Seq<char>) -> int {
    rfind_text_from(s, p, s.len() - p.len())
}

pub fn last_index_of_text(s: &[char], p: &[char]) -> (r: Option<usize>)
    ensures
        r matches Some(i) ==> i == rfind_text(s@, p@) && occurs_at(s@, p@, i as int),
        r is None ==> rfind_text(s@, p@) == -1,
{
    if p.len() > s.len() {
        return None;
    }
    let m: usize = p.len();
    let mut i: usize = s.len() - m;
    let ghost n: usize = s.len();
    loop
        invariant
            m == p@.len(),
            n == s@.len(),
            i + m <= n,
            rfind_text(s@, p@) == rfind_text_from(s@, p@, i as int),
        decreases i,
    {
        if same(slice_subrange(s, i, i + m), p) {
            return Some(i);
        }
        if i == 0 {
            assert(rfind_text_from(s@, p@, -1) == -1);
            return None;
        }
        i -= 1;
    }
}

// ── trimming ────────────────────────────────────────────────────────────────

/// `s` without its leading white space.
pub open spec fn trim_start(s: Seq<char>) -> Seq<char> {
    s.skip(first_from(s, not_ws(), 0))
}

/// `s` without its trailing white space.
pub open spec fn trim_end(s: Seq<char>) -> Seq<char> {
    s.take(last_below(s, not_ws(), s.len() as int) + 1)
}

/// `s` without its surrounding white space.
pub open spec fn trim(s: Seq<char>) -> Seq<char> {
    trim_end(trim_start(s))
}

/// How many leading characters of `s` are white space.
pub fn indent_of(s: &[char]) -> (r: usize)
    ensures
        r == first_from(s@, not_ws(), 0),
        r <= s@.len(),
        forall|j: int| 0 <= j < r ==> is_ws(s@[j]),
        r < s@.len() ==> !is_ws(s@[r as int]),
{
    let mut i: usize = 0;
    while i < s.len()
        invariant_except_break
            i <= s@.len(),
            first_from(s@, not_ws(), 0) == first_from(s@, not_ws(), i as int),
            forall|j: int| 0 <= j < i ==> is_ws(s@[j]),
        ensures
            i <= s@.len(),
            i == first_from(s@, not_ws(), 0),
            forall|j: int| 0 <= j < i ==> is_ws(s@[j]),
            i < s@.len() ==> !is_ws(s@[i as int]),
        decreases s@.len() - i,
    {
        if !char_is_ws(s[i]) {
            break;
        }
        i += 1;
    }
    i
}

pub fn trimmed_start<'a>(s: &'a [char]) -> (r: &'a [char])
    ensures
        r@ == trim_start(s@),
{
    let i: usize = indent_of(s);
    slice_subrange(s, i, s.len())
}

pub fn trimmed_end<'a>(s: &'a [char]) -> (r: &'a [char])
    ensures
        r@ == trim_end(s@),
{
    let mut n: usize = s.len();
    while n > 0
        invariant_except_break
            n <= s@.len(),
            last_below(s@, not_ws(), s@.len() as int) == last_below(s@, not_ws(), n as int),
        ensures
            n <= s@.len(),
            n == last_below(s@, not_ws(), s@.len() as int) + 1,
        decreases n,
    {
        if !char_is_ws(s[n - 1]) {
            break;
        }
        n -= 1;
    }
    slice_subrange(s, 0, n)
}

pub fn trimmed<'a>(s: &'a [char]) -> (r: &'a [char])
    ensures
        r@ == trim(s@),
{
    trimmed_end(trimmed_start(s))
}

// ── splitting ───────────────────────────────────────────────────────────────

/// One line of `s` from `a` up to the line feed (or the end) at `n`, without a
/// carriage return in front of that line feed.
pub open spec fn line_text(s: Seq<char>, a: int, n: int) -> Seq<char> {
    if n < s.len() && n > a && s[n - 1] == '\r' {
        s.subrange(a, n - 1)
    } else {
        s.subrange(a, n)
    }
}

/// The lines of `s` from position `a` on.
pub open spec fn lines_from(s: Seq<char>, a: int) -> Seq<Seq<char>>
    decreases s.len() - a,
    via lines_from_decreases
{
    if a < 0 || a >= s.len() {
        Seq::empty()
    } else {
        let n = first_from(s, eq_char('\n'), a);
        if n >= s.len() {
            seq![line_text(s, a, n)]
        } else {
            seq![line_text(s, a, n)] + lines_from(s, n + 1)
        }
    }
}

#[via_fn]
proof fn lines_from_decreases(s: Seq<char>, a: int) {
    if 0 <= a < s.len() {
        lemma_first_from(s, eq_char('\n'), a);
    }
}

/// The lines of `s`: the texts between line feeds, a carriage return before a
/// line feed dropped, and nothing behind a final line feed.
pub open spec fn lines(s: Seq<char>) -> Seq<Seq<char>> {
    lines_from(s, 0)
}

pub fn lines_of<'a>(s: &'a [char]) -> (r: Vec<&'a [char]>)
    ensures
        slices(r@) == lines(s@),
{
    let mut r: Vec<&'a [char]> = Vec::new();
    let mut a: usize = 0;
    while a < s.len()
        invariant
            a <= s@.len(),
            slices(r@) + lines_from(s@, a as int) =~= lines(s@),
        decreases s@.len() - a,
    {
        let n: usize = index_of_from(s, '\n', a);
        let end: usize = if n < s.len() && n > a && s[n - 1] == '\r' {
            n - 1
        } else {
            n
        };
        let piece = slice_subrange(s, a, end);
        let ghost before = slices(r@);
        r.push(piece);
        assert(slices(r@) =~= before.push(piece@));
        assert(piece@ == line_text(s@, a as int, n as int));
        if n >= s.len() {
            assert(slices(r@) =~= lines(s@));
            return r;
        }
        assert(slices(r@) + lines_from(s@, n + 1) =~= before + (seq![piece@] + lines_from(
            s@,
            n + 1,
        )));
        a = n + 1;
    }
    r
}

/// The pieces of `s` from position `a` on, between characters that satisfy `p`.
pub open spec fn split_from(s: Seq<char>, p: spec_fn(char) -> bool, a: int) -> Seq<Seq<char>>
    decreases s.len() - a,
    via split_from_decreases
{
    if a < 0 || a > s.len() {
        Seq::empty()
    } else {
        let n = first_from(s, p, a);
        if n >= s.len() {
            seq![s.subrange(a, s.len() as int)]
        } else {
            seq![s.subrange(a, n)] + split_from(s, p, n + 1)
        }
    }
}

#[via_fn]
proof fn split_from_decreases(s: Seq<char>, p: spec_fn(char) -> bool, a: int) {
    if 0 <= a <= s.len() {
        lemma_first_from(s, p, a);
    }
}

/// The pieces of `s` between occurrences of `c`.
pub open spec fn split(s: Seq<char>, c: char) -> Seq<Seq<char>> {
    split_from(s, eq_char(c), 0)
}

pub fn split_at_char<'a>(s: &'a [char], c: char) -> (r: Vec<&'a [char]>)
    ensures
        slices(r@) == split(s@, c),
        r@.len() >= 1,
{
    let mut r: Vec<&'a [char]> = Vec::new();
    let mut a: usize = 0;
    loop
        invariant
            a <= s@.len(),
            slices(r@) + split_from(s@, eq_char(c), a as int) =~= split(s@, c),
        decreases s@.len() - a,
    {
        let n: usize = index_of_from(s, c, a);
        let piece = slice_subrange(s, a, n);
        let ghost before = slices(r@);
        r.push(piece);
        assert(slices(r@) =~= before.push(piece@));
        if n >= s.len() {
            assert(slices(r@) =~= split(s@, c));
            return r;
        }
        assert(slices(r@) + split_from(s@, eq_char(c), n + 1) =~= before + (seq![piece@]
            + split_from(s@, eq_char(c), n + 1)));
        a = n + 1;
    }
}

/// The words of `s` from position `a` on: maximal runs without white space.
pub open spec fn words_from(s: Seq<char>, a: int) -> Seq<Seq<char>>
    decreases s.len() - a,
    via words_from_decreases
{
    if a < 0 || a >= s.len() {
        Seq::empty()
    } else {
        let b = first_from(s, not_ws(), a);
        if b >= s.len() {
            Seq::empty()
        } else {
            let n = first_from(s, ws(), b);
            seq![s.subrange(b, n)] + words_from(s, n)
        }
    }
}

#[via_fn]
proof fn words_from_decreases(s: Seq<char>, a: int) {
    if 0 <= a < s.len() {
        lemma_first_from(s, not_ws(), a);
        let b = first_from(s, not_ws(), a);
        if b < s.len() {
            lemma_first_from(s, ws(), b);
        }
    }
}

/// The words of `s`: maximal runs without white space.
pub open spec fn words(s: Seq<char>) -> Seq<Seq<char>> {
    words_from(s, 0)
}

pub fn words_of<'a>(s: &'a [char]) -> (r: Vec<&'a [char]>)
    ensures
        slices(r@) == words(s@),
{
    let mut r: Vec<&'a [char]> = Vec::new();
    let mut a: usize = 0;
    while a < s.len()
        invariant
            a <= s@.len(),
            slices(r@) + words_from(s@, a as int) =~= words(s@),
        decreases s@.len() - a,
    {
        let mut b: usize = a;
        while b < s.len()
            invariant_except_break
                a <= b <= s@.len(),
                first_from(s@, not_ws(), a as int) == first_from(s@, not_ws(), b as int),
            ensures
                a <= b <= s@.len(),
                first_from(s@, not_ws(), a as int) == b,
                b < s@.len() ==> !is_ws(s@[b as int]),
            decreases s@.len() - b,
        {
            if !char_is_ws(s[b]) {
                break;
            }
            b += 1;
        }
        if b >= s.len() {
            assert(slices(r@) =~= words(s@));
            return r;
        }
        let mut n: usize = b;
        while n < s.len()
            invariant_except_break
                b <= n <= s@.len(),
                first_from(s@, ws(), b as int) == first_from(s@, ws(), n as int),
            ensures
                b <= n <= s@.len(),
                first_from(s@, ws(), b as int) == n,
            decreases s@.len() - n,
        {
            if char_is_ws(s[n]) {
                break;
            }
            n += 1;
        }
        proof {
            lemma_first_from(s@, ws(), b as int);
            assert(!ws()(s@[b as int]));
        }
        let piece = slice_subrange(s, b, n);
        let ghost before = slices(r@);
        r.push(piece);
        assert(slices(r@) =~= before.push(piece@));
        assert(slices(r@) + words_from(s@, n as int) =~= before + (seq![piece@] + words_from(
            s@,
            n as int,
        )));
        a = n;
    }
    assert(words_from(s@, a as int) =~= Seq::empty());
    assert(slices(r@) =~= words(s@));
    r
}

/// The first word of `s`, empty where it has none.
pub open spec fn first_word(s: Seq<char>) -> Seq<char> {
    let t = trim_start(s);
    t.take(find_ws(t))
}

pub fn first_word_of<'a>(s: &'a [char]) -> (r: &'a [char])
    ensures
        r@ == first_word(s@),
{
    let t = trimmed_start(s);
    let n: usize = index_of_ws(t);
    slice_subrange(t, 0, n)
}

/// The texts joined with `sep` between them.
pub open spec fn join(v: Seq<Seq<char>>, sep: Seq<char>) -> Seq<char>
    decreases v.len(),
{
    if v.len() == 0 {
        Seq::empty()
    } else if v.len() == 1 {
        v[0]
    } else {
        join(v.drop_last(), sep) + sep + v.last()
    }
}

// ── numbers ─────────────────────────────────────────────────────────────────

/// The decimal digit `d`.
pub open spec fn digit(d: int) -> char {
    (48 + d) as char
}

/// The decimal numeral of `n`.
pub open spec fn dec(n: int) -> Seq<char>
    decreases n,
{
    if n < 10 {
        seq![digit(n)]
    } else {
        dec(n / 10).push(digit(n % 10))
    }
}

/// The decimal numeral of `n`, with a minus sign where it is negative.
pub open spec fn signed_dec(n: int) -> Seq<char> {
    if n < 0 {
        seq!['-'] + dec(-n)
    } else {
        dec(n)
    }
}

pub fn dec_of(n: u128) -> (r: Vec<char>)
    ensures
        r@ == dec(n as int),
    decreases n,
{
    let d: u8 = (n % 10) as u8;
    if n < 10 {
        let mut v: Vec<char> = Vec::new();
        v.push((48 + d) as char);
        assert(v@ =~= dec(n as int));
        v
    } else {
        let mut v = dec_of(n / 10);
        v.push((48 + d) as char);
        v
    }
}

pub fn signed_dec_of(n: i128) -> (r: Vec<char>)
    requires
        n > i128::MIN,
    ensures
        r@ == signed_dec(n as int),
{
    if n < 0 {
        let mut v: Vec<char> = Vec::new();
        v.push('-');
        let d = dec_of((-n) as u128);
        push_all(&mut v, &d);
        assert(v@ =~= signed_dec(n as int));
        v
    } else {
        dec_of(n as u128)
    }
}

/// The lower-case hexadecimal digit `d`.
pub open spec fn hex_digit(d: int) -> char {
    if d < 10 {
        (48 + d) as char
    } else {
        (87 + d) as char
    }
}

/// `n` in lower-case hexadecimal, without leading zeros.
pub open spec fn hex_plain(n: int) -> Seq<char>
    decreases n,
{
    if n < 16 {
        seq![hex_digit(n)]
    } else {
        hex_plain(n / 16).push(hex_digit(n % 16))
    }
}

pub fn hex_plain_of(n: u64) -> (r: Vec<char>)
    ensures
        r@ == hex_plain(n as int),
    decreases n,
{
    let mut v: Vec<char> = if n < 16 {
        Vec::new()
    } else {
        hex_plain_of(n / 16)
    };
    let d: u8 = (n % 16) as u8;
    if d < 10 {
        v.push((48 + d) as char);
    } else {
        v.push((87 + d) as char);
    }
    assert(v@ =~= hex_plain(n as int));
    v
}

/// The last `w` lower-case hexadecimal digits of `n`.
pub open spec fn hex(n: int, w: nat) -> Seq<char>
    decreases w,
{
    if w == 0 {
        Seq::empty()
    } else {
        hex(n / 16, (w - 1) as nat).push(hex_digit(n % 16))
    }
}

pub fn hex_of(n: u64, w: usize) -> (r: Vec<char>)
    ensures
        r@ == hex(n as int, w as nat),
    decreases w,
{
    if w == 0 {
        Vec::new()
    } else {
        let mut v = hex_of(n / 16, w - 1);
        let d: u8 = (n % 16) as u8;
        if d < 10 {
            v.push((48 + d) as char);
        } else {
            v.push((87 + d) as char);
        }
        v
    }
}

/// The value of `c` as a digit in base `radix` (up to 16); -1 where it is none.
pub open spec fn digit_value(c: char, radix: int) -> int {
    let d = if is_digit(c) {
        (c as int) - 48
    } else if 'a' <= c <= 'f' {
        (c as int) - 87
    } else if 'A' <= c <= 'F' {
        (c as int) - 55
    } else {
        -1
    };
    if d < radix {
        d
    } else {
        -1
    }
}

pub fn digit_value_of(c: char, radix: u32) -> (r: Option<u32>)
    requires
        2 <= radix <= 16,
    ensures
        r matches Some(d) ==> d == digit_value(c, radix as int) && d < radix,
        r is None ==> digit_value(c, radix as int) == -1,
{
    let n: u32 = c as u32;
    let d: u32 = if char_is_digit(c) {
        n - 48
    } else if 'a' <= c && c <= 'f' {
        n - 87
    } else if 'A' <= c && c <= 'F' {
        n - 55
    } else {
        return None;
    };
    if d < radix {
        Some(d)
    } else {
        None
    }
}

/// Whether `s` is a non-empty run of digits in base `radix`.
pub open spec fn all_digits(s: Seq<char>, radix: int) -> bool {
    s.len() > 0 && forall|i: int| 0 <= i < s.len() ==> digit_value(#[trigger] s[i], radix) >= 0
}

/// The number that the digits `s` write in base `radix`.
pub open spec fn number(s: Seq<char>, radix: int) -> int
    decreases s.len(),
{
    if s.len() == 0 {
        0
    } else {
        number(s.drop_last(), radix) * radix + digit_value(s.last(), radix)
    }
}

pub proof fn lemma_number_grows(s: Seq<char>, radix: int, i: int)
    requires
        radix >= 2,
        0 <= i <= s.len(),
        forall|j: int| 0 <= j < s.len() ==> digit_value(#[trigger] s[j], radix) >= 0,
    ensures
        0 <= number(s.take(i), radix) <= number(s, radix),
    decreases s.len(),
{
    if s.len() == 0 {
        assert(s.take(i) =~= s);
    } else if i == s.len() {
        assert(s.take(i) =~= s);
        lemma_number_grows(s.drop_last(), radix, s.len() - 1);
        assert(s.drop_last().take(s.len() - 1) =~= s.drop_last());
        let n = number(s.drop_last(), radix);
        assert(n * radix >= 0) by (nonlinear_arith)
            requires
                n >= 0,
                radix >= 2,
        ;
    } else {
        lemma_number_grows(s.drop_last(), radix, i);
        assert(s.drop_last().take(i) =~= s.take(i));
        let n = number(s.drop_last(), radix);
        assert(n * radix >= n) by (nonlinear_arith)
            requires
                n >= 0,
                radix >= 2,
        ;
        assert(digit_value(s[s.len() - 1], radix) >= 0);
    }
}

/// The value of the digits `s`, where it does not exceed `max`.
pub open spec fn parse_digits(s: Seq<char>, radix: int, max: int) -> Option<int> {
    if all_digits(s, radix) && number(s, radix) <= max {
        Some(number(s, radix))
    } else {
        None
    }
}

pub fn digits_value(s: &[char], radix: u32, max: u64) -> (r: Option<u64>)
    requires
        2 <= radix <= 16,
    ensures
        r matches Some(n) ==> parse_digits(s@, radix as int, max as int) == Some(n as int),
        r is None ==> parse_digits(s@, radix as int, max as int) is None,
{
    if s.len() == 0 {
        return None;
    }
    let mut n: u64 = 0;
    let mut i: usize = 0;
    while i < s.len()
        invariant
            2 <= radix <= 16,
            i <= s@.len(),
            n == number(s@.take(i as int), radix as int),
            n <= max,
            forall|j: int| 0 <= j < i ==> digit_value(#[trigger] s@[j], radix as int) >= 0,
        decreases s@.len() - i,
    {
        let d: u32 = match digit_value_of(s[i], radix) {
            Some(d) => d,
            None => {
                assert(digit_value(s@[i as int], radix as int) == -1);
                return None;
            },
        };
        assert(s@.take(i as int + 1).drop_last() =~= s@.take(i as int));
        assert(n as int * radix as int <= u64::MAX as int * 16) by (nonlinear_arith)
            requires
                n <= u64::MAX,
                radix <= 16,
                n >= 0,
                radix >= 0,
        ;
        assert(n as int * radix as int >= 0) by (nonlinear_arith)
            requires
                n >= 0,
                radix >= 0,
        ;
        let m: u128 = (n as u128) * (radix as u128) + (d as u128);
        assert(m == number(s@.take(i as int + 1), radix as int));
        if m > max as u128 {
            proof {
                if all_digits(s@, radix as int) {
                    lemma_number_grows(s@, radix as int, i as int + 1);
                }
            }
            return None;
        }
        n = m as u64;
        i += 1;
    }
    assert(s@.take(i as int) =~= s@);
    Some(n)
}

/// A signed 64-bit integer written in base `radix`, with an optional sign.
pub open spec fn parse_i64(s: Seq<char>, radix: int) -> Option<int> {
    if s.len() > 0 && s[0] == '-' {
        match parse_digits(s.skip(1), radix, 0x8000_0000_0000_0000) {
            Some(n) => Some(-n),
            None => None,
        }
    } else if s.len() > 0 && s[0] == '+' {
        parse_digits(s.skip(1), radix, i64::MAX as int)
    } else {
        parse_digits(s, radix, i64::MAX as int)
    }
}

pub fn i64_of(s: &[char], radix: u32) -> (r: Option<i64>)
    requires
        2 <= radix <= 16,
    ensures
        r matches Some(n) ==> parse_i64(s@, radix as int) == Some(n as int),
        r is None ==> parse_i64(s@, radix as int) is None,
{
    if s.len() > 0 && s[0] == '-' {
        match digits_value(slice_subrange(s, 1, s.len()), radix, 0x8000_0000_0000_0000) {
            Some(n) => Some((-(n as i128)) as i64),
            None => None,
        }
    } else {
        let body = if s.len() > 0 && s[0] == '+' {
            slice_subrange(s, 1, s.len())
        } else {
            s
        };
        match digits_value(body, radix, 0x7fff_ffff_ffff_ffff) {
            Some(n) => Some(n as i64),
            None => None,
        }
    }
}

/// An unsigned integer up to `max` written in decimal, with an optional `+`.
pub open spec fn parse_unsigned(s: Seq<char>, max: int) -> Option<int> {
    if s.len() > 0 && s[0] == '+' {
        parse_digits(s.skip(1), 10, max)
    } else {
        parse_digits(s, 10, max)
    }
}

pub fn unsigned_of(s: &[char], max: u64) -> (r: Option<u64>)
    ensures
        r matches Some(n) ==> parse_unsigned(s@, max as int) == Some(n as int) && n <= max,
        r is None ==> parse_unsigned(s@, max as int) is None,
{
    if s.len() > 0 && s[0] == '+' {
        digits_value(slice_subrange(s, 1, s.len()), 10, max)
    } else {
        digits_value(s, 10, max)
    }
}

// ── UTF-8 widths ────────────────────────────────────────────────────────────

/// How many bytes UTF-8 takes for `c`.
pub open spec fn width(c: char) -> nat {
    let n = c as int;
    if n < 0x80 {
        1
    } else if n < 0x800 {
        2
    } else if n < 0x10000 {
        3
    } else {
        4
    }
}

/// How many bytes UTF-8 takes for `s`.
pub open spec fn byte_len(s: Seq<char>) -> nat
    decreases s.len(),
{
    if s.len() == 0 {
        0
    } else {
        width(s[0]) + byte_len(s.drop_first())
    }
}

pub proof fn lemma_byte_len_concat(a: Seq<char>, b: Seq<char>)
    ensures
        byte_len(a + b) == byte_len(a) + byte_len(b),
    decreases a.len(),
{
    if a.len() == 0 {
        assert(a + b =~= b);
    } else {
        lemma_byte_len_concat(a.drop_first(), b);
        assert((a + b).drop_first() =~= a.drop_first() + b);
    }
}

pub proof fn lemma_byte_len_push(a: Seq<char>, c: char)
    ensures
        byte_len(a.push(c)) == byte_len(a) + width(c),
{
    lemma_byte_len_concat(a, seq![c]);
    assert(a + seq![c] =~= a.push(c));
    assert(seq![c].drop_first() =~= Seq::empty());
    assert(byte_len(Seq::<char>::empty()) == 0);
    assert(byte_len(seq![c]) == width(c));
}

/// A text has at least as many bytes as characters, and at most four per
/// character.
pub proof fn lemma_byte_len_bounds(a: Seq<char>)
    ensures
        a.len() <= byte_len(a) <= 4 * a.len(),
    decreases a.len(),
{
    if a.len() > 0 {
        lemma_byte_len_bounds(a.drop_first());
    }
}

/// The bytes up to a position grow with the position.
pub proof fn lemma_byte_len_take(a: Seq<char>, i: int, j: int)
    requires
        0 <= i <= j <= a.len(),
    ensures
        byte_len(a.take(i)) + (j - i) <= byte_len(a.take(j)),
        byte_len(a.take(j)) == byte_len(a.take(i)) + byte_len(a.subrange(i, j)),
        byte_len(a.take(j)) <= byte_len(a),
{
    assert(a.take(j) =~= a.take(i) + a.subrange(i, j));
    lemma_byte_len_concat(a.take(i), a.subrange(i, j));
    lemma_byte_len_bounds(a.subrange(i, j));
    assert(a =~= a.take(j) + a.skip(j));
    lemma_byte_len_concat(a.take(j), a.skip(j));
}

/// `byte_len` is the length of the UTF-8 encoding.
pub proof fn lemma_byte_len_is_utf8(s: Seq<char>)
    ensures
        byte_len(s) == encode_utf8(s).len(),
    decreases s.len(),
{
    if s.len() > 0 {
        lemma_byte_len_is_utf8(s.drop_first());
        lemma_width_is_utf8(s[0]);
    }
}

proof fn lemma_width_is_utf8(c: char)
    ensures
        encode_scalar(c as u32).len() == width(c),
{
    char_is_scalar(c);
}

/// The length of `s` in bytes.
pub fn bytes_in(s: &str) -> (r: usize)
    ensures
        r == byte_len(s@),
{
    proof {
        lemma_byte_len_is_utf8(s@);
    }
    s.as_bytes().len()
}

pub fn char_width(c: char) -> (r: usize)
    ensures
        r == width(c),
        1 <= r <= 4,
{
    let n: u32 = c as u32;
    if n < 0x80 {
        1
    } else if n < 0x800 {
        2
    } else if n < 0x10000 {
        3
    } else {
        4
    }
}

/// A part of a text has no more bytes than the text.
pub proof fn lemma_byte_len_part(a: Seq<char>, i: int, j: int)
    requires
        0 <= i <= j <= a.len(),
    ensures
        byte_len(a.subrange(i, j)) <= byte_len(a),
{
    lemma_byte_len_take(a, i, j);
}

proof fn lemma_lines_bytes_from(s: Seq<char>, a: int)
    requires
        0 <= a <= s.len(),
    ensures
        forall|i: int|
            0 <= i < lines_from(s, a).len() ==> byte_len(#[trigger] lines_from(s, a)[i])
                <= byte_len(s),
    decreases s.len() - a,
{
    if a < s.len() {
        lemma_first_from(s, eq_char('\n'), a);
        let n = first_from(s, eq_char('\n'), a);
        lemma_byte_len_part(s, a, n);
        if n > a {
            lemma_byte_len_part(s, a, n - 1);
        }
        let v = lines_from(s, a);
        if n < s.len() {
            lemma_lines_bytes_from(s, n + 1);
            assert forall|i: int| 0 <= i < v.len() implies byte_len(#[trigger] v[i]) <= byte_len(
                s,
            ) by {
                if i > 0 {
                    assert(v[i] == lines_from(s, n + 1)[i - 1]);
                }
            }
        }
    }
}

/// No line has more bytes than the whole text.
pub proof fn lemma_lines_bytes(s: Seq<char>)
    ensures
        forall|i: int| 0 <= i < lines(s).len() ==> byte_len(#[trigger] lines(s)[i]) <= byte_len(s),
{
    lemma_lines_bytes_from(s, 0);
}

/// How many bytes the first `n` characters of `s` take.
pub fn byte_offset(s: &[char], n: usize) -> (r: usize)
    requires
        n <= s@.len(),
        byte_len(s@) <= usize::MAX,
    ensures
        r == byte_len(s@.take(n as int)),
        r <= byte_len(s@),
{
    let mut i: usize = 0;
    let mut b: usize = 0;
    assert(s@.take(0) =~= Seq::empty());
    while i < n
        invariant
            i <= n <= s@.len(),
            byte_len(s@) <= usize::MAX,
            b == byte_len(s@.take(i as int)),
        decreases n - i,
    {
        proof {
            lemma_byte_len_take(s@, i as int, i as int + 1);
            assert(s@.take(i as int + 1) =~= s@.take(i as int).push(s@[i as int]));
            lemma_byte_len_push(s@.take(i as int), s@[i as int]);
        }
        b += char_width(s[i]);
        i += 1;
    }
    proof {
        lemma_byte_len_take(s@, n as int, n as int);
    }
    b
}

/// Append the decimal numeral of `n`.
pub fn push_dec(m: &mut String, n: i128)
    requires
        n > i128::MIN,
    ensures
        final(m)@ == old(m)@ + signed_dec(n as int),
{
    let d = signed_dec_of(n);
    let t = string_of(&d);
    m.append(t.as_str());
}

/// Append the characters of `s` to a string.
pub fn push_text(m: &mut String, s: &[char])
    ensures
        final(m)@ == old(m)@ + s@,
{
    let t = string_of(s);
    m.append(t.as_str());
}

// ── replacing ───────────────────────────────────────────────────────────────

/// Whether `p` occurs in `s` at `i`.
pub fn text_at(s: &[char], p: &[char], i: usize) -> (r: bool)
    requires
        i <= s@.len(),
    ensures
        r == occurs_at(s@, p@, i as int),
{
    if p.len() > s.len() - i {
        return false;
    }
    let part = slice_subrange(s, i, i + p.len());
    assert(part@ =~= s@.subrange(i as int, i + p@.len()));
    same(part, p)
}

/// `n` spaces.
pub open spec fn spaces(n: int) -> Seq<char> {
    Seq::new(
        if n > 0 {
            n as nat
        } else {
            0
        },
        |i: int| ' ',
    )
}

/// `s`, with spaces behind it up to the width `w`.
pub open spec fn pad_right(s: Seq<char>, w: int) -> Seq<char> {
    s + spaces(w - s.len())
}

/// `s`, with spaces before it up to the width `w`.
pub open spec fn pad_left(s: Seq<char>, w: int) -> Seq<char> {
    spaces(w - s.len()) + s
}

fn push_spaces(m: &mut String, n: usize)
    ensures
        final(m)@ == old(m)@ + spaces(n as int),
{
    let ghost before = m@;
    let mut i: usize = 0;
    while i < n
        invariant
            i <= n,
            m@ =~= before + spaces(i as int),
        decreases n - i,
    {
        m.push(' ');
        i += 1;
    }
}

/// Appends `s` with spaces behind it up to the width `w`.
pub fn push_padded(m: &mut String, s: &str, w: usize)
    ensures
        final(m)@ == old(m)@ + pad_right(s@, w as int),
{
    let ghost before = m@;
    let n: usize = chars_of(s).len();
    m.append(s);
    if n < w {
        push_spaces(m, w - n);
    }
    assert(m@ =~= before + pad_right(s@, w as int));
}

/// Appends `s` with spaces before it up to the width `w`.
pub fn push_right(m: &mut String, s: &str, w: usize)
    ensures
        final(m)@ == old(m)@ + pad_left(s@, w as int),
{
    let ghost before = m@;
    let n: usize = chars_of(s).len();
    if n < w {
        push_spaces(m, w - n);
    }
    m.append(s);
    assert(m@ =~= before + pad_left(s@, w as int));
}

/// A number as text.
pub fn number_text(n: i128) -> (r: String)
    requires
        n > i128::MIN,
    ensures
        r@ == signed_dec(n as int),
{
    let d = signed_dec_of(n);
    string_of(&d)
}

/// `s` from `i` on, with each occurrence of `p` replaced by `with`, from left to
/// right.
pub open spec fn replace_from(s: Seq<char>, p: Seq<char>, with: Seq<char>, i: int) -> Seq<char>
    decreases s.len() - i,
{
    if i >= s.len() {
        Seq::empty()
    } else if p.len() > 0 && occurs_at(s, p, i) {
        with + replace_from(s, p, with, i + p.len())
    } else {
        seq![s[i]] + replace_from(s, p, with, i + 1)
    }
}

/// `s` with each occurrence of `p` replaced by `with`.
pub open spec fn replace(s: Seq<char>, p: Seq<char>, with: Seq<char>) -> Seq<char> {
    replace_from(s, p, with, 0)
}

pub fn replace_text(s: &[char], p: &str, with: &str) -> (r: Vec<char>)
    ensures
        r@ == replace(s@, p@, with@),
{
    let pc = chars_of(p);
    let wc = chars_of(with);
    let mut r: Vec<char> = Vec::new();
    let n: usize = s.len();
    let m: usize = pc.len();
    let mut i: usize = 0;
    assert(r@ + replace_from(s@, p@, with@, 0) =~= replace(s@, p@, with@));
    while i < n
        invariant
            n == s@.len(),
            m == pc@.len(),
            pc@ == p@,
            wc@ == with@,
            i <= n,
            r@ + replace_from(s@, p@, with@, i as int) =~= replace(s@, p@, with@),
        decreases n - i,
    {
        let ghost before = r@;
        if m > 0 && text_at(s, &pc, i) {
            push_all(&mut r, &wc);
            let ghost rest = replace_from(s@, p@, with@, i + m);
            assert(before + with@ + rest =~= before + (with@ + rest));
            i += m;
        } else {
            r.push(s[i]);
            let ghost rest = replace_from(s@, p@, with@, i + 1);
            assert(before.push(s@[i as int]) + rest =~= before + (seq![s@[i as int]] + rest));
            i += 1;
        }
    }
    assert(r@ + Seq::<char>::empty() =~= r@);
    r
}

// ── lists of strings ────────────────────────────────────────────────────────

/// The view of an optional string.
pub open spec fn opt_text(o: Option<String>) -> Option<Seq<char>> {
    match o {
        Some(s) => Some(s@),
        None => None,
    }
}

/// The view of an optional borrowed string.
pub open spec fn opt_str(o: Option<&str>) -> Option<Seq<char>> {
    match o {
        Some(s) => Some(s@),
        None => None,
    }
}

pub fn copy_opt(o: &Option<String>) -> (r: Option<String>)
    ensures
        opt_text(r) == opt_text(*o),
{
    match o {
        Some(s) => Some(s.clone()),
        None => None,
    }
}

pub fn own_opt(o: Option<&str>) -> (r: Option<String>)
    ensures
        opt_text(r) == opt_str(o),
{
    match o {
        Some(s) => Some(s.to_owned()),
        None => None,
    }
}

/// Append copies of the strings `v`.
pub fn append_strings(out: &mut Vec<String>, v: &[String])
    ensures
        strings(final(out)@) == strings(old(out)@) + strings(v@),
{
    let ghost before = strings(out@);
    let mut i: usize = 0;
    while i < v.len()
        invariant
            i <= v@.len(),
            strings(out@) =~= before + strings(v@).take(i as int),
        decreases v@.len() - i,
    {
        let ghost had = strings(out@);
        out.push(v[i].clone());
        assert(strings(out@) =~= had.push(v@[i as int]@));
        i += 1;
    }
    assert(strings(v@).take(i as int) =~= strings(v@));
}

pub fn copy_strings(v: &[String]) -> (r: Vec<String>)
    ensures
        strings(r@) == strings(v@),
{
    let mut r: Vec<String> = Vec::new();
    append_strings(&mut r, v);
    assert(strings(Seq::<String>::empty()) + strings(v@) =~= strings(v@));
    r
}

/// The strings `v` joined with `sep` between them.
pub fn join_strings(v: &[String], sep: &str) -> (r: String)
    ensures
        r@ == join(strings(v@), sep@),
{
    let ghost all = strings(v@);
    let mut r = "".to_owned();
    proof {
        reveal_strlit("");
    }
    assert(r@ =~= Seq::empty());
    let mut i: usize = 0;
    while i < v.len()
        invariant
            all == strings(v@),
            i <= v@.len(),
            r@ == join(all.take(i as int), sep@),
        decreases v@.len() - i,
    {
        let ghost part = all.take(i + 1);
        assert(part.drop_last() =~= all.take(i as int));
        if i > 0 {
            r.append(sep);
        }
        r.append(v[i].as_str());
        if i == 0 {
            assert(part[0] == v@[0]@);
            assert(r@ =~= v@[0]@);
        }
        i += 1;
    }
    assert(all.take(all.len() as int) =~= all);
    r
}

// ── byte positions ──────────────────────────────────────────────────────────

/// The byte position of the character position `n` in `s`.
pub open spec fn offset_of(s: Seq<char>, n: int) -> int {
    byte_len(s.take(n)) as int
}

/// How many whole characters of `s` lie in its first `b` bytes.
pub open spec fn index_at(s: Seq<char>, b: int) -> int
    decreases s.len(),
{
    if s.len() == 0 || width(s[0]) > b {
        0
    } else {
        1 + index_at(s.drop_first(), b - width(s[0]))
    }
}

/// `b` is a position between two characters of `s`, or one of its ends.
pub open spec fn on_boundary(s: Seq<char>, b: int) -> bool {
    0 <= b && offset_of(s, index_at(s, b)) == b
}

pub proof fn lemma_index_at(s: Seq<char>, b: int)
    requires
        0 <= b,
    ensures
        0 <= index_at(s, b) <= s.len(),
        offset_of(s, index_at(s, b)) <= b,
        index_at(s, b) < s.len() ==> offset_of(s, index_at(s, b) + 1) > b,
    decreases s.len(),
{
    if s.len() == 0 || width(s[0]) > b {
        assert(s.take(0) =~= Seq::empty());
        if s.len() > 0 {
            assert(s.take(1) =~= Seq::empty().push(s[0]));
            lemma_byte_len_push(Seq::empty(), s[0]);
        }
    } else {
        let t = s.drop_first();
        let c = b - width(s[0]);
        lemma_index_at(t, c);
        let n = index_at(t, c);
        assert(s.take(n + 1).drop_first() =~= t.take(n));
        assert(s.take(n + 1)[0] == s[0]);
        if n < t.len() {
            assert(s.take(n + 2).drop_first() =~= t.take(n + 1));
            assert(s.take(n + 2)[0] == s[0]);
        }
    }
}

/// The position of a character position is a boundary, and leads back.
pub proof fn lemma_index_of_offset(s: Seq<char>, n: int)
    requires
        0 <= n <= s.len(),
    ensures
        index_at(s, offset_of(s, n)) == n,
        on_boundary(s, offset_of(s, n)),
        offset_of(s, n) <= byte_len(s),
{
    let b = offset_of(s, n);
    lemma_index_at(s, b);
    let m = index_at(s, b);
    lemma_byte_len_take(s, n, n);
    if m < n {
        lemma_byte_len_take(s, m + 1, n);
    }
    if m > n {
        lemma_byte_len_take(s, n, m);
    }
}

/// The end of a text is the position of its last character position.
pub proof fn lemma_offset_of_end(s: Seq<char>)
    ensures
        offset_of(s, s.len() as int) == byte_len(s),
        offset_of(s, 0) == 0,
        index_at(s, byte_len(s) as int) == s.len(),
        index_at(s, 0) == 0,
        on_boundary(s, 0),
        on_boundary(s, byte_len(s) as int),
{
    assert(s.take(s.len() as int) =~= s);
    assert(s.take(0) =~= Seq::empty());
    lemma_index_of_offset(s, s.len() as int);
    lemma_index_of_offset(s, 0);
}

/// A later character position has a later byte position.
pub proof fn lemma_offset_grows(s: Seq<char>, i: int, j: int)
    requires
        0 <= i <= j <= s.len(),
    ensures
        offset_of(s, i) <= offset_of(s, j) <= byte_len(s),
        i < j ==> offset_of(s, i) < offset_of(s, j),
{
    lemma_byte_len_take(s, i, j);
}

/// How many whole characters of `s` lie in its first `b` bytes.
pub fn char_index(s: &[char], b: usize) -> (r: usize)
    ensures
        r == index_at(s@, b as int),
        r <= s@.len(),
{
    let mut i: usize = 0;
    let mut left: usize = b;
    assert(s@.skip(0) =~= s@);
    while i < s.len()
        invariant
            i <= s@.len(),
            index_at(s@, b as int) == i + index_at(s@.skip(i as int), left as int),
        decreases s@.len() - i,
    {
        assert(s@.skip(i as int)[0] == s@[i as int]);
        assert(s@.skip(i as int).drop_first() =~= s@.skip(i + 1));
        let w: usize = char_width(s[i]);
        if w > left {
            return i;
        }
        left -= w;
        i += 1;
    }
    assert(s@.skip(i as int).len() == 0);
    i
}

} // verus!
