//! Data: MASM-style definitions (`[label] TYPE value, …`) and raw string blocks,
//! lowered to the encoder's directives.
use crate::text;
use crate::was::calls;
use crate::was::lex;
use crate::was::operands;
use crate::text::{
    char_code, chars_of, digits_value, i64_of, index_of_text, index_of_ws, is, is_ignoring_case,
    last_index_of, push_all, push_str, push_text, signed_dec_of, string_of, to_lower, to_upper,
    trimmed, trimmed_start, unsigned_of, without_prefix,
};
use crate::was::lex::{all_ident, split_top_commas};
use crate::was::operands::resolve_operands;
use crate::winkb::kb::Kb;
use vstd::prelude::*;
use vstd::slice::slice_subrange;

verus! {

// ── recognising a definition ────────────────────────────────────────────────

/// A data-type keyword, in any case: the encoder directive, the width in bytes,
/// and whether strings are encoded as UTF-16.
pub open spec fn data_kind(kw: Seq<char>) -> Option<(Seq<char>, int, bool)> {
    let u = text::upper_all(kw);
    if u == "BYTE"@ || u == "SBYTE"@ || u == "DB"@ {
        Some(("byte"@, 1, false))
    } else if u == "WORD"@ || u == "SWORD"@ || u == "DW"@ {
        Some(("word"@, 2, false))
    } else if u == "WCHAR"@ {
        Some(("word"@, 2, true))
    } else if u == "DWORD"@ || u == "SDWORD"@ || u == "DD"@ {
        Some(("long"@, 4, false))
    } else if u == "QWORD"@ || u == "SQWORD"@ || u == "DQ"@ {
        Some(("quad"@, 8, false))
    } else {
        None
    }
}

/// Map a MASM data-type keyword to `(encoder directive, width in bytes, wide)`.
pub fn data_type(kw: &[char]) -> (r: Option<(&'static str, usize, bool)>)
    ensures
        (match r {
            Some((d, w, x)) => Some((d@, w as int, x)),
            None => None,
        }) == data_kind(kw@),
        r matches Some((d, w, x)) ==> w == 1 || w == 2 || w == 4 || w == 8,
{
    let u = to_upper(kw);
    if is(&u, "BYTE") || is(&u, "SBYTE") || is(&u, "DB") {
        Some(("byte", 1, false))
    } else if is(&u, "WORD") || is(&u, "SWORD") || is(&u, "DW") {
        Some(("word", 2, false))
    } else if is(&u, "WCHAR") {
        Some(("word", 2, true))
    } else if is(&u, "DWORD") || is(&u, "SDWORD") || is(&u, "DD") {
        Some(("long", 4, false))
    } else if is(&u, "QWORD") || is(&u, "SQWORD") || is(&u, "DQ") {
        Some(("quad", 8, false))
    } else {
        None
    }
}

/// The text up to the first white space, and what follows it, left-trimmed.
pub open spec fn first_and_rest(s: Seq<char>) -> (Seq<char>, Seq<char>) {
    let w = text::find_ws(s);
    if w < s.len() {
        (s.take(w), text::trim_start(s.skip(w + 1)))
    } else {
        (s, Seq::empty())
    }
}

pub fn split_first<'a>(s: &'a [char]) -> (r: (&'a [char], &'a [char]))
    ensures
        (r.0@, r.1@) == first_and_rest(s@),
{
    let w: usize = index_of_ws(s);
    if w < s.len() {
        (slice_subrange(s, 0, w), trimmed_start(slice_subrange(s, w + 1, s.len())))
    } else {
        let e = slice_subrange(s, 0, 0);
        assert(e@ =~= Seq::empty());
        (s, e)
    }
}

/// `[ … ]` or `PTR …`: a size-prefixed memory operand, not a data value.
pub open spec fn operand_like(v: Seq<char>) -> bool {
    let t = text::trim_start(v);
    t.len() > 0 && t[0] == '[' || t.len() >= 3 && text::same_ignoring_case(t.take(3), "ptr"@)
}

pub fn value_is_operand(v: &[char]) -> (r: bool)
    ensures
        r == operand_like(v@),
{
    let t = trimmed_start(v);
    (t.len() > 0 && t[0] == '[') || (t.len() >= 3 && is_ignoring_case(
        slice_subrange(t, 0, 3),
        "ptr",
    ))
}

/// A data definition: its label if it has one, its type keyword and its values.
pub struct DataLine {
    pub label: Option<Seq<char>>,
    pub kw: Seq<char>,
    pub values: Seq<char>,
}

/// The data definition `[label] TYPE value, …`, if `t` is one. The values must
/// not begin with `[` or `PTR`, so that an instruction's size prefix is never
/// mistaken for data.
pub open spec fn data_line(t: Seq<char>) -> Option<DataLine> {
    let (w0, rest0) = first_and_rest(t);
    let (w1, rest1) = first_and_rest(rest0);
    if data_kind(w0) is Some && rest0.len() > 0 && !operand_like(rest0) {
        Some(DataLine { label: None, kw: w0, values: rest0 })
    } else if data_kind(w1) is Some && w0.len() > 0 && lex::ident_chars(w0) && rest1.len() > 0
        && !operand_like(rest1) {
        Some(DataLine { label: Some(w0), kw: w1, values: rest1 })
    } else {
        None
    }
}

/// The view of a recognised data definition.
pub open spec fn data_line_view(r: Option<(Option<&[char]>, &[char], &[char])>) -> Option<
    DataLine,
> {
    match r {
        Some((l, k, v)) => Some(DataLine { label: text::opt(l), kw: k@, values: v@ }),
        None => None,
    }
}

/// Detect a data definition `[label] TYPE value, …`: `(label, keyword, values)`.
pub fn parse_data_line<'a>(t: &'a [char]) -> (r: Option<
    (Option<&'a [char]>, &'a [char], &'a [char]),
>)
    ensures
        data_line_view(r) == data_line(t@),
{
    let (w0, rest0) = split_first(t);
    if data_type(w0).is_some() && rest0.len() > 0 && !value_is_operand(rest0) {
        return Some((None, w0, rest0));
    }
    let (w1, rest1) = split_first(rest0);
    if data_type(w1).is_some() && w0.len() > 0 && all_ident(w0) && rest1.len() > 0
        && !value_is_operand(rest1) {
        return Some((Some(w0), w1, rest1));
    }
    None
}

// ── values ──────────────────────────────────────────────────────────────────

/// `N dup(value)`: the count and the value.
pub open spec fn dup_value(v: Seq<char>) -> Option<(int, Seq<char>)> {
    let pos = text::find_text(text::lower_all(v), "dup("@);
    if pos < 0 {
        None
    } else {
        let inner = v.skip(pos + 4);
        let close = text::rfind(inner, ')');
        match text::parse_unsigned(text::trim(v.take(pos)), usize::MAX as int) {
            Some(n) => if close >= 0 {
                Some((n, text::trim(inner.take(close))))
            } else {
                None
            },
            None => None,
        }
    }
}

pub fn parse_dup<'a>(v: &'a [char]) -> (r: Option<(u64, &'a [char])>)
    ensures
        (match r {
            Some((n, t)) => Some((n as int, t@)),
            None => None,
        }) == dup_value(v@),
{
    let l = to_lower(v);
    let pat = chars_of("dup(");
    proof {
        reveal_strlit("dup(");
    }
    match index_of_text(&l, &pat) {
        Some(pos) => {
            let size: usize = v.len();
            assert(pos + 4 <= size);
            let n: u64 = match unsigned_of(trimmed(slice_subrange(v, 0, pos)), usize::MAX as u64) {
                Some(n) => n,
                None => return None,
            };
            let inner = slice_subrange(v, pos + 4, size);
            match last_index_of(inner, ')') {
                Some(close) => Some((n, trimmed(slice_subrange(inner, 0, close)))),
                None => None,
            }
        },
        None => None,
    }
}

/// `s` without the quotes it starts and ends with.
pub open spec fn unquoted(s: Seq<char>) -> Seq<char> {
    let not_quote = |c: char| c != '"';
    let a = s.skip(text::first_from(s, not_quote, 0));
    a.take(text::last_below(a, not_quote, a.len() as int) + 1)
}

/// The character that the escape `\c` stands for.
pub open spec fn escape_char(c: char) -> char {
    if c == 'n' {
        '\n'
    } else if c == 'r' {
        '\r'
    } else if c == 't' {
        '\t'
    } else if c == '0' {
        '\0'
    } else {
        c
    }
}

/// `s` from `i` on with its escapes processed.
pub open spec fn unescape_from(s: Seq<char>, i: int) -> Seq<char>
    decreases s.len() - i,
{
    if i >= s.len() {
        Seq::empty()
    } else if s[i] != '\\' {
        seq![s[i]] + unescape_from(s, i + 1)
    } else if i + 1 < s.len() {
        seq![escape_char(s[i + 1])] + unescape_from(s, i + 2)
    } else {
        Seq::empty()
    }
}

/// The content of a `"…"` string with basic escapes processed.
pub open spec fn string_value(quoted: Seq<char>) -> Seq<char> {
    unescape_from(unquoted(text::trim(quoted)), 0)
}

fn without_quotes<'a>(s: &'a [char]) -> (r: &'a [char])
    ensures
        r@ == unquoted(s@),
{
    let ghost p = |c: char| c != '"';
    let mut i: usize = 0;
    while i < s.len()
        invariant_except_break
            p == (|c: char| c != '"'),
            i <= s@.len(),
            text::first_from(s@, p, 0) == text::first_from(s@, p, i as int),
        ensures
            i <= s@.len(),
            i == text::first_from(s@, p, 0),
        decreases s@.len() - i,
    {
        if s[i] != '"' {
            break;
        }
        i += 1;
    }
    let a = slice_subrange(s, i, s.len());
    let mut n: usize = a.len();
    while n > 0
        invariant_except_break
            p == (|c: char| c != '"'),
            n <= a@.len(),
            text::last_below(a@, p, a@.len() as int) == text::last_below(a@, p, n as int),
        ensures
            n <= a@.len(),
            n == text::last_below(a@, p, a@.len() as int) + 1,
        decreases n,
    {
        if a[n - 1] != '"' {
            break;
        }
        n -= 1;
    }
    slice_subrange(a, 0, n)
}

/// The content of a `"…"` string with basic escapes processed (for wide strings;
/// narrow strings go through the encoder's `.ascii`, which handles its own).
pub fn string_content(quoted: &[char]) -> (r: Vec<char>)
    ensures
        r@ == string_value(quoted@),
{
    let s = without_quotes(trimmed(quoted));
    let mut out: Vec<char> = Vec::new();
    let mut i: usize = 0;
    while i < s.len()
        invariant
            i <= s@.len(),
            unescape_from(s@, 0) == string_value(quoted@),
            out@ + unescape_from(s@, i as int) =~= unescape_from(s@, 0),
        decreases s@.len() - i,
    {
        let ghost before = out@;
        let c = s[i];
        if c != '\\' {
            out.push(c);
            assert(out@ + unescape_from(s@, i + 1) =~= before + (seq![c] + unescape_from(
                s@,
                i + 1,
            )));
            i += 1;
        } else if i + 1 < s.len() {
            let d = s[i + 1];
            let e = if d == 'n' {
                '\n'
            } else if d == 'r' {
                '\r'
            } else if d == 't' {
                '\t'
            } else if d == '0' {
                '\0'
            } else {
                d
            };
            out.push(e);
            assert(out@ + unescape_from(s@, i + 2) =~= before + (seq![e] + unescape_from(
                s@,
                i + 2,
            )));
            i += 2;
        } else {
            assert(unescape_from(s@, i as int) =~= Seq::empty());
            assert(out@ =~= unescape_from(s@, 0));
            return out;
        }
    }
    assert(out@ =~= unescape_from(s@, 0));
    out
}

/// The UTF-16 code units of `c`.
pub open spec fn utf16_units(c: char) -> Seq<int> {
    let n = c as int;
    if n < 0x10000 {
        seq![n]
    } else {
        seq![0xd800 + (n - 0x10000) / 0x400, 0xdc00 + (n - 0x10000) % 0x400]
    }
}

/// The UTF-16 code units of `s`.
pub open spec fn utf16(s: Seq<char>) -> Seq<int>
    decreases s.len(),
{
    if s.len() == 0 {
        Seq::empty()
    } else {
        utf16(s.drop_last()) + utf16_units(s.last())
    }
}

/// The numbers of `v` in decimal, separated by `, `.
pub open spec fn number_list(v: Seq<int>) -> Seq<char>
    decreases v.len(),
{
    if v.len() == 0 {
        Seq::empty()
    } else if v.len() == 1 {
        text::signed_dec(v[0])
    } else {
        number_list(v.drop_last()) + ", "@ + text::signed_dec(v.last())
    }
}

/// The views of a list of code units.
pub open spec fn units_view(v: Seq<u32>) -> Seq<int> {
    Seq::new(v.len(), |i: int| v[i] as int)
}

pub fn utf16_of(s: &[char]) -> (r: Vec<u32>)
    ensures
        units_view(r@) == utf16(s@),
{
    let mut r: Vec<u32> = Vec::new();
    let mut i: usize = 0;
    assert(units_view(r@) =~= Seq::empty());
    while i < s.len()
        invariant
            i <= s@.len(),
            units_view(r@) == utf16(s@.take(i as int)),
        decreases s@.len() - i,
    {
        assert(s@.take(i as int + 1).drop_last() =~= s@.take(i as int));
        let ghost before = units_view(r@);
        let n: u32 = char_code(s[i]);
        if n < 0x10000 {
            r.push(n);
        } else {
            r.push(0xd800 + (n - 0x10000) / 0x400);
            r.push(0xdc00 + (n - 0x10000) % 0x400);
        }
        assert(units_view(r@) =~= before + utf16_units(s@[i as int]));
        i += 1;
    }
    assert(s@.take(s@.len() as int) =~= s@);
    r
}

pub fn number_list_of(v: &Vec<u32>) -> (r: Vec<char>)
    ensures
        r@ == number_list(units_view(v@)),
{
    let ghost all = units_view(v@);
    let mut r: Vec<char> = Vec::new();
    let mut i: usize = 0;
    while i < v.len()
        invariant
            all == units_view(v@),
            i <= v@.len(),
            r@ == number_list(all.take(i as int)),
        decreases v@.len() - i,
    {
        assert(all.take(i as int + 1).drop_last() =~= all.take(i as int));
        let d = signed_dec_of(v[i] as i128);
        if i > 0 {
            push_str(&mut r, ", ");
            push_all(&mut r, &d);
        } else {
            r = d;
        }
        i += 1;
    }
    assert(all.take(all.len() as int) =~= all);
    r
}

/// `t`, `n` times.
pub open spec fn repeated(t: Seq<char>, n: nat) -> Seq<char>
    decreases n,
{
    if n == 0 {
        Seq::empty()
    } else {
        repeated(t, (n - 1) as nat) + t
    }
}

/// One value of a data definition as directive lines. `?` reserves a field, a
/// string becomes `.ascii` (in a byte field) or UTF-16 words (in a wide one),
/// `N dup(v)` repeats, and anything else is resolved.
pub open spec fn value_text(
    kb: &Kb,
    labels: Seq<Seq<char>>,
    kw: Seq<char>,
    kind: (Seq<char>, int, bool),
    val: Seq<char>,
) -> Result<Seq<char>, Seq<char>> {
    let v = text::trim(val);
    let (dir, width, wide) = kind;
    if v.len() == 0 {
        Ok(Seq::empty())
    } else if v == "?"@ {
        Ok("  .zero "@ + text::signed_dec(width) + "\n"@)
    } else if v[0] == '"' {
        if wide {
            let units = utf16(string_value(v));
            Ok(
                if units.len() == 0 {
                    Seq::empty()
                } else {
                    "  .word "@ + number_list(units) + "\n"@
                },
            )
        } else if width == 1 {
            Ok("  .ascii "@ + v + "\n"@)
        } else {
            Err("a string needs a BYTE or WCHAR field, not "@ + kw)
        }
    } else {
        match dup_value(v) {
            Some((count, inner)) => if inner == "0"@ {
                Ok("  .zero "@ + text::signed_dec(count * width) + "\n"@)
            } else {
                match operands::resolved(kb, labels, inner) {
                    Ok(r) => Ok(repeated("  ."@ + dir + " "@ + r + "\n"@, count as nat)),
                    Err(m) => Err(m),
                }
            },
            None => match operands::resolved(kb, labels, v) {
                Ok(r) => Ok("  ."@ + dir + " "@ + r + "\n"@),
                Err(m) => Err(m),
            },
        }
    }
}

/// The values `vals` from `i` on as directive lines.
pub open spec fn values_from(
    kb: &Kb,
    labels: Seq<Seq<char>>,
    kw: Seq<char>,
    kind: (Seq<char>, int, bool),
    vals: Seq<Seq<char>>,
    i: int,
) -> Result<Seq<char>, Seq<char>>
    decreases vals.len() - i,
{
    if i >= vals.len() {
        Ok(Seq::empty())
    } else {
        calls::chain(
            value_text(kb, labels, kw, kind, vals[i]),
            values_from(kb, labels, kw, kind, vals, i + 1),
        )
    }
}

/// A data definition lowered: its label, then its values.
pub open spec fn data_text(kb: &Kb, labels: Seq<Seq<char>>, d: DataLine) -> Result<
    Seq<char>,
    Seq<char>,
> {
    let head = match d.label {
        Some(l) => l + ":\n"@,
        None => Seq::empty(),
    };
    calls::chain(
        Ok(head),
        values_from(kb, labels, d.kw, data_kind(d.kw)->0, lex::split_commas(d.values), 0),
    )
}

fn directive_line(dir: &str, r: &[char]) -> (o: Vec<char>)
    ensures
        o@ == "  ."@ + dir@ + " "@ + r@ + "\n"@,
{
    let mut o = chars_of("  .");
    push_str(&mut o, dir);
    push_str(&mut o, " ");
    push_all(&mut o, r);
    push_str(&mut o, "\n");
    o
}

/// `  .zero <n>`.
pub fn zero_line(n: i128) -> (o: Vec<char>)
    requires
        n > i128::MIN,
    ensures
        o@ == "  .zero "@ + text::signed_dec(n as int) + "\n"@,
{
    let mut o = chars_of("  .zero ");
    let d = signed_dec_of(n);
    push_all(&mut o, &d);
    push_str(&mut o, "\n");
    o
}

fn lower_value(
    val: &[char],
    kw: &[char],
    dir: &str,
    width: usize,
    wide: bool,
    kb: &Kb,
    labels: &Vec<Vec<char>>,
) -> (r: Result<Vec<char>, String>)
    requires
        width <= 8,
    ensures
        operands::result_view(r) == value_text(
            kb,
            text::texts(labels@),
            kw@,
            (dir@, width as int, wide),
            val@,
        ),
{
    let v = trimmed(val);
    if v.len() == 0 {
        let e: Vec<char> = Vec::new();
        assert(e@ =~= Seq::empty());
        return Ok(e);
    }
    if is(v, "?") {
        return Ok(zero_line(width as i128));
    }
    if v[0] == '"' {
        if wide {
            let s = string_content(v);
            let units = utf16_of(&s);
            assert(units_view(units@).len() == units@.len());
            if units.len() == 0 {
                let e: Vec<char> = Vec::new();
                assert(e@ =~= Seq::empty());
                return Ok(e);
            }
            let mut o = chars_of("  .word ");
            let l = number_list_of(&units);
            push_all(&mut o, &l);
            push_str(&mut o, "\n");
            return Ok(o);
        }
        if width == 1 {
            let mut o = chars_of("  .ascii ");
            push_all(&mut o, v);
            push_str(&mut o, "\n");
            return Ok(o);
        }
        let mut m = "a string needs a BYTE or WCHAR field, not ".to_owned();
        push_text(&mut m, kw);
        return Err(m);
    }
    match parse_dup(v) {
        Some((count, inner)) => {
            if is(inner, "0") {
                assert(count as int * width as int <= u64::MAX as int * 8) by (nonlinear_arith)
                    requires
                        count <= u64::MAX,
                        width <= 8,
                        width >= 0,
                ;
                assert(count as int * width as int >= 0) by (nonlinear_arith)
                    requires
                        count >= 0,
                        width >= 0,
                ;
                return Ok(zero_line(count as i128 * width as i128));
            }
            match resolve_operands(inner, kb, labels) {
                Ok(res) => {
                    let line = directive_line(dir, &res);
                    let mut o: Vec<char> = Vec::new();
                    let mut k: u64 = 0;
                    assert(o@ =~= repeated(line@, 0));
                    while k < count
                        invariant
                            k <= count,
                            o@ == repeated(line@, k as nat),
                        decreases count - k,
                    {
                        push_all(&mut o, &line);
                        k += 1;
                    }
                    Ok(o)
                },
                Err(m) => Err(m),
            }
        },
        None => match resolve_operands(v, kb, labels) {
            Ok(res) => Ok(directive_line(dir, &res)),
            Err(m) => Err(m),
        },
    }
}

/// Lower a MASM data definition to encoder directives under its label. Strings
/// in a `BYTE` field become `.ascii`; in a `WCHAR` field, UTF-16 `.word`s.
pub fn lower_data(
    label: Option<&[char]>,
    kw: &[char],
    values: &[char],
    kb: &Kb,
    labels: &Vec<Vec<char>>,
) -> (r: Result<Vec<char>, String>)
    requires
        data_kind(kw@) is Some,
    ensures
        operands::result_view(r) == data_text(
            kb,
            text::texts(labels@),
            (DataLine { label: text::opt(label), kw: kw@, values: values@ }),
        ),
{
    let ghost lv = text::texts(labels@);
    let ghost kind = data_kind(kw@)->0;
    let (dir, width, wide) = match data_type(kw) {
        Some(x) => x,
        None => return Err(String::new()),
    };
    let mut o: Vec<char> = Vec::new();
    match label {
        Some(l) => {
            push_all(&mut o, l);
            push_str(&mut o, ":\n");
            assert(o@ =~= l@ + ":\n"@);
        },
        None => {},
    }
    let parts = split_top_commas(values);
    let ghost pv = lex::split_commas(values@);
    let ghost want = data_text(
        kb,
        lv,
        DataLine { label: text::opt(label), kw: kw@, values: values@ },
    );
    assert(calls::chain(Ok(o@), values_from(kb, lv, kw@, kind, pv, 0)) == want) by {
        assert(o@ =~= (match text::opt(label) {
            Some(l) => l + ":\n"@,
            None => Seq::empty(),
        }));
    }
    let mut i: usize = 0;
    while i < parts.len()
        invariant
            lv == text::texts(labels@),
            text::slices(parts@) == pv,
            kind == (dir@, width as int, wide),
            width <= 8,
            i <= parts@.len(),
            want == data_text(
                kb,
                lv,
                DataLine { label: text::opt(label), kw: kw@, values: values@ },
            ),
            calls::chain(Ok(o@), values_from(kb, lv, kw@, kind, pv, i as int)) == want,
        decreases parts@.len() - i,
    {
        assert(pv[i as int] == parts@[i as int]@);
        let ghost before = o@;
        match lower_value(parts[i], kw, dir, width, wide, kb, labels) {
            Ok(p) => {
                push_all(&mut o, &p);
                proof {
                    calls::lemma_chain_assoc(
                        Ok(before),
                        Ok(p@),
                        values_from(kb, lv, kw@, kind, pv, i + 1),
                    );
                }
            },
            Err(m) => return Err(m),
        }
        i += 1;
    }
    assert(o@ + Seq::<char>::empty() =~= o@);
    Ok(o)
}

// ── range checks ────────────────────────────────────────────────────────────

/// `s` without underscores.
pub open spec fn without_underscores(s: Seq<char>) -> Seq<char> {
    s.filter(|c: char| c != '_')
}

/// The literal data value `v`: a character, or a decimal or hexadecimal integer
/// with optional sign and underscores. `None` for a string, constant or
/// expression.
pub open spec fn literal_value(v: Seq<char>) -> Option<int> {
    let t = text::trim(v);
    if t.len() >= 3 && t[0] == '\'' && t.last() == '\'' {
        Some(t[1] as int)
    } else {
        let neg = t.len() > 0 && t[0] == '-';
        let body = without_underscores(
            if neg {
                t.skip(1)
            } else {
                t
            },
        );
        let hex = match text::strip_prefix(body, "0x"@) {
            Some(h) => Some(h),
            None => text::strip_prefix(body, "0X"@),
        };
        let n = match hex {
            Some(h) => text::parse_i64(h, 16),
            None => text::parse_digits(body, 10, i64::MAX as int),
        };
        match n {
            Some(x) => Some(
                if neg {
                    -x
                } else {
                    x
                },
            ),
            None => None,
        }
    }
}

fn drop_underscores(s: &[char]) -> (r: Vec<char>)
    ensures
        r@ == without_underscores(s@),
{
    let ghost p = |c: char| c != '_';
    let mut r: Vec<char> = Vec::new();
    let mut i: usize = 0;
    assert(s@.take(0) =~= Seq::empty());
    reveal(Seq::filter);
    while i < s.len()
        invariant
            p == (|c: char| c != '_'),
            i <= s@.len(),
            r@ == s@.take(i as int).filter(p),
        decreases s@.len() - i,
    {
        proof {
            reveal(Seq::filter);
            assert(s@.take(i as int + 1).drop_last() =~= s@.take(i as int));
        }
        if s[i] != '_' {
            r.push(s[i]);
        }
        i += 1;
    }
    assert(s@.take(s@.len() as int) =~= s@);
    r
}

/// Parse a literal data value for range-checking; `None` for a string, constant,
/// or expression (assumed to fit).
pub fn data_value_i64(v: &[char]) -> (r: Option<i128>)
    ensures
        (match r {
            Some(n) => Some(n as int),
            None => None,
        }) == literal_value(v@),
        r matches Some(n) ==> n > i128::MIN,
{
    let t = trimmed(v);
    if t.len() >= 3 && t[0] == '\'' && t[t.len() - 1] == '\'' {
        return Some(char_code(t[1]) as i128);
    }
    let neg = t.len() > 0 && t[0] == '-';
    let body = drop_underscores(
        if neg {
            slice_subrange(t, 1, t.len())
        } else {
            t
        },
    );
    let hex = match without_prefix(&body, "0x") {
        Some(h) => Some(h),
        None => without_prefix(&body, "0X"),
    };
    let n: i128 = match hex {
        Some(h) => match i64_of(h, 16) {
            Some(n) => n as i128,
            None => return None,
        },
        None => match digits_value(&body, 10, 0x7fff_ffff_ffff_ffff) {
            Some(n) => n as i128,
            None => return None,
        },
    };
    Some(
        if neg {
            -n
        } else {
            n
        },
    )
}

/// How many values `width` bytes hold.
pub open spec fn span(width: nat) -> int
    decreases width,
{
    if width == 0 {
        1
    } else {
        256 * span((width - 1) as nat)
    }
}

/// `v` fits in `width` bytes, as a signed or an unsigned value. Eight bytes hold
/// every literal.
pub open spec fn fits(v: int, width: nat) -> bool {
    width >= 8 || -(span(width) / 2) <= v < span(width)
}

/// Does `v` fit in a `width`-byte field, as either a signed or unsigned value?
pub fn fits_width(v: i128, width: usize) -> (r: bool)
    requires
        width >= 1,
    ensures
        r == fits(v as int, width as nat),
{
    if width >= 8 {
        return true;
    }
    let mut n: i128 = 1;
    let mut i: usize = 0;
    proof {
        reveal_with_fuel(span, 9);
    }
    assert(span(7) == 0x100_0000_0000_0000);
    while i < width
        invariant
            i <= width < 8,
            n == span(i as nat),
            1 <= n <= 0x100_0000_0000_0000,
            i == 0 ==> n == 1,
            i == 1 ==> n == 0x100,
            i == 2 ==> n == 0x1_0000,
            i == 3 ==> n == 0x100_0000,
            i == 4 ==> n == 0x1_0000_0000,
            i == 5 ==> n == 0x100_0000_0000,
            i == 6 ==> n == 0x1_0000_0000_0000,
        decreases width - i,
    {
        n = n * 256;
        i += 1;
    }
    -(n / 2) <= v && v < n
}

// ── raw string blocks ───────────────────────────────────────────────────────

/// A `.ASCIISTRING … .ENDASCIISTRING` (or `.WIDESTRING … .ENDWIDESTRING`) raw
/// text block: every line between the directives, captured verbatim.
#[derive(Debug)]
pub struct StringAccum {
    pub lines: Vec<String>,
    pub wide: bool,
    pub end_kw: &'static str,
}

/// `s` from `i` on with backslashes and quotes escaped.
pub open spec fn escaped_from(s: Seq<char>, i: int) -> Seq<char>
    decreases s.len() - i,
{
    if i >= s.len() {
        Seq::empty()
    } else if s[i] == '\\' || s[i] == '"' {
        seq!['\\', s[i]] + escaped_from(s, i + 1)
    } else {
        seq![s[i]] + escaped_from(s, i + 1)
    }
}

/// One captured line with its line feed, as a data directive.
pub open spec fn string_line(line: Seq<char>, wide: bool) -> Seq<char> {
    if wide {
        "  .word "@ + number_list(utf16(line).push(10)) + "\n"@
    } else {
        "  .ascii \""@ + escaped_from(line, 0) + "\\n\"\n"@
    }
}

/// The captured lines as data directives.
pub open spec fn string_block(lines: Seq<Seq<char>>, wide: bool) -> Seq<char>
    decreases lines.len(),
{
    if lines.len() == 0 {
        Seq::empty()
    } else {
        string_block(lines.drop_last(), wide) + string_line(lines.last(), wide)
    }
}

fn escaped(s: &[char]) -> (r: Vec<char>)
    ensures
        r@ == escaped_from(s@, 0),
{
    let mut r: Vec<char> = Vec::new();
    let mut i: usize = 0;
    while i < s.len()
        invariant
            i <= s@.len(),
            r@ + escaped_from(s@, i as int) =~= escaped_from(s@, 0),
        decreases s@.len() - i,
    {
        let ghost before = r@;
        let c = s[i];
        if c == '\\' || c == '"' {
            r.push('\\');
            r.push(c);
            assert(r@ + escaped_from(s@, i + 1) =~= before + (seq!['\\', c] + escaped_from(
                s@,
                i + 1,
            )));
        } else {
            r.push(c);
            assert(r@ + escaped_from(s@, i + 1) =~= before + (seq![c] + escaped_from(s@, i + 1)));
        }
        i += 1;
    }
    assert(r@ =~= escaped_from(s@, 0));
    r
}

/// Lower a raw text block to data directives. Each captured line becomes its
/// text plus the line-ending newline: one escaped `.ascii` string per line, or
/// UTF-16 code units via `.word`.
pub fn emit_string_block(acc: &StringAccum) -> (r: String)
    ensures
        r@ == string_block(text::strings(acc.lines@), acc.wide),
{
    let ghost all = text::strings(acc.lines@);
    let mut o: Vec<char> = Vec::new();
    let mut i: usize = 0;
    while i < acc.lines.len()
        invariant
            all == text::strings(acc.lines@),
            i <= acc.lines@.len(),
            o@ == string_block(all.take(i as int), acc.wide),
        decreases acc.lines@.len() - i,
    {
        assert(all.take(i as int + 1).drop_last() =~= all.take(i as int));
        let c = chars_of(acc.lines[i].as_str());
        let mut p: Vec<char>;
        if acc.wide {
            let mut units = utf16_of(&c);
            let ghost before = units_view(units@);
            units.push(10);
            assert(units_view(units@) =~= before.push(10));
            p = chars_of("  .word ");
            let l = number_list_of(&units);
            push_all(&mut p, &l);
            push_str(&mut p, "\n");
        } else {
            p = chars_of("  .ascii \"");
            let e = escaped(&c);
            push_all(&mut p, &e);
            push_str(&mut p, "\\n\"\n");
        }
        push_all(&mut o, &p);
        i += 1;
    }
    assert(all.take(all.len() as int) =~= all);
    string_of(&o)
}

} // verus!
