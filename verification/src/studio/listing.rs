//! The lowered text shown beside the source: which instructions each source line
//! became, with their bytes, and what an assembly reports.
use crate::studio::bytes;
use crate::text;
use crate::winkb::suggest;
use crate::studio::bytes::hex_masked;
use crate::studio::doc::Doc;
use crate::text::{
    chars_of, copy_opt, debug_of, join_strings, lines_of, number_text, push_dec, push_padded,
    push_right, same, string_of, trimmed,
};
use crate::winkb::kb::Kb;
use crate::winkb::suggest::comes_before;
use vstd::prelude::*;
use vstd::slice::slice_subrange;

verus! {

/// One instruction of a listing: its bytes, which of them a relocation leaves open
/// until the link, and its text.
pub type ListingRow = (Vec<u8>, Vec<bool>, String);

/// What the assembler made of a text: the code, and each relocation as the byte it
/// begins at and its size.
#[derive(Debug, Clone)]
pub struct Encoded {
    pub code: Vec<u8>,
    pub relocs: Vec<(usize, usize)>,
}

/// A row in mathematical terms.
pub struct RowView {
    pub bytes: Seq<u8>,
    pub open: Seq<bool>,
    pub text: Seq<char>,
}

/// The view of a row.
pub open spec fn row_view(r: ListingRow) -> RowView {
    RowView { bytes: r.0@, open: r.1@, text: r.2@ }
}

/// The views of one line's rows.
pub open spec fn rows_view(v: Seq<ListingRow>) -> Seq<RowView> {
    Seq::new(v.len(), |i: int| row_view(v[i]))
}

/// The views of a listing.
pub open spec fn listing_view(v: Seq<Vec<ListingRow>>) -> Seq<Seq<RowView>> {
    Seq::new(v.len(), |i: int| rows_view(v[i]@))
}

// ── relocations ─────────────────────────────────────────────────────────────

/// One of the first `n` relocations covers the byte `k`.
pub open spec fn covered(relocs: Seq<(usize, usize)>, k: int, n: int) -> bool
    decreases n,
{
    n > 0 && (relocs[n - 1].0 <= k < relocs[n - 1].0 + relocs[n - 1].1 || covered(
        relocs,
        k,
        n - 1,
    ))
}

/// For each byte of the code, whether a relocation covers it.
pub open spec fn open_bytes(m: Encoded) -> Seq<bool> {
    Seq::new(m.code@.len(), |k: int| covered(m.relocs@, k, m.relocs@.len() as int))
}

/// For each byte of the code, whether a relocation covers it.
pub fn reloc_mask(m: &Encoded) -> (r: Vec<bool>)
    ensures
        r@ == open_bytes(*m),
{
    let mut mask: Vec<bool> = Vec::new();
    let mut k: usize = 0;
    while k < m.code.len()
        invariant
            k <= m.code@.len(),
            mask@ =~= open_bytes(*m).take(k as int),
        decreases m.code@.len() - k,
    {
        let mut hit = false;
        let mut i: usize = 0;
        while i < m.relocs.len()
            invariant
                i <= m.relocs@.len(),
                hit == covered(m.relocs@, k as int, i as int),
            decreases m.relocs@.len() - i,
        {
            let (at, size) = m.relocs[i];
            let now = at <= k && k - at < size;
            hit = hit || now;
            i += 1;
        }
        mask.push(hit);
        k += 1;
    }
    assert(mask@ =~= open_bytes(*m));
    mask
}

// ── rows ────────────────────────────────────────────────────────────────────

/// The lowered line is an instruction or a label: no blank line, comment or
/// directive of the lowering.
pub open spec fn is_shown(line: Seq<char>) -> bool {
    let t = text::trim(line);
    t.len() > 0 && t[0] != ';' && t[0] != '#'
}

/// What one lowered line encoded to.
pub open spec fn part_view(p: (Vec<u8>, Vec<bool>)) -> (Seq<u8>, Seq<bool>) {
    (p.0@, p.1@)
}

/// The views of what lines encoded to.
pub open spec fn parts_view(v: Seq<(Vec<u8>, Vec<bool>)>) -> Seq<(Seq<u8>, Seq<bool>)> {
    Seq::new(v.len(), |i: int| part_view(v[i]))
}

/// The rows of the source line `k`, counted from 1, from the lowered line `i` on:
/// `map` gives the source line of each lowered line, `parts` what each encoded to.
pub open spec fn line_rows(
    lowered: Seq<Seq<char>>,
    map: Seq<usize>,
    parts: Seq<(Seq<u8>, Seq<bool>)>,
    k: int,
    i: int,
) -> Seq<RowView>
    decreases lowered.len() - i,
{
    if i >= lowered.len() {
        Seq::empty()
    } else {
        let rest = line_rows(lowered, map, parts, k, i + 1);
        if is_shown(lowered[i]) && i < map.len() && map[i] == k {
            seq![RowView { bytes: parts[i].0, open: parts[i].1, text: text::trim(lowered[i]) }] + rest
        } else {
            rest
        }
    }
}

/// The rows of each of `n` source lines.
pub open spec fn grouped(
    lowered: Seq<Seq<char>>,
    map: Seq<usize>,
    parts: Seq<(Seq<u8>, Seq<bool>)>,
    n: int,
) -> Seq<Seq<RowView>> {
    Seq::new(n as nat, |k: int| line_rows(lowered, map, parts, k + 1, 0))
}

/// The bytes of a span, cut at the end of the code.
pub open spec fn span_part(m: Encoded, span: (usize, usize)) -> (Seq<u8>, Seq<bool>) {
    let len = m.code@.len() as int;
    let end = if span.0 + span.1 < len {
        span.0 + span.1
    } else {
        len
    };
    let start = if span.0 < end {
        span.0 as int
    } else {
        end
    };
    (m.code@.subrange(start, end), open_bytes(m).subrange(start, end))
}

/// What each of `n` lowered lines encoded to in a whole assembly, by its spans.
pub open spec fn whole_parts(m: Encoded, spans: Seq<(usize, usize)>, n: int) -> Seq<
    (Seq<u8>, Seq<bool>),
> {
    Seq::new(
        n as nat,
        |i: int|
            span_part(
                m,
                if i < spans.len() {
                    spans[i]
                } else {
                    (0usize, 0usize)
                },
            ),
    )
}

/// What each of `n` lowered lines encoded to alone; nothing where it did not.
pub open spec fn alone_parts(v: Seq<Option<Encoded>>, n: int) -> Seq<(Seq<u8>, Seq<bool>)> {
    Seq::new(
        n as nat,
        |i: int|
            if i < v.len() && v[i] is Some {
                (v[i]->0.code@, open_bytes(v[i]->0))
            } else {
                (Seq::empty(), Seq::empty())
            },
    )
}

fn line_is_shown(t: &[char]) -> (r: bool)
    ensures
        r == (t@.len() > 0 && t@[0] != ';' && t@[0] != '#'),
{
    t.len() > 0 && t[0] != ';' && t[0] != '#'
}

fn copy_bytes(v: &[u8]) -> (r: Vec<u8>)
    ensures
        r@ == v@,
{
    let mut r: Vec<u8> = Vec::new();
    let mut i: usize = 0;
    while i < v.len()
        invariant
            i <= v@.len(),
            r@ =~= v@.take(i as int),
        decreases v@.len() - i,
    {
        r.push(v[i]);
        i += 1;
    }
    assert(r@ =~= v@);
    r
}

fn copy_flags(v: &[bool]) -> (r: Vec<bool>)
    ensures
        r@ == v@,
{
    let mut r: Vec<bool> = Vec::new();
    let mut i: usize = 0;
    while i < v.len()
        invariant
            i <= v@.len(),
            r@ =~= v@.take(i as int),
        decreases v@.len() - i,
    {
        r.push(v[i]);
        i += 1;
    }
    assert(r@ =~= v@);
    r
}

/// No rows for any of `n` source lines.
pub fn empty_listing(n: usize) -> (r: Vec<Vec<ListingRow>>)
    ensures
        listing_view(r@) == Seq::new(n as nat, |k: int| Seq::<RowView>::empty()),
{
    let mut out: Vec<Vec<ListingRow>> = Vec::new();
    let mut k: usize = 0;
    while k < n
        invariant
            k <= n,
            out@.len() == k,
            forall|j: int| 0 <= j < k ==> rows_view((#[trigger] out@[j])@).len() == 0,
        decreases n - k,
    {
        let none: Vec<ListingRow> = Vec::new();
        out.push(none);
        k += 1;
    }
    assert(listing_view(out@) =~= Seq::new(n as nat, |k: int| Seq::<RowView>::empty())) by {
        assert forall|j: int| 0 <= j < n implies rows_view((#[trigger] out@[j])@) =~= Seq::<
            RowView,
        >::empty() by {}
    }
    out
}

fn group_rows(
    lines: &Vec<&[char]>,
    src_map: &[usize],
    parts: &Vec<(Vec<u8>, Vec<bool>)>,
    n: usize,
) -> (r: Vec<Vec<ListingRow>>)
    requires
        parts@.len() == lines@.len(),
    ensures
        listing_view(r@) == grouped(text::slices(lines@), src_map@, parts_view(parts@), n as int),
{
    let mut out = empty_listing(n);
    let ghost ls = text::slices(lines@);
    let ghost ps = parts_view(parts@);
    let mut i: usize = 0;
    assert(listing_view(out@).len() == n);
    assert forall|k: int| 0 <= k < n implies rows_view((#[trigger] out@[k])@) + line_rows(
        ls,
        src_map@,
        ps,
        k + 1,
        0,
    ) =~= line_rows(ls, src_map@, ps, k + 1, 0) by {
        assert(listing_view(out@)[k] =~= Seq::<RowView>::empty());
    }
    while i < lines.len()
        invariant
            parts@.len() == lines@.len(),
            ls == text::slices(lines@),
            ps == parts_view(parts@),
            out@.len() == n,
            i <= lines@.len(),
            forall|k: int|
                0 <= k < n ==> rows_view((#[trigger] out@[k])@) + line_rows(
                    ls,
                    src_map@,
                    ps,
                    k + 1,
                    i as int,
                ) =~= line_rows(ls, src_map@, ps, k + 1, 0),
        decreases lines@.len() - i,
    {
        let ghost before = out@;
        assert(ls[i as int] == lines@[i as int]@);
        let t = trimmed(lines[i]);
        if line_is_shown(t) && i < src_map.len() && src_map[i] != 0 && src_map[i] <= n {
            let k: usize = src_map[i] - 1;
            let row: ListingRow = (
                copy_bytes(&parts[i].0),
                copy_flags(&parts[i].1),
                string_of(t),
            );
            let ghost rv = row_view(row);
            let ghost mine = before[k as int]@;
            let e = &mut out[k];
            e.push(row);
            assert(rows_view(out@[k as int]@) =~= rows_view(mine).push(rv));
            assert(ps[i as int] == part_view(parts@[i as int]));
            assert forall|q: int| 0 <= q < n implies rows_view((#[trigger] out@[q])@) + line_rows(
                ls,
                src_map@,
                ps,
                q + 1,
                i + 1,
            ) =~= line_rows(ls, src_map@, ps, q + 1, 0) by {
                let rest = line_rows(ls, src_map@, ps, q + 1, i + 1);
                assert(rows_view(before[q]@) + line_rows(ls, src_map@, ps, q + 1, i as int)
                    =~= line_rows(ls, src_map@, ps, q + 1, 0));
                if q == k {
                    assert(line_rows(ls, src_map@, ps, q + 1, i as int) =~= seq![rv] + rest);
                    assert(rows_view(mine).push(rv) + rest =~= rows_view(mine) + (seq![rv]
                        + rest));
                } else {
                    assert(out@[q] == before[q]);
                }
            }
        } else {
            assert forall|q: int| 0 <= q < n implies rows_view((#[trigger] out@[q])@) + line_rows(
                ls,
                src_map@,
                ps,
                q + 1,
                i + 1,
            ) =~= line_rows(ls, src_map@, ps, q + 1, 0) by {
                assert(rows_view(before[q]@) + line_rows(ls, src_map@, ps, q + 1, i as int)
                    =~= line_rows(ls, src_map@, ps, q + 1, 0));
            }
        }
        i += 1;
    }
    assert(listing_view(out@) =~= grouped(ls, src_map@, ps, n as int)) by {
        assert forall|k: int| 0 <= k < n implies rows_view((#[trigger] out@[k])@) =~= line_rows(
            ls,
            src_map@,
            ps,
            k + 1,
            0,
        ) by {}
    }
    out
}

fn part_of_span(m: &Encoded, mask: &Vec<bool>, span: (usize, usize)) -> (r: (Vec<u8>, Vec<bool>))
    requires
        mask@ == open_bytes(*m),
    ensures
        part_view(r) == span_part(*m, span),
{
    let len: usize = m.code.len();
    let end: usize = if span.0 >= len || span.1 >= len - span.0 {
        len
    } else {
        span.0 + span.1
    };
    let start: usize = if span.0 < end {
        span.0
    } else {
        end
    };
    (copy_bytes(slice_subrange(&m.code, start, end)), copy_flags(slice_subrange(mask, start, end)))
}

/// The listing of a buffer that assembled whole: `lowered` with the source line of
/// each of its lines, the assembly, and the span of the code that each lowered line
/// took. The rows are grouped by the `n` source lines.
pub fn buffer_listing(
    lowered: &str,
    src_map: &[usize],
    m: &Encoded,
    spans: &[(usize, usize)],
    n: usize,
) -> (r: Vec<Vec<ListingRow>>)
    ensures
        listing_view(r@) == grouped(
            text::lines(lowered@),
            src_map@,
            whole_parts(*m, spans@, text::lines(lowered@).len() as int),
            n as int,
        ),
{
    let chars = chars_of(lowered);
    let v = lines_of(&chars);
    let mask = reloc_mask(m);
    let ghost want = whole_parts(*m, spans@, v@.len() as int);
    let mut parts: Vec<(Vec<u8>, Vec<bool>)> = Vec::new();
    let mut i: usize = 0;
    assert(text::slices(v@).len() == v@.len());
    while i < v.len()
        invariant
            mask@ == open_bytes(*m),
            want == whole_parts(*m, spans@, v@.len() as int),
            i <= v@.len(),
            parts_view(parts@) =~= want.take(i as int),
        decreases v@.len() - i,
    {
        let span = if i < spans.len() {
            spans[i]
        } else {
            (0, 0)
        };
        let p = part_of_span(m, &mask, span);
        let ghost before = parts_view(parts@);
        parts.push(p);
        assert(parts_view(parts@) =~= before.push(part_view(p)));
        i += 1;
    }
    assert(parts_view(parts@) =~= want);
    assert(parts_view(parts@).len() == parts@.len());
    group_rows(&v, src_map, &parts, n)
}

/// The listing of a buffer that does not assemble whole: each lowered line by
/// itself, with nothing where it does not encode alone.
pub fn isolated_listing(
    lowered: &str,
    src_map: &[usize],
    alone: &[Option<Encoded>],
    n: usize,
) -> (r: Vec<Vec<ListingRow>>)
    ensures
        listing_view(r@) == grouped(
            text::lines(lowered@),
            src_map@,
            alone_parts(alone@, text::lines(lowered@).len() as int),
            n as int,
        ),
{
    let chars = chars_of(lowered);
    let v = lines_of(&chars);
    let ghost want = alone_parts(alone@, v@.len() as int);
    let mut parts: Vec<(Vec<u8>, Vec<bool>)> = Vec::new();
    let mut i: usize = 0;
    assert(text::slices(v@).len() == v@.len());
    while i < v.len()
        invariant
            want == alone_parts(alone@, v@.len() as int),
            i <= v@.len(),
            parts_view(parts@) =~= want.take(i as int),
        decreases v@.len() - i,
    {
        let mut p: (Vec<u8>, Vec<bool>) = (Vec::new(), Vec::new());
        if i < alone.len() {
            match &alone[i] {
                Some(m) => {
                    p = (copy_bytes(&m.code), reloc_mask(m));
                },
                None => {},
            }
        }
        assert(part_view(p) =~= want[i as int]);
        let ghost before = parts_view(parts@);
        parts.push(p);
        assert(parts_view(parts@) =~= before.push(part_view(p)));
        i += 1;
    }
    assert(parts_view(parts@) =~= want);
    assert(parts_view(parts@).len() == parts@.len());
    group_rows(&v, src_map, &parts, n)
}

/// A lowered line from `i` on that the map gives to the source line `k` has the
/// text of the row.
pub open spec fn row_comes_from(
    lowered: Seq<Seq<char>>,
    map: Seq<usize>,
    k: int,
    i: int,
    row: RowView,
) -> bool {
    exists|q: int|
        i <= q < lowered.len() && q < map.len() && #[trigger] map[q] == k && row.text == text::trim(
            lowered[q],
        )
}

/// Every row of a source line comes from a lowered line that the map gives to it.
pub proof fn law_rows_follow_the_map(
    lowered: Seq<Seq<char>>,
    map: Seq<usize>,
    parts: Seq<(Seq<u8>, Seq<bool>)>,
    k: int,
    i: int,
)
    requires
        0 <= i,
    ensures
        forall|j: int|
            0 <= j < line_rows(lowered, map, parts, k, i).len() ==> row_comes_from(
                lowered,
                map,
                k,
                i,
                #[trigger] line_rows(lowered, map, parts, k, i)[j],
            ),
    decreases lowered.len() - i,
{
    if i < lowered.len() {
        law_rows_follow_the_map(lowered, map, parts, k, i + 1);
        let rest = line_rows(lowered, map, parts, k, i + 1);
        let v = line_rows(lowered, map, parts, k, i);
        let here = is_shown(lowered[i]) && i < map.len() && map[i] == k;
        assert forall|j: int| 0 <= j < v.len() implies row_comes_from(
            lowered,
            map,
            k,
            i,
            #[trigger] v[j],
        ) by {
            if here && j == 0 {
                assert(map[i] == k && v[j].text == text::trim(lowered[i]));
            } else {
                let p = if here {
                    j - 1
                } else {
                    j
                };
                assert(v[j] == rest[p]);
                assert(row_comes_from(lowered, map, k, i + 1, rest[p]));
                let q = choose|q: int|
                    i + 1 <= q < lowered.len() && q < map.len() && #[trigger] map[q] == k
                        && rest[p].text == text::trim(lowered[q]);
                assert(map[q] == k);
            }
        }
    }
}

// ── what an assembly reports ────────────────────────────────────────────────

/// A list of names as it is shown: each in quotes, in brackets.
pub open spec fn shown_list(v: Seq<Seq<char>>) -> Seq<char> {
    "["@ + text::join(v.map_values(|s: Seq<char>| text::debug_text(s)), ", "@) + "]"@
}

/// What an object file reports.
pub open spec fn object_report(
    code: int,
    symbols: int,
    relocs: int,
    externs: Seq<Seq<char>>,
) -> Seq<char> {
    "obj: "@ + text::dec(code) + " bytes .text, "@ + text::dec(symbols) + " sym, "@ + text::dec(relocs)
        + " reloc, externs "@ + shown_list(externs)
}

/// A list of names as it is shown.
pub fn show_list(v: &[String]) -> (r: String)
    ensures
        r@ == shown_list(text::strings(v@)),
{
    let ghost want = text::strings(v@).map_values(|s: Seq<char>| text::debug_text(s));
    let mut names: Vec<String> = Vec::new();
    let mut i: usize = 0;
    assert(text::strings(names@) =~= Seq::empty());
    while i < v.len()
        invariant
            want == text::strings(v@).map_values(|s: Seq<char>| text::debug_text(s)),
            i <= v@.len(),
            text::strings(names@) =~= want.take(i as int),
        decreases v@.len() - i,
    {
        let d = debug_of(v[i].as_str());
        let ghost before = text::strings(names@);
        names.push(d);
        assert(text::strings(names@) =~= before.push(d@));
        i += 1;
    }
    assert(text::strings(names@) =~= want);
    let mut list = "[".to_owned();
    list.append(join_strings(&names, ", ").as_str());
    list.append("]");
    list
}

/// What an object file reports: the size of its code, its symbols and relocations,
/// and the names it leaves to the link.
pub fn object_info(code: usize, symbols: usize, relocs: usize, externs: &[String]) -> (r: String)
    ensures
        r@ == object_report(code as int, symbols as int, relocs as int, text::strings(externs@)),
{
    let mut m = "obj: ".to_owned();
    push_dec(&mut m, code as i128);
    m.append(" bytes .text, ");
    push_dec(&mut m, symbols as i128);
    m.append(" sym, ");
    push_dec(&mut m, relocs as i128);
    m.append(" reloc, externs ");
    m.append(show_list(externs).as_str());
    m
}

/// An import: a name and the DLL that exports it.
pub open spec fn imports_view(v: Seq<(String, String)>) -> Seq<(Seq<char>, Seq<char>)> {
    Seq::new(v.len(), |i: int| (v[i].0@, v[i].1@))
}

/// `x` among the imports `v`, in the order of their names, in place of one of the
/// same name.
pub open spec fn insert_import(
    v: Seq<(Seq<char>, Seq<char>)>,
    x: (Seq<char>, Seq<char>),
) -> Seq<(Seq<char>, Seq<char>)>
    decreases v.len(),
{
    if v.len() == 0 || !suggest::lex_le(x.0, v.last().0) {
        v.push(x)
    } else if x.0 == v.last().0 {
        v.drop_last().push(x)
    } else {
        insert_import(v.drop_last(), x).push(v.last())
    }
}

/// The DLL that exports a function, where it is known.
pub open spec fn dll_of(kb: &Kb, name: Seq<char>) -> Option<Seq<char>> {
    match kb.spec_function(name) {
        Some(f) => match f.dll {
            Some(d) => Some(d@),
            None => None,
        },
        None => None,
    }
}

/// The imports that the names `externs` need; the first that no known DLL exports
/// is an error.
pub open spec fn imports_from(
    kb: &Kb,
    externs: Seq<Seq<char>>,
    v: Seq<(Seq<char>, Seq<char>)>,
    i: int,
) -> Result<Seq<(Seq<char>, Seq<char>)>, Seq<char>>
    decreases externs.len() - i,
{
    if i >= externs.len() {
        Ok(v)
    } else {
        match dll_of(kb, externs[i]) {
            Some(d) => imports_from(kb, externs, insert_import(v, (externs[i], d)), i + 1),
            None => Err("no DLL known for import '"@ + externs[i] + "'"@),
        }
    }
}

proof fn lemma_insert_import(
    v: Seq<(Seq<char>, Seq<char>)>,
    x: (Seq<char>, Seq<char>),
    i: int,
)
    requires
        0 <= i <= v.len(),
        forall|k: int| i <= k < v.len() ==> suggest::lex_le(x.0, (#[trigger] v[k]).0) && x.0 != v[k].0,
    ensures
        i == 0 || !suggest::lex_le(x.0, v[i - 1].0) ==> insert_import(v, x) == v.insert(i, x),
        i > 0 && suggest::lex_le(x.0, v[i - 1].0) && x.0 == v[i - 1].0 ==> insert_import(v, x)
            == v.update(i - 1, x),
    decreases v.len(),
{
    if i == v.len() {
        if i == 0 || !suggest::lex_le(x.0, v[i - 1].0) {
            assert(v.len() > 0 ==> v.last() == v[i - 1]);
            assert(v.insert(i, x) =~= v.push(x));
        } else if x.0 == v[i - 1].0 {
            assert(v.last() == v[i - 1]);
            assert(v.update(i - 1, x) =~= v.drop_last().push(x));
        }
    } else {
        assert(v[v.len() - 1] == v.last());
        let d = v.drop_last();
        assert forall|k: int| i <= k < d.len() implies suggest::lex_le(x.0, (#[trigger] d[k]).0) && x.0
            != d[k].0 by {
            assert(d[k] == v[k]);
        }
        lemma_insert_import(d, x, i);
        if i > 0 {
            assert(d[i - 1] == v[i - 1]);
        }
        if i == 0 || !suggest::lex_le(x.0, v[i - 1].0) {
            assert(v.insert(i, x) =~= d.insert(i, x).push(v.last()));
        } else if x.0 == v[i - 1].0 {
            assert(v.update(i - 1, x) =~= d.update(i - 1, x).push(v.last()));
        }
    }
}

fn place_import(v: &mut Vec<(String, String)>, name: String, dll: String)
    ensures
        imports_view(final(v)@) == insert_import(imports_view(old(v)@), (name@, dll@)),
{
    let nc = chars_of(name.as_str());
    let ghost all = imports_view(v@);
    let ghost x = (name@, dll@);
    let mut i: usize = v.len();
    while i > 0
        invariant
            *v == *old(v),
            all == imports_view(v@),
            x == (name@, dll@),
            nc@ == name@,
            i <= v@.len(),
            forall|k: int|
                i <= k < all.len() ==> suggest::lex_le(x.0, (#[trigger] all[k]).0) && x.0 != all[k].0,
        decreases i,
    {
        assert(all[i - 1] == (v@[i - 1].0@, v@[i - 1].1@));
        let other = chars_of(v[i - 1].0.as_str());
        proof {
            lemma_insert_import(all, x, i as int);
        }
        if !comes_before(&nc, &other) {
            v.insert(i, (name, dll));
            assert(imports_view(v@) =~= all.insert(i as int, x));
            return;
        }
        if same(&nc, &other) {
            v.set(i - 1, (name, dll));
            assert(imports_view(v@) =~= all.update(i - 1, x));
            return;
        }
        i -= 1;
    }
    proof {
        lemma_insert_import(all, x, 0);
    }
    v.insert(0, (name, dll));
    assert(imports_view(v@) =~= all.insert(0, x));
}

/// The DLL of each name that a program leaves to the link, in the order of the
/// names. A name that no known DLL exports is an error.
pub fn import_map(kb: &Kb, externs: &[String]) -> (r: Result<Vec<(String, String)>, String>)
    ensures
        (match r {
            Ok(v) => Ok(imports_view(v@)),
            Err(m) => Err(m@),
        }) == imports_from(kb, text::strings(externs@), Seq::empty(), 0),
{
    let mut v: Vec<(String, String)> = Vec::new();
    let ghost all = text::strings(externs@);
    let mut i: usize = 0;
    assert(imports_view(v@) =~= Seq::empty());
    while i < externs.len()
        invariant
            all == text::strings(externs@),
            i <= externs@.len(),
            imports_from(kb, all, Seq::empty(), 0) == imports_from(
                kb,
                all,
                imports_view(v@),
                i as int,
            ),
        decreases externs@.len() - i,
    {
        assert(all[i as int] == externs@[i as int]@);
        let c = chars_of(externs[i].as_str());
        let dll = match kb.function(&c) {
            Some(f) => copy_opt(&f.dll),
            None => None,
        };
        match dll {
            Some(d) => place_import(&mut v, externs[i].clone(), d),
            None => {
                let mut m = "no DLL known for import '".to_owned();
                m.append(externs[i].as_str());
                m.append("'");
                return Err(m);
            },
        }
        i += 1;
    }
    Ok(v)
}

/// One import as it is shown.
pub open spec fn shown_import(x: (Seq<char>, Seq<char>)) -> Seq<char> {
    text::debug_text(x.0) + ": "@ + text::debug_text(x.1)
}

/// Imports as they are shown: each name with its DLL, in braces.
pub open spec fn shown_imports(v: Seq<(Seq<char>, Seq<char>)>) -> Seq<char> {
    "{"@ + text::join(v.map_values(|x: (Seq<char>, Seq<char>)| shown_import(x)), ", "@) + "}"@
}

/// What an executable reports.
pub open spec fn program_report(bytes: int, imports: Seq<(Seq<char>, Seq<char>)>) -> Seq<char> {
    "exe: "@ + text::dec(bytes) + " bytes, imports "@ + shown_imports(imports)
}

/// Imports as they are shown.
pub fn show_imports(imports: &[(String, String)]) -> (r: String)
    ensures
        r@ == shown_imports(imports_view(imports@)),
{
    let ghost want = imports_view(imports@).map_values(
        |x: (Seq<char>, Seq<char>)| shown_import(x),
    );
    let mut parts: Vec<String> = Vec::new();
    let mut i: usize = 0;
    assert(text::strings(parts@) =~= Seq::empty());
    while i < imports.len()
        invariant
            want == imports_view(imports@).map_values(
                |x: (Seq<char>, Seq<char>)| shown_import(x),
            ),
            i <= imports@.len(),
            text::strings(parts@) =~= want.take(i as int),
        decreases imports@.len() - i,
    {
        let mut d = debug_of(imports[i].0.as_str());
        d.append(": ");
        d.append(debug_of(imports[i].1.as_str()).as_str());
        let ghost before = text::strings(parts@);
        parts.push(d);
        assert(text::strings(parts@) =~= before.push(d@));
        i += 1;
    }
    assert(text::strings(parts@) =~= want);
    let mut m = "{".to_owned();
    m.append(join_strings(&parts, ", ").as_str());
    m.append("}");
    m
}

/// What an executable reports: its size and the imports it resolves.
pub fn program_info(bytes: usize, imports: &[(String, String)]) -> (r: String)
    ensures
        r@ == program_report(bytes as int, imports_view(imports@)),
{
    let mut m = "exe: ".to_owned();
    push_dec(&mut m, bytes as i128);
    m.append(" bytes, imports ");
    m.append(show_imports(imports).as_str());
    m
}

// ── a listing as text ───────────────────────────────────────────────────────

/// One expanded instruction of a listing.
pub open spec fn row_text(r: RowView) -> Seq<char> {
    "      "@ + text::pad_right(text::join(bytes::masked_texts(r.bytes, r.open), " "@), 26) + r.text + "\n"@
}

/// The first `n` expanded instructions of a source line.
pub open spec fn rows_text(v: Seq<RowView>, n: int) -> Seq<char>
    decreases n,
{
    if n <= 0 {
        Seq::empty()
    } else {
        rows_text(v, n - 1) + row_text(v[n - 1])
    }
}

/// A source line of a listing: its number and text, then what it expands to where
/// that is more than one instruction.
pub open spec fn source_text(line: Seq<char>, row: int, rows: Seq<RowView>) -> Seq<char> {
    text::pad_left(text::dec(row + 1), 4) + "  "@ + line + "\n"@ + (if rows.len() > 1 {
        rows_text(rows, rows.len() as int)
    } else {
        Seq::empty()
    })
}

/// The rows of a source line, none beyond the listing.
pub open spec fn rows_at(v: Seq<Seq<RowView>>, row: int) -> Seq<RowView> {
    if row < v.len() {
        v[row]
    } else {
        Seq::empty()
    }
}

/// The listing of the first `n` source lines.
pub open spec fn listing_so_far(lines: Seq<Seq<char>>, v: Seq<Seq<RowView>>, n: int) -> Seq<char>
    decreases n,
{
    if n <= 0 {
        Seq::empty()
    } else {
        listing_so_far(lines, v, n - 1) + source_text(lines[n - 1], n - 1, rows_at(v, n - 1))
    }
}

fn push_rows(m: &mut String, rows: &Vec<ListingRow>)
    ensures
        final(m)@ == old(m)@ + rows_text(rows_view(rows@), rows@.len() as int),
{
    let ghost before = m@;
    let ghost all = rows_view(rows@);
    let mut i: usize = 0;
    while i < rows.len()
        invariant
            all == rows_view(rows@),
            i <= rows@.len(),
            m@ =~= before + rows_text(all, i as int),
        decreases rows@.len() - i,
    {
        assert(all[i as int] == row_view(rows@[i as int]));
        let ghost now = m@;
        let h = hex_masked(&rows[i].0, &rows[i].1);
        m.append("      ");
        push_padded(m, h.as_str(), 26);
        m.append(rows[i].2.as_str());
        m.append("\n");
        assert(m@ =~= now + row_text(all[i as int]));
        i += 1;
    }
}

/// A plain-text listing: each source line, then its expansion.
pub fn listing_text(doc: &Doc, rows: &Vec<Vec<ListingRow>>) -> (r: String)
    ensures
        r@ == listing_so_far(doc@.lines, listing_view(rows@), doc@.lines.len() as int),
{
    let ghost all = doc@.lines;
    let ghost v = listing_view(rows@);
    let n: usize = doc.line_count();
    let mut m = "".to_owned();
    proof {
        reveal_strlit("");
    }
    let mut row: usize = 0;
    assert(m@ =~= Seq::empty());
    while row < n
        invariant
            all == doc@.lines,
            n == all.len(),
            v == listing_view(rows@),
            row <= n,
            m@ =~= listing_so_far(all, v, row as int),
        decreases n - row,
    {
        let ghost now = m@;
        let number = number_text(row as i128 + 1);
        push_right(&mut m, number.as_str(), 4);
        m.append("  ");
        m.append(doc.line(row));
        m.append("\n");
        let ghost head = m@;
        assert(v.len() == rows@.len());
        if row < rows.len() && rows[row].len() > 1 {
            assert(rows_at(v, row as int) == rows_view(rows@[row as int]@));
            push_rows(&mut m, &rows[row]);
        } else {
            assert(m@ =~= head + Seq::empty());
        }
        assert(m@ =~= now + source_text(all[row as int], row as int, rows_at(v, row as int)));
        row += 1;
    }
    m
}

} // verus!
