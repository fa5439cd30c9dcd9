//! Declarations: struct instances, COM object bindings, labels and includes.
use crate::text;
use crate::was::data;
use crate::was::lex;
use crate::was::macros;
use crate::was::operands;
use crate::text::{
    chars_of, copy_of, dec_of, index_of, is, last_index_of, lines_of, push_all, push_str,
    push_text, same, signed_dec_of, string_of, trimmed, without_prefix, words_of,
};
use crate::was::data::parse_data_line;
use crate::was::lex::{after_keyword, all_ident, leading_label, without_comment};
use crate::was::operands::field_path;
use crate::winkb::kb::Kb;
use vstd::prelude::*;
use vstd::slice::slice_subrange;

verus! {

// ── struct instances ────────────────────────────────────────────────────────

/// `LABEL struct TYPE`: the label and the type.
pub open spec fn struct_open(t: Seq<char>) -> Option<(Seq<char>, Seq<char>)> {
    let w = text::words(t);
    if w.len() == 3 && w[1] == "struct"@ {
        Some((w[0], w[2]))
    } else {
        None
    }
}

/// `LABEL struct TYPE`: the opener of a struct-instance data block.
pub fn parse_struct_open<'a>(t: &'a [char]) -> (r: Option<(&'a [char], &'a [char])>)
    ensures
        (match r {
            Some((l, y)) => Some((l@, y@)),
            None => None,
        }) == struct_open(t@),
{
    let w = words_of(t);
    assert(text::slices(w@).len() == w@.len());
    if w.len() == 3 {
        assert(text::slices(w@)[0] == w@[0]@ && text::slices(w@)[1] == w@[1]@ && text::slices(w@)[2] == w@[2]@);
        if is(w[1], "struct") {
            return Some((w[0], w[2]));
        }
    }
    None
}

/// A field of a struct instance: its offset, its size, the value and the path.
pub struct Entry {
    pub off: int,
    pub size: int,
    pub val: Seq<char>,
    pub path: Seq<char>,
}

/// The entries `v` with `e` added behind those that do not lie behind it.
pub open spec fn insert_entry(v: Seq<Entry>, e: Entry) -> Seq<Entry>
    decreases v.len(),
{
    if v.len() == 0 || v.last().off <= e.off {
        v.push(e)
    } else {
        insert_entry(v.drop_last(), e).push(v.last())
    }
}

/// The entries of the fields `fields` (path and value) of the type `ty`, by
/// offset; fields at the same offset stay in the order they are written.
pub open spec fn struct_entries(kb: &Kb, ty: Seq<char>, fields: Seq<(Seq<char>, Seq<char>)>) -> Result<
    Seq<Entry>,
    Seq<char>,
>
    decreases fields.len(),
{
    if fields.len() == 0 {
        Ok(Seq::empty())
    } else {
        match struct_entries(kb, ty, fields.drop_last()) {
            Err(m) => Err(m),
            Ok(v) => {
                let (path, val) = fields.last();
                match operands::path_offset(kb, ty, path) {
                    None => Err(ty + " has no field '"@ + path + "'"@),
                    Some((off, size)) => Ok(insert_entry(v, Entry { off, size, val, path })),
                }
            },
        }
    }
}

/// The directive for a field of `size` bytes.
pub open spec fn size_directive(size: int) -> Seq<char> {
    if size == 1 {
        "byte"@
    } else if size == 2 {
        "word"@
    } else if size == 8 {
        "quad"@
    } else {
        "long"@
    }
}

/// The lines of the entry `e` when the position is `pos`: padding up to its
/// offset, then its value.
pub open spec fn entry_text(e: Entry, pos: int) -> Seq<char> {
    let pad = if e.off > pos {
        "  .zero "@ + text::signed_dec(e.off - pos) + "\n"@
    } else {
        Seq::empty()
    };
    pad + ("  ."@ + size_directive(e.size) + " "@ + e.val + "    ; "@ + e.path + " @ "@
        + text::signed_dec(e.off) + "\n"@)
}

/// The entries `v` laid out: their text and the position behind them. A field may
/// not start before the end of the one in front of it.
pub open spec fn entries_text(label: Seq<char>, v: Seq<Entry>) -> Result<
    (Seq<char>, int),
    Seq<char>,
>
    decreases v.len(),
{
    if v.len() == 0 {
        Ok((Seq::empty(), 0))
    } else {
        match entries_text(label, v.drop_last()) {
            Err(m) => Err(m),
            Ok((t, pos)) => {
                let e = v.last();
                if e.off < pos {
                    Err(
                        "struct "@ + label + ": field '"@ + e.path
                            + "' overlaps an earlier field"@,
                    )
                } else {
                    Ok((t + entry_text(e, pos), e.off + e.size))
                }
            },
        }
    }
}

/// A struct instance laid out: a label, then each field at its offset, zero-filled
/// between the fields and up to the type's size.
pub open spec fn struct_text(
    kb: &Kb,
    label: Seq<char>,
    ty: Seq<char>,
    fields: Seq<(Seq<char>, Seq<char>)>,
) -> Result<Seq<char>, Seq<char>> {
    match kb.spec_sizeof(ty) {
        None => Err("struct: unknown type '"@ + ty + "'"@),
        Some(size) => match struct_entries(kb, ty, fields) {
            Err(m) => Err(m),
            Ok(v) => match entries_text(label, v) {
                Err(m) => Err(m),
                Ok((t, pos)) => Ok(
                    label + ":\n  ; "@ + ty + " ("@ + text::signed_dec(size) + " bytes)\n"@ + t + (
                    if pos < size {
                        "  .zero "@ + text::signed_dec(size - pos) + "\n"@
                    } else {
                        Seq::empty()
                    }),
                ),
            },
        },
    }
}

/// The entries come in the order of their offsets.
pub open spec fn by_offset(v: Seq<Entry>) -> bool {
    forall|i: int, j: int| 0 <= i < j < v.len() ==> (#[trigger] v[i]).off <= (#[trigger] v[j]).off
}

proof fn lemma_insert_keeps_order(v: Seq<Entry>, e: Entry)
    requires
        by_offset(v),
    ensures
        by_offset(insert_entry(v, e)),
        insert_entry(v, e).len() == v.len() + 1,
        insert_entry(v, e).last().off == if v.len() > 0 && v.last().off > e.off {
            v.last().off
        } else {
            e.off
        },
    decreases v.len(),
{
    if v.len() == 0 || v.last().off <= e.off {
        assert forall|i: int, j: int| 0 <= i < j < v.push(e).len() implies (#[trigger] v.push(e)[i]).off
            <= (#[trigger] v.push(e)[j]).off by {
            if j == v.len() {
                assert(v[i].off <= v.last().off);
            }
        }
    } else {
        let w = v.drop_last();
        assert(by_offset(w)) by {
            assert forall|i: int, j: int| 0 <= i < j < w.len() implies (#[trigger] w[i]).off <= (
            #[trigger] w[j]).off by {
                assert(w[i] == v[i] && w[j] == v[j]);
            }
        }
        lemma_insert_keeps_order(w, e);
        let x = insert_entry(w, e);
        let y = x.push(v.last());
        if w.len() > 0 {
            assert(v[w.len() - 1].off <= v[w.len() as int].off);
            assert(w.last() == v[w.len() - 1]);
        }
        assert forall|i: int, j: int| 0 <= i < j < y.len() implies (#[trigger] y[i]).off <= (
        #[trigger] y[j]).off by {
            if j == x.len() {
                assert(x[i].off <= x.last().off);
            } else {
                assert(y[i] == x[i] && y[j] == x[j]);
            }
        }
    }
}

/// Every field of a struct instance has its entry, and the entries come in the order
/// of their offsets, whatever order the fields are written in.
pub proof fn law_struct_fields_in_order(
    kb: &Kb,
    ty: Seq<char>,
    fields: Seq<(Seq<char>, Seq<char>)>,
    v: Seq<Entry>,
)
    requires
        struct_entries(kb, ty, fields) == Ok::<Seq<Entry>, Seq<char>>(v),
    ensures
        v.len() == fields.len(),
        by_offset(v),
    decreases fields.len(),
{
    if fields.len() > 0 {
        match struct_entries(kb, ty, fields.drop_last()) {
            Ok(w) => {
                law_struct_fields_in_order(kb, ty, fields.drop_last(), w);
                let (path, val) = fields.last();
                let (off, size) = operands::path_offset(kb, ty, path).unwrap();
                lemma_insert_keeps_order(w, Entry { off, size, val, path });
            },
            Err(_) => {},
        }
    }
}

/// A struct instance that is laid out has no two fields over each other: each begins
/// at or behind the end of those in front of it, and none before the start.
pub proof fn law_struct_fields_apart(label: Seq<char>, v: Seq<Entry>, t: Seq<char>, pos: int)
    requires
        entries_text(label, v) == Ok::<(Seq<char>, int), Seq<char>>((t, pos)),
        forall|i: int| 0 <= i < v.len() ==> (#[trigger] v[i]).size >= 0,
    ensures
        forall|i: int| 0 <= i < v.len() ==> 0 <= (#[trigger] v[i]).off && v[i].off + v[i].size <= pos,
        forall|i: int, j: int|
            0 <= i < j < v.len() ==> (#[trigger] v[i]).off + v[i].size <= (#[trigger] v[j]).off,
        pos >= 0,
    decreases v.len(),
{
    if v.len() > 0 {
        let w = v.drop_last();
        assert forall|i: int| 0 <= i < w.len() implies (#[trigger] w[i]).size >= 0 by {
            assert(w[i] == v[i]);
        }
        match entries_text(label, w) {
            Ok((t0, p0)) => {
                law_struct_fields_apart(label, w, t0, p0);
                assert(v[v.len() - 1] == v.last());
                assert(v.last().size >= 0);
                assert forall|i: int| 0 <= i < v.len() implies 0 <= (#[trigger] v[i]).off && v[i].off
                    + v[i].size <= pos by {
                    if i < w.len() {
                        assert(w[i] == v[i]);
                    }
                }
                assert forall|i: int, j: int| 0 <= i < j < v.len() implies (#[trigger] v[i]).off
                    + v[i].size <= (#[trigger] v[j]).off by {
                    assert(w[i] == v[i]);
                    if j < w.len() {
                        assert(w[j] == v[j]);
                    }
                }
            },
            Err(_) => {},
        }
    }
}

/// An entry in machine terms.
struct EntryRow {
    off: i128,
    size: i64,
    val: Vec<char>,
    path: Vec<char>,
}

impl EntryRow {
    spec fn entry(self) -> Entry {
        Entry { off: self.off as int, size: self.size as int, val: self.val@, path: self.path@ }
    }
}

spec fn rows_view(v: Seq<EntryRow>) -> Seq<Entry> {
    Seq::new(v.len(), |i: int| v[i].entry())
}

proof fn lemma_insert_entry(v: Seq<Entry>, e: Entry, i: int)
    requires
        0 <= i <= v.len(),
        i > 0 ==> v[i - 1].off <= e.off,
        forall|j: int| i <= j < v.len() ==> (#[trigger] v[j]).off > e.off,
    ensures
        insert_entry(v, e) == v.insert(i, e),
    decreases v.len(),
{
    if i == v.len() {
        assert(v.insert(i, e) =~= v.push(e));
    } else {
        assert(v.last().off > e.off);
        lemma_insert_entry(v.drop_last(), e, i);
        assert(v.drop_last().insert(i, e).push(v.last()) =~= v.insert(i, e));
    }
}

fn insert_row(rows: &mut Vec<EntryRow>, row: EntryRow)
    requires
        rows_bounded(old(rows)@),
        -operands::offset_limit() <= row.off <= operands::offset_limit(),
    ensures
        rows_bounded(final(rows)@),
        rows_view(final(rows)@) == insert_entry(rows_view(old(rows)@), row.entry()),
{
    let ghost v = rows_view(rows@);
    let mut i: usize = rows.len();
    while i > 0 && rows[i - 1].off > row.off
        invariant
            v == rows_view(rows@),
            i <= rows@.len(),
            forall|j: int| i <= j < v.len() ==> (#[trigger] v[j]).off > row.off,
        decreases i,
    {
        i -= 1;
        assert(v[i as int] == rows@[i as int].entry());
    }
    proof {
        if i > 0 {
            assert(v[i - 1] == rows@[i - 1].entry());
        }
        lemma_insert_entry(v, row.entry(), i as int);
    }
    let ghost e = row.entry();
    rows.insert(i, row);
    assert(rows_view(rows@) =~= v.insert(i as int, e));
}

proof fn lemma_entries_error(
    kb: &Kb,
    ty: Seq<char>,
    fields: Seq<(Seq<char>, Seq<char>)>,
    i: int,
    m: Seq<char>,
)
    requires
        0 <= i <= fields.len(),
        struct_entries(kb, ty, fields.take(i)) == Err::<Seq<Entry>, Seq<char>>(m),
    ensures
        struct_entries(kb, ty, fields) == Err::<Seq<Entry>, Seq<char>>(m),
    decreases fields.len(),
{
    if i == fields.len() {
        assert(fields.take(i) =~= fields);
    } else {
        assert(fields.drop_last().take(i) =~= fields.take(i));
        lemma_entries_error(kb, ty, fields.drop_last(), i, m);
    }
}

proof fn lemma_layout_error(label: Seq<char>, v: Seq<Entry>, i: int, m: Seq<char>)
    requires
        0 <= i <= v.len(),
        entries_text(label, v.take(i)) == Err::<(Seq<char>, int), Seq<char>>(m),
    ensures
        entries_text(label, v) == Err::<(Seq<char>, int), Seq<char>>(m),
    decreases v.len(),
{
    if i == v.len() {
        assert(v.take(i) =~= v);
    } else {
        assert(v.drop_last().take(i) =~= v.take(i));
        lemma_layout_error(label, v.drop_last(), i, m);
    }
}

/// The offsets of the rows are within what a field path can reach.
spec fn rows_bounded(v: Seq<EntryRow>) -> bool {
    forall|i: int|
        0 <= i < v.len() ==> -operands::offset_limit() <= (#[trigger] v[i]).off
            <= operands::offset_limit()
}

fn collect_entries(kb: &Kb, ty: &[char], fields: &Vec<(Vec<char>, Vec<char>)>) -> (r: Result<
    Vec<EntryRow>,
    String,
>)
    ensures
        (match r {
            Ok(v) => rows_bounded(v@) && struct_entries(kb, ty@, macros::pair_texts(fields@)) == Ok::<
                Seq<Entry>,
                Seq<char>,
            >(rows_view(v@)),
            Err(m) => struct_entries(kb, ty@, macros::pair_texts(fields@)) == Err::<Seq<Entry>, Seq<char>>(
                m@,
            ),
        }),
{
    let ghost fv = macros::pair_texts(fields@);
    let mut rows: Vec<EntryRow> = Vec::new();
    assert(rows_view(rows@) =~= Seq::empty());
    let mut i: usize = 0;
    while i < fields.len()
        invariant
            fv == macros::pair_texts(fields@),
            i <= fields@.len(),
            rows_bounded(rows@),
            struct_entries(kb, ty@, fv.take(i as int)) == Ok::<Seq<Entry>, Seq<char>>(
                rows_view(rows@),
            ),
        decreases fields@.len() - i,
    {
        proof {
            assert(fv.take(i as int + 1).drop_last() =~= fv.take(i as int));
            assert(fv.take(i as int + 1).last() == fv[i as int]);
        }
        let path = &fields[i].0;
        match field_path(kb, ty, path) {
            None => {
                let mut m = string_of(ty);
                m.append(" has no field '");
                push_text(&mut m, path);
                m.append("'");
                proof {
                    lemma_entries_error(kb, ty@, fv, i as int + 1, m@);
                }
                return Err(m);
            },
            Some((off, size)) => {
                let row = EntryRow {
                    off,
                    size,
                    val: copy_of(&fields[i].1),
                    path: copy_of(path),
                };
                insert_row(&mut rows, row);
            },
        }
        i += 1;
    }
    assert(fv.take(fv.len() as int) =~= fv);
    Ok(rows)
}

/// `a - b`, which may exceed the signed range.
fn distance_of(a: i128, b: i128) -> (r: u128)
    requires
        a > b,
    ensures
        r == a - b,
{
    if b >= 0 {
        (a - b) as u128
    } else if a < 0 {
        (a - b) as u128
    } else {
        // `b` is negative: its magnitude is `-(b + 1) + 1`.
        let m: u128 = (-(b + 1)) as u128;
        a as u128 + m + 1
    }
}

fn size_word(size: i64) -> (r: &'static str)
    ensures
        r@ == size_directive(size as int),
{
    if size == 1 {
        "byte"
    } else if size == 2 {
        "word"
    } else if size == 8 {
        "quad"
    } else {
        "long"
    }
}

/// Lay out a struct-instance data block: a label, then each constant field at its
/// offset (zero-filled between), as visible data directives.
pub fn emit_struct(
    kb: &Kb,
    label: &[char],
    ty: &[char],
    fields: &Vec<(Vec<char>, Vec<char>)>,
) -> (r: Result<Vec<char>, String>)
    ensures
        operands::result_view(r) == struct_text(kb, label@, ty@, macros::pair_texts(fields@)),
{
    let size: i64 = match kb.sizeof(ty) {
        Some(n) => n,
        None => {
            let mut m = "struct: unknown type '".to_owned();
            push_text(&mut m, ty);
            m.append("'");
            return Err(m);
        },
    };
    let rows = match collect_entries(kb, ty, fields) {
        Ok(v) => v,
        Err(m) => return Err(m),
    };
    let ghost v = rows_view(rows@);
    let mut t: Vec<char> = Vec::new();
    let mut pos: i128 = 0;
    let mut i: usize = 0;
    while i < rows.len()
        invariant
            v == rows_view(rows@),
            kb.spec_sizeof(ty@) == Some(size as int),
            struct_entries(kb, ty@, macros::pair_texts(fields@)) == Ok::<Seq<Entry>, Seq<char>>(v),
            rows_bounded(rows@),
            i <= rows@.len(),
            entries_text(label@, v.take(i as int)) == Ok::<(Seq<char>, int), Seq<char>>(
                (t@, pos as int),
            ),
        decreases rows@.len() - i,
    {
        proof {
            assert(v.take(i as int + 1).drop_last() =~= v.take(i as int));
            assert(v.take(i as int + 1).last() == v[i as int]);
            assert(v[i as int] == rows@[i as int].entry());
        }
        let e = &rows[i];
        if e.off < pos {
            let mut m = "struct ".to_owned();
            push_text(&mut m, label);
            m.append(": field '");
            push_text(&mut m, &e.path);
            m.append("' overlaps an earlier field");
            proof {
                lemma_layout_error(label@, v, i as int + 1, m@);
            }
            return Err(m);
        }
        let mut p: Vec<char> = Vec::new();
        if e.off > pos {
            push_str(&mut p, "  .zero ");
            let d = dec_of(distance_of(e.off, pos));
            push_all(&mut p, &d);
            push_str(&mut p, "\n");
            assert(p@ =~= "  .zero "@ + text::signed_dec(e.off - pos) + "\n"@);
        }
        let mut q = chars_of("  .");
        push_str(&mut q, size_word(e.size));
        push_str(&mut q, " ");
        push_all(&mut q, &e.val);
        push_str(&mut q, "    ; ");
        push_all(&mut q, &e.path);
        push_str(&mut q, " @ ");
        let d = signed_dec_of(e.off);
        push_all(&mut q, &d);
        push_str(&mut q, "\n");
        push_all(&mut p, &q);
        assert(p@ =~= entry_text(v[i as int], pos as int));
        push_all(&mut t, &p);
        pos = e.off + e.size as i128;
        i += 1;
    }
    assert(v.take(v.len() as int) =~= v);
    let mut o = copy_of(label);
    push_str(&mut o, ":\n  ; ");
    push_all(&mut o, ty);
    push_str(&mut o, " (");
    let d = signed_dec_of(size as i128);
    push_all(&mut o, &d);
    push_str(&mut o, " bytes)\n");
    push_all(&mut o, &t);
    let ghost head = o@;
    if pos < size as i128 {
        let mut p = chars_of("  .zero ");
        let d = dec_of(distance_of(size as i128, pos));
        push_all(&mut p, &d);
        push_str(&mut p, "\n");
        push_all(&mut o, &p);
    } else {
        assert(o@ =~= head + Seq::<char>::empty());
    }
    Ok(o)
}

// ── COM objects ─────────────────────────────────────────────────────────────

/// The position of the first binding of `name` in `v` from `i` on; the length of
/// `v` where there is none.
pub open spec fn binding_from(v: Seq<(Seq<char>, Seq<char>)>, name: Seq<char>, i: int) -> int
    decreases v.len() - i,
{
    if i >= v.len() {
        v.len() as int
    } else if v[i].0 == name {
        i
    } else {
        binding_from(v, name, i + 1)
    }
}

/// A binding of a name to an interface, put into the list `v`: a name declared
/// again takes the new interface.
pub open spec fn bind(v: Seq<(Seq<char>, Seq<char>)>, name: Seq<char>, iface: Seq<char>) -> Seq<
    (Seq<char>, Seq<char>),
> {
    let k = binding_from(v, name, 0);
    if k < v.len() {
        v.update(k, (name, iface))
    } else {
        v.push((name, iface))
    }
}

/// The binding `comobj NAME : Interface` that the line `raw` declares.
pub open spec fn com_declaration(raw: Seq<char>) -> Option<(Seq<char>, Seq<char>)> {
    match lex::strip_keyword(text::trim(lex::strip_comment(raw)), "comobj"@) {
        Some(rest) => {
            let colon = text::find(rest, ':');
            if colon < rest.len() {
                Some((text::trim(rest.take(colon)), text::trim(rest.skip(colon + 1))))
            } else {
                None
            }
        },
        None => None,
    }
}

/// The bindings that the lines `v` declare.
pub open spec fn com_objects(v: Seq<Seq<char>>) -> Seq<(Seq<char>, Seq<char>)>
    decreases v.len(),
{
    if v.len() == 0 {
        Seq::empty()
    } else {
        let before = com_objects(v.drop_last());
        match com_declaration(v.last()) {
            Some((n, i)) => bind(before, n, i),
            None => before,
        }
    }
}

/// The interface that `name` is bound to in `v`.
pub open spec fn bound_interface(v: Seq<(Seq<char>, Seq<char>)>, name: Seq<char>) -> Option<
    Seq<char>,
> {
    let k = binding_from(v, name, 0);
    if k < v.len() {
        Some(v[k].1)
    } else {
        None
    }
}

/// No name is bound twice.
pub open spec fn names_distinct(v: Seq<(Seq<char>, Seq<char>)>) -> bool {
    forall|i: int, j: int| 0 <= i < j < v.len() ==> (#[trigger] v[i]).0 != (#[trigger] v[j]).0
}

proof fn lemma_binding_from(v: Seq<(Seq<char>, Seq<char>)>, name: Seq<char>, i: int)
    requires
        0 <= i <= v.len(),
    ensures
        i <= binding_from(v, name, i) <= v.len(),
        binding_from(v, name, i) < v.len() ==> v[binding_from(v, name, i)].0 == name,
        forall|j: int| i <= j < binding_from(v, name, i) ==> (#[trigger] v[j]).0 != name,
    decreases v.len() - i,
{
    if i < v.len() && v[i].0 != name {
        lemma_binding_from(v, name, i + 1);
    }
}

/// Binding a name gives it that interface, leaves every other name's alone, and
/// binds no name twice.
pub proof fn law_bind(
    v: Seq<(Seq<char>, Seq<char>)>,
    name: Seq<char>,
    iface: Seq<char>,
    other: Seq<char>,
)
    requires
        names_distinct(v),
    ensures
        bound_interface(bind(v, name, iface), name) == Some(iface),
        other != name ==> bound_interface(bind(v, name, iface), other) == bound_interface(
            v,
            other,
        ),
        names_distinct(bind(v, name, iface)),
{
    let b = bind(v, name, iface);
    let k = binding_from(v, name, 0);
    lemma_binding_from(v, name, 0);
    lemma_binding_from(b, name, 0);
    lemma_binding_from(v, other, 0);
    lemma_binding_from(b, other, 0);
    let kb = binding_from(b, name, 0);
    assert(b[k].0 == name);
    assert(kb == k) by {
        if kb < k {
            assert(b[kb] == v[kb]);
        }
    }
    let p = binding_from(v, other, 0);
    let q = binding_from(b, other, 0);
    if other != name {
        if p < v.len() {
            assert(b[p] == v[p]);
        }
        if q < b.len() {
            assert(q != k);
            assert(b[q] == v[q]);
        }
    }
    assert forall|i: int, j: int| 0 <= i < j < b.len() implies (#[trigger] b[i]).0 != (
    #[trigger] b[j]).0 by {
        if i != k {
            assert(b[i] == v[i]);
        }
        if j != k {
            assert(b[j] == v[j]);
        }
        if i != k && j != k {
            assert(v[i].0 != v[j].0);
        }
        if i == k && k < v.len() {
            assert(v[k].0 != v[j].0);
        }
        if j == k && k < v.len() {
            assert(v[i].0 != v[k].0);
        }
    }
}

/// The position of the first binding of `name`.
fn find_binding(v: &Vec<(Vec<char>, Vec<char>)>, name: &[char]) -> (r: usize)
    ensures
        r == binding_from(macros::pair_texts(v@), name@, 0),
        r <= v@.len(),
{
    let ghost all = macros::pair_texts(v@);
    let mut i: usize = 0;
    while i < v.len()
        invariant
            all == macros::pair_texts(v@),
            i <= v@.len(),
            binding_from(all, name@, 0) == binding_from(all, name@, i as int),
        decreases v@.len() - i,
    {
        assert(all[i as int] == (v@[i as int].0@, v@[i as int].1@));
        if same(&v[i].0, name) {
            return i;
        }
        i += 1;
    }
    i
}

fn bind_name(v: &mut Vec<(Vec<char>, Vec<char>)>, name: &[char], iface: &[char])
    ensures
        macros::pair_texts(final(v)@) == bind(macros::pair_texts(old(v)@), name@, iface@),
{
    let ghost all = macros::pair_texts(v@);
    let k: usize = find_binding(v, name);
    let a = copy_of(name);
    let b = copy_of(iface);
    if k < v.len() {
        v.set(k, (a, b));
        assert(macros::pair_texts(v@) =~= all.update(k as int, (name@, iface@)));
    } else {
        v.push((a, b));
        assert(macros::pair_texts(v@) =~= all.push((name@, iface@)));
    }
}

/// Pre-scan `comobj NAME : Interface` declarations, so that a later
/// `NAME.Method(...)` call knows the object's interface type.
pub fn collect_com_objs(src: &[char]) -> (r: Vec<(Vec<char>, Vec<char>)>)
    ensures
        macros::pair_texts(r@) == com_objects(text::lines(src@)),
{
    let lv = lines_of(src);
    let ghost all = text::lines(src@);
    let mut r: Vec<(Vec<char>, Vec<char>)> = Vec::new();
    assert(macros::pair_texts(r@) =~= Seq::empty());
    let mut i: usize = 0;
    while i < lv.len()
        invariant
            text::slices(lv@) == all,
            i <= lv@.len(),
            macros::pair_texts(r@) == com_objects(all.take(i as int)),
        decreases lv@.len() - i,
    {
        let raw = lv[i];
        proof {
            assert(all.take(i as int + 1).drop_last() =~= all.take(i as int));
            assert(all.take(i as int + 1).last() == raw@);
        }
        let t = trimmed(without_comment(raw));
        match after_keyword(t, "comobj") {
            Some(rest) => {
                let colon: usize = index_of(rest, ':');
                if colon < rest.len() {
                    let n = trimmed(slice_subrange(rest, 0, colon));
                    let f = trimmed(slice_subrange(rest, colon + 1, rest.len()));
                    bind_name(&mut r, n, f);
                }
            },
            None => {},
        }
        i += 1;
    }
    assert(all.take(all.len() as int) =~= all);
    r
}

fn interface_of<'a>(v: &'a Vec<(Vec<char>, Vec<char>)>, name: &[char]) -> (r: Option<&'a [char]>)
    ensures
        text::opt(r) == bound_interface(macros::pair_texts(v@), name@),
{
    let k: usize = find_binding(v, name);
    if k < v.len() {
        Some(v[k].1.as_slice())
    } else {
        None
    }
}

/// A typed COM method call: the object, its interface, the method and the
/// arguments.
pub struct MethodCall {
    pub obj: Seq<char>,
    pub iface: Seq<char>,
    pub method: Seq<char>,
    pub args: Seq<char>,
}

/// The typed COM method call `obj.Method(args)` where `obj` is a declared
/// `comobj`. A closing parenthesis in front of the opening one makes no call.
pub open spec fn method_call(t: Seq<char>, objs: Seq<(Seq<char>, Seq<char>)>) -> Option<
    MethodCall,
> {
    let dot = text::find(t, '.');
    let name = text::trim(t.take(dot));
    let rest = t.skip(dot + 1);
    let open = text::find(rest, '(');
    let close = text::rfind(rest, ')');
    let method = text::trim(rest.take(open));
    if dot >= t.len() || open >= rest.len() || close <= open || method.len() == 0 || !lex::ident_chars(
        method,
    ) {
        None
    } else {
        match bound_interface(objs, name) {
            Some(iface) => Some(
                MethodCall {
                    obj: name,
                    iface,
                    method,
                    args: text::trim(rest.subrange(open + 1, close)),
                },
            ),
            None => None,
        }
    }
}

/// The view of a recognised method call.
pub open spec fn method_call_view(r: Option<(&[char], &[char], &[char], &[char])>) -> Option<
    MethodCall,
> {
    match r {
        Some((o, i, m, a)) => Some(MethodCall { obj: o@, iface: i@, method: m@, args: a@ }),
        None => None,
    }
}

/// Recognise a typed COM method call `obj.Method(args)`.
pub fn parse_method_call<'a>(t: &'a [char], objs: &'a Vec<(Vec<char>, Vec<char>)>) -> (r: Option<
    (&'a [char], &'a [char], &'a [char], &'a [char]),
>)
    ensures
        method_call_view(r) == method_call(t@, macros::pair_texts(objs@)),
{
    let dot: usize = index_of(t, '.');
    if dot >= t.len() {
        return None;
    }
    let name = trimmed(slice_subrange(t, 0, dot));
    let rest = slice_subrange(t, dot + 1, t.len());
    let open: usize = index_of(rest, '(');
    if open >= rest.len() {
        return None;
    }
    let close: usize = match last_index_of(rest, ')') {
        Some(c) => c,
        None => return None,
    };
    if close <= open {
        return None;
    }
    let method = trimmed(slice_subrange(rest, 0, open));
    if method.len() == 0 || !all_ident(method) {
        return None;
    }
    match interface_of(objs, name) {
        Some(iface) => Some(
            (name, iface, method, trimmed(slice_subrange(rest, open + 1, close))),
        ),
        None => None,
    }
}

// ── labels ──────────────────────────────────────────────────────────────────

/// The labels that the line `raw` defines: a global name, a `name:` label, and
/// the label of a data definition.
pub open spec fn line_labels(raw: Seq<char>) -> Seq<Seq<char>> {
    let t = text::trim(lex::strip_comment(raw));
    let global = match text::strip_prefix(t, ".globl"@) {
        Some(r) => Some(r),
        None => text::strip_prefix(t, ".global"@),
    };
    let a: Seq<Seq<char>> = match global {
        Some(r) => seq![text::trim(r)],
        None => Seq::empty(),
    };
    let b = match lex::label_of(t) {
        Some(n) => a.push(n),
        None => a,
    };
    match data::data_line(t) {
        Some(d) => match d.label {
            Some(l) => b.push(l),
            None => b,
        },
        None => b,
    }
}

/// The labels that the lines `v` define.
pub open spec fn labels_in(v: Seq<Seq<char>>) -> Seq<Seq<char>>
    decreases v.len(),
{
    if v.len() == 0 {
        Seq::empty()
    } else {
        labels_in(v.drop_last()) + line_labels(v.last())
    }
}

/// Append a text to a list.
pub fn push_copy(v: &mut Vec<Vec<char>>, s: &[char])
    ensures
        text::texts(final(v)@) == text::texts(old(v)@).push(s@),
{
    let c = copy_of(s);
    v.push(c);
    assert(text::texts(v@) =~= text::texts(old(v)@).push(s@));
}

/// Collect the labels defined in this source, so that they are never resolved as
/// constants.
pub fn collect_labels(src: &[char]) -> (r: Vec<Vec<char>>)
    ensures
        text::texts(r@) == labels_in(text::lines(src@)),
{
    let lv = lines_of(src);
    let ghost all = text::lines(src@);
    let mut r: Vec<Vec<char>> = Vec::new();
    assert(text::texts(r@) =~= Seq::empty());
    let mut i: usize = 0;
    while i < lv.len()
        invariant
            text::slices(lv@) == all,
            i <= lv@.len(),
            text::texts(r@) == labels_in(all.take(i as int)),
        decreases lv@.len() - i,
    {
        let raw = lv[i];
        proof {
            assert(all.take(i as int + 1).drop_last() =~= all.take(i as int));
            assert(all.take(i as int + 1).last() == raw@);
        }
        let ghost before = text::texts(r@);
        let t = trimmed(without_comment(raw));
        let global = match without_prefix(t, ".globl") {
            Some(g) => Some(g),
            None => without_prefix(t, ".global"),
        };
        match global {
            Some(g) => push_copy(&mut r, trimmed(g)),
            None => {},
        }
        match leading_label(t) {
            Some(n) => push_copy(&mut r, n),
            None => {},
        }
        match parse_data_line(t) {
            Some((Some(l), _, _)) => push_copy(&mut r, l),
            _ => {},
        }
        assert(text::texts(r@) =~= before + line_labels(raw@));
        i += 1;
    }
    assert(all.take(all.len() as int) =~= all);
    r
}

// ── includes ────────────────────────────────────────────────────────────────

/// The file that an `.include "file"` line names.
pub open spec fn included_file(line: Seq<char>) -> Option<Seq<char>> {
    match lex::strip_keyword(text::trim(lex::strip_comment(line)), ".include"@) {
        Some(rest) => {
            let r = text::trim(rest);
            if r.len() >= 2 && r[0] == '"' && r.last() == '"' {
                Some(r.subrange(1, r.len() - 1))
            } else {
                None
            }
        },
        None => None,
    }
}

/// The file that an `.include "file"` line names.
pub fn include_path<'a>(line: &'a [char]) -> (r: Option<&'a [char]>)
    ensures
        text::opt(r) == included_file(line@),
{
    match after_keyword(trimmed(without_comment(line)), ".include") {
        Some(rest) => {
            let r = trimmed(rest);
            if r.len() >= 2 && r[0] == '"' && r[r.len() - 1] == '"' {
                Some(slice_subrange(r, 1, r.len() - 1))
            } else {
                None
            }
        },
        None => None,
    }
}

} // verus!
