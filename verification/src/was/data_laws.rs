//! What data declarations emit: the directives are read as bytes, and every value stands at
//! its offset.
use crate::text;
use crate::was::calls;
use crate::was::data;
use crate::was::decls;
use crate::was::operands;
use crate::was::decls::Entry;
use crate::winkb::kb::{Field, Interface, Kb, Layout};
use vstd::prelude::*;

verus! {

// ── directives ──────────────────────────────────────────────────────────────

/// A data directive.
pub enum Datum {
    /// `.zero n`.
    Zero(int),
    /// `.byte v` and its wider kin, with what follows the value on the line.
    Stored(Seq<char>, Seq<char>, Seq<char>),
}

/// How many bytes a value directive emits.
pub open spec fn directive_bytes(dir: Seq<char>) -> int {
    if dir == "byte"@ {
        1
    } else if dir == "word"@ {
        2
    } else if dir == "long"@ {
        4
    } else if dir == "quad"@ {
        8
    } else {
        0
    }
}

/// How many bytes a directive emits.
pub open spec fn datum_bytes(d: Datum) -> int {
    match d {
        Datum::Zero(n) => n,
        Datum::Stored(dir, v, note) => directive_bytes(dir),
    }
}

/// How a directive is written.
pub open spec fn datum_text(d: Datum) -> Seq<char> {
    match d {
        Datum::Zero(n) => "  .zero "@ + text::signed_dec(n) + "\n"@,
        Datum::Stored(dir, v, note) => "  ."@ + dir + " "@ + v + note + "\n"@,
    }
}

/// How a list of directives is written.
pub open spec fn data_written(v: Seq<Datum>) -> Seq<char>
    decreases v.len(),
{
    if v.len() == 0 {
        Seq::empty()
    } else {
        data_written(v.drop_last()) + datum_text(v.last())
    }
}

/// How many bytes a list of directives emits.
pub open spec fn data_bytes(v: Seq<Datum>) -> int
    decreases v.len(),
{
    if v.len() == 0 {
        0
    } else {
        data_bytes(v.drop_last()) + datum_bytes(v.last())
    }
}

/// The directives `v` put the value `val` of `size` bytes at the offset `off`.
pub open spec fn puts_at(v: Seq<Datum>, off: int, size: int, val: Seq<char>) -> bool {
    exists|i: int| #[trigger] puts_by(v, i, off, size, val)
}

/// The directive `i` of `v` puts the value `val` of `size` bytes at the offset `off`.
pub open spec fn puts_by(v: Seq<Datum>, i: int, off: int, size: int, val: Seq<char>) -> bool {
    &&& 0 <= i < v.len()
    &&& data_bytes(v.take(i)) == off
    &&& datum_bytes(v[i]) == size
    &&& v[i] matches Datum::Stored(dir, x, note) && x == val
}

proof fn lemma_data_push(v: Seq<Datum>, d: Datum)
    ensures
        data_written(v.push(d)) == data_written(v) + datum_text(d),
        data_bytes(v.push(d)) == data_bytes(v) + datum_bytes(d),
{
    assert(v.push(d).drop_last() =~= v);
}

proof fn lemma_puts_stays(v: Seq<Datum>, d: Datum, off: int, size: int, val: Seq<char>)
    requires
        puts_at(v, off, size, val),
    ensures
        puts_at(v.push(d), off, size, val),
{
    let i = choose|i: int| #[trigger] puts_by(v, i, off, size, val);
    assert(v.push(d).take(i) =~= v.take(i));
    assert(puts_by(v.push(d), i, off, size, val));
}

// ── structures ──────────────────────────────────────────────────────────────

/// The sizes that one directive can emit.
pub open spec fn plain_size(n: int) -> bool {
    n == 1 || n == 2 || n == 4 || n == 8
}

proof fn lemma_size_directive(n: int)
    requires
        plain_size(n),
    ensures
        directive_bytes(decls::size_directive(n)) == n,
{
    reveal_strlit("byte");
    reveal_strlit("word");
    reveal_strlit("long");
    reveal_strlit("quad");
    assert("byte"@[0] == 'b' && "word"@[0] == 'w' && "long"@[0] == 'l' && "quad"@[0] == 'q');
}

proof fn lemma_entries_laid_out(label: Seq<char>, v: Seq<Entry>) -> (d: Seq<Datum>)
    requires
        decls::entries_text(label, v) is Ok,
        forall|i: int| 0 <= i < v.len() ==> plain_size((#[trigger] v[i]).size),
    ensures
        data_written(d) == decls::entries_text(label, v)->Ok_0.0,
        data_bytes(d) == decls::entries_text(label, v)->Ok_0.1,
        forall|i: int|
            0 <= i < v.len() ==> puts_at(d, (#[trigger] v[i]).off, v[i].size, v[i].val),
    decreases v.len(),
{
    if v.len() == 0 {
        Seq::empty()
    } else {
        let w = v.drop_last();
        let e = v.last();
        assert forall|i: int| 0 <= i < w.len() implies plain_size((#[trigger] w[i]).size) by {
            assert(w[i] == v[i]);
        }
        assert(v[v.len() - 1] == e);
        let a = lemma_entries_laid_out(label, w);
        let (t, pos) = decls::entries_text(label, w)->Ok_0;
        let b = if e.off > pos {
            a.push(Datum::Zero(e.off - pos))
        } else {
            a
        };
        let note = "    ; "@ + e.path + " @ "@ + text::signed_dec(e.off);
        let one = Datum::Stored(decls::size_directive(e.size), e.val, note);
        let d = b.push(one);
        lemma_data_push(a, Datum::Zero(e.off - pos));
        lemma_data_push(b, one);
        lemma_size_directive(e.size);
        assert(data_bytes(b) == e.off);
        assert(datum_text(one) =~= "  ."@ + decls::size_directive(e.size) + " "@ + e.val + "    ; "@
            + e.path + " @ "@ + text::signed_dec(e.off) + "\n"@);
        assert(data_written(d) =~= t + decls::entry_text(e, pos));
        assert(d.take(b.len() as int) =~= b);
        assert(puts_by(d, b.len() as int, e.off, e.size, e.val));
        assert forall|i: int| 0 <= i < v.len() implies puts_at(
            d,
            (#[trigger] v[i]).off,
            v[i].size,
            v[i].val,
        ) by {
            if i < w.len() {
                assert(w[i] == v[i]);
                assert(puts_at(a, w[i].off, w[i].size, w[i].val));
                if e.off > pos {
                    lemma_puts_stays(a, Datum::Zero(e.off - pos), w[i].off, w[i].size, w[i].val);
                }
                lemma_puts_stays(b, one, w[i].off, w[i].size, w[i].val);
            }
        }
        d
    }
}

proof fn lemma_inserted(v: Seq<Entry>, e: Entry, x: Entry)
    ensures
        decls::insert_entry(v, e).contains(x) <==> v.contains(x) || x == e,
    decreases v.len(),
{
    let r = decls::insert_entry(v, e);
    if v.len() == 0 || v.last().off <= e.off {
        assert(r == v.push(e));
        assert(r[v.len() as int] == e);
        if v.contains(x) {
            let i = choose|i: int| 0 <= i < v.len() && v[i] == x;
            assert(r[i] == x);
        }
        if r.contains(x) && x != e {
            let i = choose|i: int| 0 <= i < r.len() && r[i] == x;
            assert(v[i] == x);
        }
    } else {
        let u = v.drop_last();
        let a = decls::insert_entry(u, e);
        lemma_inserted(u, e, x);
        assert(r == a.push(v.last()));
        assert(r[a.len() as int] == v.last());
        assert(v[v.len() - 1] == v.last());
        if a.contains(x) {
            let i = choose|i: int| 0 <= i < a.len() && a[i] == x;
            assert(r[i] == x);
        }
        if r.contains(x) && x != v.last() {
            let i = choose|i: int| 0 <= i < r.len() && r[i] == x;
            assert(a[i] == x);
        }
        if v.contains(x) && x != v.last() {
            let i = choose|i: int| 0 <= i < v.len() && v[i] == x;
            assert(u[i] == x);
        }
        if u.contains(x) {
            let i = choose|i: int| 0 <= i < u.len() && u[i] == x;
            assert(v[i] == x);
        }
    }
}

/// The entry of the field `f` of a structure of type `ty`.
spec fn entry_of(kb: &Kb, ty: Seq<char>, f: (Seq<char>, Seq<char>)) -> Entry {
    let (off, size) = operands::path_offset(kb, ty, f.0)->0;
    Entry { off, size, val: f.1, path: f.0 }
}

proof fn lemma_entries_are_fields(
    kb: &Kb,
    ty: Seq<char>,
    fields: Seq<(Seq<char>, Seq<char>)>,
    x: Entry,
)
    requires
        decls::struct_entries(kb, ty, fields) is Ok,
    ensures
        decls::struct_entries(kb, ty, fields)->Ok_0.contains(x) <==> exists|i: int|
            0 <= i < fields.len() && x == entry_of(kb, ty, #[trigger] fields[i]),
        forall|i: int|
            0 <= i < fields.len() ==> operands::path_offset(kb, ty, (#[trigger] fields[i]).0) is Some,
    decreases fields.len(),
{
    if fields.len() > 0 {
        let u = fields.drop_last();
        let f = fields.last();
        lemma_entries_are_fields(kb, ty, u, x);
        let a = decls::struct_entries(kb, ty, u)->Ok_0;
        lemma_inserted(a, entry_of(kb, ty, f), x);
        assert(fields[fields.len() - 1] == f);
        if a.contains(x) {
            let i = choose|i: int| 0 <= i < u.len() && x == entry_of(kb, ty, #[trigger] u[i]);
            assert(fields[i] == u[i]);
        }
        if exists|i: int| 0 <= i < fields.len() && x == entry_of(kb, ty, #[trigger] fields[i]) {
            let i = choose|i: int|
                0 <= i < fields.len() && x == entry_of(kb, ty, #[trigger] fields[i]);
            if i < u.len() {
                assert(u[i] == fields[i]);
            }
        }
        assert forall|i: int| 0 <= i < fields.len() implies operands::path_offset(
            kb,
            ty,
            (#[trigger] fields[i]).0,
        ) is Some by {
            if i < u.len() {
                assert(u[i] == fields[i]);
            }
        }
    }
}

/// A structure is laid out as its type says: every field's value stands at the field's
/// offset, in the field's size, whatever the order in which the fields are written; and the
/// whole is as long as the type, where its last field does not reach beyond.
pub proof fn law_struct_is_laid_out(
    kb: &Kb,
    label: Seq<char>,
    ty: Seq<char>,
    fields: Seq<(Seq<char>, Seq<char>)>,
) -> (d: Seq<Datum>)
    requires
        decls::struct_text(kb, label, ty, fields) is Ok,
        forall|i: int|
            0 <= i < fields.len() ==> (operands::path_offset(kb, ty, (#[trigger] fields[i]).0)
                matches Some((off, size)) ==> plain_size(size)),
    ensures
        kb.spec_sizeof(ty) is Some,
        decls::struct_text(kb, label, ty, fields) == Ok::<Seq<char>, Seq<char>>(
            label + ":\n  ; "@ + ty + " ("@ + text::signed_dec(kb.spec_sizeof(ty)->0)
                + " bytes)\n"@ + data_written(d),
        ),
        data_bytes(d) >= kb.spec_sizeof(ty)->0,
        forall|i: int|
            0 <= i < fields.len() ==> (operands::path_offset(kb, ty, (#[trigger] fields[i]).0)
                matches Some((off, size)) && puts_at(d, off, size, fields[i].1) && off + size
                <= data_bytes(d)),
        (forall|i: int|
            0 <= i < fields.len() ==> (operands::path_offset(kb, ty, (#[trigger] fields[i]).0)
                matches Some((off, size)) && off + size <= kb.spec_sizeof(ty)->0)) && 0
            <= kb.spec_sizeof(ty)->0 ==> data_bytes(d) == kb.spec_sizeof(ty)->0,
{
    let size = kb.spec_sizeof(ty)->0;
    let v = decls::struct_entries(kb, ty, fields)->Ok_0;
    assert forall|i: int| 0 <= i < v.len() implies plain_size((#[trigger] v[i]).size) by {
        lemma_entries_are_fields(kb, ty, fields, v[i]);
        assert(v.contains(v[i]));
        let k = choose|k: int|
            0 <= k < fields.len() && v[i] == entry_of(kb, ty, #[trigger] fields[k]);
        assert(operands::path_offset(kb, ty, fields[k].0) is Some);
    }
    let a = lemma_entries_laid_out(label, v);
    let (t, pos) = decls::entries_text(label, v)->Ok_0;
    decls::law_struct_fields_apart(label, v, t, pos);
    let pad = Datum::Zero(size - pos);
    let d = if pos < size {
        a.push(pad)
    } else {
        a
    };
    lemma_data_push(a, pad);
    let head = label + ":\n  ; "@ + ty + " ("@ + text::signed_dec(size) + " bytes)\n"@;
    assert(decls::struct_text(kb, label, ty, fields)->Ok_0 =~= head + data_written(d));
    assert forall|i: int| 0 <= i < fields.len() implies (operands::path_offset(
        kb,
        ty,
        (#[trigger] fields[i]).0,
    ) matches Some((off, n)) && puts_at(d, off, n, fields[i].1) && off + n <= data_bytes(d)) by {
        let x = entry_of(kb, ty, fields[i]);
        lemma_entries_are_fields(kb, ty, fields, x);
        assert(v.contains(x));
        let k = choose|k: int| 0 <= k < v.len() && v[k] == x;
        assert(puts_at(a, v[k].off, v[k].size, v[k].val));
        if pos < size {
            lemma_puts_stays(a, pad, x.off, x.size, x.val);
        }
    }
    if (forall|i: int|
        0 <= i < fields.len() ==> (operands::path_offset(kb, ty, (#[trigger] fields[i]).0)
            matches Some((off, n)) && off + n <= size)) && 0 <= size {
        assert(pos <= size) by {
            if v.len() > 0 {
                let x = v.last();
                assert(v[v.len() - 1] == x);
                assert(v.contains(x));
                lemma_entries_are_fields(kb, ty, fields, x);
                let k = choose|k: int|
                    0 <= k < fields.len() && x == entry_of(kb, ty, #[trigger] fields[k]);
                assert(operands::path_offset(kb, ty, fields[k].0) is Some);
                assert(pos == x.off + x.size);
            }
        }
    }
    d
}

// ── data lines ──────────────────────────────────────────────────────────────

/// A data keyword reserves as many bytes as its directive emits: `BYTE`, `WORD`, `DWORD` and
/// `QWORD`, signed or not, and the short forms `DB`, `DW`, `DD` and `DQ`; a wide string is
/// made of `WORD`s.
pub proof fn law_keywords_reserve_what_they_emit(kw: Seq<char>)
    ensures
        data::data_kind(kw) matches Some((dir, width, wide)) ==> directive_bytes(dir) == width && (
        wide ==> width == 2),
        text::upper_all(kw) == "BYTE"@ || text::upper_all(kw) == "SBYTE"@ || text::upper_all(kw)
            == "DB"@ ==> (data::data_kind(kw) matches Some((dir, width, wide)) && width == 1
            && !wide),
        text::upper_all(kw) == "WORD"@ || text::upper_all(kw) == "SWORD"@ || text::upper_all(kw)
            == "DW"@ ==> (data::data_kind(kw) matches Some((dir, width, wide)) && width == 2
            && !wide),
        text::upper_all(kw) == "WCHAR"@ ==> (data::data_kind(kw) matches Some((dir, width, wide))
            && width == 2 && wide),
        text::upper_all(kw) == "DWORD"@ || text::upper_all(kw) == "SDWORD"@ || text::upper_all(kw)
            == "DD"@ ==> (data::data_kind(kw) matches Some((dir, width, wide)) && width == 4
            && !wide),
        text::upper_all(kw) == "QWORD"@ || text::upper_all(kw) == "SQWORD"@ || text::upper_all(kw)
            == "DQ"@ ==> (data::data_kind(kw) matches Some((dir, width, wide)) && width == 8
            && !wide),
{
    reveal_strlit("byte");
    reveal_strlit("word");
    reveal_strlit("long");
    reveal_strlit("quad");
    assert("byte"@[0] == 'b' && "word"@[0] == 'w' && "long"@[0] == 'l' && "quad"@[0] == 'q');
    reveal_strlit("BYTE");
    reveal_strlit("SBYTE");
    reveal_strlit("DB");
    reveal_strlit("WORD");
    reveal_strlit("SWORD");
    reveal_strlit("DW");
    reveal_strlit("WCHAR");
    reveal_strlit("DWORD");
    reveal_strlit("SDWORD");
    reveal_strlit("DD");
    reveal_strlit("QWORD");
    reveal_strlit("SQWORD");
    reveal_strlit("DQ");
    assert("BYTE"@.len() == 4 && "BYTE"@[0] == 'B');
    assert("SBYTE"@.len() == 5 && "SBYTE"@[0] == 'S' && "SBYTE"@[1] == 'B');
    assert("DB"@.len() == 2 && "DB"@[1] == 'B');
    assert("WORD"@.len() == 4 && "WORD"@[0] == 'W');
    assert("SWORD"@.len() == 5 && "SWORD"@[0] == 'S' && "SWORD"@[1] == 'W');
    assert("DW"@.len() == 2 && "DW"@[1] == 'W');
    assert("WCHAR"@.len() == 5 && "WCHAR"@[0] == 'W');
    assert("DWORD"@.len() == 5 && "DWORD"@[0] == 'D');
    assert("SDWORD"@.len() == 6 && "SDWORD"@[1] == 'D');
    assert("DD"@.len() == 2 && "DD"@[1] == 'D');
    assert("QWORD"@.len() == 5 && "QWORD"@[0] == 'Q');
    assert("SQWORD"@.len() == 6 && "SQWORD"@[1] == 'Q');
    assert("DQ"@.len() == 2 && "DQ"@[1] == 'Q');
}

/// How many values a value text stands for: the count of a `dup`, otherwise one.
pub open spec fn value_count(v: Seq<char>) -> int {
    match data::dup_value(text::trim(v)) {
        Some((n, inner)) => n,
        None => 1,
    }
}

proof fn lemma_repeated(d: Datum, n: nat) -> (v: Seq<Datum>)
    ensures
        data_written(v) == data::repeated(datum_text(d), n),
        data_bytes(v) == n * datum_bytes(d),
        v.len() == n,
        forall|i: int| 0 <= i < n ==> #[trigger] v[i] == d,
    decreases n,
{
    if n == 0 {
        assert(0 * datum_bytes(d) == 0) by (nonlinear_arith);
        Seq::empty()
    } else {
        let u = lemma_repeated(d, (n - 1) as nat);
        lemma_data_push(u, d);
        let b = datum_bytes(d);
        assert(n * b == (n - 1) * b + b) by (nonlinear_arith);
        u.push(d)
    }
}

/// A value that is no string takes its keyword's width, and a `dup` its count of them: an
/// unset value and repeated zeros emit zeros, and any other is written as its operand
/// resolves, once for each repetition.
pub proof fn law_values_take_their_width(
    kb: &Kb,
    labels: Seq<Seq<char>>,
    kw: Seq<char>,
    kind: (Seq<char>, int, bool),
    val: Seq<char>,
) -> (d: Seq<Datum>)
    requires
        data::data_kind(kw) == Some(kind),
        data::value_text(kb, labels, kw, kind, val) is Ok,
        text::trim(val).len() > 0,
        text::trim(val)[0] != '"',
    ensures
        data::value_text(kb, labels, kw, kind, val) == Ok::<Seq<char>, Seq<char>>(data_written(d)),
        text::trim(val) != "?"@ ==> data_bytes(d) == value_count(val) * kind.1,
        text::trim(val) == "?"@ ==> data_bytes(d) == kind.1 && d == seq![Datum::Zero(kind.1)],
        text::trim(val) != "?"@ && data::dup_value(text::trim(val)) is None ==> d == seq![
            Datum::Stored(
                kind.0,
                operands::resolved(kb, labels, text::trim(val))->Ok_0,
                Seq::empty(),
            ),
        ],
{
    let v = text::trim(val);
    law_keywords_reserve_what_they_emit(kw);
    let none: Seq<Datum> = Seq::empty();
    if v == "?"@ {
        let z = Datum::Zero(kind.1);
        lemma_data_push(none, z);
        assert(none.push(z) =~= seq![z]);
        assert(data_written(seq![z]) =~= datum_text(z));
        seq![z]
    } else {
        match data::dup_value(v) {
            Some((n, inner)) => {
                if inner == "0"@ {
                    let z = Datum::Zero(n * kind.1);
                    lemma_data_push(none, z);
                    assert(none.push(z) =~= seq![z]);
                    assert(data_written(seq![z]) =~= datum_text(z));
                    seq![z]
                } else {
                    let r = operands::resolved(kb, labels, inner)->Ok_0;
                    let one = Datum::Stored(kind.0, r, Seq::empty());
                    assert(datum_text(one) =~= "  ."@ + kind.0 + " "@ + r + "\n"@);
                    lemma_dup_count(v);
                    lemma_repeated(one, n as nat)
                }
            },
            None => {
                let r = operands::resolved(kb, labels, v)->Ok_0;
                let one = Datum::Stored(kind.0, r, Seq::empty());
                assert(datum_text(one) =~= "  ."@ + kind.0 + " "@ + r + "\n"@);
                lemma_data_push(none, one);
                assert(none.push(one) =~= seq![one]);
                assert(data_written(seq![one]) =~= datum_text(one));
                seq![one]
            },
        }
    }
}

proof fn lemma_dup_count(v: Seq<char>)
    ensures
        data::dup_value(v) matches Some((n, inner)) ==> n >= 0,
{
    let pos = text::find_text(text::lower_all(v), "dup("@);
    let s = text::trim(v.take(pos));
    if text::parse_unsigned(s, usize::MAX as int) is Some {
        if s[0] == '+' {
            text::lemma_number_grows(s.skip(1), 10, 0);
        } else {
            text::lemma_number_grows(s, 10, 0);
        }
    }
}

// ── strings ─────────────────────────────────────────────────────────────────

/// The character that UTF-16 units stand for: one unit for itself, a surrogate pair for the
/// character beyond the basic plane.
pub open spec fn utf16_char(u: Seq<int>) -> int {
    if u.len() == 1 {
        u[0]
    } else {
        0x10000 + (u[0] - 0xd800) * 0x400 + (u[1] - 0xdc00)
    }
}

/// A character's UTF-16 units are 16-bit numbers that stand for it: itself, or a high and a
/// low surrogate.
pub proof fn law_utf16_stands_for_the_character(c: char)
    ensures
        utf16_char(data::utf16_units(c)) == c as int,
        data::utf16_units(c).len() == 1 || data::utf16_units(c).len() == 2,
        data::utf16_units(c).len() == 1 ==> 0 <= data::utf16_units(c)[0] < 0x10000,
        data::utf16_units(c).len() == 2 ==> 0xd800 <= data::utf16_units(c)[0] < 0xdc00 && 0xdc00
            <= data::utf16_units(c)[1] < 0xe000,
        (c as int) < 0x10000 <==> data::utf16_units(c).len() == 1,
{
}

/// The units of a text are the units of its characters, one after the other.
pub proof fn law_utf16_concatenates(a: Seq<char>, b: Seq<char>)
    ensures
        data::utf16(a + b) == data::utf16(a) + data::utf16(b),
    decreases b.len(),
{
    if b.len() == 0 {
        assert(a + b =~= a);
        assert(data::utf16(a) + data::utf16(b) =~= data::utf16(a));
    } else {
        law_utf16_concatenates(a, b.drop_last());
        assert((a + b).drop_last() =~= a + b.drop_last());
        assert(data::utf16(a + b) =~= data::utf16(a) + data::utf16(b));
    }
}

proof fn lemma_unescape_shift(x: Seq<char>, s: Seq<char>, i: int)
    requires
        0 <= i <= s.len(),
    ensures
        data::unescape_from(x + s, x.len() + i) == data::unescape_from(s, i),
    decreases s.len() - i,
{
    if i < s.len() {
        assert((x + s)[x.len() + i] == s[i]);
        if s[i] != '\\' {
            lemma_unescape_shift(x, s, i + 1);
        } else if i + 1 < s.len() {
            assert((x + s)[x.len() + i + 1] == s[i + 1]);
            lemma_unescape_shift(x, s, i + 2);
        }
    }
}

proof fn lemma_unescape_escaped(s: Seq<char>, i: int)
    requires
        0 <= i <= s.len(),
    ensures
        data::unescape_from(data::escaped_from(s, i), 0) == s.skip(i),
    decreases s.len() - i,
{
    if i < s.len() {
        lemma_unescape_escaped(s, i + 1);
        let rest = data::escaped_from(s, i + 1);
        let head = if s[i] == '\\' || s[i] == '"' {
            seq!['\\', s[i]]
        } else {
            seq![s[i]]
        };
        let all = data::escaped_from(s, i);
        assert(all == head + rest);
        lemma_unescape_shift(head, rest, 0);
        assert(all[0] == head[0]);
        if head.len() == 2 {
            assert(all[1] == s[i]);
            assert(data::escape_char(s[i]) == s[i]);
        }
        assert(seq![s[i]] + s.skip(i + 1) =~= s.skip(i));
    } else {
        assert(s.skip(i) =~= Seq::empty());
    }
}

/// Reading an escaped text gives back the text.
pub proof fn law_unescape_undoes_escape(s: Seq<char>)
    ensures
        data::unescape_from(data::escaped_from(s, 0), 0) == s,
{
    lemma_unescape_escaped(s, 0);
    assert(s.skip(0) =~= s);
}

/// The escapes `\n`, `\r`, `\t` and `\0` stand for the line feed, the carriage return, the tab
/// and the null character, wherever they stand.
pub proof fn law_escapes_stand_for_controls(a: Seq<char>, b: Seq<char>)
    requires
        !a.contains('\\'),
    ensures
        data::unescape_from(a + seq!['\\', 'n'] + b, 0) == a + seq!['\n'] + data::unescape_from(
            b,
            0,
        ),
        data::unescape_from(a + seq!['\\', 'r'] + b, 0) == a + seq!['\r'] + data::unescape_from(
            b,
            0,
        ),
        data::unescape_from(a + seq!['\\', 't'] + b, 0) == a + seq!['\t'] + data::unescape_from(
            b,
            0,
        ),
        data::unescape_from(a + seq!['\\', '0'] + b, 0) == a + seq!['\0'] + data::unescape_from(
            b,
            0,
        ),
{
    lemma_escape_at(a, 'n', b);
    lemma_escape_at(a, 'r', b);
    lemma_escape_at(a, 't', b);
    lemma_escape_at(a, '0', b);
}

proof fn lemma_escape_at(a: Seq<char>, c: char, b: Seq<char>)
    requires
        !a.contains('\\'),
    ensures
        data::unescape_from(a + seq!['\\', c] + b, 0) == a + seq![data::escape_char(c)]
            + data::unescape_from(b, 0),
    decreases a.len(),
{
    let e = seq!['\\', c];
    let s = a + e + b;
    if a.len() == 0 {
        assert(s =~= e + b);
        lemma_unescape_shift(e, b, 0);
        assert(s[0] == '\\' && s[1] == c);
        assert(a + seq![data::escape_char(c)] + data::unescape_from(b, 0) =~= seq![
            data::escape_char(c),
        ] + data::unescape_from(b, 0));
    } else {
        let u = a.drop_first();
        assert(!u.contains('\\')) by {
            if u.contains('\\') {
                let k = choose|k: int| 0 <= k < u.len() && u[k] == '\\';
                assert(a[k + 1] == '\\');
            }
        }
        lemma_escape_at(u, c, b);
        let h = seq![a[0]];
        assert(s =~= h + (u + e + b));
        lemma_unescape_shift(h, u + e + b, 0);
        assert(a.contains(a[0]));
        assert(s[0] == a[0]);
        assert(seq![a[0]] + (u + seq![data::escape_char(c)] + data::unescape_from(b, 0)) =~= a
            + seq![data::escape_char(c)] + data::unescape_from(b, 0));
    }
}

// ── ranges ──────────────────────────────────────────────────────────────────

/// A number fits a field of 1, 2 or 4 bytes where it can be stored there signed or unsigned,
/// and any number fits 8.
pub proof fn law_what_fits_a_field(v: int)
    ensures
        data::fits(v, 1) <==> -128 <= v <= 255,
        data::fits(v, 2) <==> -32768 <= v <= 65535,
        data::fits(v, 4) <==> -2147483648 <= v <= 4294967295,
        data::fits(v, 8),
{
    reveal_with_fuel(data::span, 6);
}

// ── numerals and identifiers ────────────────────────────────────────────────

/// A decimal numeral reads back as its number.
pub proof fn law_decimal_reads_back(n: int)
    requires
        n >= 0,
    ensures
        text::number(text::dec(n), 10) == n,
        text::all_digits(text::dec(n), 10),
    decreases n,
{
    if n >= 10 {
        law_decimal_reads_back(n / 10);
        let d = text::dec(n);
        assert(d.drop_last() =~= text::dec(n / 10));
        assert(text::digit_value(d.last(), 10) == n % 10);
        assert forall|i: int| 0 <= i < d.len() implies text::digit_value(#[trigger] d[i], 10) >= 0 by {
            if i < d.len() - 1 {
                assert(d[i] == text::dec(n / 10)[i]);
            }
        }
    } else {
        let d = text::dec(n);
        assert(d =~= seq![text::digit(n)]);
        assert(d.drop_last() =~= Seq::empty());
        assert(text::number(d.drop_last(), 10) == 0);
        assert(text::digit_value(d.last(), 10) == n);
    }
}

/// The number that two hexadecimal digits write.
spec fn pair(h: Seq<char>, i: int) -> int {
    text::number(h.subrange(2 * i, 2 * i + 2), 16)
}

proof fn lemma_pair(h: Seq<char>, i: int)
    requires
        0 <= i,
        2 * i + 2 <= h.len(),
        forall|k: int| 0 <= k < h.len() ==> text::is_hex_digit(#[trigger] h[k]),
    ensures
        pair(h, i) == calls::digit_byte(h, i),
        0 <= calls::digit_byte(h, i) < 256,
{
    let s = h.subrange(2 * i, 2 * i + 2);
    reveal_with_fuel(text::number, 3);
    assert(s.drop_last() =~= seq![h[2 * i]]);
    assert(s.drop_last().drop_last() =~= Seq::empty());
    assert(text::is_hex_digit(h[2 * i]) && text::is_hex_digit(h[2 * i + 1]));
}

proof fn lemma_number_split(s: Seq<char>)
    requires
        s.len() >= 2,
    ensures
        text::number(s, 16) == text::number(s.take(s.len() - 2), 16) * 256 + text::number(
            s.skip(s.len() - 2),
            16,
        ),
{
    let n = s.len();
    let t = s.skip(n - 2);
    reveal_with_fuel(text::number, 3);
    assert(s.drop_last().drop_last() =~= s.take(n - 2));
    assert(t.drop_last() =~= seq![s[n - 2]]);
    assert(t.drop_last().drop_last() =~= Seq::empty());
    assert(s.drop_last().last() == s[n - 2]);
}

/// A GUID lies in memory as its structure does on a little-endian machine: the first three
/// groups are numbers stored with their low byte first, and the last eight bytes stand as
/// they are written.
pub proof fn law_guid_is_stored_as_its_groups(h: Seq<char>)
    requires
        h.len() == 32,
        forall|k: int| 0 <= k < 32 ==> text::is_hex_digit(#[trigger] h[k]),
    ensures
        ({
            let b = calls::guid_bytes(h);
            &&& b.len() == 16
            &&& b[0] + b[1] * 0x100 + b[2] * 0x10000 + b[3] * 0x1000000 == text::number(
                h.subrange(0, 8),
                16,
            )
            &&& b[4] + b[5] * 0x100 == text::number(h.subrange(8, 12), 16)
            &&& b[6] + b[7] * 0x100 == text::number(h.subrange(12, 16), 16)
            &&& forall|i: int|
                8 <= i < 16 ==> #[trigger] b[i] == text::number(h.subrange(2 * i, 2 * i + 2), 16)
        }),
{
    let b = calls::guid_bytes(h);
    assert forall|i: int| 0 <= i < 16 implies 0 <= calls::digit_byte(h, i) < 256
        && #[trigger] pair(h, i) == calls::digit_byte(h, i) by {
        lemma_pair(h, i);
    }
    assert(pair(h, 0) == b[3] && pair(h, 1) == b[2] && pair(h, 2) == b[1] && pair(h, 3) == b[0]);
    assert(pair(h, 4) == b[5] && pair(h, 5) == b[4] && pair(h, 6) == b[7] && pair(h, 7) == b[6]);
    let g = h.subrange(0, 8);
    lemma_number_split(g);
    assert(g.skip(6) =~= h.subrange(6, 8));
    let g6 = h.subrange(0, 6);
    assert(g.take(6) =~= g6);
    lemma_number_split(g6);
    assert(g6.skip(4) =~= h.subrange(4, 6));
    let g4 = h.subrange(0, 4);
    assert(g6.take(4) =~= g4);
    lemma_number_split(g4);
    assert(g4.skip(2) =~= h.subrange(2, 4));
    assert(g4.take(2) =~= h.subrange(0, 2));
    let x = h.subrange(8, 12);
    lemma_number_split(x);
    assert(x.skip(2) =~= h.subrange(10, 12));
    assert(x.take(2) =~= h.subrange(8, 10));
    let y = h.subrange(12, 16);
    lemma_number_split(y);
    assert(y.skip(2) =~= h.subrange(14, 16));
    assert(y.take(2) =~= h.subrange(12, 14));
    assert forall|i: int| 8 <= i < 16 implies #[trigger] b[i] == text::number(
        h.subrange(2 * i, 2 * i + 2),
        16,
    ) by {
        assert(pair(h, i) == calls::digit_byte(h, i));
    }
}

/// How many numbers `w` hexadecimal digits write.
pub open spec fn hex_span(w: nat) -> int
    decreases w,
{
    if w == 0 {
        1
    } else {
        16 * hex_span((w - 1) as nat)
    }
}

/// A number written in hexadecimal, with leading zeros to a width that can hold it, reads back.
pub proof fn law_hexadecimal_reads_back(n: int, w: nat)
    requires
        0 <= n < hex_span(w),
    ensures
        text::number(text::hex(n, w), 16) == n,
        text::hex(n, w).len() == w,
    decreases w,
{
    if w > 0 {
        law_hexadecimal_reads_back(n / 16, (w - 1) as nat);
        let h = text::hex(n, w);
        assert(h.drop_last() =~= text::hex(n / 16, (w - 1) as nat));
        assert(text::digit_value(h.last(), 16) == n % 16);
    }
}

/// Lines of single bytes in hexadecimal.
pub open spec fn byte_lines(d: Seq<Seq<char>>, i: int) -> Seq<char>
    decreases d.len() - i,
{
    if i >= d.len() {
        Seq::empty()
    } else {
        "  .byte 0x"@ + d[i] + "\n"@ + byte_lines(d, i + 1)
    }
}

proof fn lemma_guid_tail(b: Seq<u8>, d: Seq<Seq<char>>, i: int)
    requires
        b.len() == 16,
        d.len() == 8,
        8 <= i <= 16,
        forall|k: int| 0 <= k < 8 ==> #[trigger] d[k] == text::hex(b[k + 8] as int, 2),
    ensures
        calls::guid_tail_from(b, i) == byte_lines(d, i - 8),
    decreases 16 - i,
{
    if i < 16 {
        assert(d[i - 8] == text::hex(b[i] as int, 2));
        lemma_guid_tail(b, d, i + 1);
    }
}

/// An `iid` emits the identifier of its interface group by group: a `.long`, two `.word`s and
/// eight `.byte`s, whose numbers are those that the groups of digits write.
pub proof fn law_iid_emits_the_groups(kb: &Kb, rest: Seq<char>, i: Interface, g: String) -> (d: (
    Seq<char>,
    Seq<char>,
    Seq<char>,
    Seq<Seq<char>>,
))
    requires
        kb.spec_interface(text::trim(rest)) == Some(i),
        i.iid == Some(g),
        calls::guid_digits(g@).len() == 32,
    ensures
        ({
            let h = calls::guid_digits(g@);
            &&& calls::iid_text(kb, rest) == Ok::<Seq<char>, Seq<char>>(
                "  ; IID of "@ + text::trim(rest) + " = {"@ + g@ + "}\n"@ + "  .long 0x"@ + d.0
                    + "\n  .word 0x"@ + d.1 + "\n  .word 0x"@ + d.2 + "\n"@ + byte_lines(d.3, 0),
            )
            &&& text::number(d.0, 16) == text::number(h.subrange(0, 8), 16)
            &&& text::number(d.1, 16) == text::number(h.subrange(8, 12), 16)
            &&& text::number(d.2, 16) == text::number(h.subrange(12, 16), 16)
            &&& d.3.len() == 8
            &&& forall|k: int|
                0 <= k < 8 ==> text::number(#[trigger] d.3[k], 16) == text::number(
                    h.subrange(2 * (k + 8), 2 * (k + 8) + 2),
                    16,
                )
        }),
{
    let h = calls::guid_digits(g@);
    assert forall|k: int| 0 <= k < 32 implies text::is_hex_digit(#[trigger] h[k]) by {
        g@.lemma_filter_contains_rev(|c: char| text::is_hex_digit(c), h[k]);
    }
    let b = calls::guid_bytes(h);
    law_guid_is_stored_as_its_groups(h);
    reveal_with_fuel(hex_span, 9);
    let x = b[0] + b[1] * 0x100 + b[2] * 0x10000 + b[3] * 0x1000000;
    let y = b[4] + b[5] * 0x100;
    let z = b[6] + b[7] * 0x100;
    law_hexadecimal_reads_back(x, 8);
    law_hexadecimal_reads_back(y, 4);
    law_hexadecimal_reads_back(z, 4);
    let tail = Seq::new(8, |k: int| text::hex(b[k + 8] as int, 2));
    lemma_guid_tail(b, tail, 8);
    assert forall|k: int| 0 <= k < 8 implies text::number(#[trigger] tail[k], 16) == text::number(
        h.subrange(2 * (k + 8), 2 * (k + 8) + 2),
        16,
    ) by {
        law_hexadecimal_reads_back(b[k + 8] as int, 2);
    }
    let d = (text::hex(x, 8), text::hex(y, 4), text::hex(z, 4), tail);
    assert(calls::iid_text(kb, rest)->Ok_0 =~= "  ; IID of "@ + text::trim(rest) + " = {"@ + g@
        + "}\n"@ + "  .long 0x"@ + d.0 + "\n  .word 0x"@ + d.1 + "\n  .word 0x"@ + d.2 + "\n"@
        + byte_lines(d.3, 0));
    d
}

// ── member paths ────────────────────────────────────────────────────────────

proof fn lemma_path_offset_adds(kb: &Kb, cur: Seq<char>, parts: Seq<Seq<char>>, i: int, off: int)
    ensures
        operands::path_from(kb, cur, parts, i, off) == (match operands::path_from(
            kb,
            cur,
            parts,
            i,
            0,
        ) {
            Some((o, n)) => Some((off + o, n)),
            None => None,
        }),
    decreases parts.len() - i,
{
    if i < parts.len() {
        match kb.spec_layout(cur) {
            None => {},
            Some(l) => match operands::field_from(l.fields@, parts[i], 0) {
                None => {},
                Some(f) => {
                    if i < parts.len() - 1 {
                        let next = operands::last_component(f.ty@);
                        lemma_path_offset_adds(kb, next, parts, i + 1, off + f.offset);
                        lemma_path_offset_adds(kb, next, parts, i + 1, 0 + f.offset);
                    }
                },
            },
        }
    }
}

proof fn lemma_path_shift(kb: &Kb, cur: Seq<char>, a: Seq<char>, parts: Seq<Seq<char>>, i: int)
    requires
        0 <= i,
    ensures
        operands::path_from(kb, cur, seq![a] + parts, i + 1, 0) == operands::path_from(
            kb,
            cur,
            parts,
            i,
            0,
        ),
    decreases parts.len() - i,
{
    let all = seq![a] + parts;
    if i < parts.len() {
        assert(all[i + 1] == parts[i]);
        match kb.spec_layout(cur) {
            None => {},
            Some(l) => match operands::field_from(l.fields@, parts[i], 0) {
                None => {},
                Some(f) => {
                    if i < parts.len() - 1 {
                        let next = operands::last_component(f.ty@);
                        lemma_path_shift(kb, next, a, parts, i + 1);
                        lemma_path_offset_adds(kb, next, all, i + 2, 0 + f.offset);
                        lemma_path_offset_adds(kb, next, parts, i + 1, 0 + f.offset);
                    }
                },
            },
        }
    }
}

proof fn lemma_split_shift(x: Seq<char>, s: Seq<char>, p: spec_fn(char) -> bool, a: int)
    requires
        0 <= a <= s.len(),
    ensures
        text::split_from(x + s, p, x.len() + a) == text::split_from(s, p, a),
    decreases s.len() - a,
{
    let t = x + s;
    text::lemma_first_from(s, p, a);
    text::lemma_first_from(t, p, x.len() + a);
    let n = text::first_from(s, p, a);
    let m = text::first_from(t, p, x.len() + a);
    assert(m == x.len() + n) by {
        if n < s.len() {
            assert(t[x.len() + n] == s[n]);
            assert(p(t[x.len() + n]));
        }
        if m < x.len() + n {
            assert(t[m] == s[m - x.len()]);
            assert(p(s[m - x.len()]));
        }
        if n < s.len() && m > x.len() + n {
            assert(!p(t[x.len() + n]));
        }
    }
    if n >= s.len() {
        assert(t.subrange(x.len() + a, t.len() as int) =~= s.subrange(a, s.len() as int));
    } else {
        lemma_split_shift(x, s, p, n + 1);
        assert(t.subrange(x.len() + a, m) =~= s.subrange(a, n));
    }
}

pub proof fn lemma_split_at(a: Seq<char>, c: char, b: Seq<char>)
    requires
        !a.contains(c),
    ensures
        text::split(a + seq![c] + b, c) == seq![a] + text::split(b, c),
        text::split(a, c) == seq![a],
        !b.contains(c) ==> text::split(b, c) == seq![b],
{
    let p = text::eq_char(c);
    let x = a + seq![c];
    let s = x + b;
    text::lemma_first_from(s, p, 0);
    let n = text::first_from(s, p, 0);
    assert(n == a.len()) by {
        assert(s[a.len() as int] == c);
        assert(p(s[a.len() as int]));
        if n < a.len() {
            assert(s[n] == a[n]);
            assert(a.contains(a[n]));
        }
    }
    lemma_split_shift(x, b, p, 0);
    assert(s.subrange(0, n) =~= a);
    text::lemma_first_from(a, p, 0);
    let m = text::first_from(a, p, 0);
    if m < a.len() {
        assert(a.contains(a[m]));
    }
    assert(a.subrange(0, a.len() as int) =~= a);
    text::lemma_first_from(b, p, 0);
    let k = text::first_from(b, p, 0);
    if k < b.len() {
        assert(b.contains(b[k]));
    }
    assert(b.subrange(0, b.len() as int) =~= b);
}

/// A member path is followed through the layouts: one component is the field of that name,
/// with its offset and size, and a longer path adds the offset of its first field to that of
/// the rest within the field's type.
pub proof fn law_member_offsets_add(
    kb: &Kb,
    root: Seq<char>,
    first: Seq<char>,
    rest: Seq<char>,
    l: Layout,
    k: int,
)
    requires
        !first.contains('.'),
        kb.spec_layout(root) == Some(l),
        0 <= k < l.fields@.len(),
        l.fields@[k].name@ == first,
        forall|i: int| 0 <= i < k ==> (#[trigger] l.fields@[i]).name@ != first,
    ensures
        operands::path_offset(kb, root, first) == Some(
            (l.fields@[k].offset as int, operands::size_of_field(kb, l.fields@[k].ty@)),
        ),
        operands::path_offset(kb, root, first + seq!['.'] + rest) == (match operands::path_offset(
            kb,
            operands::last_component(l.fields@[k].ty@),
            rest,
        ) {
            Some((off, size)) => Some((l.fields@[k].offset + off, size)),
            None => None,
        }),
{
    lemma_split_at(first, '.', rest);
    lemma_field_found(l.fields@, first, 0, k);
    let f = l.fields@[k];
    let parts = text::split(rest, '.');
    let all = seq![first] + parts;
    let next = operands::last_component(f.ty@);
    lemma_path_shift(kb, next, first, parts, 0);
    lemma_path_offset_adds(kb, next, all, 1, 0 + f.offset);
    assert(all[0] == first);
    assert(parts.len() >= 1) by {
        text::lemma_first_from(rest, text::eq_char('.'), 0);
    }
}

proof fn lemma_field_found(v: Seq<Field>, name: Seq<char>, i: int, k: int)
    requires
        0 <= i <= k < v.len(),
        v[k].name@ == name,
        forall|j: int| i <= j < k ==> (#[trigger] v[j]).name@ != name,
    ensures
        operands::field_from(v, name, i) == Some(v[k]),
    decreases k - i,
{
    if i < k {
        lemma_field_found(v, name, i + 1, k);
    }
}

} // verus!
