//! Reading the explanations of instructions and directives from tables of
//! tab-separated lines.
use crate::text;
use crate::text::{chars_of, lines_of, split_at_char, string_of, to_lower, trimmed, words_of};
use vstd::prelude::*;

verus! {

/// One row of a table: a name, and the four texts that explain it.
#[derive(Debug, Clone)]
pub struct Row {
    pub name: String,
    pub category: String,
    /// The flags of an instruction, the syntax of a directive.
    pub flags: String,
    pub summary: String,
    pub description: String,
}

/// A row in mathematical terms.
pub struct EntryView {
    pub name: Seq<char>,
    pub category: Seq<char>,
    pub flags: Seq<char>,
    pub summary: Seq<char>,
    pub description: Seq<char>,
}

impl View for Row {
    type V = EntryView;

    open spec fn view(&self) -> EntryView {
        EntryView {
            name: self.name@,
            category: self.category@,
            flags: self.flags@,
            summary: self.summary@,
            description: self.description@,
        }
    }
}

/// The views of rows.
pub open spec fn entries_view(v: Seq<Row>) -> Seq<EntryView> {
    Seq::new(v.len(), |i: int| v[i]@)
}

/// A line that says something: neither blank nor a comment.
pub open spec fn is_entry(line: Seq<char>) -> bool {
    text::trim(line).len() > 0 && line[0] != '#'
}

/// A line's row under one name.
pub open spec fn entry_named(f: Seq<Seq<char>>, name: Seq<char>) -> EntryView {
    EntryView {
        name,
        category: text::trim(f[2]),
        flags: text::trim(f[3]),
        summary: text::trim(f[4]),
        description: text::trim(f[5]),
    }
}

/// The rows of the first `n` of a line's other names.
pub open spec fn alias_rows(f: Seq<Seq<char>>, n: int) -> Seq<EntryView>
    decreases n,
{
    if n <= 0 {
        Seq::empty()
    } else {
        alias_rows(f, n - 1).push(entry_named(f, text::lower_all(text::words(f[1])[n - 1])))
    }
}

/// The rows of a line: under its name and each of its other names, in lower case.
pub open spec fn line_entries(f: Seq<Seq<char>>) -> Seq<EntryView> {
    seq![entry_named(f, text::lower_all(text::trim(f[0])))] + alias_rows(f, text::words(f[1]).len() as int)
}

/// What a table holds so far: its rows, how many entries they come from, and the
/// lines that have too few fields, counted from 1, with the fields they have.
#[verifier::ext_equal]
pub struct EntriesView {
    pub rows: Seq<EntryView>,
    pub entries: int,
    pub skipped: Seq<(int, int)>,
}

/// A table after one more line.
pub open spec fn with_line(t: EntriesView, line: Seq<char>, number: int) -> EntriesView {
    let f = text::split(line, '\t');
    if !is_entry(line) {
        t
    } else if f.len() < 6 {
        EntriesView { skipped: t.skipped.push((number, f.len() as int)), ..t }
    } else {
        EntriesView { rows: t.rows + line_entries(f), entries: t.entries + 1, ..t }
    }
}

/// A line as it is split: without the line ends behind it.
pub open spec fn bare_entry(line: Seq<char>) -> Seq<char> {
    line.take(text::last_below(line, not_line_end(), line.len() as int) + 1)
}

pub open spec fn not_line_end() -> spec_fn(char) -> bool {
    |c: char| c != '\r' && c != '\n'
}

/// The table of the first `n` lines.
pub open spec fn table_of(all: Seq<Seq<char>>, n: int) -> EntriesView
    decreases n,
{
    if n <= 0 {
        EntriesView { rows: Seq::empty(), entries: 0, skipped: Seq::empty() }
    } else {
        with_line(table_of(all, n - 1), bare_entry(all[n - 1]), n)
    }
}

/// A table that was read.
#[derive(Debug, Clone)]
pub struct Entries {
    pub rows: Vec<Row>,
    /// How many lines the rows come from.
    pub entries: usize,
    /// The lines that have too few fields, and how many they have.
    pub skipped: Vec<(usize, usize)>,
}

/// The views of lines that were skipped.
pub open spec fn skipped_view(v: Seq<(usize, usize)>) -> Seq<(int, int)> {
    Seq::new(v.len(), |i: int| (v[i].0 as int, v[i].1 as int))
}

impl View for Entries {
    type V = EntriesView;

    open spec fn view(&self) -> EntriesView {
        EntriesView {
            rows: entries_view(self.rows@),
            entries: self.entries as int,
            skipped: skipped_view(self.skipped@),
        }
    }
}

fn bare_entry_of<'a>(line: &'a [char]) -> (r: &'a [char])
    ensures
        r@ == bare_entry(line@),
{
    let mut e: usize = line.len();
    while e > 0
        invariant_except_break
            e <= line@.len(),
            text::last_below(line@, not_line_end(), line@.len() as int) == text::last_below(
                line@,
                not_line_end(),
                e as int,
            ),
        ensures
            e <= line@.len(),
            e == text::last_below(line@, not_line_end(), line@.len() as int) + 1,
        decreases e,
    {
        if line[e - 1] != '\r' && line[e - 1] != '\n' {
            break;
        }
        e -= 1;
    }
    vstd::slice::slice_subrange(line, 0, e)
}

fn row_named(f: &Vec<&[char]>, name: &[char]) -> (r: Row)
    requires
        f@.len() >= 6,
    ensures
        r@ == entry_named(text::slices(f@), name@),
{
    Row {
        name: string_of(name),
        category: string_of(trimmed(f[2])),
        flags: string_of(trimmed(f[3])),
        summary: string_of(trimmed(f[4])),
        description: string_of(trimmed(f[5])),
    }
}

fn push_row(v: &mut Vec<Row>, r: Row)
    ensures
        entries_view(final(v)@) == entries_view(old(v)@).push(r@),
{
    v.push(r);
    assert(entries_view(v@) =~= entries_view(old(v)@).push(r@));
}

fn push_entry(v: &mut Vec<Row>, f: &Vec<&[char]>)
    requires
        f@.len() >= 6,
    ensures
        entries_view(final(v)@) == entries_view(old(v)@) + line_entries(text::slices(f@)),
{
    let ghost before = entries_view(v@);
    let ghost fs = text::slices(f@);
    let first = to_lower(trimmed(f[0]));
    push_row(v, row_named(f, &first));
    let names = words_of(f[1]);
    let ghost head = before.push(entry_named(fs, first@));
    let mut i: usize = 0;
    assert(text::slices(names@).len() == names@.len());
    assert(entries_view(v@) =~= head + alias_rows(fs, 0));
    while i < names.len()
        invariant
            fs == text::slices(f@),
            f@.len() >= 6,
            text::words(fs[1]) == text::slices(names@),
            i <= names@.len(),
            entries_view(v@) =~= head + alias_rows(fs, i as int),
        decreases names@.len() - i,
    {
        assert(text::words(fs[1])[i as int] == names@[i as int]@);
        let low = to_lower(names[i]);
        push_row(v, row_named(f, &low));
        i += 1;
    }
    assert(entries_view(v@) =~= before + line_entries(fs));
}

/// Reads a table: tab-separated lines of a name, other names, a category, flags or
/// syntax, a summary and a description. Blank lines and `#` comments are passed over.
pub fn read_table(text: &str) -> (r: Entries)
    ensures
        r@ == table_of(text::lines(text@), text::lines(text@).len() as int),
{
    let c = chars_of(text);
    let v = lines_of(&c);
    let ghost all = text::lines(text@);
    let mut t = Entries { rows: Vec::new(), entries: 0, skipped: Vec::new() };
    let n: usize = v.len();
    let mut i: usize = 0;
    assert(text::slices(v@).len() == n);
    assert(t@ =~= table_of(all, 0));
    while i < n
        invariant
            n == v@.len(),
            all == text::slices(v@),
            i <= n,
            t@ == table_of(all, i as int),
            t.entries <= i,
        decreases n - i,
    {
        assert(all[i as int] == v@[i as int]@);
        let line = bare_entry_of(v[i]);
        let ghost before = t@;
        let bare = trimmed(line);
        proof {
            lemma_trim_shorter(line@);
        }
        if bare.len() > 0 && line[0] != '#' {
            let f = split_at_char(line, '\t');
            assert(text::slices(f@).len() == f@.len());
            if f.len() < 6 {
                let x = (i + 1, f.len());
                t.skipped.push(x);
                assert(skipped_view(t.skipped@) =~= before.skipped.push((i + 1, f@.len() as int)));
            } else {
                push_entry(&mut t.rows, &f);
                t.entries = t.entries + 1;
            }
        }
        assert(t@ =~= with_line(before, line@, i + 1));
        i += 1;
    }
    t
}

proof fn lemma_trim_shorter(s: Seq<char>)
    ensures
        text::trim(s).len() > 0 ==> s.len() > 0,
{
    text::lemma_first_from(s, text::not_ws(), 0);
}

} // verus!
