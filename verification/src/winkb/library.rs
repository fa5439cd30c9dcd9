//! The public symbols of the library's modules.
//!
//! Inside `module NAME … endmodule` a name that begins with an uppercase letter is
//! public, any other is private to the module. A module is independent of files.
use crate::text;
use crate::text::{
    char_is_letter, char_is_upper, char_is_word, char_is_ws, chars_of, copy_of, index_of,
    index_of_ws, is, is_ignoring_case, join_strings, lines_of, string_of, to_lower, to_upper,
    trimmed, trimmed_start, without_prefix, words_of,
};
use vstd::prelude::*;
use vstd::slice::slice_subrange;

verus! {

/// One public symbol defined inside a module.
#[derive(Debug, Clone, PartialEq, Eq)]
pub struct LibrarySymbol {
    pub name: String,
    pub module: String,
    pub file: String,
    /// The line of the definition within `file`, counted from 1.
    pub line: usize,
    /// `proc` | `data` | `equate` | `label` | `macro`.
    pub kind: String,
    /// For a `proc`, a readable `in … · out … · uses … · frame`; the value of an
    /// equate; the type of a data slot.
    pub signature: String,
    /// The doc comment right above the definition, or empty.
    pub summary: String,
}

/// A symbol in mathematical terms.
pub struct SymbolView {
    pub name: Seq<char>,
    pub module: Seq<char>,
    pub file: Seq<char>,
    pub line: int,
    pub kind: Seq<char>,
    pub signature: Seq<char>,
    pub summary: Seq<char>,
}

impl View for LibrarySymbol {
    type V = SymbolView;

    open spec fn view(&self) -> SymbolView {
        SymbolView {
            name: self.name@,
            module: self.module@,
            file: self.file@,
            line: self.line as int,
            kind: self.kind@,
            signature: self.signature@,
            summary: self.summary@,
        }
    }
}

/// The views of symbols.
pub open spec fn symbols_view(v: Seq<LibrarySymbol>) -> Seq<SymbolView> {
    Seq::new(v.len(), |i: int| v[i]@)
}

// ── pieces of a line ────────────────────────────────────────────────────────

/// The line without its comment and the white space around it.
pub open spec fn bare_line(line: Seq<char>) -> Seq<char> {
    text::trim(line.take(text::find(line, ';')))
}

/// What stands before the first white space.
pub open spec fn lead(t: Seq<char>) -> Seq<char> {
    t.take(text::find_ws(t))
}

/// What follows the lead and the white space behind it.
pub open spec fn after_lead(t: Seq<char>) -> Seq<char> {
    text::trim_start(t.skip(text::find_ws(t)))
}

/// What follows the keyword `kw` and white space at the start of `t`.
pub open spec fn after_keyword(t: Seq<char>, kw: Seq<char>) -> Option<Seq<char>> {
    match text::strip_prefix(t, kw) {
        Some(rest) => if rest.len() > 0 && text::is_ws(rest[0]) {
            Some(text::trim_start(rest))
        } else {
            None
        },
        None => None,
    }
}

/// A name: a letter, `_` or `.`, then letters, digits, `_`, `.` or `$`.
pub open spec fn name_shaped(s: Seq<char>) -> bool {
    &&& s.len() > 0
    &&& text::is_letter(s[0]) || s[0] == '_' || s[0] == '.'
    &&& forall|i: int|
        0 < i < s.len() ==> text::is_word_char(#[trigger] s[i]) || s[i] == '_' || s[i] == '.' || s[i]
            == '$'
}

/// The name before a colon at the start of `t`.
pub open spec fn label_name(t: Seq<char>) -> Option<Seq<char>> {
    let n = text::find(t, ':');
    let head = text::trim(t.take(n));
    if n < t.len() && name_shaped(head) {
        Some(head)
    } else {
        None
    }
}

pub open spec fn other_char(c: char) -> spec_fn(char) -> bool {
    |x: char| x != c
}

/// `s` without the `c`s it begins with.
pub open spec fn skip_leading(s: Seq<char>, c: char) -> Seq<char> {
    s.skip(text::first_from(s, other_char(c), 0))
}

/// A type that a data slot can have, with or without dots before it.
pub open spec fn data_word(s: Seq<char>) -> bool {
    let w = text::lower_all(skip_leading(s, '.'));
    ||| w == "byte"@
    ||| w == "sbyte"@
    ||| w == "word"@
    ||| w == "sword"@
    ||| w == "dword"@
    ||| w == "sdword"@
    ||| w == "qword"@
    ||| w == "sqword"@
    ||| w == "tbyte"@
    ||| w == "wchar"@
    ||| w == "db"@
    ||| w == "dw"@
    ||| w == "dd"@
    ||| w == "dq"@
    ||| w == "dt"@
    ||| w == "real4"@
    ||| w == "real8"@
    ||| w == "real10"@
    ||| w == "single"@
    ||| w == "double"@
}

fn bare_line_of<'a>(line: &'a [char]) -> (r: &'a [char])
    ensures
        r@ == bare_line(line@),
{
    let n: usize = index_of(line, ';');
    trimmed(slice_subrange(line, 0, n))
}

fn lead_of<'a>(t: &'a [char]) -> (r: &'a [char])
    ensures
        r@ == lead(t@),
{
    let n: usize = index_of_ws(t);
    slice_subrange(t, 0, n)
}

fn after_lead_of<'a>(t: &'a [char]) -> (r: &'a [char])
    ensures
        r@ == after_lead(t@),
{
    let n: usize = index_of_ws(t);
    trimmed_start(slice_subrange(t, n, t.len()))
}

fn strip_kw<'a>(t: &'a [char], kw: &str) -> (r: Option<&'a [char]>)
    ensures
        text::opt(r) == after_keyword(t@, kw@),
{
    match without_prefix(t, kw) {
        Some(rest) => {
            if rest.len() > 0 && char_is_ws(rest[0]) {
                Some(trimmed_start(rest))
            } else {
                None
            }
        },
        None => None,
    }
}

fn is_name(s: &[char]) -> (r: bool)
    ensures
        r == name_shaped(s@),
{
    if s.len() == 0 || !(char_is_letter(s[0]) || s[0] == '_' || s[0] == '.') {
        return false;
    }
    let mut i: usize = 1;
    while i < s.len()
        invariant
            1 <= i <= s@.len(),
            text::is_letter(s@[0]) || s@[0] == '_' || s@[0] == '.',
            forall|k: int|
                0 < k < i ==> text::is_word_char(#[trigger] s@[k]) || s@[k] == '_' || s@[k] == '.'
                    || s@[k] == '$',
        decreases s@.len() - i,
    {
        let c = s[i];
        if !(char_is_word(c) || c == '_' || c == '.' || c == '$') {
            assert(s@[i as int] == c);
            return false;
        }
        i += 1;
    }
    true
}

fn leading_label<'a>(t: &'a [char]) -> (r: Option<&'a [char]>)
    ensures
        text::opt(r) == label_name(t@),
{
    let n: usize = index_of(t, ':');
    if n == t.len() {
        return None;
    }
    let head = trimmed(slice_subrange(t, 0, n));
    if is_name(head) {
        Some(head)
    } else {
        None
    }
}

fn skip_leading_of<'a>(s: &'a [char], c: char) -> (r: &'a [char])
    ensures
        r@ == skip_leading(s@, c),
{
    let mut i: usize = 0;
    while i < s.len()
        invariant_except_break
            i <= s@.len(),
            text::first_from(s@, other_char(c), 0) == text::first_from(s@, other_char(c), i as int),
        ensures
            i <= s@.len(),
            i == text::first_from(s@, other_char(c), 0),
        decreases s@.len() - i,
    {
        if s[i] != c {
            break;
        }
        i += 1;
    }
    slice_subrange(s, i, s.len())
}

fn is_data_type(s: &[char]) -> (r: bool)
    ensures
        r == data_word(s@),
{
    let w = to_lower(skip_leading_of(s, '.'));
    is(&w, "byte") || is(&w, "sbyte") || is(&w, "word") || is(&w, "sword") || is(&w, "dword")
        || is(&w, "sdword") || is(&w, "qword") || is(&w, "sqword") || is(&w, "tbyte") || is(
        &w,
        "wchar",
    ) || is(&w, "db") || is(&w, "dw") || is(&w, "dd") || is(&w, "dq") || is(&w, "dt") || is(
        &w,
        "real4",
    ) || is(&w, "real8") || is(&w, "real10") || is(&w, "single") || is(&w, "double")
}

// ── a procedure's header ────────────────────────────────────────────────────

/// The list that the words before position `i` leave open: 1 for `uses`, 2 for
/// `in`, 3 for `out`, 0 for none.
pub open spec fn open_list(ws: Seq<Seq<char>>, i: int) -> int
    decreases i,
{
    if i <= 0 {
        0
    } else if ws[i - 1] == "uses"@ {
        1
    } else if ws[i - 1] == "in"@ {
        2
    } else if ws[i - 1] == "out"@ {
        3
    } else {
        open_list(ws, i - 1)
    }
}

/// A word that directs the lists and stands in none.
pub open spec fn header_word(w: Seq<char>) -> bool {
    w == "frame"@ || w == "uses"@ || w == "in"@ || w == "out"@
}

/// The words before position `n` that stand in list `b`.
pub open spec fn list_words(ws: Seq<Seq<char>>, b: int, n: int) -> Seq<Seq<char>>
    decreases n,
{
    if n <= 0 {
        Seq::empty()
    } else {
        let before = list_words(ws, b, n - 1);
        if !header_word(ws[n - 1]) && open_list(ws, n - 1) == b {
            before.push(ws[n - 1])
        } else {
            before
        }
    }
}

/// One word before position `n` is `frame`.
pub open spec fn has_frame(ws: Seq<Seq<char>>, n: int) -> bool
    decreases n,
{
    n > 0 && (ws[n - 1] == "frame"@ || has_frame(ws, n - 1))
}

/// A part of a signature: the list under its name, left out where it is empty.
pub open spec fn list_part(parts: Seq<Seq<char>>, name: Seq<char>, list: Seq<Seq<char>>) -> Seq<
    Seq<char>,
> {
    if list.len() == 0 {
        parts
    } else {
        parts.push(name + text::join(list, " "@))
    }
}

/// A readable signature of a procedure from what follows its name.
pub open spec fn header_signature(tail: Seq<char>) -> Seq<char> {
    let ws = text::words(tail);
    let n = ws.len() as int;
    let p1 = list_part(Seq::empty(), "in "@, list_words(ws, 2, n));
    let p2 = list_part(p1, "out "@, list_words(ws, 3, n));
    let p3 = list_part(p2, "uses "@, list_words(ws, 1, n));
    let p4 = if has_frame(ws, n) {
        p3.push("frame"@)
    } else {
        p3
    };
    text::join(p4, " · "@)
}

fn push_part(parts: &mut Vec<String>, name: &str, list: &Vec<String>)
    ensures
        text::strings(final(parts)@) == list_part(text::strings(old(parts)@), name@, text::strings(list@)),
{
    if list.len() > 0 {
        let mut m = name.to_owned();
        m.append(join_strings(list, " ").as_str());
        let ghost before = text::strings(parts@);
        parts.push(m);
        assert(text::strings(parts@) =~= before.push(m@));
    }
}

fn push_word(list: &mut Vec<String>, w: &[char])
    ensures
        text::strings(final(list)@) == text::strings(old(list)@).push(w@),
{
    list.push(string_of(w));
    assert(text::strings(list@) =~= text::strings(old(list)@).push(w@));
}

fn proc_signature(tail: &[char]) -> (r: String)
    ensures
        r@ == header_signature(tail@),
{
    let v = words_of(tail);
    let ghost ws = text::words(tail@);
    let mut uses: Vec<String> = Vec::new();
    let mut ins: Vec<String> = Vec::new();
    let mut outs: Vec<String> = Vec::new();
    let mut frame = false;
    let mut bucket: u8 = 0;
    let mut i: usize = 0;
    assert(text::strings(uses@) =~= Seq::empty());
    assert(text::strings(ins@) =~= Seq::empty());
    assert(text::strings(outs@) =~= Seq::empty());
    assert(text::slices(v@).len() == v@.len());
    while i < v.len()
        invariant
            ws == text::slices(v@),
            i <= v@.len(),
            bucket == open_list(ws, i as int),
            frame == has_frame(ws, i as int),
            text::strings(uses@) == list_words(ws, 1, i as int),
            text::strings(ins@) == list_words(ws, 2, i as int),
            text::strings(outs@) == list_words(ws, 3, i as int),
        decreases v@.len() - i,
    {
        let w = v[i];
        assert(ws[i as int] == w@);
        proof {
            reveal_strlit("frame");
            reveal_strlit("uses");
            reveal_strlit("in");
            reveal_strlit("out");
        }
        if is(w, "frame") {
            frame = true;
        } else if is(w, "uses") {
            bucket = 1;
        } else if is(w, "in") {
            bucket = 2;
        } else if is(w, "out") {
            bucket = 3;
        } else if bucket == 1 {
            push_word(&mut uses, w);
        } else if bucket == 2 {
            push_word(&mut ins, w);
        } else if bucket == 3 {
            push_word(&mut outs, w);
        }
        i += 1;
    }
    let mut parts: Vec<String> = Vec::new();
    assert(text::strings(parts@) =~= Seq::empty());
    push_part(&mut parts, "in ", &ins);
    push_part(&mut parts, "out ", &outs);
    push_part(&mut parts, "uses ", &uses);
    if frame {
        let ghost before = text::strings(parts@);
        let m = "frame".to_owned();
        parts.push(m);
        assert(text::strings(parts@) =~= before.push(m@));
    }
    join_strings(&parts, " · ")
}

// ── the doc comment ─────────────────────────────────────────────────────────

pub open spec fn not_rule() -> spec_fn(char) -> bool {
    |c: char| c != '-' && c != '=' && c != ' '
}

/// `s` without the rule characters at its ends.
pub open spec fn trim_rule(s: Seq<char>) -> Seq<char> {
    let a = text::first_from(s, not_rule(), 0);
    let b = text::last_below(s, not_rule(), s.len() as int);
    if a >= s.len() {
        Seq::empty()
    } else {
        s.subrange(a, b + 1)
    }
}

/// The text of a comment line, `None` for another line.
pub open spec fn comment_text(line: Seq<char>) -> Option<Seq<char>> {
    match text::strip_prefix(text::trim(line), ";"@) {
        Some(c) => Some(trim_rule(text::trim(c))),
        None => None,
    }
}

/// The comment lines right above line `i`, up to a line that is no comment or whose
/// comment is empty.
pub open spec fn doc_lines(lines: Seq<Seq<char>>, i: int) -> Seq<Seq<char>>
    decreases i,
{
    if i <= 0 {
        Seq::empty()
    } else {
        match comment_text(lines[i - 1]) {
            Some(c) => if c.len() == 0 {
                Seq::empty()
            } else {
                doc_lines(lines, i - 1).push(c)
            },
            None => Seq::empty(),
        }
    }
}

fn is_rule_char(c: char) -> (r: bool)
    ensures
        r == !not_rule()(c),
{
    c == '-' || c == '=' || c == ' '
}

fn trim_rule_of<'a>(s: &'a [char]) -> (r: &'a [char])
    ensures
        r@ == trim_rule(s@),
{
    let mut a: usize = 0;
    while a < s.len()
        invariant_except_break
            a <= s@.len(),
            text::first_from(s@, not_rule(), 0) == text::first_from(s@, not_rule(), a as int),
        ensures
            a <= s@.len(),
            a == text::first_from(s@, not_rule(), 0),
        decreases s@.len() - a,
    {
        if !is_rule_char(s[a]) {
            break;
        }
        a += 1;
    }
    if a == s.len() {
        let e = slice_subrange(s, 0, 0);
        assert(e@ =~= Seq::empty());
        return e;
    }
    proof {
        text::lemma_first_from(s@, not_rule(), 0);
        text::lemma_last_below(s@, not_rule(), s@.len() as int);
    }
    let mut b: usize = s.len();
    while b > a + 1
        invariant_except_break
            a < b <= s@.len(),
            not_rule()(s@[a as int]),
            text::last_below(s@, not_rule(), s@.len() as int) == text::last_below(
                s@,
                not_rule(),
                b as int,
            ),
        ensures
            a < b <= s@.len(),
            b - 1 == text::last_below(s@, not_rule(), s@.len() as int),
        decreases b,
    {
        if !is_rule_char(s[b - 1]) {
            break;
        }
        b -= 1;
    }
    slice_subrange(s, a, b)
}

fn doc_above(v: &Vec<&[char]>, i: usize) -> (r: String)
    requires
        i <= v@.len(),
    ensures
        r@ == text::join(doc_lines(text::slices(v@), i as int), " "@),
{
    let ghost ls = text::slices(v@);
    let mut block: Vec<String> = Vec::new();
    let mut j: usize = i;
    assert(text::strings(block@) =~= Seq::empty());
    while j > 0
        invariant_except_break
            doc_lines(ls, i as int) =~= doc_lines(ls, j as int) + text::strings(block@),
        invariant
            ls == text::slices(v@),
            j <= v@.len(),
        ensures
            doc_lines(ls, i as int) =~= text::strings(block@),
        decreases j,
    {
        assert(ls[j - 1] == v@[j - 1]@);
        let c = match without_prefix(trimmed(v[j - 1]), ";") {
            Some(c) => trim_rule_of(trimmed(c)),
            None => {
                break;
            },
        };
        if c.len() == 0 {
            break;
        }
        let w = string_of(c);
        let ghost before = text::strings(block@);
        block.insert(0, w);
        assert(text::strings(block@) =~= seq![w@] + before);
        assert(doc_lines(ls, i as int) =~= doc_lines(ls, j - 1) + text::strings(block@));
        j -= 1;
    }
    join_strings(&block, " ")
}

// ── definitions ─────────────────────────────────────────────────────────────

/// A definition: the name, the kind and the signature.
pub struct DefinitionView {
    pub name: Seq<char>,
    pub kind: Seq<char>,
    pub signature: Seq<char>,
}

/// The value of an equate, from what follows its name.
pub open spec fn equate_value(rest: Seq<char>) -> Seq<char> {
    match after_keyword(rest, "equ"@) {
        Some(v) => text::trim(v),
        None => text::trim(text::trim(skip_leading(rest, '='))),
    }
}

/// What the line `t` defines.
pub open spec fn definition_on(t: Seq<char>) -> Option<DefinitionView> {
    if after_keyword(t, "proc"@) is Some {
        let rest = after_keyword(t, "proc"@)->0;
        let name = lead(rest);
        if name.len() == 0 {
            None
        } else {
            Some(
                DefinitionView {
                    name,
                    kind: "proc"@,
                    signature: header_signature(text::trim(rest.skip(text::find_ws(rest)))),
                },
            )
        }
    } else if after_keyword(t, "macro"@) is Some {
        let name = lead(after_keyword(t, "macro"@)->0);
        if name.len() == 0 {
            None
        } else {
            Some(DefinitionView { name, kind: "macro"@, signature: ""@ })
        }
    } else if label_name(t) is Some {
        Some(DefinitionView { name: label_name(t)->0, kind: "label"@, signature: ""@ })
    } else {
        let name = lead(t);
        let rest = after_lead(t);
        let op = lead(rest);
        if !name_shaped(name) || op.len() == 0 {
            None
        } else if text::same_ignoring_case(op, "equ"@) || op == "="@ {
            Some(DefinitionView { name, kind: "equate"@, signature: equate_value(rest) })
        } else if data_word(op) && lead(after_lead(rest)) != "ptr"@ {
            Some(DefinitionView { name, kind: "data"@, signature: text::upper_all(op) })
        } else {
            None
        }
    }
}

/// A definition that was found.
struct Definition {
    name: String,
    kind: String,
    signature: String,
}

impl View for Definition {
    type V = DefinitionView;

    closed spec fn view(&self) -> DefinitionView {
        DefinitionView { name: self.name@, kind: self.kind@, signature: self.signature@ }
    }
}

spec fn found_view(r: Option<Definition>) -> Option<DefinitionView> {
    match r {
        Some(d) => Some(d@),
        None => None,
    }
}

fn value_of_equate(rest: &[char]) -> (r: String)
    ensures
        r@ == equate_value(rest@),
{
    match strip_kw(rest, "equ") {
        Some(v) => string_of(trimmed(v)),
        None => string_of(trimmed(trimmed(skip_leading_of(rest, '=')))),
    }
}

fn def_on_line(t: &[char]) -> (r: Option<Definition>)
    ensures
        found_view(r) == definition_on(t@),
{
    match strip_kw(t, "proc") {
        Some(rest) => {
            let n: usize = index_of_ws(rest);
            if n == 0 {
                return None;
            }
            let tail = slice_subrange(rest, n, rest.len());
            let signature = proc_signature(trimmed(tail));
            return Some(
                Definition {
                    name: string_of(slice_subrange(rest, 0, n)),
                    kind: "proc".to_owned(),
                    signature,
                },
            );
        },
        None => {},
    }
    match strip_kw(t, "macro") {
        Some(rest) => {
            let n: usize = index_of_ws(rest);
            if n == 0 {
                return None;
            }
            return Some(
                Definition {
                    name: string_of(slice_subrange(rest, 0, n)),
                    kind: "macro".to_owned(),
                    signature: "".to_owned(),
                },
            );
        },
        None => {},
    }
    match leading_label(t) {
        Some(name) => {
            return Some(
                Definition {
                    name: string_of(name),
                    kind: "label".to_owned(),
                    signature: "".to_owned(),
                },
            );
        },
        None => {},
    }
    let name = lead_of(t);
    let rest = after_lead_of(t);
    let op = lead_of(rest);
    if !is_name(name) || op.len() == 0 {
        return None;
    }
    let equal = is(op, "=");
    if is_ignoring_case(op, "equ") || equal {
        return Some(
            Definition {
                name: string_of(name),
                kind: "equate".to_owned(),
                signature: value_of_equate(rest),
            },
        );
    }
    let cast = is(lead_of(after_lead_of(rest)), "ptr");
    if is_data_type(op) && !cast {
        let up = to_upper(op);
        return Some(
            Definition {
                name: string_of(name),
                kind: "data".to_owned(),
                signature: string_of(&up),
            },
        );
    }
    None
}

// ── the scan ────────────────────────────────────────────────────────────────

/// The module that owns the line after a bare line `t`.
pub open spec fn module_after(module: Option<Seq<char>>, t: Seq<char>) -> Option<Seq<char>> {
    if lead(t) == "module"@ {
        let name = lead(after_lead(t));
        if name.len() == 0 {
            None
        } else {
            Some(name)
        }
    } else if lead(t) == "endmodule"@ {
        None
    } else {
        module
    }
}

/// The public symbol that line `i` defines in `module`.
pub open spec fn symbol_on(
    file: Seq<char>,
    all: Seq<Seq<char>>,
    module: Option<Seq<char>>,
    i: int,
) -> Option<SymbolView> {
    let t = bare_line(all[i]);
    if lead(t) == "module"@ || lead(t) == "endmodule"@ || module is None {
        None
    } else {
        match definition_on(t) {
            Some(d) => if d.name.len() > 0 && text::is_upper(d.name[0]) {
                Some(
                    SymbolView {
                        name: d.name,
                        module: module->0,
                        file,
                        line: i + 1,
                        kind: d.kind,
                        signature: d.signature,
                        summary: text::join(doc_lines(all, i), " "@),
                    },
                )
            } else {
                None
            },
            None => None,
        }
    }
}

/// The public symbols from line `i` on.
pub open spec fn symbols_from(
    file: Seq<char>,
    all: Seq<Seq<char>>,
    module: Option<Seq<char>>,
    i: int,
) -> Seq<SymbolView>
    decreases all.len() - i,
{
    if i >= all.len() {
        Seq::empty()
    } else {
        let rest = symbols_from(file, all, module_after(module, bare_line(all[i])), i + 1);
        match symbol_on(file, all, module, i) {
            Some(s) => seq![s] + rest,
            None => rest,
        }
    }
}

/// The public symbols of a file's modules.
pub open spec fn public_symbols(file: Seq<char>, text: Seq<char>) -> Seq<SymbolView> {
    symbols_from(file, text::lines(text), None, 0)
}

spec fn module_view(m: Option<Vec<char>>) -> Option<Seq<char>> {
    match m {
        Some(v) => Some(v@),
        None => None,
    }
}

/// The public symbols of a file's modules, each with its place, its kind, its
/// signature and the doc comment above it. Lines outside any module define none.
pub fn scan_was(file: &str, text: &str) -> (r: Vec<LibrarySymbol>)
    ensures
        symbols_view(r@) == public_symbols(file@, text@),
{
    let chars = chars_of(text);
    let v = lines_of(&chars);
    let ghost all = text::lines(text@);
    let ghost want = public_symbols(file@, text@);
    let mut out: Vec<LibrarySymbol> = Vec::new();
    let mut module: Option<Vec<char>> = None;
    let n: usize = v.len();
    let mut i: usize = 0;
    assert(symbols_view(out@) =~= Seq::empty());
    assert(text::slices(v@).len() == v@.len());
    while i < n
        invariant
            n == v@.len(),
            all == text::slices(v@),
            i <= n,
            symbols_view(out@) + symbols_from(file@, all, module_view(module), i as int) =~= want,
        decreases n - i,
    {
        let ghost before = symbols_view(out@);
        let ghost m0 = module_view(module);
        assert(all[i as int] == v@[i as int]@);
        proof {
            reveal_strlit("module");
            reveal_strlit("endmodule");
        }
        let t = bare_line_of(v[i]);
        let head = lead_of(t);
        if is(head, "module") {
            let name = lead_of(after_lead_of(t));
            module = if name.len() == 0 {
                None
            } else {
                Some(copy_of(name))
            };
        } else if is(head, "endmodule") {
            module = None;
        } else {
            match &module {
                Some(m) => {
                    match def_on_line(t) {
                        Some(d) => {
                            let dn = chars_of(d.name.as_str());
                            if dn.len() > 0 && char_is_upper(dn[0]) {
                                let s = LibrarySymbol {
                                    name: d.name,
                                    module: string_of(m),
                                    file: file.to_owned(),
                                    line: i + 1,
                                    kind: d.kind,
                                    signature: d.signature,
                                    summary: doc_above(&v, i),
                                };
                                out.push(s);
                                assert(symbols_view(out@) =~= before.push(s@));
                                assert(symbol_on(file@, all, m0, i as int) == Some(s@));
                                assert(before + (seq![s@] + symbols_from(
                                    file@,
                                    all,
                                    m0,
                                    i + 1,
                                )) =~= symbols_view(out@) + symbols_from(
                                    file@,
                                    all,
                                    m0,
                                    i + 1,
                                ));
                            }
                        },
                        None => {},
                    }
                },
                None => {},
            }
        }
        i += 1;
    }
    assert(symbols_view(out@) =~= want);
    out
}

/// Every symbol found is public and stands on a line of the file.
pub proof fn law_symbols_are_public(file: Seq<char>, text: Seq<char>)
    ensures
        forall|k: int|
            0 <= k < public_symbols(file, text).len() ==> {
                let s = #[trigger] public_symbols(file, text)[k];
                &&& s.file == file
                &&& s.name.len() > 0 && text::is_upper(s.name[0])
                &&& 1 <= s.line <= text::lines(text).len()
            },
{
    lemma_symbols_public(file, text::lines(text), None, 0);
}

proof fn lemma_symbols_public(
    file: Seq<char>,
    all: Seq<Seq<char>>,
    module: Option<Seq<char>>,
    i: int,
)
    requires
        0 <= i,
    ensures
        forall|k: int|
            0 <= k < symbols_from(file, all, module, i).len() ==> {
                let s = #[trigger] symbols_from(file, all, module, i)[k];
                &&& s.file == file
                &&& s.name.len() > 0 && text::is_upper(s.name[0])
                &&& i < s.line <= all.len()
            },
    decreases all.len() - i,
{
    if i < all.len() {
        let m = module_after(module, bare_line(all[i]));
        lemma_symbols_public(file, all, m, i + 1);
        let rest = symbols_from(file, all, m, i + 1);
        let v = symbols_from(file, all, module, i);
        assert forall|k: int| 0 <= k < v.len() implies {
            let s = #[trigger] v[k];
            &&& s.file == file
            &&& s.name.len() > 0 && text::is_upper(s.name[0])
            &&& i < s.line <= all.len()
        } by {
            match symbol_on(file, all, module, i) {
                Some(s) => {
                    if k > 0 {
                        assert(v[k] == rest[k - 1]);
                    }
                },
                None => {
                    assert(v[k] == rest[k]);
                },
            }
        }
    }
}

/// Text without a `module` line defines no symbol.
pub proof fn law_no_module_no_symbols(file: Seq<char>, text: Seq<char>)
    requires
        forall|k: int|
            0 <= k < text::lines(text).len() ==> lead(bare_line(#[trigger] text::lines(text)[k]))
                != "module"@,
    ensures
        public_symbols(file, text).len() == 0,
{
    lemma_no_module(file, text::lines(text), 0);
}

proof fn lemma_no_module(file: Seq<char>, all: Seq<Seq<char>>, i: int)
    requires
        0 <= i,
        forall|k: int| 0 <= k < all.len() ==> lead(bare_line(#[trigger] all[k])) != "module"@,
    ensures
        symbols_from(file, all, None, i).len() == 0,
    decreases all.len() - i,
{
    if i < all.len() {
        lemma_no_module(file, all, i + 1);
    }
}

} // verus!
