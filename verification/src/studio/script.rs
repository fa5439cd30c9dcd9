//! The verbs that drive a session from a script.
use crate::numeral;
use crate::studio::doc_model;
use crate::studio::outline;
use crate::studio::session;
use crate::text;
use crate::numeral::reads_as_number;
use crate::studio::session::{
    Act, ActView, KEY_BACK, KEY_DELETE, KEY_DOWN, KEY_END, KEY_ENTER, KEY_ESCAPE, KEY_HOME,
    KEY_LEFT, KEY_NEXT, KEY_PRIOR, KEY_RIGHT, KEY_TAB, KEY_UP, Session, SessionView, find_matches,
};
use crate::text::{
    char_code, char_upper, chars_of, copy_of, is, is_ignoring_case, number_text, push_dec,
    split_at_char, string_of, to_lower, unsigned_of,
};
use vstd::prelude::*;

verus! {

// ── keys by name ────────────────────────────────────────────────────────────

/// A part of a key's name that is Ctrl.
pub open spec fn is_ctrl(p: Seq<char>) -> bool {
    text::lower_all(p) == "ctrl"@ || text::lower_all(p) == "control"@
}

/// A part of a key's name that is Shift.
pub open spec fn is_shift(p: Seq<char>) -> bool {
    text::lower_all(p) == "shift"@
}

/// One of the first `n` parts is Ctrl.
pub open spec fn any_ctrl(parts: Seq<Seq<char>>, n: int) -> bool
    decreases n,
{
    n > 0 && (is_ctrl(parts[n - 1]) || any_ctrl(parts, n - 1))
}

/// One of the first `n` parts is Shift.
pub open spec fn any_shift(parts: Seq<Seq<char>>, n: int) -> bool
    decreases n,
{
    n > 0 && (is_shift(parts[n - 1]) || any_shift(parts, n - 1))
}

/// The last of the first `n` parts that is no modifier; `whole` where there is none.
pub open spec fn key_name(parts: Seq<Seq<char>>, whole: Seq<char>, n: int) -> Seq<char>
    decreases n,
{
    if n <= 0 {
        whole
    } else if is_ctrl(parts[n - 1]) || is_shift(parts[n - 1]) {
        key_name(parts, whole, n - 1)
    } else {
        parts[n - 1]
    }
}

/// The code of a key's name in lower case.
pub open spec fn key_code(name: Seq<char>) -> Option<u16> {
    if name == "enter"@ || name == "return"@ {
        Some(KEY_ENTER)
    } else if name == "backspace"@ || name == "back"@ {
        Some(KEY_BACK)
    } else if name == "delete"@ || name == "del"@ {
        Some(KEY_DELETE)
    } else if name == "tab"@ {
        Some(KEY_TAB)
    } else if name == "escape"@ || name == "esc"@ {
        Some(KEY_ESCAPE)
    } else if name == "left"@ {
        Some(KEY_LEFT)
    } else if name == "up"@ {
        Some(KEY_UP)
    } else if name == "right"@ {
        Some(KEY_RIGHT)
    } else if name == "down"@ {
        Some(KEY_DOWN)
    } else if name == "home"@ {
        Some(KEY_HOME)
    } else if name == "end"@ {
        Some(KEY_END)
    } else if name == "pageup"@ || name == "prior"@ {
        Some(KEY_PRIOR)
    } else if name == "pagedown"@ || name == "next"@ {
        Some(KEY_NEXT)
    } else if name.len() == 1 && (name[0] as u32) < 128 {
        Some(text::upper(name[0]) as u16)
    } else {
        None
    }
}

/// The key that a text names: its code, Ctrl and Shift.
pub open spec fn key_named(spec_text: Seq<char>) -> Option<(u16, bool, bool)> {
    let parts = text::split(spec_text, '+');
    let n = parts.len() as int;
    match key_code(text::lower_all(key_name(parts, spec_text, n))) {
        Some(code) => Some((code, any_ctrl(parts, n), any_shift(parts, n))),
        None => None,
    }
}

/// The character that a key yields.
pub open spec fn char_for_key(vk: u16, shift: bool) -> Option<u32> {
    if vk == KEY_ENTER || vk == KEY_BACK || vk == KEY_TAB || vk == KEY_ESCAPE {
        Some(vk as u32)
    } else if 0x41 <= vk <= 0x5A {
        Some(
            if shift {
                vk as u32
            } else {
                (vk + 32) as u32
            },
        )
    } else if 0x30 <= vk <= 0x39 {
        Some(vk as u32)
    } else {
        None
    }
}

fn code_of_name(name: &[char]) -> (r: Option<u16>)
    ensures
        r == key_code(name@),
{
    if is(name, "enter") || is(name, "return") {
        Some(KEY_ENTER)
    } else if is(name, "backspace") || is(name, "back") {
        Some(KEY_BACK)
    } else if is(name, "delete") || is(name, "del") {
        Some(KEY_DELETE)
    } else if is(name, "tab") {
        Some(KEY_TAB)
    } else if is(name, "escape") || is(name, "esc") {
        Some(KEY_ESCAPE)
    } else if is(name, "left") {
        Some(KEY_LEFT)
    } else if is(name, "up") {
        Some(KEY_UP)
    } else if is(name, "right") {
        Some(KEY_RIGHT)
    } else if is(name, "down") {
        Some(KEY_DOWN)
    } else if is(name, "home") {
        Some(KEY_HOME)
    } else if is(name, "end") {
        Some(KEY_END)
    } else if is(name, "pageup") || is(name, "prior") {
        Some(KEY_PRIOR)
    } else if is(name, "pagedown") || is(name, "next") {
        Some(KEY_NEXT)
    } else if name.len() == 1 && (name[0] as u32) < 128 {
        Some(char_code(char_upper(name[0])) as u16)
    } else {
        None
    }
}

/// The key that a text such as `Ctrl+S` names: its code, Ctrl and Shift.
pub fn map_key(spec_text: &str) -> (r: Option<(u16, bool, bool)>)
    ensures
        r == key_named(spec_text@),
{
    let c = chars_of(spec_text);
    let v = split_at_char(&c, '+');
    let ghost parts = text::split(spec_text@, '+');
    assert(text::slices(v@).len() == v@.len());
    let mut ctrl = false;
    let mut shift = false;
    let mut name: Vec<char> = copy_of(&c);
    let mut i: usize = 0;
    while i < v.len()
        invariant
            parts == text::slices(v@),
            i <= v@.len(),
            ctrl == any_ctrl(parts, i as int),
            shift == any_shift(parts, i as int),
            name@ == key_name(parts, spec_text@, i as int),
        decreases v@.len() - i,
    {
        assert(parts[i as int] == v@[i as int]@);
        let low = to_lower(v[i]);
        proof {
            reveal_strlit("ctrl");
            reveal_strlit("control");
            reveal_strlit("shift");
            assert("ctrl"@.len() == 4 && "control"@.len() == 7 && "shift"@.len() == 5);
        }
        if is(&low, "ctrl") || is(&low, "control") {
            ctrl = true;
        } else if is(&low, "shift") {
            shift = true;
        } else {
            name = copy_of(v[i]);
        }
        i += 1;
    }
    let low = to_lower(&name);
    match code_of_name(&low) {
        Some(code) => Some((code, ctrl, shift)),
        None => None,
    }
}

/// The character that a key yields besides, so that a script's key does what a
/// pressed key does.
pub fn key_char(vk: u16, shift: bool) -> (r: Option<u32>)
    ensures
        r == char_for_key(vk, shift),
{
    if vk == KEY_ENTER || vk == KEY_BACK || vk == KEY_TAB || vk == KEY_ESCAPE {
        Some(vk as u32)
    } else if vk >= 0x41 && vk <= 0x5A {
        if shift {
            Some(vk as u32)
        } else {
            Some((vk + 32) as u32)
        }
    } else if vk >= 0x30 && vk <= 0x39 {
        Some(vk as u32)
    } else {
        None
    }
}

// ── verbs ───────────────────────────────────────────────────────────────────

/// What a script asks for. Coordinates and sizes of panes stay as they are written.
#[derive(Debug, Clone)]
pub enum Verb {
    Type(String),
    Key { vk: u16, ctrl: bool, shift: bool },
    Caret { row: usize, col: usize },
    Move { x: String, y: String },
    Click { x: String, y: String },
    Drag { x1: String, y1: String, x2: String, y2: String },
    SplitCol(String),
    SplitRow(String),
    Pane { assistant: bool, open: bool },
    Open(String),
    New,
    Size { w: usize, h: usize },
    Screenshot(String),
    Text,
    Line(usize),
    LineCount,
    CaretRow,
    CaretCol,
    Notice,
    SplitFrac,
    OutputHeight,
    AssistantOpen,
    OutputOpen,
    HoverSplit,
    FindActive,
    FindQuery,
    FindCount,
    FindSelected,
    /// An assertion that held.
    Held,
}

/// A verb in mathematical terms.
pub enum VerbView {
    Type(Seq<char>),
    Key(u16, bool, bool),
    Caret(int, int),
    Move(Seq<char>, Seq<char>),
    Click(Seq<char>, Seq<char>),
    Drag(Seq<char>, Seq<char>, Seq<char>, Seq<char>),
    SplitCol(Seq<char>),
    SplitRow(Seq<char>),
    Pane(bool, bool),
    Open(Seq<char>),
    New,
    Size(int, int),
    Screenshot(Seq<char>),
    Text,
    Line(int),
    LineCount,
    CaretRow,
    CaretCol,
    Notice,
    SplitFrac,
    OutputHeight,
    AssistantOpen,
    OutputOpen,
    HoverSplit,
    FindActive,
    FindQuery,
    FindCount,
    FindSelected,
    Held,
}

impl View for Verb {
    type V = VerbView;

    open spec fn view(&self) -> VerbView {
        match *self {
            Verb::Type(t) => VerbView::Type(t@),
            Verb::Key { vk, ctrl, shift } => VerbView::Key(vk, ctrl, shift),
            Verb::Caret { row, col } => VerbView::Caret(row as int, col as int),
            Verb::Move { x, y } => VerbView::Move(x@, y@),
            Verb::Click { x, y } => VerbView::Click(x@, y@),
            Verb::Drag { x1, y1, x2, y2 } => VerbView::Drag(x1@, y1@, x2@, y2@),
            Verb::SplitCol(v) => VerbView::SplitCol(v@),
            Verb::SplitRow(v) => VerbView::SplitRow(v@),
            Verb::Pane { assistant, open } => VerbView::Pane(assistant, open),
            Verb::Open(p) => VerbView::Open(p@),
            Verb::New => VerbView::New,
            Verb::Size { w, h } => VerbView::Size(w as int, h as int),
            Verb::Screenshot(p) => VerbView::Screenshot(p@),
            Verb::Text => VerbView::Text,
            Verb::Line(n) => VerbView::Line(n as int),
            Verb::LineCount => VerbView::LineCount,
            Verb::CaretRow => VerbView::CaretRow,
            Verb::CaretCol => VerbView::CaretCol,
            Verb::Notice => VerbView::Notice,
            Verb::SplitFrac => VerbView::SplitFrac,
            Verb::OutputHeight => VerbView::OutputHeight,
            Verb::AssistantOpen => VerbView::AssistantOpen,
            Verb::OutputOpen => VerbView::OutputOpen,
            Verb::HoverSplit => VerbView::HoverSplit,
            Verb::FindActive => VerbView::FindActive,
            Verb::FindQuery => VerbView::FindQuery,
            Verb::FindCount => VerbView::FindCount,
            Verb::FindSelected => VerbView::FindSelected,
            Verb::Held => VerbView::Held,
        }
    }
}

/// How many arguments a verb takes at least and at most.
pub open spec fn arity_of(name: Seq<char>) -> Option<(int, int)> {
    if name == "drag"@ {
        Some((4, 4))
    } else if name == "assert-eq"@ {
        Some((2, 3))
    } else if name == "assert"@ {
        Some((1, 2))
    } else if name == "caret"@ || name == "move"@ || name == "click"@ || name == "splitter"@ || name
        == "size"@ {
        Some((2, 2))
    } else if name == "type"@ || name == "key"@ || name == "collapse"@ || name == "expand"@ || name
        == "open"@ || name == "screenshot"@ || name == "line"@ {
        Some((1, 1))
    } else if name == "new"@ || name == "text"@ || name == "linecount"@ || name == "caret-row"@
        || name == "caret-col"@ || name == "notice"@ || name == "split-frac"@ || name
        == "output-h"@ || name == "assistant-open"@ || name == "output-open"@ || name
        == "hover-split"@ || name == "find-active"@ || name == "find-query"@ || name
        == "find-count"@ || name == "find-selected"@ {
        Some((0, 0))
    } else {
        None
    }
}

/// How many arguments a verb takes at least and at most; `None` for a word that is no
/// verb.
pub fn verb_arity(name: &str) -> (r: Option<(usize, usize)>)
    ensures
        (match r {
            Some((a, b)) => Some((a as int, b as int)),
            None => None,
        }) == arity_of(name@),
{
    let n = chars_of(name);
    if is(&n, "drag") {
        Some((4, 4))
    } else if is(&n, "assert-eq") {
        Some((2, 3))
    } else if is(&n, "assert") {
        Some((1, 2))
    } else if is(&n, "caret") || is(&n, "move") || is(&n, "click") || is(&n, "splitter") || is(
        &n,
        "size",
    ) {
        Some((2, 2))
    } else if is(&n, "type") || is(&n, "key") || is(&n, "collapse") || is(&n, "expand") || is(
        &n,
        "open",
    ) || is(&n, "screenshot") || is(&n, "line") {
        Some((1, 1))
    } else if is(&n, "new") || is(&n, "text") || is(&n, "linecount") || is(&n, "caret-row") || is(
        &n,
        "caret-col",
    ) || is(&n, "notice") || is(&n, "split-frac") || is(&n, "output-h") || is(&n, "assistant-open")
        || is(&n, "output-open") || is(&n, "hover-split") || is(&n, "find-active") || is(
        &n,
        "find-query",
    ) || is(&n, "find-count") || is(&n, "find-selected") {
        Some((0, 0))
    } else {
        None
    }
}

/// The argument `i` as a count.
pub open spec fn count_arg(args: Seq<Seq<char>>, i: int) -> Result<int, Seq<char>> {
    match text::parse_unsigned(args[i], usize::MAX as int) {
        Some(n) => Ok(n),
        None => Err("argument "@ + text::dec(i + 1) + " must be an integer"@),
    }
}

/// The argument `i`, which must be a number.
pub open spec fn number_arg(args: Seq<Seq<char>>, i: int) -> Result<Seq<char>, Seq<char>> {
    if numeral::is_numeral(args[i]) {
        Ok(args[i])
    } else {
        Err("argument "@ + text::dec(i + 1) + " must be a number"@)
    }
}

/// The first `n` arguments are numbers, or which is none.
pub open spec fn numbers_to(args: Seq<Seq<char>>, n: int) -> Result<(), Seq<char>>
    decreases n,
{
    if n <= 0 {
        Ok(())
    } else {
        match numbers_to(args, n - 1) {
            Ok(_) => match number_arg(args, n - 1) {
                Ok(_) => Ok(()),
                Err(m) => Err(m),
            },
            Err(m) => Err(m),
        }
    }
}

/// A value that an assertion does not accept: nothing, `0` or `false`.
pub open spec fn is_false(v: Seq<char>) -> bool {
    v.len() == 0 || v == "0"@ || text::same_ignoring_case(v, "false"@)
}

/// What an assertion says.
pub open spec fn assert_step(args: Seq<Seq<char>>) -> Result<VerbView, Seq<char>> {
    if !is_false(args[0]) {
        Ok(VerbView::Held)
    } else if args.len() > 1 {
        Err(args[1])
    } else {
        Err("assertion failed: "@ + args[0])
    }
}

/// What an assertion of equality says.
pub open spec fn assert_eq_step(args: Seq<Seq<char>>) -> Result<VerbView, Seq<char>> {
    if args[0] == args[1] {
        Ok(VerbView::Held)
    } else {
        let before = if args.len() > 2 {
            args[2] + ": "@
        } else {
            Seq::empty()
        };
        Err(before + "expected `"@ + args[1] + "`, got `"@ + args[0] + "`"@)
    }
}

/// A pane hidden or shown.
pub open spec fn pane_step(name: Seq<char>, open: bool) -> Result<VerbView, Seq<char>> {
    if name == "assistant"@ {
        Ok(VerbView::Pane(true, open))
    } else if name == "output"@ {
        Ok(VerbView::Pane(false, open))
    } else {
        Err("unknown pane: "@ + name + " (assistant|output)"@)
    }
}

/// Two counts.
pub open spec fn two_counts(args: Seq<Seq<char>>) -> Result<(int, int), Seq<char>> {
    match count_arg(args, 0) {
        Ok(a) => match count_arg(args, 1) {
            Ok(b) => Ok((a, b)),
            Err(m) => Err(m),
        },
        Err(m) => Err(m),
    }
}

/// What a verb with its arguments asks for.
pub open spec fn verb_for(name: Seq<char>, args: Seq<Seq<char>>) -> Result<VerbView, Seq<char>> {
    if name == "drag"@ {
        match numbers_to(args, 4) {
            Ok(_) => Ok(VerbView::Drag(args[0], args[1], args[2], args[3])),
            Err(m) => Err(m),
        }
    } else if name == "assert-eq"@ {
        assert_eq_step(args)
    } else if name == "assert"@ {
        assert_step(args)
    } else if name == "caret"@ {
        match two_counts(args) {
            Ok((a, b)) => Ok(VerbView::Caret(a, b)),
            Err(m) => Err(m),
        }
    } else if name == "size"@ {
        match two_counts(args) {
            Ok((a, b)) => Ok(VerbView::Size(a, b)),
            Err(m) => Err(m),
        }
    } else if name == "move"@ {
        match numbers_to(args, 2) {
            Ok(_) => Ok(VerbView::Move(args[0], args[1])),
            Err(m) => Err(m),
        }
    } else if name == "click"@ {
        match numbers_to(args, 2) {
            Ok(_) => Ok(VerbView::Click(args[0], args[1])),
            Err(m) => Err(m),
        }
    } else if name == "splitter"@ {
        match number_arg(args, 1) {
            Ok(v) => if args[0] == "col"@ {
                Ok(VerbView::SplitCol(v))
            } else if args[0] == "row"@ {
                Ok(VerbView::SplitRow(v))
            } else {
                Err("splitter: expected col|row, got "@ + args[0])
            },
            Err(m) => Err(m),
        }
    } else if name == "type"@ {
        Ok(VerbView::Type(args[0]))
    } else if name == "key"@ {
        match key_named(args[0]) {
            Some((vk, ctrl, shift)) => Ok(VerbView::Key(vk, ctrl, shift)),
            None => Err("unknown key: "@ + args[0]),
        }
    } else if name == "collapse"@ {
        pane_step(args[0], false)
    } else if name == "expand"@ {
        pane_step(args[0], true)
    } else if name == "open"@ {
        Ok(VerbView::Open(args[0]))
    } else if name == "screenshot"@ {
        Ok(VerbView::Screenshot(args[0]))
    } else if name == "line"@ {
        match count_arg(args, 0) {
            Ok(n) => Ok(VerbView::Line(n)),
            Err(m) => Err(m),
        }
    } else if name == "new"@ {
        Ok(VerbView::New)
    } else if name == "text"@ {
        Ok(VerbView::Text)
    } else if name == "linecount"@ {
        Ok(VerbView::LineCount)
    } else if name == "caret-row"@ {
        Ok(VerbView::CaretRow)
    } else if name == "caret-col"@ {
        Ok(VerbView::CaretCol)
    } else if name == "notice"@ {
        Ok(VerbView::Notice)
    } else if name == "split-frac"@ {
        Ok(VerbView::SplitFrac)
    } else if name == "output-h"@ {
        Ok(VerbView::OutputHeight)
    } else if name == "assistant-open"@ {
        Ok(VerbView::AssistantOpen)
    } else if name == "output-open"@ {
        Ok(VerbView::OutputOpen)
    } else if name == "hover-split"@ {
        Ok(VerbView::HoverSplit)
    } else if name == "find-active"@ {
        Ok(VerbView::FindActive)
    } else if name == "find-query"@ {
        Ok(VerbView::FindQuery)
    } else if name == "find-count"@ {
        Ok(VerbView::FindCount)
    } else {
        Ok(VerbView::FindSelected)
    }
}

/// The view of a verb or of why there is none.
pub open spec fn verb_result(r: Result<Verb, String>) -> Result<VerbView, Seq<char>> {
    match r {
        Ok(v) => Ok(v@),
        Err(m) => Err(m@),
    }
}

fn count_of(args: &[String], i: usize) -> (r: Result<usize, String>)
    requires
        i < args@.len(),
    ensures
        (match r {
            Ok(n) => Ok(n as int),
            Err(m) => Err(m@),
        }) == count_arg(text::strings(args@), i as int),
{
    assert(text::strings(args@)[i as int] == args@[i as int]@);
    let c = chars_of(args[i].as_str());
    match unsigned_of(&c, usize::MAX as u64) {
        Some(n) => Ok(n as usize),
        None => {
            let mut m = "argument ".to_owned();
            push_dec(&mut m, i as i128 + 1);
            m.append(" must be an integer");
            Err(m)
        },
    }
}

fn number_of(args: &[String], i: usize) -> (r: Result<String, String>)
    requires
        i < args@.len(),
    ensures
        (match r {
            Ok(v) => Ok(v@),
            Err(m) => Err(m@),
        }) == number_arg(text::strings(args@), i as int),
{
    assert(text::strings(args@)[i as int] == args@[i as int]@);
    let c = chars_of(args[i].as_str());
    if reads_as_number(&c) {
        Ok(args[i].clone())
    } else {
        let mut m = "argument ".to_owned();
        push_dec(&mut m, i as i128 + 1);
        m.append(" must be a number");
        Err(m)
    }
}

fn two_numbers_of(args: &[String]) -> (r: Result<(String, String), String>)
    requires
        args@.len() >= 2,
    ensures
        match numbers_to(text::strings(args@), 2) {
            Ok(_) => r matches Ok((x, y)) && x@ == args@[0]@ && y@ == args@[1]@,
            Err(m) => r matches Err(e) && e@ == m,
        },
{
    proof {
        reveal_with_fuel(numbers_to, 3);
    }
    assert(text::strings(args@)[0] == args@[0]@);
    assert(text::strings(args@)[1] == args@[1]@);
    match number_of(args, 0) {
        Ok(x) => match number_of(args, 1) {
            Ok(y) => Ok((x, y)),
            Err(m) => Err(m),
        },
        Err(m) => Err(m),
    }
}

fn drag_of(args: &[String]) -> (r: Result<Verb, String>)
    requires
        args@.len() == 4,
    ensures
        verb_result(r) == verb_for("drag"@, text::strings(args@)),
{
    proof {
        reveal_with_fuel(numbers_to, 5);
    }
    assert(text::strings(args@)[0] == args@[0]@);
    assert(text::strings(args@)[1] == args@[1]@);
    assert(text::strings(args@)[2] == args@[2]@);
    assert(text::strings(args@)[3] == args@[3]@);
    let (x1, y1) = match two_numbers_of(args) {
        Ok(p) => p,
        Err(m) => return Err(m),
    };
    match number_of(args, 2) {
        Ok(x2) => match number_of(args, 3) {
            Ok(y2) => Ok(Verb::Drag { x1, y1, x2, y2 }),
            Err(m) => Err(m),
        },
        Err(m) => Err(m),
    }
}

fn two_counts_of(args: &[String]) -> (r: Result<(usize, usize), String>)
    requires
        args@.len() == 2,
    ensures
        (match r {
            Ok((a, b)) => Ok((a as int, b as int)),
            Err(m) => Err(m@),
        }) == two_counts(text::strings(args@)),
{
    match count_of(args, 0) {
        Ok(a) => match count_of(args, 1) {
            Ok(b) => Ok((a, b)),
            Err(m) => Err(m),
        },
        Err(m) => Err(m),
    }
}

fn check_true(args: &[String]) -> (r: Result<Verb, String>)
    requires
        1 <= args@.len() <= 2,
    ensures
        verb_result(r) == assert_step(text::strings(args@)),
{
    assert(text::strings(args@)[0] == args@[0]@);
    let v = chars_of(args[0].as_str());
    let none = v.len() == 0 || is(&v, "0") || is_ignoring_case(&v, "false");
    if !none {
        Ok(Verb::Held)
    } else if args.len() > 1 {
        assert(text::strings(args@)[1] == args@[1]@);
        Err(args[1].clone())
    } else {
        let mut m = "assertion failed: ".to_owned();
        m.append(args[0].as_str());
        Err(m)
    }
}

fn check_equal(args: &[String]) -> (r: Result<Verb, String>)
    requires
        2 <= args@.len() <= 3,
    ensures
        verb_result(r) == assert_eq_step(text::strings(args@)),
{
    assert(text::strings(args@)[0] == args@[0]@);
    assert(text::strings(args@)[1] == args@[1]@);
    let v = chars_of(args[0].as_str());
    if is(&v, args[1].as_str()) {
        return Ok(Verb::Held);
    }
    let mut m = if args.len() > 2 {
        assert(text::strings(args@)[2] == args@[2]@);
        let mut p = args[2].clone();
        p.append(": ");
        p
    } else {
        proof {
            reveal_strlit("");
            assert(""@ =~= Seq::empty());
        }
        "".to_owned()
    };
    m.append("expected `");
    m.append(args[1].as_str());
    m.append("`, got `");
    m.append(args[0].as_str());
    m.append("`");
    Err(m)
}

fn pane(name: &str, open: bool) -> (r: Result<Verb, String>)
    ensures
        verb_result(r) == pane_step(name@, open),
{
    let n = chars_of(name);
    if is(&n, "assistant") {
        Ok(Verb::Pane { assistant: true, open })
    } else if is(&n, "output") {
        Ok(Verb::Pane { assistant: false, open })
    } else {
        let mut m = "unknown pane: ".to_owned();
        m.append(name);
        m.append(" (assistant|output)");
        Err(m)
    }
}

fn verb_without_args(n: &[char]) -> (r: Verb)
    requires
        arity_of(n@) == Some((0int, 0int)),
    ensures
        verb_for(n@, Seq::empty()) == Ok::<VerbView, Seq<char>>(r@),
{
    if is(n, "new") {
        Verb::New
    } else if is(n, "text") {
        Verb::Text
    } else if is(n, "linecount") {
        Verb::LineCount
    } else if is(n, "caret-row") {
        Verb::CaretRow
    } else if is(n, "caret-col") {
        Verb::CaretCol
    } else if is(n, "notice") {
        Verb::Notice
    } else if is(n, "split-frac") {
        Verb::SplitFrac
    } else if is(n, "output-h") {
        Verb::OutputHeight
    } else if is(n, "assistant-open") {
        Verb::AssistantOpen
    } else if is(n, "output-open") {
        Verb::OutputOpen
    } else if is(n, "hover-split") {
        Verb::HoverSplit
    } else if is(n, "find-active") {
        Verb::FindActive
    } else if is(n, "find-query") {
        Verb::FindQuery
    } else if is(n, "find-count") {
        Verb::FindCount
    } else {
        Verb::FindSelected
    }
}

/// What a verb with its arguments asks for, or the script's error.
pub fn read_verb(name: &str, args: &[String]) -> (r: Result<Verb, String>)
    requires
        arity_of(name@) matches Some((a, b)) && a <= args@.len() <= b,
    ensures
        verb_result(r) == verb_for(name@, text::strings(args@)),
{
    let ghost av = text::strings(args@);
    let n = chars_of(name);
    assert(av.len() == args@.len());
    assert(args@.len() > 0 ==> av[0] == args@[0]@);
    assert(args@.len() > 1 ==> av[1] == args@[1]@);
    assert(args@.len() > 2 ==> av[2] == args@[2]@);
    assert(args@.len() > 3 ==> av[3] == args@[3]@);
    if args.len() == 0 {
        assert(av =~= Seq::empty());
        return Ok(verb_without_args(&n));
    }
    if is(&n, "drag") {
        drag_of(args)
    } else if is(&n, "assert-eq") {
        check_equal(args)
    } else if is(&n, "assert") {
        check_true(args)
    } else if is(&n, "caret") {
        match two_counts_of(args) {
            Ok((row, col)) => Ok(Verb::Caret { row, col }),
            Err(m) => Err(m),
        }
    } else if is(&n, "size") {
        match two_counts_of(args) {
            Ok((w, h)) => Ok(Verb::Size { w, h }),
            Err(m) => Err(m),
        }
    } else if is(&n, "move") {
        match two_numbers_of(args) {
            Ok((x, y)) => Ok(Verb::Move { x, y }),
            Err(m) => Err(m),
        }
    } else if is(&n, "click") {
        match two_numbers_of(args) {
            Ok((x, y)) => Ok(Verb::Click { x, y }),
            Err(m) => Err(m),
        }
    } else if is(&n, "splitter") {
        let v = match number_of(args, 1) {
            Ok(v) => v,
            Err(m) => return Err(m),
        };
        let w = chars_of(args[0].as_str());
        if is(&w, "col") {
            Ok(Verb::SplitCol(v))
        } else if is(&w, "row") {
            Ok(Verb::SplitRow(v))
        } else {
            let mut m = "splitter: expected col|row, got ".to_owned();
            m.append(args[0].as_str());
            Err(m)
        }
    } else if is(&n, "type") {
        Ok(Verb::Type(args[0].clone()))
    } else if is(&n, "key") {
        match map_key(args[0].as_str()) {
            Some((vk, ctrl, shift)) => Ok(Verb::Key { vk, ctrl, shift }),
            None => {
                let mut m = "unknown key: ".to_owned();
                m.append(args[0].as_str());
                Err(m)
            },
        }
    } else if is(&n, "collapse") {
        pane(args[0].as_str(), false)
    } else if is(&n, "expand") {
        pane(args[0].as_str(), true)
    } else if is(&n, "open") {
        Ok(Verb::Open(args[0].clone()))
    } else if is(&n, "screenshot") {
        Ok(Verb::Screenshot(args[0].clone()))
    } else {
        match count_of(args, 0) {
            Ok(k) => Ok(Verb::Line(k)),
            Err(m) => Err(m),
        }
    }
}

// ── a script's input ────────────────────────────────────────────────────────

/// The session after the characters of a text from `i` on are typed.
pub open spec fn typed_from(v: SessionView, t: Seq<char>, i: int) -> SessionView
    decreases t.len() - i,
{
    if i >= t.len() {
        v
    } else {
        typed_from(session::char_step(v, t[i] as u32).0, t, i + 1)
    }
}

/// What the characters of a text from `i` on leave to do.
pub open spec fn acts_from(v: SessionView, t: Seq<char>, i: int) -> Seq<ActView>
    decreases t.len() - i,
{
    if i >= t.len() {
        Seq::empty()
    } else {
        let (w, a) = session::char_step(v, t[i] as u32);
        seq![a] + acts_from(w, t, i + 1)
    }
}

/// The views of what is left to do.
pub open spec fn acts_view(v: Seq<Act>) -> Seq<ActView> {
    Seq::new(v.len(), |i: int| v[i]@)
}

/// What a script's key leaves to do.
pub open spec fn script_key_acts(v: SessionView, vk: u16, ctrl: bool, shift: bool) -> Seq<ActView> {
    let (w, a) = session::key_step(v, vk, ctrl, shift);
    match char_for_key(vk, shift) {
        Some(c) => if ctrl {
            seq![a]
        } else {
            seq![a, session::char_step(w, c).1]
        },
        None => seq![a],
    }
}

/// The session after a script's key: the key, and the character it yields without
/// Ctrl.
pub open spec fn script_key_step(v: SessionView, vk: u16, ctrl: bool, shift: bool) -> SessionView {
    let w = session::key_step(v, vk, ctrl, shift).0;
    match char_for_key(vk, shift) {
        Some(c) => if ctrl {
            w
        } else {
            session::char_step(w, c).0
        },
        None => w,
    }
}

impl Session {
    /// Types a text, character by character; what each leaves to do is returned.
    pub fn script_type(&mut self, t: &str) -> (r: Vec<Act>)
        requires
            old(self).wf(),
        ensures
            final(self).wf(),
            final(self)@ == typed_from(old(self)@, t@, 0),
            acts_view(r@) == acts_from(old(self)@, t@, 0),
    {
        let c = chars_of(t);
        let mut acts: Vec<Act> = Vec::new();
        let mut i: usize = 0;
        assert(acts_view(acts@) =~= Seq::empty());
        while i < c.len()
            invariant
                c@ == t@,
                i <= c@.len(),
                self.wf(),
                acts_view(acts@) + acts_from(self@, t@, i as int) =~= acts_from(old(self)@, t@, 0),
                typed_from(old(self)@, t@, 0) == typed_from(self@, t@, i as int),
            decreases c@.len() - i,
        {
            let ghost before = acts_view(acts@);
            let a = self.on_char(char_code(c[i]));
            acts.push(a);
            assert(acts_view(acts@) =~= before.push(a@));
            assert(acts_view(acts@) + acts_from(self@, t@, i + 1) =~= before + (seq![a@]
                + acts_from(self@, t@, i + 1)));
            i += 1;
        }
        assert(acts_view(acts@) =~= acts_from(old(self)@, t@, 0));
        acts
    }

    /// Presses a key as a keyboard does: the key, and the character it yields.
    pub fn script_key(&mut self, vk: u16, ctrl: bool, shift: bool) -> (r: Vec<Act>)
        requires
            old(self).wf(),
        ensures
            final(self).wf(),
            final(self)@ == script_key_step(old(self)@, vk, ctrl, shift),
            acts_view(r@) == script_key_acts(old(self)@, vk, ctrl, shift),
    {
        let mut acts: Vec<Act> = Vec::new();
        let a = self.on_key(vk, ctrl, shift);
        acts.push(a);
        if !ctrl {
            match key_char(vk, shift) {
                Some(c) => {
                    let b = self.on_char(c);
                    acts.push(b);
                },
                None => {},
            }
        }
        assert(acts_view(acts@) =~= script_key_acts(old(self)@, vk, ctrl, shift));
        acts
    }
}

// ── what a script reads back ────────────────────────────────────────────────

/// A truth value as a script sees it.
pub open spec fn flag_text(b: bool) -> Seq<char> {
    if b {
        "1"@
    } else {
        "0"@
    }
}

/// The name of the highlighted label of the palette, empty where there is none.
pub open spec fn selected_name(v: SessionView) -> Seq<char> {
    let m = session::listed_marks(v);
    if v.find_sel < m.len() {
        m[v.find_sel].name
    } else {
        ""@
    }
}

/// What a verb reads of a session; `None` for a verb that reads nothing of it.
pub open spec fn value_read(v: SessionView, verb: VerbView) -> Option<Seq<char>> {
    match verb {
        VerbView::Text => Some(doc_model::full_text(v.doc.lines)),
        VerbView::Line(n) => Some(
            if n < v.doc.lines.len() {
                v.doc.lines[n]
            } else {
                ""@
            },
        ),
        VerbView::LineCount => Some(text::dec(v.doc.lines.len() as int)),
        VerbView::CaretRow => Some(text::dec(v.doc.caret.row)),
        VerbView::CaretCol => Some(text::dec(v.doc.caret.col)),
        VerbView::Notice => Some(v.notice),
        VerbView::FindActive => Some(flag_text(v.find_active)),
        VerbView::FindQuery => Some(v.find_query),
        VerbView::FindCount => Some(text::dec(session::listed_marks(v).len() as int)),
        VerbView::FindSelected => Some(selected_name(v)),
        _ => None,
    }
}

impl Session {
    /// What a verb reads of the session, for a script to compare.
    pub fn script_value(&self, verb: &Verb) -> (r: Option<String>)
        requires
            self.wf(),
        ensures
            text::opt_text(r) == value_read(self@, verb@),
    {
        proof {
            self.doc.lemma_caret_is_shown();
        }
        match verb {
            Verb::Text => Some(self.doc.text()),
            Verb::Line(n) => Some(self.doc.line(*n).to_owned()),
            Verb::LineCount => Some(number_text(self.doc.line_count() as i128)),
            Verb::CaretRow => Some(number_text(self.doc.caret.row as i128)),
            Verb::CaretCol => Some(number_text(self.doc.caret.col as i128)),
            Verb::Notice => Some(self.notice.clone()),
            Verb::FindActive => if self.find_active {
                Some("1".to_owned())
            } else {
                Some("0".to_owned())
            },
            Verb::FindQuery => Some(string_of(&self.find_query)),
            Verb::FindCount => {
                let m = find_matches(&self.find_labels, &self.find_query);
                assert(outline::marks_view(m@).len() == m@.len());
                Some(number_text(m.len() as i128))
            },
            Verb::FindSelected => {
                let m = find_matches(&self.find_labels, &self.find_query);
                assert(outline::marks_view(m@).len() == m@.len());
                if self.find_sel < m.len() {
                    assert(outline::marks_view(m@)[self.find_sel as int] == m@[self.find_sel as int]@);
                    Some(m[self.find_sel].name.clone())
                } else {
                    Some("".to_owned())
                }
            },
            _ => None,
        }
    }
}

} // verus!
