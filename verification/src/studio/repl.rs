//! The terminal's commands: what a typed line asks for, and how replies are shown.
use crate::studio::lang;
use crate::text;
use crate::studio::lang::{Diag, Emit, FindingView};
use crate::text::{chars_of, index_of_ws, is, last_index_of, push_dec, string_of, trimmed};
use vstd::prelude::*;
use vstd::slice::slice_subrange;

verus! {

/// What a typed line asks for.
#[derive(Debug, Clone)]
pub enum Command {
    /// A blank line.
    Skip,
    Quit,
    Frame(String),
    Suggest(String),
    Check(String),
    Assemble { emit: Emit, file: String, out: Option<String> },
    /// A command without the file it needs, and how it is used.
    Usage(String),
    Card(String),
}

/// A command in mathematical terms.
pub enum CommandView {
    Skip,
    Quit,
    Frame(Seq<char>),
    Suggest(Seq<char>),
    Check(Seq<char>),
    Assemble(Emit, Seq<char>, Option<Seq<char>>),
    Usage(Seq<char>),
    Card(Seq<char>),
}

impl View for Command {
    type V = CommandView;

    open spec fn view(&self) -> CommandView {
        match *self {
            Command::Skip => CommandView::Skip,
            Command::Quit => CommandView::Quit,
            Command::Frame(s) => CommandView::Frame(s@),
            Command::Suggest(s) => CommandView::Suggest(s@),
            Command::Check(s) => CommandView::Check(s@),
            Command::Assemble { emit, file, out } => CommandView::Assemble(
                emit,
                file@,
                text::opt_text(out),
            ),
            Command::Usage(s) => CommandView::Usage(s@),
            Command::Card(s) => CommandView::Card(s@),
        }
    }
}

/// The name of an output.
pub open spec fn emit_word(e: Emit) -> Seq<char> {
    match e {
        Emit::Asm => "asm"@,
        Emit::Obj => "obj"@,
        Emit::Exe => "exe"@,
    }
}

/// What stands behind the first white space.
pub open spec fn behind_word(s: Seq<char>) -> Seq<char> {
    let n = text::find_ws(s);
    if n < s.len() {
        s.skip(n + 1)
    } else {
        Seq::empty()
    }
}

/// An assembly: a file, and an output where one is named.
pub open spec fn assemble_command(emit: Emit, rest: Seq<char>) -> CommandView {
    let file = rest.take(text::find_ws(rest));
    let out = text::trim(behind_word(rest));
    if file.len() == 0 {
        CommandView::Usage("usage: :"@ + emit_word(emit) + " <file> [out]"@)
    } else {
        CommandView::Assemble(
            emit,
            file,
            if out.len() == 0 {
                None
            } else {
                Some(out)
            },
        )
    }
}

/// What a typed line asks for.
pub open spec fn command_of(typed: Seq<char>) -> CommandView {
    let line = text::trim(typed);
    let word = line.take(text::find_ws(line));
    let rest = text::trim(behind_word(line));
    if line.len() == 0 {
        CommandView::Skip
    } else if line == ":q"@ || line == ":quit"@ {
        CommandView::Quit
    } else if word == ":frame"@ {
        CommandView::Frame(rest)
    } else if word == ":suggest"@ {
        CommandView::Suggest(rest)
    } else if word == ":check"@ {
        CommandView::Check(rest)
    } else if word == ":asm"@ {
        assemble_command(Emit::Asm, rest)
    } else if word == ":obj"@ {
        assemble_command(Emit::Obj, rest)
    } else if word == ":exe"@ {
        assemble_command(Emit::Exe, rest)
    } else {
        CommandView::Card(line)
    }
}

/// The name of an output.
pub fn emit_name(e: Emit) -> (r: &'static str)
    ensures
        r@ == emit_word(e),
{
    match e {
        Emit::Asm => "asm",
        Emit::Obj => "obj",
        Emit::Exe => "exe",
    }
}

fn behind<'a>(s: &'a [char]) -> (r: &'a [char])
    ensures
        r@ == behind_word(s@),
{
    let n: usize = index_of_ws(s);
    let len: usize = s.len();
    if n < len {
        slice_subrange(s, n + 1, len)
    } else {
        let e = slice_subrange(s, len, len);
        assert(e@ =~= Seq::empty());
        e
    }
}

fn assemble_of(emit: Emit, rest: &[char]) -> (r: Command)
    ensures
        r@ == assemble_command(emit, rest@),
{
    let n: usize = index_of_ws(rest);
    if n == 0 {
        let mut m = "usage: :".to_owned();
        m.append(emit_name(emit));
        m.append(" <file> [out]");
        return Command::Usage(m);
    }
    let out = trimmed(behind(rest));
    Command::Assemble {
        emit,
        file: string_of(slice_subrange(rest, 0, n)),
        out: if out.len() == 0 {
            None
        } else {
            Some(string_of(out))
        },
    }
}

/// What a typed line asks for.
pub fn read_command(typed: &str) -> (r: Command)
    ensures
        r@ == command_of(typed@),
{
    let c = chars_of(typed);
    let line = trimmed(&c);
    if line.len() == 0 {
        return Command::Skip;
    }
    if is(line, ":q") || is(line, ":quit") {
        return Command::Quit;
    }
    let n: usize = index_of_ws(line);
    let word = slice_subrange(line, 0, n);
    let rest = trimmed(behind(line));
    if is(word, ":frame") {
        Command::Frame(string_of(rest))
    } else if is(word, ":suggest") {
        Command::Suggest(string_of(rest))
    } else if is(word, ":check") {
        Command::Check(string_of(rest))
    } else if is(word, ":asm") {
        assemble_of(Emit::Asm, rest)
    } else if is(word, ":obj") {
        assemble_of(Emit::Obj, rest)
    } else if is(word, ":exe") {
        assemble_of(Emit::Exe, rest)
    } else {
        Command::Card(string_of(line))
    }
}

/// Where an output goes that is not named: beside the file, under its name.
pub open spec fn default_output(file: Seq<char>, emit: Emit) -> Seq<char> {
    let n = text::rfind(file, '.');
    (if n >= 0 {
        file.take(n)
    } else {
        file
    }) + "."@ + emit_word(emit)
}

/// Where an output goes that is not named.
pub fn default_out(file: &str, emit: Emit) -> (r: String)
    ensures
        r@ == default_output(file@, emit),
{
    let c = chars_of(file);
    let mut m = match last_index_of(&c, '.') {
        Some(n) => string_of(slice_subrange(&c, 0, n)),
        None => file.to_owned(),
    };
    m.append(".");
    m.append(emit_name(emit));
    m
}

/// One finding as it is shown.
pub open spec fn shown_finding(file: Seq<char>, d: FindingView) -> Seq<char> {
    if d.line == 0 {
        file + ": "@ + d.message + "\n"@
    } else {
        file + ":"@ + text::dec(d.line) + ":"@ + text::dec(d.col) + ": "@ + d.message + "\n"@
    }
}

/// The first `n` findings as they are shown.
pub open spec fn shown_findings(file: Seq<char>, v: Seq<FindingView>, n: int) -> Seq<char>
    decreases n,
{
    if n <= 0 {
        Seq::empty()
    } else {
        shown_findings(file, v, n - 1) + shown_finding(file, v[n - 1])
    }
}

/// The findings of a check as they are shown.
pub fn show_findings(file: &str, diags: &Vec<Diag>) -> (r: String)
    ensures
        r@ == if diags@.len() == 0 {
            "ok — no issues\n"@
        } else {
            shown_findings(file@, lang::findings_view(diags@), diags@.len() as int)
        },
{
    if diags.len() == 0 {
        return "ok — no issues\n".to_owned();
    }
    let ghost all = lang::findings_view(diags@);
    let mut m = "".to_owned();
    proof {
        reveal_strlit("");
    }
    let mut i: usize = 0;
    assert(m@ =~= Seq::empty());
    while i < diags.len()
        invariant
            all == lang::findings_view(diags@),
            i <= diags@.len(),
            m@ == shown_findings(file@, all, i as int),
        decreases diags@.len() - i,
    {
        assert(all[i as int] == diags@[i as int]@);
        let ghost before = m@;
        m.append(file);
        if diags[i].line > 0 {
            m.append(":");
            push_dec(&mut m, diags[i].line as i128);
            m.append(":");
            push_dec(&mut m, diags[i].col as i128);
        }
        m.append(": ");
        m.append(diags[i].message.as_str());
        m.append("\n");
        assert(m@ =~= before + shown_finding(file@, all[i as int]));
        i += 1;
    }
    m
}

} // verus!
