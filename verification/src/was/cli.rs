//! The assembler's command line: its options, and what it reports.
use crate::studio::listing;
use crate::text;
use crate::was::diag;
use crate::studio::listing::{show_imports, show_list};
use crate::text::{chars_of, has_suffix, is, number_text, push_dec, to_lower};
use crate::was::diag::{Diag, DiagView};
use vstd::prelude::*;

verus! {

/// What the command line asks for.
#[derive(Debug, Clone)]
pub struct Options {
    pub input: Option<String>,
    pub output: Option<String>,
    /// The symbol that the program begins at.
    pub entry: String,
    /// Print the lowered text and stop.
    pub emit_text: bool,
    /// Check only.
    pub check: bool,
    /// Scope labels by module.
    pub modules: bool,
    /// Print the tree of included files and stop.
    pub include_graph: bool,
}

/// The options in mathematical terms.
pub struct OptionsView {
    pub input: Option<Seq<char>>,
    pub output: Option<Seq<char>>,
    pub entry: Seq<char>,
    pub emit_text: bool,
    pub check: bool,
    pub modules: bool,
    pub include_graph: bool,
}

impl View for Options {
    type V = OptionsView;

    open spec fn view(&self) -> OptionsView {
        OptionsView {
            input: text::opt_text(self.input),
            output: text::opt_text(self.output),
            entry: self.entry@,
            emit_text: self.emit_text,
            check: self.check,
            modules: self.modules,
            include_graph: self.include_graph,
        }
    }
}

/// What is asked for before any argument is read.
pub open spec fn no_options() -> OptionsView {
    OptionsView {
        input: None,
        output: None,
        entry: "main"@,
        emit_text: false,
        check: false,
        modules: true,
        include_graph: false,
    }
}

/// The options with the arguments from `i` on; `None` where they ask for help.
pub open spec fn options_from(args: Seq<Seq<char>>, o: OptionsView, i: int) -> Option<OptionsView>
    decreases args.len() - i,
{
    if i >= args.len() {
        Some(o)
    } else {
        let a = args[i];
        let next = if i + 1 < args.len() {
            Some(args[i + 1])
        } else {
            None
        };
        let behind = if next is Some {
            i + 2
        } else {
            i + 1
        };
        if a == "-o"@ {
            options_from(args, OptionsView { output: next, ..o }, behind)
        } else if a == "--entry"@ {
            options_from(
                args,
                OptionsView {
                    entry: match next {
                        Some(e) => e,
                        None => o.entry,
                    },
                    ..o
                },
                behind,
            )
        } else if a == "--emit-asm"@ {
            options_from(args, OptionsView { emit_text: true, ..o }, i + 1)
        } else if a == "--check"@ {
            options_from(args, OptionsView { check: true, ..o }, i + 1)
        } else if a == "--modules"@ {
            options_from(args, OptionsView { modules: true, ..o }, i + 1)
        } else if a == "--nomodules"@ {
            options_from(args, OptionsView { modules: false, ..o }, i + 1)
        } else if a == "--include-graph"@ {
            options_from(args, OptionsView { include_graph: true, ..o }, i + 1)
        } else if a == "-h"@ || a == "--help"@ {
            None
        } else {
            options_from(args, OptionsView { input: Some(a), ..o }, i + 1)
        }
    }
}

/// The options that the arguments behind the program's name give; `None` where they
/// ask for help.
pub fn parse_args(args: &[String]) -> (r: Option<Options>)
    ensures
        (match r {
            Some(o) => Some(o@),
            None => None,
        }) == options_from(text::strings(args@), no_options(), 0),
{
    let ghost all = text::strings(args@);
    let mut o = Options {
        input: None,
        output: None,
        entry: "main".to_owned(),
        emit_text: false,
        check: false,
        modules: true,
        include_graph: false,
    };
    let n: usize = args.len();
    let mut i: usize = 0;
    while i < n
        invariant
            n == args@.len(),
            all == text::strings(args@),
            i <= n,
            options_from(all, no_options(), 0) == options_from(all, o@, i as int),
        decreases n - i,
    {
        assert(all[i as int] == args@[i as int]@);
        assert(i + 1 < n ==> all[i + 1] == args@[i + 1]@);
        let a = chars_of(args[i].as_str());
        let more = i < n - 1;
        if is(&a, "-o") {
            o.output = if more {
                Some(args[i + 1].clone())
            } else {
                None
            };
            i = if more {
                i + 2
            } else {
                n
            };
        } else if is(&a, "--entry") {
            if more {
                o.entry = args[i + 1].clone();
            }
            i = if more {
                i + 2
            } else {
                n
            };
        } else if is(&a, "--emit-asm") {
            o.emit_text = true;
            i += 1;
        } else if is(&a, "--check") {
            o.check = true;
            i += 1;
        } else if is(&a, "--modules") {
            o.modules = true;
            i += 1;
        } else if is(&a, "--nomodules") {
            o.modules = false;
            i += 1;
        } else if is(&a, "--include-graph") {
            o.include_graph = true;
            i += 1;
        } else if is(&a, "-h") || is(&a, "--help") {
            return None;
        } else {
            o.input = Some(args[i].clone());
            i += 1;
        }
    }
    Some(o)
}

// ── reports ─────────────────────────────────────────────────────────────────

/// One finding of a check.
pub open spec fn finding_row(input: Seq<char>, d: DiagView) -> Seq<char> {
    if d.line == 0 {
        input + ": "@ + d.message + "\n"@
    } else {
        input + ":"@ + text::dec(d.line) + ":"@ + text::dec(d.col) + ": "@ + d.message + "\n"@
    }
}

/// The first `n` findings of a check.
pub open spec fn finding_rows(input: Seq<char>, v: Seq<DiagView>, n: int) -> Seq<char>
    decreases n,
{
    if n <= 0 {
        Seq::empty()
    } else {
        finding_rows(input, v, n - 1) + finding_row(input, v[n - 1])
    }
}

/// The findings of a check and their number.
pub open spec fn findings_text(input: Seq<char>, v: Seq<DiagView>) -> Seq<char> {
    finding_rows(input, v, v.len() as int) + input + ": "@ + (if v.len() == 0 {
        "ok"@
    } else {
        text::dec(v.len() as int) + " issue(s)"@
    }) + "\n"@
}

fn push_finding(m: &mut String, input: &str, d: &Diag)
    ensures
        final(m)@ == old(m)@ + finding_row(input@, d@),
{
    let ghost before = m@;
    m.append(input);
    if d.line > 0 {
        m.append(":");
        push_dec(m, d.line as i128);
        m.append(":");
        push_dec(m, d.col as i128);
    }
    m.append(": ");
    m.append(d.message.as_str());
    m.append("\n");
    assert(m@ =~= before + finding_row(input@, d@));
}

/// The findings of a check, one in a row, and their number.
pub fn check_report(input: &str, diags: &Vec<Diag>) -> (r: String)
    ensures
        r@ == findings_text(input@, diag::diags_view(diags@)),
{
    let ghost all = diag::diags_view(diags@);
    let mut m = "".to_owned();
    proof {
        reveal_strlit("");
    }
    let mut i: usize = 0;
    assert(m@ =~= Seq::empty());
    while i < diags.len()
        invariant
            all == diag::diags_view(diags@),
            i <= diags@.len(),
            m@ == finding_rows(input@, all, i as int),
        decreases diags@.len() - i,
    {
        assert(all[i as int] == diags@[i as int]@);
        push_finding(&mut m, input, &diags[i]);
        i += 1;
    }
    m.append(input);
    m.append(": ");
    if diags.len() == 0 {
        m.append("ok");
    } else {
        let mut n = number_text(diags.len() as i128);
        n.append(" issue(s)");
        m.append(n.as_str());
    }
    m.append("\n");
    m
}

/// An output that is to be a program: its name ends in `.exe`, in any case of its
/// letters.
pub fn is_program(output: &str) -> (r: bool)
    ensures
        r == text::ends_with(text::lower_all(output@), ".exe"@),
{
    let c = chars_of(output);
    let low = to_lower(&c);
    has_suffix(&low, ".exe")
}

/// What is reported of a program that was written.
pub open spec fn program_written(
    output: Seq<char>,
    bytes: int,
    entry: Seq<char>,
    imports: Seq<(Seq<char>, Seq<char>)>,
) -> Seq<char> {
    "wrote "@ + output + ": "@ + text::dec(bytes) + " bytes, entry '"@ + entry + "', imports "@
        + listing::shown_imports(imports)
}

/// What is reported of an object that was written.
pub open spec fn object_written(
    output: Seq<char>,
    code: int,
    symbols: int,
    relocs: int,
    externs: Seq<Seq<char>>,
) -> Seq<char> {
    "wrote "@ + output + ": "@ + text::dec(code) + " bytes .text, "@ + text::dec(symbols) + " symbol(s), "@
        + text::dec(relocs) + " reloc(s), externs "@ + listing::shown_list(externs)
}

/// What is reported of a program that was written.
pub fn program_report_line(
    output: &str,
    bytes: usize,
    entry: &str,
    imports: &[(String, String)],
) -> (r: String)
    ensures
        r@ == program_written(output@, bytes as int, entry@, listing::imports_view(imports@)),
{
    let mut m = "wrote ".to_owned();
    m.append(output);
    m.append(": ");
    push_dec(&mut m, bytes as i128);
    m.append(" bytes, entry '");
    m.append(entry);
    m.append("', imports ");
    m.append(show_imports(imports).as_str());
    m
}

/// What is reported of an object that was written.
pub fn object_report_line(
    output: &str,
    code: usize,
    symbols: usize,
    relocs: usize,
    externs: &[String],
) -> (r: String)
    ensures
        r@ == object_written(
            output@,
            code as int,
            symbols as int,
            relocs as int,
            text::strings(externs@),
        ),
{
    let mut m = "wrote ".to_owned();
    m.append(output);
    m.append(": ");
    push_dec(&mut m, code as i128);
    m.append(" bytes .text, ");
    push_dec(&mut m, symbols as i128);
    m.append(" symbol(s), ");
    push_dec(&mut m, relocs as i128);
    m.append(" reloc(s), externs ");
    m.append(show_list(externs).as_str());
    m
}

} // verus!
