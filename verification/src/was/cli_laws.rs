//! How the command line is read: from the front, one option after the other.
use crate::was::cli;
use crate::was::cli::OptionsView;
use vstd::prelude::*;

verus! {

proof fn lemma_options_shift(x: Seq<char>, args: Seq<Seq<char>>, o: OptionsView, i: int)
    requires
        0 <= i,
    ensures
        cli::options_from(seq![x] + args, o, i + 1) == cli::options_from(args, o, i),
    decreases args.len() - i,
{
    let all = seq![x] + args;
    if i < args.len() {
        let a = args[i];
        assert(all[i + 1] == a);
        let next = if i + 1 < args.len() {
            Some(args[i + 1])
        } else {
            None
        };
        let behind = if next is Some {
            i + 2
        } else {
            i + 1
        };
        if next is Some {
            assert(all[i + 2] == args[i + 1]);
        }
        lemma_options_shift(x, args, OptionsView { output: next, ..o }, behind);
        lemma_options_shift(
            x,
            args,
            OptionsView {
                entry: match next {
                    Some(e) => e,
                    None => o.entry,
                },
                ..o
            },
            behind,
        );
        lemma_options_shift(x, args, OptionsView { emit_text: true, ..o }, i + 1);
        lemma_options_shift(x, args, OptionsView { check: true, ..o }, i + 1);
        lemma_options_shift(x, args, OptionsView { modules: true, ..o }, i + 1);
        lemma_options_shift(x, args, OptionsView { modules: false, ..o }, i + 1);
        lemma_options_shift(x, args, OptionsView { include_graph: true, ..o }, i + 1);
        lemma_options_shift(x, args, OptionsView { input: Some(a), ..o }, i + 1);
    }
}

/// What the options `args` make of `o`.
pub open spec fn read(args: Seq<Seq<char>>, o: OptionsView) -> Option<OptionsView> {
    cli::options_from(args, o, 0)
}

/// Every option does its own part and leaves the rest: `-o` and `--entry` take the word behind
/// them, the switches stand alone, `-h` and `--help` end the reading, and any other word is
/// the input.
#[verifier::spinoff_prover]
pub proof fn law_options_do_their_part(o: OptionsView, v: Seq<char>, rest: Seq<Seq<char>>)
    ensures
        read(Seq::empty(), o) == Some(o),
        read(seq!["-o"@, v] + rest, o) == read(rest, OptionsView { output: Some(v), ..o }),
        read(seq!["--entry"@, v] + rest, o) == read(rest, OptionsView { entry: v, ..o }),
        read(seq!["--emit-asm"@] + rest, o) == read(rest, OptionsView { emit_text: true, ..o }),
        read(seq!["--check"@] + rest, o) == read(rest, OptionsView { check: true, ..o }),
        read(seq!["--modules"@] + rest, o) == read(rest, OptionsView { modules: true, ..o }),
        read(seq!["--nomodules"@] + rest, o) == read(rest, OptionsView { modules: false, ..o }),
        read(seq!["--include-graph"@] + rest, o) == read(
            rest,
            OptionsView { include_graph: true, ..o },
        ),
        read(seq!["-h"@] + rest, o) is None && read(seq!["--help"@] + rest, o) is None,
        v.len() == 0 || v[0] != '-' ==> read(seq![v] + rest, o) == read(
            rest,
            OptionsView { input: Some(v), ..o },
        ),
{
    lemma_words_differ();
    let two = seq![v] + rest;
    lemma_options_shift("-o"@, two, OptionsView { output: Some(v), ..o }, 1);
    lemma_options_shift(v, rest, OptionsView { output: Some(v), ..o }, 0);
    assert(seq!["-o"@] + two =~= seq!["-o"@, v] + rest);
    lemma_options_shift("--entry"@, two, OptionsView { entry: v, ..o }, 1);
    lemma_options_shift(v, rest, OptionsView { entry: v, ..o }, 0);
    assert(seq!["--entry"@] + two =~= seq!["--entry"@, v] + rest);
    lemma_options_shift("--emit-asm"@, rest, OptionsView { emit_text: true, ..o }, 0);
    lemma_options_shift("--check"@, rest, OptionsView { check: true, ..o }, 0);
    lemma_options_shift("--modules"@, rest, OptionsView { modules: true, ..o }, 0);
    lemma_options_shift("--nomodules"@, rest, OptionsView { modules: false, ..o }, 0);
    lemma_options_shift("--include-graph"@, rest, OptionsView { include_graph: true, ..o }, 0);
    lemma_options_shift(v, rest, OptionsView { input: Some(v), ..o }, 0);
    assert((seq!["-o"@, v] + rest)[0] == "-o"@ && (seq!["-o"@, v] + rest)[1] == v);
    assert((seq!["--entry"@, v] + rest)[0] == "--entry"@ && (seq!["--entry"@, v] + rest)[1] == v);
    assert((seq!["--emit-asm"@] + rest)[0] == "--emit-asm"@);
    assert((seq!["--check"@] + rest)[0] == "--check"@);
    assert((seq!["--modules"@] + rest)[0] == "--modules"@);
    assert((seq!["--nomodules"@] + rest)[0] == "--nomodules"@);
    assert((seq!["--include-graph"@] + rest)[0] == "--include-graph"@);
    assert((seq!["-h"@] + rest)[0] == "-h"@);
    assert((seq!["--help"@] + rest)[0] == "--help"@);
    assert((seq![v] + rest)[0] == v);
}

proof fn lemma_words_differ()
    ensures
        "-o"@.len() == 2 && "-o"@[0] == '-' && "-o"@[1] == 'o',
        "--entry"@.len() == 7 && "--entry"@[0] == '-' && "--entry"@[2] == 'e',
        "--emit-asm"@.len() == 10 && "--emit-asm"@[0] == '-',
        "--check"@.len() == 7 && "--check"@[0] == '-' && "--check"@[2] == 'c',
        "--modules"@.len() == 9 && "--modules"@[0] == '-',
        "--nomodules"@.len() == 11 && "--nomodules"@[0] == '-',
        "--include-graph"@.len() == 15 && "--include-graph"@[0] == '-',
        "-h"@.len() == 2 && "-h"@[0] == '-' && "-h"@[1] == 'h',
        "--help"@.len() == 6 && "--help"@[0] == '-',
{
    reveal_strlit("-o");
    reveal_strlit("--entry");
    reveal_strlit("--emit-asm");
    reveal_strlit("--check");
    reveal_strlit("--modules");
    reveal_strlit("--nomodules");
    reveal_strlit("--include-graph");
    reveal_strlit("-h");
    reveal_strlit("--help");
}

} // verus!
