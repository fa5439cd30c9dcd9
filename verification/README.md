# WRASM, verified

The core of a Windows x86-64 assembler toolchain, written in Verus: every function of
`src/` has a contract, and the contracts are proved.

| module | what it holds |
|--------|---------------|
| `text`, `lines`, `numeral` | characters, strings, lines and numerals |
| `winkb` | the knowledge base of Windows names: look-ups, searches, completions, suggestions, reports, and the readers of its source tables |
| `was` | the assembler front-end: macros, `invoke` and COM calls, data and struct instances, blocks and procedures, the inliner, and the checks of a source |
| `studio` | the editor without its window: the document and its history, tokens, completion, hover, snippets, listings, the language worker's messages, the session and its script verbs |
| `selkie` | Mermaid flowcharts: the database, annotations, the writer, and where annotations place things |

Contracts speak of mathematical views (`Seq<char>` for text, `DocView` for a document,
`FlowView` for a flowchart). What holds across functions is stated in the public proof
functions whose names begin with `law_`.

`app/` holds the programs around the library: the command line, the SQLite database,
the worker thread, floating-point geometry and rasterisation. The encoder of lowered
text is not part of this project; programs that link one implement `Backend`.

`tests/` exercises the compiled library.
