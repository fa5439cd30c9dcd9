//! The Windows assembler front-end: lowers a thin superset of Intel assembly to
//! plain assembler text, and checks the source against the knowledge base.
pub mod block_laws;
pub mod blocks;
pub mod call_laws;
pub mod calls;
pub mod check;
pub mod check_laws;
pub mod cli;
pub mod cli_laws;
pub mod clobber;
pub mod clobber_laws;
pub mod contract;
pub mod contract_laws;
pub mod data;
pub mod data_laws;
pub mod decls;
pub mod diag;
pub mod graph;
pub mod includes;
pub mod inline_laws;
pub mod inliner;
pub mod laws;
pub mod lex;
pub mod lex_laws;
pub mod lower;
pub mod lower_laws;
pub mod machine;
pub mod macro_laws;
pub mod macros;
pub mod operands;
pub mod reg_laws;
pub mod regs;
