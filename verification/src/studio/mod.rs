//! The editor: its document, what it shows of it, and its language services.
pub mod bytes;
pub mod cards;
pub mod complete;
pub mod diagnostics;
pub mod doc;
pub mod doc_laws;
pub mod doc_model;
pub mod followup;
pub mod hover;
pub mod inbox;
pub mod lang;
pub mod listing;
pub mod nav;
pub mod outline;
pub mod repl;
pub mod script;
pub mod session;
pub mod sig;
pub mod snippet;
pub mod syntax;
pub mod tips;
pub mod words;
