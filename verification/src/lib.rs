//! A Guile language server's analysis library: UTF-8 positions, Scheme source
//! scanning, an S-expression reader for the Guile REPL's replies and the
//! protocol that frames them, the parsing of compiler diagnostics, the
//! document store, the debounce decisions for diagnostics, and what the
//! server's handlers ask the REPL and answer the editor.
pub mod position;
pub mod encoding;
pub mod text;
pub mod parser;
pub mod diagnostics;
pub mod documents;
pub mod scheduler;
pub mod guile;
pub mod backend;
