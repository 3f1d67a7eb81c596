use vstd::prelude::*;

pub mod text;
pub mod builtins;
pub mod ast;
pub mod lexer;
pub mod parser;
pub mod diagnostics;
pub mod fix;
pub mod json;
pub mod apply;
pub mod iterate;
pub mod fmt;
pub mod repl;
pub mod info;
pub mod doc;
pub mod dump;
pub mod fix_history;
pub mod history_proof;
pub mod json_proof;
pub mod json_space;
pub mod json_spaced;
pub mod lsp;
pub mod package;
pub mod cli;

verus! {
}
