//! What the parser front end produces: syntax errors, and a tolerant parse
//! (a tree with holes where errors were, and every error found).
use vstd::prelude::*;
use crate::ast::Program;

verus! {

/// A syntax error: message and 1-based position.
#[derive(Debug)]
pub struct ParseError {
    pub message: String,
    pub line: usize,
    pub col: usize,
}

impl ParseError {
    /// The error as the text a user sees.
    pub fn describe(&self) -> (r: String)
        ensures
            r@ == "语法错误 ("@ + crate::text::dec(self.line as nat) + ":"@ + crate::text::dec(self.col as nat) + "): "@
                + self.message@,
    {
        let mut out: Vec<char> = Vec::new();
        crate::text::push_lit(&mut out, "语法错误 (");
        crate::text::push_usize(&mut out, self.line);
        crate::text::push_lit(&mut out, ":");
        crate::text::push_usize(&mut out, self.col);
        crate::text::push_lit(&mut out, "): ");
        let m = crate::text::chars_of(self.message.as_str());
        crate::text::push_chars(&mut out, &m);
        crate::text::string_of(&out)
    }
}

/// A tolerant parse: the tree, with holes where errors were, and all errors.
pub struct ParseResult {
    pub program: Program,
    pub errors: Vec<ParseError>,
}

impl ParseResult {
    /// The parse found no error: the tree has no holes.
    pub fn is_ok(&self) -> (r: bool)
        ensures
            r == (self.errors@.len() == 0),
    {
        self.errors.len() == 0
    }
}

} // verus!
