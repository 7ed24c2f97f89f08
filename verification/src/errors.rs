//! Error taxonomy: malformed recipe text, a recipe without instructions, and
//! an unreadable recipe source.

use vstd::prelude::*;

verus! {

/// Where a parse failed: the offending character together with its position.
///
/// `line` is 1-based, `column` is the 1-based character position within the
/// line, and `offset` is the 0-based character position within the whole
/// input.
#[derive(Clone, Copy, Debug, PartialEq, Eq, Structural)]
pub struct ParseError {
    pub line: usize,
    pub column: usize,
    pub offset: usize,
    pub character: char,
}

/// The mathematical image of a [`ParseError`]: the same data over
/// unbounded integers, as the parser's specification computes it.
pub ghost struct ParseErrorView {
    pub line: int,
    pub column: int,
    pub offset: int,
    pub character: char,
}

impl View for ParseError {
    type V = ParseErrorView;

    open spec fn view(&self) -> ParseErrorView {
        ParseErrorView {
            line: self.line as int,
            column: self.column as int,
            offset: self.offset as int,
            character: self.character,
        }
    }
}

/// Everything that can go wrong before execution begins.
///
/// Parse and read failures abort a run before any step executes; a recipe
/// without instructions cannot name a main instruction.
#[derive(Clone, Copy, Debug, PartialEq, Eq, Structural)]
pub enum Error {
    /// The recipe text is malformed; carries the position of the failure.
    RecipeParsingError(ParseError),
    /// The recipe holds no instructions, so no main instruction exists.
    UnstructedRecipe,
    /// The recipe source could not be read.
    IOError,
}

} // verus!
