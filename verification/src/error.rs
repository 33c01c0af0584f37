//! What the library reports when it cannot do what it was asked.

use vstd::prelude::*;

verus! {

/// In what way a line of a database text breaks the grammar.
#[derive(Debug, Clone, Copy, PartialEq, Eq, Structural)]
pub enum SyntaxReason {
    /// A file line stands before any tag line, so there is no tag to put the
    /// file under.
    FileBeforeTag,
    /// A line that does not begin with a tab does not end with a colon either.
    MissingColon,
}

/// The first line of a database text that breaks the grammar.
#[derive(Debug, Clone, Copy, PartialEq, Eq, Structural)]
pub struct SyntaxError {
    /// The number of the line, the first line being line 1.
    pub line_number: usize,
    pub reason: SyntaxReason,
}

/// A [`SyntaxError`] with its line number as a natural number.
pub struct Fault {
    pub line: nat,
    pub reason: SyntaxReason,
}

impl View for SyntaxError {
    type V = Fault;

    open spec fn view(&self) -> Fault {
        Fault { line: self.line_number as nat, reason: self.reason }
    }
}

/// An argument that an operation on a database does not accept.
#[derive(Debug, Clone, Copy, PartialEq, Eq, Structural)]
pub enum InvalidArgument {
    /// The file name is the empty string.
    EmptyFilename,
}

impl SyntaxReason {
    /// The reason in words.
    pub fn describe(&self) -> (words: &'static str)
        ensures
            words@ == match *self {
                SyntaxReason::FileBeforeTag => "cannot start suki file with filename"@,
                SyntaxReason::MissingColon => "missing ':' at end of label descriptor"@,
            },
    {
        match self {
            SyntaxReason::FileBeforeTag => "cannot start suki file with filename",
            SyntaxReason::MissingColon => "missing ':' at end of label descriptor",
        }
    }
}

} // verus!
