//! The failures that an operation of the monitor can end in.

use vstd::prelude::*;

verus! {

/// Why the name of a schema file does not give its place in the order of application.
#[derive(Debug, Clone, Copy, PartialEq, Eq, Structural)]
pub enum SchemaFileProblem {
    NoComponents,
    WrongNumberOfComponents,
    InvalidUTF8,
    InvalidPath,
}

impl SchemaFileProblem {
    /// A sentence that says what is wrong.
    pub fn description(&self) -> (text: &'static str)
        ensures
            text@ == match *self {
                SchemaFileProblem::NoComponents =>
                    "Splitting the schema filename resulted in no components"@,
                SchemaFileProblem::WrongNumberOfComponents =>
                    "Splitting the schema filename result in an invalid number of components"@,
                SchemaFileProblem::InvalidUTF8 =>
                    "While converting the Path to a String, invalid utf8 was encountered"@,
                SchemaFileProblem::InvalidPath => "The provided Path was invalid"@,
            },
    {
        match self {
            SchemaFileProblem::NoComponents =>
                "Splitting the schema filename resulted in no components",
            SchemaFileProblem::WrongNumberOfComponents =>
                "Splitting the schema filename result in an invalid number of components",
            SchemaFileProblem::InvalidUTF8 =>
                "While converting the Path to a String, invalid utf8 was encountered",
            SchemaFileProblem::InvalidPath => "The provided Path was invalid",
        }
    }
}

/// Why a text is not the decimal numeral of a `u16`.
#[derive(Debug, Clone, Copy, PartialEq, Eq, Structural)]
pub enum ParseIntProblem {
    /// The text is empty.
    Empty,
    /// A character is no decimal digit, or a sign stands alone.
    InvalidDigit,
    /// The digits read so far already stand for more than `u16::MAX`.
    PosOverflow,
}

/// A failure of an operation.
#[derive(Debug, PartialEq, Eq)]
pub enum Error {
    /// An empty string was given where a value is needed.
    EmptyString,
    /// The schema directory, named here, is no directory.
    InvalidSchemaDirectory(String),
    /// The name of a schema file is not of the form `<number>-<rest>`.
    InvalidSchemaFile(SchemaFileProblem),
    /// Reading the file system failed: at the path or in the way that the text says.
    IO(String),
    /// No store exists at this location.
    NoFile(String),
    /// The number in front of a schema file's name is no `u16`.
    ParseInt(ParseIntProblem),
    /// The schema directory, named here, holds no schema file.
    NoSchemaFile(String),
    /// The store on disk failed in the way that the text says.
    Rusqlite(String),
    /// A stage of a scan could not hand on this path, because the stage that
    /// takes it has ended.
    SendPathBuf(String),
    /// A stage of a scan could not hand on the record of this path and
    /// fingerprint, because the stage that takes it has ended.
    SendPathBufHash(String, String),
    /// A stage of a scan ended without saying how.
    ThreadJoin,
    /// The store holds no manifest of this identity.
    NotFound(i64),
    /// Two records of one manifest would share this path.
    DuplicatePath(String),
    /// The store has no identity left to give to a new manifest.
    IdsExhausted,
}

impl Error {
    /// Whether the failure says only that the stages of a scan lost one another.
    /// Such a failure follows from whatever ended the other stage and says nothing
    /// of the tree or the store.
    pub open spec fn concurrency(self) -> bool {
        self is ThreadJoin || self is SendPathBuf || self is SendPathBufHash
    }

    /// Whether the failure says only that the stages of a scan lost one another.
    pub fn is_concurrency(&self) -> (concurrency: bool)
        ensures
            concurrency == self.concurrency(),
    {
        match self {
            Error::ThreadJoin => true,
            Error::SendPathBuf(_) => true,
            Error::SendPathBufHash(_, _) => true,
            _ => false,
        }
    }
}

} // verus!
