//! What can go wrong, as the caller sees it.

use vstd::prelude::*;

verus! {

/// Why a line of the scheduler's table is not an entry.
#[derive(Clone, Copy, Debug, PartialEq, Eq, Structural)]
pub enum ParseError {
    /// The line has fewer than five tokens: a cadence field is missing.
    MissingCadence,
    /// The line has five tokens: the cadence, and no command.
    MissingCommand,
    /// The line has six tokens: the cadence and the command, and no argument.
    MissingArguments,
}

/// A failure of one of the library's operations. Failures that a
/// collaborator reports carry its description of them.
#[derive(Clone, Debug, PartialEq, Eq)]
pub enum Error {
    /// A line of the table that belongs to this tool is malformed.
    Parse(ParseError),
    /// The path to register is registered already.
    DuplicateEntry,
    /// The path to remove is not registered.
    NotFound,
    /// The path is not the root of a working tree.
    NotAWorkingTree,
    /// No credential for the summarization service is configured.
    MissingCredential,
    /// The summarization service failed.
    SummarizationFailure(String),
    /// Reading status or diff, staging, committing or pushing failed.
    VersionControlFailure(String),
    /// Reading or writing the scheduler's table failed.
    IoFailure(String),
}

/// The mathematical value of an [`Error`].
pub enum Failure {
    Parse(ParseError),
    DuplicateEntry,
    NotFound,
    NotAWorkingTree,
    MissingCredential,
    SummarizationFailure(Seq<char>),
    VersionControlFailure(Seq<char>),
    IoFailure(Seq<char>),
}

impl View for Error {
    type V = Failure;

    open spec fn view(&self) -> Failure {
        match *self {
            Error::Parse(e) => Failure::Parse(e),
            Error::DuplicateEntry => Failure::DuplicateEntry,
            Error::NotFound => Failure::NotFound,
            Error::NotAWorkingTree => Failure::NotAWorkingTree,
            Error::MissingCredential => Failure::MissingCredential,
            Error::SummarizationFailure(s) => Failure::SummarizationFailure(s@),
            Error::VersionControlFailure(s) => Failure::VersionControlFailure(s@),
            Error::IoFailure(s) => Failure::IoFailure(s@),
        }
    }
}

impl Error {
    /// A copy of the error.
    pub fn duplicate(&self) -> (copy: Error)
        ensures
            copy@ == self@,
    {
        match self {
            Error::Parse(e) => Error::Parse(*e),
            Error::DuplicateEntry => Error::DuplicateEntry,
            Error::NotFound => Error::NotFound,
            Error::NotAWorkingTree => Error::NotAWorkingTree,
            Error::MissingCredential => Error::MissingCredential,
            Error::SummarizationFailure(detail) => Error::SummarizationFailure(detail.clone()),
            Error::VersionControlFailure(detail) => Error::VersionControlFailure(detail.clone()),
            Error::IoFailure(detail) => Error::IoFailure(detail.clone()),
        }
    }
}

} // verus!
