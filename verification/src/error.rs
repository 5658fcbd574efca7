//! The failures an operation on the tree can report.

use vstd::prelude::*;

verus! {

/// Why an operation on the tree was refused.
#[derive(Debug, Clone, Copy, PartialEq, Eq, Structural)]
pub enum Error {
    /// A path segment, a folder or a note does not exist and was not to be created.
    NotFound,
    /// A folder was addressed by a path without a final segment.
    NamelessFolder,
    /// A note was addressed without a title or without a folder to live in.
    BookLessNote,
    /// A folder that still has children was to be deleted without its contents.
    NonEmptyBook,
    /// The destination of a move or copy is occupied and may not be replaced.
    OverwriteNotAllowed,
}

impl Error {
    /// The name under which the failure is reported to the user.
    pub open spec fn text(self) -> Seq<char> {
        match self {
            Error::NotFound => "NotFound"@,
            Error::NamelessFolder => "NamelessFolder"@,
            Error::BookLessNote => "BookLessNote"@,
            Error::NonEmptyBook => "NonEmptyBook"@,
            Error::OverwriteNotAllowed => "OverwriteNotAllowed"@,
        }
    }

    /// Renders the failure as the text shown to the user.
    pub fn message(&self) -> (s: String)
        ensures
            s@ == self.text(),
    {
        match self {
            Error::NotFound => String::from_str("NotFound"),
            Error::NamelessFolder => String::from_str("NamelessFolder"),
            Error::BookLessNote => String::from_str("BookLessNote"),
            Error::NonEmptyBook => String::from_str("NonEmptyBook"),
            Error::OverwriteNotAllowed => String::from_str("OverwriteNotAllowed"),
        }
    }
}

} // verus!
