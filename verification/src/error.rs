//! The failures that directory operations report.

use vstd::prelude::*;

verus! {

/// What went wrong in a directory operation.
#[derive(Debug, Clone, PartialEq)]
pub enum DirError {
    /// The directory being merged still carries a file.
    FileConflict,
    /// Two directories or files of the merged trees share this name.
    DuplicateName(String),
    /// The name is already taken by a sibling.
    NameInUse(String),
    /// The path or name cannot be used.
    InvalidPath(String),
    /// No directory of this name exists.
    NoDir(String),
    /// No file of this name exists.
    NoFile(String),
}

/// The mathematical content of a [`DirError`]: its kind and the text it carries.
pub enum Failure {
    FileConflict,
    DuplicateName(Seq<char>),
    NameInUse(Seq<char>),
    InvalidPath(Seq<char>),
    NoDir(Seq<char>),
    NoFile(Seq<char>),
}

impl View for DirError {
    type V = Failure;

    open spec fn view(&self) -> Failure {
        match self {
            DirError::FileConflict => Failure::FileConflict,
            DirError::DuplicateName(s) => Failure::DuplicateName(s@),
            DirError::NameInUse(s) => Failure::NameInUse(s@),
            DirError::InvalidPath(s) => Failure::InvalidPath(s@),
            DirError::NoDir(s) => Failure::NoDir(s@),
            DirError::NoFile(s) => Failure::NoFile(s@),
        }
    }
}

impl Failure {
    /// The sentence that describes this failure to a reader.
    pub open spec fn text(self) -> Seq<char> {
        match self {
            Failure::FileConflict => "File from merging directory was not dropped before merging"@,
            Failure::DuplicateName(s) => "Duplicate name conflict for '"@ + s
                + "' when trying to merge directory"@,
            Failure::NameInUse(s) => "Name '"@ + s + "' is already in use"@,
            Failure::InvalidPath(s) => "Path '"@ + s + "' is not allowed"@,
            Failure::NoDir(s) => "Unable to locate '"@ + s + "' directory"@,
            Failure::NoFile(s) => "Unable to locate '"@ + s + "' file"@,
        }
    }
}

/// `head`, then `middle`, then `tail`, as one string.
fn framed(head: &str, middle: &str, tail: &str) -> (s: String)
    ensures
        s@ == head@ + middle@ + tail@,
{
    let mut s = head.to_owned();
    s.append(middle);
    s.append(tail);
    s
}

impl DirError {
    /// The sentence that describes this error to a reader.
    pub fn message(&self) -> (s: String)
        ensures
            s@ == self@.text(),
    {
        match self {
            DirError::FileConflict => {
                "File from merging directory was not dropped before merging".to_owned()
            },
            DirError::DuplicateName(n) => framed(
                "Duplicate name conflict for '",
                n.as_str(),
                "' when trying to merge directory",
            ),
            DirError::NameInUse(n) => framed("Name '", n.as_str(), "' is already in use"),
            DirError::InvalidPath(n) => framed("Path '", n.as_str(), "' is not allowed"),
            DirError::NoDir(n) => framed("Unable to locate '", n.as_str(), "' directory"),
            DirError::NoFile(n) => framed("Unable to locate '", n.as_str(), "' file"),
        }
    }
}

} // verus!
