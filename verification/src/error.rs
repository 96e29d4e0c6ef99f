//! The error type shared by the whole library.
use vstd::prelude::*;

verus! {

/// What can go wrong in this library.
#[derive(Debug, Clone, PartialEq, Eq)]
pub enum Error {
    /// A fault of the underlying stream or file, with its description.
    IO(String),
    /// A broken internal assumption, with its description.
    InternalError(String),
    /// An endpoint that is no valid URL, with the parser's description.
    Url(String),
    /// A failure reported by the language-model client, with its description.
    LLM(String),
    /// A path that should name a directory and does not.
    NotADirectory(String),
    /// A project root without a `CMakeLists.txt`.
    NoCMakeListsFound,
    /// CMake files whose bytes are no valid UTF-8, with the decoder's description.
    CMakeNotUtf8(String),
    /// A cache line whose declared type is none of the known spellings.
    CMakeVariableTypeUnknown(String),
    /// A cache line that holds nothing but white space.
    CMakeVariableParseErrorEmptyLine,
    /// A cache line that is a comment.
    CMakeVariableParseErrorCommentLine,
    /// A cache line without `=`.
    CMakeVariableParseErrorAssignmentLine,
    /// A cache line without a name, be it that nothing stands before the
    /// colon or nothing but the advanced suffix, or without a type after the
    /// colon.
    CMakeVariableParseErrorMissingName,
    /// A cache line without `:` left of the `=`.
    CMakeVariableParseErrorMissingColon,
}

/// The mathematical value of an [`Error`]: the same cases, over character
/// sequences.
pub enum ErrorView {
    IO(Seq<char>),
    InternalError(Seq<char>),
    Url(Seq<char>),
    LLM(Seq<char>),
    NotADirectory(Seq<char>),
    NoCMakeListsFound,
    CMakeNotUtf8(Seq<char>),
    CMakeVariableTypeUnknown(Seq<char>),
    CMakeVariableParseErrorEmptyLine,
    CMakeVariableParseErrorCommentLine,
    CMakeVariableParseErrorAssignmentLine,
    CMakeVariableParseErrorMissingName,
    CMakeVariableParseErrorMissingColon,
}

impl View for Error {
    type V = ErrorView;

    open spec fn view(&self) -> ErrorView {
        match self {
            Error::IO(s) => ErrorView::IO(s@),
            Error::InternalError(s) => ErrorView::InternalError(s@),
            Error::Url(s) => ErrorView::Url(s@),
            Error::LLM(s) => ErrorView::LLM(s@),
            Error::NotADirectory(s) => ErrorView::NotADirectory(s@),
            Error::NoCMakeListsFound => ErrorView::NoCMakeListsFound,
            Error::CMakeNotUtf8(s) => ErrorView::CMakeNotUtf8(s@),
            Error::CMakeVariableTypeUnknown(s) => ErrorView::CMakeVariableTypeUnknown(s@),
            Error::CMakeVariableParseErrorEmptyLine => ErrorView::CMakeVariableParseErrorEmptyLine,
            Error::CMakeVariableParseErrorCommentLine => ErrorView::CMakeVariableParseErrorCommentLine,
            Error::CMakeVariableParseErrorAssignmentLine => ErrorView::CMakeVariableParseErrorAssignmentLine,
            Error::CMakeVariableParseErrorMissingName => ErrorView::CMakeVariableParseErrorMissingName,
            Error::CMakeVariableParseErrorMissingColon => ErrorView::CMakeVariableParseErrorMissingColon,
        }
    }
}

} // verus!
