//! The position and error model shared by the lexer and the parser.

use vstd::prelude::*;

verus! {

/// A 1-based line/column position in the source text.
#[derive(Clone, Copy, Debug, PartialEq, Eq, Structural)]
pub struct Location {
    pub line: usize,
    pub col: usize,
}

/// Mathematical counterpart of `Location`, with unbounded coordinates so
/// that specifications never truncate.
#[verifier::ext_equal]
pub ghost struct LocModel {
    pub line: int,
    pub col: int,
}

impl View for Location {
    type V = LocModel;

    open spec fn view(&self) -> LocModel {
        LocModel { line: self.line as int, col: self.col as int }
    }
}

impl DeepView for Location {
    type V = LocModel;

    open spec fn deep_view(&self) -> LocModel {
        self.view()
    }
}

/// Lexicographic order on positions: `a` does not come after `b`.
pub open spec fn loc_le(a: LocModel, b: LocModel) -> bool {
    a.line < b.line || (a.line == b.line && a.col <= b.col)
}

/// What went wrong, lexically or syntactically.
#[derive(Clone, Debug, PartialEq, Eq)]
pub enum ErrorKind {
    /// A bare word that is not in the keyword table, carrying that word.
    InvalidKeyword(String),
    /// A string literal with no closing quote before the end of input.
    UnterminatedString,
    /// A character that starts no token, carried as a one-character string.
    UnrecognizedToken(String),
    /// A number literal with no digits, or one too large to represent.
    MalformedNumber,
    /// A token that the grammar does not allow at this point.
    UnexpectedToken,
    /// The token stream ended where the grammar required more.
    UnexpectedEnd,
    /// A string literal was required here.
    ExpectedString,
    /// The `by` keyword was required after the title string.
    ExpectedBy,
    /// The `pass` keyword was required after the author string.
    ExpectedPass,
    /// An opening or closing brace was required here.
    MissingBrace,
    /// An answer block closed without listing a single string.
    EmptyAnswerList,
}

/// Mathematical counterpart of `ErrorKind`.
#[verifier::ext_equal]
pub ghost enum ErrorKindModel {
    InvalidKeyword(Seq<char>),
    UnterminatedString,
    UnrecognizedToken(Seq<char>),
    MalformedNumber,
    UnexpectedToken,
    UnexpectedEnd,
    ExpectedString,
    ExpectedBy,
    ExpectedPass,
    MissingBrace,
    EmptyAnswerList,
}

impl View for ErrorKind {
    type V = ErrorKindModel;

    open spec fn view(&self) -> ErrorKindModel {
        match self {
            ErrorKind::InvalidKeyword(w) => ErrorKindModel::InvalidKeyword(w@),
            ErrorKind::UnterminatedString => ErrorKindModel::UnterminatedString,
            ErrorKind::UnrecognizedToken(c) => ErrorKindModel::UnrecognizedToken(c@),
            ErrorKind::MalformedNumber => ErrorKindModel::MalformedNumber,
            ErrorKind::UnexpectedToken => ErrorKindModel::UnexpectedToken,
            ErrorKind::UnexpectedEnd => ErrorKindModel::UnexpectedEnd,
            ErrorKind::ExpectedString => ErrorKindModel::ExpectedString,
            ErrorKind::ExpectedBy => ErrorKindModel::ExpectedBy,
            ErrorKind::ExpectedPass => ErrorKindModel::ExpectedPass,
            ErrorKind::MissingBrace => ErrorKindModel::MissingBrace,
            ErrorKind::EmptyAnswerList => ErrorKindModel::EmptyAnswerList,
        }
    }
}

impl DeepView for ErrorKind {
    type V = ErrorKindModel;

    open spec fn deep_view(&self) -> ErrorKindModel {
        self.view()
    }
}

/// A located, file-tagged diagnostic. The first error aborts the pipeline
/// stage that raised it; there is no recovery.
#[derive(Clone, Debug, PartialEq, Eq)]
pub struct Error {
    pub loc: Location,
    pub file: String,
    pub kind: ErrorKind,
}

/// Mathematical counterpart of `Error`.
#[verifier::ext_equal]
pub ghost struct ErrorModel {
    pub loc: LocModel,
    pub file: Seq<char>,
    pub kind: ErrorKindModel,
}

impl View for Error {
    type V = ErrorModel;

    open spec fn view(&self) -> ErrorModel {
        ErrorModel { loc: self.loc@, file: self.file@, kind: self.kind@ }
    }
}

impl DeepView for Error {
    type V = ErrorModel;

    open spec fn deep_view(&self) -> ErrorModel {
        self.view()
    }
}

} // verus!
