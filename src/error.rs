use vstd::prelude::*;

verus! {

/// Why generating, parsing or mutating an input failed.
#[derive(Debug, Clone, PartialEq, Eq)]
pub enum TestlangError {
    /// The grammar has no record of this name.
    UnknownRecord(String),
    /// A field names a record that the grammar does not define.
    UnknownField(String),
    /// A size that is missing, not a number, negative, or not an encodable width.
    InvalidSize(Option<i128>),
    /// A reference where only a number or a word is allowed, or one that names no
    /// earlier parsed normal field.
    InvalidReference(String),
    /// The input ended before a field did.
    ShortInput,
    /// A field with a fixed value holds other bytes.
    ValueMismatch,
    /// No alternative of a union parsed.
    UnionNoMatch,
    /// Records nest deeper than the library follows.
    TooDeep,
}

/// The mathematical form of an error: names as character sequences.
pub enum ErrorKind {
    UnknownRecord(Seq<char>),
    UnknownField(Seq<char>),
    InvalidSize(Option<int>),
    InvalidReference(Seq<char>),
    ShortInput,
    ValueMismatch,
    UnionNoMatch,
    TooDeep,
}

impl View for TestlangError {
    type V = ErrorKind;

    open spec fn view(&self) -> ErrorKind {
        match self {
            TestlangError::UnknownRecord(n) => ErrorKind::UnknownRecord(n@),
            TestlangError::UnknownField(n) => ErrorKind::UnknownField(n@),
            TestlangError::InvalidSize(v) => ErrorKind::InvalidSize(
                match v {
                    Some(x) => Some(*x as int),
                    None => None,
                },
            ),
            TestlangError::InvalidReference(n) => ErrorKind::InvalidReference(n@),
            TestlangError::ShortInput => ErrorKind::ShortInput,
            TestlangError::ValueMismatch => ErrorKind::ValueMismatch,
            TestlangError::UnionNoMatch => ErrorKind::UnionNoMatch,
            TestlangError::TooDeep => ErrorKind::TooDeep,
        }
    }
}

impl TestlangError {
    /// A short description of the error.
    pub fn message(&self) -> (r: String) {
        match self {
            TestlangError::UnknownRecord(_) => "unknown record".to_owned(),
            TestlangError::UnknownField(_) => "field names an unknown record".to_owned(),
            TestlangError::InvalidSize(_) => "invalid size".to_owned(),
            TestlangError::InvalidReference(_) => "invalid reference".to_owned(),
            TestlangError::ShortInput => "input too short".to_owned(),
            TestlangError::ValueMismatch => "value mismatch".to_owned(),
            TestlangError::UnionNoMatch => "no union alternative matched".to_owned(),
            TestlangError::TooDeep => "records nest too deeply".to_owned(),
        }
    }
}

} // verus!
