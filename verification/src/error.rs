//! Errors of path selection.
use vstd::prelude::*;
use vstd::string::StringExecFns;

verus! {

/// Why the evaluation of a path cannot go on (an evaluation that the
/// library's users see end in a panic): an unexpected token order, keys, a slice or a union inside a filter, an
/// operator missing an operand, a number literal that is not finite, a
/// slice step of zero applied to an array, or a replacement at an array
/// index past the end (after an earlier replacement changed the array).
#[derive(Clone, Copy, PartialEq, Eq)]
pub enum Halt {
    Unreachable,
    KeysInFilter,
    RangeInFilter,
    UnionInFilter,
    EmptyTermRight,
    EmptyTermLeft,
    NotFinite,
    ZeroStep,
    IndexOutOfBounds,
}

/// Why a selection failed.
pub enum JsonPathError {
    /// No path was given.
    EmptyPath,
    /// No value was selected.
    EmptyValue,
    /// The path could not be compiled; the compiler's message.
    Path(String),
    /// A selected value could not be converted; the converter's message.
    Serde(String),
    /// The evaluation of the path cannot go on (see `Halt`).
    Halted(Halt),
}

pub enum ErrorModel {
    EmptyPath,
    EmptyValue,
    Path(Seq<char>),
    Serde(Seq<char>),
    Halted(Halt),
}

impl View for JsonPathError {
    type V = ErrorModel;

    open spec fn view(&self) -> ErrorModel {
        match self {
            JsonPathError::EmptyPath => ErrorModel::EmptyPath,
            JsonPathError::EmptyValue => ErrorModel::EmptyValue,
            JsonPathError::Path(m) => ErrorModel::Path(m@),
            JsonPathError::Serde(m) => ErrorModel::Serde(m@),
            JsonPathError::Halted(h) => ErrorModel::Halted(*h),
        }
    }
}

impl JsonPathError {
    /// The text that describes the error.
    pub fn message(&self) -> (r: String)
        ensures
            r@ == match self@ {
                ErrorModel::EmptyPath => "path not set"@,
                ErrorModel::EmptyValue => "json value not set"@,
                ErrorModel::Path(m) => "path error: \n"@ + m + "\n"@,
                ErrorModel::Serde(m) => "serde error: \n"@ + m + "\n"@,
                ErrorModel::Halted(_) => "evaluation halted"@,
            },
    {
        match self {
            JsonPathError::EmptyPath => String::from_str("path not set"),
            JsonPathError::EmptyValue => String::from_str("json value not set"),
            JsonPathError::Path(m) => {
                let mut s = String::from_str("path error: \n");
                s.append(m.as_str());
                s.append("\n");
                s
            },
            JsonPathError::Serde(m) => {
                let mut s = String::from_str("serde error: \n");
                s.append(m.as_str());
                s.append("\n");
                s
            },
            JsonPathError::Halted(_) => String::from_str("evaluation halted"),
        }
    }
}

} // verus!
