//! The errors that loading a corpus can report.

use vstd::prelude::*;
use vstd::string::StringExecFns;

verus! {

/// Why a corpus could not be loaded. Each variant carries the detail that
/// follows the fixed opening of its message.
#[derive(Debug)]
pub enum QuranError {
    /// The corpus file is missing or cannot be read.
    FileOpenError(String),
    /// The document is not JSON, or a required field of a chapter or verse
    /// record is absent or of the wrong type.
    JsonError(String),
}

impl QuranError {
    /// The detail that the error carries.
    pub open spec fn detail(self) -> Seq<char> {
        match self {
            QuranError::FileOpenError(detail) => detail@,
            QuranError::JsonError(detail) => detail@,
        }
    }

    /// The text of the message: the opening for the variant, then the detail.
    pub open spec fn message_text(self) -> Seq<char> {
        match self {
            QuranError::FileOpenError(detail) => "failed to open file: "@ + detail@,
            QuranError::JsonError(detail) => "failed to parse JSON: "@ + detail@,
        }
    }

    /// The message of the error, for display.
    pub fn message(&self) -> (text: String)
        ensures
            text@ == self.message_text(),
    {
        match self {
            QuranError::FileOpenError(detail) => {
                let mut text = String::from_str("failed to open file: ");
                text.append(detail.as_str());
                text
            },
            QuranError::JsonError(detail) => {
                let mut text = String::from_str("failed to parse JSON: ");
                text.append(detail.as_str());
                text
            },
        }
    }
}

} // verus!
