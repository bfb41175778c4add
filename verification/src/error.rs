//! The ways in which a scoring call can fail.

use vstd::prelude::*;
use vstd::string::StringExecFns;

verus! {

/// Why a call failed. Every failure is final: the same call fails the same
/// way again, and no partial result comes with it.
#[derive(Debug)]
pub enum ScoreError {
    /// The drawing is not an image in a format that is recognised. Holds the
    /// decoder's own description.
    Decode(String),
    /// The font is not in a format that is recognised.
    FontParse,
    /// The reference image could not be encoded. Holds the encoder's own
    /// description.
    Encode(String),
    /// The target character was given as an empty string.
    EmptyCharacter,
}

impl ScoreError {
    /// The description of the failure.
    pub open spec fn text(self) -> Seq<char> {
        match self {
            ScoreError::Decode(detail) => "Failed to decode image: "@ + detail@,
            ScoreError::FontParse => "Failed to parse font data"@,
            ScoreError::Encode(detail) => "Failed to encode PNG: "@ + detail@,
            ScoreError::EmptyCharacter => "Empty character string"@,
        }
    }

    /// The description of the failure, as it is handed to the caller.
    pub fn message(&self) -> (message: String)
        ensures
            message@ == self.text(),
    {
        match self {
            ScoreError::Decode(detail) => {
                let mut message: String = "Failed to decode image: ".to_owned();
                message.append(detail.as_str());
                message
            },
            ScoreError::FontParse => "Failed to parse font data".to_owned(),
            ScoreError::Encode(detail) => {
                let mut message: String = "Failed to encode PNG: ".to_owned();
                message.append(detail.as_str());
                message
            },
            ScoreError::EmptyCharacter => "Empty character string".to_owned(),
        }
    }
}

} // verus!
