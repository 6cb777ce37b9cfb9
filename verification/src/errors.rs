//! The errors that loading a board or detonating a bomb can report.

use vstd::prelude::*;
use vstd::string::StringExecFns;

verus! {

/// What can go wrong while a board is loaded or a bomb is detonated.
#[derive(Debug, PartialEq, Eq)]
pub enum MazeError {
    /// The board's source could not be read; holds the cause.
    FileNotFound(String),
    /// The board's text breaks the cell grammar or is not rectangular; holds the cause.
    InvalidFormat(String),
    /// The cell asked to detonate holds no bomb.
    NoBomb,
    /// The coordinate asked for lies outside the board.
    OutOfBounds,
    /// Any other failure; holds the cause.
    Other(String),
}

impl MazeError {
    /// The error is `InvalidFormat` with the given cause.
    pub open spec fn is_invalid_format(self, cause: Seq<char>) -> bool {
        self matches MazeError::InvalidFormat(text) && text@ == cause
    }

    /// The text of the message that describes this error.
    pub open spec fn message(self) -> Seq<char> {
        match self {
            MazeError::FileNotFound(cause) => "File not found: "@ + cause@,
            MazeError::InvalidFormat(cause) => "Invalid format: "@ + cause@,
            MazeError::NoBomb => "No Bomb found in the given coordinates"@,
            MazeError::OutOfBounds => "Coordinates out of bounds"@,
            MazeError::Other(cause) => "An error occurred: "@ + cause@,
        }
    }

    /// Renders the error as a message for a person to read.
    pub fn to_string(&self) -> (text: String)
        ensures
            text@ == self.message(),
    {
        match self {
            MazeError::FileNotFound(cause) => String::from_str("File not found: ").concat(
                cause.as_str(),
            ),
            MazeError::InvalidFormat(cause) => String::from_str("Invalid format: ").concat(
                cause.as_str(),
            ),
            MazeError::NoBomb => String::from_str("No Bomb found in the given coordinates"),
            MazeError::OutOfBounds => String::from_str("Coordinates out of bounds"),
            MazeError::Other(cause) => String::from_str("An error occurred: ").concat(
                cause.as_str(),
            ),
        }
    }
}

} // verus!
