//! Error taxonomies of the engine: reasons an action is illegal on a given
//! board, and reasons a board or action string fails to parse.

use vstd::prelude::*;
use vstd::string::StringExecFns;

use crate::bitboard::Color;

verus! {

/// Why a requested action is illegal on the board it was tried on.
#[derive(Debug, Clone, Copy, PartialEq, Eq, Structural)]
pub enum ActionError {
    /// The source square does not hold a piece of the side to move.
    SourceColorError { position: u8, color: Color },
    /// The destination square is not empty.
    DestinationEmptyError { destination: u8 },
    /// A jump passes over a square that does not hold an opponent piece.
    SkippedPositionError { skipped: u8, color: Color },
    /// A capture is available, so a plain move is not allowed.
    HaveToJumpError,
    /// Only kings may move or jump towards their own side.
    SinglePieceBackwardsError,
    /// The capture chain stops although another jump is available.
    NeedMoreJumpingError,
}

impl ActionError {
    /// A short description of the error, for display by a caller.
    pub fn message(&self) -> (r: String)
        ensures
            r@ == spec_action_error_message(*self),
    {
        match self {
            ActionError::SourceColorError { .. } => {
                String::from_str("Source position must be in possession of mover")
            },
            ActionError::DestinationEmptyError { .. } => {
                String::from_str("Destination position must be empty")
            },
            ActionError::SkippedPositionError { .. } => {
                String::from_str("Skipped position must have a piece of the opponent")
            },
            ActionError::HaveToJumpError => String::from_str("One of the jumpers need to move!"),
            ActionError::SinglePieceBackwardsError => {
                String::from_str("Only kings can move backwards!")
            },
            ActionError::NeedMoreJumpingError => String::from_str("More jumping required!"),
        }
    }
}

/// The text `ActionError::message` returns for each variant.
pub open spec fn spec_action_error_message(e: ActionError) -> Seq<char> {
    match e {
        ActionError::SourceColorError { .. } => {
            "Source position must be in possession of mover"@
        },
        ActionError::DestinationEmptyError { .. } => "Destination position must be empty"@,
        ActionError::SkippedPositionError { .. } => {
            "Skipped position must have a piece of the opponent"@
        },
        ActionError::HaveToJumpError => "One of the jumpers need to move!"@,
        ActionError::SinglePieceBackwardsError => "Only kings can move backwards!"@,
        ActionError::NeedMoreJumpingError => "More jumping required!"@,
    }
}

/// Why a board string, a movetext string, or a command fails to parse.
#[derive(Debug, PartialEq, Eq)]
pub enum ParseError {
    /// A side letter other than `W` or `B` was read.
    ColorError,
    /// A piece was neither a king designation nor a numbered position.
    PieceError,
    /// A position outside 1..=32 was read in a board string.
    PositionError { position: String },
    /// The board string does not have the three colon-separated fields.
    InvalidBoard,
    /// A movetext has fewer than two or more than nine positions.
    MoveQuantityError,
    /// A movetext position is not a number in 1..=32, or two consecutive
    /// positions are not one diagonal jump apart in a chain.
    PositionValueError,
    /// The `-` delimiter between movetext positions is malformed.
    InvalidDelimiter,
    /// The action cannot be read at all.
    InvalidAction,
    /// No command verb was supplied.
    NoCommandError,
    /// A search-constraint option other than `depth` or `timed` was read.
    ConstraintOptionError,
    /// A search-constraint value is out of range.
    ConstraintValueError,
    /// The command verb is not recognised.
    InvalidCommand,
}

impl ParseError {
    /// A short description of the error, for display by a caller.
    pub fn message(&self) -> (r: String)
        ensures
            r@ == spec_parse_error_message(*self),
    {
        match self {
            ParseError::ColorError => String::from_str("Invalid color letter (W and B are valid)!"),
            ParseError::PieceError => {
                String::from_str("Expected king designation or numbered position!")
            },
            ParseError::PositionError { .. } => {
                String::from_str("Read a position that is not valid (1 - 32)!")
            },
            ParseError::InvalidBoard => String::from_str("Couldn't parse board!"),
            ParseError::MoveQuantityError => {
                String::from_str("Can only have up to eight positions in any given movetext!")
            },
            ParseError::PositionValueError => {
                String::from_str(
                    "Read invalid position (make sure all positions are between 1 and 32)!",
                )
            },
            ParseError::InvalidDelimiter => {
                String::from_str("Error parsing delimiter '-' between positions in movetext!")
            },
            ParseError::InvalidAction => String::from_str("Invalid action!"),
            ParseError::NoCommandError => String::from_str("No command supplied!"),
            ParseError::ConstraintOptionError => String::from_str("Invalid constraint option!"),
            ParseError::ConstraintValueError => String::from_str("Invalid constraint value!"),
            ParseError::InvalidCommand => String::from_str("Invalid command!"),
        }
    }
}

/// The text `ParseError::message` returns for each variant.
pub open spec fn spec_parse_error_message(e: ParseError) -> Seq<char> {
    match e {
        ParseError::ColorError => "Invalid color letter (W and B are valid)!"@,
        ParseError::PieceError => "Expected king designation or numbered position!"@,
        ParseError::PositionError { .. } => "Read a position that is not valid (1 - 32)!"@,
        ParseError::InvalidBoard => "Couldn't parse board!"@,
        ParseError::MoveQuantityError => {
            "Can only have up to eight positions in any given movetext!"@
        },
        ParseError::PositionValueError => {
            "Read invalid position (make sure all positions are between 1 and 32)!"@
        },
        ParseError::InvalidDelimiter => {
            "Error parsing delimiter '-' between positions in movetext!"@
        },
        ParseError::InvalidAction => "Invalid action!"@,
        ParseError::NoCommandError => "No command supplied!"@,
        ParseError::ConstraintOptionError => "Invalid constraint option!"@,
        ParseError::ConstraintValueError => "Invalid constraint value!"@,
        ParseError::InvalidCommand => "Invalid command!"@,
    }
}

} // verus!
