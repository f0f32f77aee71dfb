//! Game logic

pub mod lobby;
pub mod round;
pub mod waiting;

use vstd::prelude::*;

use vstd::string::StringExecFns;

verus! {

/// Number of columns to split from the left
///
/// The remaining columns are reserved for the score board.
pub const COLUMN_SPLIT: u16 = 32;

/// Number of rows to split from the top when displaying instructions
///
/// During some phases, instructions are displayed in the lower part of the
/// left column. This value specifies the number of rows of the left column to
/// use for other content during those phases.
pub const INSTRUCTION_SPLIT: u16 = 12;

/// Assumed width of the player's terminal
pub const DISPLAY_WIDTH: u16 = 80;

/// Assumed height of the player's terminal
pub const DISPLAY_HEIGHT: u16 = 24;

/// Number of rows at the top to keep free when placing viruses
pub const FREE_ROWS: usize = 4;

/// Game control messages
#[derive(Copy, Clone, Debug)]
pub enum GameControl {
    Settings {
        /// Number of viruses a field is initialized with
        viruses: u8,
        /// Duration of a tick
        tick: std::time::Duration,
    },
    EndOfGame,
}

impl GameControl {
    /// Check whether the game control indicates an end of game condition
    pub fn is_end_of_game(&self) -> (r: bool)
        ensures
            r == self is EndOfGame,
    {
        match self {
            GameControl::EndOfGame => true,
            _ => false,
        }
    }
}

/// Error type for connection task functions
///
/// This error type is intended for functions and utilities used in connection
/// tasks.
#[derive(Clone, Debug)]
pub enum ConnTaskError {
    /// The connection was terminated in some way
    ///
    /// The connection was terminated, presumably actively by the user.
    Terminated,
    /// The operation would block
    WouldBlock,
    /// Some other error occurred, with its description
    Other(String),
}

impl ConnTaskError {
    /// Create an "other" error with the given description
    pub fn other(description: String) -> (r: Self)
        ensures
            r matches ConnTaskError::Other(d) && d@ == description@,
    {
        ConnTaskError::Other(description)
    }

    /// Create an error from an I/O error
    ///
    /// An error indicating that the operation would block becomes a
    /// `WouldBlock`, any other error an `Other` with the error's description.
    pub fn from_io_error(would_block: bool, description: String) -> (r: Self)
        ensures
            would_block ==> r is WouldBlock,
            !would_block ==> (r matches ConnTaskError::Other(d) && d@ == description@),
    {
        if would_block {
            ConnTaskError::WouldBlock
        } else {
            ConnTaskError::Other(description)
        }
    }

    /// Check whether this error just indicates that an operation would block
    pub fn is_would_block(&self) -> (r: bool)
        ensures
            r == self is WouldBlock,
    {
        match self {
            ConnTaskError::WouldBlock => true,
            _ => false,
        }
    }

    /// A description of the error
    pub fn message(&self) -> (r: String)
        ensures
            self is Terminated ==> r@ == "Connection terminated"@,
            self is WouldBlock ==> r@ == "Operation would block"@,
            self is Other ==> r@ == "Error in connection task"@,
    {
        match self {
            ConnTaskError::Terminated => String::from_str("Connection terminated"),
            ConnTaskError::WouldBlock => String::from_str("Operation would block"),
            ConnTaskError::Other(_) => String::from_str("Error in connection task"),
        }
    }
}

/// Decode a single character of input
///
/// The decoder yields ASCII characters. It emulates an end-of-file condition
/// on ETX (`0x03`) and EOT (`0x04`) by returning `Terminated`; any other byte
/// outside the ASCII range is invalid data. Without a byte, there is no
/// character yet.
pub fn decode_char(byte: Option<u8>) -> (r: Result<Option<char>, ConnTaskError>)
    ensures
        byte is None ==> r == Ok::<Option<char>, ConnTaskError>(None),
        byte matches Some(b) ==> ((b == 3 || b == 4) ==> (r matches Err(
            ConnTaskError::Terminated,
        ))),
        byte matches Some(b) ==> ((b != 3 && b != 4 && b < 0x80) ==> r == Ok::<
            Option<char>,
            ConnTaskError,
        >(Some(b as char))),
        byte matches Some(b) ==> (b >= 0x80 ==> (r matches Err(ConnTaskError::Other(d))
            && d@ == "invalid data"@)),
{
    match byte {
        None => Ok(None),
        Some(b) => if b == 3 || b == 4 {
            Err(ConnTaskError::Terminated)
        } else if b < 0x80 {
            Ok(Some(b as char))
        } else {
            Err(ConnTaskError::Other(String::from_str("invalid data")))
        },
    }
}

} // verus!
