//! The input side of a PEG matching engine: an in-memory text buffer with a
//! byte cursor, literal and character-range matching that moves the cursor
//! only on success, and recovery of line and column from an offset.

pub mod contract;
pub mod error;
pub mod input;
pub mod locate;
pub mod utf8;

pub use contract::Input;
pub use error::InputError;
pub use input::StringInput;
