//! Phone-number encoding: translate digit strings into phrases of dictionary
//! words under the telephone keypad letter-to-digit mapping, with single
//! literal digits as fillers where no word matches.
pub mod dict;
pub mod keypad;
pub mod search;
