//! A zero-copy lexical scanner: classified, position-annotated tokens over a
//! borrowed source buffer.
//!
//! `classify` decides where the token at a boundary ends and what it is,
//! `position` keeps rows and columns, `token` splits tokens and carves a
//! buffer into them, and `laws` states what holds of every split and scan.
pub mod classify;
pub mod laws;
pub mod position;
pub mod token;

pub use classify::{ErrorKind, TokenCategory};
pub use token::{ScanError, Token};
