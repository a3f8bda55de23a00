//! Read a single value from, or write a single value into, an INI file while keeping every
//! other byte of the file as it was.
//!
//! The library works on bytes. `text` and `lexer` give the grammar of one logical line,
//! `scan` walks a source line by line and reports where a key's value stands, `write`
//! turns that report into a substitution and copies the source window by window around it,
//! and `read` returns a value's raw text and parses it through `FromIniStr`. The step
//! functions (`ScanState::feed_line`, `emit_window`, `emit_tail`) let a caller stream a file
//! of any size; the whole-buffer functions are built from the same steps. `laws` and
//! `roundtrip` state and prove what holds across calls.
use vstd::prelude::*;

pub mod boundary;
pub mod error;
pub mod integer;
pub mod laws;
pub mod lexer;
pub mod lines;
pub mod parser;
pub mod read;
pub mod replace;
pub mod roundtrip;
pub mod scan;
pub mod text;
pub mod write;

pub use error::{Error, ParseError};
pub use lines::{trim_whitespace_and_quotes, try_section_from_line};
pub use parser::{DuplicateKeyStrategy, IniParser};
pub use read::FromIniStr;
pub use scan::{ScanResult, ScanState};
pub use write::{Substitution, WRITE_BUFFER_SIZE};

verus! {

} // verus!
