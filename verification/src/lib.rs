//! Byte-oriented text utilities for line-based wire protocols: ASCII
//! case-folding, hex-digit classification, NUL stripping, trailing-CRLF
//! trimming, and a forward-only tokenizing cursor (`UTF8Parser`) that
//! splits a byte buffer into delimiter-bounded tokens.
#![verifier::loop_isolation(false)]

use vstd::prelude::*;

pub mod bytes;
pub mod decode;
pub mod parser;

verus! {

/// The NUL byte, stripped from every buffer a parser is built over.
pub const NULL: u8 = 0x00;

/// Line feed.
pub const LF: u8 = 0x0a;

/// Carriage return.
pub const CR: u8 = 0x0d;

/// ASCII space.
pub const SP: u8 = 0x20;

/// ASCII colon, a common header-field delimiter.
pub const COLON: u8 = 0x3a;

/// ASCII forward slash.
pub const SLASH: u8 = 0x2f;

/// ASCII question mark.
pub const QMARK: u8 = 0x3f;

/// ASCII equals sign.
pub const EQUALS: u8 = 0x3d;

} // verus!
