//! Marshaling and value-interchange layer for a host runtime whose calling
//! convention knows only two shapes: a 64-bit floating-point number and a
//! pointer to a null-terminated byte string.
//!
//! The library models the number shape by its IEEE 754 bit pattern and the
//! text shape by its bytes, so that every conversion rule can be stated and
//! checked over plain integers, sequences and characters.

use vstd::prelude::*;

pub mod buffer;
pub mod codec;
pub mod encoding;
pub mod export;
pub mod fbits;
pub mod func;
pub mod notify;
pub mod numtext;
pub mod parsing;
pub mod report;
pub mod value;
