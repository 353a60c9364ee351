//! A streaming, allocation-free parser for the decimal literals of G-code.
//!
//! Characters are fed one at a time into a [`DecimalParser`], which keeps the literal's value in
//! a bounded signed integer (a [`Significand`]) with checked arithmetic only, and yields a
//! [`Decimal`] when the literal ends. The module `literal` states what the parser makes of every
//! literal, proved against the parser's own transition function.
use vstd::prelude::*;

pub mod decimal;
pub mod literal;
pub mod sign;
pub mod significand;

pub use crate::decimal::{Decimal, DecimalParser, Error};
pub use crate::sign::Sign;
pub use crate::significand::{ShiftedI32, Significand};
