//! An append-only, hash-identified event log ("chain") together with a
//! structural mirror of a dynamically-typed value model, with verified
//! conversion, structural hashing, and a lossless textual wire format.

pub mod chain;
pub mod hashing;
pub mod value_hash;
pub mod values;
pub mod wire;

use vstd::prelude::*;

verus! {

/// True when the byte is an ASCII decimal digit.
pub open spec fn spec_is_digit(c: char) -> bool {
    '0' <= c && c <= '9'
}

/// Decimal digit character for a value below ten.
pub open spec fn spec_digit_char(d: u64) -> char
    recommends
        d < 10,
{
    ((d + 48) as u8) as char
}

} // verus!
