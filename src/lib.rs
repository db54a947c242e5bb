//! Arbitrary-precision conversion between positional numeral systems over a
//! shared ordered alphabet, and a reversible scrambling scheme that chains such
//! conversions along a sequence of bases.

pub mod bignum;
pub mod charset;
pub mod numeral;
pub mod cipher;
pub mod laws;
pub mod password;
pub mod pipeline;
