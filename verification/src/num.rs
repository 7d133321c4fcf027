//! The fixed-point numeric domain of the engine.
//!
//! A measurement is a [`Num`]: either a finite value, stored as an `i64`
//! mantissa scaled by [`SCALE`] (so `Num::Finite(1_000_000)` is `1.0`), or
//! `NonFinite`, which stands for anything the domain cannot represent (a NaN,
//! an infinity, or a magnitude beyond [`MAX_ABS`]).  The engine rejects
//! non-finite inputs before it computes anything.

use vstd::prelude::*;

verus! {

/// Mantissa of `1.0`: all values are scaled by one million.
pub const SCALE: i64 = 1_000_000;

/// Mantissa of `0.5`: the cut between the control and the treated arm.
pub const HALF_SCALE: i64 = 500_000;

/// Largest mantissa magnitude the engine accepts as input, `1.0e6` in value.
pub const MAX_ABS: i64 = 1_000_000_000_000;

/// A scalar measurement handed to the engine.
#[derive(Clone, Copy, Debug, PartialEq, Eq, Structural)]
pub enum Num {
    /// A finite value, as a mantissa scaled by [`SCALE`].
    Finite(i64),
    /// A value outside the representable domain.
    NonFinite,
}

impl Num {
    /// True when the value is finite and within the accepted magnitude.
    pub open spec fn spec_is_valid(self) -> bool {
        match self {
            Num::Finite(m) => -MAX_ABS <= m <= MAX_ABS,
            Num::NonFinite => false,
        }
    }

    /// True when the value is exactly `0.0` or exactly `1.0`.
    pub open spec fn spec_is_binary(self) -> bool {
        self == Num::Finite(0i64) || self == Num::Finite(SCALE)
    }

    /// Mantissa of a finite value; arbitrary for `NonFinite`.
    pub open spec fn spec_mantissa(self) -> i64 {
        match self {
            Num::Finite(m) => m,
            Num::NonFinite => 0i64,
        }
    }

    /// Runtime check matching [`Num::spec_is_valid`].
    pub fn is_valid(&self) -> (r: bool)
        ensures
            r == self.spec_is_valid(),
    {
        match self {
            Num::Finite(m) => -MAX_ABS <= *m && *m <= MAX_ABS,
            Num::NonFinite => false,
        }
    }

    /// Runtime check matching [`Num::spec_is_binary`].
    pub fn is_binary(&self) -> (r: bool)
        ensures
            r == self.spec_is_binary(),
    {
        match self {
            Num::Finite(m) => *m == 0 || *m == SCALE,
            Num::NonFinite => false,
        }
    }

    /// Mantissa of a finite value, `0` for `NonFinite`.
    pub fn mantissa(&self) -> (r: i64)
        ensures
            r == self.spec_mantissa(),
    {
        match self {
            Num::Finite(m) => *m,
            Num::NonFinite => 0,
        }
    }
}

} // verus!
