//! The base-bound entry point into the algebra: a stateless factory that
//! parses textual expansions into canonical unit fractions.
use vstd::prelude::*;

use vstd::arithmetic::power::pow;

use crate::fraction::parse_post;
use crate::fraction::UnitFraction;
use crate::parse::ParseError;

verus! {

/// A stateless factory bound to one numeral base.
pub struct LaminationAlgebra {
    pub base: u8,
}

/// The algebra over the canonical unit-fraction values.
pub type DefaultAlgebra = LaminationAlgebra;

impl LaminationAlgebra {
    /// An algebra for the given base.
    pub fn new(base: u8) -> (r: Self)
        requires
            base >= 2,
        ensures
            r.base == base,
    {
        LaminationAlgebra { base }
    }

    /// Parses an expansion in this algebra's base.
    pub fn parse(&self, s: &str) -> (r: Result<UnitFraction, ParseError>)
        requires
            self.base >= 2,
            pow(self.base as int, s@.len() as nat) <= u128::MAX,
        ensures
            parse_post(self.base as int, s@, r),
    {
        UnitFraction::parse_nary(self.base, s)
    }
}

} // verus!
