pub mod algebra;
pub mod arith;
pub mod fraction;
pub mod laws;
pub mod parse;

pub use algebra::DefaultAlgebra;
pub use algebra::LaminationAlgebra;
pub use fraction::Comparison;
pub use fraction::UnitFraction;
pub use parse::ParseError;
pub use parse::parse_digit_parts;
pub use parse::value_from_digits;
