//! A verified arbitrary-precision postfix (reverse-Polish) arithmetic
//! evaluator.
//!
//! Given a space-delimited sequence of numeric literals and operator
//! symbols, the library validates structural well-formedness and computes a
//! single high-precision decimal result.  Exponentiation with fractional
//! and negative exponents is hand rolled on a natural-logarithm series and
//! an exponential series; no native transcendental functions are used.
//!
//! Module layout:
//! - [`decimal`]: the fixed-precision decimal number type and its checked
//!   arithmetic.
//! - [`text`]: tokenisation, numeric-literal parsing, and rendering.
//! - [`power`]: integer and fractional exponentiation, the logarithm and
//!   exponential series.
//! - [`math`]: constant substitution, expression validation and the stack
//!   evaluator.

pub mod decimal;
pub mod math;
pub mod power;
pub mod text;

pub use decimal::Dec;
pub use decimal::MathError;
pub use math::check_expression;
pub use math::evaluate_expression;
pub use math::is_numeric;
pub use math::replace_constants;
pub use math::EvalError;
pub use math::calculate;
pub use power::exp;
pub use power::integer_power;
pub use power::ln;
pub use power::power;
pub use text::parse_decimal;
pub use text::to_decimal_string;
