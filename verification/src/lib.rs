//! Unit algebra, unit-expression parsing and a registry of defined units.
//!
//! Exponents and dimensions are exact rationals (`Rational`) whose numerator
//! and denominator are natural numbers of any size (`Natural`), so that the
//! algebra of units (products, quotients, powers, cancellation) is exact and
//! has no range of its own.
//! The scale factor of a defined unit is carried as an opaque parameter `S`
//! that the verified code never computes with.
//!
//! Unit expressions such as `kg * m^2 / s^2` are read by two readers: a
//! tokenizer with a Pratt parser (`parser`), used by the registry, and a
//! character-level combinator reader (`nom_parser`).
pub mod natural;
pub mod rational;
pub mod chars;
pub mod tokenizer;
pub mod text;
pub mod unit;
pub mod dimension_sum;
pub mod unit_registry;
pub mod parser;
pub mod nom_parser;
pub mod unit_file_parser;
