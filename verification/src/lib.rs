//! Evaluates a one-variable equation over a list of input values.
//!
//! The verified library turns the text of a request into tokens, groups the
//! tokens by their parentheses and orders the operations (functions first,
//! then multiplication, division and exponentiation, then addition and
//! subtraction, each from left to right). Its result is a tree of operations
//! whose leaves are numeric literals and the variable; computing the numbers
//! of that tree is left to the caller.

pub mod configuration_and_utilities;
pub mod expression;
pub mod string_and_vec_parsing;
pub mod evaluation;
pub mod number_syntax;
pub mod case_conversion;
pub mod request;
