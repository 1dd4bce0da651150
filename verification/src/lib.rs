//! Core of a POSIX-style shell interpreter: a layered variable scope store
//! with bash-like dynamic scoping and attribute enforcement, and an
//! arbitrary-radix integer arithmetic evaluator with bash-exact edge-case
//! behaviour.
//!
//! Overflow policy: all arithmetic that the shell does not guard (addition,
//! subtraction, multiplication, exponentiation, division of `i128::MIN` by
//! `-1`) wraps modulo 2^128, and shift counts are taken modulo 128.

pub mod calc;
pub mod error;
pub mod laws;
pub mod num;
pub mod parameter;
pub mod store;
pub mod text;
