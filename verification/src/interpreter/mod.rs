//! Shell-interpreter helpers that stand on their own: the arithmetic
//! expression scanner with its number and operator rules, the arithmetic
//! evaluator over a model of the shell's variables, and the helpers of
//! static command analysis.
pub mod analysis;
pub mod arithmetic;
pub mod eval;
