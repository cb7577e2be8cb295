//! Dice expressions: text such as `(3d3*2)+1d10` is scanned for dice terms,
//! each term is rolled, and the text is rewritten twice, once with every
//! die shown and once with the sum of each term.
//!
//! - `rolls` is the engine: reading a term, rolling it, finding the terms of
//!   an expression and answering it.
//! - `source` is where the dice get their numbers from.
//! - `evaluate` hands the arithmetic around the dice to an evaluator.
//! - `limits` and `error` hold the bounds and the failures.
//! - `text` holds what is needed of characters and decimal numbers.
//! - `commands` and `store` hold what a chat bot built on the engine works
//!   out before it sends or saves anything.

pub mod commands;
pub mod error;
pub mod evaluate;
pub mod limits;
pub mod rolls;
pub mod source;
pub mod store;
pub mod text;
