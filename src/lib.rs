//! Parsing, normalisation and standard-form reduction of linear equations.

pub mod token;
pub mod expr;
pub mod termlist;
pub mod standardform;
pub mod matrix;
pub mod solve;
pub mod session;
