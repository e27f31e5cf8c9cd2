//! A small line search: the lines of a text that hold a query, matched exactly
//! or with case ignored.

pub mod cli;
