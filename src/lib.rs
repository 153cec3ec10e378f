//! Turns a textual drawing of a directory tree (`├──`, `└──`, `│` connectors or plain
//! indentation) into the list of directories and files to create, in order.
//!
//! Each line is normalised, given a depth and split into entry names (`parse`), names are
//! checked against the platform's filename rules (`validate`), and the parsed nodes are
//! replayed against a stack of open ancestor directories (`builder`).
use vstd::prelude::*;

pub mod builder;
pub mod cli;
pub mod detect;
pub mod parse;
pub mod paths;
pub mod run;
pub mod text;
pub mod validate;

verus! {

} // verus!
