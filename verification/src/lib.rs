//! Core of a one-hot ("bit vector") encoder for tabular data.
//!
//! A delimited text file is decoded into [`variable::Variable`]s, each holding
//! one column of [`value::Value`]s. Every variable classifies its values into
//! named buckets, either one bucket per distinct value or by user-written
//! ranges parsed by [`parser::Parser`], and keeps a frequency histogram over
//! those buckets. The encoder renders the bucketed data as rows of `0`/`1`
//! characters followed by the outcome column.

pub mod decoder;
pub mod laws;
pub mod session;
pub mod encoder;
pub mod parser;
pub mod variable;
pub mod value;

use vstd::prelude::*;

verus! {

} // verus!
