//! A parser for the objects of the Portable Document Format and a set of its
//! stream filters, with contracts proved by Verus.
#![allow(unused_imports)]

pub mod header;
pub mod object;
pub mod parse;
pub mod pdf;
pub mod process;

use vstd::prelude::*;

verus! {

/// Limit on the size of a decoded stream: 1 GiB.
pub const DECODED_LIMIT: usize = 1073741824;

} // verus!
