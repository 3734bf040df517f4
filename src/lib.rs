//! Classification of free-form IP address text and derivation of its
//! representations: canonical and expanded text, binary layout, integer
//! value, neighbouring addresses and subnet bounds.

use vstd::prelude::*;

pub mod numeric;
pub mod digits;
pub mod parse;
pub mod parse_v6;
pub mod format;
pub mod classify;
pub mod translate;
pub mod laws;
pub mod laws_v6;

verus! {

} // verus!
