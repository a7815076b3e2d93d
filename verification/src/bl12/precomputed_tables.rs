//! The tables of the solver of Bernstein and Lange that are made ahead of
//! time.

use vstd::prelude::*;

verus! {

/// The tables that are made ahead of time.
#[derive(Clone, Copy, Debug, PartialEq, Eq)]
pub enum PrecomputedTables {
    /// The table for logarithms of 32 bits.
    BernsteinLange32,
}

impl PrecomputedTables {
    /// The number of bits of the logarithms that the table is for.
    pub fn max_num_bits(&self) -> (r: u8)
        ensures
            r == 32,
    {
        32
    }

    /// The table for logarithms of `max_num_bits` bits, if one is made ahead
    /// of time.
    pub fn for_bits(max_num_bits: u8) -> (r: Option<PrecomputedTables>)
        ensures
            r is Some <==> max_num_bits == 32,
    {
        if max_num_bits == 32 {
            Some(PrecomputedTables::BernsteinLange32)
        } else {
            None
        }
    }
}

} // verus!
