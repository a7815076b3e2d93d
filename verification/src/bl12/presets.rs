//! The parameters of the tables that are made ahead of time.

use crate::bl12::is_power_of_two;
use crate::bl12::Parameters;
use vstd::prelude::*;

verus! {

/// The tables that are made ahead of time, by the number of bits of their
/// logarithms.
#[allow(non_camel_case_types)]
#[derive(Clone, Copy, Debug, PartialEq, Eq)]
pub enum Presets {
    /// The table for logarithms of 16 bits.
    Bl12_16,
    /// The table for logarithms of 32 bits.
    Bl12_32,
    /// The table for logarithms of 48 bits.
    Bl12_48,
}

impl Presets {
    /// The parameters that the preset's table was made with.
    pub open spec fn parameters_of(self) -> Parameters {
        match self {
            Presets::Bl12_16 => Parameters { i: 8, W: 8, N: 8000, R: 64, secret_size: 16 },
            Presets::Bl12_32 => Parameters { i: 8, W: 2048, N: 4000, R: 128, secret_size: 32 },
            Presets::Bl12_48 => Parameters { i: 8, W: 65536, N: 40000, R: 128, secret_size: 48 },
        }
    }

    /// The parameters that the preset's table was made with.
    pub fn parameters(&self) -> (r: Parameters)
        ensures
            r == self.parameters_of(),
            r.valid(),
    {
        proof {
            assert(is_power_of_two(8)) by {
                assert(8u64 & 7u64 == 0) by (bit_vector);
            }
            assert(is_power_of_two(64)) by {
                assert(64u64 & 63u64 == 0) by (bit_vector);
            }
            assert(is_power_of_two(128)) by {
                assert(128u64 & 127u64 == 0) by (bit_vector);
            }
            assert(is_power_of_two(2048)) by {
                assert(2048u64 & 2047u64 == 0) by (bit_vector);
            }
            assert(is_power_of_two(65536)) by {
                assert(65536u64 & 65535u64 == 0) by (bit_vector);
            }
        }
        match self {
            Presets::Bl12_16 => Parameters { i: 8, W: 8, N: 8000, R: 64, secret_size: 16 },
            Presets::Bl12_32 => Parameters { i: 8, W: 2048, N: 4000, R: 128, secret_size: 32 },
            Presets::Bl12_48 => Parameters { i: 8, W: 65536, N: 40000, R: 128, secret_size: 48 },
        }
    }
}

} // verus!
