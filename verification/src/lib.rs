//! Solvers for the discrete logarithm problem on small ranges in the
//! Ristretto group: given `Y = x * G` with `x` of a known small number of
//! bits, find `x`.
//!
//! Each solver computes a table once and then solves from it:
//!
//! - `bsgs`: baby-step giant-step;
//! - `bsgs_k`: baby-step giant-step with the compression of points done in
//!   batches;
//! - `tbsgs_k`: the same with table keys truncated to eight bytes;
//! - `bl12`: the walks to distinguished points of Bernstein and Lange;
//! - `naive_lookup`, `naive_doubled_lookup`,
//!   `naive_truncated_doubled_lookup`: one lookup in a table of the whole
//!   range, the latter two in the table of another solver.
//!
//! The solvers are verified with Verus. What they state is stated of the
//! discrete logarithms of points; the arithmetic of the group is that of
//! `curve25519-dalek`, whose operations are taken on trust in `group`.

pub mod baby_steps;
pub mod bl12;
pub mod bsgs;
pub mod bsgs_k;
pub mod bytes;
pub mod clock;
pub mod codec;
pub mod error;
pub mod group;
pub mod naive_doubled_lookup;
pub mod naive_lookup;
pub mod naive_truncated_doubled_lookup;
pub mod point_index;
pub mod point_map;
pub mod shared;
pub mod table_format;
pub mod tbsgs_k;
pub mod traits;
pub mod utils;

pub use traits::DiscreteLogSolver;
