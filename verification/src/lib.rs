//! Verified prime factorization of arbitrary-precision naturals.
//!
//! The decomposition runs in two phases: trial division strips the least
//! prime factor, then each remaining factor of the residual is found either
//! by a deterministic primality short-circuit or by Pollard's rho. The
//! result is proved to multiply back to the input exactly, with every base
//! prime and no base repeated. Arbitrary-precision arithmetic comes from
//! `num_bigint` through the trusted wrappers in [`bigint`]; everything
//! built on those wrappers is verified.
use vstd::prelude::*;

pub mod arith;
pub mod bigint;
pub mod factorization;
pub mod parse;
pub mod primality;
pub mod rho;
pub mod roots;

verus! {

/// Failure conditions surfaced by the factorization routines.
#[derive(Clone, Copy, PartialEq, Eq, Structural, Debug)]
pub enum FactorError {
    /// The input string is not a valid decimal natural number.
    InvalidInput,
    /// The randomized factor search exceeded its iteration budget.
    NonConvergence,
}

} // verus!
