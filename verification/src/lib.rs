//! Combinatorial core of a TrueSkill-style skill-rating library.
//!
//! The floating-point side of the rating algorithm (Gaussian updates, match
//! quality) lives with the caller; this crate holds the parts whose behaviour
//! is exact and proved: enumeration of the candidate team splits that the
//! roster-balancing search ranges over, selection of the best-scoring
//! candidate, and the outcome normalization that reduces a loss to a win for
//! the swapped team order.

pub mod combinations;
pub mod matchmaking;
pub mod score;
