//! Square roots modulo an odd prime by the Tonelli-Shanks algorithm.
//!
//! Every function is stateless; all values are `u64`, and products of two
//! residues are formed in `u128` so that no multiplication can overflow.

pub mod arith;
pub mod fermat;
pub mod roots;

pub use roots::{
    find_quadratic_non_residue, legendre_symbol, pow_mod, square_roots, tonelli_shanks,
    tonelli_shanks_general,
};
