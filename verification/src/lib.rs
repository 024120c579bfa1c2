//! Fixed-width content identifiers with an algebraic layer.
//!
//! A 128-bit identifier is derived from arbitrary bytes by a BLAKE3-based
//! digest, rendered as a fixed 22-character base-62 string, and mapped
//! reversibly onto a permutation of 34 symbols through the factorial number
//! system.  Permutations compose and invert as elements of the symmetric
//! group on 34 elements; plain integers combine through wraparound addition
//! modulo 2^128.

pub mod add128;
pub mod b62;
pub mod digest;
pub mod error;
pub mod group;
pub mod ids;
pub mod perm;

pub use add128::add;
pub use add128::ainv;
pub use b62::b62_to_str;
pub use b62::from_b62;
pub use b62::to_b62;
pub use digest::digest;
pub use digest::digest_to_int;
pub use error::Error;
pub use group::div;
pub use group::minv;
pub use group::mul;
pub use group::mulpairs;
pub use group::muls;
pub use ids::bin_id_fromn;
pub use ids::n_bin_fromid;
pub use ids::n_bin_id_fromblob;
pub use ids::n_id_fromperm;
pub use perm::int_to_perm;
pub use perm::perm_to_int;
