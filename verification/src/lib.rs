//! Verified building blocks for an embeddable language runtime: a
//! reference-counting cell heap that also reclaims cycles, and the growable
//! array, byte string and timestamp types that such a runtime stores in it.

pub mod array;
pub mod bridge;
pub mod cactus;
pub mod time;
pub mod utf8;
mod vecs;
