//! RC4 stream cipher: key scheduling, keystream generation, and in-place
//! XOR of data with the keystream, all proved against a mathematical model.
//!
//! RC4 is cryptographically weak and must not be used where security matters.

pub mod model;
pub mod cipher;
pub mod laws;

pub use cipher::RC4;
