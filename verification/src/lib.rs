//! Rail Fence transposition cipher.
//!
//! A message is written along a zig-zag over a fixed number of rails and read
//! off rail by rail. The mathematical model lives in [`path`] and [`model`],
//! the facts about them that the proofs share in [`counting`], the executable
//! transform in [`cipher`], the laws relating encoding and decoding in
//! [`laws`], the passage between strings and characters in [`text`], and the
//! handling of a command line's arguments in [`command`].

pub mod path;
pub mod model;
pub mod counting;
pub mod cipher;
pub mod laws;
pub mod text;
pub mod command;

pub use cipher::{
    decode, encode, rail_fence_cipher, rail_lengths, transform, CipherError, CipherMode,
};
pub use command::{mode_for, parse_depth, report, run};
pub use path::next_rail;
