//! A verified Chomp game engine together with the small numeric routines
//! (modular exponentiation, toy RSA encryption) and image-metadata helpers
//! that accompany it.
//!
//! The heart of the crate is the `board` module: a model of a Chomp position
//! and an exhaustive solver whose result is proved to coincide with the
//! game-theoretic value of the position.

pub mod board;
pub mod images;
pub mod modexp;
pub mod rsa;
