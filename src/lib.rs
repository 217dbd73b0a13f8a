//! Encodes any Unicode character as a short string over a small alphabet, by default the
//! 26 lowercase Latin letters, and decodes it back exactly.
//!
//! A character's code point is written in the alphabet's base and then scrambled by a
//! position-dependent substitution cipher, whose passes are proved invertible.

pub mod model;
pub mod lemmas;
pub mod cipher;
pub mod codec;
pub mod uniaz;
pub mod laws;
pub mod text;

pub use cipher::{Cipher, CipherError};
pub use uniaz::UniAz;
