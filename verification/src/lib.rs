//! Five classical ciphers, each with `encrypt`, `decrypt` and the validation of its
//! key: Caesar, columnar transposition, mono-alphabetic substitution, rail fence and
//! Vernam. Every function is a pure function of its arguments, and the only failure
//! is a key that the cipher does not accept. None of the ciphers is secure.

pub mod alphabet;
pub mod caesar_cipher;
pub mod columnar_transposition_cipher;
pub mod error;
pub mod mono_alphabetic_cipher;
pub mod rail_fence_cipher;
pub mod text;
pub mod vernam_cipher;
