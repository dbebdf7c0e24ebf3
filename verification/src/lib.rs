//! Symmetric file encryption with AES-256-CBC or ChaCha20-Poly1305, an
//! incremental streaming cipher, and a chunked container format whose
//! chunks can be decrypted independently of each other.

pub mod container;
pub mod crypto;
pub mod decimal;
pub mod error;
pub mod format;
pub mod primitives;
pub mod stream;
