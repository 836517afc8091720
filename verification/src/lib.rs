//! A single-user local password vault engine.
//!
//! The vault derives a 32-byte key from a master passphrase with Argon2id,
//! stores each credential encrypted with ChaCha20-Poly1305 in its own file
//! image (`nonce || ciphertext || tag`), and keeps an in-memory index of the
//! decrypted records while unlocked.  All file input and output is left to
//! the caller: the vault consumes and produces the byte images of the files.

pub mod codec;
pub mod crypto;
pub mod errors;
pub mod kdf;
pub mod order;
pub mod passgen;
pub mod secret;
pub mod vault;

pub use errors::VaultError;
pub use secret::Secret;
pub use vault::Vault;
