//! Block-cipher modes of operation over an AES-128 single-block primitive,
//! a reversible byte-padding codec, a structural detector for ECB usage,
//! a fixed-key chosen-plaintext oracle, and a byte-at-a-time recovery
//! attack that extracts the oracle's hidden suffix without the key.

pub mod attack;
pub mod bytes;
pub mod cipher;
pub mod detect;
pub mod errors;
pub mod modes;
pub mod oracle;
pub mod padding;
pub mod profile;
