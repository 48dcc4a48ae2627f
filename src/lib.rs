//! Content-addressed, encryptable block pointers.
//!
//! Raw bytes are split into fixed-size blocks, each addressed by a content
//! identifier; the blocks and a metadata blob are bound under one aggregate
//! identifier. The whole structure can be sealed with AES-256-GCM under a
//! nonce derived from the identifiers (convergent encryption) and opened
//! again, all as pure value transforms.

pub mod address;
pub mod aead;
pub mod block;
pub mod error;
pub mod marker;
pub mod metadata;
pub mod pointer;
