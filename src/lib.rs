//! Block-cipher modes (ECB, CBC) with PKCS#7 padding over the AES-128 block
//! primitive, and the statistical tools that break XOR ciphers and spot ECB.

pub mod bytes;
pub mod padding;
pub mod primitive;
pub mod modes;
pub mod laws;
pub mod xor;
pub mod detect;
pub mod hex;
