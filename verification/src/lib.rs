//! RSA public-key transforms built on a fixed-capacity multi-precision
//! integer: Montgomery modular exponentiation, CRT (Garner) decryption,
//! and OAEP message encoding driven by an MGF1 mask generator over SHA-256.

pub mod bigint;
pub mod montgomery;
pub mod oaep;
pub mod rsa;
pub mod sha256;
