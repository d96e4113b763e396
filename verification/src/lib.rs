//! Byte-manipulation utilities: a hexadecimal codec, a base64 codec,
//! fixed-length XOR, and a byte-frequency counter.
pub mod ascii;
pub mod b64;
pub mod fixed_xor;
pub mod freq;
pub mod hex;

pub use b64::B64Error;
pub use b64::decode_b64;
pub use b64::encode_b64;
pub use fixed_xor::xor;
pub use freq::byte_frequencies;
pub use hex::HexError;
pub use hex::bytes_to_hex;
pub use hex::hex_to_bytes;
