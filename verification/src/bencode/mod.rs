//! Bencode: the value type, its writer and its reader.
pub mod object;
pub mod encode;
pub mod decode;
pub mod laws;
