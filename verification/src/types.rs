//! The two length-prefixed string encodings used inside binary payloads.

pub mod u16string;
pub mod u8string;
