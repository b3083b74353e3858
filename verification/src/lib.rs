//! Extraction and reinsertion of localizable text embedded in the binary
//! "core" asset containers used by two game engines' localization systems.
//!
//! The crate decodes a container into a sequence of self-describing chunks,
//! exposes the text resources inside, applies edits, and re-encodes a
//! byte-faithful container: every chunk the tool does not understand is
//! preserved verbatim, and an untouched container round-trips byte for byte.

pub mod chunks;
pub mod detect;
pub mod ds;
pub mod error;
pub mod fixed_map;
pub mod hzd;
pub mod laws;
pub mod logger;
pub mod options;
pub mod serialize;
pub mod text;
pub mod types;
pub mod utf16;
pub mod wire;
