//! The serialization framework: interchange formats and the group
//! driver.

pub mod group;

use vstd::prelude::*;

verus! {

/// The suffix of the reconstruction sidecar written beside a line-list
/// export.
pub const DEINFO_EXT: &'static str = "deinfo.json";

/// The interchange formats an export can use.
#[derive(Clone, Copy, Debug, PartialEq, Eq, Structural)]
pub enum SerializeType {
    /// A structured document in JSON.
    Json,
    /// A structured document in YAML.
    Yaml,
    /// The line-list plain-text format with its sidecar.
    Txt { add_language_names: bool },
}

} // verus!
