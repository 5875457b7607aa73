//! A YAML canonicalizer and emitter.
//!
//! The library rewrites a parsed document tree into a deterministic,
//! byte-stable textual form: mapping keys sorted by a derived textual key,
//! whitespace and quoting normalized, and multi-line strings rendered as
//! block literals when that is safe. Formatting is idempotent: formatting an
//! already formatted document changes nothing.

use vstd::prelude::*;

pub mod canon;
pub mod emit;
pub mod format;
pub mod laws;
pub mod lines;
pub mod scalar;
pub mod text;
pub mod value;

verus! {

pub use crate::canon::key_sort_key;
pub use crate::canon::sort_value;
pub use crate::emit::spaces;
pub use crate::emit::Formatter;
pub use crate::format::canonicalize_and_emit;
pub use crate::format::format_yaml_dict;
pub use crate::format::format_yaml_files;
pub use crate::format::format_yaml_string;
pub use crate::format::strip_leading_marker;
pub use crate::format::YamlFormatError;
pub use crate::format::YAMLFormatError;
pub use crate::lines::count_changed_lines;
pub use crate::scalar::is_disallowed_control;
pub use crate::scalar::is_plain_key;
pub use crate::scalar::is_plain_string;
pub use crate::scalar::is_reserved_keyword;
pub use crate::scalar::looks_like_number;
pub use crate::scalar::should_use_literal_block;
pub use crate::value::Tree;

} // verus!
