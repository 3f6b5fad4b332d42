//! A loader for flat, dotted-key configuration text (`a.b.c = value`) that
//! builds a nested tree of typed values: booleans, numbers and strings.
//!
//! Lines are trimmed, comments (`#`) and blank lines are skipped, each
//! remaining line is split on its first `=`, the key is split on `.` into a
//! path, the value is classified by a fixed priority (boolean literal, then
//! floating-point literal, then plain string), and the pair is inserted into
//! the tree, creating intermediate nodes as needed.

use vstd::prelude::*;

mod load;
mod text;
mod tree;
mod value;

pub use load::lemma_comments_and_blanks_load_empty;
pub use load::lemma_loaded_tree_wf;
pub use load::lemma_load_deterministic;
pub use load::lemma_malformed_line_skipped;
pub use load::line_model;
pub use load::load_config;
pub use load::load_model;
pub use load::parse_line;
pub use text::find_from;
pub use text::split_segs;
pub use text::str_views;
pub use text::trim_spec;
pub use tree::has_key;
pub use tree::insert_model;
pub use tree::lemma_insert_preserves_wf;
pub use tree::wf_entries;
pub use tree::wf_value;
pub use tree::insert_nested_value;
pub use tree::lemma_insert_path_lookup;
pub use tree::lemma_insert_single_into_empty;
pub use tree::lookup_model;
pub use tree::path_lookup;
pub use tree::set_entry_model;
pub use tree::value_model;
pub use tree::ConfigTree;
pub use tree::ConfigValue;
pub use tree::PathConflict;
pub use tree::ValueModel;
pub use value::infer_model;
pub use value::infer_value;
pub use value::is_float_literal;

verus! {

} // verus!
