//! Decision logic of a set of workspace-wide lints and of the tools that
//! aggregate and fix what the lints find.
pub mod cli;
pub mod coordination;
pub mod derived_field;
pub mod fix_plan;
pub mod hir;
pub mod interior_mutable_statics;
pub mod item_complexity;
pub mod lists;
pub mod option_report;
pub mod option_single_variant;
pub mod order;
pub mod overlap;
pub mod overlap_lint;
pub mod public_fields;
pub mod reexports;
pub mod rewriting;
pub mod samples;
pub mod sorting;
pub mod stringly_typed;
pub mod strings;
pub mod syntax;
pub mod text;
pub mod trait_option_single_variant;
pub mod trivial_forwarding;
pub mod underscore_prefix;
pub mod unused;
pub mod unused_lint;
pub mod utils;
pub mod visibility;
pub mod workspace_lint;
