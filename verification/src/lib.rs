//! Conflict algebra and merge-aware trees over a content-addressed store.
//!
//! A conflicted value is kept as a chain of terms: start from the first
//! added term, then repeatedly take one term away and add another. Trees are
//! treated the same way, so that lookups, walks, diffs and merges work on
//! conflicted trees without resolving them first.
//!
//! - [`merge`] holds the algebra of terms: cancelling and trivial
//!   resolution; [`algebra_laws`] proves what they keep.
//! - [`backend`], [`tree`] and [`store`] hold the objects: identifiers, entry
//!   values, single-level trees, and a store in memory that gives equal
//!   contents one identifier. [`content`] proves that trees which hold the
//!   same files are one tree.
//! - [`repo_path`], [`order`], [`names`], [`assoc`] and [`matchers`] hold
//!   paths, their order, ordered lists, and path filters.
//! - [`merged_tree`] is the view of a tree that may be conflicted: values
//!   under names and at paths, walks, conflicts and diffs. [`walk_laws`]
//!   proves the order of what walks and diffs report and what walks report.
//! - [`tree_merge`] and [`files`] merge trees and file contents;
//!   [`tree_merge_laws`] proves that merging what has been merged changes
//!   nothing.
//! - [`tree_builder`] and [`merged_tree_builder`] write changed trees;
//!   [`legacy`] turns a plain tree with conflict records into removed and
//!   added trees, and [`legacy_laws`] proves that both forms can be built
//!   again from what they hold.
//! - [`bench`] names the benchmarks of the `bench` command.
pub mod algebra_laws;
pub mod assoc;
pub mod backend;
pub mod bench;
pub mod content;
pub mod files;
pub mod legacy;
pub mod legacy_laws;
pub mod matchers;
pub mod merge;
pub mod merged_tree;
pub mod merged_tree_builder;
pub mod names;
pub mod order;
pub mod repo_path;
pub mod store;
pub mod tree;
pub mod tree_builder;
pub mod tree_merge;
pub mod tree_merge_laws;
pub mod walk_laws;
