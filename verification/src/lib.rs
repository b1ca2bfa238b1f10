//! Resolution of build-dependency graphs over a repository of package
//! descriptors.
//!
//! A descriptor is a text of `KEY="VALUE"` assignments describing one
//! package; `info_file_parser` turns such a text into a structured
//! [`info_file_parser::SboInfo`]. `packages` resolves the transitive
//! dependency graph of a package over a repository of descriptors,
//! detecting cycles and missing descriptors.

pub mod info_file_parser;
pub mod packages;
