//! A verified parser and aggregator for line-oriented `.lang` localization
//! resource files.
//!
//! A resource file holds `key = value` entries, where a value may be a bare
//! scalar, a quoted string (possibly continued over several lines), or a
//! bracketed array of quoted strings.  The library parses one file into a
//! [`table::RawTable`], merges many parsed files into a
//! [`table::AggregatedTable`], decodes raw values into their logical shape,
//! keeps one aggregated table resident in a [`cache::ResidentCache`], and
//! renders a TypeScript interface description of the merged data.

pub mod aggregate;
pub mod cache;
pub mod decoder;
pub mod errors;
pub mod generate;
pub mod parser;
pub mod table;
pub mod text;

use vstd::prelude::*;

verus! {

/// The file-name extension that marks a resource file.
pub const LANG_EXTENSION: &'static str = "lang";

} // verus!
