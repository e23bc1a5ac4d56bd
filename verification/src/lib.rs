//! Planning bulk file renames from an edited path listing.
//!
//! A user edits a text listing of paths; the library pairs the original
//! listing (origins) with the edited one (targets) by position, validates the
//! pairing, and computes an order in which the renames can be applied without
//! one rename destroying a file that another still has to read. Rename cycles
//! (such as swapping two names) are broken by staging one member through a
//! fresh temporary name.

pub mod diag;
pub mod listing;
pub mod plan;
