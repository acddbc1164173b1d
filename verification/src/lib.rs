//! Page imposition for hand-bound booklets.
//!
//! A booklet is printed as a stack of signatures: bundles of sheets, each
//! sheet folded once and carrying four pages. This crate decides how many
//! signatures a document needs, how many sheets go into each, and which page
//! of the document lands on which position of the printed order.

pub mod params;
pub mod partition;
pub mod signature;
pub mod arrange;
