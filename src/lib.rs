//! Feature-barcode counting: resolution of read barcodes against a reference
//! panel, and per-cell aggregation of the resulting counts.

mod tables;

pub mod barcodes;
pub mod counts;
pub mod distance;
pub mod driver;
