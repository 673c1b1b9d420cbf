//! Browsing of devicetree blobs: decoding, tree building, value display and search.
pub mod classify;
pub mod decoder;
pub mod error;
pub mod filter;
pub mod tree;
