//! Recovery of image artifacts embedded in a raw binary buffer.
//!
//! The scanner walks a byte buffer looking for known container-format
//! signatures (PNG, JPG, GIF), classifies spans, and emits an ordered
//! partition of the input; the merge module performs the inverse
//! operation, concatenating previously extracted fragments in name order.

pub mod signatures;
pub mod scanner;
pub mod naming;
pub mod merge;
pub mod options;
pub mod laws;
pub mod utils;
