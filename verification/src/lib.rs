//! A codec between a length-prefixed binary text encoding and a structured
//! value tree: a recursive-descent decoder and a canonicalizing encoder with
//! byte-lexicographically sorted object keys.

pub mod value;
pub mod num;
pub mod decode;
pub mod encode;
pub mod laws;
