//! Strongly-typed Objective-C runtime type encodings, a verified matcher that
//! compares an encoding string against a structured encoding, and a model of
//! the fixed block-object header layout that the runtime expects.

pub mod block;
pub mod encoding;
pub mod laws;
pub mod parse;
