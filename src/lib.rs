//! Dictionary-encoded categorical columns: a column of `u32` codes together
//! with a reverse mapping from code to category string, in a local, global
//! (string-cache backed) or enum (closed vocabulary) encoding.

pub mod categorical;
pub mod chunked;
pub mod error;
pub mod laws;
pub mod revmap;
pub mod string_cache;
