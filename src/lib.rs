//! Codec for packed PBO-style archives: a list of file headers, an
//! extension block of key/value metadata, concatenated payloads and a
//! trailing SHA-1 checksum.
use vstd::prelude::*;

pub mod digest;
pub mod encode;
pub mod error;
pub mod format;
pub mod header;
pub mod laws;
pub mod le;
pub mod order;
pub mod pbo;
pub mod text;
pub mod source;

pub use crate::header::PBOHeader;
pub use crate::pbo::PBO;

verus! {

} // verus!
