//! HyperCompress: a content-aware compression engine.
pub mod bytes;
pub mod format;
pub mod transform;
pub mod entropy;
pub mod chunk;
pub mod decompress;
pub mod fingerprint;
pub mod compress;
pub mod crypto;
pub mod dictionary;
pub mod roundtrip;
pub mod archive;
pub mod runs;
pub mod selection;

use vstd::prelude::*;

verus! {
} // verus!
