//! Markdown is already text; its structure is read later, at ingest.
use vstd::prelude::*;
use crate::extractors::html::{from_utf8_lossy, lossy_text};

verus! {

/// The text of `bytes`, invalid UTF-8 replaced.
pub fn extract(bytes: &[u8]) -> (r: String)
    ensures
        r@ == lossy_text(bytes@),
{
    from_utf8_lossy(bytes)
}

} // verus!
