//! Word-frequency fingerprints.
//!
//! The crate ingests a corpus of per-author word-frequency tables — a
//! zstd-compressed or raw byte buffer — merges them into a global vocabulary, selects a fixed-size
//! fingerprint of the most frequent words, pushes the fingerprint through a
//! frequency-domain transform, and renders the magnitude spectrum as a
//! square color image.  Every stage states its behaviour as a contract and
//! is verified; the only outside calls are the forward transform and the
//! decompressor, each behind a single trusted wrapper.

use vstd::prelude::*;

pub mod corpus;
pub mod decode;
pub mod errors;
pub mod pipeline;
pub mod project;
pub mod render;
pub mod select;
pub mod spectral;
pub mod vocab;

verus! {

/// Number of entries a full fingerprint holds: the square of the image side.
pub const FINGERPRINT_LEN: usize = 16384;

/// Side length of a rendered fingerprint image.
pub const IMAGE_SIDE: usize = 128;

/// Bytes of an author identifier on the wire (right-padded with zeros).
pub const AUTHOR_ID_LEN: usize = 16;

/// Largest word length the wire format admits.
pub const MAX_WORD_LEN: usize = 64;

/// How many of the most prolific authors get their own fingerprint.
pub const TOP_AUTHORS: usize = 100;

/// Least number of non-zero projected words an author needs before an
/// author-specific fingerprint is rendered.
pub const COVERAGE_THRESHOLD: usize = 128;

/// The fingerprint length is exactly the square of the image side.
pub proof fn lemma_image_side_squares()
    ensures
        IMAGE_SIDE * IMAGE_SIDE == FINGERPRINT_LEN,
{
}

} // verus!
