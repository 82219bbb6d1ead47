//! Error kinds of the pipeline.

use vstd::prelude::*;

verus! {

/// Everything that can go wrong while processing one input file.
#[derive(Clone, Copy, Debug, PartialEq, Eq, Structural)]
pub enum PipelineError {
    /// The input buffer does not conform to the wire format.
    MalformedInput,
    /// The image sink rejected a write.
    WriteFailure,
    /// A required external resource (such as the stopword list) is absent.
    MissingResource,
}

} // verus!
