//! Recoverable per-frame errors of the detection pipeline. Startup errors
//! (device open, model load) belong to the unverified shell around the
//! library, which terminates on them.

use vstd::prelude::*;

verus! {

#[derive(Clone, Copy, Debug, PartialEq, Eq, Structural)]
pub enum DetectError {
    /// A zero-dimension or otherwise unusable frame reached preprocessing;
    /// the frame should be skipped, not crash the pipeline.
    InvalidFrame,
    /// The inference backend returned a tensor whose shape does not match
    /// the model configuration; fatal, as it recurs on every frame.
    MalformedTensor,
}

} // verus!
