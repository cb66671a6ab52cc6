use vstd::prelude::*;

verus! {

/// Why a transform call was refused.
#[derive(Clone, Copy, Debug, PartialEq, Eq, Structural)]
pub enum TransformError {
    /// Source and destination disagree in width, height or row stride, or a
    /// buffer's storage does not fit its declared shape.
    ShapeMismatch,
    /// The scale or the offset is not a finite number.
    InvalidParameter,
    /// No strategy is registered under the requested name.
    StrategyNotFound,
    /// A worker stopped before finishing its chunk. The strategies of this
    /// library never report it themselves: it is for the caller that finds
    /// a worker to have panicked.
    WorkerFailure,
}

impl TransformError {
    /// A short human-readable description of the error.
    pub fn message(&self) -> (text: &'static str)
        ensures
            text@ == Self::message_spec(*self),
    {
        match self {
            TransformError::ShapeMismatch => "buffer shapes do not match",
            TransformError::InvalidParameter => "scale and offset must be finite",
            TransformError::StrategyNotFound => "no strategy registered under that name",
            TransformError::WorkerFailure => "a worker failed before finishing its chunk",
        }
    }

    /// The text that `message` returns for each variant.
    pub open spec fn message_spec(e: TransformError) -> Seq<char> {
        match e {
            TransformError::ShapeMismatch => "buffer shapes do not match"@,
            TransformError::InvalidParameter => "scale and offset must be finite"@,
            TransformError::StrategyNotFound => "no strategy registered under that name"@,
            TransformError::WorkerFailure => "a worker failed before finishing its chunk"@,
        }
    }
}

} // verus!
