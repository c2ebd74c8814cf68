//! The ways in which building a model or computing its response can fail.
use vstd::prelude::*;

verus! {

/// What went wrong. Every kind is recoverable: the caller may skip the model
/// at hand and go on with the next.
#[derive(Clone, Copy, Debug, PartialEq, Eq, Structural)]
pub enum BodeError {
    /// A physical parameter that has to be positive was not, or the parts of
    /// a value that belong together did not fit each other.
    InvalidParameter,
    /// The response is not a finite number at some swept frequency, as
    /// happens where the denominator vanishes.
    SingularResponse,
    /// The drawing backend could not produce the chart.
    RenderingFailure,
}

impl BodeError {
    /// The text that `describe` returns for each kind.
    pub open spec fn text(self) -> Seq<char> {
        match self {
            BodeError::InvalidParameter => "invalid parameter"@,
            BodeError::SingularResponse => "singular response"@,
            BodeError::RenderingFailure => "rendering failure"@,
        }
    }

    /// A short name of the kind, for messages.
    pub fn describe(&self) -> (r: &'static str)
        ensures
            r@ == self.text(),
    {
        match self {
            BodeError::InvalidParameter => "invalid parameter",
            BodeError::SingularResponse => "singular response",
            BodeError::RenderingFailure => "rendering failure",
        }
    }
}

} // verus!
