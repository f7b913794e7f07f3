use vstd::prelude::*;

verus! {

/// The error kinds a negotiation operation can surface.
///
/// Every fallible operation of this crate pins down in its `ensures`
/// exactly which of these it returns on which inputs.
#[derive(Clone, Copy, Debug, PartialEq, Eq, Structural)]
pub enum Error {
    /// Malformed address, URI, PSBT, script or amount; detected before any
    /// state mutation.
    InvalidInput,
    /// Reused or missing transport context, or a call that the negotiation's
    /// agreed terms forbid.
    ProtocolViolation,
    /// A check over peer-supplied data failed (ownership, replay,
    /// classification or broadcast suitability).
    PeerRejected,
    /// The resulting effective fee rate lies outside the caller's bounds.
    FeePolicyViolation,
    /// A host callback itself reported failure.
    ExternalFailure,
    /// The encrypted transport could not encapsulate or decapsulate a
    /// message.
    TransportFailure,
}

} // verus!
