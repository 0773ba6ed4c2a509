//! Error taxonomy of the key-event-log core.
use vstd::prelude::*;

verus! {

/// Why an event was rejected by validation or key-state derivation.
#[derive(Clone, Copy, Debug, PartialEq, Eq, Structural)]
pub enum ProcessError {
    /// The event does not extend the chain: wrong identifier, wrong
    /// sequence number, or a previous-event digest that does not match.
    SequenceError,
    /// A rotation reveals current keys whose digests differ from the
    /// next-key commitments of the prior key-state.
    RotationCommitmentMismatch,
    /// Fewer distinct valid signatures than the signing threshold demands.
    SignatureThresholdNotMet,
    /// A non-inception event for an identifier with no prior log.
    UnknownIdentifier,
}

/// Why the event store refused a write.
#[derive(Clone, Copy, Debug, PartialEq, Eq, Structural)]
pub enum StoreError {
    /// An event with the same (identifier, sequence) is already recorded.
    DuplicateSequence,
    /// A receipt references an (identifier, sequence) with no stored event.
    UnknownTargetEvent,
}

/// Failure of a whole inception or rotation workflow.
#[derive(Clone, Copy, Debug, PartialEq, Eq, Structural)]
pub enum KelError {
    /// The signing backend failed to produce a signature.
    SigningFailed,
    /// The identifier has no derivable key-state to rotate from.
    NoKeyState,
    /// The next sequence number would not fit in its machine word.
    SequenceOverflow,
    /// The event processor rejected the event.
    Rejected(ProcessError),
}

} // verus!
