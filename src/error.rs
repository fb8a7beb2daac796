//! What a step or a configuration call can fail with.
use vstd::prelude::*;

verus! {

/// A call that the engine's configuration does not allow; nothing is sent.
#[derive(Debug)]
pub enum ConfigurationError {
    /// No list of this name was added.
    UnknownList(String),
    /// Ranges are set by the caller on selective lists only.
    RangesOnGrowingList,
    /// A round-trip is already outstanding.
    StepInFlight,
    /// No round-trip is outstanding to complete.
    NoStepInFlight,
}

/// What a round-trip can end with instead of an update summary.
#[derive(Debug)]
pub enum SyncError {
    /// The transport failed; nothing was changed.
    Transport(String),
    /// The server rejected the position cursor: it has been cleared, and the
    /// next round-trip resumes without it. Lists and rooms are kept.
    UnknownPosition,
    /// The response was malformed for the named list; nothing was changed.
    Protocol(String),
    /// See [`ConfigurationError`].
    Configuration(ConfigurationError),
}

} // verus!
