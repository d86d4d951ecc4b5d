//! Errors of the configuration.

use vstd::prelude::*;

verus! {

/// Which of the two configured durations a message is about.
#[derive(Clone, Copy, Debug, PartialEq, Eq, Structural)]
pub enum DurationField {
    /// The minimum time between two attacks.
    MinTimeBetweenChaos,
    /// The upper bound of the random time added to the minimum.
    RandomExtraTimeBetweenChaos,
}

/// A fault of the configuration. Each is fatal when the process starts.
#[derive(Clone, Copy, Debug, PartialEq, Eq, Structural)]
pub enum ConfigError {
    /// A namespace is both targeted and blacklisted.
    OverlappingNamespaces,
    /// The text of a duration is not a duration.
    MalformedDuration(DurationField),
    /// The name of the deletion mode is none of the known ones.
    UnknownMode,
}

} // verus!
