//! The ways a scan can be refused before it starts.

use vstd::prelude::*;

verus! {

/// Why a scan was refused.
#[derive(Clone, Copy, Debug, PartialEq, Eq, Structural)]
pub enum ScanError {
    /// The prefix text does not write three octets.
    InvalidPrefix,
    /// The scan was asked for with settings under which nothing would be
    /// attempted, such as zero rounds.
    ConfigError,
}

} // verus!
