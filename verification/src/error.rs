//! What makes a configuration unusable.

use vstd::prelude::*;

verus! {

/// A configuration that no tree or world can be made from.
#[derive(Clone, Copy, Debug, PartialEq, Eq, Structural)]
pub enum ConfigError {
    /// A square was given a half side of zero or less.
    NonPositiveHalfExtent,
    /// A square reaches beyond the coordinates that the plane has.
    OutsidePlane,
}

impl ConfigError {
    /// A sentence that names the fault.
    pub fn describe(&self) -> (text: String)
        ensures
            text@ == (match *self {
                ConfigError::NonPositiveHalfExtent => "half extent must be greater than zero"@,
                ConfigError::OutsidePlane => "square reaches beyond the plane"@,
            }),
    {
        match self {
            ConfigError::NonPositiveHalfExtent => "half extent must be greater than zero".to_owned(),
            ConfigError::OutsidePlane => "square reaches beyond the plane".to_owned(),
        }
    }
}

} // verus!
