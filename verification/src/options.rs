//! The settings of a run.

use crate::binary32::Binary32;
use vstd::prelude::*;
use vstd::string::*;

verus! {

/// A setting that the run cannot start with.
#[derive(Clone, Copy, Debug, PartialEq, Eq, Structural)]
pub enum ConfigError {
    /// The lighten scalar is not a number from 0 to 1.
    LightenOutOfRange,
}

/// The message for a refused lighten scalar.
pub open spec fn lighten_message() -> Seq<char> {
    "Lighten value must be between 0.0 and 1.0."@
}

impl ConfigError {
    /// The diagnostic for this error.
    pub fn message(&self) -> (text: String)
        ensures
            text@ == lighten_message(),
    {
        String::from_str("Lighten value must be between 0.0 and 1.0.")
    }
}

/// The lighten scalar of a run that names none: zero.
pub fn default_lighten() -> (lighten: Binary32)
    ensures
        lighten.bits == 0,
        lighten.in_unit_interval(),
{
    Binary32::from_bits(0)
}

/// Accepts a lighten scalar from 0 to 1 and refuses every other, among them
/// what is not a number.
pub fn validate_lighten(lighten: Binary32) -> (res: Result<Binary32, ConfigError>)
    ensures
        lighten.in_unit_interval() ==> res == Ok::<Binary32, ConfigError>(lighten),
        !lighten.in_unit_interval() ==> res == Err::<Binary32, ConfigError>(
            ConfigError::LightenOutOfRange,
        ),
{
    if lighten.is_in_unit_interval() {
        Ok(lighten)
    } else {
        Err(ConfigError::LightenOutOfRange)
    }
}

} // verus!
