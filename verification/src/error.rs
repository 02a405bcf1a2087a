use vstd::prelude::*;

verus! {

/// Error raised when a duration / retention string does not follow the
/// grammar, or when one of its counts does not fit the machine word.
#[derive(Clone, Copy, Debug, PartialEq, Eq, Structural)]
pub struct DurationParseError;

impl DurationParseError {
    pub fn message(&self) -> (r: &'static str)
        ensures
            r@ == "Error while parsing Duration from String"@,
    {
        "Error while parsing Duration from String"
    }
}

/// Error raised when a configuration file name carries no usable extension.
#[derive(Clone, Copy, Debug, PartialEq, Eq, Structural)]
pub struct ConfigfileExtensionError;

impl ConfigfileExtensionError {
    pub fn message(&self) -> (r: &'static str)
        ensures
            r@ == "Error while parsing file extension from configuration file name"@,
    {
        "Error while parsing file extension from configuration file name"
    }
}

} // verus!
