//! The errors that the library's own logic can produce. Failures of the
//! surrounding process (file I/O, the network, a missing home directory) are
//! the binary's concern and are represented there.

use vstd::prelude::*;

verus! {

/// Why a profile operation was refused.
#[derive(Debug)]
pub enum NrsError {
    /// The named registry exists in neither the built-in nor the custom map.
    RegistryNotFound(String),
    /// A mutating operation was handed a URL that does not start with
    /// `http://` or `https://`.
    InvalidRegistryUrl(String),
    /// The persisted profile file could not be understood.
    CorruptProfile,
}

impl NrsError {
    /// A plain-text description, for the binary to print.
    pub fn message(&self) -> (m: String)
        ensures
            self matches NrsError::RegistryNotFound(name) ==> m@ == "Registry not found: "@
                + name@,
            self matches NrsError::InvalidRegistryUrl(url) ==> m@ == "Invalid registry URL: "@
                + url@,
            self matches NrsError::CorruptProfile ==> m@ == "The profile file is malformed"@,
    {
        match self {
            NrsError::RegistryNotFound(name) => {
                let mut m = String::from_str("Registry not found: ");
                m.append(name.as_str());
                m
            },
            NrsError::InvalidRegistryUrl(url) => {
                let mut m = String::from_str("Invalid registry URL: ");
                m.append(url.as_str());
                m
            },
            NrsError::CorruptProfile => String::from_str("The profile file is malformed"),
        }
    }
}

} // verus!
