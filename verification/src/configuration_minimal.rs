//! The minimal configuration envelope: only the schema version, read first
//! to decide which full schema to parse a stored file under.

use vstd::prelude::*;

use crate::configuration_v3::CONFIG_VERSION;

verus! {

/// A stored configuration reduced to its schema version; files that predate
/// version stamping are treated as version 1.
#[derive(Clone, Copy, PartialEq, Eq, Structural, Debug)]
pub struct ConfigurationMinimal {
    pub version: i32,
}

impl ConfigurationMinimal {
    /// Is a stored version older than the current schema version?
    pub fn is_version_outdated(version: i32) -> (r: bool)
        ensures
            r == (version < CONFIG_VERSION),
    {
        version < CONFIG_VERSION
    }

    /// Is this envelope older than the current schema version?
    pub fn is_outdated(&self) -> (r: bool)
        ensures
            r == (self.version < CONFIG_VERSION),
    {
        ConfigurationMinimal::is_version_outdated(self.version)
    }
}

impl Default for ConfigurationMinimal {
    /// An envelope stamped with the current schema version.
    fn default() -> (r: ConfigurationMinimal)
        ensures
            r.version == CONFIG_VERSION,
    {
        ConfigurationMinimal { version: CONFIG_VERSION }
    }
}

} // verus!
