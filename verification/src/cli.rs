//! The command-line surface: one of two location options must be given.
//! Parsing the process arguments happens outside the library; this type is
//! what the library sees of them.

use vstd::prelude::*;

verus! {

/// The two mutually exclusive, jointly required location options.
pub struct Opts {
    /// A free-text location description, to be geocoded.
    pub description: Option<String>,
    /// A raw coordinate pair, `<lat>,<lon>`.
    pub coordinates: Option<String>,
}

impl Opts {
    /// Exactly one of the two options is given.
    pub open spec fn wf(self) -> bool {
        self.description is Some <==> self.coordinates is None
    }

    /// Checks that exactly one location option is given.
    pub fn is_valid(&self) -> (r: bool)
        ensures
            r == self.wf(),
    {
        match (&self.description, &self.coordinates) {
            (Some(_), None) => true,
            (None, Some(_)) => true,
            _ => false,
        }
    }
}

} // verus!
