//! The owned result of an address-to-name lookup.
use vstd::prelude::*;

verus! {

/// An owned copy of what an address-to-name lookup found.
#[derive(Clone, Eq, PartialEq, Debug, Hash, PartialOrd, Ord)]
pub struct NameInfoResult {
    /// The node returned by the lookup.
    pub node: Option<String>,
    /// The service returned by the lookup.
    pub service: Option<String>,
}

} // verus!
