//! What the monitor can be asked to do, and what it then reports.

use crate::difference::Type;
use crate::manifest::{Id, Manifest};
use vstd::prelude::*;

verus! {

/// A request to the monitor.
#[derive(Debug)]
pub enum Operation {
    /// Compare the first manifest, as the newer, with the second.
    Compare(Id, Id),
    /// Delete a manifest.
    DeleteManifest(Id),
    /// Scan the tree at a path into a new manifest.
    Index(String),
    /// List all manifests.
    List,
    /// Scan the tree of a manifest anew and compare the new manifest with it.
    Scan(Id),
}

/// The outcome of a request that was carried out.
#[derive(Debug)]
pub enum Report {
    /// What differs between the two manifests of a comparison, if anything.
    Compared(Option<Vec<Type>>),
    /// The identity of the manifest that is deleted.
    Deleted(Id),
    /// The identity of the new manifest.
    Indexed(Id),
    /// The manifests, in ascending order of identity.
    Listed(Vec<Manifest>),
    /// The identity of the new manifest, and what differs in it from the older
    /// one, if anything.
    Scanned(Id, Option<Vec<Type>>),
}

} // verus!
