//! Manifest metadata: the identity, creation time and root of one scan.

use vstd::prelude::*;

verus! {

/// The identity of a manifest within a store.
#[derive(Debug, Clone, Copy, PartialEq, Eq, Structural)]
pub struct Id(pub i64);

/// The creation time of a manifest, in seconds since the Unix epoch.
#[derive(Debug, Clone, Copy, PartialEq, Eq, Structural)]
pub struct Timestamp(pub i64);

/// The metadata of one stored scan.
#[derive(Debug)]
pub struct Manifest {
    id: i64,
    timestamp: i64,
    file_path: String,
}

/// What a [`Manifest`] stands for in contracts.
pub struct ManifestView {
    pub id: int,
    pub timestamp: int,
    pub file_path: Seq<char>,
}

impl View for Manifest {
    type V = ManifestView;

    closed spec fn view(&self) -> ManifestView {
        ManifestView {
            id: self.id as int,
            timestamp: self.timestamp as int,
            file_path: self.file_path@,
        }
    }
}

impl Manifest {
    /// Builds the metadata of a manifest from the three values that a store keeps for it.
    pub fn from_database(id: Id, timestamp: Timestamp, file_path: String) -> (manifest: Self)
        ensures
            manifest@ == (ManifestView {
                id: id.0 as int,
                timestamp: timestamp.0 as int,
                file_path: file_path@,
            }),
    {
        Manifest { id: id.0, timestamp: timestamp.0, file_path }
    }

    /// The identity of the manifest.
    pub fn id(&self) -> (id: Id)
        ensures
            id.0 == self@.id,
    {
        Id(self.id)
    }

    /// When the manifest was created.
    pub fn timestamp(&self) -> (timestamp: Timestamp)
        ensures
            timestamp.0 == self@.timestamp,
    {
        Timestamp(self.timestamp)
    }

    /// The root of the tree that was scanned.
    pub fn file_path(&self) -> (path: &str)
        ensures
            path@ == self@.file_path,
    {
        self.file_path.as_str()
    }

    /// A copy of the manifest.
    pub fn duplicate(&self) -> (copy: Self)
        ensures
            copy@ == self@,
    {
        Manifest { id: self.id, timestamp: self.timestamp, file_path: self.file_path.clone() }
    }
}

} // verus!
