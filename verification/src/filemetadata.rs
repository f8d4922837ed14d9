//! One file of a scanned tree: its path, its fingerprint and, where the platform
//! gives them, its three times.

use crate::error::Error;
use crate::fingerprint::{fingerprint_of, Fingerprint};
use vstd::prelude::*;

verus! {

/// `time::OffsetDateTime`, a point in time. A record carries such values as it
/// was given them and never looks into one.
#[verifier::external_type_specification]
#[verifier::external_body]
pub struct ExOffsetDateTime(time::OffsetDateTime);

/// The texts that a vector of strings stands for.
pub open spec fn texts(strings: Seq<String>) -> Seq<Seq<char>> {
    strings.map_values(|string: String| string@)
}

/// The record of one file within a manifest.
#[derive(Debug)]
pub struct FileMetadata {
    path: String,
    hash: String,
    created: Option<time::OffsetDateTime>,
    modified: Option<time::OffsetDateTime>,
    accessed: Option<time::OffsetDateTime>,
}

/// What a [`FileMetadata`] stands for in contracts.
pub struct FileRecord {
    pub path: Seq<char>,
    pub hash: Seq<char>,
    pub created: Option<time::OffsetDateTime>,
    pub modified: Option<time::OffsetDateTime>,
    pub accessed: Option<time::OffsetDateTime>,
}

impl View for FileMetadata {
    type V = FileRecord;

    closed spec fn view(&self) -> FileRecord {
        FileRecord {
            path: self.path@,
            hash: self.hash@,
            created: self.created,
            modified: self.modified,
            accessed: self.accessed,
        }
    }
}

impl FileMetadata {
    /// The record of the file at `path` whose bytes `content` has taken in.
    pub fn from_pathbuf(
        path: String,
        content: &Fingerprint,
        created: Option<time::OffsetDateTime>,
        modified: Option<time::OffsetDateTime>,
        accessed: Option<time::OffsetDateTime>,
    ) -> (file: Self)
        requires
            content.wf(),
        ensures
            file@ == (FileRecord {
                path: path@,
                hash: fingerprint_of(content@),
                created,
                modified,
                accessed,
            }),
    {
        FileMetadata { path, hash: content.finish(), created, modified, accessed }
    }

    /// The record that a store holds as these five values. It never fails.
    pub fn from_database(
        path: String,
        hash: String,
        created: Option<time::OffsetDateTime>,
        modified: Option<time::OffsetDateTime>,
        accessed: Option<time::OffsetDateTime>,
    ) -> (file: Result<Self, Error>)
        ensures
            file matches Ok(f) && f@ == (FileRecord {
                path: path@,
                hash: hash@,
                created,
                modified,
                accessed,
            }),
    {
        Ok(FileMetadata { path, hash, created, modified, accessed })
    }

    /// The path of the file.
    pub fn path(&self) -> (path: &str)
        ensures
            path@ == self@.path,
    {
        self.path.as_str()
    }

    /// The fingerprint of the file's content.
    pub fn hash(&self) -> (hash: &str)
        ensures
            hash@ == self@.hash,
    {
        self.hash.as_str()
    }

    /// When the file was created, if the platform says.
    pub fn created(&self) -> (time: Option<time::OffsetDateTime>)
        ensures
            time == self@.created,
    {
        self.created
    }

    /// When the file was last modified, if the platform says.
    pub fn modified(&self) -> (time: Option<time::OffsetDateTime>)
        ensures
            time == self@.modified,
    {
        self.modified
    }

    /// When the file was last read, if the platform says.
    pub fn accessed(&self) -> (time: Option<time::OffsetDateTime>)
        ensures
            time == self@.accessed,
    {
        self.accessed
    }

    /// A copy of the record.
    pub fn duplicate(&self) -> (copy: Self)
        ensures
            copy@ == self@,
    {
        FileMetadata {
            path: self.path.clone(),
            hash: self.hash.clone(),
            created: self.created,
            modified: self.modified,
            accessed: self.accessed,
        }
    }

    /// Whether two records are of the same path.
    pub fn same_path(&self, other: &FileMetadata) -> (same: bool)
        ensures
            same == (self@.path == other@.path),
    {
        self.path == other.path
    }

    /// Whether two records hold the same fingerprint.
    pub fn same_hash(&self, other: &FileMetadata) -> (same: bool)
        ensures
            same == (self@.hash == other@.hash),
    {
        self.hash == other.hash
    }
}

} // verus!
