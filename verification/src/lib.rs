//! A file-integrity monitor. A scan of a directory tree yields a manifest: the
//! fingerprint of every regular file below the root, stored under an identity of
//! its own. Two manifests can be compared, which shows the files that were added,
//! removed or changed between the two scans.
//!
//! The library holds the rules: what a scan does with what it finds, what the
//! store keeps and hands out, and what differs between two manifests. Touching
//! the file system, persisting the store and running the stages of a scan side by
//! side are left to the program around it.

pub mod database;
pub mod difference;
pub mod error;
pub mod filemetadata;
pub mod fingerprint;
pub mod manifest;
pub mod operation;
pub mod scanner;
pub mod schema;
pub mod tree;

use crate::database::{first_repeat, is_store, slots_of, Database, Store, Stored};
use crate::difference::{differences, file_records, shows, unique_paths};
use crate::error::Error;
use crate::filemetadata::{texts, FileMetadata};
use crate::manifest::{Id, Timestamp};
use crate::operation::{Operation, Report};
use crate::scanner::Scanner;
use vstd::prelude::*;

verus! {

/// The store to work on. `stored` is what was read at `location`, `None` where
/// nothing exists there; `schemas` are the fragments of the schema directory in
/// their order of application, `None` where it holds none.
///
/// A store that exists is opened, and `schemas` is not looked at. Where none
/// exists a new one is made with the schema fragments, and without any there is
/// no store to work on.
pub fn get_database(
    location: &str,
    stored: Option<Stored>,
    schema_directory: &str,
    schemas: Option<Vec<String>>,
) -> (database: Result<Database, Error>)
    ensures
        match (stored, schemas) {
            (Some(content), _) => if is_store(content.last_id as int, slots_of(content.entries@)) {
                database matches Ok(opened) && opened.wf() && opened@ == (Store {
                    slots: slots_of(content.entries@),
                    last_id: content.last_id as int,
                    schema: Seq::empty(),
                })
            } else {
                database matches Err(Error::NoFile(place)) && place@ == location@
            },
            (None, Some(tables)) => database matches Ok(made) && made.wf() && made@ == (Store {
                slots: Seq::empty(),
                last_id: 0,
                schema: texts(tables@),
            }),
            (None, None) => database matches Err(Error::NoSchemaFile(place)) && place@
                == schema_directory@,
        },
{
    match stored {
        Some(content) => Database::open(location, Some(content)),
        None => match schemas {
            Some(tables) => Database::create(tables),
            None => Err(Error::NoSchemaFile(schema_directory.to_owned())),
        },
    }
}

/// The root of the tree that has to be scanned before `operation` can run, or
/// `None` where it needs no scan.
pub fn scan_root(database: &Database, operation: &Operation) -> (root: Result<
    Option<String>,
    Error,
>)
    requires
        database.wf(),
    ensures
        match *operation {
            Operation::Index(path) => root matches Ok(Some(found)) && found@ == path@,
            Operation::Scan(id) => if database@.contains(id.0 as int) {
                root matches Ok(Some(found)) && found@ == database@.manifest(id.0 as int).file_path
            } else {
                root == Err::<Option<String>, Error>(Error::NotFound(id.0))
            },
            _ => root matches Ok(None),
        },
{
    match operation {
        Operation::Index(path) => Ok(Some(path.clone())),
        Operation::Scan(id) => match database.select_manifest(id) {
            Ok(manifest) => Ok(Some(manifest.file_path().to_owned())),
            Err(error) => Err(error),
        },
        _ => Ok(None),
    }
}

/// Carries out `operation` on `database`. `now` is the time of the call, and
/// `scanned` holds the records of the tree that [`scan_root`] names for the
/// operation; neither is looked at where the operation needs no scan.
///
/// An operation that fails leaves the store as it was.
pub fn run(
    database: &mut Database,
    operation: Operation,
    now: Timestamp,
    scanned: Vec<FileMetadata>,
) -> (outcome: Result<Report, Error>)
    requires
        old(database).wf(),
    ensures
        final(database).wf(),
        outcome is Err ==> final(database)@ == old(database)@,
        match operation {
            Operation::Compare(first, second) => {
                &&& final(database)@ == old(database)@
                &&& match outcome {
                    Ok(Report::Compared(shown)) => {
                        &&& old(database)@.contains(first.0 as int)
                        &&& old(database)@.contains(second.0 as int)
                        &&& shows(shown, old(database)@.compare(first.0 as int, second.0 as int))
                    },
                    Err(error) => if old(database)@.contains(first.0 as int) {
                        !old(database)@.contains(second.0 as int) && error == Error::NotFound(
                            second.0,
                        )
                    } else {
                        error == Error::NotFound(first.0)
                    },
                    _ => false,
                }
            },
            Operation::DeleteManifest(id) => match outcome {
                Ok(Report::Deleted(deleted)) => deleted == id && old(database)@.contains(
                    id.0 as int,
                ) && final(database)@ == old(database)@.delete(id.0 as int),
                Err(error) => !old(database)@.contains(id.0 as int) && error == Error::NotFound(
                    id.0,
                ),
                _ => false,
            },
            Operation::Index(path) => match outcome {
                Ok(Report::Indexed(id)) => {
                    &&& old(database)@.last_id < i64::MAX
                    &&& unique_paths(file_records(scanned@))
                    &&& id.0 == old(database)@.last_id + 1
                    &&& final(database)@ == old(database)@.create(now.0 as int, path@).insert(
                        id.0 as int,
                        file_records(scanned@),
                    )
                },
                Err(Error::IdsExhausted) => old(database)@.last_id == i64::MAX,
                Err(Error::DuplicatePath(repeated)) => {
                    &&& old(database)@.last_id < i64::MAX
                    &&& !unique_paths(file_records(scanned@))
                    &&& exists|at: int|
                        first_repeat(Seq::empty(), file_records(scanned@), at) && repeated@
                            == #[trigger] file_records(scanned@)[at].path
                },
                _ => false,
            },
            Operation::List => {
                &&& final(database)@ == old(database)@
                &&& outcome matches Ok(Report::Listed(list)) && crate::database::manifest_views(
                    list@,
                ) == old(database)@.manifests()
            },
            Operation::Scan(older) => match outcome {
                Ok(Report::Scanned(id, shown)) => {
                    &&& old(database)@.contains(older.0 as int)
                    &&& old(database)@.last_id < i64::MAX
                    &&& unique_paths(file_records(scanned@))
                    &&& id.0 == old(database)@.last_id + 1
                    &&& final(database)@ == old(database)@.create(
                        now.0 as int,
                        old(database)@.manifest(older.0 as int).file_path,
                    ).insert(id.0 as int, file_records(scanned@))
                    &&& shows(
                        shown,
                        differences(
                            id.0 as int,
                            file_records(scanned@),
                            older.0 as int,
                            old(database)@.files(older.0 as int),
                        ),
                    )
                },
                Err(Error::NotFound(id)) => !old(database)@.contains(older.0 as int) && id
                    == older.0,
                Err(Error::IdsExhausted) => old(database)@.contains(older.0 as int) && old(
                    database,
                )@.last_id == i64::MAX,
                Err(Error::DuplicatePath(repeated)) => {
                    &&& old(database)@.contains(older.0 as int)
                    &&& old(database)@.last_id < i64::MAX
                    &&& !unique_paths(file_records(scanned@))
                    &&& exists|at: int|
                        first_repeat(Seq::empty(), file_records(scanned@), at) && repeated@
                            == #[trigger] file_records(scanned@)[at].path
                },
                _ => false,
            },
        },
{
    match operation {
        Operation::Compare(first, second) => {
            match database.select_manifest_differences(&first, &second) {
                Ok(shown) => Ok(Report::Compared(shown)),
                Err(error) => Err(error),
            }
        },
        Operation::DeleteManifest(id) => {
            match database.delete_manifest_drop_table(&id) {
                Ok(()) => Ok(Report::Deleted(id)),
                Err(error) => Err(error),
            }
        },
        Operation::Index(path) => {
            let scanner = match Scanner::new(path) {
                Ok(scanner) => scanner,
                Err(error) => {
                    return Err(error);
                },
            };
            match database.index(scanner.root(), &now, scanned) {
                Ok(id) => Ok(Report::Indexed(id)),
                Err(error) => Err(error),
            }
        },
        Operation::List => {
            match database.select_manifests() {
                Ok(list) => Ok(Report::Listed(list)),
                Err(error) => Err(error),
            }
        },
        Operation::Scan(older) => {
            match database.scan(&older, &now, scanned) {
                Ok((id, shown)) => Ok(Report::Scanned(id, shown)),
                Err(error) => Err(error),
            }
        },
    }
}

} // verus!
