use scanner::database::{Database, Entry, Stored};
use scanner::difference::Type;
use scanner::error::Error;
use scanner::filemetadata::FileMetadata;
use scanner::manifest::{Id, Manifest, Timestamp};

fn record(path: &str, hash: &str) -> FileMetadata {
    FileMetadata::from_database(String::from(path), String::from(hash), None, None, None).unwrap()
}

fn empty() -> Database {
    Database::create(Vec::new()).unwrap()
}

fn entry(id: i64, paths: &[&str]) -> Entry {
    Entry {
        manifest: Manifest::from_database(Id(id), Timestamp(id * 100), format!("/root/{}", id)),
        files: paths.iter().map(|path| record(path, "h")).collect(),
    }
}

fn ids(database: &Database) -> Vec<i64> {
    database.select_manifests().unwrap().iter().map(|manifest| manifest.id().0).collect()
}

fn paths(database: &Database, id: i64) -> Vec<String> {
    database.select_files(&Id(id)).unwrap().iter().map(|file| String::from(file.path())).collect()
}

#[test]
fn a_new_store_is_empty_and_keeps_its_schema() {
    let database = Database::create(vec![String::from("CREATE TABLE a (x)"), String::from("CREATE TABLE b (y)")])
        .unwrap();
    assert!(database.select_manifests().unwrap().is_empty());
    assert_eq!(database.last_id(), 0);
    assert_eq!(database.schema(), &vec![String::from("CREATE TABLE a (x)"), String::from("CREATE TABLE b (y)")]);
    assert_eq!(database.select_manifest(&Id(1)).unwrap_err(), Error::NotFound(1));
}

#[test]
fn manifests_get_ascending_identities() {
    let mut database = empty();
    assert_eq!(database.create_manifest_table(&Timestamp(10), "/a").unwrap(), Id(1));
    assert_eq!(database.create_manifest_table(&Timestamp(20), "/b").unwrap(), Id(2));
    assert_eq!(database.create_manifest_table(&Timestamp(20), "/a").unwrap(), Id(3));
    assert_eq!(ids(&database), vec![1, 2, 3]);
    assert_eq!(database.last_id(), 3);
    let second = database.select_manifest(&Id(2)).unwrap();
    assert_eq!(second.id(), Id(2));
    assert_eq!(second.timestamp(), Timestamp(20));
    assert_eq!(second.file_path(), "/b");
    assert!(database.select_files(&Id(2)).unwrap().is_empty());
}

#[test]
fn an_identity_is_not_given_twice() {
    let mut database = empty();
    database.create_manifest_table(&Timestamp(1), "/a").unwrap();
    database.create_manifest_table(&Timestamp(2), "/a").unwrap();
    database.delete_manifest_drop_table(&Id(2)).unwrap();
    assert_eq!(database.create_manifest_table(&Timestamp(3), "/a").unwrap(), Id(3));
    assert_eq!(ids(&database), vec![1, 3]);
}

#[test]
fn inserted_records_are_read_back_in_their_order() {
    let mut database = empty();
    let id = database.create_manifest_table(&Timestamp(1), "/a").unwrap();
    database
        .insert_file_paths_and_hashes(&id, vec![record("b", "h2"), record("a", "h1"), record("c", "h3")])
        .unwrap();
    let files = database.select_files(&id).unwrap();
    assert_eq!(files.len(), 3);
    assert_eq!(files[0].path(), "b");
    assert_eq!(files[0].hash(), "h2");
    assert_eq!(files[1].path(), "a");
    assert_eq!(files[1].hash(), "h1");
    assert_eq!(files[2].path(), "c");
    assert_eq!(files[2].hash(), "h3");
}

#[test]
fn records_can_be_appended() {
    let mut database = empty();
    let id = database.create_manifest_table(&Timestamp(1), "/a").unwrap();
    database.insert_file_paths_and_hashes(&id, vec![record("a", "1")]).unwrap();
    database.insert_file_paths_and_hashes(&id, Vec::new()).unwrap();
    database.insert_file_paths_and_hashes(&id, vec![record("b", "2"), record("c", "3")]).unwrap();
    assert_eq!(paths(&database, 1), vec!["a", "b", "c"]);
}

#[test]
fn inserting_touches_no_other_manifest() {
    let mut database = empty();
    let first = database.create_manifest_table(&Timestamp(1), "/a").unwrap();
    database.insert_file_paths_and_hashes(&first, vec![record("a", "1")]).unwrap();
    let second = database.create_manifest_table(&Timestamp(2), "/a").unwrap();
    database.insert_file_paths_and_hashes(&second, vec![record("a", "2"), record("b", "3")]).unwrap();
    assert_eq!(paths(&database, 1), vec!["a"]);
    assert_eq!(database.select_files(&first).unwrap()[0].hash(), "1");
    assert_eq!(paths(&database, 2), vec!["a", "b"]);
}

#[test]
fn inserting_into_an_unknown_manifest_is_refused() {
    let mut database = empty();
    database.create_manifest_table(&Timestamp(1), "/a").unwrap();
    assert_eq!(database.insert_file_paths_and_hashes(&Id(2), vec![record("a", "1")]), Err(Error::NotFound(2)));
    assert_eq!(database.insert_file_paths_and_hashes(&Id(0), Vec::new()), Err(Error::NotFound(0)));
    assert!(database.select_files(&Id(1)).unwrap().is_empty());
}

#[test]
fn a_repeated_path_is_refused_and_nothing_is_inserted() {
    let mut database = empty();
    let id = database.create_manifest_table(&Timestamp(1), "/a").unwrap();
    database.insert_file_paths_and_hashes(&id, vec![record("a", "1"), record("b", "2")]).unwrap();
    assert_eq!(
        database.insert_file_paths_and_hashes(&id, vec![record("c", "3"), record("b", "4"), record("a", "5")]),
        Err(Error::DuplicatePath(String::from("b")))
    );
    assert_eq!(paths(&database, 1), vec!["a", "b"]);
    assert_eq!(
        database.insert_file_paths_and_hashes(&id, vec![record("c", "3"), record("d", "4"), record("c", "3")]),
        Err(Error::DuplicatePath(String::from("c")))
    );
    assert_eq!(paths(&database, 1), vec!["a", "b"]);
    assert_eq!(database.select_files(&id).unwrap()[1].hash(), "2");
}

#[test]
fn a_deleted_manifest_is_gone_with_its_records() {
    let mut database = empty();
    for root in ["/a", "/b", "/c"] {
        let id = database.create_manifest_table(&Timestamp(5), root).unwrap();
        database.insert_file_paths_and_hashes(&id, vec![record(root, "h")]).unwrap();
    }
    assert_eq!(database.delete_manifest_drop_table(&Id(2)), Ok(()));
    assert_eq!(database.select_manifest(&Id(2)).unwrap_err(), Error::NotFound(2));
    assert_eq!(database.select_files(&Id(2)).unwrap_err(), Error::NotFound(2));
    assert_eq!(ids(&database), vec![1, 3]);
    assert_eq!(paths(&database, 1), vec!["/a"]);
    assert_eq!(paths(&database, 3), vec!["/c"]);
    assert_eq!(database.select_manifest(&Id(3)).unwrap().file_path(), "/c");
}

#[test]
fn deleting_an_unknown_manifest_is_refused() {
    let mut database = empty();
    assert_eq!(database.delete_manifest_drop_table(&Id(1)), Err(Error::NotFound(1)));
    database.create_manifest_table(&Timestamp(1), "/a").unwrap();
    assert_eq!(database.delete_manifest_drop_table(&Id(-1)), Err(Error::NotFound(-1)));
    assert_eq!(database.delete_manifest_drop_table(&Id(1)), Ok(()));
    assert_eq!(database.delete_manifest_drop_table(&Id(1)), Err(Error::NotFound(1)));
    assert!(ids(&database).is_empty());
}

#[test]
fn differences_between_stored_manifests() {
    let mut database = empty();
    let first = database.index("/t", &Timestamp(1), vec![record("a", "1"), record("b", "2")]).unwrap();
    let second = database.index("/t", &Timestamp(2), vec![record("a", "1"), record("b", "2")]).unwrap();
    let third = database.index("/t", &Timestamp(3), vec![record("b", "20"), record("c", "3")]).unwrap();
    assert_eq!(database.select_manifest_differences(&second, &first).unwrap().map(|list| list.len()), None);
    let found = database.select_manifest_differences(&third, &first).unwrap().unwrap();
    assert_eq!(found.len(), 3);
    assert!(matches!(&found[0], Type::Hash(1, old, 3, new) if old.hash() == "2" && new.hash() == "20"));
    assert!(matches!(&found[1], Type::Delete(file) if file.path() == "a"));
    assert!(matches!(&found[2], Type::Add(file) if file.path() == "c"));
}

#[test]
fn differences_need_both_manifests() {
    let mut database = empty();
    database.index("/t", &Timestamp(1), Vec::new()).unwrap();
    assert_eq!(database.select_manifest_differences(&Id(1), &Id(2)).unwrap_err(), Error::NotFound(2));
    assert_eq!(database.select_manifest_differences(&Id(2), &Id(1)).unwrap_err(), Error::NotFound(2));
    assert_eq!(database.select_manifest_differences(&Id(5), &Id(6)).unwrap_err(), Error::NotFound(5));
    assert!(database.select_manifest_differences(&Id(1), &Id(1)).unwrap().is_none());
}

#[test]
fn index_stores_a_scan_as_a_whole() {
    let mut database = empty();
    let id = database.index("/tree", &Timestamp(77), vec![record("a", "1"), record("b", "2")]).unwrap();
    assert_eq!(id, Id(1));
    let manifest = database.select_manifest(&id).unwrap();
    assert_eq!(manifest.timestamp(), Timestamp(77));
    assert_eq!(manifest.file_path(), "/tree");
    assert_eq!(paths(&database, 1), vec!["a", "b"]);
}

#[test]
fn index_of_a_repeated_path_leaves_the_store_as_it_was() {
    let mut database = empty();
    database.index("/tree", &Timestamp(1), vec![record("a", "1")]).unwrap();
    assert_eq!(
        database.index("/tree", &Timestamp(2), vec![record("x", "1"), record("y", "2"), record("x", "3")]),
        Err(Error::DuplicatePath(String::from("x")))
    );
    assert_eq!(ids(&database), vec![1]);
    assert_eq!(database.last_id(), 1);
    assert_eq!(database.index("/tree", &Timestamp(3), Vec::new()).unwrap(), Id(2));
}

#[test]
fn scan_stores_and_compares() {
    let mut database = empty();
    let first = database.index("/tree", &Timestamp(1), vec![record("a", "1"), record("b", "2")]).unwrap();
    let (second, shown) = database.scan(&first, &Timestamp(2), vec![record("b", "2"), record("a", "1")]).unwrap();
    assert_eq!(second, Id(2));
    assert!(shown.is_none());
    let (third, shown) = database.scan(&second, &Timestamp(3), vec![record("a", "9")]).unwrap();
    assert_eq!(third, Id(3));
    let shown = shown.unwrap();
    assert_eq!(shown.len(), 2);
    assert!(matches!(&shown[0], Type::Hash(2, old, 3, new) if old.hash() == "1" && new.hash() == "9"));
    assert!(matches!(&shown[1], Type::Delete(file) if file.path() == "b"));
    assert_eq!(database.select_manifest(&third).unwrap().file_path(), "/tree");
    assert_eq!(paths(&database, 1), vec!["a", "b"]);
    assert_eq!(paths(&database, 2), vec!["b", "a"]);
}

#[test]
fn scan_of_an_unknown_manifest_is_refused() {
    let mut database = empty();
    assert_eq!(database.scan(&Id(1), &Timestamp(1), vec![record("a", "1")]).unwrap_err(), Error::NotFound(1));
    assert!(ids(&database).is_empty());
    assert_eq!(database.last_id(), 0);
}

#[test]
fn nothing_at_the_location_is_no_store() {
    assert_eq!(Database::open("data/store.sqlite", None).unwrap_err(), Error::NoFile(String::from("data/store.sqlite")));
}

#[test]
fn a_stored_store_is_opened_as_it_was() {
    let stored = Stored { last_id: 9, entries: vec![entry(2, &["a", "b"]), entry(5, &[]), entry(9, &["a"])] };
    let mut database = Database::open("store", Some(stored)).unwrap();
    assert_eq!(ids(&database), vec![2, 5, 9]);
    assert_eq!(paths(&database, 2), vec!["a", "b"]);
    assert_eq!(database.select_manifest(&Id(5)).unwrap().timestamp(), Timestamp(500));
    assert_eq!(database.last_id(), 9);
    assert!(database.schema().is_empty());
    assert_eq!(database.create_manifest_table(&Timestamp(1), "/x").unwrap(), Id(10));
}

#[test]
fn an_empty_store_is_opened() {
    let mut database = Database::open("store", Some(Stored { last_id: 41, entries: Vec::new() })).unwrap();
    assert!(ids(&database).is_empty());
    assert_eq!(database.create_manifest_table(&Timestamp(1), "/x").unwrap(), Id(42));
}

#[test]
fn what_is_no_store_is_not_opened() {
    let no_file = Error::NoFile(String::from("store"));
    let unordered = Stored { last_id: 9, entries: vec![entry(5, &[]), entry(2, &[])] };
    assert_eq!(Database::open("store", Some(unordered)).unwrap_err(), no_file);
    let twice = Stored { last_id: 9, entries: vec![entry(2, &[]), entry(2, &[])] };
    assert_eq!(Database::open("store", Some(twice)).unwrap_err(), no_file);
    let beyond = Stored { last_id: 4, entries: vec![entry(2, &[]), entry(5, &[])] };
    assert_eq!(Database::open("store", Some(beyond)).unwrap_err(), no_file);
    let repeated = Stored { last_id: 9, entries: vec![entry(2, &["a"]), entry(5, &["a", "b", "a"])] };
    assert_eq!(Database::open("store", Some(repeated)).unwrap_err(), no_file);
}

#[test]
fn a_store_that_gave_out_every_identity_refuses() {
    let stored = Stored { last_id: i64::MAX, entries: vec![entry(1, &["a"])] };
    let mut database = Database::open("store", Some(stored)).unwrap();
    assert_eq!(database.create_manifest_table(&Timestamp(1), "/x"), Err(Error::IdsExhausted));
    assert_eq!(database.index("/x", &Timestamp(1), vec![record("a", "1")]), Err(Error::IdsExhausted));
    assert_eq!(database.scan(&Id(1), &Timestamp(1), Vec::new()).unwrap_err(), Error::IdsExhausted);
    assert_eq!(ids(&database), vec![1]);
    let stored = Stored { last_id: i64::MAX - 1, entries: Vec::new() };
    let mut database = Database::open("store", Some(stored)).unwrap();
    assert_eq!(database.create_manifest_table(&Timestamp(1), "/x"), Ok(Id(i64::MAX)));
    assert_eq!(database.create_manifest_table(&Timestamp(1), "/x"), Err(Error::IdsExhausted));
}
