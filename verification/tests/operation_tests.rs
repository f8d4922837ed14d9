use scanner::database::{Database, Entry, Stored};
use scanner::difference::Type;
use scanner::error::Error;
use scanner::filemetadata::FileMetadata;
use scanner::manifest::{Id, Manifest, Timestamp};
use scanner::operation::{Operation, Report};
use scanner::{get_database, run, scan_root};

fn record(path: &str, hash: &str) -> FileMetadata {
    FileMetadata::from_database(String::from(path), String::from(hash), None, None, None).unwrap()
}

fn store_with_two() -> Database {
    let mut database = Database::create(Vec::new()).unwrap();
    database.index("/first", &Timestamp(100), vec![record("a.txt", "1"), record("b.txt", "2")]).unwrap();
    database.index("/second", &Timestamp(200), vec![record("a.txt", "1"), record("c.txt", "3")]).unwrap();
    database
}

fn ids(database: &Database) -> Vec<i64> {
    database.select_manifests().unwrap().iter().map(|manifest| manifest.id().0).collect()
}

#[test]
fn only_index_and_scan_need_a_scan() {
    let database = store_with_two();
    assert_eq!(scan_root(&database, &Operation::Index(String::from("/tree"))), Ok(Some(String::from("/tree"))));
    assert_eq!(scan_root(&database, &Operation::Scan(Id(2))), Ok(Some(String::from("/second"))));
    assert_eq!(scan_root(&database, &Operation::Scan(Id(3))), Err(Error::NotFound(3)));
    assert_eq!(scan_root(&database, &Operation::List), Ok(None));
    assert_eq!(scan_root(&database, &Operation::Compare(Id(1), Id(9))), Ok(None));
    assert_eq!(scan_root(&database, &Operation::DeleteManifest(Id(9))), Ok(None));
}

#[test]
fn run_lists_the_manifests() {
    let mut database = store_with_two();
    match run(&mut database, Operation::List, Timestamp(0), Vec::new()).unwrap() {
        Report::Listed(list) => {
            assert_eq!(list.len(), 2);
            assert_eq!((list[0].id(), list[0].timestamp(), list[0].file_path()), (Id(1), Timestamp(100), "/first"));
            assert_eq!((list[1].id(), list[1].timestamp(), list[1].file_path()), (Id(2), Timestamp(200), "/second"));
        }
        other => panic!("not a list: {:?}", other),
    }
    let mut database = Database::create(Vec::new()).unwrap();
    assert!(matches!(
        run(&mut database, Operation::List, Timestamp(0), Vec::new()).unwrap(),
        Report::Listed(list) if list.is_empty()
    ));
}

#[test]
fn run_compares_two_manifests() {
    let mut database = store_with_two();
    match run(&mut database, Operation::Compare(Id(2), Id(1)), Timestamp(0), Vec::new()).unwrap() {
        Report::Compared(Some(found)) => {
            assert_eq!(found.len(), 2);
            assert!(matches!(&found[0], Type::Delete(file) if file.path() == "b.txt"));
            assert!(matches!(&found[1], Type::Add(file) if file.path() == "c.txt"));
        }
        other => panic!("not a comparison with differences: {:?}", other),
    }
    assert!(matches!(
        run(&mut database, Operation::Compare(Id(1), Id(1)), Timestamp(0), Vec::new()).unwrap(),
        Report::Compared(None)
    ));
    assert_eq!(ids(&database), vec![1, 2]);
}

#[test]
fn run_refuses_to_compare_what_is_not_there() {
    let mut database = store_with_two();
    assert_eq!(
        run(&mut database, Operation::Compare(Id(7), Id(1)), Timestamp(0), Vec::new()).unwrap_err(),
        Error::NotFound(7)
    );
    assert_eq!(
        run(&mut database, Operation::Compare(Id(1), Id(8)), Timestamp(0), Vec::new()).unwrap_err(),
        Error::NotFound(8)
    );
    assert_eq!(
        run(&mut database, Operation::Compare(Id(7), Id(8)), Timestamp(0), Vec::new()).unwrap_err(),
        Error::NotFound(7)
    );
}

#[test]
fn run_deletes_a_manifest() {
    let mut database = store_with_two();
    assert!(matches!(
        run(&mut database, Operation::DeleteManifest(Id(1)), Timestamp(0), Vec::new()).unwrap(),
        Report::Deleted(Id(1))
    ));
    assert_eq!(ids(&database), vec![2]);
    assert_eq!(database.select_manifest(&Id(1)).unwrap_err(), Error::NotFound(1));
    assert_eq!(
        run(&mut database, Operation::DeleteManifest(Id(1)), Timestamp(0), Vec::new()).unwrap_err(),
        Error::NotFound(1)
    );
    assert_eq!(ids(&database), vec![2]);
}

#[test]
fn run_indexes_a_tree() {
    let mut database = store_with_two();
    let scanned = vec![record("x", "1"), record("y", "2"), record("z", "3")];
    match run(&mut database, Operation::Index(String::from("/third")), Timestamp(300), scanned).unwrap() {
        Report::Indexed(id) => assert_eq!(id, Id(3)),
        other => panic!("not indexed: {:?}", other),
    }
    let manifest = database.select_manifest(&Id(3)).unwrap();
    assert_eq!(manifest.timestamp(), Timestamp(300));
    assert_eq!(manifest.file_path(), "/third");
    let files = database.select_files(&Id(3)).unwrap();
    let read: Vec<(&str, &str)> = files.iter().map(|file| (file.path(), file.hash())).collect();
    assert_eq!(read, vec![("x", "1"), ("y", "2"), ("z", "3")]);
    assert_eq!(database.select_files(&Id(1)).unwrap().len(), 2);
}

#[test]
fn run_refuses_a_scan_with_a_repeated_path() {
    let mut database = store_with_two();
    let scanned = vec![record("x", "1"), record("x", "2")];
    assert_eq!(
        run(&mut database, Operation::Index(String::from("/third")), Timestamp(300), scanned).unwrap_err(),
        Error::DuplicatePath(String::from("x"))
    );
    assert_eq!(ids(&database), vec![1, 2]);
    assert_eq!(database.last_id(), 2);
}

#[test]
fn run_scans_a_tree_anew() {
    let mut database = store_with_two();
    let scanned = vec![record("a.txt", "1"), record("b.txt", "changed")];
    match run(&mut database, Operation::Scan(Id(1)), Timestamp(300), scanned).unwrap() {
        Report::Scanned(id, Some(found)) => {
            assert_eq!(id, Id(3));
            assert_eq!(found.len(), 1);
            assert!(matches!(
                &found[0],
                Type::Hash(1, old, 3, new) if old.path() == "b.txt" && old.hash() == "2" && new.hash() == "changed"
            ));
        }
        other => panic!("not scanned with differences: {:?}", other),
    }
    assert_eq!(database.select_manifest(&Id(3)).unwrap().file_path(), "/first");
    let scanned = vec![record("b.txt", "changed"), record("a.txt", "1")];
    assert!(matches!(
        run(&mut database, Operation::Scan(Id(3)), Timestamp(400), scanned).unwrap(),
        Report::Scanned(Id(4), None)
    ));
    assert_eq!(ids(&database), vec![1, 2, 3, 4]);
}

#[test]
fn run_refuses_to_scan_what_is_not_there() {
    let mut database = store_with_two();
    assert_eq!(
        run(&mut database, Operation::Scan(Id(5)), Timestamp(300), vec![record("a", "1")]).unwrap_err(),
        Error::NotFound(5)
    );
    assert_eq!(ids(&database), vec![1, 2]);
}

#[test]
fn a_store_that_exists_is_opened() {
    let entry = Entry {
        manifest: Manifest::from_database(Id(4), Timestamp(40), String::from("/tree")),
        files: vec![record("a", "1")],
    };
    let stored = Stored { last_id: 6, entries: vec![entry] };
    let database = get_database("store.sqlite", Some(stored), "schema", None).unwrap();
    assert_eq!(ids(&database), vec![4]);
    assert_eq!(database.last_id(), 6);
    assert!(database.schema().is_empty());
}

#[test]
fn a_store_that_exists_is_opened_whatever_the_schemas() {
    let stored = Stored { last_id: 0, entries: Vec::new() };
    let database =
        get_database("store.sqlite", Some(stored), "schema", Some(vec![String::from("CREATE TABLE t (x)")]))
            .unwrap();
    assert!(database.schema().is_empty());
}

#[test]
fn what_is_no_store_is_not_worked_on() {
    let entry = Entry {
        manifest: Manifest::from_database(Id(4), Timestamp(40), String::from("/tree")),
        files: Vec::new(),
    };
    let stored = Stored { last_id: 3, entries: vec![entry] };
    assert_eq!(
        get_database("store.sqlite", Some(stored), "schema", None).unwrap_err(),
        Error::NoFile(String::from("store.sqlite"))
    );
}

#[test]
fn a_store_that_does_not_exist_is_made_from_the_schemas() {
    let schemas = vec![String::from("CREATE TABLE a (x)"), String::from("CREATE TABLE b (y)")];
    let database = get_database("store.sqlite", None, "schema", Some(schemas.clone())).unwrap();
    assert!(ids(&database).is_empty());
    assert_eq!(database.last_id(), 0);
    assert_eq!(database.schema(), &schemas);
}

#[test]
fn without_a_store_and_without_schemas_there_is_nothing_to_work_on() {
    assert_eq!(
        get_database("store.sqlite", None, "schema", None).unwrap_err(),
        Error::NoSchemaFile(String::from("schema"))
    );
}
