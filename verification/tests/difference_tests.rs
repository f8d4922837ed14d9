use scanner::difference::{compare, has_unique_paths, position, position_before, Type};
use scanner::filemetadata::FileMetadata;
use scanner::fingerprint::calculate_hash;
use scanner::manifest::Id;

fn hash_of(content: &str) -> String {
    calculate_hash(&vec![content.as_bytes().to_vec()])
}

fn record(path: &str, content: &str) -> FileMetadata {
    FileMetadata::from_database(String::from(path), hash_of(content), None, None, None).unwrap()
}

fn record_at(path: &str, content: &str, seconds: i64) -> FileMetadata {
    let stamp = time::OffsetDateTime::from_unix_timestamp(seconds).unwrap();
    FileMetadata::from_database(String::from(path), hash_of(content), Some(stamp), Some(stamp), Some(stamp))
        .unwrap()
}

/// A difference as plain text, so that lists can be compared as sets.
fn told(difference: &Type) -> String {
    match difference {
        Type::Add(file) => format!("+ {} {}", file.path(), file.hash()),
        Type::Delete(file) => format!("- {} {}", file.path(), file.hash()),
        Type::Hash(old_id, old, new_id, new) => {
            format!("~ {}:{} {} -> {}:{} {}", old_id, old.path(), old.hash(), new_id, new.path(), new.hash())
        }
    }
}

fn told_sorted(found: Option<Vec<Type>>) -> Vec<String> {
    let mut list: Vec<String> = found.unwrap_or_default().iter().map(told).collect();
    list.sort();
    list
}

#[test]
fn an_unchanged_tree_shows_no_difference() {
    let older = vec![record("a.txt", "hello"), record("b.txt", "world")];
    let newer = vec![record("a.txt", "hello"), record("b.txt", "world")];
    assert!(compare(Id(2), &newer, Id(1), &older).is_none());
}

#[test]
fn order_and_times_do_not_count() {
    let older = vec![record_at("a.txt", "hello", 10), record_at("b.txt", "world", 20)];
    let newer = vec![record_at("b.txt", "world", 3000), record_at("a.txt", "hello", 4000)];
    assert!(compare(Id(2), &newer, Id(1), &older).is_none());
    assert!(compare(Id(1), &older, Id(2), &newer).is_none());
}

#[test]
fn two_empty_manifests_show_no_difference() {
    assert!(compare(Id(2), &Vec::new(), Id(1), &Vec::new()).is_none());
}

#[test]
fn a_manifest_compared_with_itself_shows_no_difference() {
    let records = vec![record("a", "1"), record("b", "2"), record("c", "3")];
    assert!(compare(Id(1), &records, Id(1), &records).is_none());
}

#[test]
fn a_modified_file_shows_as_one_change() {
    let older = vec![record("a.txt", "hello")];
    let newer = vec![record("a.txt", "hello!")];
    let found = compare(Id(2), &newer, Id(1), &older).unwrap();
    assert_eq!(found.len(), 1);
    match &found[0] {
        Type::Hash(old_id, old, new_id, new) => {
            assert_eq!(*old_id, 1);
            assert_eq!(*new_id, 2);
            assert_eq!(old.path(), "a.txt");
            assert_eq!(new.path(), "a.txt");
            assert_eq!(old.hash(), hash_of("hello"));
            assert_eq!(new.hash(), hash_of("hello!"));
            assert_eq!(old.hash(), blake3::hash(b"hello").to_hex().as_str());
            assert_eq!(new.hash(), blake3::hash(b"hello!").to_hex().as_str());
        }
        other => panic!("not a change: {:?}", other),
    }
}

#[test]
fn a_modified_file_among_others_shows_alone() {
    let older = vec![record("a.txt", "hello"), record("b.txt", "world"), record("c.txt", "same")];
    let newer = vec![record("c.txt", "same"), record("b.txt", "WORLD"), record("a.txt", "hello")];
    let found = told_sorted(compare(Id(9), &newer, Id(4), &older));
    assert_eq!(
        found,
        vec![format!("~ 4:b.txt {} -> 9:b.txt {}", hash_of("world"), hash_of("WORLD"))]
    );
}

#[test]
fn a_change_carries_the_records_of_both_sides() {
    let older = vec![record_at("a.txt", "hello", 100)];
    let newer = vec![record_at("a.txt", "hello!", 200)];
    let found = compare(Id(2), &newer, Id(1), &older).unwrap();
    match &found[0] {
        Type::Hash(_, old, _, new) => {
            assert_eq!(old.modified(), Some(time::OffsetDateTime::from_unix_timestamp(100).unwrap()));
            assert_eq!(new.modified(), Some(time::OffsetDateTime::from_unix_timestamp(200).unwrap()));
        }
        other => panic!("not a change: {:?}", other),
    }
}

#[test]
fn an_added_file_shows_as_one_addition() {
    let older = vec![record("a.txt", "hello"), record("b.txt", "world")];
    let newer = vec![record("a.txt", "hello"), record("b.txt", "world"), record("c.txt", "new")];
    let found = compare(Id(2), &newer, Id(1), &older).unwrap();
    assert_eq!(found.len(), 1);
    match &found[0] {
        Type::Add(file) => {
            assert_eq!(file.path(), "c.txt");
            assert_eq!(file.hash(), hash_of("new"));
        }
        other => panic!("not an addition: {:?}", other),
    }
}

#[test]
fn a_removed_file_shows_as_one_removal() {
    let older = vec![record("a.txt", "hello"), record("b.txt", "world")];
    let newer = vec![record("a.txt", "hello")];
    let found = compare(Id(2), &newer, Id(1), &older).unwrap();
    assert_eq!(found.len(), 1);
    match &found[0] {
        Type::Delete(file) => {
            assert_eq!(file.path(), "b.txt");
            assert_eq!(file.hash(), hash_of("world"));
        }
        other => panic!("not a removal: {:?}", other),
    }
}

#[test]
fn a_renamed_file_shows_as_a_removal_and_an_addition() {
    let older = vec![record("old-name.txt", "content")];
    let newer = vec![record("new-name.txt", "content")];
    let found = told_sorted(compare(Id(2), &newer, Id(1), &older));
    assert_eq!(
        found,
        vec![
            format!("+ new-name.txt {}", hash_of("content")),
            format!("- old-name.txt {}", hash_of("content")),
        ]
    );
}

#[test]
fn all_three_kinds_together() {
    let older = vec![record("kept", "k"), record("changed", "before"), record("gone", "g")];
    let newer = vec![record("come", "c"), record("changed", "after"), record("kept", "k")];
    let found = compare(Id(8), &newer, Id(5), &older).unwrap();
    let order: Vec<String> = found.iter().map(told).collect();
    assert_eq!(
        order,
        vec![
            format!("~ 5:changed {} -> 8:changed {}", hash_of("before"), hash_of("after")),
            format!("- gone {}", hash_of("g")),
            format!("+ come {}", hash_of("c")),
        ]
    );
}

#[test]
fn every_path_shows_at_most_once() {
    let older = vec![record("a", "1"), record("b", "2"), record("c", "3"), record("d", "4")];
    let newer = vec![record("b", "2"), record("c", "30"), record("e", "5"), record("f", "6")];
    let found = compare(Id(2), &newer, Id(1), &older).unwrap();
    let mut paths: Vec<String> = found
        .iter()
        .map(|difference| match difference {
            Type::Add(file) | Type::Delete(file) => String::from(file.path()),
            Type::Hash(_, old, _, _) => String::from(old.path()),
        })
        .collect();
    paths.sort();
    assert_eq!(paths, vec!["a", "c", "d", "e", "f"]);
}

#[test]
fn comparing_the_other_way_round_swaps_additions_and_removals() {
    let older = vec![record("a", "1"), record("gone", "2")];
    let newer = vec![record("a", "1"), record("come", "3")];
    assert_eq!(
        told_sorted(compare(Id(2), &newer, Id(1), &older)),
        vec![format!("+ come {}", hash_of("3")), format!("- gone {}", hash_of("2"))]
    );
    assert_eq!(
        told_sorted(compare(Id(1), &older, Id(2), &newer)),
        vec![format!("+ gone {}", hash_of("2")), format!("- come {}", hash_of("3"))]
    );
}

#[test]
fn everything_is_added_to_an_empty_manifest() {
    let newer = vec![record("a", "1"), record("b", "2")];
    assert_eq!(
        told_sorted(compare(Id(2), &newer, Id(1), &Vec::new())),
        vec![format!("+ a {}", hash_of("1")), format!("+ b {}", hash_of("2"))]
    );
    assert_eq!(
        told_sorted(compare(Id(2), &Vec::new(), Id(1), &newer)),
        vec![format!("- a {}", hash_of("1")), format!("- b {}", hash_of("2"))]
    );
}

#[test]
fn paths_differ_by_case_and_by_every_character() {
    let older = vec![record("A.txt", "x"), record("dir/a", "y")];
    let newer = vec![record("a.txt", "x"), record("dir/a ", "y")];
    assert_eq!(compare(Id(2), &newer, Id(1), &older).unwrap().len(), 4);
}

#[test]
fn position_finds_the_first_record_of_a_path() {
    let records = vec![record("a", "1"), record("b", "2"), record("a", "3")];
    assert_eq!(position(&records, &record("a", "other")), Some(0));
    assert_eq!(position(&records, &record("b", "other")), Some(1));
    assert_eq!(position(&records, &record("c", "1")), None);
    assert_eq!(position(&Vec::new(), &record("a", "1")), None);
    assert_eq!(position_before(&records, 0, &record("a", "1")), None);
    assert_eq!(position_before(&records, 1, &record("b", "2")), None);
    assert_eq!(position_before(&records, 2, &record("b", "2")), Some(1));
    assert_eq!(position_before(&records, 3, &record("a", "3")), Some(0));
}

#[test]
fn unique_paths_are_told_from_repeated_ones() {
    assert!(has_unique_paths(&Vec::new()));
    assert!(has_unique_paths(&vec![record("a", "1")]));
    assert!(has_unique_paths(&vec![record("a", "1"), record("b", "1"), record("c", "1")]));
    assert!(!has_unique_paths(&vec![record("a", "1"), record("a", "2")]));
    assert!(!has_unique_paths(&vec![record("a", "1"), record("b", "2"), record("c", "3"), record("b", "2")]));
}
