//! The differences between two manifests. Each manifest is read as a set of records
//! keyed by path: a path of both whose fingerprints differ is a change, a path of
//! the older alone a removal, a path of the newer alone an addition. Times play no
//! part, and a renamed file shows as a removal and an addition.

use crate::filemetadata::{FileMetadata, FileRecord};
use crate::manifest::Id;
use vstd::prelude::*;

verus! {

/// One difference between an older and a newer manifest.
#[derive(Debug)]
pub enum Type {
    /// A file of the newer manifest alone.
    Add(FileMetadata),
    /// A file of the older manifest alone.
    Delete(FileMetadata),
    /// A file of both whose fingerprint is not the same: the older manifest's
    /// identity and record, then the newer manifest's.
    Hash(i64, FileMetadata, i64, FileMetadata),
}

/// What a [`Type`] stands for in contracts.
pub enum Difference {
    Added(FileRecord),
    Removed(FileRecord),
    Changed(int, FileRecord, int, FileRecord),
}

impl View for Type {
    type V = Difference;

    open spec fn view(&self) -> Difference {
        match *self {
            Type::Add(file) => Difference::Added(file@),
            Type::Delete(file) => Difference::Removed(file@),
            Type::Hash(old_id, older, new_id, newer) => Difference::Changed(
                old_id as int,
                older@,
                new_id as int,
                newer@,
            ),
        }
    }
}

/// The records that a vector of files stands for.
pub open spec fn file_records(files: Seq<FileMetadata>) -> Seq<FileRecord> {
    files.map_values(|file: FileMetadata| file@)
}

/// The differences that a vector of them stands for.
pub open spec fn difference_views(differences: Seq<Type>) -> Seq<Difference> {
    differences.map_values(|difference: Type| difference@)
}

/// No two records are of the same path: what holds of the records of one manifest.
pub open spec fn unique_paths(records: Seq<FileRecord>) -> bool {
    forall|i: int, j: int|
        0 <= i < j < records.len() ==> (#[trigger] records[i]).path != (#[trigger] records[j]).path
}

/// The first record of `path`, if there is one.
pub open spec fn lookup(records: Seq<FileRecord>, path: Seq<char>) -> Option<FileRecord>
    decreases records.len(),
{
    if records.len() == 0 {
        None
    } else if records.first().path == path {
        Some(records.first())
    } else {
        lookup(records.drop_first(), path)
    }
}

/// Whether some record is of `path`.
pub open spec fn has_path(records: Seq<FileRecord>, path: Seq<char>) -> bool {
    lookup(records, path) is Some
}

/// Holds of the records whose path no record of `others` has.
pub open spec fn absent_from(others: Seq<FileRecord>) -> spec_fn(FileRecord) -> bool {
    |record: FileRecord| !has_path(others, record.path)
}

/// Holds of the records whose path a record of `older` has with another fingerprint.
pub open spec fn changed_since(older: Seq<FileRecord>) -> spec_fn(FileRecord) -> bool {
    |record: FileRecord|
        lookup(older, record.path) matches Some(before) && before.hash != record.hash
}

/// The change that a record of the newer manifest shows against the older one.
pub open spec fn change_of(old_id: int, older: Seq<FileRecord>, new_id: int) -> spec_fn(
    FileRecord,
) -> Difference {
    |record: FileRecord| Difference::Changed(old_id, lookup(older, record.path)->0, new_id, record)
}

/// The changes, in the order of the newer manifest's records.
pub open spec fn changes(
    new_id: int,
    newer: Seq<FileRecord>,
    old_id: int,
    older: Seq<FileRecord>,
) -> Seq<Difference> {
    newer.filter(changed_since(older)).map_values(change_of(old_id, older, new_id))
}

/// Makes of a record that one manifest alone has the difference that it shows: an
/// addition if `added`, else a removal.
pub open spec fn one_sided(added: bool) -> spec_fn(FileRecord) -> Difference {
    |record: FileRecord|
        if added {
            Difference::Added(record)
        } else {
            Difference::Removed(record)
        }
}

/// The removals, in the order of the older manifest's records.
pub open spec fn removals(newer: Seq<FileRecord>, older: Seq<FileRecord>) -> Seq<Difference> {
    older.filter(absent_from(newer)).map_values(one_sided(false))
}

/// The additions, in the order of the newer manifest's records.
pub open spec fn additions(newer: Seq<FileRecord>, older: Seq<FileRecord>) -> Seq<Difference> {
    newer.filter(absent_from(older)).map_values(one_sided(true))
}

/// All differences between two manifests: the changes, then the removals, then the
/// additions.
pub open spec fn differences(
    new_id: int,
    newer: Seq<FileRecord>,
    old_id: int,
    older: Seq<FileRecord>,
) -> Seq<Difference> {
    changes(new_id, newer, old_id, older) + removals(newer, older) + additions(newer, older)
}

/// Whether `found` is what a comparison hands out for the differences `all`: the
/// list of them, or `None` where there is none.
pub open spec fn shows(found: Option<Vec<Type>>, all: Seq<Difference>) -> bool {
    match found {
        Some(list) => list@.len() > 0 && difference_views(list@) == all,
        None => all.len() == 0,
    }
}

/// What `lookup` finds is the first record of the path, and it finds nothing only
/// where no record is of the path.
pub proof fn lemma_lookup(records: Seq<FileRecord>, path: Seq<char>)
    ensures
        match lookup(records, path) {
            Some(found) => exists|i: int|
                0 <= i < records.len() && #[trigger] records[i] == found && found.path == path
                    && forall|j: int| 0 <= j < i ==> (#[trigger] records[j]).path != path,
            None => forall|i: int| 0 <= i < records.len() ==> (#[trigger] records[i]).path != path,
        },
    decreases records.len(),
{
    if records.len() == 0 {
    } else if records.first().path == path {
        assert(records[0] == records.first());
    } else {
        let rest = records.drop_first();
        lemma_lookup(rest, path);
        match lookup(rest, path) {
            Some(found) => {
                let i = choose|i: int|
                    0 <= i < rest.len() && #[trigger] rest[i] == found && found.path == path
                        && forall|j: int| 0 <= j < i ==> (#[trigger] rest[j]).path != path;
                assert forall|j: int| 0 <= j < i + 1 implies (#[trigger] records[j]).path
                    != path by {
                    if j > 0 {
                        assert(rest[j - 1] == records[j]);
                    }
                }
            },
            None => {
                assert forall|i: int| 0 <= i < records.len() implies (#[trigger] records[i]).path
                    != path by {
                    if i > 0 {
                        assert(rest[i - 1] == records[i]);
                    }
                }
            },
        }
    }
}

/// The record at `at` is what `lookup` finds for its path where no record before it
/// is of that path.
pub proof fn lemma_lookup_at(records: Seq<FileRecord>, at: int)
    requires
        0 <= at < records.len(),
        forall|j: int| 0 <= j < at ==> (#[trigger] records[j]).path != records[at].path,
    ensures
        lookup(records, records[at].path) == Some(records[at]),
{
    let path = records[at].path;
    lemma_lookup(records, path);
    match lookup(records, path) {
        Some(found) => {
            let i = choose|i: int|
                0 <= i < records.len() && #[trigger] records[i] == found && found.path == path
                    && forall|j: int| 0 <= j < i ==> (#[trigger] records[j]).path != path;
            if i < at {
                assert(records[i].path != path);
            } else if at < i {
                assert(records[at].path != path);
            }
        },
        None => {
            assert(records[at].path != path);
        },
    }
}

/// A path is among the records exactly if one of them is of it.
pub proof fn lemma_has_path(records: Seq<FileRecord>, path: Seq<char>)
    ensures
        has_path(records, path) <==> exists|i: int|
            0 <= i < records.len() && (#[trigger] records[i]).path == path,
{
    lemma_lookup(records, path);
}

/// A filter that no element passes leaves nothing.
proof fn lemma_filter_nothing<A>(s: Seq<A>, keep: spec_fn(A) -> bool)
    requires
        forall|i: int| 0 <= i < s.len() ==> !keep(#[trigger] s[i]),
    ensures
        s.filter(keep) == Seq::<A>::empty(),
    decreases s.len(),
{
    reveal(Seq::filter);
    if s.len() > 0 {
        lemma_filter_nothing(s.drop_last(), keep);
    }
}

/// A filter that one element alone passes leaves that element.
proof fn lemma_filter_one<A>(s: Seq<A>, keep: spec_fn(A) -> bool, at: int)
    requires
        0 <= at < s.len(),
        keep(s[at]),
        forall|i: int| 0 <= i < s.len() && i != at ==> !keep(#[trigger] s[i]),
    ensures
        s.filter(keep) == seq![s[at]],
    decreases s.len(),
{
    reveal(Seq::filter);
    if at == s.len() - 1 {
        lemma_filter_nothing(s.drop_last(), keep);
    } else {
        lemma_filter_one(s.drop_last(), keep, at);
    }
}

/// Two records of the same path and the same fingerprint. Their times may differ.
pub open spec fn same_file(a: FileRecord, b: FileRecord) -> bool {
    a.path == b.path && a.hash == b.hash
}

/// Some record of `records` is of the path and fingerprint of `record`.
pub open spec fn holds(records: Seq<FileRecord>, record: FileRecord) -> bool {
    exists|j: int| 0 <= j < records.len() && same_file(record, #[trigger] records[j])
}

/// Every record of `records` has its path and fingerprint in `others`.
pub open spec fn covered_by(records: Seq<FileRecord>, others: Seq<FileRecord>) -> bool {
    forall|i: int| 0 <= i < records.len() ==> holds(others, #[trigger] records[i])
}

/// A record that a manifest of unique paths holds with the same fingerprint shows
/// neither as a change nor as one-sided.
proof fn lemma_held_is_silent(others: Seq<FileRecord>, record: FileRecord)
    requires
        unique_paths(others),
        holds(others, record),
    ensures
        !changed_since(others)(record),
        !absent_from(others)(record),
{
    let j = choose|j: int| 0 <= j < others.len() && same_file(record, #[trigger] others[j]);
    lemma_lookup_at(others, j);
}

/// A record whose path no record of `others` has shows as one-sided and not as a
/// change.
proof fn lemma_unknown_is_one_sided(others: Seq<FileRecord>, record: FileRecord)
    requires
        forall|j: int| 0 <= j < others.len() ==> (#[trigger] others[j]).path != record.path,
    ensures
        !changed_since(others)(record),
        absent_from(others)(record),
{
    lemma_lookup(others, record.path);
}

/// The path that a difference is about.
pub open spec fn path_of(difference: Difference) -> Seq<char> {
    match difference {
        Difference::Added(record) => record.path,
        Difference::Removed(record) => record.path,
        Difference::Changed(_, _, _, record) => record.path,
    }
}

/// What a filter keeps of records of unique paths: records that pass it, each of
/// them one of the records, again of unique paths, and every record that passes.
proof fn lemma_filtered(records: Seq<FileRecord>, keep: spec_fn(FileRecord) -> bool)
    requires
        unique_paths(records),
    ensures
        unique_paths(records.filter(keep)),
        forall|k: int|
            0 <= k < records.filter(keep).len() ==> keep(#[trigger] records.filter(keep)[k])
                && lookup(records, records.filter(keep)[k].path) == Some(records.filter(keep)[k]),
        forall|i: int|
            0 <= i < records.len() && keep(records[i]) ==> exists|k: int|
                0 <= k < records.filter(keep).len() && #[trigger] records.filter(keep)[k]
                    == records[i],
    decreases records.len(),
{
    reveal(Seq::filter);
    let kept = records.filter(keep);
    if records.len() > 0 {
        let rest = records.drop_last();
        let before = rest.filter(keep);
        assert forall|i: int, j: int| 0 <= i < j < rest.len() implies (#[trigger] rest[i]).path != (
        #[trigger] rest[j]).path by {
            assert(rest[i] == records[i] && rest[j] == records[j]);
        }
        lemma_filtered(rest, keep);
        assert forall|k: int| 0 <= k < kept.len() implies keep(#[trigger] kept[k]) && lookup(
            records,
            kept[k].path,
        ) == Some(kept[k]) by {
            if k < before.len() {
                lemma_lookup(rest, before[k].path);
                let i = choose|i: int| 0 <= i < rest.len() && #[trigger] rest[i] == before[k];
                lemma_lookup_at(records, i);
            } else {
                lemma_lookup_at(records, records.len() - 1);
            }
        }
        assert forall|a: int, b: int| 0 <= a < b < kept.len() implies (#[trigger] kept[a]).path != (
        #[trigger] kept[b]).path by {
            if b < before.len() {
                assert(kept[a] == before[a] && kept[b] == before[b]);
            } else {
                lemma_lookup(rest, before[a].path);
            }
        }
        assert forall|i: int| 0 <= i < records.len() && keep(records[i]) implies exists|k: int|
            0 <= k < kept.len() && #[trigger] kept[k] == records[i] by {
            if i < rest.len() {
                let k = choose|k: int| 0 <= k < before.len() && #[trigger] before[k] == rest[i];
                assert(kept[k] == records[i]);
            } else {
                assert(kept[kept.len() - 1] == records[i]);
            }
        }
    }
}

/// No path shows twice: among the differences between two manifests no two are
/// about the same path, so that a path is changed, removed, added or none of
/// these, and never two of them.
pub proof fn lemma_each_path_shows_once(
    new_id: int,
    newer: Seq<FileRecord>,
    old_id: int,
    older: Seq<FileRecord>,
)
    requires
        unique_paths(newer),
        unique_paths(older),
    ensures
        forall|i: int, j: int|
            0 <= i < j < differences(new_id, newer, old_id, older).len() ==> path_of(
                #[trigger] differences(new_id, newer, old_id, older)[i],
            ) != path_of(#[trigger] differences(new_id, newer, old_id, older)[j]),
{
    let all = differences(new_id, newer, old_id, older);
    let changed = newer.filter(changed_since(older));
    let removed = older.filter(absent_from(newer));
    let added = newer.filter(absent_from(older));
    lemma_filtered(newer, changed_since(older));
    lemma_filtered(older, absent_from(newer));
    lemma_filtered(newer, absent_from(older));
    let c = changed.len() as int;
    let r = removed.len() as int;
    assert forall|i: int| 0 <= i < all.len() implies path_of(#[trigger] all[i]) == (if i < c {
        changed[i].path
    } else if i < c + r {
        removed[i - c].path
    } else {
        added[i - c - r].path
    }) by {}
    assert forall|i: int, j: int| 0 <= i < j < all.len() implies path_of(#[trigger] all[i])
        != path_of(#[trigger] all[j]) by {
        if j < c {
            assert(changed[i].path != changed[j].path);
        } else if j < c + r {
            if i < c {
                assert(has_path(newer, changed[i].path));
            } else {
                assert(removed[i - c].path != removed[j - c].path);
            }
        } else {
            if i < c {
                assert(has_path(older, changed[i].path));
            } else if i < c + r {
                assert(has_path(older, removed[i - c].path));
            } else {
                assert(added[i - c - r].path != added[j - c - r].path);
            }
        }
    }
}

/// What shows of a path: the change where both manifests hold it with two
/// fingerprints, the removal where the older alone holds it, the addition where
/// the newer alone holds it, and nothing where both hold it with one fingerprint
/// or neither holds it.
pub proof fn lemma_difference_of_path(
    new_id: int,
    newer: Seq<FileRecord>,
    old_id: int,
    older: Seq<FileRecord>,
    path: Seq<char>,
)
    requires
        unique_paths(newer),
        unique_paths(older),
    ensures
        match (lookup(newer, path), lookup(older, path)) {
            (Some(after), Some(before)) => if after.hash != before.hash {
                differences(new_id, newer, old_id, older).contains(
                    Difference::Changed(old_id, before, new_id, after),
                )
            } else {
                forall|k: int|
                    0 <= k < differences(new_id, newer, old_id, older).len() ==> path_of(
                        #[trigger] differences(new_id, newer, old_id, older)[k],
                    ) != path
            },
            (Some(after), None) => differences(new_id, newer, old_id, older).contains(
                Difference::Added(after),
            ),
            (None, Some(before)) => differences(new_id, newer, old_id, older).contains(
                Difference::Removed(before),
            ),
            (None, None) => forall|k: int|
                0 <= k < differences(new_id, newer, old_id, older).len() ==> path_of(
                    #[trigger] differences(new_id, newer, old_id, older)[k],
                ) != path,
        },
{
    let all = differences(new_id, newer, old_id, older);
    let changed = newer.filter(changed_since(older));
    let removed = older.filter(absent_from(newer));
    let added = newer.filter(absent_from(older));
    lemma_filtered(newer, changed_since(older));
    lemma_filtered(older, absent_from(newer));
    lemma_filtered(newer, absent_from(older));
    lemma_lookup(newer, path);
    lemma_lookup(older, path);
    let c = changed.len() as int;
    let r = removed.len() as int;
    assert forall|i: int| 0 <= i < all.len() implies path_of(#[trigger] all[i]) == (if i < c {
        changed[i].path
    } else if i < c + r {
        removed[i - c].path
    } else {
        added[i - c - r].path
    }) by {}
    match (lookup(newer, path), lookup(older, path)) {
        (Some(after), Some(before)) => {
            if after.hash != before.hash {
                let i = choose|i: int|
                    0 <= i < newer.len() && #[trigger] newer[i] == after && after.path == path;
                let k = choose|k: int| 0 <= k < changed.len() && #[trigger] changed[k] == newer[i];
                assert(all[k] == Difference::Changed(old_id, before, new_id, after));
            } else {
                assert forall|k: int| 0 <= k < all.len() implies path_of(#[trigger] all[k])
                    != path by {
                    if k < c {
                        assert(changed_since(older)(changed[k]));
                    } else if k < c + r {
                        assert(absent_from(newer)(removed[k - c]));
                    } else {
                        assert(absent_from(older)(added[k - c - r]));
                    }
                }
            }
        },
        (Some(after), None) => {
            let i = choose|i: int|
                0 <= i < newer.len() && #[trigger] newer[i] == after && after.path == path;
            let k = choose|k: int| 0 <= k < added.len() && #[trigger] added[k] == newer[i];
            assert(all[c + r + k] == Difference::Added(after));
        },
        (None, Some(before)) => {
            let i = choose|i: int|
                0 <= i < older.len() && #[trigger] older[i] == before && before.path == path;
            let k = choose|k: int| 0 <= k < removed.len() && #[trigger] removed[k] == older[i];
            assert(all[c + k] == Difference::Removed(before));
        },
        (None, None) => {
            assert forall|k: int| 0 <= k < all.len() implies path_of(#[trigger] all[k]) != path by {
                if k < c {
                    assert(lookup(newer, changed[k].path) == Some(changed[k]));
                } else if k < c + r {
                    assert(lookup(older, removed[k - c].path) == Some(removed[k - c]));
                } else {
                    assert(lookup(newer, added[k - c - r].path) == Some(added[k - c - r]));
                }
            }
        },
    }
}

/// Two scans of an unchanged tree show no difference: where both manifests hold
/// the same paths with the same fingerprints, in whatever order and with whatever
/// times, the comparison is empty.
pub proof fn lemma_unchanged_tree_shows_no_difference(
    new_id: int,
    newer: Seq<FileRecord>,
    old_id: int,
    older: Seq<FileRecord>,
)
    requires
        unique_paths(newer),
        unique_paths(older),
        covered_by(newer, older),
        covered_by(older, newer),
    ensures
        differences(new_id, newer, old_id, older) == Seq::<Difference>::empty(),
{
    assert forall|i: int| 0 <= i < newer.len() implies !changed_since(older)(#[trigger] newer[i])
        && !absent_from(older)(newer[i]) by {
        lemma_held_is_silent(older, newer[i]);
    }
    assert forall|i: int| 0 <= i < older.len() implies !absent_from(newer)(#[trigger] older[i]) by {
        lemma_held_is_silent(newer, older[i]);
    }
    lemma_filter_nothing(newer, changed_since(older));
    lemma_filter_nothing(newer, absent_from(older));
    lemma_filter_nothing(older, absent_from(newer));
}

/// A file whose content changed between two scans shows as exactly one change,
/// with its older and its newer record, and nothing shows as added or removed:
/// the record at `at_new` of the newer manifest and the record at `at_old` of the
/// older are of one path with two fingerprints, and every other record of either
/// manifest has its path and fingerprint in the other.
pub proof fn lemma_modified_file_shows_one_change(
    new_id: int,
    newer: Seq<FileRecord>,
    old_id: int,
    older: Seq<FileRecord>,
    at_new: int,
    at_old: int,
)
    requires
        unique_paths(newer),
        unique_paths(older),
        0 <= at_new < newer.len(),
        0 <= at_old < older.len(),
        newer[at_new].path == older[at_old].path,
        newer[at_new].hash != older[at_old].hash,
        forall|i: int| 0 <= i < newer.len() && i != at_new ==> holds(older, #[trigger] newer[i]),
        forall|j: int| 0 <= j < older.len() && j != at_old ==> holds(newer, #[trigger] older[j]),
    ensures
        differences(new_id, newer, old_id, older) == seq![
            Difference::Changed(old_id, older[at_old], new_id, newer[at_new]),
        ],
{
    lemma_lookup_at(older, at_old);
    lemma_lookup_at(newer, at_new);
    assert forall|i: int| 0 <= i < newer.len() && i != at_new implies !changed_since(older)(
        #[trigger] newer[i],
    ) && !absent_from(older)(newer[i]) by {
        lemma_held_is_silent(older, newer[i]);
    }
    assert forall|j: int| 0 <= j < older.len() && j != at_old implies !absent_from(newer)(
        #[trigger] older[j],
    ) by {
        lemma_held_is_silent(newer, older[j]);
    }
    lemma_filter_one(newer, changed_since(older), at_new);
    lemma_filter_nothing(newer, absent_from(older));
    lemma_filter_nothing(older, absent_from(newer));
}

/// A file that came between two scans shows as exactly one addition, and the
/// files that did not change do not show: no record of the older manifest is of
/// the path of the record at `at` of the newer one, and every other record of
/// either manifest has its path and fingerprint in the other.
pub proof fn lemma_added_file_shows_one_addition(
    new_id: int,
    newer: Seq<FileRecord>,
    old_id: int,
    older: Seq<FileRecord>,
    at: int,
)
    requires
        unique_paths(newer),
        unique_paths(older),
        0 <= at < newer.len(),
        forall|j: int| 0 <= j < older.len() ==> (#[trigger] older[j]).path != newer[at].path,
        forall|i: int| 0 <= i < newer.len() && i != at ==> holds(older, #[trigger] newer[i]),
        covered_by(older, newer),
    ensures
        differences(new_id, newer, old_id, older) == seq![Difference::Added(newer[at])],
{
    lemma_unknown_is_one_sided(older, newer[at]);
    assert forall|i: int| 0 <= i < newer.len() && i != at implies !changed_since(older)(
        #[trigger] newer[i],
    ) && !absent_from(older)(newer[i]) by {
        lemma_held_is_silent(older, newer[i]);
    }
    assert forall|j: int| 0 <= j < older.len() implies !absent_from(newer)(#[trigger] older[j]) by {
        lemma_held_is_silent(newer, older[j]);
    }
    lemma_filter_nothing(newer, changed_since(older));
    lemma_filter_one(newer, absent_from(older), at);
    lemma_filter_nothing(older, absent_from(newer));
}

/// A file that went between two scans shows as exactly one removal: no record of
/// the newer manifest is of the path of the record at `at` of the older one, and
/// every other record of either manifest has its path and fingerprint in the
/// other.
pub proof fn lemma_removed_file_shows_one_removal(
    new_id: int,
    newer: Seq<FileRecord>,
    old_id: int,
    older: Seq<FileRecord>,
    at: int,
)
    requires
        unique_paths(newer),
        unique_paths(older),
        0 <= at < older.len(),
        forall|i: int| 0 <= i < newer.len() ==> (#[trigger] newer[i]).path != older[at].path,
        forall|j: int| 0 <= j < older.len() && j != at ==> holds(newer, #[trigger] older[j]),
        covered_by(newer, older),
    ensures
        differences(new_id, newer, old_id, older) == seq![Difference::Removed(older[at])],
{
    lemma_unknown_is_one_sided(newer, older[at]);
    assert forall|i: int| 0 <= i < newer.len() implies !changed_since(older)(#[trigger] newer[i])
        && !absent_from(older)(newer[i]) by {
        lemma_held_is_silent(older, newer[i]);
    }
    assert forall|j: int| 0 <= j < older.len() && j != at implies !absent_from(newer)(
        #[trigger] older[j],
    ) by {
        lemma_held_is_silent(newer, older[j]);
    }
    lemma_filter_nothing(newer, changed_since(older));
    lemma_filter_nothing(newer, absent_from(older));
    lemma_filter_one(older, absent_from(newer), at);
}

/// Where the first of the first `limit` records that is of the path of `file`
/// stands.
pub fn position_before(records: &Vec<FileMetadata>, limit: usize, file: &FileMetadata) -> (at:
    Option<usize>)
    requires
        limit <= records.len(),
    ensures
        match at {
            Some(i) => i < limit && lookup(
                file_records(records@).take(limit as int),
                file@.path,
            ) == Some(records[i as int]@),
            None => !has_path(file_records(records@).take(limit as int), file@.path),
        },
{
    let ghost views = file_records(records@).take(limit as int);
    let mut i: usize = 0;
    while i < limit
        invariant
            i <= limit <= records.len(),
            views == file_records(records@).take(limit as int),
            forall|j: int| 0 <= j < i ==> (#[trigger] views[j]).path != file@.path,
        decreases limit - i,
    {
        if records[i].same_path(file) {
            proof {
                lemma_lookup_at(views, i as int);
            }
            return Some(i);
        }
        i += 1;
    }
    proof {
        lemma_has_path(views, file@.path);
    }
    None
}

/// Where the first record of the path of `file` stands.
pub fn position(records: &Vec<FileMetadata>, file: &FileMetadata) -> (at: Option<usize>)
    ensures
        match at {
            Some(i) => i < records.len() && lookup(file_records(records@), file@.path) == Some(
                records[i as int]@,
            ),
            None => !has_path(file_records(records@), file@.path),
        },
{
    assert(file_records(records@).take(records.len() as int) =~= file_records(records@));
    position_before(records, records.len(), file)
}

/// Whether no two of the files are of the same path.
pub fn has_unique_paths(files: &Vec<FileMetadata>) -> (unique: bool)
    ensures
        unique == unique_paths(file_records(files@)),
{
    let ghost views = file_records(files@);
    let mut i: usize = 0;
    while i < files.len()
        invariant
            i <= files.len(),
            views == file_records(files@),
            unique_paths(views.take(i as int)),
        decreases files.len() - i,
    {
        let earlier = position_before(files, i, &files[i]);
        proof {
            lemma_has_path(views.take(i as int), views[i as int].path);
        }
        if earlier.is_some() {
            return false;
        }
        proof {
            let next = views.take(i + 1);
            assert forall|a: int, b: int| 0 <= a < b < next.len() implies (#[trigger] next[a]).path
                != (#[trigger] next[b]).path by {
                if b < i {
                    assert(views.take(i as int)[a] == next[a]);
                } else {
                    assert(views.take(i as int)[a].path != views[i as int].path);
                }
            }
        }
        i += 1;
    }
    proof {
        assert(views.take(i as int) =~= views);
    }
    true
}

/// Appends the changes to `differences`.
fn select_hash_differences(
    new_id: Id,
    newer: &Vec<FileMetadata>,
    old_id: Id,
    older: &Vec<FileMetadata>,
    differences: &mut Vec<Type>,
)
    ensures
        difference_views(final(differences)@) == difference_views(old(differences)@) + changes(
            new_id.0 as int,
            file_records(newer@),
            old_id.0 as int,
            file_records(older@),
        ),
{
    let ghost news = file_records(newer@);
    let ghost olds = file_records(older@);
    let ghost before = difference_views(differences@);
    let ghost keep = changed_since(olds);
    let ghost change = change_of(old_id.0 as int, olds, new_id.0 as int);
    let mut i: usize = 0;
    proof {
        reveal(Seq::filter);
    }
    while i < newer.len()
        invariant
            i <= newer.len(),
            news == file_records(newer@),
            olds == file_records(older@),
            keep == changed_since(olds),
            change == change_of(old_id.0 as int, olds, new_id.0 as int),
            difference_views(differences@) == before + news.take(i as int).filter(keep).map_values(
                change,
            ),
        decreases newer.len() - i,
    {
        proof {
            assert(news.take(i + 1) =~= news.take(i as int).push(news[i as int]));
            news.take(i as int).lemma_filter_push(news[i as int], keep);
        }
        match position(older, &newer[i]) {
            Some(j) => {
                if !older[j].same_hash(&newer[i]) {
                    let ghost views = difference_views(differences@);
                    differences.push(
                        Type::Hash(old_id.0, older[j].duplicate(), new_id.0, newer[i].duplicate()),
                    );
                    proof {
                        assert(difference_views(differences@) =~= views.push(
                            change(news[i as int]),
                        ));
                    }
                }
            },
            None => {},
        }
        i += 1;
    }
    proof {
        assert(news.take(i as int) =~= news);
    }
}

/// Appends to `differences` the records of `records` whose path no record of
/// `others` has, as additions if `added` and as removals if not.
fn select_missing_paths(
    records: &Vec<FileMetadata>,
    others: &Vec<FileMetadata>,
    added: bool,
    differences: &mut Vec<Type>,
)
    ensures
        difference_views(final(differences)@) == difference_views(old(differences)@)
            + file_records(records@).filter(absent_from(file_records(others@))).map_values(
            one_sided(added),
        ),
{
    let ghost mine = file_records(records@);
    let ghost theirs = file_records(others@);
    let ghost before = difference_views(differences@);
    let ghost keep = absent_from(theirs);
    let ghost make = one_sided(added);
    let mut i: usize = 0;
    proof {
        reveal(Seq::filter);
    }
    while i < records.len()
        invariant
            i <= records.len(),
            mine == file_records(records@),
            theirs == file_records(others@),
            keep == absent_from(theirs),
            make == one_sided(added),
            difference_views(differences@) == before + mine.take(i as int).filter(keep).map_values(
                make,
            ),
        decreases records.len() - i,
    {
        proof {
            assert(mine.take(i + 1) =~= mine.take(i as int).push(mine[i as int]));
            mine.take(i as int).lemma_filter_push(mine[i as int], keep);
        }
        if position(others, &records[i]).is_none() {
            let ghost views = difference_views(differences@);
            let file = records[i].duplicate();
            differences.push(
                if added {
                    Type::Add(file)
                } else {
                    Type::Delete(file)
                },
            );
            proof {
                assert(difference_views(differences@) =~= views.push(make(mine[i as int])));
            }
        }
        i += 1;
    }
    proof {
        assert(mine.take(i as int) =~= mine);
    }
}

/// Appends the removals to `differences`.
fn select_removed_paths(
    newer: &Vec<FileMetadata>,
    older: &Vec<FileMetadata>,
    differences: &mut Vec<Type>,
)
    ensures
        difference_views(final(differences)@) == difference_views(old(differences)@) + removals(
            file_records(newer@),
            file_records(older@),
        ),
{
    select_missing_paths(older, newer, false, differences)
}

/// Appends the additions to `differences`.
fn select_added_paths(
    newer: &Vec<FileMetadata>,
    older: &Vec<FileMetadata>,
    differences: &mut Vec<Type>,
)
    ensures
        difference_views(final(differences)@) == difference_views(old(differences)@) + additions(
            file_records(newer@),
            file_records(older@),
        ),
{
    select_missing_paths(newer, older, true, differences)
}

/// The differences between the records `newer` of the manifest `new_id` and the
/// records `older` of the manifest `old_id`, or `None` where there is none.
pub fn compare(
    new_id: Id,
    newer: &Vec<FileMetadata>,
    old_id: Id,
    older: &Vec<FileMetadata>,
) -> (found: Option<Vec<Type>>)
    ensures
        shows(
            found,
            differences(
                new_id.0 as int,
                file_records(newer@),
                old_id.0 as int,
                file_records(older@),
            ),
        ),
{
    let mut list: Vec<Type> = Vec::new();
    select_hash_differences(new_id, newer, old_id, older, &mut list);
    select_removed_paths(newer, older, &mut list);
    select_added_paths(newer, older, &mut list);
    if list.is_empty() {
        None
    } else {
        Some(list)
    }
}

} // verus!
