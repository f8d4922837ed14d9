//! The manifest store: a registry of manifests in ascending order of identity, each
//! with a record space of its own. A manifest and its records come and go together,
//! and what is written to one manifest leaves every other as it was.

use crate::difference::{
    compare, differences, Difference, file_records, has_path, has_unique_paths,
    lemma_has_path, position, position_before, shows, unique_paths, Type,
};
use crate::error::Error;
use crate::filemetadata::{texts, FileMetadata, FileRecord};
use crate::manifest::{Id, Manifest, ManifestView, Timestamp};
use vstd::prelude::*;

verus! {

/// A manifest together with its records.
#[derive(Debug)]
pub struct Entry {
    pub manifest: Manifest,
    pub files: Vec<FileMetadata>,
}

/// What an [`Entry`] stands for in contracts.
pub struct Slot {
    pub manifest: ManifestView,
    pub files: Seq<FileRecord>,
}

impl View for Entry {
    type V = Slot;

    open spec fn view(&self) -> Slot {
        Slot { manifest: self.manifest@, files: file_records(self.files@) }
    }
}

/// The slots that a vector of entries stands for.
pub open spec fn slots_of(entries: Seq<Entry>) -> Seq<Slot> {
    entries.map_values(|entry: Entry| entry@)
}

/// The manifests that a vector of them stands for.
pub open spec fn manifest_views(manifests: Seq<Manifest>) -> Seq<ManifestView> {
    manifests.map_values(|manifest: Manifest| manifest@)
}

/// What was read from a store's location: the highest identity ever given out and
/// the manifests with their records.
#[derive(Debug)]
pub struct Stored {
    pub last_id: i64,
    pub entries: Vec<Entry>,
}

/// Whether these manifests, with `last_id` as the highest identity ever given out,
/// make a store: the identities ascend, none exceeds `last_id`, and no manifest
/// holds a path twice.
pub open spec fn is_store(last_id: int, slots: Seq<Slot>) -> bool {
    &&& forall|i: int, j: int|
        0 <= i < j < slots.len() ==> (#[trigger] slots[i]).manifest.id < (
        #[trigger] slots[j]).manifest.id
    &&& forall|i: int| 0 <= i < slots.len() ==> (#[trigger] slots[i]).manifest.id <= last_id
    &&& forall|i: int| 0 <= i < slots.len() ==> unique_paths((#[trigger] slots[i]).files)
}

/// What a [`Database`] stands for in contracts.
pub struct Store {
    /// The manifests with their records, in ascending order of identity.
    pub slots: Seq<Slot>,
    /// The highest identity that was ever given out.
    pub last_id: int,
    /// The schema fragments that the store was made with, in order of application.
    pub schema: Seq<Seq<char>>,
}

impl Store {
    /// The identities ascend and none exceeds the last one given out; within a
    /// manifest no two records share a path.
    pub open spec fn wf(self) -> bool {
        is_store(self.last_id, self.slots)
    }

    /// Whether the store holds a manifest of this identity.
    pub open spec fn contains(self, id: int) -> bool {
        exists|i: int| 0 <= i < self.slots.len() && (#[trigger] self.slots[i]).manifest.id == id
    }

    /// Where the manifest of this identity stands.
    pub open spec fn index_of(self, id: int) -> int {
        choose|i: int| 0 <= i < self.slots.len() && (#[trigger] self.slots[i]).manifest.id == id
    }

    /// The metadata of the manifest of this identity.
    pub open spec fn manifest(self, id: int) -> ManifestView {
        self.slots[self.index_of(id)].manifest
    }

    /// The records of the manifest of this identity.
    pub open spec fn files(self, id: int) -> Seq<FileRecord> {
        self.slots[self.index_of(id)].files
    }

    /// The metadata of all manifests, in ascending order of identity.
    pub open spec fn manifests(self) -> Seq<ManifestView> {
        self.slots.map_values(|slot: Slot| slot.manifest)
    }

    /// The differences between the manifest `newer` and the manifest `older`.
    pub open spec fn compare(self, newer: int, older: int) -> Seq<Difference> {
        differences(newer, self.files(newer), older, self.files(older))
    }

    /// The store after a manifest was created: it has the next identity and no
    /// record yet.
    pub open spec fn create(self, timestamp: int, root: Seq<char>) -> Store {
        Store {
            slots: self.slots.push(
                Slot {
                    manifest: ManifestView { id: self.last_id + 1, timestamp, file_path: root },
                    files: Seq::empty(),
                },
            ),
            last_id: self.last_id + 1,
            schema: self.schema,
        }
    }

    /// The store after `records` were appended to the manifest of this identity.
    pub open spec fn insert(self, id: int, records: Seq<FileRecord>) -> Store {
        Store {
            slots: self.slots.update(
                self.index_of(id),
                Slot { manifest: self.manifest(id), files: self.files(id) + records },
            ),
            last_id: self.last_id,
            schema: self.schema,
        }
    }

    /// The store after the manifest of this identity went, with its records.
    pub open spec fn delete(self, id: int) -> Store {
        Store {
            slots: self.slots.remove(self.index_of(id)),
            last_id: self.last_id,
            schema: self.schema,
        }
    }
}

/// In a well-formed store the manifest of an identity stands at one place only.
pub proof fn lemma_index_of(store: Store, at: int)
    requires
        store.wf(),
        0 <= at < store.slots.len(),
    ensures
        store.contains(store.slots[at].manifest.id),
        store.index_of(store.slots[at].manifest.id) == at,
{
    let id = store.slots[at].manifest.id;
    let found = store.index_of(id);
    if found < at {
        assert(store.slots[found].manifest.id < store.slots[at].manifest.id);
    } else if at < found {
        assert(store.slots[at].manifest.id < store.slots[found].manifest.id);
    }
}

/// Whether the record at `at` of `added` is of a path that a record of `present`
/// or an earlier record of `added` has.
pub open spec fn repeats(present: Seq<FileRecord>, added: Seq<FileRecord>, at: int) -> bool {
    has_path(present, added[at].path) || has_path(added.take(at), added[at].path)
}

/// Whether the record at `at` is the first of `added` that repeats a path.
pub open spec fn first_repeat(present: Seq<FileRecord>, added: Seq<FileRecord>, at: int) -> bool {
    &&& 0 <= at < added.len()
    &&& repeats(present, added, at)
    &&& forall|k: int| 0 <= k < at ==> !repeats(present, added, k)
}

/// Records of unique paths keep unique paths when records are appended of which
/// none repeats a path.
pub proof fn lemma_no_repeat_keeps_paths_unique(present: Seq<FileRecord>, added: Seq<FileRecord>)
    requires
        unique_paths(present),
        forall|k: int| 0 <= k < added.len() ==> !repeats(present, added, k),
    ensures
        unique_paths(present + added),
{
    let all = present + added;
    assert forall|a: int, b: int| 0 <= a < b < all.len() implies (#[trigger] all[a]).path != (
    #[trigger] all[b]).path by {
        if b >= present.len() {
            let k = b - present.len();
            assert(!repeats(present, added, k));
            lemma_has_path(present, added[k].path);
            lemma_has_path(added.take(k), added[k].path);
            if a < present.len() {
                assert(present[a].path != added[k].path);
            } else {
                assert(added.take(k)[a - present.len()].path != added[k].path);
            }
        }
    }
}

/// Appending a record that repeats a path leaves two records of one path.
pub proof fn lemma_repeat_breaks_unique_paths(
    present: Seq<FileRecord>,
    added: Seq<FileRecord>,
    at: int,
)
    requires
        0 <= at < added.len(),
        repeats(present, added, at),
    ensures
        !unique_paths(present + added),
{
    let all = present + added;
    lemma_has_path(present, added[at].path);
    lemma_has_path(added.take(at), added[at].path);
    if has_path(present, added[at].path) {
        let j = choose|j: int| 0 <= j < present.len() && (#[trigger] present[j]).path == added[at].path;
        assert(all[j].path == all[present.len() + at].path);
    } else {
        let j = choose|j: int|
            0 <= j < added.take(at).len() && (#[trigger] added.take(at)[j]).path == added[at].path;
        assert(all[present.len() + j].path == all[present.len() + at].path);
    }
}

/// The manifest store.
#[derive(Debug)]
pub struct Database {
    entries: Vec<Entry>,
    last_id: i64,
    schema: Vec<String>,
}

impl View for Database {
    type V = Store;

    closed spec fn view(&self) -> Store {
        Store {
            slots: slots_of(self.entries@),
            last_id: self.last_id as int,
            schema: texts(self.schema@),
        }
    }
}

impl Database {
    /// What holds of every store that [`Database::create`] or [`Database::open`]
    /// made, whatever was done to it since.
    pub open spec fn wf(&self) -> bool {
        self@.wf()
    }

    /// A new, empty store, made with the schema fragments `tables` in their order.
    /// It never fails.
    pub fn create(tables: Vec<String>) -> (made: Result<Database, Error>)
        ensures
            made matches Ok(database) && database.wf() && database@ == (Store {
                slots: Seq::empty(),
                last_id: 0,
                schema: texts(tables@),
            }),
    {
        let database = Database { entries: Vec::new(), last_id: 0, schema: tables };
        assert(database@.slots =~= Seq::empty());
        Ok(database)
    }

    /// Where the manifest of this identity stands among the entries.
    fn find(&self, id: i64) -> (at: Option<usize>)
        requires
            self.wf(),
        ensures
            match at {
                Some(i) => i < self.entries.len() && self@.contains(id as int) && self@.index_of(
                    id as int,
                ) == i,
                None => !self@.contains(id as int),
            },
    {
        let mut i: usize = 0;
        while i < self.entries.len()
            invariant
                i <= self.entries.len(),
                self.wf(),
                forall|j: int| 0 <= j < i ==> (#[trigger] self@.slots[j]).manifest.id != id,
            decreases self.entries.len() - i,
        {
            if self.entries[i].manifest.id().0 == id {
                proof {
                    lemma_index_of(self@, i as int);
                }
                return Some(i);
            }
            i += 1;
        }
        None
    }

    /// The metadata of all manifests, in ascending order of identity. It never
    /// fails.
    pub fn select_manifests(&self) -> (listed: Result<Vec<Manifest>, Error>)
        requires
            self.wf(),
        ensures
            listed matches Ok(list) && manifest_views(list@) == self@.manifests(),
            listed matches Ok(list) && forall|i: int, j: int|
                0 <= i < j < list.len() ==> (#[trigger] list[i])@.id < (#[trigger] list[j])@.id,
    {
        let mut list: Vec<Manifest> = Vec::new();
        let mut i: usize = 0;
        while i < self.entries.len()
            invariant
                i <= self.entries.len(),
                manifest_views(list@) == self@.manifests().take(i as int),
            decreases self.entries.len() - i,
        {
            let ghost before = manifest_views(list@);
            list.push(self.entries[i].manifest.duplicate());
            assert(manifest_views(list@) =~= before.push(self@.manifests()[i as int]));
            i += 1;
        }
        proof {
            assert forall|a: int, b: int| 0 <= a < b < list.len() implies (#[trigger] list[a])@.id
                < (#[trigger] list[b])@.id by {
                assert(manifest_views(list@)[a] == self@.slots[a].manifest);
                assert(manifest_views(list@)[b] == self@.slots[b].manifest);
            }
        }
        Ok(list)
    }

    /// The metadata of the manifest of this identity.
    pub fn select_manifest(&self, id: &Id) -> (selected: Result<Manifest, Error>)
        requires
            self.wf(),
        ensures
            match selected {
                Ok(manifest) => self@.contains(id.0 as int) && manifest@ == self@.manifest(
                    id.0 as int,
                ),
                Err(error) => !self@.contains(id.0 as int) && error == Error::NotFound(id.0),
            },
    {
        match self.find(id.0) {
            Some(at) => Ok(self.entries[at].manifest.duplicate()),
            None => Err(Error::NotFound(id.0)),
        }
    }

    /// The records of the manifest of this identity, in the order in which they
    /// were inserted.
    pub fn select_files(&self, id: &Id) -> (selected: Result<&Vec<FileMetadata>, Error>)
        requires
            self.wf(),
        ensures
            match selected {
                Ok(files) => self@.contains(id.0 as int) && file_records(files@) == self@.files(
                    id.0 as int,
                ),
                Err(error) => !self@.contains(id.0 as int) && error == Error::NotFound(id.0),
            },
    {
        match self.find(id.0) {
            Some(at) => Ok(&self.entries[at].files),
            None => Err(Error::NotFound(id.0)),
        }
    }

    /// The highest identity that the store ever gave out, zero if it gave none.
    pub fn last_id(&self) -> (id: i64)
        ensures
            id == self@.last_id,
    {
        self.last_id
    }

    /// The schema fragments that the store was made with.
    pub fn schema(&self) -> (tables: &Vec<String>)
        ensures
            texts(tables@) == self@.schema,
    {
        &self.schema
    }
    /// Attaches to the store at `location`, of which `stored` is what was read
    /// there: `None` where nothing exists at the location. What is no store is
    /// refused as if nothing existed.
    pub fn open(location: &str, stored: Option<Stored>) -> (opened: Result<Database, Error>)
        ensures
            match opened {
                Ok(database) => stored matches Some(content) && is_store(
                    content.last_id as int,
                    slots_of(content.entries@),
                ) && database.wf() && database@ == (Store {
                    slots: slots_of(content.entries@),
                    last_id: content.last_id as int,
                    schema: Seq::empty(),
                }),
                Err(error) => {
                    &&& stored matches Some(content) ==> !is_store(
                        content.last_id as int,
                        slots_of(content.entries@),
                    )
                    &&& error matches Error::NoFile(place) && place@ == location@
                },
            },
    {
        match stored {
            None => Err(Error::NoFile(location.to_owned())),
            Some(content) => {
                let ghost slots = slots_of(content.entries@);
                let mut i: usize = 0;
                while i < content.entries.len()
                    invariant
                        i <= content.entries.len(),
                        stored == Some(content),
                        slots == slots_of(content.entries@),
                        is_store(content.last_id as int, slots.take(i as int)),
                    decreases content.entries.len() - i,
                {
                    let id = content.entries[i].manifest.id().0;
                    let ascends = i == 0 || content.entries[i - 1].manifest.id().0 < id;
                    if !ascends || id > content.last_id || !has_unique_paths(
                        &content.entries[i].files,
                    ) {
                        proof {
                            if ascends && id <= content.last_id {
                                assert(!unique_paths(slots[i as int].files));
                            } else if ascends {
                                assert(slots[i as int].manifest.id > content.last_id);
                            } else {
                                assert(slots[i - 1].manifest.id >= slots[i as int].manifest.id);
                            }
                        }
                        return Err(Error::NoFile(location.to_owned()));
                    }
                    proof {
                        let next = slots.take(i + 1);
                        assert forall|a: int, b: int| 0 <= a < b < next.len() implies (
                        #[trigger] next[a]).manifest.id < (#[trigger] next[b]).manifest.id by {
                            if b < i {
                                assert(slots.take(i as int)[a] == next[a]);
                            } else if a < i - 1 {
                                assert(slots.take(i as int)[a].manifest.id < slots.take(
                                    i as int,
                                )[i - 1].manifest.id);
                            } else {
                                assert(next[a] == slots[i - 1]);
                            }
                        }
                        assert forall|a: int| 0 <= a < next.len() implies (
                        #[trigger] next[a]).manifest.id <= content.last_id && unique_paths(
                            next[a].files,
                        ) by {}
                    }
                    i += 1;
                }
                proof {
                    assert(slots.take(i as int) =~= slots);
                }
                let database = Database {
                    entries: content.entries,
                    last_id: content.last_id,
                    schema: Vec::new(),
                };
                assert(database@.schema =~= Seq::empty());
                Ok(database)
            },
        }
    }

    /// Creates a manifest of the tree at `path`, made at `timestamp`: it gets the
    /// identity after the last one given out and a record space that is empty.
    /// Only a store that has given out every identity refuses.
    pub fn create_manifest_table(&mut self, timestamp: &Timestamp, path: &str) -> (created: Result<
        Id,
        Error,
    >)
        requires
            old(self).wf(),
        ensures
            final(self).wf(),
            match created {
                Ok(id) => old(self)@.last_id < i64::MAX && id.0 == old(self)@.last_id + 1
                    && final(self)@ == old(self)@.create(timestamp.0 as int, path@),
                Err(error) => old(self)@.last_id == i64::MAX && error == Error::IdsExhausted
                    && final(self)@ == old(self)@,
            },
    {
        if self.last_id == i64::MAX {
            return Err(Error::IdsExhausted);
        }
        let id = Id(self.last_id + 1);
        let manifest = Manifest::from_database(id, *timestamp, path.to_owned());
        self.entries.push(Entry { manifest, files: Vec::new() });
        self.last_id = id.0;
        proof {
            let after = old(self)@.create(timestamp.0 as int, path@);
            assert(file_records(Seq::<FileMetadata>::empty()) =~= Seq::<FileRecord>::empty());
            assert(self@.slots =~= after.slots);
            lemma_create_keeps_wf(old(self)@, timestamp.0 as int, path@);
        }
        Ok(id)
    }

    /// Removes the manifest of this identity together with all its records.
    pub fn delete_manifest_drop_table(&mut self, manifest_id: &Id) -> (deleted: Result<(), Error>)
        requires
            old(self).wf(),
        ensures
            final(self).wf(),
            match deleted {
                Ok(()) => old(self)@.contains(manifest_id.0 as int) && final(self)@ == old(
                    self,
                )@.delete(manifest_id.0 as int),
                Err(error) => !old(self)@.contains(manifest_id.0 as int) && error
                    == Error::NotFound(manifest_id.0) && final(self)@ == old(self)@,
            },
    {
        match self.find(manifest_id.0) {
            None => Err(Error::NotFound(manifest_id.0)),
            Some(at) => {
                self.entries.remove(at);
                proof {
                    let after = old(self)@.delete(manifest_id.0 as int);
                    assert(self@.slots =~= after.slots);
                    lemma_delete_keeps_wf(old(self)@, manifest_id.0 as int);
                }
                Ok(())
            },
        }
    }

    /// Appends `files` to the records of the manifest of this identity: all of
    /// them, or none where the manifest does not exist or a path would then stand
    /// twice in it. The path named in the refusal is the first of `files` that
    /// repeats one.
    pub fn insert_file_paths_and_hashes(
        &mut self,
        manifest_id: &Id,
        files: Vec<FileMetadata>,
    ) -> (inserted: Result<(), Error>)
        requires
            old(self).wf(),
        ensures
            final(self).wf(),
            match inserted {
                Ok(()) => {
                    &&& old(self)@.contains(manifest_id.0 as int)
                    &&& unique_paths(
                        old(self)@.files(manifest_id.0 as int) + file_records(files@),
                    )
                    &&& final(self)@ == old(self)@.insert(
                        manifest_id.0 as int,
                        file_records(files@),
                    )
                },
                Err(Error::NotFound(id)) => {
                    &&& !old(self)@.contains(manifest_id.0 as int)
                    &&& id == manifest_id.0
                    &&& final(self)@ == old(self)@
                },
                Err(Error::DuplicatePath(path)) => {
                    &&& old(self)@.contains(manifest_id.0 as int)
                    &&& !unique_paths(
                        old(self)@.files(manifest_id.0 as int) + file_records(files@),
                    )
                    &&& exists|at: int|
                        first_repeat(
                            old(self)@.files(manifest_id.0 as int),
                            file_records(files@),
                            at,
                        ) && path@ == #[trigger] file_records(files@)[at].path
                    &&& final(self)@ == old(self)@
                },
                Err(_) => false,
            },
    {
        let at = match self.find(manifest_id.0) {
            None => {
                return Err(Error::NotFound(manifest_id.0));
            },
            Some(at) => at,
        };
        let ghost present = self@.files(manifest_id.0 as int);
        let ghost added = file_records(files@);
        let mut i: usize = 0;
        while i < files.len()
            invariant
                i <= files.len(),
                at < self.entries.len(),
                self.wf(),
                *self == *old(self),
                self@.contains(manifest_id.0 as int),
                present == self@.files(manifest_id.0 as int),
                present == file_records(self.entries[at as int].files@),
                added == file_records(files@),
                forall|k: int| 0 <= k < i ==> !repeats(present, added, k),
            decreases files.len() - i,
        {
            if position(&self.entries[at].files, &files[i]).is_some() || position_before(
                &files,
                i,
                &files[i],
            ).is_some() {
                proof {
                    lemma_repeat_breaks_unique_paths(present, added, i as int);
                }
                return Err(Error::DuplicatePath(files[i].path().to_owned()));
            }
            i += 1;
        }
        let mut files = files;
        self.entries[at].files.append(&mut files);
        proof {
            let after = old(self)@.insert(manifest_id.0 as int, added);
            assert(file_records(self.entries[at as int].files@) =~= present + added);
            assert(self@.slots =~= after.slots);
            lemma_no_repeat_keeps_paths_unique(present, added);
            lemma_insert_keeps_wf(old(self)@, manifest_id.0 as int, added);
        }
        Ok(())
    }

    /// The differences between the manifest `newer` and the manifest `older`, or
    /// `None` where they show none. Where both identities are unknown the refusal
    /// names `newer`.
    pub fn select_manifest_differences(&self, newer: &Id, older: &Id) -> (found: Result<
        Option<Vec<Type>>,
        Error,
    >)
        requires
            self.wf(),
        ensures
            match found {
                Ok(shown) => {
                    &&& self@.contains(newer.0 as int)
                    &&& self@.contains(older.0 as int)
                    &&& shows(shown, self@.compare(newer.0 as int, older.0 as int))
                },
                Err(error) => if self@.contains(newer.0 as int) {
                    !self@.contains(older.0 as int) && error == Error::NotFound(older.0)
                } else {
                    error == Error::NotFound(newer.0)
                },
            },
    {
        let new_at = match self.find(newer.0) {
            None => {
                return Err(Error::NotFound(newer.0));
            },
            Some(at) => at,
        };
        let old_at = match self.find(older.0) {
            None => {
                return Err(Error::NotFound(older.0));
            },
            Some(at) => at,
        };
        Ok(compare(*newer, &self.entries[new_at].files, *older, &self.entries[old_at].files))
    }

    /// Stores a scan of the tree at `root`, made at `now`, as a new manifest with
    /// the records `files`, and says which identity it got. Either the manifest is
    /// there with all its records or the store is as it was: it refuses, and
    /// changes nothing, where it has given out every identity and where two of
    /// `files` are of one path.
    pub fn index(&mut self, root: &str, now: &Timestamp, files: Vec<FileMetadata>) -> (indexed:
        Result<Id, Error>)
        requires
            old(self).wf(),
        ensures
            final(self).wf(),
            match indexed {
                Ok(id) => {
                    &&& old(self)@.last_id < i64::MAX
                    &&& unique_paths(file_records(files@))
                    &&& id.0 == old(self)@.last_id + 1
                    &&& final(self)@ == old(self)@.create(now.0 as int, root@).insert(
                        id.0 as int,
                        file_records(files@),
                    )
                },
                Err(Error::IdsExhausted) => {
                    &&& old(self)@.last_id == i64::MAX
                    &&& final(self)@ == old(self)@
                },
                Err(Error::DuplicatePath(path)) => {
                    &&& old(self)@.last_id < i64::MAX
                    &&& !unique_paths(file_records(files@))
                    &&& exists|at: int|
                        first_repeat(Seq::empty(), file_records(files@), at) && path@
                            == #[trigger] file_records(files@)[at].path
                    &&& final(self)@ == old(self)@
                },
                Err(_) => false,
            },
    {
        let id = match self.create_manifest_table(now, root) {
            Ok(id) => id,
            Err(error) => {
                return Err(error);
            },
        };
        proof {
            let created = old(self)@.create(now.0 as int, root@);
            lemma_index_of(created, old(self)@.slots.len() as int);
        }
        match self.insert_file_paths_and_hashes(&id, files) {
            Ok(()) => Ok(id),
            Err(error) => {
                let ghost created = self@;
                self.entries.pop();
                self.last_id = self.last_id - 1;
                assert(self@.slots =~= created.slots.drop_last());
                assert(self@.slots =~= old(self)@.slots);
                Err(error)
            },
        }
    }

    /// Stores a new scan of the tree of the manifest `manifest_id`, made at `now`,
    /// as a new manifest with the records `files`, and compares it with that
    /// manifest. It says which identity the new manifest got and what differs from
    /// the older one, and refuses, changing nothing, where `manifest_id` is
    /// unknown and where [`Database::index`] refuses.
    pub fn scan(&mut self, manifest_id: &Id, now: &Timestamp, files: Vec<FileMetadata>) -> (scanned:
        Result<(Id, Option<Vec<Type>>), Error>)
        requires
            old(self).wf(),
        ensures
            final(self).wf(),
            match scanned {
                Ok((id, shown)) => {
                    &&& old(self)@.contains(manifest_id.0 as int)
                    &&& old(self)@.last_id < i64::MAX
                    &&& unique_paths(file_records(files@))
                    &&& id.0 == old(self)@.last_id + 1
                    &&& final(self)@ == old(self)@.create(
                        now.0 as int,
                        old(self)@.manifest(manifest_id.0 as int).file_path,
                    ).insert(id.0 as int, file_records(files@))
                    &&& shows(
                        shown,
                        differences(
                            id.0 as int,
                            file_records(files@),
                            manifest_id.0 as int,
                            old(self)@.files(manifest_id.0 as int),
                        ),
                    )
                },
                Err(Error::NotFound(id)) => {
                    &&& !old(self)@.contains(manifest_id.0 as int)
                    &&& id == manifest_id.0
                    &&& final(self)@ == old(self)@
                },
                Err(Error::IdsExhausted) => {
                    &&& old(self)@.contains(manifest_id.0 as int)
                    &&& old(self)@.last_id == i64::MAX
                    &&& final(self)@ == old(self)@
                },
                Err(Error::DuplicatePath(path)) => {
                    &&& old(self)@.contains(manifest_id.0 as int)
                    &&& old(self)@.last_id < i64::MAX
                    &&& !unique_paths(file_records(files@))
                    &&& exists|at: int|
                        first_repeat(Seq::empty(), file_records(files@), at) && path@
                            == #[trigger] file_records(files@)[at].path
                    &&& final(self)@ == old(self)@
                },
                Err(_) => false,
            },
    {
        let manifest = match self.select_manifest(manifest_id) {
            Ok(manifest) => manifest,
            Err(error) => {
                return Err(error);
            },
        };
        let id = match self.index(manifest.file_path(), now, files) {
            Ok(id) => id,
            Err(error) => {
                return Err(error);
            },
        };
        proof {
            lemma_stored_scan_is_read_back(
                old(self)@,
                now.0 as int,
                manifest@.file_path,
                file_records(files@),
            );
        }
        match self.select_manifest_differences(&id, manifest_id) {
            Ok(shown) => Ok((id, shown)),
            Err(error) => Err(error),
        }
    }
}

/// Deleting a manifest leaves a well-formed store.
pub proof fn lemma_delete_keeps_wf(store: Store, id: int)
    requires
        store.wf(),
        store.contains(id),
    ensures
        store.delete(id).wf(),
{
    let at = store.index_of(id);
    let after = store.delete(id);
    assert forall|i: int| 0 <= i < after.slots.len() implies (#[trigger] after.slots[i])
        == store.slots[if i < at {
        i
    } else {
        i + 1
    }] by {}
    assert forall|i: int, j: int| 0 <= i < j < after.slots.len() implies (
    #[trigger] after.slots[i]).manifest.id < (#[trigger] after.slots[j]).manifest.id by {}
}

/// Appending records that keep its paths unique to a manifest leaves a well-formed
/// store.
pub proof fn lemma_insert_keeps_wf(store: Store, id: int, records: Seq<FileRecord>)
    requires
        store.wf(),
        store.contains(id),
        unique_paths(store.files(id) + records),
    ensures
        store.insert(id, records).wf(),
{
    let after = store.insert(id, records);
    assert forall|i: int, j: int| 0 <= i < j < after.slots.len() implies (
    #[trigger] after.slots[i]).manifest.id < (#[trigger] after.slots[j]).manifest.id by {
        assert(store.slots[i].manifest.id < store.slots[j].manifest.id);
    }
    assert forall|i: int| 0 <= i < after.slots.len() implies (#[trigger] after.slots[i]).manifest.id
        <= after.last_id && unique_paths(after.slots[i].files) by {
        assert(store.slots[i].manifest.id <= store.last_id);
    }
}

/// Creating a manifest leaves a well-formed store.
pub proof fn lemma_create_keeps_wf(store: Store, timestamp: int, root: Seq<char>)
    requires
        store.wf(),
    ensures
        store.create(timestamp, root).wf(),
{
    let after = store.create(timestamp, root);
    assert forall|i: int, j: int| 0 <= i < j < after.slots.len() implies (
    #[trigger] after.slots[i]).manifest.id < (#[trigger] after.slots[j]).manifest.id by {}
    assert forall|i: int| 0 <= i < after.slots.len() implies (#[trigger] after.slots[i]).manifest.id
        <= after.last_id && unique_paths(after.slots[i].files) by {}
}

/// A deleted manifest is gone as a whole, and it alone: the store no longer
/// contains its identity, so that selecting it finds nothing; the list of
/// manifests does not name it; and every other manifest is there as before, with
/// the same metadata and the same records.
pub proof fn lemma_deleted_manifest_is_gone(store: Store, id: int)
    requires
        store.wf(),
        store.contains(id),
    ensures
        store.delete(id).wf(),
        !store.delete(id).contains(id),
        forall|i: int|
            0 <= i < store.delete(id).manifests().len() ==> (#[trigger] store.delete(
                id,
            ).manifests()[i]).id != id,
        store.delete(id).manifests().len() == store.manifests().len() - 1,
        forall|other: int|
            other != id ==> (#[trigger] store.delete(id).contains(other)) == store.contains(other),
        forall|other: int|
            other != id && store.contains(other) ==> (#[trigger] store.delete(id).manifest(other))
                == store.manifest(other),
        forall|other: int|
            other != id && store.contains(other) ==> (#[trigger] store.delete(id).files(other))
                == store.files(other),
{
    let at = store.index_of(id);
    let after = store.delete(id);
    lemma_delete_keeps_wf(store, id);
    lemma_index_of(store, at);
    assert forall|i: int| 0 <= i < after.slots.len() implies (#[trigger] after.slots[i]).manifest.id
        != id by {
        let k = if i < at { i } else { i + 1 };
        lemma_index_of(store, k);
    }
    assert forall|i: int| 0 <= i < after.manifests().len() implies (
    #[trigger] after.manifests()[i]).id != id by {
        assert(after.manifests()[i] == after.slots[i].manifest);
    }
    assert forall|other: int| other != id implies (#[trigger] after.contains(other))
        == store.contains(other) by {
        if store.contains(other) {
            let k = store.index_of(other);
            let i = if k < at { k } else { k - 1 };
            assert(after.slots[i] == store.slots[k]);
        }
    }
    assert forall|other: int| other != id && store.contains(other) implies (
    #[trigger] after.manifest(other)) == store.manifest(other) by {
        let k = store.index_of(other);
        let i = if k < at { k } else { k - 1 };
        lemma_index_of(after, i);
    }
    assert forall|other: int| other != id && store.contains(other) implies (#[trigger] after.files(
        other,
    )) == store.files(other) by {
        let k = store.index_of(other);
        let i = if k < at { k } else { k - 1 };
        lemma_index_of(after, i);
    }
}

/// What a scan stores is what is read back, and storing it touches no other
/// manifest: after a manifest was created and `records` of unique paths were
/// inserted into it, the store holds under the new identity exactly `records`, in
/// their order, with the metadata given; and every manifest that was there before
/// is there as before, with the same metadata and the same records.
pub proof fn lemma_stored_scan_is_read_back(
    store: Store,
    timestamp: int,
    root: Seq<char>,
    records: Seq<FileRecord>,
)
    requires
        store.wf(),
        unique_paths(records),
    ensures
        ({
            let id = store.last_id + 1;
            let after = store.create(timestamp, root).insert(id, records);
            &&& after.wf()
            &&& after.contains(id)
            &&& !store.contains(id)
            &&& after.files(id) == records
            &&& after.manifest(id) == (ManifestView { id, timestamp, file_path: root })
            &&& forall|other: int|
                store.contains(other) ==> (#[trigger] after.contains(other)) && after.manifest(
                    other,
                ) == store.manifest(other) && after.files(other) == store.files(other)
        }),
{
    let id = store.last_id + 1;
    let created = store.create(timestamp, root);
    let after = created.insert(id, records);
    let last = store.slots.len() as int;
    lemma_create_keeps_wf(store, timestamp, root);
    lemma_index_of(created, last);
    lemma_insert_keeps_wf(created, id, records);
    lemma_index_of(after, last);
    assert forall|other: int| store.contains(other) implies (#[trigger] after.contains(other))
        && after.manifest(other) == store.manifest(other) && after.files(other) == store.files(
        other,
    ) by {
        let k = store.index_of(other);
        lemma_index_of(after, k);
    }
}

} // verus!
