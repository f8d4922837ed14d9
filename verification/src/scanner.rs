//! The decisions of a scan. Walking a tree and reading its files is the work of
//! the surrounding program; what is done with each thing found is decided here.
//!
//! A scan has two stages. The walker lists directories and hands on the paths of
//! regular files; the worker reads each file and hands on its record. A directory
//! below the root that cannot be listed and a file that may not be read are soft
//! failures: they are noted and the scan goes on. A root that cannot be listed and
//! any other failure end the scan. Symbolic links are not followed, so that the
//! walk ends.

use crate::difference::file_records;
use crate::error::Error;
use crate::filemetadata::{texts, FileMetadata, FileRecord};
use vstd::prelude::*;

verus! {

/// What passes between the stages of a scan.
#[derive(Debug)]
pub enum Message {
    /// A regular file that the walker found.
    Path(String),
    /// The record of a file that the worker read.
    File(FileMetadata),
    /// A directory that could not be listed or a file that could not be read.
    Failure(String),
}

/// What a [`Message`] stands for in contracts.
pub enum MessageView {
    Path(Seq<char>),
    File(FileRecord),
    Failure(Seq<char>),
}

impl View for Message {
    type V = MessageView;

    open spec fn view(&self) -> MessageView {
        match *self {
            Message::Path(path) => MessageView::Path(path@),
            Message::File(file) => MessageView::File(file@),
            Message::Failure(path) => MessageView::Failure(path@),
        }
    }
}

/// The messages that a vector of them stands for.
pub open spec fn message_views(messages: Seq<Message>) -> Seq<MessageView> {
    messages.map_values(|message: Message| message@)
}

/// What an entry of a directory is. A symbolic link is `Other`, whatever it points
/// to.
#[derive(Debug, Clone, Copy, PartialEq, Eq, Structural)]
pub enum EntryKind {
    File,
    Directory,
    Other,
}

/// One entry of a directory, by its full path.
#[derive(Debug)]
pub struct DirEntry {
    pub path: String,
    pub kind: EntryKind,
}

/// What a [`DirEntry`] stands for in contracts.
pub struct DirEntryView {
    pub path: Seq<char>,
    pub kind: EntryKind,
}

impl View for DirEntry {
    type V = DirEntryView;

    open spec fn view(&self) -> DirEntryView {
        DirEntryView { path: self.path@, kind: self.kind }
    }
}

/// The entries that a vector of them stands for.
pub open spec fn entry_views(entries: Seq<DirEntry>) -> Seq<DirEntryView> {
    entries.map_values(|entry: DirEntry| entry@)
}

/// What came of listing a directory.
#[derive(Debug)]
pub enum Listing {
    /// The directory could not be opened for listing.
    Unreadable,
    /// The listing broke off; the text says why.
    Broken(String),
    /// All entries of the directory.
    Entries(Vec<DirEntry>),
}

/// What came of reading a file.
#[derive(Debug)]
pub enum Reading {
    /// The file was read to its end.
    Read(FileMetadata),
    /// The file may not be opened.
    PermissionDenied,
    /// Reading failed otherwise; the text says how.
    Failed(String),
}

/// The message, if any, that an entry makes the walker hand on.
pub open spec fn file_found() -> spec_fn(DirEntryView) -> Option<MessageView> {
    |entry: DirEntryView|
        if entry.kind == EntryKind::File {
            Some(MessageView::Path(entry.path))
        } else {
            None
        }
}

/// The directory, if any, that an entry makes the walker list later.
pub open spec fn directory_found() -> spec_fn(DirEntryView) -> Option<Seq<char>> {
    |entry: DirEntryView|
        if entry.kind == EntryKind::Directory {
            Some(entry.path)
        } else {
            None
        }
}

/// The record, if any, that a message carries.
pub open spec fn file_in() -> spec_fn(MessageView) -> Option<FileRecord> {
    |message: MessageView|
        match message {
            MessageView::File(file) => Some(file),
            _ => None,
        }
}

/// The path, if any, that a message reports as failed.
pub open spec fn failure_in() -> spec_fn(MessageView) -> Option<Seq<char>> {
    |message: MessageView|
        match message {
            MessageView::Failure(path) => Some(path),
            _ => None,
        }
}

/// The records among the messages, in their order.
pub open spec fn files_of(messages: Seq<MessageView>) -> Seq<FileRecord> {
    messages.filter_map(file_in())
}

/// The failed paths among the messages, in their order.
pub open spec fn failures_of(messages: Seq<MessageView>) -> Seq<Seq<char>> {
    messages.filter_map(failure_in())
}

/// What `filter_map` keeps of two sequences in a row is what it keeps of the first
/// and then of the second.
proof fn lemma_filter_map_add<A, B>(a: Seq<A>, b: Seq<A>, f: spec_fn(A) -> Option<B>)
    ensures
        (a + b).filter_map(f) == a.filter_map(f) + b.filter_map(f),
    decreases b.len(),
{
    reveal_with_fuel(Seq::filter_map, 1);
    if b.len() == 0 {
        assert(a + b =~= a);
    } else {
        assert((a + b).drop_last() =~= a + b.drop_last());
        lemma_filter_map_add(a, b.drop_last(), f);
    }
}

/// A soft failure costs the scan nothing but the one path: whatever messages come
/// before and after the failure of `path`, the scan yields the records of both
/// parts, all of them and no other, and reports `path` in its place among the
/// failures.
pub proof fn lemma_soft_failure_hides_no_file(
    before: Seq<MessageView>,
    path: Seq<char>,
    after: Seq<MessageView>,
)
    ensures
        files_of(before + seq![MessageView::Failure(path)] + after) == files_of(before) + files_of(
            after,
        ),
        failures_of(before + seq![MessageView::Failure(path)] + after) == failures_of(before)
            + seq![path] + failures_of(after),
{
    let failure = seq![MessageView::Failure(path)];
    lemma_filter_map_add(before + failure, after, file_in());
    lemma_filter_map_add(before, failure, file_in());
    lemma_filter_map_add(before + failure, after, failure_in());
    lemma_filter_map_add(before, failure, failure_in());
    Seq::lemma_filter_map_singleton(MessageView::Failure(path), file_in());
    Seq::lemma_filter_map_singleton(MessageView::Failure(path), failure_in());
}

/// The failure of a scan whose stages ended as `walked` and `hashed` say, or
/// `None` where neither failed.
pub open spec fn failure_of(walked: Result<(), Error>, hashed: Result<(), Error>) -> Option<
    Error,
> {
    match (walked, hashed) {
        (Err(first), Err(second)) => if first.concurrency() && !second.concurrency() {
            Some(second)
        } else {
            Some(first)
        },
        (Err(first), Ok(_)) => Some(first),
        (Ok(_), Err(second)) => Some(second),
        (Ok(_), Ok(_)) => None,
    }
}

/// What a scan found: the records of the files that were read, and the paths that
/// had to be passed over.
#[derive(Debug)]
pub struct Index {
    pub files: Vec<FileMetadata>,
    pub failures: Vec<String>,
}

/// A scan of the tree below a root.
#[derive(Debug)]
pub struct Scanner {
    root: String,
}

impl View for Scanner {
    type V = Seq<char>;

    /// The root.
    closed spec fn view(&self) -> Seq<char> {
        self.root@
    }
}

impl Scanner {
    /// A scan of the tree below `root`. It never fails.
    pub fn new(root: String) -> (made: Result<Scanner, Error>)
        ensures
            made matches Ok(scanner) && scanner@ == root@,
    {
        Ok(Scanner { root })
    }

    /// The root of the tree.
    pub fn root(&self) -> (root: &str)
        ensures
            root@ == self@,
    {
        self.root.as_str()
    }

    /// The walker at its start: the root is the one directory that it has to list.
    pub fn walker(&self) -> (walker: Walker)
        ensures
            walker@ == (Walk { pending: seq![self@], at_root: true }),
    {
        let mut pending: Vec<String> = Vec::new();
        pending.push(self.root.clone());
        let walker = Walker { pending, at_root: true };
        assert(walker@.pending =~= seq![self@]);
        walker
    }

    /// What the worker hands on for the file at `path` once it was read: its
    /// record, or the path as a soft failure where the file may not be opened. Any
    /// other failure ends the scan.
    pub fn hashed(path: String, reading: Reading) -> (handed: Result<Message, Error>)
        ensures
            match reading {
                Reading::Read(file) => handed matches Ok(message) && message@ == MessageView::File(
                    file@,
                ),
                Reading::PermissionDenied => handed matches Ok(message) && message@
                    == MessageView::Failure(path@),
                Reading::Failed(why) => handed matches Err(Error::IO(text)) && text@ == why@,
            },
    {
        match reading {
            Reading::Read(file) => Ok(Message::File(file)),
            Reading::PermissionDenied => Ok(Message::Failure(path)),
            Reading::Failed(why) => Err(Error::IO(why)),
        }
    }

    /// The outcome of a scan once both stages have ended: `walked` is how the
    /// walker ended, `hashed` how the worker ended, `messages` what they handed to
    /// the collecting side.
    ///
    /// A failed stage fails the scan. Where both failed, the failure that tells of
    /// the tree is reported rather than one that tells only that the stages lost
    /// one another, and the walker's where that does not decide. Otherwise the scan
    /// succeeds, whatever soft failures there were: it yields every record and
    /// every failed path among the messages, in their order.
    pub fn index(
        &self,
        walked: Result<(), Error>,
        hashed: Result<(), Error>,
        messages: Vec<Message>,
    ) -> (indexed: Result<Index, Error>)
        ensures
            match indexed {
                Ok(index) => {
                    &&& failure_of(walked, hashed) is None
                    &&& file_records(index.files@) == files_of(message_views(messages@))
                    &&& texts(index.failures@) == failures_of(message_views(messages@))
                },
                Err(error) => failure_of(walked, hashed) == Some(error),
            },
    {
        match (walked, hashed) {
            (Err(first), Err(second)) => {
                if first.is_concurrency() && !second.is_concurrency() {
                    return Err(second);
                }
                return Err(first);
            },
            (Err(first), Ok(())) => {
                return Err(first);
            },
            (Ok(()), Err(second)) => {
                return Err(second);
            },
            (Ok(()), Ok(())) => {},
        }
        let ghost views = message_views(messages@);
        let mut files: Vec<FileMetadata> = Vec::new();
        let mut failures: Vec<String> = Vec::new();
        proof {
            reveal_with_fuel(Seq::filter_map, 1);
        }
        for message in it: messages
            invariant
                it.seq() == messages@,
                views == message_views(messages@),
                file_records(files@) == views.take(it.index() as int).filter_map(file_in()),
                texts(failures@) == views.take(it.index() as int).filter_map(failure_in()),
        {
            proof {
                views.lemma_filter_map_take_succ(file_in(), it.index() as int);
                views.lemma_filter_map_take_succ(failure_in(), it.index() as int);
            }
            match message {
                Message::File(file) => {
                    files.push(file);
                },
                Message::Failure(path) => {
                    failures.push(path);
                },
                Message::Path(_) => {},
            }
        }
        proof {
            assert(views.take(messages@.len() as int) =~= views);
        }
        Ok(Index { files, failures })
    }
}

/// The walker: the directories that it has still to list, the next one last.
#[derive(Debug)]
pub struct Walker {
    pending: Vec<String>,
    at_root: bool,
}

/// What a [`Walker`] stands for in contracts.
pub struct Walk {
    /// The directories that are still to be listed; the last is the next.
    pub pending: Seq<Seq<char>>,
    /// Whether no directory was listed yet, so that the next is the root.
    pub at_root: bool,
}

impl View for Walker {
    type V = Walk;

    closed spec fn view(&self) -> Walk {
        Walk { pending: texts(self.pending@), at_root: self.at_root }
    }
}

impl Walker {
    /// Takes the directory to list next, or `None` when the walk is over.
    pub fn next(&mut self) -> (directory: Option<String>)
        ensures
            match directory {
                Some(path) => old(self)@.pending.len() > 0 && path@ == old(self)@.pending.last()
                    && final(self)@ == (Walk {
                    pending: old(self)@.pending.drop_last(),
                    at_root: old(self)@.at_root,
                }),
                None => old(self)@.pending.len() == 0 && final(self)@ == old(self)@,
            },
    {
        let directory = self.pending.pop();
        proof {
            if directory is Some {
                assert(self@.pending =~= old(self)@.pending.drop_last());
            }
        }
        directory
    }

    /// Decides what follows from listing the directory at `path`.
    ///
    /// A directory that could not be opened is a soft failure and is handed on as
    /// such, unless it is the root: without the root nothing can be scanned. A
    /// listing that broke off ends the scan. Of a full listing the regular files
    /// are handed on, in their order, and the directories are kept to be listed,
    /// the last of them next; anything else, a symbolic link too, is passed over.
    pub fn visit_dir(&mut self, path: String, listing: Listing) -> (handed: Result<
        Vec<Message>,
        Error,
    >)
        ensures
            final(self)@.at_root == false,
            match listing {
                Listing::Unreadable => {
                    &&& final(self)@.pending == old(self)@.pending
                    &&& if old(self)@.at_root {
                        handed matches Err(Error::IO(text)) && text@ == path@
                    } else {
                        handed matches Ok(messages) && message_views(messages@) == seq![
                            MessageView::Failure(path@),
                        ]
                    }
                },
                Listing::Broken(why) => {
                    &&& final(self)@.pending == old(self)@.pending
                    &&& handed matches Err(Error::IO(text)) && text@ == why@
                },
                Listing::Entries(entries) => {
                    &&& final(self)@.pending == old(self)@.pending + entry_views(
                        entries@,
                    ).filter_map(directory_found())
                    &&& handed matches Ok(messages) && message_views(messages@) == entry_views(
                        entries@,
                    ).filter_map(file_found())
                },
            },
    {
        let was_root = self.at_root;
        self.at_root = false;
        match listing {
            Listing::Unreadable => {
                if was_root {
                    Err(Error::IO(path))
                } else {
                    let mut messages: Vec<Message> = Vec::new();
                    messages.push(Message::Failure(path));
                    Ok(messages)
                }
            },
            Listing::Broken(why) => Err(Error::IO(why)),
            Listing::Entries(entries) => {
                let ghost views = entry_views(entries@);
                let ghost before = self@.pending;
                let mut messages: Vec<Message> = Vec::new();
                proof {
                    reveal_with_fuel(Seq::filter_map, 1);
                }
                for entry in it: entries
                    invariant
                        it.seq() == entries@,
                        views == entry_views(entries@),
                        self@.at_root == false,
                        message_views(messages@) == views.take(it.index() as int).filter_map(
                            file_found(),
                        ),
                        self@.pending == before + views.take(it.index() as int).filter_map(
                            directory_found(),
                        ),
                {
                    proof {
                        views.lemma_filter_map_take_succ(file_found(), it.index() as int);
                        views.lemma_filter_map_take_succ(directory_found(), it.index() as int);
                    }
                    let ghost pending_before = self@.pending;
                    match entry.kind {
                        EntryKind::File => {
                            messages.push(Message::Path(entry.path));
                        },
                        EntryKind::Directory => {
                            self.pending.push(entry.path);
                            assert(self@.pending =~= pending_before + seq![entry.path@]);
                        },
                        EntryKind::Other => {},
                    }
                }
                proof {
                    assert(views.take(entries@.len() as int) =~= views);
                }
                Ok(messages)
            },
        }
    }
}

} // verus!
