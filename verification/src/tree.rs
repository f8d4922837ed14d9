//! A tree as the walker meets it, and what a walk over it hands on.
//!
//! The model of a tree is a map from the directories that can be listed to their
//! entries. A walk takes the directories that are still to be listed one by one,
//! as [`crate::scanner::Walker`] does, until none is left. It hands on exactly the
//! regular files that can be reached from the root through directories that can
//! be listed, and reports exactly the directories reached that cannot.

use crate::scanner::{directory_found, file_found, DirEntryView, EntryKind, MessageView};
use vstd::prelude::*;

verus! {

/// Whether `directory` can be listed and has an entry of this path and kind.
pub open spec fn lists(
    tree: Map<Seq<char>, Seq<DirEntryView>>,
    directory: Seq<char>,
    path: Seq<char>,
    kind: EntryKind,
) -> bool {
    tree.contains_key(directory) && tree[directory].contains(DirEntryView { path, kind })
}

/// Whether each directory of `chain` but the last lists the next one as a
/// directory.
pub open spec fn descends(tree: Map<Seq<char>, Seq<DirEntryView>>, chain: Seq<Seq<char>>) -> bool {
    &&& chain.len() > 0
    &&& forall|k: int|
        0 <= k < chain.len() - 1 ==> lists(tree, #[trigger] chain[k], chain[k + 1], EntryKind::Directory)
}

/// Whether `to` is `from` or is reached from it by descending through
/// directories that can be listed.
pub open spec fn reaches(
    tree: Map<Seq<char>, Seq<DirEntryView>>,
    from: Seq<char>,
    to: Seq<char>,
) -> bool {
    exists|chain: Seq<Seq<char>>| #[trigger]
        descends(tree, chain) && chain.first() == from && chain.last() == to
}

/// What the walker hands on for a directory: its regular files, or the failure
/// to list it.
pub open spec fn handed_on(tree: Map<Seq<char>, Seq<DirEntryView>>, directory: Seq<char>) -> Seq<
    MessageView,
> {
    if tree.contains_key(directory) {
        tree[directory].filter_map(file_found())
    } else {
        seq![MessageView::Failure(directory)]
    }
}

/// The directories that the walker has to list because of a directory.
pub open spec fn found_in(tree: Map<Seq<char>, Seq<DirEntryView>>, directory: Seq<char>) -> Seq<
    Seq<char>,
> {
    if tree.contains_key(directory) {
        tree[directory].filter_map(directory_found())
    } else {
        Seq::empty()
    }
}

/// All that a walk hands on which starts with the directories `pending` to list,
/// the last of them first, and ends within `steps` listings; `None` where it
/// does not end within them.
pub open spec fn walked(
    tree: Map<Seq<char>, Seq<DirEntryView>>,
    pending: Seq<Seq<char>>,
    steps: nat,
) -> Option<Seq<MessageView>>
    decreases steps,
{
    if pending.len() == 0 {
        Some(Seq::empty())
    } else if steps == 0 {
        None
    } else {
        match walked(
            tree,
            pending.drop_last() + found_in(tree, pending.last()),
            (steps - 1) as nat,
        ) {
            Some(later) => Some(handed_on(tree, pending.last()) + later),
            None => None,
        }
    }
}

/// What `filter_map` keeps is what it makes of some element.
proof fn lemma_filter_map_has<A, B>(s: Seq<A>, f: spec_fn(A) -> Option<B>, x: B)
    ensures
        s.filter_map(f).contains(x) <==> exists|i: int|
            0 <= i < s.len() && f(#[trigger] s[i]) == Some(x),
    decreases s.len(),
{
    reveal_with_fuel(Seq::filter_map, 1);
    if s.len() > 0 {
        let rest = s.drop_last();
        lemma_filter_map_has(rest, f, x);
        let kept = s.filter_map(f);
        if kept.contains(x) {
            let k = choose|k: int| 0 <= k < kept.len() && kept[k] == x;
            if k >= rest.filter_map(f).len() {
                assert(f(s[s.len() - 1]) == Some(x));
            }
        }
        if exists|i: int| 0 <= i < s.len() && f(#[trigger] s[i]) == Some(x) {
            let i = choose|i: int| 0 <= i < s.len() && f(#[trigger] s[i]) == Some(x);
            if i < rest.len() {
                assert(f(rest[i]) == Some(x));
                let k = choose|k: int| 0 <= k < rest.filter_map(f).len() && rest.filter_map(f)[k] == x;
                assert(kept[k] == x);
            } else {
                assert(kept[kept.len() - 1] == x);
            }
        }
    }
}

/// What stands in two sequences in a row stands in one of them.
proof fn lemma_contains_add<A>(a: Seq<A>, b: Seq<A>, x: A)
    ensures
        (a + b).contains(x) <==> a.contains(x) || b.contains(x),
{
    if (a + b).contains(x) {
        let k = choose|k: int| 0 <= k < (a + b).len() && (a + b)[k] == x;
        if k < a.len() {
            assert(a[k] == x);
        } else {
            assert(b[k - a.len()] == x);
        }
    }
    if a.contains(x) {
        let k = choose|k: int| 0 <= k < a.len() && a[k] == x;
        assert((a + b)[k] == x);
    }
    if b.contains(x) {
        let k = choose|k: int| 0 <= k < b.len() && b[k] == x;
        assert((a + b)[a.len() + k] == x);
    }
}

/// Whether `wanted` is told of a directory that is reached from one of `pending`.
/// For a file it is that the directory lists it as a regular file; for a failure
/// it is that the directory cannot be listed.
pub open spec fn reached_from(
    tree: Map<Seq<char>, Seq<DirEntryView>>,
    pending: Seq<Seq<char>>,
    wanted: MessageView,
) -> bool {
    exists|i: int, directory: Seq<char>|
        0 <= i < pending.len() && #[trigger] reaches(tree, pending[i], directory) && told_of(
            tree,
            directory,
            wanted,
        )
}

/// Whether the walker hands on `wanted` when it lists `directory`.
pub open spec fn told_of(
    tree: Map<Seq<char>, Seq<DirEntryView>>,
    directory: Seq<char>,
    wanted: MessageView,
) -> bool {
    match wanted {
        MessageView::Path(file) => lists(tree, directory, file, EntryKind::File),
        MessageView::Failure(path) => path == directory && !tree.contains_key(directory),
        MessageView::File(_) => false,
    }
}

/// Listing a directory hands on exactly what is told of it.
proof fn lemma_handed_on(
    tree: Map<Seq<char>, Seq<DirEntryView>>,
    directory: Seq<char>,
    wanted: MessageView,
)
    ensures
        handed_on(tree, directory).contains(wanted) <==> told_of(tree, directory, wanted),
{
    if tree.contains_key(directory) {
        lemma_filter_map_has(tree[directory], file_found(), wanted);
    } else {
        assert(handed_on(tree, directory)[0] == MessageView::Failure(directory));
    }
}

/// The directories found in a directory are those that it lists as directories.
proof fn lemma_found_in(
    tree: Map<Seq<char>, Seq<DirEntryView>>,
    directory: Seq<char>,
    child: Seq<char>,
)
    ensures
        found_in(tree, directory).contains(child) <==> lists(
            tree,
            directory,
            child,
            EntryKind::Directory,
        ),
{
    if tree.contains_key(directory) {
        lemma_filter_map_has(tree[directory], directory_found(), child);
    } else {
        assert(found_in(tree, directory).len() == 0);
    }
}

/// A walk that ends hands on exactly what is told of the directories that are
/// reached from those it started with: every regular file that such a directory
/// lists, every such directory that cannot be listed, and nothing else.
pub proof fn lemma_walk_hands_on_what_is_reached(
    tree: Map<Seq<char>, Seq<DirEntryView>>,
    pending: Seq<Seq<char>>,
    steps: nat,
    wanted: MessageView,
)
    requires
        walked(tree, pending, steps) is Some,
    ensures
        walked(tree, pending, steps)->0.contains(wanted) <==> reached_from(tree, pending, wanted),
    decreases steps,
{
    if pending.len() > 0 {
        let last = pending.len() - 1;
        let directory = pending.last();
        let next = pending.drop_last() + found_in(tree, directory);
        let handed = handed_on(tree, directory);
        let later = walked(tree, next, (steps - 1) as nat)->0;
        lemma_walk_hands_on_what_is_reached(tree, next, (steps - 1) as nat, wanted);
        lemma_contains_add(handed, later, wanted);
        lemma_handed_on(tree, directory, wanted);
        if handed.contains(wanted) {
            assert(descends(tree, seq![directory]));
            assert(reaches(tree, pending[last], directory));
        }
        if later.contains(wanted) {
            let (i, target) = choose|i: int, target: Seq<char>|
                0 <= i < next.len() && #[trigger] reaches(tree, next[i], target) && told_of(
                    tree,
                    target,
                    wanted,
                );
            if i < last {
                assert(next[i] == pending[i]);
            } else {
                let child = next[i];
                lemma_found_in(tree, directory, child);
                let chain = choose|chain: Seq<Seq<char>>| #[trigger]
                    descends(tree, chain) && chain.first() == child && chain.last() == target;
                let longer = seq![directory] + chain;
                assert forall|k: int| 0 <= k < longer.len() - 1 implies lists(
                    tree,
                    #[trigger] longer[k],
                    longer[k + 1],
                    EntryKind::Directory,
                ) by {}
                assert(descends(tree, longer));
                assert(reaches(tree, pending[last], target));
            }
        }
        if reached_from(tree, pending, wanted) {
            let (i, target) = choose|i: int, target: Seq<char>|
                0 <= i < pending.len() && #[trigger] reaches(tree, pending[i], target) && told_of(
                    tree,
                    target,
                    wanted,
                );
            if i < last {
                assert(next[i] == pending[i]);
            } else {
                let chain = choose|chain: Seq<Seq<char>>| #[trigger]
                    descends(tree, chain) && chain.first() == directory && chain.last() == target;
                if chain.len() > 1 {
                    let child = chain[1];
                    lemma_found_in(tree, directory, child);
                    let found = found_in(tree, directory);
                    let k = choose|k: int| 0 <= k < found.len() && found[k] == child;
                    let shorter = chain.subrange(1, chain.len() as int);
                    assert forall|j: int| 0 <= j < shorter.len() - 1 implies lists(
                        tree,
                        #[trigger] shorter[j],
                        shorter[j + 1],
                        EntryKind::Directory,
                    ) by {
                        assert(shorter[j] == chain[j + 1]);
                    }
                    assert(descends(tree, shorter));
                    assert(reaches(tree, next[last + k], target));
                }
            }
        }
    }
}

/// A walk of the tree below `root` that ends hands on the path of a file exactly
/// if the file is a regular file in the root or in a directory reached from it.
pub proof fn lemma_walk_finds_the_files_below_the_root(
    tree: Map<Seq<char>, Seq<DirEntryView>>,
    root: Seq<char>,
    steps: nat,
    file: Seq<char>,
)
    requires
        walked(tree, seq![root], steps) is Some,
    ensures
        walked(tree, seq![root], steps)->0.contains(MessageView::Path(file)) <==> exists|
            directory: Seq<char>,
        | #[trigger]
            reaches(tree, root, directory) && lists(tree, directory, file, EntryKind::File),
{
    let wanted = MessageView::Path(file);
    lemma_walk_hands_on_what_is_reached(tree, seq![root], steps, wanted);
}

} // verus!
