//! The namespace as a mathematical value: directories are sequences of
//! entries, in the order of registration.

use crate::error::VfsError;
use crate::grammar::{head_of, remainder, segments};
use crate::Mount;
use vstd::prelude::*;

verus! {

/// One named entry of a directory.
pub struct Entry<M> {
    pub name: Seq<char>,
    pub kind: EntryKind<M>,
}

/// What an entry is: a directory of further entries, or a mounted provider.
pub enum EntryKind<M> {
    Dir(Seq<Entry<M>>),
    Mount(M),
}

/// Whether `entry` is a directory with the name `name`.
pub open spec fn is_dir_named<M>(entry: Entry<M>, name: Seq<char>) -> bool {
    entry.kind is Dir && entry.name == name
}

/// The index of the first directory named `name` among the entries from
/// `from` on, if there is one.
pub open spec fn first_dir_from<M>(entries: Seq<Entry<M>>, name: Seq<char>, from: int) -> Option<
    int,
>
    decreases entries.len() - from,
{
    if from < 0 || from >= entries.len() {
        None
    } else if is_dir_named(entries[from], name) {
        Some(from)
    } else {
        first_dir_from(entries, name, from + 1)
    }
}

/// The index of the first directory named `name` among `entries`.
pub open spec fn first_dir<M>(entries: Seq<Entry<M>>, name: Seq<char>) -> Option<int> {
    first_dir_from(entries, name, 0)
}

/// The entry that a provider is attached as: a mount under the last of
/// `names`, or under the empty name, which stands for the root, if there is
/// none.
pub open spec fn mount_entry<M>(names: Seq<Seq<char>>, provider: M) -> Entry<M> {
    Entry {
        name: if names.len() == 0 {
            Seq::empty()
        } else {
            names.last()
        },
        kind: EntryKind::Mount(provider),
    }
}

/// The directory `entries` after `provider` was registered under the path
/// with the segments `names`. The provider is appended where the path ends.
/// On the way there the first directory with the name of each segment is
/// entered, and where there is none, a new directory is appended.
pub open spec fn attach<M>(
    entries: Seq<Entry<M>>,
    names: Seq<Seq<char>>,
    provider: M,
) -> Seq<Entry<M>>
    decreases names.len(),
{
    if names.len() <= 1 {
        entries.push(mount_entry(names, provider))
    } else {
        match first_dir(entries, names[0]) {
            Some(i) => entries.update(
                i,
                Entry {
                    name: names[0],
                    kind: EntryKind::Dir(
                        attach(entries[i].kind->Dir_0, names.drop_first(), provider),
                    ),
                },
            ),
            None => entries.push(
                Entry {
                    name: names[0],
                    kind: EntryKind::Dir(attach(Seq::empty(), names.drop_first(), provider)),
                },
            ),
        }
    }
}

/// Whether a lookup of `path` in a directory considers `entry`: its name is
/// the head of the path, or it is empty, which claims every path.
pub open spec fn is_candidate<M>(entry: Entry<M>, path: Seq<char>) -> bool {
    entry.name == head_of(path) || entry.name.len() == 0
}

/// The path that a candidate is given: the whole path for an entry with the
/// empty name, and what follows the head for any other.
pub open spec fn forwarded<M>(entry: Entry<M>, path: Seq<char>) -> Seq<char> {
    if entry.name.len() == 0 {
        path
    } else {
        remainder(path)
    }
}

/// The outcome that fails with `error`.
pub open spec fn failure<R>(error: VfsError) -> Result<R, VfsError> {
    Err(error)
}

/// Whether `entry`, given `path`, may end in `outcome`.
pub open spec fn entry_may_open<R, M: Mount<R>>(
    entry: Entry<M>,
    path: Seq<char>,
    outcome: Result<R, VfsError>,
) -> bool
    decreases entry, 0nat,
{
    match entry.kind {
        EntryKind::Mount(provider) => provider.may_open(path, outcome),
        EntryKind::Dir(entries) => resolves(entries, path, outcome),
    }
}

/// Whether visiting the first `upto` entries of a directory, the last of them
/// first, may end in `outcome`. The first candidate that succeeds decides; a
/// candidate that fails hands its failure on, and the failure that is in hand
/// when no entry is left is the outcome. `retained` is the failure in hand
/// before the visit: `NotFound` as long as no candidate was tried.
pub open spec fn tries<R, M: Mount<R>>(
    entries: Seq<Entry<M>>,
    upto: int,
    path: Seq<char>,
    retained: VfsError,
    outcome: Result<R, VfsError>,
) -> bool
    decreases entries, upto,
{
    if upto <= 0 || upto > entries.len() {
        outcome == Err::<R, VfsError>(retained)
    } else if is_candidate(entries[upto - 1], path) {
        let entry = entries[upto - 1];
        ||| outcome is Ok && entry_may_open(entry, forwarded(entry, path), outcome)
        ||| exists|e: VfsError|
            entry_may_open(entry, forwarded(entry, path), #[trigger] failure::<R>(e)) && tries(
                entries,
                upto - 1,
                path,
                e,
                outcome,
            )
    } else {
        tries(entries, upto - 1, path, retained, outcome)
    }
}

/// Whether a lookup of `path` in the directory `entries` may end in
/// `outcome`. A path of fewer than two segments names no resource below a
/// directory and is not found; any other is tried on the candidates among
/// the entries, the last registered first.
pub open spec fn resolves<R, M: Mount<R>>(
    entries: Seq<Entry<M>>,
    path: Seq<char>,
    outcome: Result<R, VfsError>,
) -> bool
    decreases entries, entries.len() + 1,
{
    if segments(path).len() < 2 {
        outcome == Err::<R, VfsError>(VfsError::NotFound)
    } else {
        tries(entries, entries.len() as int, path, VfsError::NotFound, outcome)
    }
}

} // verus!
