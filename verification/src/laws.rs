//! What holds of every namespace: registration only adds, the newest
//! candidate is tried first, and a lookup below a mount point is handed to
//! the providers registered there.

use crate::error::VfsError;
use crate::grammar::{
    head_of, lemma_head_and_remainder, lemma_segments_are_names, remainder, segments,
};
use crate::model::{
    attach, entry_may_open, failure, first_dir, first_dir_from, forwarded, is_candidate,
    is_dir_named, mount_entry, resolves, tries, Entry, EntryKind,
};
use crate::Mount;
use vstd::prelude::*;

verus! {

/// What is left of `path` below `depth` levels: the remainder, taken `depth`
/// times.
pub open spec fn descend(path: Seq<char>, depth: nat) -> Seq<char>
    decreases depth,
{
    if depth == 0 {
        path
    } else {
        descend(remainder(path), (depth - 1) as nat)
    }
}

/// Whether the directory `after` holds all that `before` held, each entry in
/// its place: the same mounts under the same names, and directories that hold
/// all that they held.
pub open spec fn extends<M>(before: Seq<Entry<M>>, after: Seq<Entry<M>>) -> bool
    decreases before,
{
    &&& before.len() <= after.len()
    &&& forall|i: int|
        0 <= i < before.len() ==> {
            &&& (#[trigger] after[i]).name == before[i].name
            &&& match before[i].kind {
                EntryKind::Mount(_) => after[i].kind == before[i].kind,
                EntryKind::Dir(inner) => after[i].kind is Dir && extends(
                    inner,
                    after[i].kind->Dir_0,
                ),
            }
        }
}

/// A directory holds all that it holds.
pub proof fn lemma_extends_itself<M>(entries: Seq<Entry<M>>)
    ensures
        extends(entries, entries),
    decreases entries,
{
    assert forall|i: int| 0 <= i < entries.len() implies match (#[trigger] entries[i]).kind {
        EntryKind::Mount(_) => true,
        EntryKind::Dir(inner) => extends(inner, inner),
    } by {
        if let EntryKind::Dir(inner) = entries[i].kind {
            lemma_extends_itself(inner);
        }
    }
}

/// The first directory named `name`, where there is one, is such a directory,
/// and none stands before it.
pub proof fn lemma_first_dir<M>(entries: Seq<Entry<M>>, name: Seq<char>, from: int)
    requires
        0 <= from,
    ensures
        match first_dir_from(entries, name, from) {
            Some(at) => {
                &&& from <= at < entries.len()
                &&& is_dir_named(entries[at], name)
                &&& forall|i: int| from <= i < at ==> !is_dir_named(#[trigger] entries[i], name)
            },
            None => forall|i: int|
                from <= i < entries.len() ==> !is_dir_named(#[trigger] entries[i], name),
        },
    decreases entries.len() - from,
{
    if from < entries.len() && !is_dir_named(entries[from], name) {
        lemma_first_dir(entries, name, from + 1);
    }
}

/// Registration only adds: what a directory held before a provider was
/// registered, it holds afterwards, in the same places.
pub proof fn lemma_attach_only_grows<M>(entries: Seq<Entry<M>>, names: Seq<Seq<char>>, provider: M)
    ensures
        extends(entries, attach(entries, names, provider)),
    decreases names.len(),
{
    let after = attach(entries, names, provider);
    if names.len() > 1 {
        lemma_first_dir(entries, names[0], 0);
        if let Some(at) = first_dir(entries, names[0]) {
            lemma_attach_only_grows(entries[at].kind->Dir_0, names.drop_first(), provider);
        }
    }
    assert forall|i: int| 0 <= i < entries.len() implies {
        &&& (#[trigger] after[i]).name == entries[i].name
        &&& match entries[i].kind {
            EntryKind::Mount(_) => after[i].kind == entries[i].kind,
            EntryKind::Dir(inner) => after[i].kind is Dir && extends(inner, after[i].kind->Dir_0),
        }
    } by {
        if let EntryKind::Dir(inner) = entries[i].kind {
            lemma_extends_itself(inner);
        }
    }
}

/// Entries that are no candidates are passed over: a visit that meets none
/// ends with the failure that was in hand.
pub proof fn lemma_tries_without_candidate<R, M: Mount<R>>(
    entries: Seq<Entry<M>>,
    upto: int,
    path: Seq<char>,
    retained: VfsError,
    outcome: Result<R, VfsError>,
)
    requires
        upto <= entries.len(),
        forall|i: int| 0 <= i < upto ==> !is_candidate(#[trigger] entries[i], path),
    ensures
        tries(entries, upto, path, retained, outcome) <==> outcome == failure::<R>(retained),
    decreases upto,
{
    if upto > 0 {
        assert(!is_candidate(entries[upto - 1], path));
        lemma_tries_without_candidate(entries, upto - 1, path, retained, outcome);
    }
}

/// A lookup in a directory without a candidate for the path finds nothing.
pub proof fn lemma_no_candidate_not_found<R, M: Mount<R>>(
    entries: Seq<Entry<M>>,
    path: Seq<char>,
    outcome: Result<R, VfsError>,
)
    requires
        forall|i: int| 0 <= i < entries.len() ==> !is_candidate(#[trigger] entries[i], path),
    ensures
        resolves(entries, path, outcome) <==> outcome == failure::<R>(VfsError::NotFound),
{
    lemma_tries_without_candidate(
        entries,
        entries.len() as int,
        path,
        VfsError::NotFound,
        outcome,
    );
}

/// A lookup among the first entries of a directory does not depend on the
/// entries behind them.
pub proof fn lemma_tries_ignores_later<R, M: Mount<R>>(
    entries: Seq<Entry<M>>,
    more: Seq<Entry<M>>,
    upto: int,
    path: Seq<char>,
    retained: VfsError,
    outcome: Result<R, VfsError>,
)
    requires
        0 <= upto <= entries.len(),
    ensures
        tries(entries + more, upto, path, retained, outcome) == tries(
            entries,
            upto,
            path,
            retained,
            outcome,
        ),
    decreases upto,
{
    let all = entries + more;
    if upto > 0 {
        let entry = entries[upto - 1];
        assert(all[upto - 1] == entry);
        if is_candidate(entry, path) {
            let given = forwarded(entry, path);
            if tries(entries, upto, path, retained, outcome) && !(outcome is Ok && entry_may_open(
                entry,
                given,
                outcome,
            )) {
                let e = choose|e: VfsError|
                    entry_may_open(entry, given, #[trigger] failure::<R>(e)) && tries(
                        entries,
                        upto - 1,
                        path,
                        e,
                        outcome,
                    );
                lemma_tries_ignores_later(entries, more, upto - 1, path, e, outcome);
            }
            if tries(all, upto, path, retained, outcome) && !(outcome is Ok && entry_may_open(
                entry,
                given,
                outcome,
            )) {
                let e = choose|e: VfsError|
                    entry_may_open(entry, given, #[trigger] failure::<R>(e)) && tries(
                        all,
                        upto - 1,
                        path,
                        e,
                        outcome,
                    );
                lemma_tries_ignores_later(entries, more, upto - 1, path, e, outcome);
            }
        } else {
            lemma_tries_ignores_later(entries, more, upto - 1, path, retained, outcome);
        }
    }
}

/// The newest first: a lookup in a directory to which a candidate was
/// appended ends as that candidate does if it succeeds, and goes on to the
/// entries that were there before only with a failure of it.
pub proof fn lemma_newest_first<R, M: Mount<R>>(
    entries: Seq<Entry<M>>,
    newest: Entry<M>,
    path: Seq<char>,
    outcome: Result<R, VfsError>,
)
    requires
        segments(path).len() >= 2,
        is_candidate(newest, path),
    ensures
        resolves(entries.push(newest), path, outcome) <==> {
            ||| outcome is Ok && entry_may_open(newest, forwarded(newest, path), outcome)
            ||| exists|e: VfsError|
                entry_may_open(newest, forwarded(newest, path), #[trigger] failure::<R>(e))
                    && tries(entries, entries.len() as int, path, e, outcome)
        },
{
    let all = entries.push(newest);
    let n = entries.len() as int;
    assert(all =~= entries + seq![newest]);
    assert(all[n] == newest);
    let given = forwarded(newest, path);
    if resolves(all, path, outcome) && !(outcome is Ok && entry_may_open(newest, given, outcome)) {
        let e = choose|e: VfsError|
            entry_may_open(newest, given, #[trigger] failure::<R>(e)) && tries(
                all,
                n,
                path,
                e,
                outcome,
            );
        lemma_tries_ignores_later(entries, seq![newest], n, path, e, outcome);
    }
    if exists|e: VfsError|
        entry_may_open(newest, given, #[trigger] failure::<R>(e)) && tries(
            entries,
            n,
            path,
            e,
            outcome,
        ) {
        let e = choose|e: VfsError|
            entry_may_open(newest, given, #[trigger] failure::<R>(e)) && tries(
                entries,
                n,
                path,
                e,
                outcome,
            );
        lemma_tries_ignores_later(entries, seq![newest], n, path, e, outcome);
    }
}

/// The oldest entry of a directory, if it is a candidate, has the last word:
/// a lookup that comes as far as this entry ends as the entry does.
pub proof fn lemma_oldest_entry<R, M: Mount<R>>(
    entries: Seq<Entry<M>>,
    path: Seq<char>,
    retained: VfsError,
    outcome: Result<R, VfsError>,
)
    requires
        entries.len() >= 1,
        is_candidate(entries[0], path),
    ensures
        tries(entries, 1, path, retained, outcome) <==> entry_may_open(
            entries[0],
            forwarded(entries[0], path),
            outcome,
        ),
{
    let given = forwarded(entries[0], path);
    if tries(entries, 1, path, retained, outcome) && !(outcome is Ok && entry_may_open(
        entries[0],
        given,
        outcome,
    )) {
        let e = choose|e: VfsError|
            entry_may_open(entries[0], given, #[trigger] failure::<R>(e)) && tries(
                entries,
                0,
                path,
                e,
                outcome,
            );
        assert(outcome == failure::<R>(e));
    }
    if entry_may_open(entries[0], given, outcome) {
        match outcome {
            Ok(_) => {},
            Err(e) => {
                assert(outcome == failure::<R>(e));
                assert(tries(entries, 0, path, e, outcome));
            },
        }
    }
}

/// A directory with one entry, which is a candidate, resolves as that entry
/// does.
pub proof fn lemma_sole_candidate<R, M: Mount<R>>(
    entry: Entry<M>,
    path: Seq<char>,
    outcome: Result<R, VfsError>,
)
    requires
        segments(path).len() >= 2,
        is_candidate(entry, path),
    ensures
        resolves(seq![entry], path, outcome) <==> entry_may_open(
            entry,
            forwarded(entry, path),
            outcome,
        ),
{
    lemma_oldest_entry(seq![entry], path, VfsError::NotFound, outcome);
}

/// The directory that a registration under `names` leaves in an empty one
/// hands a lookup below those names to the provider, with what follows them.
pub proof fn lemma_mount_dispatch<R, M: Mount<R>>(
    provider: M,
    names: Seq<Seq<char>>,
    path: Seq<char>,
    outcome: Result<R, VfsError>,
)
    requires
        names.len() >= 1,
        segments(path).len() > names.len(),
        forall|i: int| 0 <= i < names.len() ==> segments(path)[i] == #[trigger] names[i],
    ensures
        resolves(attach(Seq::empty(), names, provider), path, outcome) <==> provider.may_open(
            descend(path, names.len()),
            outcome,
        ),
    decreases names.len(),
{
    let none = Seq::<Entry<M>>::empty();
    let below = remainder(path);
    lemma_head_and_remainder(path);
    lemma_segments_are_names(path);
    assert(head_of(path) == names[0]);
    assert(descend(path, names.len()) == descend(below, (names.len() - 1) as nat));
    if names.len() == 1 {
        let entry = mount_entry(names, provider);
        assert(none.push(entry) =~= seq![entry]);
        lemma_sole_candidate(entry, path, outcome);
    } else {
        let rest = names.drop_first();
        let entry = Entry { name: names[0], kind: EntryKind::Dir(attach(none, rest, provider)) };
        assert(none.push(entry) =~= seq![entry]);
        lemma_sole_candidate(entry, path, outcome);
        assert forall|i: int| 0 <= i < rest.len() implies segments(below)[i]
            == #[trigger] rest[i] by {
            assert(segments(path)[i + 1] == names[i + 1]);
        }
        lemma_mount_dispatch(provider, rest, below, outcome);
    }
}

/// One provider at the root: it is handed every path of two segments or
/// more, whole.
pub proof fn lemma_root_mount_receives_whole_path<R, M: Mount<R>>(
    provider: M,
    path: Seq<char>,
    outcome: Result<R, VfsError>,
)
    requires
        segments(path).len() >= 2,
    ensures
        resolves(attach(Seq::empty(), Seq::empty(), provider), path, outcome)
            <==> provider.may_open(path, outcome),
{
    let entry = mount_entry(Seq::empty(), provider);
    assert(Seq::<Entry<M>>::empty().push(entry) =~= seq![entry]);
    lemma_sole_candidate(entry, path, outcome);
}

/// Whether a lookup that tries `second` and then, if it failed, `first`, both
/// with `path`, may end in `outcome`.
pub open spec fn second_then_first<R, M: Mount<R>>(
    first: M,
    second: M,
    path: Seq<char>,
    outcome: Result<R, VfsError>,
) -> bool {
    ||| outcome is Ok && second.may_open(path, outcome)
    ||| (exists|e: VfsError| second.may_open(path, #[trigger] failure::<R>(e))) && first.may_open(
        path,
        outcome,
    )
}

/// The directory that two registrations under the same names leave in an
/// empty one.
pub open spec fn twice<M>(names: Seq<Seq<char>>, first: M, second: M) -> Seq<Entry<M>> {
    attach(attach(Seq::empty(), names, first), names, second)
}

/// Overlay: two providers registered under the same path are both kept. A
/// lookup below that path tries the second, and the first only if the second
/// failed; both are handed what follows the path.
pub proof fn lemma_overlay<R, M: Mount<R>>(
    names: Seq<Seq<char>>,
    first: M,
    second: M,
    path: Seq<char>,
    outcome: Result<R, VfsError>,
)
    requires
        names.len() >= 1,
        segments(path).len() > names.len(),
        forall|i: int| 0 <= i < names.len() ==> segments(path)[i] == #[trigger] names[i],
    ensures
        resolves(twice(names, first, second), path, outcome) <==> second_then_first(
            first,
            second,
            descend(path, names.len()),
            outcome,
        ),
    decreases names.len(),
{
    let none = Seq::<Entry<M>>::empty();
    let below = remainder(path);
    lemma_head_and_remainder(path);
    lemma_segments_are_names(path);
    assert(head_of(path) == names[0]);
    assert(descend(path, names.len()) == descend(below, (names.len() - 1) as nat));
    if names.len() == 1 {
        let older = mount_entry(names, first);
        let newer = mount_entry(names, second);
        assert(twice(names, first, second) =~= seq![older].push(newer));
        lemma_newest_first(seq![older], newer, path, outcome);
        if second_then_first(first, second, below, outcome) && !(outcome is Ok
            && second.may_open(below, outcome)) {
            let e = choose|e: VfsError| second.may_open(below, #[trigger] failure::<R>(e));
            lemma_oldest_entry(seq![older], path, e, outcome);
        }
        if resolves(twice(names, first, second), path, outcome) && !(outcome is Ok
            && second.may_open(below, outcome)) {
            let e = choose|e: VfsError|
                entry_may_open(newer, below, #[trigger] failure::<R>(e)) && tries(
                    seq![older],
                    1,
                    path,
                    e,
                    outcome,
                );
            lemma_oldest_entry(seq![older], path, e, outcome);
        }
    } else {
        let rest = names.drop_first();
        let once = attach(none, rest, first);
        let inner = twice(rest, first, second);
        let before = Entry { name: names[0], kind: EntryKind::Dir(once) };
        let after = Entry { name: names[0], kind: EntryKind::Dir(inner) };
        assert(attach(none, names, first) =~= seq![before]);
        assert(first_dir(seq![before], names[0]) == Some(0int));
        assert(twice(names, first, second) =~= seq![after]);
        lemma_sole_candidate(after, path, outcome);
        assert forall|i: int| 0 <= i < rest.len() implies segments(below)[i]
            == #[trigger] rest[i] by {
            assert(segments(path)[i + 1] == names[i + 1]);
        }
        lemma_overlay(rest, first, second, below, outcome);
    }
}

/// A provider at the root stands behind everything: when a provider that
/// was registered later, under some names, can only fail on a lookup below
/// those names, the lookup ends as the provider at the root does, and that
/// one is handed the whole path.
pub proof fn lemma_root_fallthrough<R, M: Mount<R>>(
    catch_all: M,
    shadow: M,
    names: Seq<Seq<char>>,
    path: Seq<char>,
    outcome: Result<R, VfsError>,
)
    requires
        names.len() >= 1,
        segments(path).len() > names.len(),
        forall|i: int| 0 <= i < names.len() ==> segments(path)[i] == #[trigger] names[i],
        forall|any: Result<R, VfsError>|
            any is Ok ==> !#[trigger] shadow.may_open(descend(path, names.len()), any),
        exists|e: VfsError| shadow.may_open(descend(path, names.len()), #[trigger] failure::<R>(e)),
    ensures
        resolves(
            attach(attach(Seq::empty(), Seq::empty(), catch_all), names, shadow),
            path,
            outcome,
        ) <==> catch_all.may_open(path, outcome),
{
    let none = Seq::<Entry<M>>::empty();
    let root = mount_entry(Seq::empty(), catch_all);
    let below = remainder(path);
    let given = descend(path, names.len());
    lemma_head_and_remainder(path);
    lemma_segments_are_names(path);
    assert(head_of(path) == names[0]);
    assert(given == descend(below, (names.len() - 1) as nat));
    assert(attach(none, Seq::empty(), catch_all) =~= seq![root]);
    let newest = if names.len() == 1 {
        mount_entry(names, shadow)
    } else {
        Entry { name: names[0], kind: EntryKind::Dir(attach(none, names.drop_first(), shadow)) }
    };
    assert(first_dir_from(seq![root], names[0], 1) is None);
    assert(attach(seq![root], names, shadow) =~= seq![root].push(newest));
    lemma_newest_first(seq![root], newest, path, outcome);
    assert forall|any: Result<R, VfsError>|
        entry_may_open(newest, below, any) == #[trigger] shadow.may_open(given, any) by {
        if names.len() > 1 {
            let rest = names.drop_first();
            assert forall|i: int| 0 <= i < rest.len() implies segments(below)[i]
                == #[trigger] rest[i] by {
                assert(segments(path)[i + 1] == names[i + 1]);
            }
            lemma_mount_dispatch(shadow, rest, below, any);
        }
    }
    if catch_all.may_open(path, outcome) {
        let e = choose|e: VfsError| shadow.may_open(given, #[trigger] failure::<R>(e));
        lemma_oldest_entry(seq![root], path, e, outcome);
    }
    if resolves(seq![root].push(newest), path, outcome) {
        if outcome is Ok && entry_may_open(newest, below, outcome) {
            assert(shadow.may_open(given, outcome));
        } else {
            let e = choose|e: VfsError|
                entry_may_open(newest, below, #[trigger] failure::<R>(e)) && tries(
                    seq![root],
                    1,
                    path,
                    e,
                    outcome,
                );
            lemma_oldest_entry(seq![root], path, e, outcome);
        }
    }
}

} // verus!
