//! A virtual filesystem namespace: providers mounted at paths, composed into
//! one hierarchy, and looked up newest first.
//!
//! `mount` registers a provider under a path and only ever appends. `open`
//! walks the tree from the root: at each level it visits the entries whose
//! name is the head of the path, and those with the empty name, the last
//! registered first, and hands back the first success.
//!
//! - [`grammar`]: what a path means, over sequences of characters.
//! - [`path`]: the executable path types.
//! - [`model`]: the namespace as a mathematical value, and what registration
//!   and lookup do to it.
//! - [`laws`]: what follows for every namespace.
//! - [`physical`]: what the provider for a folder of the disk decides.
//! - [`error`]: the failures.
//!
//! Neither `mount` nor `open` rejects a path with a `..` segment: callers use
//! [`path::VfsPath::validate`] where paths enter.

pub mod error;
pub mod grammar;
pub mod laws;
pub mod model;
pub mod path;
pub mod physical;

use crate::error::VfsError;
use crate::grammar::{
    head_of, lemma_head_and_remainder, lemma_segments_are_names, remainder, segments,
};
use crate::model::{
    attach, entry_may_open, first_dir, first_dir_from, is_candidate, is_dir_named, mount_entry,
    resolves, tries, Entry, EntryKind,
};
use crate::path::{same_text, VfsPath};
use vstd::prelude::*;

verus! {

/// A provider of resources of type `R`: what can be mounted in a namespace.
pub trait Mount<R> {
    /// Whether opening `path` may end in `outcome`. A provider that states
    /// nothing here may end in any outcome.
    open spec fn may_open(&self, path: Seq<char>, outcome: Result<R, VfsError>) -> bool {
        true
    }

    /// Opens the resource at `path`, or fails.
    fn open(&self, path: VfsPath<'_>) -> (outcome: Result<R, VfsError>)
        ensures
            self.may_open(path@, outcome),
    ;
}

/// A directory of the tree: its nodes in the order of registration.
struct VirtualDir<M> {
    nodes: Vec<Node<M>>,
}

/// A named node of a directory. The empty name marks a mount that claims
/// every path that reaches its directory.
struct Node<M> {
    name: String,
    kind: NodeKind<M>,
}

/// What a node is: a directory, or a mounted provider.
enum NodeKind<M> {
    Dir(VirtualDir<M>),
    Mount(M),
}

impl<M> Node<M> {
    /// The entry that this node stands for.
    spec fn model(self) -> Entry<M>
        decreases self,
    {
        Entry {
            name: self.name@,
            kind: match self.kind {
                NodeKind::Dir(dir) => EntryKind::Dir(dir.model()),
                NodeKind::Mount(provider) => EntryKind::Mount(provider),
            },
        }
    }

    /// Whether this node is a directory.
    fn is_dir(&self) -> (yes: bool)
        ensures
            yes == (self.model().kind is Dir),
    {
        match self.kind {
            NodeKind::Dir(_) => true,
            _ => false,
        }
    }

    /// Registers `mount` under `target` in the directory that this node is.
    fn mount(&mut self, target: VfsPath<'_>, mount: M)
        requires
            old(self).model().kind is Dir,
        ensures
            final(self).model() == (Entry {
                name: old(self).model().name,
                kind: EntryKind::Dir(
                    attach(old(self).model().kind->Dir_0, segments(target@), mount),
                ),
            }),
        decreases segments(target@).len(), 1nat,
    {
        if let NodeKind::Dir(dir) = &mut self.kind {
            dir.mount(target, mount);
        }
    }

    /// An empty directory named `name`.
    fn create_dir(name: &str) -> (node: Self)
        ensures
            node.model() == (Entry::<M> { name: name@, kind: EntryKind::Dir(Seq::empty()) }),
    {
        let dir = VirtualDir { nodes: Vec::new() };
        proof {
            assert(dir.model() =~= Seq::<Entry<M>>::empty());
        }
        Node { name: name.to_owned(), kind: NodeKind::Dir(dir) }
    }

    /// The provider `mount` under the name `name`.
    fn create_mount(name: &str, mount: M) -> (node: Self)
        ensures
            node.model() == (Entry { name: name@, kind: EntryKind::Mount(mount) }),
    {
        Node { name: name.to_owned(), kind: NodeKind::Mount(mount) }
    }
}

impl<M> VirtualDir<M> {
    /// The entries that this directory stands for.
    spec fn model(self) -> Seq<Entry<M>>
        decreases self,
    {
        Seq::new(
            self.nodes@.len(),
            |i: int|
                if 0 <= i < self.nodes@.len() {
                    self.nodes@[i].model()
                } else {
                    arbitrary()
                },
        )
    }

    /// The index of the first directory node named `name`.
    fn find_dir(&self, name: &str) -> (found: Option<usize>)
        ensures
            match found {
                Some(i) => {
                    &&& i < self.nodes@.len()
                    &&& first_dir(self.model(), name@) == Some(i as int)
                    &&& is_dir_named(self.nodes@[i as int].model(), name@)
                },
                None => first_dir(self.model(), name@) is None,
            },
    {
        let mut i: usize = 0;
        while i < self.nodes.len()
            invariant
                i <= self.nodes@.len(),
                first_dir_from(self.model(), name@, i as int) == first_dir(self.model(), name@),
            decreases self.nodes@.len() - i,
        {
            let node = &self.nodes[i];
            if node.is_dir() && same_text(node.name.as_str(), name) {
                return Some(i);
            }
            i += 1;
        }
        None
    }

    /// Registers `mount` under `target`, below this directory.
    fn mount(&mut self, target: VfsPath<'_>, mount: M)
        ensures
            final(self).model() == attach(old(self).model(), segments(target@), mount),
        decreases segments(target@).len(), 0nat,
    {
        let (head, tail) = target.take_head();
        proof {
            lemma_head_and_remainder(target@);
        }
        match tail {
            None => {
                let node = Node::create_mount(head, mount);
                self.nodes.push(node);
                proof {
                    assert(self.model() =~= old(self).model().push(
                        mount_entry(segments(target@), mount),
                    ));
                }
            },
            Some(rest) => {
                match self.find_dir(head) {
                    Some(i) => {
                        let node = &mut self.nodes[i];
                        node.mount(rest, mount);
                        proof {
                            assert(self.model() =~= attach(
                                old(self).model(),
                                segments(target@),
                                mount,
                            ));
                        }
                    },
                    None => {
                        let mut new_dir = Node::create_dir(head);
                        new_dir.mount(rest, mount);
                        self.nodes.push(new_dir);
                        proof {
                            assert(self.model() =~= attach(
                                old(self).model(),
                                segments(target@),
                                mount,
                            ));
                        }
                    },
                }
            },
        }
    }

    /// Looks `path` up below this directory.
    fn open<R>(&self, path: VfsPath<'_>) -> (outcome: Result<R, VfsError>) where M: Mount<R>
        ensures
            resolves(self.model(), path@, outcome),
        decreases self,
    {
        let (head, tail) = path.take_head();
        let rest = match tail {
            None => {
                return Err(VfsError::NotFound);
            },
            Some(rest) => rest,
        };
        let mut retained = VfsError::NotFound;
        let mut i: usize = self.nodes.len();
        while i > 0
            invariant
                i <= self.nodes@.len(),
                segments(path@).len() >= 2,
                head@ == head_of(path@),
                rest@ == remainder(path@),
                forall|any: Result<R, VfsError>| #[trigger]
                    tries(self.model(), i as int, path@, retained, any) ==> resolves(
                        self.model(),
                        path@,
                        any,
                    ),
            decreases i,
        {
            i -= 1;
            let node = &self.nodes[i];
            let ghost entries = self.model();
            let ghost before = retained;
            proof {
                assert(entries[i as int] == node.model());
            }
            let claims_all = node.name.as_str().is_empty();
            if claims_all || same_text(node.name.as_str(), head) {
                let forwarded = if claims_all {
                    path
                } else {
                    rest
                };
                let attempt = match &node.kind {
                    NodeKind::Mount(provider) => provider.open(forwarded),
                    NodeKind::Dir(dir) => dir.open(forwarded),
                };
                proof {
                    assert(is_candidate(entries[i as int], path@));
                    assert(entry_may_open(entries[i as int], forwarded@, attempt));
                }
                match attempt {
                    Ok(resource) => {
                        proof {
                            assert(tries(entries, i + 1, path@, before, Ok(resource)));
                        }
                        return Ok(resource);
                    },
                    Err(failure) => {
                        retained = failure;
                        proof {
                            assert forall|any: Result<R, VfsError>| #[trigger]
                                tries(entries, i as int, path@, retained, any) implies resolves(
                                entries,
                                path@,
                                any,
                            ) by {
                                assert(attempt == model::failure::<R>(failure));
                                assert(tries(entries, i + 1, path@, before, any));
                            }
                        }
                    },
                }
            } else {
                proof {
                    assert(!is_candidate(entries[i as int], path@));
                    assert forall|any: Result<R, VfsError>| #[trigger]
                        tries(entries, i as int, path@, retained, any) implies resolves(
                        entries,
                        path@,
                        any,
                    ) by {
                        assert(tries(entries, i + 1, path@, before, any));
                    }
                }
            }
        }
        proof {
            assert(tries(self.model(), 0, path@, retained, Err(retained)));
        }
        Err(retained)
    }
}

/// The namespace: one root directory, to which providers of type `M` are
/// mounted and in which paths are looked up. Providers of different kinds
/// share a namespace as `Box<dyn Mount<R>>`. A namespace is a provider too,
/// and can be mounted in another.
pub struct VFS<M> {
    root: VirtualDir<M>,
}

impl<M> View for VFS<M> {
    type V = Seq<Entry<M>>;

    /// The entries of the root directory.
    closed spec fn view(&self) -> Seq<Entry<M>> {
        self.root.model()
    }
}

impl<M> Default for VFS<M> {
    /// An empty namespace.
    fn default() -> (vfs: Self)
        ensures
            vfs@ == Seq::<Entry<M>>::empty(),
    {
        VFS::new()
    }
}

impl<M> VFS<M> {
    /// An empty namespace.
    pub fn new() -> (vfs: Self)
        ensures
            vfs@ == Seq::<Entry<M>>::empty(),
    {
        let vfs = VFS { root: VirtualDir { nodes: Vec::new() } };
        proof {
            assert(vfs@ =~= Seq::<Entry<M>>::empty());
        }
        vfs
    }

    /// Registers a provider whose construction may have failed, as that of a
    /// provider for a folder does when the folder is no directory. A failed
    /// construction leaves the namespace as it was and is handed back.
    pub fn mount_physical(&mut self, target: VfsPath<'_>, made: Result<M, VfsError>) -> (done:
        Result<(), VfsError>)
        ensures
            match made {
                Ok(mount) => done is Ok && final(self)@ == attach(
                    old(self)@,
                    segments(target@),
                    mount,
                ),
                Err(error) => done == Err::<(), VfsError>(error) && final(self)@ == old(self)@,
            },
    {
        match made {
            Ok(mount) => {
                self.mount(target, mount);
                Ok(())
            },
            Err(error) => Err(error),
        }
    }

    /// Registers `mount` under `target`. A target without segments is the
    /// root: the provider is then given every path that is looked up, whole.
    pub fn mount(&mut self, target: VfsPath<'_>, mount: M)
        ensures
            final(self)@ == attach(old(self)@, segments(target@), mount),
    {
        let (head, tail) = target.take_head();
        if head.is_empty() {
            let node = Node::create_mount("", mount);
            self.root.nodes.push(node);
            proof {
                reveal_strlit("");
                lemma_segments_are_names(target@);
                assert(""@ =~= Seq::<char>::empty());
                assert(self@ =~= old(self)@.push(mount_entry(segments(target@), mount)));
            }
        } else {
            self.root.mount(target, mount);
        }
    }
}

impl<R, M: Mount<R>> Mount<R> for VFS<M> {
    /// A namespace may end in what a lookup in its root may end in.
    open spec fn may_open(&self, path: Seq<char>, outcome: Result<R, VfsError>) -> bool {
        resolves(self@, path, outcome)
    }

    /// Looks `path` up in the namespace.
    fn open(&self, path: VfsPath<'_>) -> (outcome: Result<R, VfsError>) {
        self.root.open(path)
    }
}

impl<R> Mount<R> for Box<dyn Mount<R>> {
    /// A boxed provider may end in what the provider in the box may end in.
    open spec fn may_open(&self, path: Seq<char>, outcome: Result<R, VfsError>) -> bool {
        (**self).may_open(path, outcome)
    }

    /// Opens `path` with the provider in the box.
    fn open(&self, path: VfsPath<'_>) -> (outcome: Result<R, VfsError>) {
        (**self).open(path)
    }
}

} // verus!
