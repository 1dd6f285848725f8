//! The executable tree: nodes, path resolution and mutation.
//!
//! A `Node` is either a directory with named children or a file (`Vnode`)
//! holding a byte blob. Every node carries the numeric identity that the
//! store hands out as an opaque handle. Each operation here is proved to
//! implement its counterpart in [`crate::model`] exactly.

use crate::errors::FsError;
use crate::model::{
    append_entries, direct_index, entry_index, head_of, lemma_append_entries_skip,
    lemma_append_err_unchanged, lemma_create_err_unchanged, lemma_direct_index_skip,
    lemma_entry_index, lemma_entry_index_skip, lemma_find_entries_skip,
    lemma_lookup_dir_entries_by_index, lemma_lookup_entries_by_index, lemma_remove_entries_skip,
    lemma_remove_none_unchanged, lemma_sep_at, lemma_sep_at_is, remove_entries, sep_at,
    seq_swap_remove, spec_append, spec_create, spec_find, spec_lookup, spec_lookup_dir,
    spec_remove, tail_of, TreeView, SEP,
};
use vstd::prelude::*;
use vstd::slice::{slice_subrange, slice_to_vec};

verus! {

/// A file node: an identity and an owned, resizable byte blob, initially
/// empty.
pub struct RustNode {
    pub id: u64,
    pub data: Vec<u8>,
}

/// One node of the tree: a directory with its (name, child) sequence in
/// insertion order, or a file. The first field of a directory is its
/// identity.
pub enum Node {
    Directory(u64, Vec<(Vec<u8>, Node)>),
    Vnode(RustNode),
}

impl RustNode {
    /// The file's abstract value.
    pub open spec fn deep_view(self) -> TreeView {
        TreeView::File { id: self.id, data: self.data@ }
    }

    /// The file's current contents, whole; there is no seeking or offset.
    pub fn read(&self) -> (r: &[u8])
        ensures
            r@ == self.data@,
    {
        self.data.as_slice()
    }

    /// Appends `bytes` at the end of the blob. Writes never overwrite or
    /// truncate: the blob only grows.
    pub fn write(&mut self, bytes: &[u8])
        ensures
            final(self).id == old(self).id,
            final(self).data@ == old(self).data@ + bytes@,
    {
        self.data.extend_from_slice(bytes);
    }
}

impl Node {
    /// The node's abstract value.
    pub open spec fn deep_view(self) -> TreeView
        decreases self,
    {
        match self {
            Node::Vnode(f) => f.deep_view(),
            Node::Directory(id, children) => (TreeView::Dir {
                id,
                entries: Node::entries_view(children@),
            }),
        }
    }

    /// The abstract value of a child sequence.
    pub open spec fn entries_view(s: Seq<(Vec<u8>, Node)>) -> Seq<(Seq<u8>, TreeView)>
        decreases s,
    {
        if s.len() == 0 {
            Seq::empty()
        } else {
            seq![(s[0].0@, s[0].1.deep_view())] + Node::entries_view(
                s.subrange(1, s.len() as int),
            )
        }
    }
}

impl View for Node {
    type V = TreeView;

    open spec fn view(&self) -> TreeView {
        self.deep_view()
    }
}

/// `entries_view` maps the sequence element by element.
pub broadcast proof fn lemma_entries_view(s: Seq<(Vec<u8>, Node)>)
    ensures
        (#[trigger] Node::entries_view(s)).len() == s.len(),
        forall|i: int|
            0 <= i < s.len() ==> Node::entries_view(s)[i] == (s[i].0@, s[i].1.deep_view()),
    decreases s.len(),
{
    if s.len() > 0 {
        lemma_entries_view(s.subrange(1, s.len() as int));
    }
}

/// Pushing an entry pushes its abstract value.
pub proof fn lemma_entries_view_push(s: Seq<(Vec<u8>, Node)>, e: (Vec<u8>, Node))
    ensures
        Node::entries_view(s.push(e)) =~= Node::entries_view(s).push((e.0@, e.1.deep_view())),
{
    broadcast use lemma_entries_view;

}

/// Updating an entry updates its abstract value.
pub proof fn lemma_entries_view_update(s: Seq<(Vec<u8>, Node)>, j: int, e: (Vec<u8>, Node))
    requires
        0 <= j < s.len(),
    ensures
        Node::entries_view(s.update(j, e)) =~= Node::entries_view(s).update(
            j,
            (e.0@, e.1.deep_view()),
        ),
{
    broadcast use lemma_entries_view;

}

/// Dropping the last entry drops its abstract value.
pub proof fn lemma_entries_view_drop_last(s: Seq<(Vec<u8>, Node)>)
    requires
        s.len() > 0,
    ensures
        Node::entries_view(s.drop_last()) =~= Node::entries_view(s).drop_last(),
{
    broadcast use lemma_entries_view;

}

/// A swap-with-last removal on the entries is the same removal on their
/// abstract values.
pub proof fn lemma_entries_view_swap_remove(s: Seq<(Vec<u8>, Node)>, j: int)
    requires
        0 <= j < s.len(),
    ensures
        Node::entries_view(s.update(j, s.last()).drop_last()) =~= seq_swap_remove(
            Node::entries_view(s),
            j,
        ),
{
    broadcast use lemma_entries_view;

    lemma_entries_view_update(s, j, s.last());
    lemma_entries_view_drop_last(s.update(j, s.last()));
}

/// Byte-for-byte equality of two slices.
fn bytes_eq(a: &[u8], b: &[u8]) -> (r: bool)
    ensures
        r == (a@ == b@),
{
    if a.len() != b.len() {
        return false;
    }
    let mut i: usize = 0;
    while i < a.len()
        invariant
            i <= a.len(),
            a.len() == b.len(),
            forall|j: int| 0 <= j < i ==> a@[j] == b@[j],
        decreases a.len() - i,
    {
        if a[i] != b[i] {
            return false;
        }
        i += 1;
    }
    proof {
        assert(a@ =~= b@);
    }
    true
}

/// Index of the first separator in `path`, or its length when none occurs.
fn find_sep(path: &[u8]) -> (r: usize)
    ensures
        r as int == sep_at(path@),
        r <= path.len(),
{
    let mut i: usize = 0;
    while i < path.len()
        invariant
            i <= path.len(),
            forall|j: int| 0 <= j < i ==> path@[j] != SEP,
        decreases path.len() - i,
    {
        if path[i] == SEP {
            proof {
                lemma_sep_at_is(path@, i as int);
            }
            return i;
        }
        i += 1;
    }
    proof {
        lemma_sep_at_is(path@, path@.len() as int);
    }
    i
}

/// Index of the first child named `name`, if any; the first match wins.
fn find_child(children: &Vec<(Vec<u8>, Node)>, name: &[u8]) -> (r: Option<usize>)
    ensures
        match r {
            Some(j) => j < children@.len() && entry_index(
                Node::entries_view(children@),
                0,
                name@,
            ) == Some(j as int),
            None => entry_index(Node::entries_view(children@), 0, name@) is None,
        },
{
    proof {
        broadcast use lemma_entries_view;

    }
    let ghost ev = Node::entries_view(children@);
    let mut i: usize = 0;
    while i < children.len()
        invariant
            i <= children.len(),
            ev == Node::entries_view(children@),
            ev.len() == children@.len(),
            forall|j: int| 0 <= j < children@.len() ==> ev[j].0 == children@[j].0@,
            forall|j: int| 0 <= j < i ==> ev[j].0 != name@,
        decreases children.len() - i,
    {
        if bytes_eq(children[i].0.as_slice(), name) {
            proof {
                lemma_entry_index_skip(ev, i as int, name@);
            }
            return Some(i);
        }
        i += 1;
    }
    proof {
        lemma_entry_index_skip(ev, children@.len() as int, name@);
        lemma_entry_index(ev, children@.len() as int, name@);
    }
    None
}

impl Node {
    /// Resolves `path` to a file: the path is split at its first separator,
    /// the head selects a child by name, and a file answers for itself
    /// whatever path text remains — a deliberate simplification, not strict
    /// VFS semantics.
    pub fn lookup(&self, path: &[u8]) -> (r: Option<&RustNode>)
        ensures
            match r {
                Some(f) => spec_lookup(self@, path@) == Some((f.id, f.data@)),
                None => spec_lookup(self@, path@) is None,
            },
        decreases *self,
    {
        match self {
            Node::Vnode(f) => Some(f),
            Node::Directory(id, children) => {
                let sep = find_sep(path);
                proof {
                    lemma_sep_at(path@);
                }
                let head = slice_subrange(path, 0, sep);
                let rest = if sep < path.len() {
                    slice_subrange(path, sep + 1, path.len())
                } else {
                    slice_subrange(path, path.len(), path.len())
                };
                proof {
                    assert(head@ == head_of(path@));
                    assert(rest@ == tail_of(path@));
                    lemma_lookup_entries_by_index(Node::entries_view(children@), 0, path@);
                    broadcast use lemma_entries_view;

                }
                match find_child(children, head) {
                    Some(j) => {
                        proof {
                            assert(decreases_to!(*self => self->Directory_1));
                            assert(self->Directory_1 == *children);
                            assert(decreases_to!(*children => children@));
                            assert(decreases_to!(children@ => children@[j as int]));
                            assert(decreases_to!(
                                children@[j as int] => children@[j as int].1));
                        }
                        children[j].1.lookup(rest)
                    },
                    None => None,
                }
            },
        }
    }

    /// Creates an empty file at `path`, resolving one component at a time.
    /// Directories missing on the way are created; a file on the way is a
    /// `TypeMismatch`, an empty component is `NotFound`, and a final name
    /// already present is `AlreadyExists`. Fresh identities are drawn from
    /// `next`; a failure leaves the tree and the counter untouched.
    pub fn create(&mut self, path: &[u8], next: &mut u64) -> (r: Result<u64, FsError>)
        requires
            *old(next) as int + path@.len() + 1 <= u64::MAX as int,
        ensures
            ({
                let out = spec_create(old(self)@, path@, *old(next) as int);
                &&& r == out.res
                &&& final(self)@ == out.tree
                &&& *final(next) as int == out.next
            }),
        decreases path@.len(),
    {
        match self {
            Node::Vnode(_) => Err(FsError::TypeMismatch),
            Node::Directory(id, children) => {
                let ghost ev = Node::entries_view(children@);
                let sep = find_sep(path);
                proof {
                    lemma_sep_at(path@);
                    broadcast use lemma_entries_view;

                }
                let head = slice_subrange(path, 0, sep);
                proof {
                    assert(head@ == head_of(path@));
                }
                if sep == 0 {
                    return Err(FsError::NotFound);
                }
                if sep == path.len() {
                    // No separator: `path` itself is the new file's name.
                    match find_child(children, head) {
                        Some(_) => Err(FsError::AlreadyExists),
                        None => {
                            let fid = *next;
                            *next = fid + 1;
                            let entry = (slice_to_vec(head), Node::Vnode(
                                RustNode { id: fid, data: Vec::new() },
                            ));
                            proof {
                                lemma_entries_view_push(children@, entry);
                            }
                            children.push(entry);
                            proof {
                                assert(Node::entries_view(children@) =~= ev.push(
                                    (head@, TreeView::File { id: fid, data: Seq::empty() }),
                                ));
                            }
                            Ok(fid)
                        },
                    }
                } else {
                    let rest = slice_subrange(path, sep + 1, path.len());
                    proof {
                        assert(rest@ == tail_of(path@));
                    }
                    match find_child(children, head) {
                        Some(j) => {
                            proof {
                                lemma_entry_index(ev, 0, head@);
                            }
                            let ghost child0 = children@[j as int];
                            let r = children[j].1.create(rest, next);
                            proof {
                                let sub = spec_create(
                                    child0.1@,
                                    rest@,
                                    *old(next) as int,
                                );
                                lemma_entries_view_update(
                                    old(self)->Directory_1@,
                                    j as int,
                                    children@[j as int],
                                );
                                if r is Err {
                                    lemma_create_err_unchanged(
                                        child0.1@,
                                        rest@,
                                        *old(next) as int,
                                    );
                                    assert(Node::entries_view(children@) =~= ev);
                                } else {
                                    assert(Node::entries_view(children@) =~= ev.update(
                                        j as int,
                                        (head@, sub.tree),
                                    ));
                                }
                            }
                            r
                        },
                        None => {
                            let did = *next;
                            *next = did + 1;
                            let mut fresh = Node::Directory(did, Vec::new());
                            proof {
                                assert(fresh@ == (TreeView::Dir {
                                    id: did,
                                    entries: Seq::<(Seq<u8>, TreeView)>::empty(),
                                }));
                            }
                            let r = fresh.create(rest, next);
                            match r {
                                Ok(fid) => {
                                    let entry = (slice_to_vec(head), fresh);
                                    proof {
                                        lemma_entries_view_push(children@, entry);
                                    }
                                    children.push(entry);
                                    Ok(fid)
                                },
                                Err(e) => {
                                    *next = did;
                                    Err(e)
                                },
                            }
                        },
                    }
                }
            },
        }
    }

    /// The node's own identity.
    pub fn node_id(&self) -> (r: u64)
        ensures
            r == self@.node_id(),
    {
        match self {
            Node::Directory(id, _) => *id,
            Node::Vnode(f) => f.id,
        }
    }

    /// Removes the node with identity `target` from the subtree below this
    /// node, returning the removed subtree whole. Each directory first scans
    /// its own entries for the identity, then lets the children search depth
    /// first. The removed entry leaves by a swap with the last sibling, so
    /// sibling order is not stable afterwards. The node itself is never a
    /// candidate, so a store's root cannot be removed.
    pub fn remove(&mut self, target: u64) -> (r: Option<Node>)
        ensures
            ({
                let out = spec_remove(old(self)@, target);
                &&& final(self)@ == out.tree
                &&& match r {
                    Some(n) => out.removed == Some(n@),
                    None => out.removed is None,
                }
            }),
        decreases old(self)@,
    {
        match self {
            Node::Vnode(_) => None,
            Node::Directory(id, children) => {
                let ghost ev = Node::entries_view(children@);
                proof {
                    broadcast use lemma_entries_view;

                }
                let mut direct: Option<usize> = None;
                let mut i: usize = 0;
                while i < children.len() && direct.is_none()
                    invariant
                        i <= children.len(),
                        *children == old(self)->Directory_1,
                        ev == Node::entries_view(children@),
                        children@.len() == ev.len(),
                        match direct {
                            None => forall|j: int| 0 <= j < i ==> ev[j].1.node_id() != target,
                            Some(j) => j < ev.len() && direct_index(ev, 0, target) == Some(
                                j as int,
                            ),
                        },
                    decreases children.len() - i, (if direct is None { 1int } else { 0int }),
                {
                    proof {
                        broadcast use lemma_entries_view;

                    }
                    if children[i].1.node_id() == target {
                        proof {
                            lemma_direct_index_skip(ev, i as int, target);
                        }
                        direct = Some(i);
                    } else {
                        i += 1;
                    }
                }
                if let Some(j) = direct {
                    proof {
                        lemma_entries_view_swap_remove(children@, j as int);
                    }
                    let entry = children.swap_remove(j);
                    return Some(entry.1);
                }
                proof {
                    lemma_direct_index_skip(ev, children@.len() as int, target);
                }
                let mut res: Option<Node> = None;
                let mut i: usize = 0;
                while i < children.len() && res.is_none()
                    invariant
                        i <= children.len(),
                        ev.len() == children@.len(),
                        (*old(self)) is Directory,
                        old(self)@ == (TreeView::Dir { id: old(self)->Directory_0, entries: ev }),
                        direct_index(ev, 0, target) is None,
                        match res {
                            None => Node::entries_view(children@) == ev && forall|j: int|
                                0 <= j < i ==> spec_remove(
                                    #[trigger] ev[j].1,
                                    target,
                                ).removed is None,
                            Some(n) => ({
                                let sub = remove_entries(ev, 0, target);
                                &&& Node::entries_view(children@) == sub.0
                                &&& sub.1 == Some(n@)
                            }),
                        },
                    decreases children.len() - i, (if res is None { 1int } else { 0int }),
                {
                    proof {
                        broadcast use lemma_entries_view;

                        assert(children@[i as int].1@ == ev[i as int].1);
                        assert(decreases_to!(old(self)@ => ev)) by {
                            assert(old(self)@->Dir_entries == ev);
                        }
                        assert(decreases_to!(ev => ev[i as int]));
                        assert(decreases_to!(ev[i as int] => ev[i as int].1));
                    }
                    let ghost cpre = children@;
                    let sub = children[i].1.remove(target);
                    proof {
                        lemma_entries_view_update(cpre, i as int, children@[i as int]);
                    }
                    match sub {
                        Some(node) => {
                            proof {
                                lemma_remove_entries_skip(ev, i as int, target);
                                assert(Node::entries_view(children@) =~= ev.update(
                                    i as int,
                                    (ev[i as int].0, spec_remove(ev[i as int].1, target).tree),
                                ));
                            }
                            res = Some(node);
                        },
                        None => {
                            proof {
                                lemma_remove_none_unchanged(ev[i as int].1, target);
                                assert(Node::entries_view(children@) =~= ev);
                            }
                            i += 1;
                        },
                    }
                }
                proof {
                    if res is None {
                        lemma_remove_entries_skip(ev, children@.len() as int, target);
                    }
                }
                res
            },
        }
    }

    /// Depth-first search for the node with identity `target`; the first hit
    /// in preorder wins.
    pub fn find(&self, target: u64) -> (r: Option<&Node>)
        ensures
            match r {
                Some(n) => spec_find(self@, target) == Some(n@),
                None => spec_find(self@, target) is None,
            },
        decreases *self,
    {
        if self.node_id() == target {
            return Some(self);
        }
        match self {
            Node::Vnode(_) => None,
            Node::Directory(id, children) => {
                let ghost ev = Node::entries_view(children@);
                proof {
                    broadcast use lemma_entries_view;

                }
                let mut i: usize = 0;
                while i < children.len()
                    invariant
                        i <= children.len(),
                        *self == Node::Directory(*id, *children),
                        self@.node_id() != target,
                        ev == Node::entries_view(children@),
                        forall|j: int|
                            0 <= j < i ==> spec_find(#[trigger] ev[j].1, target) is None,
                    decreases children.len() - i,
                {
                    proof {
                        broadcast use lemma_entries_view;

                        assert(decreases_to!(*self => self->Directory_1));
                        assert(self->Directory_1 == *children);
                        assert(decreases_to!(*children => children@));
                        assert(decreases_to!(children@ => children@[i as int]));
                        assert(decreases_to!(children@[i as int] => children@[i as int].1));
                    }
                    match children[i].1.find(target) {
                        Some(node) => {
                            proof {
                                lemma_find_entries_skip(ev, i as int, target);
                            }
                            return Some(node);
                        },
                        None => {},
                    }
                    i += 1;
                }
                proof {
                    lemma_find_entries_skip(ev, children@.len() as int, target);
                }
                None
            },
        }
    }

    /// Appends `bytes` to the file with identity `target`, found by the same
    /// depth-first search as `find`. A directory under that identity is a
    /// `TypeMismatch`; an absent identity is `NotFound`. A failure leaves
    /// the tree untouched.
    pub fn append(&mut self, target: u64, bytes: &[u8]) -> (r: Result<(), FsError>)
        ensures
            ({
                let out = spec_append(old(self)@, target, bytes@);
                &&& final(self)@ == out.tree
                &&& r == out.res
            }),
        decreases old(self)@,
    {
        match self {
            Node::Vnode(f) => {
                if f.id == target {
                    f.write(bytes);
                    Ok(())
                } else {
                    Err(FsError::NotFound)
                }
            },
            Node::Directory(id, children) => {
                if *id == target {
                    return Err(FsError::TypeMismatch);
                }
                let ghost ev = Node::entries_view(children@);
                proof {
                    broadcast use lemma_entries_view;

                }
                let mut done: bool = false;
                let mut res: Result<(), FsError> = Err(FsError::NotFound);
                let mut i: usize = 0;
                while i < children.len() && !done
                    invariant
                        i <= children.len(),
                        ev.len() == children@.len(),
                        (*old(self)) is Directory,
                        old(self)@ == (TreeView::Dir { id: old(self)->Directory_0, entries: ev }),
                        if done {
                            ({
                                let sub = append_entries(ev, 0, target, bytes@);
                                &&& Node::entries_view(children@) == sub.0
                                &&& res == sub.1
                            })
                        } else {
                            &&& Node::entries_view(children@) == ev
                            &&& res == Err::<(), FsError>(FsError::NotFound)
                            &&& forall|j: int|
                                0 <= j < i ==> spec_append(
                                    #[trigger] ev[j].1,
                                    target,
                                    bytes@,
                                ).res == Err::<(), FsError>(FsError::NotFound)
                        },
                    decreases children.len() - i, (if done { 0int } else { 1int }),
                {
                    proof {
                        broadcast use lemma_entries_view;

                        assert(children@[i as int].1@ == ev[i as int].1);
                        assert(decreases_to!(old(self)@ => ev)) by {
                            assert(old(self)@->Dir_entries == ev);
                        }
                        assert(decreases_to!(ev => ev[i as int]));
                        assert(decreases_to!(ev[i as int] => ev[i as int].1));
                    }
                    let ghost cpre = children@;
                    let sub = children[i].1.append(target, bytes);
                    proof {
                        lemma_entries_view_update(cpre, i as int, children@[i as int]);
                    }
                    match sub {
                        Ok(u) => {
                            proof {
                                lemma_append_entries_skip(ev, i as int, target, bytes@);
                                assert(Node::entries_view(children@) =~= ev.update(
                                    i as int,
                                    (
                                        ev[i as int].0,
                                        spec_append(ev[i as int].1, target, bytes@).tree,
                                    ),
                                ));
                            }
                            res = Ok(u);
                            done = true;
                        },
                        Err(FsError::NotFound) => {
                            proof {
                                lemma_append_err_unchanged(ev[i as int].1, target, bytes@);
                                assert(Node::entries_view(children@) =~= ev);
                            }
                            i += 1;
                        },
                        Err(e) => {
                            proof {
                                lemma_append_entries_skip(ev, i as int, target, bytes@);
                                lemma_append_err_unchanged(ev[i as int].1, target, bytes@);
                                assert(Node::entries_view(children@) =~= ev);
                            }
                            res = Err(e);
                            done = true;
                        },
                    }
                }
                proof {
                    if !done {
                        lemma_append_entries_skip(ev, children@.len() as int, target, bytes@);
                    }
                }
                res
            },
        }
    }


    /// Strict resolution of `path` to a directory: every component must
    /// name a directory and the path must be non-empty. Returns the
    /// directory's identity, usable as a handle for `remove`.
    pub fn lookup_dir(&self, path: &[u8]) -> (r: Option<u64>)
        ensures
            r == spec_lookup_dir(self@, path@),
        decreases *self,
    {
        match self {
            Node::Vnode(_) => None,
            Node::Directory(_, children) => {
                let sep = find_sep(path);
                proof {
                    lemma_sep_at(path@);
                }
                let head = slice_subrange(path, 0, sep);
                proof {
                    assert(head@ == head_of(path@));
                    lemma_lookup_dir_entries_by_index(Node::entries_view(children@), 0, path@);
                    broadcast use lemma_entries_view;

                }
                if sep == 0 {
                    return None;
                }
                match find_child(children, head) {
                    Some(j) => {
                        if sep == path.len() {
                            match &children[j].1 {
                                Node::Directory(id, _) => Some(*id),
                                Node::Vnode(_) => None,
                            }
                        } else {
                            let rest = slice_subrange(path, sep + 1, path.len());
                            proof {
                                assert(rest@ == tail_of(path@));
                                assert(decreases_to!(*self => self->Directory_1));
                                assert(self->Directory_1 == *children);
                                assert(decreases_to!(*children => children@));
                                assert(decreases_to!(children@ => children@[j as int]));
                                assert(decreases_to!(
                                    children@[j as int] => children@[j as int].1));
                            }
                            children[j].1.lookup_dir(rest)
                        }
                    },
                    None => None,
                }
            },
        }
    }
}

} // verus!
