//! The owning store: one root directory, one identity counter.
//!
//! A `Store` is created by `mount` and owns its whole tree; `unmount` drops
//! it. Handles are the numeric identities of nodes, drawn once from the
//! counter and never reissued, so a handle outlives its node only as a value:
//! after a removal every operation on the stale handle is rejected with
//! `NotFound`. The well-formedness `wf` — the root is a directory with
//! identity zero, every identity was drawn below the counter and none occurs
//! twice — is established by `mount` and preserved by every operation.

use crate::errors::FsError;
use crate::fs::Node;
use crate::model::{
    id_count, lemma_append_count, lemma_create_count, lemma_create_lookup,
    lemma_find_some, lemma_id_count_own, lemma_remove_count, lemma_remove_removed_id,
    spec_append, spec_create, spec_find, spec_lookup, spec_lookup_dir, spec_remove, tree_wf,
    TreeView,
};
use vstd::prelude::*;

verus! {

/// The mounted store: the root directory and the next unused identity.
pub struct Store {
    pub root: Node,
    pub next_id: u64,
}

impl Store {
    /// The abstract tree below the root.
    pub open spec fn tree(self) -> TreeView {
        self.root@
    }

    /// Well-formedness: the root is a directory with identity zero, every
    /// identity in the tree was drawn below the counter, and none occurs
    /// twice.
    pub open spec fn wf(self) -> bool {
        &&& self.root@ is Dir
        &&& self.root@.node_id() == 0
        &&& self.next_id >= 1
        &&& tree_wf(self.root@, self.next_id as int)
    }

    /// Mounts a fresh store: an empty root directory and no identity handed
    /// out yet. Nothing of any earlier store is carried over.
    pub fn mount() -> (s: Store)
        ensures
            s.wf(),
            s.tree() == (TreeView::Dir { id: 0, entries: Seq::<(Seq<u8>, TreeView)>::empty() }),
            s.next_id == 1,
    {
        Store { root: Node::Directory(0, Vec::new()), next_id: 1 }
    }

    /// Unmounts the store, dropping the entire tree. Every outstanding
    /// handle is left dangling; a store mounted afterwards starts empty.
    pub fn unmount(self) {
    }

    /// Resolves `path` to a file and hands back its handle together with the
    /// number of bytes currently stored, so the caller can size its receive
    /// buffer in one round trip.
    pub fn lookup(&self, path: &[u8]) -> (r: Option<(u64, usize)>)
        ensures
            match r {
                Some(p) => spec_lookup(self.tree(), path@) matches Some(q) && q.0 == p.0
                    && q.1.len() == p.1,
                None => spec_lookup(self.tree(), path@) is None,
            },
    {
        match self.root.lookup(path) {
            Some(f) => Some((f.id, f.data.len())),
            None => None,
        }
    }

    /// Creates an empty file at `path`, creating missing directories on the
    /// way, and returns its fresh handle. The handle never collided with any
    /// handle given out before and the new file is found under `path` with
    /// nothing in it. A failure leaves the store untouched.
    pub fn create(&mut self, path: &[u8]) -> (r: Result<u64, FsError>)
        requires
            old(self).wf(),
            old(self).next_id as int + path@.len() + 1 <= u64::MAX as int,
        ensures
            ({
                let out = spec_create(old(self).tree(), path@, old(self).next_id as int);
                &&& r == out.res
                &&& final(self).tree() == out.tree
                &&& final(self).next_id as int == out.next
                &&& final(self).wf()
            }),
            (r matches Ok(h) ==> id_count(old(self).tree(), h) == 0 && id_count(
                final(self).tree(),
                h,
            ) == 1 && spec_lookup(final(self).tree(), path@) == Some((h, Seq::<u8>::empty()))),
            (r is Err ==> final(self).tree() == old(self).tree() && final(self).next_id == old(
                self,
            ).next_id),
    {
        let ghost t0 = self.root@;
        let ghost n0 = self.next_id as int;
        let r = self.root.create(path, &mut self.next_id);
        proof {
            let out = spec_create(t0, path@, n0);
            assert forall|x: u64| #[trigger] id_count(out.tree, x) <= 1 && (id_count(out.tree, x)
                > 0 ==> (x as int) < out.next) by {
                lemma_create_count(t0, path@, n0, x);
            }
            if r is Ok {
                let h = r->Ok_0;
                lemma_create_count(t0, path@, n0, h);
                lemma_create_lookup(t0, path@, n0);
            }
        }
        r
    }

    /// Removes the node with handle `h` — a file, or a directory with its
    /// whole subtree — and says whether anything was found. After a
    /// successful removal the handle resolves to nothing any more.
    pub fn remove(&mut self, h: u64) -> (r: bool)
        requires
            old(self).wf(),
        ensures
            ({
                let out = spec_remove(old(self).tree(), h);
                &&& final(self).tree() == out.tree
                &&& final(self).next_id == old(self).next_id
                &&& r == (out.removed is Some)
                &&& final(self).wf()
            }),
            r ==> spec_find(final(self).tree(), h) is None,
            !r ==> final(self).tree() == old(self).tree(),
    {
        let ghost t0 = self.root@;
        let res = self.root.remove(h);
        proof {
            let out = spec_remove(t0, h);
            assert forall|x: u64| #[trigger] id_count(out.tree, x) <= id_count(t0, x) by {
                lemma_remove_count(t0, h, x);
            }
            if out.removed is Some {
                let rem = out.removed->0;
                lemma_remove_removed_id(t0, h);
                lemma_id_count_own(rem, h);
                lemma_remove_count(t0, h, h);
                lemma_find_some(out.tree, h);
            } else {
                crate::model::lemma_remove_none_unchanged(t0, h);
            }
        }
        match res {
            Some(_) => true,
            None => false,
        }
    }

    /// The current contents of the file with handle `h`, whole and borrowed.
    /// A directory handle is a `TypeMismatch`; an absent one is `NotFound`.
    pub fn read(&self, h: u64) -> (r: Result<&Vec<u8>, FsError>)
        ensures
            match spec_find(self.tree(), h) {
                Some(f) => match f {
                    TreeView::File { id, data } => r matches Ok(d) && d@ == data,
                    TreeView::Dir { .. } => r == Err::<&Vec<u8>, FsError>(FsError::TypeMismatch),
                },
                None => r == Err::<&Vec<u8>, FsError>(FsError::NotFound),
            },
    {
        match self.root.find(h) {
            Some(n) => match n {
                Node::Vnode(f) => Ok(&f.data),
                Node::Directory(_, _) => Err(FsError::TypeMismatch),
            },
            None => Err(FsError::NotFound),
        }
    }

    /// Appends `bytes` to the end of the file with handle `h`; writes never
    /// overwrite, the blob only grows. A directory handle is a
    /// `TypeMismatch`, an absent one a `NotFound`, and either failure leaves
    /// the store untouched.
    pub fn write(&mut self, h: u64, bytes: &[u8]) -> (r: Result<(), FsError>)
        requires
            old(self).wf(),
        ensures
            ({
                let out = spec_append(old(self).tree(), h, bytes@);
                &&& final(self).tree() == out.tree
                &&& final(self).next_id == old(self).next_id
                &&& r == out.res
                &&& final(self).wf()
            }),
            r is Err ==> final(self).tree() == old(self).tree(),
    {
        let ghost t0 = self.root@;
        let r = self.root.append(h, bytes);
        proof {
            let out = spec_append(t0, h, bytes@);
            assert forall|x: u64| #[trigger] id_count(out.tree, x) == id_count(t0, x) by {
                lemma_append_count(t0, h, bytes@, x);
            }
            if r is Err {
                crate::model::lemma_append_err_unchanged(t0, h, bytes@);
            }
        }
        r
    }

    /// Resolves `path` strictly — every component a directory — and hands
    /// back the directory's handle, usable with `remove` to take out a whole
    /// subtree.
    pub fn lookup_dir(&self, path: &[u8]) -> (r: Option<u64>)
        ensures
            r == spec_lookup_dir(self.tree(), path@),
    {
        self.root.lookup_dir(path)
    }
}

} // verus!

