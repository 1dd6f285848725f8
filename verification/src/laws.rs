//! The laws the store obeys, each stated once over the model and proved.
//!
//! The executable operations in [`crate::store`] are each proved equal to a
//! model operation (`spec_lookup`, `spec_create`, `spec_remove`,
//! `spec_append`, `spec_find`), so every law below carries over to any run
//! of the store: chain the operations' `ensures` with the law over the
//! model values.

use crate::model::{
    id_count, lemma_append_err_unchanged, lemma_append_find, lemma_create_lookup,
    lemma_find_some, lemma_id_count_own, lemma_remove_count, lemma_remove_removed_id,
    spec_append, spec_create, spec_find, spec_lookup, spec_remove, tree_wf, TreeView,
};
use vstd::prelude::*;

verus! {

/// A freshly mounted store holds nothing: no path resolves, and no identity
/// but the root's own occurs. Mounting after an unmount therefore starts
/// from nothing; no node of an earlier session is left over.
pub proof fn law_fresh_store_finds_nothing(path: Seq<u8>, x: u64)
    ensures
        spec_lookup(
            TreeView::Dir { id: 0, entries: Seq::<(Seq<u8>, TreeView)>::empty() },
            path,
        ) is None,
        id_count(
            TreeView::Dir { id: 0, entries: Seq::<(Seq<u8>, TreeView)>::empty() },
            x,
        ) == (if x == 0 {
            1nat
        } else {
            0nat
        }),
{
}

/// A lookup never invents anything: whatever handle it returns names a node
/// that really occurs in the tree. Read the other way round, a path that
/// does not resolve to anything in the tree — any path of a store that
/// never had it created — comes back not-found, as the exact `ensures` of
/// `lookup` states operation by operation.
pub proof fn law_lookup_only_finds_existing(t: TreeView, path: Seq<u8>)
    ensures
        spec_lookup(t, path) matches Some(p) ==> id_count(t, p.0) >= 1,
{
    crate::model::lemma_lookup_in_tree(t, path);
}

/// A file just created is found again: after a successful creation at
/// `path`, looking the same path up yields exactly the returned handle, and
/// the content length is zero.
pub proof fn law_create_then_lookup(t: TreeView, path: Seq<u8>, next: int)
    requires
        spec_create(t, path, next).res is Ok,
    ensures
        ({
            let out = spec_create(t, path, next);
            &&& spec_lookup(out.tree, path) matches Some(p)
            &&& (spec_lookup(out.tree, path)->0).0 == out.res->Ok_0
            &&& (spec_lookup(out.tree, path)->0).1.len() == 0
        }),
{
    lemma_create_lookup(t, path, next);
}

/// Writes are cumulative and append-only: writing `a` and then `b` to a file
/// holding `d` succeeds, and what the handle then reads is exactly
/// `d + a + b`.
pub proof fn law_writes_accumulate(t: TreeView, h: u64, a: Seq<u8>, b: Seq<u8>)
    requires
        spec_find(t, h) matches Some(f) && f is File,
    ensures
        ({
            let d = spec_find(t, h)->0->File_data;
            let once = spec_append(t, h, a);
            let twice = spec_append(once.tree, h, b);
            &&& once.res is Ok
            &&& twice.res is Ok
            &&& spec_find(twice.tree, h) == Some(
                TreeView::File { id: h, data: d + a + b },
            )
        }),
{
    lemma_find_some(t, h);
    lemma_append_find(t, h, a);
    lemma_append_find(spec_append(t, h, a).tree, h, b);
    let d = spec_find(t, h)->0->File_data;
    assert((d + a) + b =~= d + a + b);
}

/// A removed handle is dead: once a removal succeeds in a well-formed tree,
/// the handle resolves to nothing, and any further write through it is
/// rejected with `NotFound` and changes nothing. Reads go the same way,
/// since they answer by the same search.
pub proof fn law_remove_invalidates(t: TreeView, next: int, h: u64, bytes: Seq<u8>)
    requires
        tree_wf(t, next),
        spec_remove(t, h).removed is Some,
    ensures
        ({
            let gone = spec_remove(t, h).tree;
            &&& spec_find(gone, h) is None
            &&& spec_append(gone, h, bytes).res == Err::<(), crate::errors::FsError>(
                crate::errors::FsError::NotFound,
            )
            &&& spec_append(gone, h, bytes).tree == gone
        }),
{
    let out = spec_remove(t, h);
    let rem = out.removed->0;
    lemma_remove_removed_id(t, h);
    lemma_id_count_own(rem, h);
    lemma_remove_count(t, h, h);
    lemma_find_some(out.tree, h);
    lemma_append_find(out.tree, h, bytes);
    lemma_append_err_unchanged(out.tree, h, bytes);
}

/// Removing a directory removes its whole subtree: every identity that sat
/// in the removed node — files and directories alike, however deep — is gone
/// from the tree, so no descendant can be reached any more.
pub proof fn law_remove_removes_descendants(t: TreeView, next: int, h: u64, d: u64)
    requires
        tree_wf(t, next),
        spec_remove(t, h).removed matches Some(rem) && id_count(rem, d) >= 1,
    ensures
        spec_find(spec_remove(t, h).tree, d) is None,
{
    let out = spec_remove(t, h);
    lemma_remove_count(t, h, d);
    lemma_find_some(out.tree, d);
}

} // verus!
