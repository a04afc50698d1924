//! Changing what a plain tree holds at a path, directories made and dropped as needed.
use vstd::prelude::*;
use crate::backend::{BackendError, TreeId, TreeValue};
use crate::merged_tree::PathView;
use crate::repo_path::{names_of, RepoPath, RepoPathComponent};
use crate::store::{Store, StoreView};
use crate::tree::{lookup, with_entry};

verus! {

/// The entry found by following `path` from tree `t` through plain subtrees.
pub open spec fn entry_at(st: StoreView, t: TreeId, path: PathView) -> Option<TreeValue>
    decreases path.len(),
{
    if path.len() == 0 {
        None
    } else {
        let entry = lookup(st.tree(t), path[0]);
        if path.len() == 1 {
            entry
        } else {
            match entry {
                Some(TreeValue::Tree(sub)) => entry_at(st, sub, path.skip(1)),
                _ => None,
            }
        }
    }
}

/// An entry that is no directory.
pub open spec fn leaf_of(entry: Option<TreeValue>) -> Option<TreeValue> {
    match entry {
        Some(TreeValue::Tree(_)) => None,
        other => other,
    }
}

/// The file, symlink or conflict record at `path`, if there is one.
pub open spec fn leaf_at(st: StoreView, t: TreeId, path: PathView) -> Option<TreeValue> {
    leaf_of(entry_at(st, t, path))
}

/// `p` is a proper beginning of `q`.
pub open spec fn proper_prefix(p: PathView, q: PathView) -> bool {
    p.len() < q.len() && q.take(p.len() as int) == p
}

/// What is at `q` once the entry at `p` has been set to `value`: the value
/// at `p` itself; below `p` what the value holds there, if it is a
/// directory; nothing at the directories that lead to `p`; elsewhere what
/// was there before.
pub open spec fn leaf_after_set(
    st: StoreView,
    t: TreeId,
    p: PathView,
    value: Option<TreeValue>,
    q: PathView,
) -> Option<TreeValue> {
    if q == p {
        leaf_of(value)
    } else if proper_prefix(p, q) {
        match value {
            Some(TreeValue::Tree(sub)) => leaf_at(st, sub, q.skip(p.len() as int)),
            _ => None,
        }
    } else if proper_prefix(q, p) {
        None
    } else {
        leaf_at(st, t, q)
    }
}

/// The tree under `name` in tree `t`, or the empty tree where there is none.
pub open spec fn child_of(st: StoreView, t: TreeId, name: Seq<u8>) -> TreeId {
    crate::merged_tree::tree_of(lookup(st.tree(t), name))
}

/// The entry that stands for a subtree: none for the empty tree.
pub open spec fn entry_of(id: TreeId) -> Option<TreeValue> {
    if id.0 == 0 {
        None
    } else {
        Some(TreeValue::Tree(id))
    }
}

/// The store and the tree after setting what tree `t` holds at the path `p`
/// to `value`: the trees along the path are written anew from the innermost
/// on, a directory on the way that is missing or no directory starting out
/// empty, and one that ends up empty leaving no entry.
pub open spec fn put_path(st: StoreView, t: TreeId, p: PathView, value: Option<TreeValue>) -> (
    StoreView,
    TreeId,
)
    decreases p.len(),
{
    if p.len() == 0 {
        (st, t)
    } else if p.len() == 1 {
        st.put_tree(with_entry(st.tree(t), p[0], value))
    } else {
        let (st1, sub) = put_path(st, child_of(st, t, p[0]), p.skip(1), value);
        st1.put_tree(with_entry(st.tree(t), p[0], entry_of(sub)))
    }
}

/// A value that can be put into a tree of the store.
pub open spec fn value_fits(st: StoreView, value: Option<TreeValue>) -> bool {
    match value {
        Some(v) => st.value_ok(v, st.trees.len() as int),
        None => true,
    }
}

/// What a stored tree holds at a path stays the same when the store grows.
pub proof fn lemma_entry_kept(old_store: StoreView, new_store: StoreView, t: TreeId, q: PathView)
    requires
        old_store.wf(),
        old_store.extended_by(new_store),
        t.0 < old_store.trees.len(),
    ensures
        entry_at(new_store, t, q) == entry_at(old_store, t, q),
    decreases q.len(),
{
    assert(new_store.tree(t) == old_store.tree(t));
    if q.len() >= 2 {
        crate::merged_tree::lemma_entry_below(old_store, t, q[0]);
        if let Some(TreeValue::Tree(sub)) = lookup(old_store.tree(t), q[0]) {
            lemma_entry_kept(old_store, new_store, sub, q.skip(1));
        }
    }
}

/// The empty tree holds nothing.
pub proof fn lemma_empty_tree_holds_nothing(st: StoreView, q: PathView)
    requires
        st.wf(),
    ensures
        entry_at(st, TreeId(0), q).is_none(),
{
    if q.len() > 0 {
        crate::tree::lemma_lower_bound(st.tree(TreeId(0)), q[0], 0);
    }
}

/// Setting the entry `name` of tree `t` gives a tree that holds at every path
/// what `leaf_after_set` says for the path of that one name.
pub proof fn lemma_set_last(
    st0: StoreView,
    st2: StoreView,
    t: TreeId,
    r: TreeId,
    name: Seq<u8>,
    value: Option<TreeValue>,
    q: PathView,
)
    requires
        st0.wf(),
        st0.extended_by(st2),
        t.0 < st0.trees.len(),
        r.0 < st2.trees.len(),
        value_fits(st0, value),
        st2.tree(r) == with_entry(st0.tree(t), name, value),
    ensures
        leaf_at(st2, r, q) == leaf_after_set(st0, t, seq![name], value, q),
{
    let p = seq![name];
    let old_tree = st0.tree(t);
    if q.len() == 0 {
    } else if q[0] != name {
        crate::tree::lemma_with_entry_other(old_tree, name, value, q[0]);
        assert(q != p);
        assert(!proper_prefix(p, q)) by {
            if proper_prefix(p, q) {
                assert(q.take(1)[0] == q[0]);
            }
        }
        lemma_below_first(st0, st2, t, r, q);
    } else {
        crate::tree::lemma_with_entry_same(old_tree, name, value);
        if q.len() == 1 {
            assert(q =~= p);
        } else {
            assert(q.take(1) =~= p);
            assert(proper_prefix(p, q));
            if let Some(TreeValue::Tree(sub)) = value {
                lemma_entry_kept(st0, st2, sub, q.skip(1));
            }
        }
    }
}

/// Two trees that hold the same under the first name of a path hold the same
/// at the path, also where the second tree is in a store that has grown.
pub proof fn lemma_below_first(st0: StoreView, st2: StoreView, t: TreeId, r: TreeId, q: PathView)
    requires
        st0.wf(),
        st0.extended_by(st2),
        t.0 < st0.trees.len(),
        q.len() > 0,
        lookup(st2.tree(r), q[0]) == lookup(st0.tree(t), q[0]),
    ensures
        entry_at(st2, r, q) == entry_at(st0, t, q),
{
    if q.len() >= 2 {
        crate::merged_tree::lemma_entry_below(st0, t, q[0]);
        if let Some(TreeValue::Tree(sub)) = lookup(st0.tree(t), q[0]) {
            lemma_entry_kept(st0, st2, sub, q.skip(1));
        }
    }
}

/// Replacing the directory `name` of tree `t` by a tree that holds what
/// `leaf_after_set` says for the rest of a path gives a tree that holds what
/// it says for the whole path.
pub proof fn lemma_set_inner(
    st0: StoreView,
    st1: StoreView,
    st2: StoreView,
    t: TreeId,
    r: TreeId,
    name: Seq<u8>,
    child: TreeId,
    new_child: TreeId,
    rest: PathView,
    value: Option<TreeValue>,
    q: PathView,
)
    requires
        st0.wf(),
        st1.wf(),
        st0.extended_by(st1),
        st1.extended_by(st2),
        t.0 < st0.trees.len(),
        r.0 < st2.trees.len(),
        rest.len() >= 1,
        child == crate::merged_tree::tree_of(lookup(st0.tree(t), name)),
        new_child.0 < st1.trees.len(),
        forall|q2: PathView| leaf_at(st1, new_child, q2) == leaf_after_set(st0, child, rest, value, q2),
        st2.tree(r) == with_entry(
            st0.tree(t),
            name,
            if new_child.0 == 0 {
                None
            } else {
                Some(TreeValue::Tree(new_child))
            },
        ),
    ensures
        leaf_at(st2, r, q) == leaf_after_set(st0, t, seq![name] + rest, value, q),
{
    let p = seq![name] + rest;
    let old_tree = st0.tree(t);
    let new_entry = if new_child.0 == 0 {
        None
    } else {
        Some(TreeValue::Tree(new_child))
    };
    assert(p[0] == name);
    assert(p.skip(1) =~= rest);
    if q.len() == 0 {
        assert(proper_prefix(q, p)) by {
            assert(p.take(0) =~= q);
        }
    } else if q[0] != name {
        crate::tree::lemma_with_entry_other(old_tree, name, new_entry, q[0]);
        assert(q != p);
        assert(!proper_prefix(p, q)) by {
            if proper_prefix(p, q) {
                assert(q.take(p.len() as int)[0] == q[0]);
            }
        }
        assert(!proper_prefix(q, p)) by {
            if proper_prefix(q, p) {
                assert(p.take(q.len() as int)[0] == p[0]);
            }
        }
        assert(st0.extended_by(st2));
        lemma_below_first(st0, st2, t, r, q);
    } else {
        crate::tree::lemma_with_entry_same(old_tree, name, new_entry);
        let q2 = q.skip(1);
        if q.len() == 1 {
            assert(proper_prefix(q, p)) by {
                assert(p.take(1) =~= q);
            }
        } else {
            // What the new tree holds at `q` is what the new child holds at `q2`.
            assert(leaf_at(st2, r, q) == leaf_at(st1, new_child, q2)) by {
                if new_child.0 == 0 {
                    lemma_empty_tree_holds_nothing(st1, q2);
                } else {
                    lemma_entry_kept(st1, st2, new_child, q2);
                }
            }
            assert(leaf_at(st1, new_child, q2) == leaf_after_set(st0, child, rest, value, q2));
            // The cases of `leaf_after_set` carry over from the rest of the path.
            assert((q == p) <==> (q2 == rest)) by {
                if q2 == rest {
                    assert(q =~= seq![name] + q2);
                }
            }
            assert(proper_prefix(p, q) <==> proper_prefix(rest, q2)) by {
                if proper_prefix(p, q) {
                    assert(q2.take(rest.len() as int) =~= q.take(p.len() as int).skip(1));
                }
                if proper_prefix(rest, q2) {
                    assert(q.take(p.len() as int) =~= seq![name] + q2.take(rest.len() as int));
                }
            }
            assert(q =~= seq![name] + q2);
            assert(proper_prefix(q, p) <==> proper_prefix(q2, rest)) by {
                if proper_prefix(q, p) {
                    assert(rest.take(q2.len() as int) =~= p.take(q.len() as int).skip(1));
                    assert(rest.take(q2.len() as int) == q2);
                }
                if proper_prefix(q2, rest) {
                    assert(p.take(q.len() as int) =~= seq![name] + rest.take(q2.len() as int));
                    assert(p.take(q.len() as int) == q);
                }
            }
            if proper_prefix(p, q) {
                assert(q.skip(p.len() as int) =~= q2.skip(rest.len() as int));
            }
            // Elsewhere the old child held what the old tree held.
            assert(leaf_at(st0, child, q2) == leaf_at(st0, t, q)) by {
                if !(lookup(old_tree, name) matches Some(TreeValue::Tree(_))) {
                    lemma_empty_tree_holds_nothing(st0, q2);
                }
            }
        }
    }
}

/// Setting what a tree holds at a path does not shrink the store.
pub proof fn lemma_put_path_grows(st: StoreView, t: TreeId, p: PathView, value: Option<TreeValue>)
    ensures
        put_path(st, t, p, value).0.trees.len() >= st.trees.len(),
    decreases p.len(),
{
    if p.len() >= 2 {
        lemma_put_path_grows(st, child_of(st, t, p[0]), p.skip(1), value);
    }
}

/// Setting what a tree holds at a path keeps the store's invariant, and the
/// tree written holds at every path what `leaf_after_set` says.
pub proof fn lemma_put_path(st: StoreView, t: TreeId, p: PathView, value: Option<TreeValue>)
    requires
        st.wf(),
        t.0 < st.trees.len(),
        p.len() > 0,
        value_fits(st, value),
        put_path(st, t, p, value).0.trees.len() <= usize::MAX,
    ensures
        put_path(st, t, p, value).0.wf(),
        st.extended_by(put_path(st, t, p, value).0),
        put_path(st, t, p, value).1.0 < put_path(st, t, p, value).0.trees.len(),
        put_path(st, t, p, value).0.files == st.files,
        put_path(st, t, p, value).0.symlinks == st.symlinks,
        put_path(st, t, p, value).0.conflicts == st.conflicts,
        forall|q: PathView|
            leaf_at(put_path(st, t, p, value).0, put_path(st, t, p, value).1, q) == leaf_after_set(
                st,
                t,
                p,
                value,
                q,
            ),
    decreases p.len(),
{
    let name = p[0];
    assert(st.entries_ok(st.trees[t.0 as int], t.0 as int));
    crate::store::lemma_bound_grows(st, t.0 as int, st.trees.len() as int);
    if p.len() == 1 {
        let tree = with_entry(st.tree(t), name, value);
        crate::tree::lemma_with_entry_sorted(st.tree(t), name, value);
        lemma_entries_fit(st, st, st.tree(t), name, value);
        crate::store::lemma_put_tree(st, tree);
        let (st2, r) = st.put_tree(tree);
        assert(p =~= seq![name]);
        assert forall|q: PathView| leaf_at(st2, r, q) == leaf_after_set(st, t, p, value, q) by {
            lemma_set_last(st, st2, t, r, name, value, q);
        }
    } else {
        let child = child_of(st, t, name);
        let rest = p.skip(1);
        crate::merged_tree::lemma_entry_below(st, t, name);
        let (st1, sub) = put_path(st, child, rest, value);
        assert(st1.put_tree(with_entry(st.tree(t), name, entry_of(sub))).0.trees.len()
            >= st1.trees.len());
        lemma_put_path(st, child, rest, value);
        let entry = entry_of(sub);
        let tree = with_entry(st.tree(t), name, entry);
        crate::tree::lemma_with_entry_sorted(st.tree(t), name, entry);
        crate::store::lemma_extended_ok(st, st1);
        lemma_entries_fit(st, st1, st.tree(t), name, entry);
        crate::store::lemma_put_tree(st1, tree);
        let (st2, r) = st1.put_tree(tree);
        assert(p =~= seq![name] + rest);
        assert forall|q: PathView| leaf_at(st2, r, q) == leaf_after_set(st, t, p, value, q) by {
            lemma_set_inner(st, st1, st2, t, r, name, child, sub, rest, value, q);
        }
    }
}

/// Sets what tree `t` holds at the path made of the names from `from` on.
fn set_in(
    store: &mut Store,
    t: TreeId,
    path: &Vec<RepoPathComponent>,
    from: usize,
    value: Option<TreeValue>,
) -> (r: TreeId)
    requires
        old(store).wf(),
        t.0 < old(store)@.trees.len(),
        from < path.len(),
        value_fits(old(store)@, value),
    ensures
        final(store).wf(),
        old(store)@.extended_by(final(store)@),
        final(store)@.files == old(store)@.files,
        final(store)@.symlinks == old(store)@.symlinks,
        final(store)@.conflicts == old(store)@.conflicts,
        r.0 < final(store)@.trees.len(),
        (final(store)@, r) == put_path(old(store)@, t, names_of(path@).skip(from as int), value),
        forall|q: PathView|
            leaf_at(final(store)@, r, q) == leaf_after_set(
                old(store)@,
                t,
                names_of(path@).skip(from as int),
                value,
                q,
            ),
    decreases path.len() - from,
{
    let ghost st0 = store@;
    let ghost p = names_of(path@).skip(from as int);
    let name = &path[from];
    let mut tree = match store.get_tree(t) {
        Ok(tree) => tree.clone(),
        Err(_) => crate::tree::Tree::new(),
    };
    assert(tree@ == st0.tree(t));
    proof {
        assert(st0.entries_ok(st0.trees[t.0 as int], t.0 as int));
        crate::store::lemma_bound_grows(st0, t.0 as int, st0.trees.len() as int);
    }
    assert(p[0] == name@);
    if from + 1 == path.len() {
        assert(p.len() == 1);
        tree.set_or_remove(name, value);
        proof {
            lemma_entries_fit(st0, st0, st0.tree(t), name@, value);
        }
        match store.write_tree(&tree) {
            Ok(r) => {
                proof {
                    assert(p =~= seq![name@]);
                    assert forall|q: PathView| leaf_at(store@, r, q) == leaf_after_set(
                        st0,
                        t,
                        p,
                        value,
                        q,
                    ) by {
                        lemma_set_last(st0, store@, t, r, name@, value, q);
                    }
                }
                r
            },
            Err(_) => {
                assert(false);
                t
            },
        }
    } else {
        let child = match tree.value(name) {
            Some(TreeValue::Tree(sub)) => sub,
            _ => TreeId(0),
        };
        proof {
            crate::merged_tree::lemma_entry_below(st0, t, name@);
        }
        assert(p.len() >= 2);
        assert(p.skip(1) =~= names_of(path@).skip(from + 1));
        assert(child == child_of(st0, t, name@));
        let new_child = set_in(store, child, path, from + 1, value);
        let ghost st1 = store@;
        let new_entry = if new_child.0 == 0 {
            None
        } else {
            Some(TreeValue::Tree(new_child))
        };
        tree.set_or_remove(name, new_entry);
        proof {
            crate::store::lemma_extended_ok(st0, st1);
            lemma_entries_fit(st0, st1, st0.tree(t), name@, new_entry);
        }
        match store.write_tree(&tree) {
            Ok(r) => {
                proof {
                    let rest = names_of(path@).skip(from + 1);
                    assert(p =~= seq![name@] + rest);
                    assert forall|q: PathView| leaf_at(store@, r, q) == leaf_after_set(
                        st0,
                        t,
                        p,
                        value,
                        q,
                    ) by {
                        lemma_set_inner(
                            st0,
                            st1,
                            store@,
                            t,
                            r,
                            name@,
                            child,
                            new_child,
                            rest,
                            value,
                            q,
                        );
                    }
                }
                r
            },
            Err(_) => {
                assert(false);
                t
            },
        }
    }
}

/// A tree whose entries fit a store still fits a store grown from it after
/// one entry is set to a value that fits.
pub proof fn lemma_entries_fit(
    st0: StoreView,
    st1: StoreView,
    tree: crate::tree::TreeView,
    name: Seq<u8>,
    value: Option<TreeValue>,
)
    requires
        st0.wf(),
        st0.extended_by(st1),
        crate::tree::tree_sorted(tree),
        st0.entries_ok(tree, st0.trees.len() as int),
        value_fits(st1, value),
    ensures
        st1.entries_ok(with_entry(tree, name, value), st1.trees.len() as int),
{
    let w = with_entry(tree, name, value);
    crate::store::lemma_extended_ok(st0, st1);
    crate::store::lemma_bound_grows(st1, st0.trees.len() as int, st1.trees.len() as int);
    crate::tree::lemma_lower_bound(tree, name, 0);
    let p = crate::tree::lower_bound(tree, name, 0);
    let present = p < tree.len() && tree[p].0 == name;
    assert forall|k: int| 0 <= k < w.len() implies st1.value_ok(
        #[trigger] w[k].1,
        st1.trees.len() as int,
    ) by {
        if value.is_some() {
            if k == p {
            } else if present {
                assert(w[k] == tree[k]);
                assert(st0.value_ok(tree[k].1, st0.trees.len() as int));
            } else {
                let ok = if k < p { k } else { k - 1 };
                assert(w[k] == tree[ok]);
                assert(st0.value_ok(tree[ok].1, st0.trees.len() as int));
            }
        } else {
            let ok = if present && k >= p { k + 1 } else { k };
            assert(w[k] == tree[ok]);
            assert(st0.value_ok(tree[ok].1, st0.trees.len() as int));
        }
    }
}

/// Sets what the plain tree `tree` holds at `path` to `value`, or deletes
/// what is there. Directories on the way are made as needed, a file in
/// their place is dropped, and a directory left empty is dropped too. Gives
/// the identifier of the changed tree; `tree` itself stays as it was.
///
/// Fails with `ObjectNotFound` where the store lacks `tree`, and with
/// `DanglingReference` where `value` names something the store lacks.
pub fn set_path(store: &mut Store, tree: TreeId, path: &RepoPath, value: Option<TreeValue>) -> (r:
    Result<TreeId, BackendError>)
    requires
        old(store).wf(),
        path@.len() > 0,
    ensures
        final(store).wf(),
        old(store)@.extended_by(final(store)@),
        final(store)@.files == old(store)@.files,
        final(store)@.symlinks == old(store)@.symlinks,
        final(store)@.conflicts == old(store)@.conflicts,
        match r {
            Ok(id) => {
                &&& tree.0 < old(store)@.trees.len()
                &&& value_fits(old(store)@, value)
                &&& id.0 < final(store)@.trees.len()
                &&& (final(store)@, id) == put_path(old(store)@, tree, path@, value)
                &&& forall|q: PathView|
                    leaf_at(final(store)@, id, q) == leaf_after_set(
                        old(store)@,
                        tree,
                        path@,
                        value,
                        q,
                    )
            },
            Err(e) => {
                &&& final(store)@ == old(store)@
                &&& if tree.0 >= old(store)@.trees.len() {
                    e == BackendError::ObjectNotFound
                } else {
                    !value_fits(old(store)@, value) && e == BackendError::DanglingReference
                }
            },
        },
{
    if store.get_tree(tree).is_err() {
        return Err(BackendError::ObjectNotFound);
    }
    let fits = match &value {
        Some(v) => store.holds_value(v),
        None => true,
    };
    if !fits {
        return Err(BackendError::DanglingReference);
    }
    let names = path.components();
    assert(names_of(names@).skip(0) =~= path@);
    Ok(set_in(store, tree, names, 0, value))
}

} // verus!
