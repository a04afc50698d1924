//! Content addressing: trees that hold the same files are the same tree.
use vstd::prelude::*;
use crate::backend::{TreeId, TreeValue};
use crate::merged_tree::PathView;
use crate::store::StoreView;
use crate::tree::lookup;
use crate::tree_builder::{entry_at, leaf_at, leaf_of};

verus! {

/// What tree `t` holds at the path made of `name` and then `rest` is what
/// the subtree under `name` holds at `rest`.
pub proof fn lemma_entry_below_name(st: StoreView, t: TreeId, name: Seq<u8>, rest: PathView)
    requires
        rest.len() > 0,
    ensures
        entry_at(st, t, seq![name] + rest) == match lookup(st.tree(t), name) {
            Some(TreeValue::Tree(sub)) => entry_at(st, sub, rest),
            _ => None,
        },
{
    let q = seq![name] + rest;
    assert(q[0] == name);
    assert(q.skip(1) =~= rest);
}

/// A stored tree other than the empty one holds a file, a symlink or a
/// conflict record somewhere.
pub proof fn lemma_tree_has_leaf(st: StoreView, t: TreeId) -> (q: PathView)
    requires
        st.wf(),
        0 < t.0 < st.trees.len(),
    ensures
        leaf_at(st, t, q).is_some(),
        q.len() > 0,
    decreases t.0,
{
    let tree = st.tree(t);
    assert(tree.len() > 0) by {
        if tree.len() == 0 {
            assert(st.trees[0] =~= st.trees[t.0 as int]);
        }
    }
    assert(crate::tree::tree_sorted(st.trees[t.0 as int]));
    crate::tree::lemma_lookup_at(tree, 0);
    assert(st.entries_ok(st.trees[t.0 as int], t.0 as int));
    assert(st.value_ok(tree[0].1, t.0 as int));
    let name = tree[0].0;
    match tree[0].1 {
        TreeValue::Tree(sub) => {
            let rest = lemma_tree_has_leaf(st, sub);
            lemma_entry_below_name(st, t, name, rest);
            seq![name] + rest
        },
        _ => seq![name],
    }
}

/// Content addressing: two stored trees that hold the same files, symlinks
/// and conflict records at the same paths are one tree.
pub proof fn lemma_same_leaves_same_tree(st: StoreView, a: TreeId, b: TreeId)
    requires
        st.wf(),
        a.0 < st.trees.len(),
        b.0 < st.trees.len(),
        forall|q: PathView| leaf_at(st, a, q) == leaf_at(st, b, q),
    ensures
        a == b,
    decreases a.0 + b.0,
{
    let ta = st.tree(a);
    let tb = st.tree(b);
    assert(crate::tree::tree_sorted(st.trees[a.0 as int]));
    assert(crate::tree::tree_sorted(st.trees[b.0 as int]));
    assert forall|name: Seq<u8>| lookup(ta, name) == lookup(tb, name) by {
        let ea = lookup(ta, name);
        let eb = lookup(tb, name);
        crate::merged_tree::lemma_entry_below(st, a, name);
        crate::merged_tree::lemma_entry_below(st, b, name);
        assert(leaf_at(st, a, seq![name]) == leaf_at(st, b, seq![name]));
        assert(seq![name][0] == name);
        assert(leaf_of(ea) == leaf_of(eb));
        match (ea, eb) {
            (Some(TreeValue::Tree(ca)), Some(TreeValue::Tree(cb))) => {
                assert forall|rest: PathView| leaf_at(st, ca, rest) == leaf_at(st, cb, rest) by {
                    if rest.len() > 0 {
                        lemma_entry_below_name(st, a, name, rest);
                        lemma_entry_below_name(st, b, name, rest);
                        assert(leaf_at(st, a, seq![name] + rest) == leaf_at(
                            st,
                            b,
                            seq![name] + rest,
                        ));
                    }
                }
                lemma_same_leaves_same_tree(st, ca, cb);
            },
            (Some(TreeValue::Tree(ca)), _) => {
                let rest = lemma_tree_has_leaf(st, ca);
                lemma_entry_below_name(st, a, name, rest);
                lemma_entry_below_name(st, b, name, rest);
                assert(leaf_at(st, a, seq![name] + rest) == leaf_at(st, b, seq![name] + rest));
            },
            (_, Some(TreeValue::Tree(cb))) => {
                let rest = lemma_tree_has_leaf(st, cb);
                lemma_entry_below_name(st, a, name, rest);
                lemma_entry_below_name(st, b, name, rest);
                assert(leaf_at(st, a, seq![name] + rest) == leaf_at(st, b, seq![name] + rest));
            },
            _ => {},
        }
    }
    crate::tree::lemma_tree_extensional(ta, tb);
    if a.0 < b.0 {
        assert(st.trees[a.0 as int] != st.trees[b.0 as int]);
    } else if b.0 < a.0 {
        assert(st.trees[b.0 as int] != st.trees[a.0 as int]);
    }
}

} // verus!
