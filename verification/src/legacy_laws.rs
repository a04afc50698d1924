//! What holds of plain trees and the builder: a tree can be built again
//! from what it holds.
use vstd::prelude::*;
use crate::backend::{TreeId, TreeValue};
use crate::legacy::{
    from_legacy, max_sides, max_sides_from, max_sides_of, side, side_entry, side_from, sides,
};
use crate::merge::MergeView;
use crate::tree::{tree_sorted, with_entry, TreeView};
use crate::merged_tree::{MergedTreeView, PathView};
use crate::merged_tree_builder::{
    identity_of, most_sides, put_legacy, put_side, put_sides, side_value, BuilderView,
    OverridesView,
};
use crate::order::path_lt_fn;
use crate::store::StoreView;
use crate::tree::lookup;
use crate::legacy::padded_term;
use crate::store::ValueTerms;
use crate::tree_builder::{
    entry_at, leaf_at, leaf_of, proper_prefix, put_path, value_fits,
};

verus! {

/// What a plain tree holds at a path is something that the store holds.
pub proof fn lemma_leaf_fits(st: StoreView, t: TreeId, q: PathView)
    requires
        st.wf(),
        t.0 < st.trees.len(),
    ensures
        value_fits(st, entry_at(st, t, q)),
    decreases q.len(),
{
    if q.len() > 0 {
        crate::merged_tree::lemma_entry_below(st, t, q[0]);
        crate::store::lemma_bound_grows(st, t.0 as int, st.trees.len() as int);
        if q.len() >= 2 {
            if let Some(TreeValue::Tree(sub)) = lookup(st.tree(t), q[0]) {
                lemma_leaf_fits(st, sub, q.skip(1));
            }
        }
    }
}

/// Below a file, a symlink or a conflict record a plain tree holds nothing.
pub proof fn lemma_nothing_below_leaf(st: StoreView, t: TreeId, p: PathView, q: PathView)
    requires
        leaf_at(st, t, p).is_some(),
        proper_prefix(p, q),
    ensures
        entry_at(st, t, q).is_none(),
    decreases p.len(),
{
    if p.len() > 0 {
        assert(q[0] == p[0]) by {
            assert(q.take(p.len() as int)[0] == p[0]);
        }
        if p.len() >= 2 {
            if let Some(TreeValue::Tree(sub)) = lookup(st.tree(t), p[0]) {
                assert(proper_prefix(p.skip(1), q.skip(1))) by {
                    assert(q.skip(1).take(p.skip(1).len() as int) =~= q.take(p.len() as int).skip(1));
                }
                lemma_nothing_below_leaf(st, sub, p.skip(1), q.skip(1));
            }
        }
    }
}

/// The new values are exactly what the plain tree `t` holds: each is the
/// single value at its path, and every path at which the tree holds a file,
/// a symlink or a conflict record has one.
pub open spec fn holds_leaves_of(ovs: OverridesView, st: StoreView, t: TreeId) -> bool {
    &&& forall|i: int|
        0 <= i < ovs.len() ==> (#[trigger] ovs[i]).1.is_resolved() && ovs[i].1.wf()
            && ovs[i].1.adds[0].is_some() && ovs[i].1.adds[0] == leaf_at(st, t, ovs[i].0)
    &&& forall|q: PathView|
        (#[trigger] leaf_at(st, t, q)).is_some() ==> exists|i: int|
            0 <= i < ovs.len() && (#[trigger] ovs[i]).0 == q
}

/// Some new value before position `i` is for the path `q`.
pub open spec fn given_before(ovs: OverridesView, i: int, q: PathView) -> bool {
    exists|j: int| 0 <= j < i && j < ovs.len() && (#[trigger] ovs[j]).0 == q
}

/// Putting what a plain tree holds into a tree that holds the part before
/// position `i` of it gives the plain tree.
pub proof fn lemma_rebuild_from(
    st0: StoreView,
    t: TreeId,
    ovs: OverridesView,
    st: StoreView,
    cur: TreeId,
    i: int,
)
    requires
        st0.wf(),
        t.0 < st0.trees.len(),
        st.wf(),
        st0.extended_by(st),
        cur.0 < st.trees.len(),
        0 <= i <= ovs.len(),
        forall|k: int| 0 <= k < ovs.len() ==> (#[trigger] ovs[k]).0.len() > 0,
        holds_leaves_of(ovs, st0, t),
        forall|q: PathView|
            #[trigger] leaf_at(st, cur, q) == if given_before(ovs, i, q) {
                leaf_at(st0, t, q)
            } else {
                None
            },
        put_legacy(st, cur, ovs, i).0.trees.len() <= usize::MAX,
    ensures
        put_legacy(st, cur, ovs, i).1 == t,
        put_legacy(st, cur, ovs, i).0.wf(),
        st0.extended_by(put_legacy(st, cur, ovs, i).0),
    decreases ovs.len() - i,
{
    if i < ovs.len() {
        let p = ovs[i].0;
        let values = ovs[i].1;
        crate::algebra_laws::lemma_simplify_resolved(values);
        let value = values.adds[0];
        let (st1, next) = put_path(st, cur, p, value);
        assert(put_legacy(st, cur, ovs, i) == put_legacy(st1, next, ovs, i + 1));
        lemma_put_legacy_grows(st1, next, ovs, i + 1);
        lemma_leaf_fits(st0, t, p);
        crate::merged_tree_builder::lemma_value_fits_kept(st0, st, value);
        crate::tree_builder::lemma_put_path(st, cur, p, value);
        assert forall|q: PathView|
            #[trigger] leaf_at(st1, next, q) == if given_before(ovs, i + 1, q) {
                leaf_at(st0, t, q)
            } else {
                None
            } by {
            assert(given_before(ovs, i + 1, q) <==> (given_before(ovs, i, q) || q == p)) by {
                if given_before(ovs, i, q) {
                    let j = choose|j: int| 0 <= j < i && j < ovs.len() && (#[trigger] ovs[j]).0 == q;
                    assert(ovs[j].0 == q);
                }
                if q == p {
                    assert(ovs[i].0 == q);
                }
                if given_before(ovs, i + 1, q) {
                    let j = choose|j: int|
                        0 <= j < i + 1 && j < ovs.len() && (#[trigger] ovs[j]).0 == q;
                    if j < i {
                        assert(ovs[j].0 == q);
                    }
                }
            }
            assert(leaf_at(st, cur, q) == if given_before(ovs, i, q) {
                leaf_at(st0, t, q)
            } else {
                None
            });
            assert(leaf_at(st1, next, q) == crate::tree_builder::leaf_after_set(
                st,
                cur,
                p,
                value,
                q,
            ));
            assert(value == leaf_at(st0, t, p));
            assert(crate::tree_builder::leaf_of(value) == value);
            if q == p {
            } else if proper_prefix(p, q) {
                lemma_nothing_below_leaf(st0, t, p, q);
                if given_before(ovs, i, q) {
                    let j = choose|j: int| 0 <= j < i && j < ovs.len() && (#[trigger] ovs[j]).0 == q;
                    assert(ovs[j].1.adds[0] == leaf_at(st0, t, q));
                }
            } else if proper_prefix(q, p) {
                if given_before(ovs, i, q) {
                    let j = choose|j: int| 0 <= j < i && j < ovs.len() && (#[trigger] ovs[j]).0 == q;
                    assert(ovs[j].1.adds[0] == leaf_at(st0, t, q));
                    lemma_nothing_below_leaf(st0, t, q, p);
                }
            }
        }
        lemma_rebuild_from(st0, t, ovs, st1, next, i + 1);
    } else {
        assert forall|q: PathView| leaf_at(st, cur, q) == leaf_at(st, t, q) by {
            crate::tree_builder::lemma_entry_kept(st0, st, t, q);
            if leaf_at(st0, t, q).is_some() {
                let j = choose|j: int| 0 <= j < ovs.len() && (#[trigger] ovs[j]).0 == q;
                assert(given_before(ovs, i, q));
            }
            assert(leaf_at(st, cur, q) == if given_before(ovs, i, q) {
                leaf_at(st0, t, q)
            } else {
                None
            });
        }
        crate::content::lemma_same_leaves_same_tree(st, cur, t);
    }
}

/// Putting new values into a plain tree does not shrink the store.
pub proof fn lemma_put_legacy_grows(st: StoreView, t: TreeId, ovs: OverridesView, i: int)
    ensures
        put_legacy(st, t, ovs, i).0.trees.len() >= st.trees.len(),
    decreases ovs.len() - i,
{
    if 0 <= i < ovs.len() {
        let v = ovs[i].1.simplify();
        if v.is_resolved() {
            crate::tree_builder::lemma_put_path_grows(st, t, ovs[i].0, v.adds[0]);
            let (st1, t1) = put_path(st, t, ovs[i].0, v.adds[0]);
            lemma_put_legacy_grows(st1, t1, ovs, i + 1);
        } else {
            let (st1, c) = st.put_conflict(v);
            crate::tree_builder::lemma_put_path_grows(
                st1,
                t,
                ovs[i].0,
                Some(TreeValue::Conflict(c)),
            );
            let (st2, t2) = put_path(st1, t, ovs[i].0, Some(TreeValue::Conflict(c)));
            lemma_put_legacy_grows(st2, t2, ovs, i + 1);
        }
    }
}

/// Rebuilding a plain tree: a builder that starts from the empty tree and is
/// given exactly what a plain tree holds, conflict records as the entries
/// that name them, writes that tree again.
pub proof fn lemma_rebuild_plain_tree(st: StoreView, t: TreeId, b: BuilderView)
    requires
        st.wf(),
        t.0 < st.trees.len(),
        b.wf(),
        b.base == MergedTreeView::Legacy(TreeId(0)),
        holds_leaves_of(b.overrides, st, t),
        b.written(st).0.trees.len() <= usize::MAX,
    ensures
        b.written(st).1 == MergedTreeView::Legacy(t),
        b.written(st).0.wf(),
        st.extended_by(b.written(st).0),
{
    assert forall|q: PathView|
        #[trigger] leaf_at(st, TreeId(0), q) == if given_before(b.overrides, 0, q) {
            leaf_at(st, t, q)
        } else {
            None
        } by {
        crate::tree_builder::lemma_empty_tree_holds_nothing(st, q);
    }
    lemma_rebuild_from(st, t, b.overrides, st, TreeId(0), 0);
}


/// Turning an entry into what one side has of it does not shrink the store.
pub proof fn lemma_side_entry_grows(
    st: StoreView,
    parent: TreeId,
    value: TreeValue,
    added: bool,
    k: int,
)
    ensures
        side_entry(st, parent, value, added, k).0.trees.len() >= st.trees.len(),
    decreases parent.0, 0nat, 0nat,
{
    if let TreeValue::Tree(sub) = value {
        if sub.0 < parent.0 {
            lemma_side_grows(st, sub, added, k);
        }
    }
}

/// Turning entries into what one side has of them does not shrink the store.
pub proof fn lemma_side_from_grows(
    st: StoreView,
    t: TreeId,
    added: bool,
    k: int,
    i: int,
    acc: TreeView,
)
    ensures
        side_from(st, t, added, k, i, acc).0.trees.len() >= st.trees.len(),
    decreases t.0, 1nat, st.tree(t).len() - i,
{
    if 0 <= i < st.tree(t).len() {
        let entry = st.tree(t)[i];
        lemma_side_entry_grows(st, t, entry.1, added, k);
        let (st1, value) = side_entry(st, t, entry.1, added, k);
        if st1.tree(t) == st.tree(t) {
            lemma_side_from_grows(st1, t, added, k, i + 1, with_entry(acc, entry.0, value));
        }
    }
}

/// Turning a tree into what one side has of it does not shrink the store.
pub proof fn lemma_side_grows(st: StoreView, t: TreeId, added: bool, k: int)
    ensures
        side(st, t, added, k).0.trees.len() >= st.trees.len(),
    decreases t.0, 2nat, 0nat,
{
    lemma_side_from_grows(st, t, added, k, 0, Seq::empty());
}

/// Writing the trees of the sides does not shrink the store.
pub proof fn lemma_sides_grow(
    st: StoreView,
    t: TreeId,
    added: bool,
    n: int,
    k: int,
    ids: Seq<TreeId>,
)
    ensures
        sides(st, t, added, n, k, ids).0.trees.len() >= st.trees.len(),
    decreases n - k,
{
    if 0 <= k < n {
        lemma_side_grows(st, t, added, k);
        let (st1, id) = side(st, t, added, k);
        lemma_sides_grow(st1, t, added, n, k + 1, ids.push(id));
    }
}

/// An entry of a plain tree as one side has it is something that the store holds.
pub proof fn lemma_side_entry_sound(
    st0: StoreView,
    st: StoreView,
    parent: TreeId,
    value: TreeValue,
    added: bool,
    k: int,
)
    requires
        st0.wf(),
        st.wf(),
        st0.extended_by(st),
        parent.0 < st0.trees.len(),
        st0.value_ok(value, parent.0 as int),
        side_entry(st, parent, value, added, k).0.trees.len() <= usize::MAX,
    ensures
        side_entry(st, parent, value, added, k).0.wf(),
        st.extended_by(side_entry(st, parent, value, added, k).0),
        value_fits(
            side_entry(st, parent, value, added, k).0,
            side_entry(st, parent, value, added, k).1,
        ),
        side_entry(st, parent, value, added, k).0.conflicts == st.conflicts,
        side_entry(st, parent, value, added, k).0.files == st.files,
    decreases parent.0, 0nat, 0nat,
{
    crate::store::lemma_extended_ok(st0, st);
    crate::store::lemma_bound_grows(st, parent.0 as int, st.trees.len() as int);
    match value {
        TreeValue::Conflict(c) => {
            let terms = st.conflicts[c.0 as int];
            assert(st.terms_ok(terms, st.trees.len() as int));
            let term = crate::legacy::padded_term(terms, added, k);
            if added {
                if 0 <= k < terms.adds.len() {
                    assert(st.term_ok(terms.adds[k], st.trees.len() as int));
                }
            } else {
                if 0 <= k < terms.removes.len() {
                    assert(st.term_ok(terms.removes[k], st.trees.len() as int));
                }
            }
        },
        TreeValue::Tree(sub) => {
            lemma_side_sound(st0, st, sub, added, k);
        },
        _ => {},
    }
}

/// The entries of a plain tree as one side has them make an ordered tree
/// of things that the store holds.
pub proof fn lemma_side_from_sound(
    st0: StoreView,
    st: StoreView,
    t: TreeId,
    added: bool,
    k: int,
    i: int,
    acc: TreeView,
)
    requires
        st0.wf(),
        st.wf(),
        st0.extended_by(st),
        t.0 < st0.trees.len(),
        0 <= i <= st0.tree(t).len(),
        tree_sorted(acc),
        st.entries_ok(acc, st.trees.len() as int),
        side_from(st, t, added, k, i, acc).0.trees.len() <= usize::MAX,
    ensures
        side_from(st, t, added, k, i, acc).0.wf(),
        st.extended_by(side_from(st, t, added, k, i, acc).0),
        tree_sorted(side_from(st, t, added, k, i, acc).1),
        side_from(st, t, added, k, i, acc).0.entries_ok(
            side_from(st, t, added, k, i, acc).1,
            side_from(st, t, added, k, i, acc).0.trees.len() as int,
        ),
        side_from(st, t, added, k, i, acc).0.conflicts == st.conflicts,
        side_from(st, t, added, k, i, acc).0.files == st.files,
    decreases t.0, 1nat, st.tree(t).len() - i,
{
    assert(st.tree(t) == st0.tree(t));
    if i < st.tree(t).len() {
        let entry = st.tree(t)[i];
        assert(st0.entries_ok(st0.trees[t.0 as int], t.0 as int));
        assert(st0.value_ok(entry.1, t.0 as int));
        let (st1, value) = side_entry(st, t, entry.1, added, k);
        let next = with_entry(acc, entry.0, value);
        lemma_side_entry_grows(st, t, entry.1, added, k);
        assert(side_from(st, t, added, k, i, acc).0.trees.len() >= st1.trees.len()) by {
            if st1.tree(t) == st.tree(t) {
                lemma_side_from_grows(st1, t, added, k, i + 1, next);
            }
        }
        lemma_side_entry_sound(st0, st, t, entry.1, added, k);
        assert(st1.tree(t) == st.tree(t));
        crate::tree::lemma_with_entry_sorted(acc, entry.0, value);
        crate::tree_builder::lemma_entries_fit(st, st1, acc, entry.0, value);
        lemma_side_from_sound(st0, st1, t, added, k, i + 1, next);
    }
}

/// A plain tree as one side has it is a tree of the store, written
/// without disturbing what the store held.
pub proof fn lemma_side_sound(st0: StoreView, st: StoreView, t: TreeId, added: bool, k: int)
    requires
        st0.wf(),
        st.wf(),
        st0.extended_by(st),
        t.0 < st0.trees.len(),
        side(st, t, added, k).0.trees.len() <= usize::MAX,
    ensures
        side(st, t, added, k).0.wf(),
        st.extended_by(side(st, t, added, k).0),
        side(st, t, added, k).1.0 < side(st, t, added, k).0.trees.len(),
        side(st, t, added, k).0.conflicts == st.conflicts,
        side(st, t, added, k).0.files == st.files,
    decreases t.0, 2nat, 0nat,
{
    let (st1, content) = side_from(st, t, added, k, 0, Seq::empty());
    assert(st1.put_tree(content).0.trees.len() >= st1.trees.len());
    lemma_side_from_sound(st0, st, t, added, k, 0, Seq::empty());
    crate::store::lemma_put_tree(st1, content);
}

/// The trees of the sides of a plain tree are trees of the store.
pub proof fn lemma_sides_sound(
    st0: StoreView,
    st: StoreView,
    t: TreeId,
    added: bool,
    n: int,
    k: int,
    ids: Seq<TreeId>,
)
    requires
        st0.wf(),
        st.wf(),
        st0.extended_by(st),
        t.0 < st0.trees.len(),
        0 <= k <= n,
        ids.len() == k,
        forall|j: int| 0 <= j < ids.len() ==> (#[trigger] ids[j]).0 < st.trees.len(),
        sides(st, t, added, n, k, ids).0.trees.len() <= usize::MAX,
    ensures
        sides(st, t, added, n, k, ids).0.wf(),
        st.extended_by(sides(st, t, added, n, k, ids).0),
        sides(st, t, added, n, k, ids).1.len() == n,
        sides(st, t, added, n, k, ids).0.files == st.files,
        forall|j: int|
            0 <= j < n ==> (#[trigger] sides(st, t, added, n, k, ids).1[j]).0 < sides(
                st,
                t,
                added,
                n,
                k,
                ids,
            ).0.trees.len(),
    decreases n - k,
{
    if k < n {
        let (st1, id) = side(st, t, added, k);
        lemma_sides_grow(st1, t, added, n, k + 1, ids.push(id));
        lemma_side_sound(st0, st, t, added, k);
        let next = ids.push(id);
        assert forall|j: int| 0 <= j < next.len() implies (#[trigger] next[j]).0
            < st1.trees.len() by {
            if j < k {
                assert(next[j] == ids[j]);
            }
        }
        lemma_sides_sound(st0, st1, t, added, n, k + 1, next);
    }
}

/// Turning a plain tree into removed and added trees keeps the store in
/// order and gives trees of the store.
pub proof fn lemma_from_legacy_sound(st: StoreView, t: TreeId)
    requires
        st.wf(),
        t.0 < st.trees.len(),
        from_legacy(st, t).0.trees.len() <= usize::MAX,
    ensures
        from_legacy(st, t).0.wf(),
        st.extended_by(from_legacy(st, t).0),
        MergedTreeView::Merge(from_legacy(st, t).1).valid(from_legacy(st, t).0),
        from_legacy(st, t).0.files == st.files,
{
    let n = crate::legacy::max_sides(st, t);
    if n > 0 {
        let (st1, removes) = sides(st, t, false, n - 1, 0, Seq::empty());
        lemma_sides_grow(st1, t, true, n as int, 0, Seq::empty());
        lemma_sides_sound(st, st, t, false, n - 1, 0, Seq::empty());
        lemma_sides_sound(st, st1, t, true, n as int, 0, Seq::empty());
        let (st2, adds) = sides(st1, t, true, n as int, 0, Seq::empty());
        assert(from_legacy(st, t) == (st2, MergeView { removes, adds }));
    }
}

/// Resolve idempotence for a plain tree: resolving what resolving it gave
/// gives the same trees again and writes nothing more.
pub proof fn lemma_resolve_plain_twice(st: StoreView, t: TreeId)
    requires
        st.wf(),
        t.0 < st.trees.len(),
        crate::tree_merge_laws::bounded(
            crate::tree_merge::resolved_trees(st, MergedTreeView::Legacy(t)).0,
        ),
        st.files.len() <= usize::MAX,
    ensures
        crate::tree_merge::resolved_trees(
            crate::tree_merge::resolved_trees(st, MergedTreeView::Legacy(t)).0,
            MergedTreeView::Merge(
                crate::tree_merge::resolved_trees(st, MergedTreeView::Legacy(t)).1,
            ),
        ) == crate::tree_merge::resolved_trees(st, MergedTreeView::Legacy(t)),
{
    let (st1, trees) = from_legacy(st, t);
    crate::tree_merge_laws::lemma_merge_trees_grows(st1, trees);
    lemma_from_legacy_sound(st, t);
    crate::tree_merge_laws::lemma_merge_trees_sound(st1, trees);
    let (st2, merged) = crate::tree_merge::merge_trees(st1, trees);
    assert(crate::tree_merge_laws::settled_in(merged, st2));
}


/// What a term of a conflict holds at the rest of a path: itself where the
/// path ends, else what its directory holds there.
pub open spec fn term_leaf(st: StoreView, term: Option<TreeValue>, rest: PathView) -> Option<
    TreeValue,
> {
    if rest.len() == 0 {
        leaf_of(term)
    } else {
        match term {
            Some(TreeValue::Tree(sub)) => leaf_at(st, sub, rest),
            _ => None,
        }
    }
}

/// What one side of the plain tree `t` holds at a path: what the tree holds
/// there, with a conflict record on the way replaced by its term of that side.
pub open spec fn side_leaf(st: StoreView, t: TreeId, added: bool, k: int, q: PathView) -> Option<
    TreeValue,
>
    decreases q.len(),
{
    if q.len() == 0 {
        None
    } else {
        match lookup(st.tree(t), q[0]) {
            Some(TreeValue::Conflict(c)) => term_leaf(
                st,
                padded_term(st.conflicts[c.0 as int], added, k),
                q.skip(1),
            ),
            Some(TreeValue::Tree(sub)) => if q.len() == 1 {
                None
            } else {
                side_leaf(st, sub, added, k, q.skip(1))
            },
            other => if q.len() == 1 {
                other
            } else {
                None
            },
        }
    }
}

/// What a directory that is not yet written holds at a path.
pub open spec fn view_leaf(st: StoreView, tree: TreeView, q: PathView) -> Option<TreeValue> {
    if q.len() == 0 {
        None
    } else {
        term_leaf(st, lookup(tree, q[0]), q.skip(1))
    }
}

/// What a stored tree holds at a path is what its directory holds there.
pub proof fn lemma_view_leaf(st: StoreView, t: TreeId, q: PathView)
    ensures
        leaf_at(st, t, q) == view_leaf(st, st.tree(t), q),
{
    if q.len() >= 2 {
        match lookup(st.tree(t), q[0]) {
            Some(TreeValue::Tree(sub)) => {},
            _ => {},
        }
    }
}

/// What a term that the store holds has at a path stays the same when the
/// store grows.
pub proof fn lemma_term_leaf_kept(
    old_store: StoreView,
    new_store: StoreView,
    term: Option<TreeValue>,
    rest: PathView,
)
    requires
        old_store.wf(),
        old_store.extended_by(new_store),
        value_fits(old_store, term),
    ensures
        term_leaf(new_store, term, rest) == term_leaf(old_store, term, rest),
{
    if rest.len() > 0 {
        if let Some(TreeValue::Tree(sub)) = term {
            crate::tree_builder::lemma_entry_kept(old_store, new_store, sub, rest);
        }
    }
}

/// What one side of a plain tree holds at a path stays the same when the
/// store grows.
pub proof fn lemma_side_leaf_kept(
    old_store: StoreView,
    new_store: StoreView,
    t: TreeId,
    added: bool,
    k: int,
    q: PathView,
)
    requires
        old_store.wf(),
        old_store.extended_by(new_store),
        t.0 < old_store.trees.len(),
    ensures
        side_leaf(new_store, t, added, k, q) == side_leaf(old_store, t, added, k, q),
    decreases q.len(),
{
    if q.len() > 0 {
        assert(new_store.tree(t) == old_store.tree(t));
        crate::merged_tree::lemma_entry_below(old_store, t, q[0]);
        crate::store::lemma_bound_grows(old_store, t.0 as int, old_store.trees.len() as int);
        match lookup(old_store.tree(t), q[0]) {
            Some(TreeValue::Conflict(c)) => {
                let terms = old_store.conflicts[c.0 as int];
                assert(new_store.conflicts[c.0 as int] == terms);
                lemma_padded_term_fits(old_store, terms, added, k);
                lemma_term_leaf_kept(
                    old_store,
                    new_store,
                    padded_term(terms, added, k),
                    q.skip(1),
                );
            },
            Some(TreeValue::Tree(sub)) => {
                if q.len() >= 2 {
                    lemma_side_leaf_kept(old_store, new_store, sub, added, k, q.skip(1));
                }
            },
            _ => {},
        }
    }
}

/// The term of a stored record on a side is something that the store holds.
pub proof fn lemma_padded_term_fits(st: StoreView, terms: ValueTerms, added: bool, k: int)
    requires
        st.terms_ok(terms, st.trees.len() as int),
    ensures
        value_fits(st, padded_term(terms, added, k)),
        !(padded_term(terms, added, k) matches Some(TreeValue::Conflict(_))),
{
    if added {
        if 0 <= k < terms.adds.len() {
            assert(st.term_ok(terms.adds[k], st.trees.len() as int));
        }
    } else {
        if 0 <= k < terms.removes.len() {
            assert(st.term_ok(terms.removes[k], st.trees.len() as int));
        }
    }
}


/// What one side holds below an entry of a plain tree, at the rest of a path.
pub open spec fn entry_side_leaf(
    st: StoreView,
    value: TreeValue,
    added: bool,
    k: int,
    rest: PathView,
) -> Option<TreeValue> {
    match value {
        TreeValue::Conflict(c) => term_leaf(
            st,
            padded_term(st.conflicts[c.0 as int], added, k),
            rest,
        ),
        TreeValue::Tree(sub) => if rest.len() == 0 {
            None
        } else {
            side_leaf(st, sub, added, k, rest)
        },
        other => if rest.len() == 0 {
            Some(other)
        } else {
            None
        },
    }
}

/// What one side of a plain tree holds at a path is what it holds below the
/// entry under the first name.
pub proof fn lemma_side_leaf_by_entry(st: StoreView, t: TreeId, added: bool, k: int, q: PathView)
    requires
        q.len() > 0,
    ensures
        side_leaf(st, t, added, k, q) == match lookup(st.tree(t), q[0]) {
            Some(value) => entry_side_leaf(st, value, added, k, q.skip(1)),
            None => None,
        },
{
}

/// Some entry of the directory from position `i` on is called `x`.
pub open spec fn has_later(tree: TreeView, i: int, x: Seq<u8>) -> bool {
    exists|j: int| i <= j < tree.len() && (#[trigger] tree[j]).0 == x
}

/// An entry of a plain tree as one side has it holds what that side holds
/// below the entry.
pub proof fn lemma_side_entry_leaves(
    st0: StoreView,
    st: StoreView,
    parent: TreeId,
    value: TreeValue,
    added: bool,
    k: int,
)
    requires
        st0.wf(),
        st.wf(),
        st0.extended_by(st),
        parent.0 < st0.trees.len(),
        st0.value_ok(value, parent.0 as int),
        side_entry(st, parent, value, added, k).0.trees.len() <= usize::MAX,
    ensures
        forall|rest: PathView|
            #[trigger] term_leaf(
                side_entry(st, parent, value, added, k).0,
                side_entry(st, parent, value, added, k).1,
                rest,
            ) == entry_side_leaf(st0, value, added, k, rest),
    decreases parent.0, 0nat, 0nat,
{
    let (st1, v) = side_entry(st, parent, value, added, k);
    crate::store::lemma_bound_grows(st0, parent.0 as int, st0.trees.len() as int);
    assert forall|rest: PathView|
        #[trigger] term_leaf(st1, v, rest) == entry_side_leaf(st0, value, added, k, rest) by {
        match value {
            TreeValue::Conflict(c) => {
                let terms = st0.conflicts[c.0 as int];
                assert(st.conflicts[c.0 as int] == terms);
                lemma_padded_term_fits(st0, terms, added, k);
                lemma_term_leaf_kept(st0, st, padded_term(terms, added, k), rest);
            },
            TreeValue::Tree(sub) => {
                lemma_side_leaves(st0, st, sub, added, k);
                let (st_sub, id) = side(st, sub, added, k);
                if rest.len() > 0 {
                    if id.0 == 0 {
                        lemma_side_sound(st0, st, sub, added, k);
                        crate::tree_builder::lemma_empty_tree_holds_nothing(st_sub, rest);
                        assert(leaf_at(st_sub, id, rest) == side_leaf(st0, sub, added, k, rest));
                    } else {
                        assert(leaf_at(st_sub, id, rest) == side_leaf(st0, sub, added, k, rest));
                    }
                }
            },
            _ => {},
        }
    }
}

/// The entries of a plain tree as one side has them hold what that side
/// holds below them.
pub proof fn lemma_side_from_leaves(
    st0: StoreView,
    st: StoreView,
    t: TreeId,
    added: bool,
    k: int,
    i: int,
    acc: TreeView,
)
    requires
        st0.wf(),
        st.wf(),
        st0.extended_by(st),
        t.0 < st0.trees.len(),
        0 <= i <= st0.tree(t).len(),
        tree_sorted(acc),
        st.entries_ok(acc, st.trees.len() as int),
        side_from(st, t, added, k, i, acc).0.trees.len() <= usize::MAX,
    ensures
        forall|q: PathView|
            q.len() > 0 ==> #[trigger] view_leaf(
                side_from(st, t, added, k, i, acc).0,
                side_from(st, t, added, k, i, acc).1,
                q,
            ) == if has_later(st0.tree(t), i, q[0]) {
                side_leaf(st0, t, added, k, q)
            } else {
                view_leaf(st, acc, q)
            },
    decreases t.0, 1nat, st.tree(t).len() - i,
{
    let tree = st0.tree(t);
    assert(st.tree(t) == tree);
    assert(tree_sorted(st0.trees[t.0 as int]));
    if i < tree.len() {
        let entry = tree[i];
        assert(st0.entries_ok(st0.trees[t.0 as int], t.0 as int));
        assert(st0.value_ok(entry.1, t.0 as int));
        let (st1, value) = side_entry(st, t, entry.1, added, k);
        let next = with_entry(acc, entry.0, value);
        lemma_side_entry_grows(st, t, entry.1, added, k);
        assert(side_from(st, t, added, k, i, acc).0.trees.len() >= st1.trees.len()) by {
            if st1.tree(t) == st.tree(t) {
                lemma_side_from_grows(st1, t, added, k, i + 1, next);
            }
        }
        lemma_side_entry_sound(st0, st, t, entry.1, added, k);
        lemma_side_entry_leaves(st0, st, t, entry.1, added, k);
        assert(st1.tree(t) == st.tree(t));
        crate::tree::lemma_with_entry_sorted(acc, entry.0, value);
        crate::tree_builder::lemma_entries_fit(st, st1, acc, entry.0, value);
        lemma_side_from_leaves(st0, st1, t, added, k, i + 1, next);
        lemma_side_from_sound(st0, st1, t, added, k, i + 1, next);
        let (st_end, result) = side_from(st1, t, added, k, i + 1, next);
        assert(side_from(st, t, added, k, i, acc) == (st_end, result));
        crate::tree::lemma_lookup_at(tree, i);
        assert forall|q: PathView| q.len() > 0 implies #[trigger] view_leaf(st_end, result, q)
            == if has_later(tree, i, q[0]) {
            side_leaf(st0, t, added, k, q)
        } else {
            view_leaf(st, acc, q)
        } by {
            assert(has_later(tree, i, q[0]) <==> (has_later(tree, i + 1, q[0]) || q[0]
                == entry.0)) by {
                if has_later(tree, i + 1, q[0]) {
                    let j = choose|j: int| i + 1 <= j < tree.len() && (#[trigger] tree[j]).0 == q[0];
                    assert(tree[j].0 == q[0]);
                }
                if q[0] == entry.0 {
                    assert(tree[i].0 == q[0]);
                }
                if has_later(tree, i, q[0]) {
                    let j = choose|j: int| i <= j < tree.len() && (#[trigger] tree[j]).0 == q[0];
                    if j > i {
                        assert(tree[j].0 == q[0]);
                    }
                }
            }
            assert(view_leaf(st_end, result, q) == if has_later(tree, i + 1, q[0]) {
                side_leaf(st0, t, added, k, q)
            } else {
                view_leaf(st1, next, q)
            });
            if has_later(tree, i + 1, q[0]) {
            } else if q[0] == entry.0 {
                crate::tree::lemma_with_entry_same(acc, entry.0, value);
                lemma_side_leaf_by_entry(st0, t, added, k, q);
                assert(term_leaf(st1, value, q.skip(1)) == entry_side_leaf(
                    st0,
                    entry.1,
                    added,
                    k,
                    q.skip(1),
                ));
            } else {
                crate::tree::lemma_with_entry_other(acc, entry.0, value, q[0]);
                lemma_view_leaf_kept(st, st1, acc, q);
            }
        }
    }
}

/// What a directory of things that a store holds has at a path stays the
/// same when the store grows.
pub proof fn lemma_view_leaf_kept(
    old_store: StoreView,
    new_store: StoreView,
    tree: TreeView,
    q: PathView,
)
    requires
        old_store.wf(),
        old_store.extended_by(new_store),
        tree_sorted(tree),
        old_store.entries_ok(tree, old_store.trees.len() as int),
    ensures
        view_leaf(new_store, tree, q) == view_leaf(old_store, tree, q),
{
    if q.len() > 0 {
        crate::tree::lemma_lookup_some(tree, q[0]);
        crate::tree::lemma_lower_bound(tree, q[0], 0);
        if lookup(tree, q[0]).is_some() {
            let p = crate::tree::lower_bound(tree, q[0], 0);
            assert(old_store.value_ok(tree[p].1, old_store.trees.len() as int));
            lemma_term_leaf_kept(old_store, new_store, lookup(tree, q[0]), q.skip(1));
        }
    }
}

/// A plain tree as one side has it holds at every path what that side holds.
pub proof fn lemma_side_leaves(st0: StoreView, st: StoreView, t: TreeId, added: bool, k: int)
    requires
        st0.wf(),
        st.wf(),
        st0.extended_by(st),
        t.0 < st0.trees.len(),
        side(st, t, added, k).0.trees.len() <= usize::MAX,
    ensures
        forall|q: PathView|
            #[trigger] leaf_at(side(st, t, added, k).0, side(st, t, added, k).1, q) == side_leaf(
                st0,
                t,
                added,
                k,
                q,
            ),
    decreases t.0, 2nat, 0nat,
{
    let empty = Seq::<(Seq<u8>, TreeValue)>::empty();
    let (st1, content) = side_from(st, t, added, k, 0, empty);
    assert(st1.put_tree(content).0.trees.len() >= st1.trees.len());
    lemma_side_from_sound(st0, st, t, added, k, 0, empty);
    lemma_side_from_leaves(st0, st, t, added, k, 0, empty);
    crate::store::lemma_put_tree(st1, content);
    let (st2, r) = st1.put_tree(content);
    assert forall|q: PathView| #[trigger] leaf_at(st2, r, q) == side_leaf(st0, t, added, k, q) by {
        lemma_view_leaf(st2, r, q);
        if q.len() > 0 {
            lemma_view_leaf_kept(st1, st2, content, q);
            assert(view_leaf(st1, content, q) == if has_later(st0.tree(t), 0, q[0]) {
                side_leaf(st0, t, added, k, q)
            } else {
                view_leaf(st, empty, q)
            });
            crate::tree::lemma_lower_bound(empty, q[0], 0);
            if !has_later(st0.tree(t), 0, q[0]) {
                // The tree has no entry of that name.
                assert(tree_sorted(st0.trees[t.0 as int]));
                crate::tree::lemma_lookup_some(st0.tree(t), q[0]);
                if lookup(st0.tree(t), q[0]).is_some() {
                    let j = choose|j: int|
                        0 <= j < st0.tree(t).len() && #[trigger] st0.tree(t)[j].0 == q[0];
                    assert(has_later(st0.tree(t), 0, q[0]));
                }
            }
        }
    }
}


/// The terms that a plain tree stands for where it holds `leaf`: those of
/// the record that a conflict entry names, else the single value.
pub open spec fn logical_value(st: StoreView, leaf: TreeValue) -> ValueTerms {
    match leaf {
        TreeValue::Conflict(c) => st.conflicts[c.0 as int],
        other => MergeView::resolved(Some(other)),
    }
}

/// The new values are exactly what the plain tree `t` stands for: at each
/// path where it holds a file, a symlink or a conflict record, the terms
/// there, conflicts being real ones with something removed.
pub open spec fn holds_values_of(ovs: OverridesView, st: StoreView, t: TreeId) -> bool {
    &&& forall|i: int|
        0 <= i < ovs.len() ==> leaf_at(st, t, (#[trigger] ovs[i]).0).is_some() && ovs[i].1
            == logical_value(st, leaf_at(st, t, ovs[i].0).unwrap()) && (leaf_at(
            st,
            t,
            ovs[i].0,
        ).unwrap() is Conflict ==> !ovs[i].1.is_resolved())
    &&& forall|q: PathView|
        (#[trigger] leaf_at(st, t, q)).is_some() ==> exists|i: int|
            0 <= i < ovs.len() && (#[trigger] ovs[i]).0 == q
}

/// Some new value before position `i` is for the path `q` or for a
/// directory that leads to it.
pub open spec fn covered(ovs: OverridesView, i: int, q: PathView) -> bool {
    exists|j: int|
        0 <= j < i && j < ovs.len() && ((#[trigger] ovs[j]).0 == q || proper_prefix(ovs[j].0, q))
}

/// At and below a path where a plain tree holds a leaf, a side holds what
/// it holds below that leaf.
pub proof fn lemma_side_leaf_below(
    st: StoreView,
    t: TreeId,
    added: bool,
    k: int,
    p: PathView,
    q: PathView,
)
    requires
        leaf_at(st, t, p).is_some(),
        q == p || proper_prefix(p, q),
    ensures
        side_leaf(st, t, added, k, q) == entry_side_leaf(
            st,
            leaf_at(st, t, p).unwrap(),
            added,
            k,
            q.skip(p.len() as int),
        ),
    decreases p.len(),
{
    if p.len() > 0 {
        assert(q[0] == p[0]) by {
            if proper_prefix(p, q) {
                assert(q.take(p.len() as int)[0] == p[0]);
            }
        }
        lemma_side_leaf_by_entry(st, t, added, k, q);
        if p.len() == 1 {
            assert(q.skip(1) =~= q.skip(p.len() as int));
        } else {
            if let Some(TreeValue::Tree(sub)) = lookup(st.tree(t), p[0]) {
                assert(q.skip(1) == p.skip(1) || proper_prefix(p.skip(1), q.skip(1))) by {
                    if proper_prefix(p, q) {
                        assert(q.skip(1).take(p.skip(1).len() as int) =~= q.take(
                            p.len() as int,
                        ).skip(1));
                    }
                }
                assert(q.skip(1).skip(p.skip(1).len() as int) =~= q.skip(p.len() as int));
                lemma_side_leaf_below(st, sub, added, k, p.skip(1), q.skip(1));
            }
        }
    }
}

/// Where a side of a plain tree holds something, the tree holds a leaf at
/// the path or at a directory that leads to it.
pub proof fn lemma_side_leaf_source(st: StoreView, t: TreeId, added: bool, k: int, q: PathView) -> (p:
    PathView)
    requires
        side_leaf(st, t, added, k, q).is_some(),
    ensures
        p == q || proper_prefix(p, q),
        leaf_at(st, t, p).is_some(),
    decreases q.len(),
{
    match lookup(st.tree(t), q[0]) {
        Some(TreeValue::Tree(sub)) => {
            let rest = lemma_side_leaf_source(st, sub, added, k, q.skip(1));
            let p = seq![q[0]] + rest;
            assert(p[0] == q[0]);
            assert(p.skip(1) =~= rest);
            assert(seq![q[0]] + q.skip(1) =~= q);
            if rest != q.skip(1) {
                assert(q.take(p.len() as int) =~= seq![q[0]] + q.skip(1).take(rest.len() as int));
            }
            p
        },
        Some(TreeValue::Conflict(c)) => {
            let p = seq![q[0]];
            assert(p[0] == q[0]);
            if q.len() > 1 {
                assert(q.take(1) =~= p);
            } else {
                assert(p =~= q);
            }
            p
        },
        _ => q,
    }
}

/// What a side gets from the terms that a plain tree stands for at a leaf
/// holds what that side holds below the leaf, and the store holds it.
pub proof fn lemma_side_value_of_leaf(
    st: StoreView,
    t: TreeId,
    p: PathView,
    added: bool,
    k: int,
    rest: PathView,
)
    requires
        st.wf(),
        t.0 < st.trees.len(),
        leaf_at(st, t, p).is_some(),
        leaf_at(st, t, p).unwrap() is Conflict ==> !logical_value(
            st,
            leaf_at(st, t, p).unwrap(),
        ).is_resolved(),
    ensures
        value_fits(st, side_value(logical_value(st, leaf_at(st, t, p).unwrap()), added, k)),
        term_leaf(st, side_value(logical_value(st, leaf_at(st, t, p).unwrap()), added, k), rest)
            == entry_side_leaf(st, leaf_at(st, t, p).unwrap(), added, k, rest),
{
    lemma_leaf_fits(st, t, p);
    let leaf = leaf_at(st, t, p).unwrap();
    if let TreeValue::Conflict(c) = leaf {
        lemma_padded_term_fits(st, st.conflicts[c.0 as int], added, k);
    }
}

/// Putting what a side gets from each new value into a tree that holds the
/// part of that side given before position `i` gives a tree that holds the
/// part given by all.
pub proof fn lemma_put_side_leaves(
    st0: StoreView,
    t: TreeId,
    ovs: OverridesView,
    added: bool,
    k: int,
    st: StoreView,
    cur: TreeId,
    i: int,
)
    requires
        st0.wf(),
        t.0 < st0.trees.len(),
        st.wf(),
        st0.extended_by(st),
        cur.0 < st.trees.len(),
        0 <= i <= ovs.len(),
        forall|x: int| 0 <= x < ovs.len() ==> (#[trigger] ovs[x]).0.len() > 0,
        holds_values_of(ovs, st0, t),
        forall|q: PathView|
            #[trigger] leaf_at(st, cur, q) == if covered(ovs, i, q) {
                side_leaf(st0, t, added, k, q)
            } else {
                None
            },
        put_side(st, cur, ovs, added, k, i).0.trees.len() <= usize::MAX,
    ensures
        put_side(st, cur, ovs, added, k, i).0.wf(),
        st.extended_by(put_side(st, cur, ovs, added, k, i).0),
        put_side(st, cur, ovs, added, k, i).1.0 < put_side(st, cur, ovs, added, k, i).0.trees.len(),
        forall|q: PathView|
            #[trigger] leaf_at(
                put_side(st, cur, ovs, added, k, i).0,
                put_side(st, cur, ovs, added, k, i).1,
                q,
            ) == if covered(ovs, ovs.len() as int, q) {
                side_leaf(st0, t, added, k, q)
            } else {
                None
            },
    decreases ovs.len() - i,
{
    if i < ovs.len() {
        let p = ovs[i].0;
        let leaf = leaf_at(st0, t, p).unwrap();
        let value = side_value(ovs[i].1, added, k);
        let (st1, next) = put_path(st, cur, p, value);
        assert(put_side(st, cur, ovs, added, k, i) == put_side(st1, next, ovs, added, k, i + 1));
        lemma_put_side_grows(st1, next, ovs, added, k, i + 1);
        lemma_side_value_of_leaf(st0, t, p, added, k, Seq::empty());
        crate::merged_tree_builder::lemma_value_fits_kept(st0, st, value);
        crate::tree_builder::lemma_put_path(st, cur, p, value);
        assert forall|q: PathView|
            #[trigger] leaf_at(st1, next, q) == if covered(ovs, i + 1, q) {
                side_leaf(st0, t, added, k, q)
            } else {
                None
            } by {
            let at_or_below = q == p || proper_prefix(p, q);
            assert(covered(ovs, i + 1, q) <==> (covered(ovs, i, q) || at_or_below)) by {
                if covered(ovs, i, q) {
                    let j = choose|j: int|
                        0 <= j < i && j < ovs.len() && ((#[trigger] ovs[j]).0 == q || proper_prefix(
                            ovs[j].0,
                            q,
                        ));
                    assert(ovs[j].0 == q || proper_prefix(ovs[j].0, q));
                }
                if at_or_below {
                    assert(ovs[i].0 == q || proper_prefix(ovs[i].0, q));
                }
                if covered(ovs, i + 1, q) {
                    let j = choose|j: int|
                        0 <= j < i + 1 && j < ovs.len() && ((#[trigger] ovs[j]).0 == q
                            || proper_prefix(ovs[j].0, q));
                    if j < i {
                        assert(ovs[j].0 == q || proper_prefix(ovs[j].0, q));
                    }
                }
            }
            assert(leaf_at(st, cur, q) == if covered(ovs, i, q) {
                side_leaf(st0, t, added, k, q)
            } else {
                None
            });
            assert(leaf_at(st1, next, q) == crate::tree_builder::leaf_after_set(
                st,
                cur,
                p,
                value,
                q,
            ));
            if at_or_below {
                let rest = q.skip(p.len() as int);
                lemma_side_value_of_leaf(st0, t, p, added, k, rest);
                lemma_term_leaf_kept(st0, st, value, rest);
                lemma_side_leaf_below(st0, t, added, k, p, q);
                if q == p {
                    assert(rest.len() == 0);
                }
            } else if proper_prefix(q, p) {
                if covered(ovs, i, q) {
                    let j = choose|j: int|
                        0 <= j < i && j < ovs.len() && ((#[trigger] ovs[j]).0 == q || proper_prefix(
                            ovs[j].0,
                            q,
                        ));
                    let pj = ovs[j].0;
                    assert(proper_prefix(pj, p)) by {
                        if pj != q {
                            assert(p.take(pj.len() as int) =~= p.take(q.len() as int).take(
                                pj.len() as int,
                            ));
                        }
                    }
                    lemma_nothing_below_leaf(st0, t, pj, p);
                }
            }
        }
        lemma_put_side_leaves(st0, t, ovs, added, k, st1, next, i + 1);
    }
}

/// Putting the terms of a side into a tree does not shrink the store.
pub proof fn lemma_put_side_grows(
    st: StoreView,
    t: TreeId,
    ovs: OverridesView,
    added: bool,
    k: int,
    i: int,
)
    ensures
        put_side(st, t, ovs, added, k, i).0.trees.len() >= st.trees.len(),
    decreases ovs.len() - i,
{
    if 0 <= i < ovs.len() {
        let value = side_value(ovs[i].1, added, k);
        crate::tree_builder::lemma_put_path_grows(st, t, ovs[i].0, value);
        let (st1, t1) = put_path(st, t, ovs[i].0, value);
        lemma_put_side_grows(st1, t1, ovs, added, k, i + 1);
    }
}

/// Making the trees of the sides from base trees does not shrink the store.
pub proof fn lemma_put_sides_grow(
    st: StoreView,
    bases: Seq<TreeId>,
    ovs: OverridesView,
    added: bool,
    k: int,
    ids: Seq<TreeId>,
)
    ensures
        put_sides(st, bases, ovs, added, k, ids).0.trees.len() >= st.trees.len(),
    decreases bases.len() - k,
{
    if 0 <= k < bases.len() {
        lemma_put_side_grows(st, bases[k], ovs, added, k, 0);
        let (st1, id) = put_side(st, bases[k], ovs, added, k, 0);
        lemma_put_sides_grow(st1, bases, ovs, added, k + 1, ids.push(id));
    }
}

/// A builder that starts from empty trees and is given what a plain tree
/// stands for makes, for each side, the tree that holds what that side
/// holds: the trees `expected`, where the store has them.
pub proof fn lemma_put_sides_match(
    st0: StoreView,
    t: TreeId,
    ovs: OverridesView,
    added: bool,
    st: StoreView,
    bases: Seq<TreeId>,
    k: int,
    expected: Seq<TreeId>,
)
    requires
        st0.wf(),
        t.0 < st0.trees.len(),
        st.wf(),
        st0.extended_by(st),
        0 <= k <= bases.len(),
        bases.len() == expected.len(),
        forall|x: int| 0 <= x < bases.len() ==> #[trigger] bases[x] == TreeId(0),
        forall|x: int| 0 <= x < ovs.len() ==> (#[trigger] ovs[x]).0.len() > 0,
        holds_values_of(ovs, st0, t),
        forall|j: int| 0 <= j < expected.len() ==> (#[trigger] expected[j]).0 < st.trees.len(),
        forall|j: int, q: PathView|
            0 <= j < expected.len() ==> #[trigger] leaf_at(st, expected[j], q) == side_leaf(
                st0,
                t,
                added,
                j,
                q,
            ),
        put_sides(st, bases, ovs, added, k, expected.take(k)).0.trees.len() <= usize::MAX,
    ensures
        put_sides(st, bases, ovs, added, k, expected.take(k)).1 == expected,
        put_sides(st, bases, ovs, added, k, expected.take(k)).0.wf(),
        st.extended_by(put_sides(st, bases, ovs, added, k, expected.take(k)).0),
    decreases bases.len() - k,
{
    if k < bases.len() {
        let (st1, id) = put_side(st, bases[k], ovs, added, k, 0);
        lemma_put_sides_grow(st1, bases, ovs, added, k + 1, expected.take(k).push(id));
        assert forall|q: PathView|
            #[trigger] leaf_at(st, TreeId(0), q) == if covered(ovs, 0, q) {
                side_leaf(st0, t, added, k, q)
            } else {
                None
            } by {
            crate::tree_builder::lemma_empty_tree_holds_nothing(st, q);
        }
        lemma_put_side_leaves(st0, t, ovs, added, k, st, TreeId(0), 0);
        // The tree made holds what the expected tree holds.
        assert forall|q: PathView| leaf_at(st1, id, q) == leaf_at(st1, expected[k], q) by {
            crate::tree_builder::lemma_entry_kept(st, st1, expected[k], q);
            assert(leaf_at(st, expected[k], q) == side_leaf(st0, t, added, k, q));
            assert(leaf_at(st1, id, q) == if covered(ovs, ovs.len() as int, q) {
                side_leaf(st0, t, added, k, q)
            } else {
                None
            });
            if side_leaf(st0, t, added, k, q).is_some() {
                let p = lemma_side_leaf_source(st0, t, added, k, q);
                let x = choose|x: int| 0 <= x < ovs.len() && (#[trigger] ovs[x]).0 == p;
                assert(ovs[x].0 == q || proper_prefix(ovs[x].0, q));
            }
        }
        crate::content::lemma_same_leaves_same_tree(st1, id, expected[k]);
        assert(expected.take(k).push(id) =~= expected.take(k + 1));
        assert forall|j: int, q: PathView| 0 <= j < expected.len() implies #[trigger] leaf_at(
            st1,
            expected[j],
            q,
        ) == side_leaf(st0, t, added, j, q) by {
            crate::tree_builder::lemma_entry_kept(st, st1, expected[j], q);
            assert(leaf_at(st, expected[j], q) == side_leaf(st0, t, added, j, q));
        }
        lemma_put_sides_match(st0, t, ovs, added, st1, bases, k + 1, expected);
    } else {
        assert(expected.take(k) =~= expected);
    }
}


/// The trees of the sides of a plain tree hold at every path what their
/// side holds.
pub proof fn lemma_sides_leaves(
    st0: StoreView,
    st: StoreView,
    t: TreeId,
    added: bool,
    n: int,
    k: int,
    ids: Seq<TreeId>,
)
    requires
        st0.wf(),
        st.wf(),
        st0.extended_by(st),
        t.0 < st0.trees.len(),
        0 <= k <= n,
        ids.len() == k,
        forall|j: int| 0 <= j < ids.len() ==> (#[trigger] ids[j]).0 < st.trees.len(),
        forall|j: int, q: PathView|
            0 <= j < ids.len() ==> #[trigger] leaf_at(st, ids[j], q) == side_leaf(
                st0,
                t,
                added,
                j,
                q,
            ),
        sides(st, t, added, n, k, ids).0.trees.len() <= usize::MAX,
    ensures
        forall|j: int, q: PathView|
            0 <= j < n ==> #[trigger] leaf_at(
                sides(st, t, added, n, k, ids).0,
                sides(st, t, added, n, k, ids).1[j],
                q,
            ) == side_leaf(st0, t, added, j, q),
    decreases n - k,
{
    if k < n {
        let (st1, id) = side(st, t, added, k);
        lemma_sides_grow(st1, t, added, n, k + 1, ids.push(id));
        lemma_side_sound(st0, st, t, added, k);
        lemma_side_leaves(st0, st, t, added, k);
        let next = ids.push(id);
        assert forall|j: int| 0 <= j < next.len() implies (#[trigger] next[j]).0
            < st1.trees.len() by {
            if j < k {
                assert(next[j] == ids[j]);
            }
        }
        assert forall|j: int, q: PathView| 0 <= j < next.len() implies #[trigger] leaf_at(
            st1,
            next[j],
            q,
        ) == side_leaf(st0, t, added, j, q) by {
            if j < k {
                assert(next[j] == ids[j]);
                crate::tree_builder::lemma_entry_kept(st, st1, ids[j], q);
                assert(leaf_at(st, ids[j], q) == side_leaf(st0, t, added, j, q));
            } else {
                assert(leaf_at(st1, id, q) == side_leaf(st0, t, added, k, q));
            }
        }
        lemma_sides_leaves(st0, st1, t, added, n, k + 1, next);
    }
}

/// The largest number of added terms from a position on is no less than
/// that of any entry from there on.
pub proof fn lemma_max_sides_from(st: StoreView, t: TreeId, i: int, j: int)
    requires
        0 <= i <= j < st.tree(t).len(),
    ensures
        max_sides_from(st, t, i) >= max_sides_of(st, t, st.tree(t)[j].1),
    decreases j - i,
{
    if i < j {
        lemma_max_sides_from(st, t, i + 1, j);
    }
}

/// The largest number of added terms from a position on, where it is not
/// zero, is that of some entry from there on.
pub proof fn lemma_max_sides_reached(st: StoreView, t: TreeId, i: int) -> (j: int)
    requires
        0 <= i,
        max_sides_from(st, t, i) > 0,
    ensures
        i <= j < st.tree(t).len(),
        max_sides_of(st, t, st.tree(t)[j].1) == max_sides_from(st, t, i),
    decreases st.tree(t).len() - i,
{
    if max_sides_of(st, t, st.tree(t)[i].1) >= max_sides_from(st, t, i + 1) {
        i
    } else {
        lemma_max_sides_reached(st, t, i + 1)
    }
}

/// A conflict record that a plain tree holds has no more added terms than
/// the largest number counted for the tree.
pub proof fn lemma_record_sides_bound(st: StoreView, t: TreeId, q: PathView)
    requires
        st.wf(),
        t.0 < st.trees.len(),
        leaf_at(st, t, q) matches Some(TreeValue::Conflict(_)),
    ensures
        logical_value(st, leaf_at(st, t, q).unwrap()).adds.len() <= max_sides(st, t),
    decreases q.len(),
{
    let tree = st.tree(t);
    assert(tree_sorted(st.trees[t.0 as int]));
    crate::tree::lemma_lookup_some(tree, q[0]);
    let j = choose|j: int| 0 <= j < tree.len() && #[trigger] tree[j].0 == q[0];
    crate::tree::lemma_lookup_at(tree, j);
    lemma_max_sides_from(st, t, 0, j);
    crate::merged_tree::lemma_entry_below(st, t, q[0]);
    if q.len() >= 2 {
        if let Some(TreeValue::Tree(sub)) = lookup(tree, q[0]) {
            lemma_record_sides_bound(st, sub, q.skip(1));
        }
    }
}

/// Where the largest number counted for a plain tree is not zero, the tree
/// holds a conflict record with that many added terms.
pub proof fn lemma_record_sides_reached(st: StoreView, t: TreeId) -> (q: PathView)
    requires
        st.wf(),
        t.0 < st.trees.len(),
        max_sides(st, t) > 0,
    ensures
        leaf_at(st, t, q) matches Some(TreeValue::Conflict(_)),
        logical_value(st, leaf_at(st, t, q).unwrap()).adds.len() == max_sides(st, t),
    decreases t.0,
{
    let tree = st.tree(t);
    let j = lemma_max_sides_reached(st, t, 0);
    assert(tree_sorted(st.trees[t.0 as int]));
    crate::tree::lemma_lookup_at(tree, j);
    assert(st.entries_ok(st.trees[t.0 as int], t.0 as int));
    assert(st.value_ok(tree[j].1, t.0 as int));
    let name = tree[j].0;
    match tree[j].1 {
        TreeValue::Tree(sub) => {
            let rest = lemma_record_sides_reached(st, sub);
            crate::content::lemma_entry_below_name(st, t, name, rest);
            seq![name] + rest
        },
        _ => {
            let q = seq![name];
            assert(q[0] == name);
            q
        },
    }
}

/// The largest number of added terms among new values is no less than that
/// of any of them and, where it is not zero, is that of one of them.
pub proof fn lemma_most_sides(ovs: OverridesView, i: int)
    requires
        0 <= i <= ovs.len(),
    ensures
        forall|j: int| i <= j < ovs.len() ==> most_sides(ovs, i) >= (#[trigger] ovs[j]).1.adds.len(),
        most_sides(ovs, i) == 0 || exists|j: int|
            i <= j < ovs.len() && (#[trigger] ovs[j]).1.adds.len() == most_sides(ovs, i),
    decreases ovs.len() - i,
{
    if i < ovs.len() {
        lemma_most_sides(ovs, i + 1);
        let rest = most_sides(ovs, i + 1);
        if ovs[i].1.adds.len() > rest {
            assert(ovs[i].1.adds.len() == most_sides(ovs, i));
        } else if rest > 0 {
            let j = choose|j: int|
                i + 1 <= j < ovs.len() && (#[trigger] ovs[j]).1.adds.len() == rest;
            assert(ovs[j].1.adds.len() == most_sides(ovs, i));
        }
    }
}

/// The new values that a plain tree stands for ask for as many sides as
/// the largest number counted for the tree, or for one where it holds no
/// conflict record.
pub proof fn lemma_sides_agree(st: StoreView, t: TreeId, ovs: OverridesView)
    requires
        st.wf(),
        t.0 < st.trees.len(),
        holds_values_of(ovs, st, t),
    ensures
        max_sides(st, t) >= 1 ==> most_sides(ovs, 0) == max_sides(st, t),
        max_sides(st, t) == 0 ==> most_sides(ovs, 0) <= 1,
        max_sides(st, t) == 0 ==> forall|q: PathView|
            !(#[trigger] leaf_at(st, t, q) matches Some(TreeValue::Conflict(_))),
{
    lemma_most_sides(ovs, 0);
    let n = max_sides(st, t);
    assert forall|i: int| 0 <= i < ovs.len() implies (#[trigger] ovs[i]).1.adds.len() <= if n >= 1 {
        n
    } else {
        1
    } by {
        let leaf = leaf_at(st, t, ovs[i].0).unwrap();
        if leaf is Conflict {
            lemma_record_sides_bound(st, t, ovs[i].0);
            lemma_leaf_fits(st, t, ovs[i].0);
        }
    }
    assert forall|q: PathView| n == 0 implies !(#[trigger] leaf_at(st, t, q) matches Some(
        TreeValue::Conflict(_),
    )) by {
        if leaf_at(st, t, q) matches Some(TreeValue::Conflict(_)) {
            lemma_record_sides_bound(st, t, q);
            lemma_leaf_fits(st, t, q);
        }
    }
    if n >= 1 {
        let q = lemma_record_sides_reached(st, t);
        let i = choose|i: int| 0 <= i < ovs.len() && (#[trigger] ovs[i]).0 == q;
        assert(ovs[i].1.adds.len() == n);
    }
}

/// Where a plain tree holds no conflict record, each side holds what the
/// tree holds.
pub proof fn lemma_side_leaf_plain(st: StoreView, t: TreeId, added: bool, k: int, q: PathView)
    requires
        forall|p: PathView| !(#[trigger] leaf_at(st, t, p) matches Some(TreeValue::Conflict(_))),
    ensures
        side_leaf(st, t, added, k, q) == leaf_at(st, t, q),
    decreases q.len(),
{
    if q.len() > 0 {
        let first = seq![q[0]];
        assert(first[0] == q[0]);
        assert(!(leaf_at(st, t, first) matches Some(TreeValue::Conflict(_))));
        if q.len() >= 2 {
            if let Some(TreeValue::Tree(sub)) = lookup(st.tree(t), q[0]) {
                assert forall|p: PathView| !(#[trigger] leaf_at(st, sub, p) matches Some(
                    TreeValue::Conflict(_),
                )) by {
                    if p.len() > 0 {
                        crate::content::lemma_entry_below_name(st, t, q[0], p);
                        assert(!(leaf_at(st, t, seq![q[0]] + p) matches Some(
                            TreeValue::Conflict(_),
                        )));
                    }
                }
                lemma_side_leaf_plain(st, sub, added, k, q.skip(1));
            }
        }
    }
}

/// Terms that repeat one value, padded with that value, repeat it as often
/// as asked for.
pub proof fn lemma_pad_constant<T>(m: MergeView<T>, n: nat, x: T)
    requires
        m.wf(),
        forall|i: int| 0 <= i < m.adds.len() ==> m.adds[i] == x,
        forall|j: int| 0 <= j < m.removes.len() ==> m.removes[j] == x,
    ensures
        m.pad_to(n, x).wf(),
        m.pad_to(n, x).adds.len() == if n > m.adds.len() {
            n
        } else {
            m.adds.len()
        },
        forall|i: int| 0 <= i < m.pad_to(n, x).adds.len() ==> m.pad_to(n, x).adds[i] == x,
        forall|j: int| 0 <= j < m.pad_to(n, x).removes.len() ==> m.pad_to(n, x).removes[j] == x,
    decreases n - m.adds.len(),
{
    if m.adds.len() < n {
        lemma_pad_constant(
            MergeView { removes: m.removes.push(x), adds: m.adds.push(x) },
            n,
            x,
        );
    }
}

/// Legacy equivalence, the view: the removed and added trees that a plain
/// tree with conflict records is turned into are the trees that a builder
/// writes when it starts from the empty tree and is given, path by path,
/// the terms that the plain tree stands for. Both are recorded under the
/// same identity.
pub proof fn lemma_rebuild_conflicted_tree(st: StoreView, t: TreeId, b: BuilderView)
    requires
        st.wf(),
        t.0 < st.trees.len(),
        b.wf(),
        b.base == MergedTreeView::Merge(MergeView::resolved(TreeId(0))),
        holds_values_of(b.overrides, st, t),
        from_legacy(st, t).0.trees.len() <= usize::MAX,
        b.written(from_legacy(st, t).0).0.trees.len() <= usize::MAX,
    ensures
        b.written(from_legacy(st, t).0).1 == identity_of(from_legacy(st, t).1.simplify()),
{
    let ovs = b.overrides;
    let n = max_sides(st, t);
    let (st1, trees) = from_legacy(st, t);
    lemma_from_legacy_sound(st, t);
    lemma_sides_agree(st, t, ovs);
    let empty = TreeId(0);
    let base = MergeView::resolved(empty);
    let padded = base.pad_to(most_sides(ovs, 0), empty);
    lemma_pad_constant(base, most_sides(ovs, 0), empty);
    let no_ids = Seq::<TreeId>::empty();
    let (st2, removes) = put_sides(st1, padded.removes, ovs, false, 0, no_ids);
    let (st3, adds) = put_sides(st2, padded.adds, ovs, true, 0, no_ids);
    lemma_put_sides_grow(st2, padded.adds, ovs, true, 0, no_ids);
    assert(b.written(st1) == (st3, identity_of((MergeView { removes, adds }).simplify())));
    if n == 0 {
        assert(trees == MergeView::resolved(t));
        let expected = seq![t];
        assert forall|j: int, q: PathView| 0 <= j < expected.len() implies #[trigger] leaf_at(
            st2,
            expected[j],
            q,
        ) == side_leaf(st, t, true, j, q) by {
            lemma_side_leaf_plain(st, t, true, j, q);
        }
        assert(expected.take(0) =~= no_ids);
        lemma_put_sides_match(st, t, ovs, true, st2, padded.adds, 0, expected);
        assert(removes =~= trees.removes);
    } else {
        let (st_r, expected_removes) = sides(st, t, false, n - 1, 0, no_ids);
        lemma_sides_grow(st_r, t, true, n as int, 0, no_ids);
        lemma_sides_sound(st, st, t, false, n - 1, 0, no_ids);
        lemma_sides_leaves(st, st, t, false, n - 1, 0, no_ids);
        lemma_sides_sound(st, st_r, t, true, n as int, 0, no_ids);
        lemma_sides_leaves(st, st_r, t, true, n as int, 0, no_ids);
        let expected_adds = sides(st_r, t, true, n as int, 0, no_ids).1;
        assert(trees == (MergeView { removes: expected_removes, adds: expected_adds }));
        assert forall|j: int, q: PathView|
            0 <= j < expected_removes.len() implies #[trigger] leaf_at(
            st1,
            expected_removes[j],
            q,
        ) == side_leaf(st, t, false, j, q) by {
            crate::tree_builder::lemma_entry_kept(st_r, st1, expected_removes[j], q);
            assert(leaf_at(st_r, expected_removes[j], q) == side_leaf(st, t, false, j, q));
        }
        assert(expected_removes.take(0) =~= no_ids);
        lemma_put_sides_match(st, t, ovs, false, st1, padded.removes, 0, expected_removes);
        assert forall|j: int, q: PathView| 0 <= j < expected_adds.len() implies #[trigger] leaf_at(
            st2,
            expected_adds[j],
            q,
        ) == side_leaf(st, t, true, j, q) by {
            crate::tree_builder::lemma_entry_kept(st1, st2, expected_adds[j], q);
            assert(leaf_at(st1, expected_adds[j], q) == side_leaf(st, t, true, j, q));
        }
        assert(expected_adds.take(0) =~= no_ids);
        lemma_put_sides_match(st, t, ovs, true, st2, padded.adds, 0, expected_adds);
    }
}


/// What one side has in the place of an entry that is no directory: its
/// term of the record that a conflict entry names, else the entry itself.
pub open spec fn side_of_entry(st: StoreView, value: TreeValue, added: bool, k: int) -> Option<
    TreeValue,
> {
    match value {
        TreeValue::Conflict(c) => padded_term(st.conflicts[c.0 as int], added, k),
        other => Some(other),
    }
}

/// The entries of a plain tree as one side has them: under a name whose
/// entry is no directory, what that side has in its place.
pub proof fn lemma_side_from_entries(
    st0: StoreView,
    st: StoreView,
    t: TreeId,
    added: bool,
    k: int,
    i: int,
    acc: TreeView,
)
    requires
        st0.wf(),
        st.wf(),
        st0.extended_by(st),
        t.0 < st0.trees.len(),
        0 <= i <= st0.tree(t).len(),
        tree_sorted(acc),
        st.entries_ok(acc, st.trees.len() as int),
        side_from(st, t, added, k, i, acc).0.trees.len() <= usize::MAX,
    ensures
        forall|x: Seq<u8>|
            #[trigger] lookup(side_from(st, t, added, k, i, acc).1, x) == if has_later(
                st0.tree(t),
                i,
                x,
            ) {
                match lookup(st0.tree(t), x) {
                    Some(TreeValue::Tree(_)) => lookup(side_from(st, t, added, k, i, acc).1, x),
                    Some(value) => side_of_entry(st0, value, added, k),
                    None => None,
                }
            } else {
                lookup(acc, x)
            },
    decreases st.tree(t).len() - i,
{
    let tree = st0.tree(t);
    assert(st.tree(t) == tree);
    assert(tree_sorted(st0.trees[t.0 as int]));
    if i < tree.len() {
        let entry = tree[i];
        assert(st0.entries_ok(st0.trees[t.0 as int], t.0 as int));
        assert(st0.value_ok(entry.1, t.0 as int));
        let (st1, value) = side_entry(st, t, entry.1, added, k);
        let next = with_entry(acc, entry.0, value);
        lemma_side_entry_grows(st, t, entry.1, added, k);
        assert(side_from(st, t, added, k, i, acc).0.trees.len() >= st1.trees.len()) by {
            if st1.tree(t) == st.tree(t) {
                lemma_side_from_grows(st1, t, added, k, i + 1, next);
            }
        }
        lemma_side_entry_sound(st0, st, t, entry.1, added, k);
        assert(st1.tree(t) == st.tree(t));
        crate::tree::lemma_with_entry_sorted(acc, entry.0, value);
        crate::tree_builder::lemma_entries_fit(st, st1, acc, entry.0, value);
        lemma_side_from_entries(st0, st1, t, added, k, i + 1, next);
        let (st_end, result) = side_from(st1, t, added, k, i + 1, next);
        assert(side_from(st, t, added, k, i, acc) == (st_end, result));
        crate::tree::lemma_lookup_at(tree, i);
        assert forall|x: Seq<u8>|
            #[trigger] lookup(result, x) == if has_later(tree, i, x) {
                match lookup(tree, x) {
                    Some(TreeValue::Tree(_)) => lookup(result, x),
                    Some(value) => side_of_entry(st0, value, added, k),
                    None => None,
                }
            } else {
                lookup(acc, x)
            } by {
            assert(has_later(tree, i, x) <==> (has_later(tree, i + 1, x) || x == entry.0)) by {
                if has_later(tree, i + 1, x) {
                    let j = choose|j: int| i + 1 <= j < tree.len() && (#[trigger] tree[j]).0 == x;
                    assert(tree[j].0 == x);
                }
                if x == entry.0 {
                    assert(tree[i].0 == x);
                }
                if has_later(tree, i, x) {
                    let j = choose|j: int| i <= j < tree.len() && (#[trigger] tree[j]).0 == x;
                    if j > i {
                        assert(tree[j].0 == x);
                    }
                }
            }
            assert(lookup(result, x) == if has_later(tree, i + 1, x) {
                match lookup(tree, x) {
                    Some(TreeValue::Tree(_)) => lookup(result, x),
                    Some(value) => side_of_entry(st0, value, added, k),
                    None => None,
                }
            } else {
                lookup(next, x)
            });
            if has_later(tree, i + 1, x) {
            } else if x == entry.0 {
                crate::tree::lemma_with_entry_same(acc, entry.0, value);
                if let TreeValue::Conflict(c) = entry.1 {
                    assert(st.conflicts[c.0 as int] == st0.conflicts[c.0 as int]);
                }
            } else {
                crate::tree::lemma_with_entry_other(acc, entry.0, value, x);
            }
        }
    }
}

/// The terms of a record for a given number of sides: its own terms, and
/// "no entry" on the sides it does not have.
pub open spec fn padded_record(terms: ValueTerms, sides: nat) -> ValueTerms {
    MergeView {
        removes: Seq::new((sides - 1) as nat, |k: int| padded_term(terms, false, k)),
        adds: Seq::new(sides, |k: int| padded_term(terms, true, k)),
    }
}

/// The trees of the sides of a plain tree hold, under a name whose entry is
/// no directory, what their side has in its place.
pub proof fn lemma_sides_entries(
    st0: StoreView,
    st: StoreView,
    t: TreeId,
    added: bool,
    n: int,
    k: int,
    ids: Seq<TreeId>,
    x: Seq<u8>,
)
    requires
        st0.wf(),
        st.wf(),
        st0.extended_by(st),
        t.0 < st0.trees.len(),
        0 <= k <= n,
        ids.len() == k,
        lookup(st0.tree(t), x).is_some(),
        !(lookup(st0.tree(t), x) matches Some(TreeValue::Tree(_))),
        forall|j: int|
            0 <= j < ids.len() ==> (#[trigger] ids[j]).0 < st.trees.len() && lookup(
                st.tree(ids[j]),
                x,
            ) == side_of_entry(st0, lookup(st0.tree(t), x).unwrap(), added, j),
        sides(st, t, added, n, k, ids).0.trees.len() <= usize::MAX,
    ensures
        forall|j: int|
            0 <= j < n ==> lookup(
                sides(st, t, added, n, k, ids).0.tree(#[trigger] sides(st, t, added, n, k, ids).1[j]),
                x,
            ) == side_of_entry(st0, lookup(st0.tree(t), x).unwrap(), added, j),
    decreases n - k,
{
    if k < n {
        let (st1, id) = side(st, t, added, k);
        lemma_sides_grow(st1, t, added, n, k + 1, ids.push(id));
        lemma_side_sound(st0, st, t, added, k);
        let empty = Seq::<(Seq<u8>, TreeValue)>::empty();
        let (st_mid, content) = side_from(st, t, added, k, 0, empty);
        assert(st_mid.put_tree(content).0.trees.len() >= st_mid.trees.len());
        lemma_side_from_sound(st0, st, t, added, k, 0, empty);
        lemma_side_from_entries(st0, st, t, added, k, 0, empty);
        crate::store::lemma_put_tree(st_mid, content);
        assert(st1.tree(id) == content);
        assert(tree_sorted(st0.trees[t.0 as int]));
        crate::tree::lemma_lookup_some(st0.tree(t), x);
        let at = choose|at: int| 0 <= at < st0.tree(t).len() && #[trigger] st0.tree(t)[at].0 == x;
        assert(has_later(st0.tree(t), 0, x));
        assert(lookup(content, x) == side_of_entry(
            st0,
            lookup(st0.tree(t), x).unwrap(),
            added,
            k,
        ));
        let next = ids.push(id);
        assert forall|j: int| 0 <= j < next.len() implies (#[trigger] next[j]).0 < st1.trees.len()
            && lookup(st1.tree(next[j]), x) == side_of_entry(
            st0,
            lookup(st0.tree(t), x).unwrap(),
            added,
            j,
        ) by {
            if j < k {
                assert(next[j] == ids[j]);
                assert(st1.tree(ids[j]) == st.tree(ids[j]));
            }
        }
        lemma_sides_entries(st0, st1, t, added, n, k + 1, next, x);
    }
}

/// Legacy equivalence, the values: under a name where a plain tree holds a
/// conflict record, the removed and added trees that the tree is turned
/// into hold the terms of the record, with "no entry" on the sides that the
/// record does not have, so that all conflicts of the tree have the same
/// number of sides.
pub proof fn lemma_legacy_view_value(st: StoreView, t: TreeId, x: Seq<u8>)
    requires
        st.wf(),
        t.0 < st.trees.len(),
        lookup(st.tree(t), x) matches Some(TreeValue::Conflict(_)),
        from_legacy(st, t).0.trees.len() <= usize::MAX,
    ensures
        max_sides(st, t) >= 1,
        crate::tree_merge::values_under(from_legacy(st, t).0, from_legacy(st, t).1, x)
            == padded_record(logical_value(st, lookup(st.tree(t), x).unwrap()), max_sides(st, t)),
{
    let n = max_sides(st, t);
    let first = seq![x];
    assert(first[0] == x);
    assert(leaf_at(st, t, first) == lookup(st.tree(t), x));
    lemma_record_sides_bound(st, t, first);
    lemma_leaf_fits(st, t, first);
    let record = logical_value(st, lookup(st.tree(t), x).unwrap());
    assert(record.adds.len() >= 1);
    let no_ids = Seq::<TreeId>::empty();
    let (st_r, removes) = sides(st, t, false, n - 1, 0, no_ids);
    lemma_sides_grow(st_r, t, true, n as int, 0, no_ids);
    lemma_sides_sound(st, st, t, false, n - 1, 0, no_ids);
    lemma_sides_entries(st, st, t, false, n - 1, 0, no_ids, x);
    lemma_sides_sound(st, st_r, t, true, n as int, 0, no_ids);
    lemma_sides_entries(st, st_r, t, true, n as int, 0, no_ids, x);
    let (st1, adds) = sides(st_r, t, true, n as int, 0, no_ids);
    assert(from_legacy(st, t) == (st1, MergeView { removes, adds }));
    let values = crate::tree_merge::values_under(st1, from_legacy(st, t).1, x);
    let padded = padded_record(record, n);
    assert(values.adds =~= padded.adds);
    assert(values.removes =~= padded.removes) by {
        assert forall|j: int| 0 <= j < removes.len() implies values.removes[j]
            == padded.removes[j] by {
            assert(st1.tree(removes[j]) == st_r.tree(removes[j]));
        }
    }
}

} // verus!
