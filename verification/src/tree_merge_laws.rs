//! What holds of merging trees: it keeps the store in order, and merging
//! what has been merged changes nothing.
use vstd::prelude::*;
use crate::backend::{TreeId, TreeValue};
use crate::merge::MergeView;
use crate::merged_tree::{is_tree_value, names_over, terms_below, tree_terms, MergedTreeView};
use crate::names::{rising, union};
use crate::order::{name_lt, name_lt_fn};
use crate::store::{StoreView, ValueTerms};
use crate::tree::{lookup, tree_sorted, with_entry, TreeView};
use crate::tree_merge::{
    merge_names, merge_trees, merge_value, rank_of, resolve_file_conflict, side_term, side_tree,
    tree_entry_of, write_sides, NamedConflicts,
};

verus! {

/// The second store holds at least as many trees and files as the first.
pub open spec fn grows(a: StoreView, b: StoreView) -> bool {
    a.trees.len() <= b.trees.len() && a.files.len() <= b.files.len()
}

/// The numbers of trees and files fit the identifiers.
pub open spec fn bounded(st: StoreView) -> bool {
    st.trees.len() <= usize::MAX && st.files.len() <= usize::MAX
}

/// Resolving a conflict between files does not shrink the store.
pub proof fn lemma_file_conflict_grows(st: StoreView, values: ValueTerms)
    ensures
        resolve_file_conflict(st, values) matches Some(r) ==> grows(st, r.0),
{
}

/// Merging the values under a name does not shrink the store.
pub proof fn lemma_merge_value_grows(st: StoreView, values: ValueTerms, bound: nat)
    ensures
        grows(st, merge_value(st, values, bound).0),
    decreases bound, 0nat, 0nat,
{
    if values.resolve_trivial().is_none() {
        if is_tree_value(values) {
            let sub = tree_terms(values);
            if rank_of(sub) < bound {
                lemma_merge_trees_grows(st, sub);
            }
        } else {
            lemma_file_conflict_grows(st, values);
        }
    }
}

/// Merging names does not shrink the store.
pub proof fn lemma_merge_names_grows(
    st: StoreView,
    trees: MergeView<TreeId>,
    names: Seq<Seq<u8>>,
    i: int,
    tree: TreeView,
    conflicts: NamedConflicts,
)
    ensures
        grows(st, merge_names(st, trees, names, i, tree, conflicts).0),
    decreases rank_of(trees), 1nat, names.len() - i,
{
    if 0 <= i < names.len() {
        let values = trees.map(|id: TreeId| lookup(st.tree(id), names[i]));
        lemma_merge_value_grows(st, values, rank_of(trees));
        let (st1, merged) = merge_value(st, values, rank_of(trees));
        if merged.is_resolved() {
            lemma_merge_names_grows(
                st1,
                trees,
                names,
                i + 1,
                with_entry(tree, names[i], merged.adds[0]),
                conflicts,
            );
        } else {
            lemma_merge_names_grows(
                st1,
                trees,
                names,
                i + 1,
                tree,
                conflicts.push((names[i], merged)),
            );
        }
    }
}

/// Writing the trees of the sides does not shrink the store.
pub proof fn lemma_write_sides_grows(
    st: StoreView,
    tree: TreeView,
    conflicts: NamedConflicts,
    added: bool,
    n: int,
    k: int,
    ids: Seq<TreeId>,
)
    ensures
        grows(st, write_sides(st, tree, conflicts, added, n, k, ids).0),
    decreases n - k,
{
    if 0 <= k < n {
        let (st1, id) = st.put_tree(side_tree(tree, conflicts, added, k, conflicts.len() as int));
        lemma_write_sides_grows(st1, tree, conflicts, added, n, k + 1, ids.push(id));
    }
}

/// Merging trees does not shrink the store.
pub proof fn lemma_merge_trees_grows(st: StoreView, trees: MergeView<TreeId>)
    ensures
        grows(st, merge_trees(st, trees).0),
    decreases rank_of(trees), 2nat, 0nat,
{
    if trees.resolve_trivial().is_none() {
        let names = MergedTreeView::Merge(trees).names(st);
        lemma_merge_names_grows(st, trees, names, 0, Seq::empty(), Seq::empty());
        let (st1, tree, conflicts) = merge_names(st, trees, names, 0, Seq::empty(), Seq::empty());
        if conflicts.len() > 0 {
            lemma_write_sides_grows(
                st1,
                tree,
                conflicts,
                false,
                trees.removes.len() as int,
                0,
                Seq::empty(),
            );
            let (st2, removes) = write_sides(
                st1,
                tree,
                conflicts,
                false,
                trees.removes.len() as int,
                0,
                Seq::empty(),
            );
            lemma_write_sides_grows(
                st2,
                tree,
                conflicts,
                true,
                trees.adds.len() as int,
                0,
                Seq::empty(),
            );
        }
    }
}

/// The terms of the conflicted names are in order for the store and have
/// as many added terms as there are added trees.
pub open spec fn conflicts_ok(st: StoreView, conflicts: NamedConflicts, sides: nat) -> bool {
    forall|c: int|
        0 <= c < conflicts.len() ==> terms_below(st, (#[trigger] conflicts[c]).1, st.trees.len())
            && conflicts[c].1.adds.len() == sides
}

/// Conflicted names that are in order for a store are so for every store
/// grown from it.
pub proof fn lemma_conflicts_ok_kept(
    old_store: StoreView,
    new_store: StoreView,
    conflicts: NamedConflicts,
    sides: nat,
)
    requires
        old_store.extended_by(new_store),
        conflicts_ok(old_store, conflicts, sides),
    ensures
        conflicts_ok(new_store, conflicts, sides),
{
    assert forall|c: int| 0 <= c < conflicts.len() implies terms_below(
        new_store,
        (#[trigger] conflicts[c]).1,
        new_store.trees.len(),
    ) by {
        crate::tree_merge::lemma_terms_below_kept(
            old_store,
            new_store,
            conflicts[c].1,
            old_store.trees.len(),
            new_store.trees.len(),
        );
    }
}

/// A tree whose entries a store holds keeps that in every store grown from it.
pub proof fn lemma_entries_ok_kept(old_store: StoreView, new_store: StoreView, tree: TreeView)
    requires
        old_store.extended_by(new_store),
        old_store.entries_ok(tree, old_store.trees.len() as int),
    ensures
        new_store.entries_ok(tree, new_store.trees.len() as int),
{
    crate::store::lemma_extended_ok(old_store, new_store);
    crate::store::lemma_bound_grows(
        new_store,
        old_store.trees.len() as int,
        new_store.trees.len() as int,
    );
    assert forall|k: int| 0 <= k < tree.len() implies new_store.value_ok(
        #[trigger] tree[k].1,
        new_store.trees.len() as int,
    ) by {
        assert(old_store.value_ok(tree[k].1, old_store.trees.len() as int));
    }
}

/// The tree of a side is ordered and names stored objects only.
pub proof fn lemma_side_tree_ok(
    st: StoreView,
    tree: TreeView,
    conflicts: NamedConflicts,
    added: bool,
    k: int,
    c: int,
)
    requires
        st.wf(),
        tree_sorted(tree),
        st.entries_ok(tree, st.trees.len() as int),
        0 <= c <= conflicts.len(),
        forall|x: int|
            0 <= x < conflicts.len() ==> terms_below(
                st,
                (#[trigger] conflicts[x]).1,
                st.trees.len(),
            ) && if added {
                0 <= k < conflicts[x].1.adds.len()
            } else {
                0 <= k < conflicts[x].1.removes.len()
            },
    ensures
        tree_sorted(side_tree(tree, conflicts, added, k, c)),
        st.entries_ok(side_tree(tree, conflicts, added, k, c), st.trees.len() as int),
    decreases c,
{
    if c > 0 {
        lemma_side_tree_ok(st, tree, conflicts, added, k, c - 1);
        let prev = side_tree(tree, conflicts, added, k, c - 1);
        let term = side_term(conflicts[c - 1].1, added, k);
        assert(terms_below(st, conflicts[c - 1].1, st.trees.len()));
        crate::tree::lemma_with_entry_sorted(prev, conflicts[c - 1].0, term);
        crate::tree_builder::lemma_entries_fit(st, st, prev, conflicts[c - 1].0, term);
    }
}

/// Writing the trees of the sides keeps the store in order; the trees
/// written are those of the sides.
pub proof fn lemma_write_sides_sound(
    st: StoreView,
    tree: TreeView,
    conflicts: NamedConflicts,
    added: bool,
    n: int,
    k: int,
    ids: Seq<TreeId>,
)
    requires
        st.wf(),
        tree_sorted(tree),
        st.entries_ok(tree, st.trees.len() as int),
        0 <= k <= n,
        ids.len() == k,
        forall|x: int|
            0 <= x < conflicts.len() ==> terms_below(
                st,
                (#[trigger] conflicts[x]).1,
                st.trees.len(),
            ) && if added {
                n == conflicts[x].1.adds.len()
            } else {
                n == conflicts[x].1.removes.len()
            },
        forall|j: int|
            0 <= j < k ==> (#[trigger] ids[j]).0 < st.trees.len() && st.tree(ids[j]) == side_tree(
                tree,
                conflicts,
                added,
                j,
                conflicts.len() as int,
            ),
        bounded(write_sides(st, tree, conflicts, added, n, k, ids).0),
    ensures
        ({
            let (st1, out) = write_sides(st, tree, conflicts, added, n, k, ids);
            &&& st1.wf()
            &&& st.extended_by(st1)
            &&& st1.files == st.files
            &&& out.len() == n
            &&& forall|j: int|
                0 <= j < n ==> (#[trigger] out[j]).0 < st1.trees.len() && st1.tree(out[j])
                    == side_tree(tree, conflicts, added, j, conflicts.len() as int)
        }),
    decreases n - k,
{
    if k < n {
        let side = side_tree(tree, conflicts, added, k, conflicts.len() as int);
        let (st1, id) = st.put_tree(side);
        lemma_side_tree_ok(st, tree, conflicts, added, k, conflicts.len() as int);
        lemma_write_sides_grows(st1, tree, conflicts, added, n, k + 1, ids.push(id));
        crate::store::lemma_put_tree(st, side);
        lemma_entries_ok_kept(st, st1, tree);
        assert forall|x: int| 0 <= x < conflicts.len() implies terms_below(
            st1,
            (#[trigger] conflicts[x]).1,
            st1.trees.len(),
        ) by {
            crate::tree_merge::lemma_terms_below_kept(
                st,
                st1,
                conflicts[x].1,
                st.trees.len(),
                st1.trees.len(),
            );
        }
        let next = ids.push(id);
        assert forall|j: int| 0 <= j < k + 1 implies (#[trigger] next[j]).0 < st1.trees.len()
            && st1.tree(next[j]) == side_tree(tree, conflicts, added, j, conflicts.len() as int) by {
            if j < k {
                assert(next[j] == ids[j]);
                assert(st1.tree(ids[j]) == st.tree(ids[j]));
            }
        }
        lemma_write_sides_sound(st1, tree, conflicts, added, n, k + 1, next);
    }
}


/// The names of an ordered directory are in rising order, and they are the
/// names under which it has an entry.
pub proof fn lemma_tree_names(tree: TreeView)
    requires
        tree_sorted(tree),
    ensures
        rising(crate::tree::names(tree)),
        forall|x: Seq<u8>| lookup(tree, x).is_some() <==> crate::tree::names(tree).contains(x),
{
    let names = crate::tree::names(tree);
    assert forall|i: int, j: int| 0 <= i < j < names.len() implies name_lt(
        #[trigger] names[i],
        #[trigger] names[j],
    ) by {
        assert(name_lt(tree[i].0, tree[j].0));
    }
    assert forall|x: Seq<u8>| lookup(tree, x).is_some() <==> names.contains(x) by {
        crate::tree::lemma_lookup_some(tree, x);
        if names.contains(x) {
            let i = choose|i: int| 0 <= i < names.len() && names[i] == x;
            assert(tree[i].0 == x);
        }
        if lookup(tree, x).is_some() {
            let i = choose|i: int| 0 <= i < tree.len() && #[trigger] tree[i].0 == x;
            assert(names[i] == x);
        }
    }
}

/// The names that occur in a list of stored trees are in rising order and
/// include every name under which one of the trees has an entry.
pub proof fn lemma_names_over(st: StoreView, ids: Seq<TreeId>)
    requires
        st.wf(),
        forall|i: int| 0 <= i < ids.len() ==> (#[trigger] ids[i]).0 < st.trees.len(),
    ensures
        rising(names_over(st, ids)),
        forall|i: int, x: Seq<u8>|
            0 <= i < ids.len() && (#[trigger] lookup(st.tree(ids[i]), x)).is_some() ==> names_over(
                st,
                ids,
            ).contains(x),
    decreases ids.len(),
{
    if ids.len() > 0 {
        let head = ids.drop_last();
        assert forall|i: int| 0 <= i < head.len() implies (#[trigger] head[i]).0
            < st.trees.len() by {
            assert(head[i] == ids[i]);
        }
        lemma_names_over(st, head);
        let last = st.tree(ids.last());
        assert(tree_sorted(st.trees[ids.last().0 as int]));
        lemma_tree_names(last);
        let a = names_over(st, head);
        let b = crate::tree::names(last);
        crate::names::lemma_union(a, b, 0, 0);
        assert forall|i: int, x: Seq<u8>|
            0 <= i < ids.len() && (#[trigger] lookup(st.tree(ids[i]), x)).is_some() implies names_over(
            st,
            ids,
        ).contains(x) by {
            if i < ids.len() - 1 {
                assert(head[i] == ids[i]);
                assert(a.contains(x));
                let k = choose|k: int| 0 <= k < a.len() && a[k] == x;
                assert(union(a, b).contains(a[k]));
            } else {
                assert(b.contains(x));
                let k = choose|k: int| 0 <= k < b.len() && b[k] == x;
                assert(union(a, b).contains(b[k]));
            }
        }
    }
}

/// The names that occur in the trees of a conflict are in rising order and
/// include every name under which one of the trees has an entry.
pub proof fn lemma_names_of_trees(st: StoreView, trees: MergeView<TreeId>)
    requires
        st.wf(),
        MergedTreeView::Merge(trees).valid(st),
    ensures
        rising(MergedTreeView::Merge(trees).names(st)),
        forall|i: int, x: Seq<u8>|
            0 <= i < trees.adds.len() && (#[trigger] lookup(st.tree(trees.adds[i]), x)).is_some()
                ==> MergedTreeView::Merge(trees).names(st).contains(x),
        forall|j: int, x: Seq<u8>|
            0 <= j < trees.removes.len() && (#[trigger] lookup(st.tree(trees.removes[j]), x)).is_some() ==> MergedTreeView::Merge(trees).names(st).contains(x),
{
    lemma_names_over(st, trees.adds);
    lemma_names_over(st, trees.removes);
    let a = names_over(st, trees.adds);
    let b = names_over(st, trees.removes);
    crate::names::lemma_union(a, b, 0, 0);
    assert forall|i: int, x: Seq<u8>|
        0 <= i < trees.adds.len() && (#[trigger] lookup(st.tree(trees.adds[i]), x)).is_some() implies union(
        a,
        b,
    ).contains(x) by {
        assert(a.contains(x));
        let k = choose|k: int| 0 <= k < a.len() && a[k] == x;
        assert(union(a, b).contains(a[k]));
    }
    assert forall|j: int, x: Seq<u8>|
        0 <= j < trees.removes.len() && (#[trigger] lookup(st.tree(trees.removes[j]), x)).is_some() implies union(
        a,
        b,
    ).contains(x) by {
        assert(b.contains(x));
        let k = choose|k: int| 0 <= k < b.len() && b[k] == x;
        assert(union(a, b).contains(b[k]));
    }
}

/// The conflicted names come in rising order.
pub open spec fn conflicts_sorted(conflicts: NamedConflicts) -> bool {
    crate::assoc::sorted(conflicts, name_lt_fn())
}

/// The terms recorded for a name, if it is conflicted.
pub open spec fn conflict_at(conflicts: NamedConflicts, name: Seq<u8>) -> Option<ValueTerms> {
    crate::assoc::lookup(conflicts, name, name_lt_fn())
}

/// Under a conflicted name the tree of a side holds that side's term.
pub proof fn lemma_side_lookup_hit(
    tree: TreeView,
    conflicts: NamedConflicts,
    added: bool,
    k: int,
    c: int,
    idx: int,
)
    requires
        tree_sorted(tree),
        conflicts_sorted(conflicts),
        0 <= idx < c <= conflicts.len(),
    ensures
        tree_sorted(side_tree(tree, conflicts, added, k, c)),
        lookup(side_tree(tree, conflicts, added, k, c), conflicts[idx].0) == side_term(
            conflicts[idx].1,
            added,
            k,
        ),
    decreases c,
{
    let prev = side_tree(tree, conflicts, added, k, c - 1);
    let name = conflicts[c - 1].0;
    let term = side_term(conflicts[c - 1].1, added, k);
    lemma_side_sorted(tree, conflicts, added, k, c - 1);
    crate::tree::lemma_with_entry_sorted(prev, name, term);
    if idx == c - 1 {
        crate::tree::lemma_with_entry_same(prev, name, term);
    } else {
        lemma_side_lookup_hit(tree, conflicts, added, k, c - 1, idx);
        assert(name_lt(conflicts[idx].0, conflicts[c - 1].0));
        crate::order::lemma_name_trichotomy(conflicts[idx].0, name);
        crate::tree::lemma_with_entry_other(prev, name, term, conflicts[idx].0);
    }
}

/// The tree of a side is ordered.
pub proof fn lemma_side_sorted(
    tree: TreeView,
    conflicts: NamedConflicts,
    added: bool,
    k: int,
    c: int,
)
    requires
        tree_sorted(tree),
    ensures
        tree_sorted(side_tree(tree, conflicts, added, k, c)),
    decreases c,
{
    if c > 0 {
        lemma_side_sorted(tree, conflicts, added, k, c - 1);
        crate::tree::lemma_with_entry_sorted(
            side_tree(tree, conflicts, added, k, c - 1),
            conflicts[c - 1].0,
            side_term(conflicts[c - 1].1, added, k),
        );
    }
}

/// Under a name that is not conflicted the tree of a side holds what the
/// tree of resolved entries holds.
pub proof fn lemma_side_lookup_miss(
    tree: TreeView,
    conflicts: NamedConflicts,
    added: bool,
    k: int,
    c: int,
    x: Seq<u8>,
)
    requires
        tree_sorted(tree),
        0 <= c <= conflicts.len(),
        forall|i: int| 0 <= i < c ==> (#[trigger] conflicts[i]).0 != x,
    ensures
        lookup(side_tree(tree, conflicts, added, k, c), x) == lookup(tree, x),
    decreases c,
{
    if c > 0 {
        lemma_side_lookup_miss(tree, conflicts, added, k, c - 1, x);
        lemma_side_sorted(tree, conflicts, added, k, c - 1);
        assert(conflicts[c - 1].0 != x);
        crate::tree::lemma_with_entry_other(
            side_tree(tree, conflicts, added, k, c - 1),
            conflicts[c - 1].0,
            side_term(conflicts[c - 1].1, added, k),
            x,
        );
    }
}


/// Merging the terms again in the store `st` gives the same terms and writes nothing.
pub open spec fn stable_in(terms: ValueTerms, st: StoreView, bound: nat) -> bool {
    merge_value(st, terms, bound) == (st, terms)
}

/// The terms are as far merged as they can be: they do not resolve
/// trivially, and merging them again gives the same terms, in every store
/// grown from `st`.
pub open spec fn stable(st: StoreView, terms: ValueTerms) -> bool {
    &&& terms.resolve_trivial().is_none()
    &&& forall|later: StoreView, bound: nat|
        st.extended_by(later) && later.wf() && (is_tree_value(terms) ==> rank_of(tree_terms(terms))
            < bound) ==> #[trigger] stable_in(terms, later, bound)
}

/// Merging the trees again in the store `st` gives the same trees and writes nothing.
pub open spec fn settled_in(trees: MergeView<TreeId>, st: StoreView) -> bool {
    merge_trees(st, trees) == (st, trees)
}

/// The trees are as far merged as they can be: they are a single tree or do
/// not resolve trivially, and merging them again gives the same trees, in
/// every store grown from `st`.
pub open spec fn settled(st: StoreView, trees: MergeView<TreeId>) -> bool {
    &&& trees.is_resolved() || trees.resolve_trivial().is_none()
    &&& forall|later: StoreView|
        st.extended_by(later) && later.wf() ==> #[trigger] settled_in(trees, later)
}

/// Terms that are as far merged as they can be stay so when the store grows.
pub proof fn lemma_stable_kept(st: StoreView, later: StoreView, terms: ValueTerms)
    requires
        st.extended_by(later),
        stable(st, terms),
    ensures
        stable(later, terms),
{
    assert forall|last: StoreView, bound: nat|
        later.extended_by(last) && last.wf() && (is_tree_value(terms) ==> rank_of(tree_terms(terms))
            < bound) implies #[trigger] stable_in(terms, last, bound) by {
        assert(st.extended_by(last));
    }
}

/// A conflict between files that does not resolve does not resolve in a
/// store grown from the one that holds the files.
pub proof fn lemma_file_conflict_kept(st: StoreView, later: StoreView, values: ValueTerms)
    requires
        st.extended_by(later),
        terms_below(st, values, st.trees.len()),
        resolve_file_conflict(st, values).is_none(),
    ensures
        resolve_file_conflict(later, values).is_none(),
{
    if crate::tree_merge::all_files(values) {
        let ids = values.map(|term: Option<TreeValue>| crate::tree_merge::file_id_of(term));
        let before = ids.map(|id: crate::backend::FileId| st.files[id.0 as int]);
        let after = ids.map(|id: crate::backend::FileId| later.files[id.0 as int]);
        assert(before.adds =~= after.adds) by {
            assert forall|i: int| 0 <= i < before.adds.len() implies before.adds[i]
                == after.adds[i] by {
                assert(crate::tree_merge::is_file(values.adds[i]));
                assert(st.value_ok(values.adds[i].unwrap(), st.trees.len() as int));
            }
        }
        assert(before.removes =~= after.removes) by {
            assert forall|j: int| 0 <= j < before.removes.len() implies before.removes[j]
                == after.removes[j] by {
                assert(crate::tree_merge::is_file(values.removes[j]));
                assert(st.value_ok(values.removes[j].unwrap(), st.trees.len() as int));
            }
        }
    }
}

/// The entries that stand for merged subtrees are different for different trees.
pub proof fn lemma_tree_entries_differ()
    ensures
        crate::algebra_laws::injective_on(|id: TreeId| tree_entry_of(id), |id: TreeId| true),
{
}

/// Merging the values under a name keeps the store in order. The result is
/// in order for the store; it is resolved or has as many terms as the
/// values; and where it is not resolved, it is as far merged as it can be.
pub proof fn lemma_merge_value_sound(st: StoreView, values: ValueTerms, bound: nat)
    requires
        st.wf(),
        terms_below(st, values, bound),
        bound < st.trees.len(),
        bounded(merge_value(st, values, bound).0),
    ensures
        merge_value(st, values, bound).0.wf(),
        st.extended_by(merge_value(st, values, bound).0),
        merge_value(st, values, bound).1.wf(),
        terms_below(
            merge_value(st, values, bound).0,
            merge_value(st, values, bound).1,
            merge_value(st, values, bound).0.trees.len(),
        ),
        merge_value(st, values, bound).1.is_resolved() || merge_value(st, values, bound).1.adds.len()
            == values.adds.len(),
        !merge_value(st, values, bound).1.is_resolved() ==> stable(
            merge_value(st, values, bound).0,
            merge_value(st, values, bound).1,
        ),
    decreases bound, 0nat, 0nat,
{
    let (st1, r) = merge_value(st, values, bound);
    crate::tree_merge::lemma_terms_below_kept(st, st, values, bound, st.trees.len());
    match values.resolve_trivial() {
        Some(value) => {
            crate::algebra_laws::lemma_resolve_trivial_is_a_term(values);
            let x = choose|x: int| 0 <= x < values.adds.len() && values.adds[x] == value;
            assert(values.adds[x] == value);
        },
        None => {
            if is_tree_value(values) {
                let sub = tree_terms(values);
                crate::merged_tree::lemma_child_of_terms(st, values, bound);
                lemma_merge_trees_sound(st, sub);
                let (st_sub, merged) = merge_trees(st, sub);
                assert(r == merged.map(|id: TreeId| tree_entry_of(id)));
                assert forall|i: int| 0 <= i < r.adds.len() implies (#[trigger] r.adds[i] matches Some(
                    value,
                ) ==> st1.value_ok(value, st1.trees.len() as int)) by {
                    assert(r.adds[i] == tree_entry_of(merged.adds[i]));
                }
                assert forall|j: int| 0 <= j < r.removes.len() implies (#[trigger] r.removes[j] matches Some(
                    value,
                ) ==> st1.value_ok(value, st1.trees.len() as int)) by {
                    assert(r.removes[j] == tree_entry_of(merged.removes[j]));
                }
                if !r.is_resolved() {
                    // The entries resolve trivially no more than the trees do.
                    lemma_tree_entries_differ();
                    let f = |id: TreeId| tree_entry_of(id);
                    let dom = |id: TreeId| true;
                    crate::algebra_laws::lemma_resolve_trivial_renamed(merged, f, dom);
                    assert(r.resolve_trivial().is_none());
                    // So some entry is a subtree, and the subtrees are the merged trees.
                    assert(crate::merged_tree::any_tree(r)) by {
                        if !crate::merged_tree::any_tree(r) {
                            assert forall|i: int| 0 <= i < r.adds.len() implies r.adds[i]
                                == None::<TreeValue> by {
                                assert(r.adds[i] == tree_entry_of(merged.adds[i]));
                                if r.adds[i].is_some() {
                                    assert(r.adds[i] matches Some(TreeValue::Tree(_)));
                                }
                            }
                            assert forall|j: int| 0 <= j < r.removes.len() implies r.removes[j]
                                == None::<TreeValue> by {
                                assert(r.removes[j] == tree_entry_of(merged.removes[j]));
                                if r.removes[j].is_some() {
                                    assert(r.removes[j] matches Some(TreeValue::Tree(_)));
                                }
                            }
                            crate::algebra_laws::lemma_constant_resolves(r, None::<TreeValue>);
                        }
                    }
                    assert(is_tree_value(r)) by {
                        assert forall|i: int| 0 <= i < r.adds.len() implies crate::merged_tree::tree_or_none(
                            #[trigger] r.adds[i],
                        ) by {
                            assert(r.adds[i] == tree_entry_of(merged.adds[i]));
                        }
                        assert forall|j: int| 0 <= j < r.removes.len() implies crate::merged_tree::tree_or_none(
                            #[trigger] r.removes[j],
                        ) by {
                            assert(r.removes[j] == tree_entry_of(merged.removes[j]));
                        }
                    }
                    assert(tree_terms(r) =~= merged) by {
                        assert(tree_terms(r).adds =~= merged.adds) by {
                            assert forall|i: int| 0 <= i < merged.adds.len() implies tree_terms(
                                r,
                            ).adds[i] == merged.adds[i] by {
                                assert(r.adds[i] == tree_entry_of(merged.adds[i]));
                            }
                        }
                        assert(tree_terms(r).removes =~= merged.removes) by {
                            assert forall|j: int| 0 <= j < merged.removes.len() implies tree_terms(
                                r,
                            ).removes[j] == merged.removes[j] by {
                                assert(r.removes[j] == tree_entry_of(merged.removes[j]));
                            }
                        }
                    }
                    assert forall|later: StoreView, limit: nat|
                        st1.extended_by(later) && later.wf() && (is_tree_value(r) ==> rank_of(
                            tree_terms(r),
                        ) < limit) implies #[trigger] stable_in(r, later, limit) by {
                        assert(settled_in(merged, later));
                    }
                }
            } else {
                match resolve_file_conflict(st, values) {
                    Some((st_file, file)) => {
                        lemma_file_conflict_sound(st, values);
                    },
                    None => {
                        assert forall|later: StoreView, limit: nat|
                            st1.extended_by(later) && later.wf() && (is_tree_value(values)
                                ==> rank_of(tree_terms(values)) < limit) implies #[trigger] stable_in(
                            values,
                            later,
                            limit,
                        ) by {
                            lemma_file_conflict_kept(st, later, values);
                        }
                    },
                }
            }
        },
    }
}

/// Resolving a conflict between files keeps the store in order, and the
/// file it gives is a file of the store.
pub proof fn lemma_file_conflict_sound(st: StoreView, values: ValueTerms)
    requires
        st.wf(),
        terms_below(st, values, st.trees.len()),
        resolve_file_conflict(st, values).is_some(),
        bounded(resolve_file_conflict(st, values).unwrap().0),
    ensures
        resolve_file_conflict(st, values).unwrap().0.wf(),
        st.extended_by(resolve_file_conflict(st, values).unwrap().0),
        resolve_file_conflict(st, values).unwrap().0.trees == st.trees,
        resolve_file_conflict(st, values).unwrap().0.value_ok(
            resolve_file_conflict(st, values).unwrap().1,
            st.trees.len() as int,
        ),
{
    let ids = values.map(|term: Option<TreeValue>| crate::tree_merge::file_id_of(term));
    match ids.resolve_trivial() {
        Some(id) => {
            crate::algebra_laws::lemma_resolve_trivial_is_a_term(ids);
            let x = choose|x: int| 0 <= x < ids.adds.len() && ids.adds[x] == id;
            assert(crate::tree_merge::is_file(values.adds[x]));
            assert(st.value_ok(values.adds[x].unwrap(), st.trees.len() as int));
        },
        None => {
            let contents = crate::files::merged_content(
                ids.map(|id: crate::backend::FileId| st.files[id.0 as int]),
            ).unwrap();
            crate::store::lemma_put_file(st, contents);
        },
    }
}

/// Merging names keeps the store, the tree of resolved entries and the
/// conflicted names in order; the names stay in rising order and apart
/// from the resolved entries; and the terms of each conflicted name are as
/// far merged as they can be.
pub proof fn lemma_merge_names_sound(
    st: StoreView,
    trees: MergeView<TreeId>,
    names: Seq<Seq<u8>>,
    i: int,
    tree: TreeView,
    conflicts: NamedConflicts,
)
    requires
        st.wf(),
        MergedTreeView::Merge(trees).valid(st),
        rising(names),
        0 <= i <= names.len(),
        tree_sorted(tree),
        st.entries_ok(tree, st.trees.len() as int),
        conflicts_ok(st, conflicts, trees.adds.len()),
        conflicts_sorted(conflicts),
        forall|c: int| 0 <= c < conflicts.len() ==> stable(st, (#[trigger] conflicts[c]).1),
        forall|c: int| 0 <= c < conflicts.len() ==> lookup(tree, (#[trigger] conflicts[c]).0).is_none(),
        forall|j: int| i <= j < names.len() ==> lookup(tree, #[trigger] names[j]).is_none(),
        forall|c: int, j: int|
            0 <= c < conflicts.len() && i <= j < names.len() ==> name_lt(
                (#[trigger] conflicts[c]).0,
                #[trigger] names[j],
            ),
        bounded(merge_names(st, trees, names, i, tree, conflicts).0),
    ensures
        ({
            let (st1, tree1, conflicts1) = merge_names(st, trees, names, i, tree, conflicts);
            &&& st1.wf()
            &&& st.extended_by(st1)
            &&& tree_sorted(tree1)
            &&& st1.entries_ok(tree1, st1.trees.len() as int)
            &&& conflicts_ok(st1, conflicts1, trees.adds.len())
            &&& conflicts_sorted(conflicts1)
            &&& conflicts1.len() >= conflicts.len()
            &&& forall|c: int| 0 <= c < conflicts1.len() ==> stable(st1, (#[trigger] conflicts1[c]).1)
            &&& forall|c: int|
                0 <= c < conflicts1.len() ==> lookup(tree1, (#[trigger] conflicts1[c]).0).is_none()
        }),
    decreases rank_of(trees), 1nat, names.len() - i,
{
    if i < names.len() {
        let name = names[i];
        let values = trees.map(|id: TreeId| lookup(st.tree(id), name));
        let bound = rank_of(trees);
        crate::tree_merge::lemma_lookups_below(st, trees, name);
        crate::merged_tree::lemma_rank_in_store(st, MergedTreeView::Merge(trees));
        let (st1, merged) = merge_value(st, values, bound);
        let next_tree = if merged.is_resolved() {
            with_entry(tree, name, merged.adds[0])
        } else {
            tree
        };
        let next_conflicts = if merged.is_resolved() {
            conflicts
        } else {
            conflicts.push((name, merged))
        };
        lemma_merge_names_grows(st1, trees, names, i + 1, next_tree, next_conflicts);
        lemma_merge_value_sound(st, values, bound);
        lemma_conflicts_ok_kept(st, st1, conflicts, trees.adds.len());
        assert(values.adds.len() == trees.adds.len());
        assert forall|c: int| 0 <= c < next_conflicts.len() implies stable(
            st1,
            (#[trigger] next_conflicts[c]).1,
        ) by {
            if c < conflicts.len() {
                lemma_stable_kept(st, st1, conflicts[c].1);
            }
        }
        crate::order::lemma_name_order();
        if merged.is_resolved() {
            crate::tree::lemma_with_entry_sorted(tree, name, merged.adds[0]);
            crate::tree_builder::lemma_entries_fit(st, st1, tree, name, merged.adds[0]);
            assert forall|c: int| 0 <= c < conflicts.len() implies lookup(
                next_tree,
                (#[trigger] conflicts[c]).0,
            ).is_none() by {
                assert(name_lt(conflicts[c].0, names[i]));
                crate::order::lemma_name_trichotomy(conflicts[c].0, name);
                crate::tree::lemma_with_entry_other(tree, name, merged.adds[0], conflicts[c].0);
            }
        } else {
            lemma_entries_ok_kept(st, st1, tree);
            assert(conflicts_sorted(next_conflicts)) by {
                assert forall|a: int, b: int| 0 <= a < b < next_conflicts.len() implies name_lt_fn()(
                    #[trigger] next_conflicts[a].0,
                    #[trigger] next_conflicts[b].0,
                ) by {
                    if b < conflicts.len() {
                        assert(name_lt_fn()(conflicts[a].0, conflicts[b].0));
                    } else {
                        assert(name_lt(conflicts[a].0, names[i]));
                    }
                }
            }
            assert(lookup(tree, names[i]).is_none());
        }
        assert forall|j: int| i + 1 <= j < names.len() implies lookup(
            next_tree,
            #[trigger] names[j],
        ).is_none() by {
            assert(lookup(tree, names[j]).is_none());
            if merged.is_resolved() {
                assert(name_lt(names[i], names[j]));
                crate::order::lemma_name_trichotomy(names[i], names[j]);
                crate::tree::lemma_with_entry_other(tree, name, merged.adds[0], names[j]);
            }
        }
        assert forall|c: int, j: int|
            0 <= c < next_conflicts.len() && i + 1 <= j < names.len() implies name_lt(
            (#[trigger] next_conflicts[c]).0,
            #[trigger] names[j],
        ) by {
            if c < conflicts.len() {
                assert(name_lt(conflicts[c].0, names[j]));
            } else {
                assert(name_lt(names[i], names[j]));
            }
        }
        lemma_merge_names_sound(st1, trees, names, i + 1, next_tree, next_conflicts);
    }
}


/// A value all of whose terms are `e`.
pub open spec fn all_terms(v: ValueTerms, e: Option<TreeValue>) -> bool {
    &&& forall|i: int| 0 <= i < v.adds.len() ==> v.adds[i] == e
    &&& forall|j: int| 0 <= j < v.removes.len() ==> v.removes[j] == e
}

/// The trees are those of the sides: each holds the resolved entries and,
/// under the conflicted names, the term of its side.
pub open spec fn are_sides(
    st: StoreView,
    trees: MergeView<TreeId>,
    tree: TreeView,
    conflicts: NamedConflicts,
) -> bool {
    &&& MergedTreeView::Merge(trees).valid(st)
    &&& forall|k: int|
        0 <= k < trees.adds.len() ==> st.tree(#[trigger] trees.adds[k]) == side_tree(
            tree,
            conflicts,
            true,
            k,
            conflicts.len() as int,
        )
    &&& forall|k: int|
        0 <= k < trees.removes.len() ==> st.tree(#[trigger] trees.removes[k]) == side_tree(
            tree,
            conflicts,
            false,
            k,
            conflicts.len() as int,
        )
}

/// What the trees of the sides hold under a name: the terms of the
/// conflict there, or on every side the resolved entry.
pub proof fn lemma_values_of_sides(
    st: StoreView,
    trees: MergeView<TreeId>,
    tree: TreeView,
    conflicts: NamedConflicts,
    x: Seq<u8>,
)
    requires
        are_sides(st, trees, tree, conflicts),
        tree_sorted(tree),
        conflicts_sorted(conflicts),
        forall|c: int|
            0 <= c < conflicts.len() ==> (#[trigger] conflicts[c]).1.wf() && conflicts[c].1.adds.len()
                == trees.adds.len(),
    ensures
        match conflict_at(conflicts, x) {
            Some(terms) => crate::tree_merge::values_under(st, trees, x) == terms,
            None => all_terms(crate::tree_merge::values_under(st, trees, x), lookup(tree, x)),
        },
{
    let values = crate::tree_merge::values_under(st, trees, x);
    crate::order::lemma_name_order();
    crate::assoc::lemma_lookup_some(conflicts, x, name_lt_fn());
    match conflict_at(conflicts, x) {
        Some(terms) => {
            let idx = choose|idx: int| 0 <= idx < conflicts.len() && #[trigger] conflicts[idx].0 == x;
            crate::assoc::lemma_lookup_at(conflicts, idx, name_lt_fn());
            assert(conflicts[idx].1 == terms);
            assert(values.adds =~= terms.adds) by {
                assert forall|k: int| 0 <= k < terms.adds.len() implies values.adds[k]
                    == terms.adds[k] by {
                    lemma_side_lookup_hit(tree, conflicts, true, k, conflicts.len() as int, idx);
                    assert(st.tree(trees.adds[k]) == side_tree(
                        tree,
                        conflicts,
                        true,
                        k,
                        conflicts.len() as int,
                    ));
                }
            }
            assert(values.removes =~= terms.removes) by {
                assert forall|k: int| 0 <= k < terms.removes.len() implies values.removes[k]
                    == terms.removes[k] by {
                    lemma_side_lookup_hit(tree, conflicts, false, k, conflicts.len() as int, idx);
                    assert(st.tree(trees.removes[k]) == side_tree(
                        tree,
                        conflicts,
                        false,
                        k,
                        conflicts.len() as int,
                    ));
                }
            }
        },
        None => {
            assert forall|i: int| 0 <= i < conflicts.len() implies (#[trigger] conflicts[i]).0
                != x by {}
            assert forall|k: int| 0 <= k < values.adds.len() implies values.adds[k] == lookup(
                tree,
                x,
            ) by {
                lemma_side_lookup_miss(tree, conflicts, true, k, conflicts.len() as int, x);
                assert(st.tree(trees.adds[k]) == side_tree(
                    tree,
                    conflicts,
                    true,
                    k,
                    conflicts.len() as int,
                ));
            }
            assert forall|k: int| 0 <= k < values.removes.len() implies values.removes[k]
                == lookup(tree, x) by {
                lemma_side_lookup_miss(tree, conflicts, false, k, conflicts.len() as int, x);
                assert(st.tree(trees.removes[k]) == side_tree(
                    tree,
                    conflicts,
                    false,
                    k,
                    conflicts.len() as int,
                ));
            }
        },
    }
}

/// Writing the trees of the sides into a store that holds them gives their
/// identifiers and writes nothing.
pub proof fn lemma_rewrite_sides(
    st: StoreView,
    tree: TreeView,
    conflicts: NamedConflicts,
    added: bool,
    side_ids: Seq<TreeId>,
    k: int,
)
    requires
        st.wf(),
        0 <= k <= side_ids.len(),
        forall|j: int|
            0 <= j < side_ids.len() ==> (#[trigger] side_ids[j]).0 < st.trees.len() && st.tree(
                side_ids[j],
            ) == side_tree(tree, conflicts, added, j, conflicts.len() as int),
    ensures
        write_sides(st, tree, conflicts, added, side_ids.len() as int, k, side_ids.take(k)) == (
            st,
            side_ids,
        ),
    decreases side_ids.len() - k,
{
    if k < side_ids.len() {
        let side = side_tree(tree, conflicts, added, k, conflicts.len() as int);
        assert(st.trees[side_ids[k].0 as int] == side);
        crate::store::lemma_index_in(st.trees, side, side_ids[k].0 as int);
        assert(st.put_tree(side) == (st, side_ids[k]));
        assert(side_ids.take(k).push(side_ids[k]) =~= side_ids.take(k + 1));
        lemma_rewrite_sides(st, tree, conflicts, added, side_ids, k + 1);
    } else {
        assert(side_ids.take(k) =~= side_ids);
    }
}

/// What merging the names of the trees of the sides has reached once the
/// names before position `i` are done: the resolved entries and the
/// conflicts of exactly those names.
pub open spec fn remerged(
    tree: TreeView,
    conflicts: NamedConflicts,
    names: Seq<Seq<u8>>,
    i: int,
    tree2: TreeView,
    conflicts2: NamedConflicts,
) -> bool {
    &&& tree_sorted(tree2)
    &&& conflicts_sorted(conflicts2)
    &&& forall|x: Seq<u8>|
        #[trigger] lookup(tree2, x) == if names.take(i).contains(x) && conflict_at(
            conflicts,
            x,
        ).is_none() {
            lookup(tree, x)
        } else {
            None
        }
    &&& forall|x: Seq<u8>|
        #[trigger] conflict_at(conflicts2, x) == if names.take(i).contains(x) {
            conflict_at(conflicts, x)
        } else {
            None
        }
    &&& forall|c: int, j: int|
        0 <= c < conflicts2.len() && i <= j < names.len() ==> name_lt(
            (#[trigger] conflicts2[c]).0,
            #[trigger] names[j],
        )
}

/// Merging the names of the trees of the sides again writes nothing and
/// gives the resolved entries and the conflicts that the sides were made from.
pub proof fn lemma_remerge_names(
    st: StoreView,
    trees: MergeView<TreeId>,
    tree: TreeView,
    conflicts: NamedConflicts,
    names: Seq<Seq<u8>>,
    i: int,
    tree2: TreeView,
    conflicts2: NamedConflicts,
)
    requires
        st.wf(),
        are_sides(st, trees, tree, conflicts),
        tree_sorted(tree),
        conflicts_sorted(conflicts),
        conflicts_ok(st, conflicts, trees.adds.len()),
        forall|c: int| 0 <= c < conflicts.len() ==> stable(st, (#[trigger] conflicts[c]).1),
        rising(names),
        0 <= i <= names.len(),
        remerged(tree, conflicts, names, i, tree2, conflicts2),
    ensures
        merge_names(st, trees, names, i, tree2, conflicts2).0 == st,
        remerged(
            tree,
            conflicts,
            names,
            names.len() as int,
            merge_names(st, trees, names, i, tree2, conflicts2).1,
            merge_names(st, trees, names, i, tree2, conflicts2).2,
        ),
    decreases names.len() - i,
{
    if i < names.len() {
        let name = names[i];
        let values = trees.map(|id: TreeId| lookup(st.tree(id), name));
        assert(values == crate::tree_merge::values_under(st, trees, name));
        let bound = rank_of(trees);
        lemma_values_of_sides(st, trees, tree, conflicts, name);
        crate::order::lemma_name_order();
        let before = names.take(i);
        let after = names.take(i + 1);
        assert(after =~= before.push(name));
        assert forall|x: Seq<u8>| after.contains(x) <==> (before.contains(x) || x == name) by {
            if before.contains(x) {
                let k = choose|k: int| 0 <= k < before.len() && before[k] == x;
                assert(after[k] == x);
            }
            if x == name {
                assert(after[i] == x);
            }
            if after.contains(x) {
                let k = choose|k: int| 0 <= k < after.len() && after[k] == x;
                if k < i {
                    assert(before[k] == x);
                }
            }
        }
        assert(!before.contains(name)) by {
            if before.contains(name) {
                let k = choose|k: int| 0 <= k < before.len() && before[k] == name;
                assert(name_lt(names[k], names[i]));
                crate::order::lemma_name_trichotomy(names[k], names[i]);
            }
        }
        match conflict_at(conflicts, name) {
            Some(terms) => {
                crate::assoc::lemma_lookup_some(conflicts, name, name_lt_fn());
                let idx = choose|idx: int|
                    0 <= idx < conflicts.len() && #[trigger] conflicts[idx].0 == name;
                crate::assoc::lemma_lookup_at(conflicts, idx, name_lt_fn());
                assert(stable(st, conflicts[idx].1));
                assert(values == terms);
                crate::tree_merge::lemma_lookups_below(st, trees, name);
                crate::merged_tree::lemma_rank_in_store(st, MergedTreeView::Merge(trees));
                crate::merged_tree::lemma_child_of_terms(st, terms, bound);
                assert(stable_in(terms, st, bound));
                assert(!terms.is_resolved()) by {
                    if terms.is_resolved() {
                        crate::algebra_laws::lemma_simplify_resolved(terms);
                    }
                }
                let next = conflicts2.push((name, terms));
                // The name comes after all conflicted names so far.
                crate::assoc::lemma_lower_bound(conflicts2, name, 0, name_lt_fn());
                let p = crate::assoc::lower_bound(conflicts2, name, 0, name_lt_fn());
                assert(p == conflicts2.len()) by {
                    if p < conflicts2.len() {
                        assert(name_lt(conflicts2[p].0, names[i]));
                    }
                }
                assert(next =~= crate::assoc::with_entry(
                    conflicts2,
                    name,
                    Some(terms),
                    name_lt_fn(),
                ));
                crate::assoc::lemma_with_entry_sorted(conflicts2, name, Some(terms), name_lt_fn());
                crate::assoc::lemma_with_entry_same(conflicts2, name, Some(terms), name_lt_fn());
                assert forall|x: Seq<u8>|
                    #[trigger] conflict_at(next, x) == if after.contains(x) {
                        conflict_at(conflicts, x)
                    } else {
                        None
                    } by {
                    assert(conflict_at(conflicts2, x) == if before.contains(x) {
                        conflict_at(conflicts, x)
                    } else {
                        None
                    });
                    if x != name {
                        crate::assoc::lemma_with_entry_other(
                            conflicts2,
                            name,
                            Some(terms),
                            x,
                            name_lt_fn(),
                        );
                    }
                }
                assert forall|x: Seq<u8>|
                    #[trigger] lookup(tree2, x) == if after.contains(x) && conflict_at(
                        conflicts,
                        x,
                    ).is_none() {
                        lookup(tree, x)
                    } else {
                        None
                    } by {}
                assert forall|c: int, j: int|
                    0 <= c < next.len() && i + 1 <= j < names.len() implies name_lt(
                    (#[trigger] next[c]).0,
                    #[trigger] names[j],
                ) by {
                    if c < conflicts2.len() {
                        assert(name_lt(conflicts2[c].0, names[j]));
                    } else {
                        assert(name_lt(names[i], names[j]));
                    }
                }
                assert(merge_value(st, values, bound) == (st, terms));
                assert(merge_names(st, trees, names, i, tree2, conflicts2) == merge_names(
                    st,
                    trees,
                    names,
                    i + 1,
                    tree2,
                    next,
                ));
                assert(remerged(tree, conflicts, names, i + 1, tree2, next));
                lemma_remerge_names(st, trees, tree, conflicts, names, i + 1, tree2, next);
            },
            None => {
                let e = lookup(tree, name);
                crate::algebra_laws::lemma_constant_resolves(values, e);
                let next = with_entry(tree2, name, e);
                crate::tree::lemma_with_entry_sorted(tree2, name, e);
                crate::tree::lemma_with_entry_same(tree2, name, e);
                assert forall|x: Seq<u8>|
                    #[trigger] lookup(next, x) == if after.contains(x) && conflict_at(
                        conflicts,
                        x,
                    ).is_none() {
                        lookup(tree, x)
                    } else {
                        None
                    } by {
                    assert(lookup(tree2, x) == if before.contains(x) && conflict_at(
                        conflicts,
                        x,
                    ).is_none() {
                        lookup(tree, x)
                    } else {
                        None
                    });
                    if x != name {
                        crate::tree::lemma_with_entry_other(tree2, name, e, x);
                    }
                }
                assert forall|x: Seq<u8>|
                    #[trigger] conflict_at(conflicts2, x) == if after.contains(x) {
                        conflict_at(conflicts, x)
                    } else {
                        None
                    } by {}
                assert(merge_value(st, values, bound) == (st, MergeView::resolved(e)));
                assert(merge_names(st, trees, names, i, tree2, conflicts2) == merge_names(
                    st,
                    trees,
                    names,
                    i + 1,
                    next,
                    conflicts2,
                ));
                assert(remerged(tree, conflicts, names, i + 1, next, conflicts2));
                lemma_remerge_names(st, trees, tree, conflicts, names, i + 1, next, conflicts2);
            },
        }
    } else {
        assert(names.take(i) =~= names);
    }
}


/// The trees of the sides of conflicts that are as far merged as they can
/// be do not resolve trivially, and merging them again gives the same
/// trees and writes nothing.
pub proof fn lemma_remerge(
    st: StoreView,
    trees: MergeView<TreeId>,
    tree: TreeView,
    conflicts: NamedConflicts,
)
    requires
        st.wf(),
        are_sides(st, trees, tree, conflicts),
        tree_sorted(tree),
        conflicts_sorted(conflicts),
        conflicts.len() > 0,
        conflicts_ok(st, conflicts, trees.adds.len()),
        forall|c: int| 0 <= c < conflicts.len() ==> stable(st, (#[trigger] conflicts[c]).1),
        forall|c: int| 0 <= c < conflicts.len() ==> lookup(tree, (#[trigger] conflicts[c]).0).is_none(),
    ensures
        trees.resolve_trivial().is_none(),
        settled_in(trees, st),
{
    crate::order::lemma_name_order();
    // The trees resolve trivially no more than the terms of a conflict do.
    let first = conflicts[0].0;
    crate::assoc::lemma_lookup_at(conflicts, 0, name_lt_fn());
    lemma_values_of_sides(st, trees, tree, conflicts, first);
    assert(stable(st, conflicts[0].1));
    if trees.resolve_trivial().is_some() {
        crate::algebra_laws::lemma_resolve_trivial_mapped(trees, |id: TreeId| lookup(st.tree(id), first));
        assert(trees.map(|id: TreeId| lookup(st.tree(id), first))
            == crate::tree_merge::values_under(st, trees, first));
    }
    // Merging the names gives the resolved entries and the conflicts again.
    let names = MergedTreeView::Merge(trees).names(st);
    lemma_names_of_trees(st, trees);
    let empty_tree = Seq::<(Seq<u8>, TreeValue)>::empty();
    let no_conflicts = NamedConflicts::empty();
    assert(remerged(tree, conflicts, names, 0, empty_tree, no_conflicts)) by {
        assert(names.take(0) =~= Seq::<Seq<u8>>::empty());
        assert forall|x: Seq<u8>| #[trigger] lookup(empty_tree, x) == None::<TreeValue> by {
            crate::tree::lemma_lower_bound(empty_tree, x, 0);
        }
        assert forall|x: Seq<u8>| #[trigger] conflict_at(no_conflicts, x) == None::<ValueTerms> by {
            crate::assoc::lemma_lower_bound(no_conflicts, x, 0, name_lt_fn());
        }
    }
    lemma_remerge_names(st, trees, tree, conflicts, names, 0, empty_tree, no_conflicts);
    let (st1, tree1, conflicts1) = merge_names(st, trees, names, 0, empty_tree, no_conflicts);
    assert(names.take(names.len() as int) =~= names);
    assert forall|x: Seq<u8>| lookup(tree1, x) == lookup(tree, x) by {
        if conflict_at(conflicts, x).is_some() {
            crate::assoc::lemma_lookup_some(conflicts, x, name_lt_fn());
            let idx = choose|idx: int| 0 <= idx < conflicts.len() && #[trigger] conflicts[idx].0 == x;
            assert(lookup(tree, conflicts[idx].0).is_none());
        } else if lookup(tree, x).is_some() {
            // Every side holds the entry, so the name is among the names.
            lemma_values_of_sides(st, trees, tree, conflicts, x);
            let values = crate::tree_merge::values_under(st, trees, x);
            assert(values.adds[0] == lookup(tree, x));
            assert(lookup(st.tree(trees.adds[0]), x).is_some());
            assert(names.contains(x));
        }
    }
    crate::tree::lemma_tree_extensional(tree1, tree);
    assert forall|x: Seq<u8>|
        crate::assoc::lookup(conflicts1, x, name_lt_fn()) == crate::assoc::lookup(
            conflicts,
            x,
            name_lt_fn(),
        ) by {
        assert(conflict_at(conflicts1, x) == if names.contains(x) {
            conflict_at(conflicts, x)
        } else {
            None
        });
        if conflict_at(conflicts, x).is_some() && !names.contains(x) {
            // Some term of the conflict is an entry, so the name is among the names.
            let terms = conflict_at(conflicts, x).unwrap();
            crate::assoc::lemma_lookup_some(conflicts, x, name_lt_fn());
            let idx = choose|idx: int| 0 <= idx < conflicts.len() && #[trigger] conflicts[idx].0 == x;
            crate::assoc::lemma_lookup_at(conflicts, idx, name_lt_fn());
            assert(stable(st, conflicts[idx].1));
            lemma_values_of_sides(st, trees, tree, conflicts, x);
            let values = crate::tree_merge::values_under(st, trees, x);
            assert(values == terms);
            assert forall|i: int| 0 <= i < terms.adds.len() implies terms.adds[i]
                == None::<TreeValue> by {
                if terms.adds[i].is_some() {
                    assert(lookup(st.tree(trees.adds[i]), x).is_some());
                }
            }
            assert forall|j: int| 0 <= j < terms.removes.len() implies terms.removes[j]
                == None::<TreeValue> by {
                if terms.removes[j].is_some() {
                    assert(lookup(st.tree(trees.removes[j]), x).is_some());
                }
            }
            crate::algebra_laws::lemma_constant_resolves(terms, None::<TreeValue>);
        }
    }
    crate::assoc::lemma_extensional(conflicts1, conflicts, name_lt_fn());
    // The trees of the sides are in the store already.
    assert(conflicts[0].1.adds.len() == trees.adds.len());
    lemma_rewrite_sides(st, tree, conflicts, false, trees.removes, 0);
    lemma_rewrite_sides(st, tree, conflicts, true, trees.adds, 0);
    assert(trees.removes.take(0) =~= Seq::<TreeId>::empty());
    assert(trees.adds.take(0) =~= Seq::<TreeId>::empty());
}

/// Writing the trees of both sides keeps the store in order; the trees
/// written are those of the sides, and they are as far merged as they can be.
pub proof fn lemma_write_both_sides(
    st1: StoreView,
    tree: TreeView,
    conflicts: NamedConflicts,
    sides: nat,
)
    requires
        st1.wf(),
        sides >= 1,
        tree_sorted(tree),
        st1.entries_ok(tree, st1.trees.len() as int),
        conflicts_ok(st1, conflicts, sides),
        conflicts_sorted(conflicts),
        conflicts.len() > 0,
        forall|c: int| 0 <= c < conflicts.len() ==> stable(st1, (#[trigger] conflicts[c]).1),
        forall|c: int| 0 <= c < conflicts.len() ==> lookup(tree, (#[trigger] conflicts[c]).0).is_none(),
        bounded(both_sides(st1, tree, conflicts, sides).0),
    ensures
        both_sides(st1, tree, conflicts, sides).0.wf(),
        st1.extended_by(both_sides(st1, tree, conflicts, sides).0),
        both_sides(st1, tree, conflicts, sides).1.adds.len() == sides,
        both_sides(st1, tree, conflicts, sides).1.wf(),
        are_sides(
            both_sides(st1, tree, conflicts, sides).0,
            both_sides(st1, tree, conflicts, sides).1,
            tree,
            conflicts,
        ),
{
    let (st2, removes) = write_sides(st1, tree, conflicts, false, sides - 1, 0, Seq::empty());
    lemma_write_sides_grows(st2, tree, conflicts, true, sides as int, 0, Seq::empty());
    assert forall|x: int| 0 <= x < conflicts.len() implies terms_below(
        st1,
        (#[trigger] conflicts[x]).1,
        st1.trees.len(),
    ) && sides - 1 == conflicts[x].1.removes.len() by {
        assert(conflicts[x].1.wf());
    }
    lemma_write_sides_sound(st1, tree, conflicts, false, sides - 1, 0, Seq::empty());
    lemma_entries_ok_kept(st1, st2, tree);
    lemma_conflicts_ok_kept(st1, st2, conflicts, sides);
    lemma_write_sides_sound(st2, tree, conflicts, true, sides as int, 0, Seq::empty());
    let (st3, adds) = write_sides(st2, tree, conflicts, true, sides as int, 0, Seq::empty());
    assert forall|k: int| 0 <= k < removes.len() implies (#[trigger] removes[k]).0
        < st3.trees.len() && st3.tree(removes[k]) == side_tree(
        tree,
        conflicts,
        false,
        k,
        conflicts.len() as int,
    ) by {
        assert(st3.tree(removes[k]) == st2.tree(removes[k]));
    }
}

/// The store and the trees after the trees of the removed and then of the
/// added sides are written.
pub open spec fn both_sides(st: StoreView, tree: TreeView, conflicts: NamedConflicts, sides: nat) -> (
    StoreView,
    MergeView<TreeId>,
) {
    let (st2, removes) = write_sides(st, tree, conflicts, false, sides - 1, 0, Seq::empty());
    let (st3, adds) = write_sides(st2, tree, conflicts, true, sides as int, 0, Seq::empty());
    (st3, MergeView { removes, adds })
}

/// The trees of the sides of conflicts that are as far merged as they can
/// be are as far merged as they can be.
pub proof fn lemma_sides_settled(
    st1: StoreView,
    st3: StoreView,
    merged: MergeView<TreeId>,
    tree: TreeView,
    conflicts: NamedConflicts,
)
    requires
        st1.wf(),
        st3.wf(),
        st1.extended_by(st3),
        are_sides(st3, merged, tree, conflicts),
        tree_sorted(tree),
        conflicts_sorted(conflicts),
        conflicts.len() > 0,
        conflicts_ok(st1, conflicts, merged.adds.len()),
        forall|c: int| 0 <= c < conflicts.len() ==> stable(st1, (#[trigger] conflicts[c]).1),
        forall|c: int| 0 <= c < conflicts.len() ==> lookup(tree, (#[trigger] conflicts[c]).0).is_none(),
    ensures
        settled(st3, merged),
{
    assert forall|later: StoreView| st3.extended_by(later) && later.wf() implies #[trigger] settled_in(
        merged,
        later,
    ) by {
        lemma_conflicts_ok_kept(st1, later, conflicts, merged.adds.len());
        assert forall|c: int| 0 <= c < conflicts.len() implies stable(
            later,
            (#[trigger] conflicts[c]).1,
        ) by {
            lemma_stable_kept(st1, later, conflicts[c].1);
        }
        assert(are_sides(later, merged, tree, conflicts)) by {
            assert forall|k: int| 0 <= k < merged.adds.len() implies later.tree(
                #[trigger] merged.adds[k],
            ) == side_tree(tree, conflicts, true, k, conflicts.len() as int) by {
                assert(later.tree(merged.adds[k]) == st3.tree(merged.adds[k]));
            }
            assert forall|k: int| 0 <= k < merged.removes.len() implies later.tree(
                #[trigger] merged.removes[k],
            ) == side_tree(tree, conflicts, false, k, conflicts.len() as int) by {
                assert(later.tree(merged.removes[k]) == st3.tree(merged.removes[k]));
            }
        }
        lemma_remerge(later, merged, tree, conflicts);
    }
    lemma_conflicts_ok_kept(st1, st3, conflicts, merged.adds.len());
    assert forall|c: int| 0 <= c < conflicts.len() implies stable(st3, (#[trigger] conflicts[c]).1) by {
        lemma_stable_kept(st1, st3, conflicts[c].1);
    }
    lemma_remerge(st3, merged, tree, conflicts);
}

/// Merging trees keeps the store in order and gives trees of the store, as
/// many as were given unless it gives a single one. The trees it gives are
/// as far merged as they can be: merging them again, in any store grown
/// from the one they were written to, gives the same trees and writes
/// nothing.
pub proof fn lemma_merge_trees_sound(st: StoreView, trees: MergeView<TreeId>)
    requires
        st.wf(),
        MergedTreeView::Merge(trees).valid(st),
        bounded(merge_trees(st, trees).0),
    ensures
        merge_trees(st, trees).0.wf(),
        st.extended_by(merge_trees(st, trees).0),
        MergedTreeView::Merge(merge_trees(st, trees).1).valid(merge_trees(st, trees).0),
        merge_trees(st, trees).1.is_resolved() || merge_trees(st, trees).1.adds.len()
            == trees.adds.len(),
        settled(merge_trees(st, trees).0, merge_trees(st, trees).1),
    decreases rank_of(trees), 2nat, 0nat,
{
    let (st_end, merged) = merge_trees(st, trees);
    match trees.resolve_trivial() {
        Some(id) => {
            crate::algebra_laws::lemma_resolve_trivial_is_a_term(trees);
            let x = choose|x: int| 0 <= x < trees.adds.len() && trees.adds[x] == id;
            assert(trees.adds[x] == id);
            lemma_single_settled(st_end, id);
        },
        None => {
            let names = MergedTreeView::Merge(trees).names(st);
            lemma_names_of_trees(st, trees);
            let empty_tree = Seq::<(Seq<u8>, TreeValue)>::empty();
            let no_conflicts = NamedConflicts::empty();
            let (st1, tree, conflicts) = merge_names(st, trees, names, 0, empty_tree, no_conflicts);
            let sides = trees.adds.len();
            // The store after the names is no larger than the one at the end.
            if conflicts.len() == 0 {
                assert(st1.put_tree(tree).0.trees.len() >= st1.trees.len());
            } else {
                assert(merge_trees(st, trees) == both_sides(st1, tree, conflicts, sides));
                lemma_write_sides_grows(st1, tree, conflicts, false, sides - 1, 0, Seq::empty());
                let st2 = write_sides(st1, tree, conflicts, false, sides - 1, 0, Seq::empty()).0;
                lemma_write_sides_grows(st2, tree, conflicts, true, sides as int, 0, Seq::empty());
            }
            assert forall|j: int| 0 <= j < names.len() implies lookup(
                empty_tree,
                #[trigger] names[j],
            ).is_none() by {
                crate::tree::lemma_lower_bound(empty_tree, names[j], 0);
            }
            lemma_merge_names_sound(st, trees, names, 0, empty_tree, no_conflicts);
            if conflicts.len() == 0 {
                crate::store::lemma_put_tree(st1, tree);
                let (st2, id) = st1.put_tree(tree);
                lemma_single_settled(st2, id);
            } else {
                lemma_write_both_sides(st1, tree, conflicts, sides);
                lemma_sides_settled(st1, st_end, merged, tree, conflicts);
            }
        },
    }
}

/// A single tree is as far merged as it can be.
pub proof fn lemma_single_settled(st: StoreView, id: TreeId)
    ensures
        settled(st, MergeView::resolved(id)),
{
    assert forall|later: StoreView| st.extended_by(later) && later.wf() implies #[trigger] settled_in(
        MergeView::resolved(id),
        later,
    ) by {
        crate::tree_merge::lemma_resolve_single(later, id);
    }
}

/// Resolve idempotence: resolving what resolving a tree gave gives the same
/// trees again and writes nothing more. It holds for every tree of a store
/// in order, as long as the identifiers do not run out.
pub proof fn lemma_resolve_twice(st: StoreView, tree: MergedTreeView)
    requires
        st.wf(),
        tree is Merge,
        tree.valid(st),
        bounded(crate::tree_merge::resolved_trees(st, tree).0),
    ensures
        crate::tree_merge::resolved_trees(
            crate::tree_merge::resolved_trees(st, tree).0,
            MergedTreeView::Merge(crate::tree_merge::resolved_trees(st, tree).1),
        ) == crate::tree_merge::resolved_trees(st, tree),
{
    let trees = tree->Merge_0;
    lemma_merge_trees_sound(st, trees);
    let (st1, merged) = merge_trees(st, trees);
    assert(settled_in(merged, st1));
}


/// Partial resolution: where merging trees leaves names conflicted, the
/// trees it gives hold, under every name that resolved, the one value, so
/// that the value there is resolved; and under every name that stays
/// conflicted the terms as far as they merged, so that the value there is
/// that conflict.
pub proof fn lemma_partial_resolution(st: StoreView, trees: MergeView<TreeId>, x: Seq<u8>)
    requires
        st.wf(),
        MergedTreeView::Merge(trees).valid(st),
        trees.resolve_trivial().is_none(),
        bounded(merge_trees(st, trees).0),
        merge_names(
            st,
            trees,
            MergedTreeView::Merge(trees).names(st),
            0,
            Seq::empty(),
            Seq::empty(),
        ).2.len() > 0,
    ensures
        ({
            let (st1, tree, conflicts) = merge_names(
                st,
                trees,
                MergedTreeView::Merge(trees).names(st),
                0,
                Seq::empty(),
                Seq::empty(),
            );
            let (st_end, merged) = merge_trees(st, trees);
            MergedTreeView::Merge(merged).value(st_end, x) == match conflict_at(conflicts, x) {
                Some(terms) => terms,
                None => MergeView::resolved(lookup(tree, x)),
            }
        }),
{
    let names = MergedTreeView::Merge(trees).names(st);
    lemma_names_of_trees(st, trees);
    let empty_tree = Seq::<(Seq<u8>, TreeValue)>::empty();
    let no_conflicts = NamedConflicts::empty();
    let (st1, tree, conflicts) = merge_names(st, trees, names, 0, empty_tree, no_conflicts);
    let (st_end, merged) = merge_trees(st, trees);
    let sides = trees.adds.len();
    assert(merge_trees(st, trees) == both_sides(st1, tree, conflicts, sides));
    lemma_write_sides_grows(st1, tree, conflicts, false, sides - 1, 0, Seq::empty());
    let st2 = write_sides(st1, tree, conflicts, false, sides - 1, 0, Seq::empty()).0;
    lemma_write_sides_grows(st2, tree, conflicts, true, sides as int, 0, Seq::empty());
    assert forall|j: int| 0 <= j < names.len() implies lookup(
        empty_tree,
        #[trigger] names[j],
    ).is_none() by {
        crate::tree::lemma_lower_bound(empty_tree, names[j], 0);
    }
    lemma_merge_names_sound(st, trees, names, 0, empty_tree, no_conflicts);
    lemma_write_both_sides(st1, tree, conflicts, sides);
    lemma_values_of_sides(st_end, merged, tree, conflicts, x);
    let values = crate::tree_merge::values_under(st_end, merged, x);
    crate::order::lemma_name_order();
    match conflict_at(conflicts, x) {
        Some(terms) => {
            crate::assoc::lemma_lookup_some(conflicts, x, name_lt_fn());
            let idx = choose|idx: int| 0 <= idx < conflicts.len() && #[trigger] conflicts[idx].0 == x;
            crate::assoc::lemma_lookup_at(conflicts, idx, name_lt_fn());
            assert(stable(st1, conflicts[idx].1));
        },
        None => {
            crate::algebra_laws::lemma_constant_resolves(values, lookup(tree, x));
        },
    }
}

} // verus!
