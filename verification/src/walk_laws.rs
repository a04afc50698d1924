//! The order in which walks and diffs report paths.
use vstd::prelude::*;
use crate::matchers::MatcherView;
use crate::merged_tree::{
    any_present, diff_leaf, is_tree_value, DiffView, EntryView, MergedTreeView, PathView,
};
use crate::store::ValueTerms;
use crate::names::{at_least, rising, union};
use crate::order::{at_or_under, name_lt, path_lt};
use crate::store::StoreView;

verus! {

/// The paths of the entries of a walk.
pub open spec fn entry_paths(entries: Seq<EntryView>) -> Seq<PathView> {
    Seq::new(entries.len(), |i: int| entries[i].0)
}

/// The paths of the entries of a diff.
pub open spec fn diff_paths(diffs: Seq<DiffView>) -> Seq<PathView> {
    Seq::new(diffs.len(), |i: int| diffs[i].0)
}

/// The paths come in strictly rising order: no path occurs twice.
pub open spec fn rising_paths(paths: Seq<PathView>) -> bool {
    forall|i: int, j: int|
        0 <= i < j < paths.len() ==> path_lt(#[trigger] paths[i], #[trigger] paths[j])
}

/// Every path lies below the directory `prefix`, under a name that is not
/// before `low`.
pub open spec fn below_from(prefix: PathView, low: Seq<u8>, paths: Seq<PathView>) -> bool {
    forall|k: int|
        0 <= k < paths.len() ==> at_or_under(prefix, #[trigger] paths[k]) && prefix.len()
            < paths[k].len() && at_least(low, paths[k][prefix.len() as int])
}

/// Every path is `base` or lies below it.
pub open spec fn all_under(base: PathView, paths: Seq<PathView>) -> bool {
    forall|k: int| 0 <= k < paths.len() ==> at_or_under(base, #[trigger] paths[k])
}

/// Paths at or below a name, followed by paths under later names, are in
/// rising order if each part is.
pub proof fn lemma_rising_join(
    prefix: PathView,
    name: Seq<u8>,
    next: Seq<u8>,
    here: Seq<PathView>,
    rest: Seq<PathView>,
)
    requires
        rising_paths(here),
        rising_paths(rest),
        all_under(prefix.push(name), here),
        below_from(prefix, next, rest),
        name_lt(name, next),
    ensures
        rising_paths(here + rest),
        below_from(prefix, name, here + rest),
{
    let all = here + rest;
    assert forall|i: int, j: int| 0 <= i < j < all.len() implies path_lt(
        #[trigger] all[i],
        #[trigger] all[j],
    ) by {
        if j < here.len() {
            assert(path_lt(here[i], here[j]));
        } else if i >= here.len() {
            assert(path_lt(rest[i - here.len()], rest[j - here.len()]));
        } else {
            let p = here[i];
            let q = rest[j - here.len()];
            let second = q[prefix.len() as int];
            assert(at_or_under(prefix.push(second), q)) by {
                assert(q.take(prefix.len() as int + 1) =~= q.take(prefix.len() as int).push(second));
            }
            if next != second {
                crate::order::lemma_name_transitive(name, next, second);
            }
            crate::order::lemma_paths_by_name(prefix, name, second, p, q);
        }
    }
    assert forall|k: int| 0 <= k < all.len() implies at_or_under(prefix, #[trigger] all[k])
        && prefix.len() < all[k].len() && at_least(name, all[k][prefix.len() as int]) by {
        if k < here.len() {
            crate::order::lemma_under_longer(prefix, name, here[k]);
            assert(here[k].take(prefix.len() as int + 1)[prefix.len() as int] == prefix.push(
                name,
            )[prefix.len() as int]);
        } else {
            let q = rest[k - here.len()];
            if next != q[prefix.len() as int] {
                crate::order::lemma_name_transitive(name, next, q[prefix.len() as int]);
            }
        }
    }
}

/// Paths below a directory whose first is the directory's first name lie
/// below the directory.
pub proof fn lemma_single_below(prefix: PathView, name: Seq<u8>, here: Seq<PathView>)
    requires
        all_under(prefix.push(name), here),
    ensures
        below_from(prefix, name, here),
{
    assert forall|k: int| 0 <= k < here.len() implies at_or_under(prefix, #[trigger] here[k])
        && prefix.len() < here[k].len() && at_least(name, here[k][prefix.len() as int]) by {
        crate::order::lemma_under_longer(prefix, name, here[k]);
        assert(here[k].take(prefix.len() as int + 1)[prefix.len() as int] == prefix.push(
            name,
        )[prefix.len() as int]);
    }
}

/// The names of the trees of a tree that may be conflicted are in rising order.
pub proof fn lemma_names_rising(st: StoreView, tree: MergedTreeView)
    requires
        st.wf(),
        tree.valid(st),
    ensures
        rising(tree.names(st)),
{
    match tree {
        MergedTreeView::Legacy(id) => {
            assert(crate::tree::tree_sorted(st.trees[id.0 as int]));
            crate::tree_merge_laws::lemma_tree_names(st.tree(id));
        },
        MergedTreeView::Merge(trees) => {
            crate::tree_merge_laws::lemma_names_of_trees(st, trees);
        },
    }
}

/// The entries at and below a name come in rising order of their paths, all
/// at or below the name.
pub proof fn lemma_entries_at_rising(
    st: StoreView,
    tree: MergedTreeView,
    prefix: PathView,
    name: Seq<u8>,
)
    requires
        st.wf(),
        tree.valid(st),
    ensures
        rising_paths(entry_paths(tree.entries_at(st, prefix, name))),
        all_under(prefix.push(name), entry_paths(tree.entries_at(st, prefix, name))),
    decreases tree.rank(), 0nat, 0nat,
{
    let v = tree.value(st, name);
    let path = prefix.push(name);
    if is_tree_value(v) {
        crate::merged_tree::lemma_walk_child(st, tree, name);
        let child = tree.walk_child(v);
        lemma_entries_rising(st, child, path);
    } else {
        assert(path.take(path.len() as int) =~= path);
    }
}

/// The entries at and below the names from a position on come in rising
/// order of their paths, all below the directory.
pub proof fn lemma_entries_from_rising(
    st: StoreView,
    tree: MergedTreeView,
    prefix: PathView,
    names: Seq<Seq<u8>>,
    i: int,
)
    requires
        st.wf(),
        tree.valid(st),
        rising(names),
        0 <= i <= names.len(),
    ensures
        rising_paths(entry_paths(tree.entries_from(st, prefix, names, i))),
        i < names.len() ==> below_from(
            prefix,
            names[i],
            entry_paths(tree.entries_from(st, prefix, names, i)),
        ),
        i >= names.len() ==> tree.entries_from(st, prefix, names, i).len() == 0,
    decreases tree.rank(), 1nat, names.len() - i,
{
    if i < names.len() {
        let here = tree.entries_at(st, prefix, names[i]);
        let rest = tree.entries_from(st, prefix, names, i + 1);
        lemma_entries_at_rising(st, tree, prefix, names[i]);
        lemma_entries_from_rising(st, tree, prefix, names, i + 1);
        assert(entry_paths(here + rest) =~= entry_paths(here) + entry_paths(rest));
        if i + 1 < names.len() {
            assert(name_lt(names[i], names[i + 1]));
            lemma_rising_join(prefix, names[i], names[i + 1], entry_paths(here), entry_paths(rest));
        } else {
            assert(entry_paths(here) + entry_paths(rest) =~= entry_paths(here));
            lemma_single_below(prefix, names[i], entry_paths(here));
        }
    }
}

/// Path order of a walk: the entries come in strictly rising order of their
/// paths, so that no path is reported twice, and all lie below the
/// directory that the walk started from.
pub proof fn lemma_entries_rising(st: StoreView, tree: MergedTreeView, prefix: PathView)
    requires
        st.wf(),
        tree.valid(st),
    ensures
        rising_paths(entry_paths(tree.entries(st, prefix))),
        forall|k: int|
            0 <= k < tree.entries(st, prefix).len() ==> at_or_under(
                prefix,
                #[trigger] tree.entries(st, prefix)[k].0,
            ) && prefix.len() < tree.entries(st, prefix)[k].0.len(),
    decreases tree.rank(), 2nat, 0nat,
{
    lemma_names_rising(st, tree);
    let names = tree.names(st);
    lemma_entries_from_rising(st, tree, prefix, names, 0);
    let e = tree.entries(st, prefix);
    assert forall|k: int| 0 <= k < e.len() implies at_or_under(prefix, #[trigger] e[k].0)
        && prefix.len() < e[k].0.len() by {
        assert(entry_paths(e)[k] == e[k].0);
    }
}

/// The paths that `path_of` gives for the items of a list.
pub open spec fn paths_by<T>(items: Seq<T>, path_of: spec_fn(T) -> PathView) -> Seq<PathView> {
    Seq::new(items.len(), |i: int| path_of(items[i]))
}

/// Keeping some items of a list in rising order of their paths gives a
/// list in rising order.
pub proof fn lemma_filtered_rising<T>(
    items: Seq<T>,
    path_of: spec_fn(T) -> PathView,
    keep: spec_fn(T) -> bool,
)
    requires
        rising_paths(paths_by(items, path_of)),
    ensures
        rising_paths(paths_by(items.filter(keep), path_of)),
        forall|k: int|
            0 <= k < items.filter(keep).len() ==> items.contains(#[trigger] items.filter(keep)[k]),
    decreases items.len(),
{
    reveal(Seq::filter);
    if items.len() > 0 {
        let head = items.drop_last();
        assert forall|i: int, j: int| 0 <= i < j < head.len() implies path_lt(
            #[trigger] paths_by(head, path_of)[i],
            #[trigger] paths_by(head, path_of)[j],
        ) by {
            assert(path_lt(paths_by(items, path_of)[i], paths_by(items, path_of)[j]));
        }
        lemma_filtered_rising(head, path_of, keep);
        let kept = head.filter(keep);
        let all = items.filter(keep);
        assert forall|k: int| 0 <= k < all.len() implies items.contains(#[trigger] all[k]) by {
            if k < kept.len() {
                assert(head.contains(kept[k]));
                let x = choose|x: int| 0 <= x < head.len() && head[x] == kept[k];
                assert(items[x] == kept[k]);
            } else {
                assert(items[items.len() - 1] == all[k]);
            }
        }
        assert forall|i: int, j: int| 0 <= i < j < all.len() implies path_lt(
            #[trigger] paths_by(all, path_of)[i],
            #[trigger] paths_by(all, path_of)[j],
        ) by {
            if j < kept.len() {
                assert(path_lt(paths_by(kept, path_of)[i], paths_by(kept, path_of)[j]));
            } else {
                assert(head.contains(kept[i]));
                let x = choose|x: int| 0 <= x < head.len() && head[x] == kept[i];
                assert(path_lt(
                    paths_by(items, path_of)[x],
                    paths_by(items, path_of)[items.len() - 1],
                ));
            }
        }
    }
}

/// Path order of the filtered walk and of the conflicts: both come in
/// strictly rising order of their paths.
pub proof fn lemma_filtered_walks_rising(st: StoreView, tree: MergedTreeView, matcher: MatcherView)
    requires
        st.wf(),
        tree.valid(st),
    ensures
        rising_paths(entry_paths(tree.entries_matching(st, matcher))),
        rising_paths(entry_paths(tree.conflicts(st))),
{
    lemma_entries_rising(st, tree, Seq::empty());
    let all = tree.entries(st, Seq::empty());
    let path_of = |e: EntryView| e.0;
    assert(paths_by(all, path_of) =~= entry_paths(all));
    lemma_filtered_rising(all, path_of, |e: EntryView| matcher.matches(e.0));
    lemma_filtered_rising(all, path_of, |e: EntryView| !e.1.is_resolved());
    assert(paths_by(tree.entries_matching(st, matcher), path_of) =~= entry_paths(
        tree.entries_matching(st, matcher),
    ));
    assert(paths_by(tree.conflicts(st), path_of) =~= entry_paths(tree.conflicts(st)));
}

/// The differences at and below a name come in rising order of their
/// paths, all at or below the name.
pub proof fn lemma_diff_at_rising(
    left: MergedTreeView,
    right: MergedTreeView,
    st: StoreView,
    prefix: PathView,
    name: Seq<u8>,
)
    requires
        st.wf(),
        left.valid(st),
        right.valid(st),
    ensures
        rising_paths(diff_paths(left.diff_at(right, st, prefix, name))),
        all_under(prefix.push(name), diff_paths(left.diff_at(right, st, prefix, name))),
    decreases left.rank() + right.rank(), 0nat, 0nat,
{
    let lv = left.value(st, name);
    let rv = right.value(st, name);
    let path = prefix.push(name);
    if lv != rv {
        let lc = left.diff_child(lv);
        let rc = right.diff_child(rv);
        let leaf = diff_leaf(path, lv, rv);
        assert(path.take(path.len() as int) =~= path);
        crate::merged_tree::lemma_diff_children(st, left, right, name);
        if is_tree_value(lv) || is_tree_value(rv) {
            lemma_diff_rising(lc, rc, st, path);
            let below = lc.diff(rc, st, path);
            let all = leaf + below;
            assert forall|i: int, j: int| 0 <= i < j < all.len() implies path_lt(
                #[trigger] diff_paths(all)[i],
                #[trigger] diff_paths(all)[j],
            ) by {
                if i < leaf.len() {
                    assert(all[j] == below[j - leaf.len()]);
                    crate::order::lemma_path_before_below(path, below[j - leaf.len()].0);
                } else {
                    assert(path_lt(
                        diff_paths(below)[i - leaf.len()],
                        diff_paths(below)[j - leaf.len()],
                    ));
                }
            }
            assert forall|k: int| 0 <= k < all.len() implies at_or_under(
                path,
                #[trigger] diff_paths(all)[k],
            ) by {
                if k >= leaf.len() {
                    assert(all[k] == below[k - leaf.len()]);
                }
            }
        } else {
            assert(left.diff_at(right, st, prefix, name) =~= leaf);
        }
    }
}

/// The differences at and below the names from a position on come in
/// rising order of their paths, all below the directory.
pub proof fn lemma_diff_from_rising(
    left: MergedTreeView,
    right: MergedTreeView,
    st: StoreView,
    prefix: PathView,
    names: Seq<Seq<u8>>,
    i: int,
)
    requires
        st.wf(),
        left.valid(st),
        right.valid(st),
        rising(names),
        0 <= i <= names.len(),
    ensures
        rising_paths(diff_paths(left.diff_from(right, st, prefix, names, i))),
        i < names.len() ==> below_from(
            prefix,
            names[i],
            diff_paths(left.diff_from(right, st, prefix, names, i)),
        ),
        i >= names.len() ==> left.diff_from(right, st, prefix, names, i).len() == 0,
    decreases left.rank() + right.rank(), 1nat, names.len() - i,
{
    if i < names.len() {
        let here = left.diff_at(right, st, prefix, names[i]);
        let rest = left.diff_from(right, st, prefix, names, i + 1);
        lemma_diff_at_rising(left, right, st, prefix, names[i]);
        lemma_diff_from_rising(left, right, st, prefix, names, i + 1);
        assert(diff_paths(here + rest) =~= diff_paths(here) + diff_paths(rest));
        if i + 1 < names.len() {
            assert(name_lt(names[i], names[i + 1]));
            lemma_rising_join(prefix, names[i], names[i + 1], diff_paths(here), diff_paths(rest));
        } else {
            assert(diff_paths(here) + diff_paths(rest) =~= diff_paths(here));
            lemma_single_below(prefix, names[i], diff_paths(here));
        }
    }
}

/// Path order of a diff: the differences come in strictly rising order of
/// their paths, so that no path is reported twice, and all lie below the
/// directory that the diff started from.
pub proof fn lemma_diff_rising(
    left: MergedTreeView,
    right: MergedTreeView,
    st: StoreView,
    prefix: PathView,
)
    requires
        st.wf(),
        left.valid(st),
        right.valid(st),
    ensures
        rising_paths(diff_paths(left.diff(right, st, prefix))),
        forall|k: int|
            0 <= k < left.diff(right, st, prefix).len() ==> at_or_under(
                prefix,
                #[trigger] left.diff(right, st, prefix)[k].0,
            ) && prefix.len() < left.diff(right, st, prefix)[k].0.len(),
    decreases left.rank() + right.rank(), 2nat, 0nat,
{
    lemma_names_rising(st, left);
    lemma_names_rising(st, right);
    crate::names::lemma_union(left.names(st), right.names(st), 0, 0);
    let names = union(left.names(st), right.names(st));
    lemma_diff_from_rising(left, right, st, prefix, names, 0);
    let d = left.diff(right, st, prefix);
    assert forall|k: int| 0 <= k < d.len() implies at_or_under(prefix, #[trigger] d[k].0)
        && prefix.len() < d[k].0.len() by {
        assert(diff_paths(d)[k] == d[k].0);
    }
}

/// Path order of the filtered diff: the differences that the filter lets
/// through come in strictly rising order of their paths.
pub proof fn lemma_diff_matching_rising(
    left: MergedTreeView,
    right: MergedTreeView,
    st: StoreView,
    matcher: MatcherView,
)
    requires
        st.wf(),
        left.valid(st),
        right.valid(st),
    ensures
        rising_paths(diff_paths(left.diff_matching(right, st, matcher))),
{
    lemma_diff_rising(left, right, st, Seq::empty());
    let all = left.diff(right, st, Seq::empty());
    let path_of = |d: DiffView| d.0;
    assert(paths_by(all, path_of) =~= diff_paths(all));
    lemma_filtered_rising(all, path_of, |d: DiffView| matcher.matches(d.0));
    assert(paths_by(left.diff_matching(right, st, matcher), path_of) =~= diff_paths(
        left.diff_matching(right, st, matcher),
    ));
}


/// The value that a walk finds at the path `p` below the tree, if it gets
/// there: it enters a directory only where every term is a directory or
/// "no entry".
pub open spec fn reached(tree: MergedTreeView, st: StoreView, p: PathView) -> Option<ValueTerms>
    decreases p.len(),
{
    if p.len() == 0 {
        None
    } else {
        let v = tree.value(st, p[0]);
        if p.len() == 1 {
            Some(v)
        } else if is_tree_value(v) {
            reached(tree.walk_child(v), st, p.skip(1))
        } else {
            None
        }
    }
}

/// The walk reports the path `p` with the value `v`: it gets there and
/// finds `v`, which is no directory and has an entry among its terms.
pub open spec fn listed(tree: MergedTreeView, st: StoreView, p: PathView, v: ValueTerms) -> bool {
    reached(tree, st, p) == Some(v) && !is_tree_value(v) && any_present(v)
}

/// What the walk reports at and below a name is what it is said to report.
pub proof fn lemma_entries_at_listed(
    st: StoreView,
    tree: MergedTreeView,
    prefix: PathView,
    name: Seq<u8>,
    k: int,
)
    requires
        st.wf(),
        tree.valid(st),
        0 <= k < tree.entries_at(st, prefix, name).len(),
    ensures
        crate::order::at_or_under(prefix.push(name), tree.entries_at(st, prefix, name)[k].0),
        listed(
            tree,
            st,
            tree.entries_at(st, prefix, name)[k].0.skip(prefix.len() as int),
            tree.entries_at(st, prefix, name)[k].1,
        ),
    decreases tree.rank(), 0nat, 0nat,
{
    let v = tree.value(st, name);
    let path = prefix.push(name);
    let e = tree.entries_at(st, prefix, name)[k];
    if is_tree_value(v) {
        crate::merged_tree::lemma_walk_child(st, tree, name);
        let child = tree.walk_child(v);
        lemma_entries_listed(st, child, path, k);
        let below = e.0.skip(path.len() as int);
        let p = e.0.skip(prefix.len() as int);
        assert(e.0.take(path.len() as int)[prefix.len() as int] == path[prefix.len() as int]);
        assert(p[0] == name);
        assert(p.skip(1) =~= below);
        assert(below.len() > 0);
    } else {
        assert(e.0 == path);
        assert(path.take(path.len() as int) =~= path);
        let p = path.skip(prefix.len() as int);
        assert(p =~= seq![name]);
    }
}

/// What the walk reports below the names from a position on is what it is
/// said to report.
pub proof fn lemma_entries_from_listed(
    st: StoreView,
    tree: MergedTreeView,
    prefix: PathView,
    names: Seq<Seq<u8>>,
    i: int,
    k: int,
)
    requires
        st.wf(),
        tree.valid(st),
        0 <= i,
        0 <= k < tree.entries_from(st, prefix, names, i).len(),
    ensures
        crate::order::at_or_under(prefix, tree.entries_from(st, prefix, names, i)[k].0),
        prefix.len() < tree.entries_from(st, prefix, names, i)[k].0.len(),
        listed(
            tree,
            st,
            tree.entries_from(st, prefix, names, i)[k].0.skip(prefix.len() as int),
            tree.entries_from(st, prefix, names, i)[k].1,
        ),
    decreases tree.rank(), 1nat, names.len() - i,
{
    let here = tree.entries_at(st, prefix, names[i]);
    if k < here.len() {
        lemma_entries_at_listed(st, tree, prefix, names[i], k);
        crate::order::lemma_under_longer(prefix, names[i], here[k].0);
    } else {
        lemma_entries_from_listed(st, tree, prefix, names, i + 1, k - here.len());
    }
}

/// Soundness of a walk: every entry that the walk reports lies below the
/// directory it started from, at a path that the walk gets to, with the
/// value found there, which is no directory and has an entry among its terms.
pub proof fn lemma_entries_listed(st: StoreView, tree: MergedTreeView, prefix: PathView, k: int)
    requires
        st.wf(),
        tree.valid(st),
        0 <= k < tree.entries(st, prefix).len(),
    ensures
        crate::order::at_or_under(prefix, tree.entries(st, prefix)[k].0),
        prefix.len() < tree.entries(st, prefix)[k].0.len(),
        listed(
            tree,
            st,
            tree.entries(st, prefix)[k].0.skip(prefix.len() as int),
            tree.entries(st, prefix)[k].1,
        ),
    decreases tree.rank(), 2nat, 0nat,
{
    lemma_entries_from_listed(st, tree, prefix, tree.names(st), 0, k);
}

/// A name under whose value some term is an entry is among the names of
/// the trees.
pub proof fn lemma_present_name(st: StoreView, tree: MergedTreeView, name: Seq<u8>)
    requires
        st.wf(),
        tree.valid(st),
        any_present(tree.value(st, name)),
    ensures
        tree.names(st).contains(name),
{
    match tree {
        MergedTreeView::Legacy(id) => {
            assert(crate::tree::tree_sorted(st.trees[id.0 as int]));
            crate::tree_merge_laws::lemma_tree_names(st.tree(id));
            if crate::tree::lookup(st.tree(id), name).is_none() {
                let v = tree.value(st, name);
                assert(v.adds =~= seq![None::<crate::backend::TreeValue>]);
                assert(v.removes.len() == 0);
            }
        },
        MergedTreeView::Merge(trees) => {
            crate::tree_merge_laws::lemma_names_of_trees(st, trees);
            let terms = crate::tree_merge::values_under(st, trees, name);
            let v = tree.value(st, name);
            if terms.resolve_trivial().is_some() {
                crate::algebra_laws::lemma_resolve_trivial_is_a_term(terms);
                let e = terms.resolve_trivial().unwrap();
                let x = choose|x: int| 0 <= x < terms.adds.len() && terms.adds[x] == e;
                assert(v.adds[0] == e);
                assert(v.removes.len() == 0);
                assert(e.is_some());
                assert(crate::tree::lookup(st.tree(trees.adds[x]), name).is_some());
            } else {
                if exists|i: int| 0 <= i < v.adds.len() && #[trigger] v.adds[i].is_some() {
                    let i = choose|i: int| 0 <= i < v.adds.len() && #[trigger] v.adds[i].is_some();
                    assert(crate::tree::lookup(st.tree(trees.adds[i]), name).is_some());
                } else {
                    let j = choose|j: int|
                        0 <= j < v.removes.len() && #[trigger] v.removes[j].is_some();
                    assert(crate::tree::lookup(st.tree(trees.removes[j]), name).is_some());
                }
            }
        },
    }
}

/// An entry of one of two joined lists is an entry of the joined list.
pub proof fn lemma_contains_join<T>(a: Seq<T>, b: Seq<T>, x: T)
    requires
        a.contains(x) || b.contains(x),
    ensures
        (a + b).contains(x),
{
    if a.contains(x) {
        let i = choose|i: int| 0 <= i < a.len() && a[i] == x;
        assert((a + b)[i] == x);
    } else {
        let i = choose|i: int| 0 <= i < b.len() && b[i] == x;
        assert((a + b)[a.len() + i] == x);
    }
}

/// What the walk reports at and below a name is among what it reports
/// below the names that hold the name.
pub proof fn lemma_entries_from_hold(
    st: StoreView,
    tree: MergedTreeView,
    prefix: PathView,
    names: Seq<Seq<u8>>,
    i: int,
    j: int,
    e: EntryView,
)
    requires
        0 <= i <= j < names.len(),
        tree.entries_at(st, prefix, names[j]).contains(e),
    ensures
        tree.entries_from(st, prefix, names, i).contains(e),
    decreases j - i,
{
    let here = tree.entries_at(st, prefix, names[i]);
    let rest = tree.entries_from(st, prefix, names, i + 1);
    if i < j {
        lemma_entries_from_hold(st, tree, prefix, names, i + 1, j, e);
    }
    lemma_contains_join(here, rest, e);
}

/// Completeness of a walk: every path that the walk gets to, with a value
/// that is no directory and has an entry among its terms, is reported with
/// that value.
pub proof fn lemma_listed_entries(
    st: StoreView,
    tree: MergedTreeView,
    prefix: PathView,
    p: PathView,
    v: ValueTerms,
)
    requires
        st.wf(),
        tree.valid(st),
        listed(tree, st, p, v),
    ensures
        tree.entries(st, prefix).contains((prefix + p, v)),
    decreases p.len(),
{
    let name = p[0];
    let first = tree.value(st, name);
    let path = prefix.push(name);
    // The first name is among the names of the trees.
    assert(any_present(first)) by {
        if p.len() > 1 {
            assert(is_tree_value(first));
            if exists|i: int|
                0 <= i < first.adds.len() && #[trigger] first.adds[i] matches Some(
                    crate::backend::TreeValue::Tree(_),
                ) {
                let i = choose|i: int|
                    0 <= i < first.adds.len() && #[trigger] first.adds[i] matches Some(
                        crate::backend::TreeValue::Tree(_),
                    );
                assert(first.adds[i].is_some());
            } else {
                let j = choose|j: int|
                    0 <= j < first.removes.len() && #[trigger] first.removes[j] matches Some(
                        crate::backend::TreeValue::Tree(_),
                    );
                assert(first.removes[j].is_some());
            }
        }
    }
    lemma_present_name(st, tree, name);
    let names = tree.names(st);
    let j = choose|j: int| 0 <= j < names.len() && names[j] == name;
    let here = tree.entries_at(st, prefix, name);
    let e = (prefix + p, v);
    if p.len() == 1 {
        assert(prefix + p =~= path);
        assert(here[0] == e);
    } else {
        crate::merged_tree::lemma_walk_child(st, tree, name);
        let child = tree.walk_child(first);
        lemma_listed_entries(st, child, path, p.skip(1), v);
        assert(path + p.skip(1) =~= prefix + p);
    }
    lemma_entries_from_hold(st, tree, prefix, names, 0, j, e);
}


/// In a tree of removed and added trees, the value that a walk finds at a
/// path is the value at that path.
pub proof fn lemma_reached_is_path_value(tree: MergedTreeView, st: StoreView, p: PathView)
    requires
        tree is Merge,
        reached(tree, st, p).is_some(),
    ensures
        reached(tree, st, p) == Some(tree.path_value(st, p)),
    decreases p.len(),
{
    if p.len() >= 2 {
        let first = tree.value(st, p[0]);
        lemma_reached_is_path_value(tree.walk_child(first), st, p.skip(1));
    }
}


/// A tree does not differ from itself.
pub proof fn lemma_diff_of_same(tree: MergedTreeView, st: StoreView, prefix: PathView)
    ensures
        tree.diff(tree, st, prefix) == Seq::<DiffView>::empty(),
{
    lemma_diff_from_of_same(tree, st, prefix, union(tree.names(st), tree.names(st)), 0);
}

/// A tree does not differ from itself under any names.
pub proof fn lemma_diff_from_of_same(
    tree: MergedTreeView,
    st: StoreView,
    prefix: PathView,
    names: Seq<Seq<u8>>,
    i: int,
)
    ensures
        tree.diff_from(tree, st, prefix, names, i) == Seq::<DiffView>::empty(),
    decreases names.len() - i,
{
    if 0 <= i < names.len() {
        lemma_diff_from_of_same(tree, st, prefix, names, i + 1);
        assert(tree.diff_at(tree, st, prefix, names[i]) == Seq::<DiffView>::empty());
    }
}

/// "No entry" differs from every value that has an entry among its terms.
pub proof fn lemma_present_is_not_absent(v: ValueTerms)
    requires
        any_present(v),
    ensures
        v != crate::merged_tree::absent(),
{
    let absent = crate::merged_tree::absent();
    if v.adds.len() == 1 && v.removes.len() == 0 {
        assert(v.adds[0].is_some());
        assert(absent.adds[0].is_none());
    } else {
        assert(absent.adds.len() == 1 && absent.removes.len() == 0);
    }
}

/// What a diff reports at and below a name are paths with two different values.
pub proof fn lemma_diff_at_differs(
    left: MergedTreeView,
    right: MergedTreeView,
    st: StoreView,
    prefix: PathView,
    name: Seq<u8>,
    k: int,
)
    requires
        0 <= k < left.diff_at(right, st, prefix, name).len(),
    ensures
        left.diff_at(right, st, prefix, name)[k].1 != left.diff_at(right, st, prefix, name)[k].2,
    decreases left.rank() + right.rank(), 0nat, 0nat,
{
    let lv = left.value(st, name);
    let rv = right.value(st, name);
    let path = prefix.push(name);
    let leaf = diff_leaf(path, lv, rv);
    if k < leaf.len() {
        if is_tree_value(rv) && !is_tree_value(lv) {
            lemma_present_is_not_absent(lv);
        } else if is_tree_value(lv) && !is_tree_value(rv) {
            lemma_present_is_not_absent(rv);
        }
    } else {
        lemma_diff_differs(left.diff_child(lv), right.diff_child(rv), st, path, k - leaf.len());
    }
}

/// What a diff reports below names are paths with two different values.
pub proof fn lemma_diff_from_differs(
    left: MergedTreeView,
    right: MergedTreeView,
    st: StoreView,
    prefix: PathView,
    names: Seq<Seq<u8>>,
    i: int,
    k: int,
)
    requires
        0 <= i,
        0 <= k < left.diff_from(right, st, prefix, names, i).len(),
    ensures
        left.diff_from(right, st, prefix, names, i)[k].1 != left.diff_from(
            right,
            st,
            prefix,
            names,
            i,
        )[k].2,
    decreases left.rank() + right.rank(), 1nat, names.len() - i,
{
    let here = left.diff_at(right, st, prefix, names[i]);
    if k < here.len() {
        lemma_diff_at_differs(left, right, st, prefix, names[i], k);
    } else {
        lemma_diff_from_differs(left, right, st, prefix, names, i + 1, k - here.len());
    }
}

/// Every entry of a diff is a path at which the value on the left and the
/// value on the right differ.
pub proof fn lemma_diff_differs(
    left: MergedTreeView,
    right: MergedTreeView,
    st: StoreView,
    prefix: PathView,
    k: int,
)
    requires
        0 <= k < left.diff(right, st, prefix).len(),
    ensures
        left.diff(right, st, prefix)[k].1 != left.diff(right, st, prefix)[k].2,
    decreases left.rank() + right.rank(), 2nat, 0nat,
{
    lemma_diff_from_differs(
        left,
        right,
        st,
        prefix,
        union(left.names(st), right.names(st)),
        0,
        k,
    );
}


/// The two values that a diff reports for a path at which the sides hold
/// `lv` and `rv`, if it reports the path: both where neither is a
/// directory; where one is, the other against "no entry", if it has an
/// entry among its terms.
pub open spec fn leaf_pair(lv: ValueTerms, rv: ValueTerms) -> Option<(ValueTerms, ValueTerms)> {
    let lt = is_tree_value(lv);
    let rt = is_tree_value(rv);
    if lt && rt {
        None
    } else if rt {
        if any_present(lv) {
            Some((lv, crate::merged_tree::absent()))
        } else {
            None
        }
    } else if lt {
        if any_present(rv) {
            Some((crate::merged_tree::absent(), rv))
        } else {
            None
        }
    } else {
        Some((lv, rv))
    }
}

/// The values that a diff finds on both sides at the path `p`, if it gets
/// there: it goes on below a name where the sides differ and one of them
/// holds a directory, the other side counting as empty where it holds none.
pub open spec fn diff_reached(
    left: MergedTreeView,
    right: MergedTreeView,
    st: StoreView,
    p: PathView,
) -> Option<(ValueTerms, ValueTerms)>
    decreases p.len(),
{
    if p.len() == 0 {
        None
    } else {
        let lv = left.value(st, p[0]);
        let rv = right.value(st, p[0]);
        if p.len() == 1 {
            Some((lv, rv))
        } else if lv != rv && (is_tree_value(lv) || is_tree_value(rv)) {
            diff_reached(left.diff_child(lv), right.diff_child(rv), st, p.skip(1))
        } else {
            None
        }
    }
}

/// The diff reports the path `p` with the values `l` and `r`: it gets
/// there, the sides differ there, and these are the values to report.
pub open spec fn diff_listed(
    left: MergedTreeView,
    right: MergedTreeView,
    st: StoreView,
    p: PathView,
    l: ValueTerms,
    r: ValueTerms,
) -> bool {
    diff_reached(left, right, st, p) matches Some(found) && found.0 != found.1 && leaf_pair(
        found.0,
        found.1,
    ) == Some((l, r))
}

/// What a diff reports for a path itself are the two values to report there.
pub proof fn lemma_leaf_pair(path: PathView, lv: ValueTerms, rv: ValueTerms)
    ensures
        diff_leaf(path, lv, rv) == match leaf_pair(lv, rv) {
            Some(pair) => seq![(path, pair.0, pair.1)],
            None => Seq::<DiffView>::empty(),
        },
{
}

/// What a diff reports at and below a name is what it is said to report.
pub proof fn lemma_diff_at_listed(
    left: MergedTreeView,
    right: MergedTreeView,
    st: StoreView,
    prefix: PathView,
    name: Seq<u8>,
    k: int,
)
    requires
        st.wf(),
        left.valid(st),
        right.valid(st),
        0 <= k < left.diff_at(right, st, prefix, name).len(),
    ensures
        crate::order::at_or_under(prefix.push(name), left.diff_at(right, st, prefix, name)[k].0),
        diff_listed(
            left,
            right,
            st,
            left.diff_at(right, st, prefix, name)[k].0.skip(prefix.len() as int),
            left.diff_at(right, st, prefix, name)[k].1,
            left.diff_at(right, st, prefix, name)[k].2,
        ),
    decreases left.rank() + right.rank(), 0nat, 0nat,
{
    let lv = left.value(st, name);
    let rv = right.value(st, name);
    let path = prefix.push(name);
    let leaf = diff_leaf(path, lv, rv);
    let lc = left.diff_child(lv);
    let rc = right.diff_child(rv);
    let all = left.diff_at(right, st, prefix, name);
    let e = all[k];
    assert(lv != rv);
    lemma_leaf_pair(path, lv, rv);
    if k < leaf.len() {
        assert(e == leaf[k]);
        assert(e.0 == path);
        assert(path.take(path.len() as int) =~= path);
        let p = path.skip(prefix.len() as int);
        assert(p =~= seq![name]);
        assert(p[0] == name);
        assert(diff_reached(left, right, st, p) == Some((lv, rv)));
        assert(leaf_pair(lv, rv) == Some((e.1, e.2)));
    } else {
        assert(is_tree_value(lv) || is_tree_value(rv));
        let below_all = lc.diff(rc, st, path);
        assert(all == leaf + below_all);
        assert(e == below_all[k - leaf.len()]);
        crate::merged_tree::lemma_diff_children(st, left, right, name);
        lemma_diff_listed(lc, rc, st, path, k - leaf.len());
        lemma_below_name(prefix, name, e.0);
        let p = e.0.skip(prefix.len() as int);
        let rest = e.0.skip(path.len() as int);
        assert(diff_reached(left, right, st, p) == diff_reached(lc, rc, st, rest));
    }
}

/// A path below a name of a directory, taken from the directory on, starts
/// with the name and goes on with what it is below the name.
pub proof fn lemma_below_name(prefix: PathView, name: Seq<u8>, path: PathView)
    requires
        crate::order::at_or_under(prefix.push(name), path),
        prefix.len() + 1 < path.len(),
    ensures
        path.skip(prefix.len() as int).len() >= 2,
        path.skip(prefix.len() as int)[0] == name,
        path.skip(prefix.len() as int).skip(1) == path.skip(prefix.len() as int + 1),
{
    let base = prefix.push(name);
    assert(path.take(base.len() as int)[prefix.len() as int] == base[prefix.len() as int]);
    assert(path.skip(prefix.len() as int).skip(1) =~= path.skip(prefix.len() as int + 1));
}

/// What a diff reports below names is what it is said to report.
pub proof fn lemma_diff_from_listed(
    left: MergedTreeView,
    right: MergedTreeView,
    st: StoreView,
    prefix: PathView,
    names: Seq<Seq<u8>>,
    i: int,
    k: int,
)
    requires
        st.wf(),
        left.valid(st),
        right.valid(st),
        0 <= i,
        0 <= k < left.diff_from(right, st, prefix, names, i).len(),
    ensures
        crate::order::at_or_under(prefix, left.diff_from(right, st, prefix, names, i)[k].0),
        prefix.len() < left.diff_from(right, st, prefix, names, i)[k].0.len(),
        diff_listed(
            left,
            right,
            st,
            left.diff_from(right, st, prefix, names, i)[k].0.skip(prefix.len() as int),
            left.diff_from(right, st, prefix, names, i)[k].1,
            left.diff_from(right, st, prefix, names, i)[k].2,
        ),
    decreases left.rank() + right.rank(), 1nat, names.len() - i,
{
    let here = left.diff_at(right, st, prefix, names[i]);
    if k < here.len() {
        lemma_diff_at_listed(left, right, st, prefix, names[i], k);
        crate::order::lemma_under_longer(prefix, names[i], here[k].0);
    } else {
        lemma_diff_from_listed(left, right, st, prefix, names, i + 1, k - here.len());
    }
}

/// Soundness of a diff: every entry lies at a path that the diff gets to
/// and at which the sides differ, with the values to report there.
pub proof fn lemma_diff_listed(
    left: MergedTreeView,
    right: MergedTreeView,
    st: StoreView,
    prefix: PathView,
    k: int,
)
    requires
        st.wf(),
        left.valid(st),
        right.valid(st),
        0 <= k < left.diff(right, st, prefix).len(),
    ensures
        crate::order::at_or_under(prefix, left.diff(right, st, prefix)[k].0),
        prefix.len() < left.diff(right, st, prefix)[k].0.len(),
        diff_listed(
            left,
            right,
            st,
            left.diff(right, st, prefix)[k].0.skip(prefix.len() as int),
            left.diff(right, st, prefix)[k].1,
            left.diff(right, st, prefix)[k].2,
        ),
    decreases left.rank() + right.rank(), 2nat, 0nat,
{
    lemma_diff_from_listed(
        left,
        right,
        st,
        prefix,
        union(left.names(st), right.names(st)),
        0,
        k,
    );
}

/// Under a name that is not among the names of its trees, a tree holds "no entry".
pub proof fn lemma_absent_name(st: StoreView, tree: MergedTreeView, name: Seq<u8>)
    requires
        st.wf(),
        tree.valid(st),
        !tree.names(st).contains(name),
    ensures
        tree.value(st, name) == crate::merged_tree::absent(),
{
    match tree {
        MergedTreeView::Legacy(id) => {
            assert(crate::tree::tree_sorted(st.trees[id.0 as int]));
            crate::tree_merge_laws::lemma_tree_names(st.tree(id));
        },
        MergedTreeView::Merge(trees) => {
            crate::tree_merge_laws::lemma_names_of_trees(st, trees);
            let terms = crate::tree_merge::values_under(st, trees, name);
            assert forall|i: int| 0 <= i < terms.adds.len() implies terms.adds[i]
                == None::<crate::backend::TreeValue> by {
                if crate::tree::lookup(st.tree(trees.adds[i]), name).is_some() {
                    assert(tree.names(st).contains(name));
                }
            }
            assert forall|j: int| 0 <= j < terms.removes.len() implies terms.removes[j]
                == None::<crate::backend::TreeValue> by {
                if crate::tree::lookup(st.tree(trees.removes[j]), name).is_some() {
                    assert(tree.names(st).contains(name));
                }
            }
            crate::algebra_laws::lemma_constant_resolves(terms, None::<crate::backend::TreeValue>);
        },
    }
}

/// What a diff reports at and below a name is among what it reports below
/// the names that hold the name.
pub proof fn lemma_diff_from_holds(
    left: MergedTreeView,
    right: MergedTreeView,
    st: StoreView,
    prefix: PathView,
    names: Seq<Seq<u8>>,
    i: int,
    j: int,
    e: DiffView,
)
    requires
        0 <= i <= j < names.len(),
        left.diff_at(right, st, prefix, names[j]).contains(e),
    ensures
        left.diff_from(right, st, prefix, names, i).contains(e),
    decreases j - i,
{
    let here = left.diff_at(right, st, prefix, names[i]);
    let rest = left.diff_from(right, st, prefix, names, i + 1);
    if i < j {
        lemma_diff_from_holds(left, right, st, prefix, names, i + 1, j, e);
    }
    lemma_contains_join(here, rest, e);
}

/// Completeness of a diff: every path that the diff gets to and at which
/// the sides differ is reported with the values to report there.
pub proof fn lemma_listed_diff(
    left: MergedTreeView,
    right: MergedTreeView,
    st: StoreView,
    prefix: PathView,
    p: PathView,
    l: ValueTerms,
    r: ValueTerms,
)
    requires
        st.wf(),
        left.valid(st),
        right.valid(st),
        diff_listed(left, right, st, p, l, r),
    ensures
        left.diff(right, st, prefix).contains((prefix + p, l, r)),
    decreases p.len(),
{
    let name = p[0];
    let lv = left.value(st, name);
    let rv = right.value(st, name);
    let path = prefix.push(name);
    assert(lv != rv);
    // The name is among the names of one side.
    let a = left.names(st);
    let b = right.names(st);
    lemma_names_rising(st, left);
    lemma_names_rising(st, right);
    crate::names::lemma_union(a, b, 0, 0);
    let names = union(a, b);
    assert(names.contains(name)) by {
        if !a.contains(name) && !b.contains(name) {
            lemma_absent_name(st, left, name);
            lemma_absent_name(st, right, name);
        } else if a.contains(name) {
            let x = choose|x: int| 0 <= x < a.len() && a[x] == name;
            assert(names.contains(a[x]));
        } else {
            let y = choose|y: int| 0 <= y < b.len() && b[y] == name;
            assert(names.contains(b[y]));
        }
    }
    let j = choose|j: int| 0 <= j < names.len() && names[j] == name;
    let here = left.diff_at(right, st, prefix, name);
    let leaf = diff_leaf(path, lv, rv);
    let e = (prefix + p, l, r);
    if p.len() == 1 {
        assert(prefix + p =~= path);
        assert(leaf[0] == e);
        assert(here[0] == e);
    } else {
        crate::merged_tree::lemma_diff_children(st, left, right, name);
        let lc = left.diff_child(lv);
        let rc = right.diff_child(rv);
        lemma_listed_diff(lc, rc, st, path, p.skip(1), l, r);
        assert(path + p.skip(1) =~= prefix + p);
        lemma_contains_join(leaf, lc.diff(rc, st, path), e);
    }
    lemma_diff_from_holds(left, right, st, prefix, names, 0, j, e);
}

} // verus!
