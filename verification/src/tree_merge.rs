//! Merging the trees of a conflict name by name, as far as they resolve.
use vstd::prelude::*;
use crate::backend::{
    lemma_values_compare_by_content, BackendError, FileId, TreeId, TreeValue,
};
use crate::legacy::{from_legacy, from_legacy_in};
use crate::merge::{Merge, MergeView};
use crate::merged_tree::{
    is_tree, is_tree_value, lookup_all, terms_below, to_tree_terms, tree_terms, MergedTree,
    MergedTreeView,
};
use crate::repo_path::{names_of, RepoPathComponent};
use crate::store::bytes_of;
use crate::tree::Tree;
use crate::store::{Store, StoreView, ValueTerms};
use crate::tree::{lookup, with_entry, TreeView};

verus! {

/// The names under which a merge stays conflicted, each with its terms.
pub type NamedConflicts = Seq<(Seq<u8>, ValueTerms)>;

/// The entry that stands for a merged subtree: none for the empty tree.
pub open spec fn tree_entry_of(id: TreeId) -> Option<TreeValue> {
    if id.0 == 0 {
        None
    } else {
        Some(TreeValue::Tree(id))
    }
}

/// The term is a file.
pub open spec fn is_file(term: Option<TreeValue>) -> bool {
    term matches Some(TreeValue::File { .. })
}

/// Every term is a file.
pub open spec fn all_files(values: ValueTerms) -> bool {
    &&& forall|i: int| 0 <= i < values.adds.len() ==> is_file(#[trigger] values.adds[i])
    &&& forall|j: int| 0 <= j < values.removes.len() ==> is_file(#[trigger] values.removes[j])
}

/// The content identifier of a term that is a file.
pub open spec fn file_id_of(term: Option<TreeValue>) -> FileId {
    match term {
        Some(TreeValue::File { id, executable }) => id,
        _ => FileId(0),
    }
}

/// The executable flag of a term that is a file.
pub open spec fn executable_of(term: Option<TreeValue>) -> bool {
    match term {
        Some(TreeValue::File { id, executable }) => executable,
        _ => false,
    }
}

/// The file that a conflict between files resolves to, with the store after
/// writing it: both the flags and the contents have to resolve, the contents
/// trivially or by merging them line by line.
pub open spec fn resolve_file_conflict(st: StoreView, values: ValueTerms) -> Option<
    (StoreView, TreeValue),
> {
    if !all_files(values) {
        None
    } else {
        let ids = values.map(|term: Option<TreeValue>| file_id_of(term));
        let flags = values.map(|term: Option<TreeValue>| executable_of(term));
        match flags.resolve_trivial() {
            None => None,
            Some(executable) => match ids.resolve_trivial() {
                Some(id) => Some((st, TreeValue::File { id, executable })),
                None => match crate::files::merged_content(
                    ids.map(|id: FileId| st.files[id.0 as int]),
                ) {
                    Some(contents) => {
                        let (st1, id) = st.put_file(contents);
                        Some((st1, TreeValue::File { id, executable }))
                    },
                    None => None,
                },
            },
        }
    }
}

/// The term of a conflict on the removed or the added side at position `k`.
pub open spec fn side_term(terms: ValueTerms, added: bool, k: int) -> Option<TreeValue> {
    if added {
        terms.adds[k]
    } else {
        terms.removes[k]
    }
}

/// The tree of one side: the resolved entries, and under each of the first
/// `c` conflicted names that side's term.
pub open spec fn side_tree(
    tree: TreeView,
    conflicts: NamedConflicts,
    added: bool,
    k: int,
    c: int,
) -> TreeView
    decreases c,
{
    if c <= 0 {
        tree
    } else {
        with_entry(
            side_tree(tree, conflicts, added, k, c - 1),
            conflicts[c - 1].0,
            side_term(conflicts[c - 1].1, added, k),
        )
    }
}

/// The store and the identifiers after writing the trees of the sides from
/// position `k` up to `n`.
pub open spec fn write_sides(
    st: StoreView,
    tree: TreeView,
    conflicts: NamedConflicts,
    added: bool,
    n: int,
    k: int,
    ids: Seq<TreeId>,
) -> (StoreView, Seq<TreeId>)
    decreases n - k,
{
    if k < 0 || k >= n {
        (st, ids)
    } else {
        let (st1, id) = st.put_tree(side_tree(tree, conflicts, added, k, conflicts.len() as int));
        write_sides(st1, tree, conflicts, added, n, k + 1, ids.push(id))
    }
}

/// The rank of a list of trees taken as one conflicted tree.
pub open spec fn rank_of(trees: MergeView<TreeId>) -> nat {
    MergedTreeView::Merge(trees).rank()
}

/// The values under one name merged: the single value where they resolve
/// trivially; for directories the merge of the subtrees; for files the merged
/// file where flags and contents resolve; otherwise the values as they are.
/// With it comes the store after what had to be written.
pub open spec fn merge_value(st: StoreView, values: ValueTerms, bound: nat) -> (
    StoreView,
    ValueTerms,
)
    decreases bound, 0nat, 0nat,
{
    match values.resolve_trivial() {
        Some(value) => (st, MergeView::resolved(value)),
        None => if is_tree_value(values) {
            let sub = tree_terms(values);
            if rank_of(sub) < bound {
                let (st1, merged) = merge_trees(st, sub);
                (st1, merged.map(|id: TreeId| tree_entry_of(id)))
            } else {
                (st, values)
            }
        } else {
            match resolve_file_conflict(st, values) {
                Some((st1, file)) => (st1, MergeView::resolved(Some(file))),
                None => (st, values),
            }
        },
    }
}

/// The names from position `i` on merged one by one: resolved values are
/// put into `tree`, the others are appended to `conflicts`.
pub open spec fn merge_names(
    st: StoreView,
    trees: MergeView<TreeId>,
    names: Seq<Seq<u8>>,
    i: int,
    tree: TreeView,
    conflicts: NamedConflicts,
) -> (StoreView, TreeView, NamedConflicts)
    decreases rank_of(trees), 1nat, names.len() - i,
{
    if i < 0 || i >= names.len() {
        (st, tree, conflicts)
    } else {
        let values = trees.map(|id: TreeId| lookup(st.tree(id), names[i]));
        let (st1, merged) = merge_value(st, values, rank_of(trees));
        if merged.is_resolved() {
            merge_names(
                st1,
                trees,
                names,
                i + 1,
                with_entry(tree, names[i], merged.adds[0]),
                conflicts,
            )
        } else {
            merge_names(st1, trees, names, i + 1, tree, conflicts.push((names[i], merged)))
        }
    }
}

/// The trees of a conflict merged as far as they resolve, with the store
/// after what had to be written. The result is one tree where the trees
/// resolve trivially or every name resolves; otherwise it has one tree for
/// each tree given, which all hold the resolved entries and differ under the
/// names that stay conflicted.
pub open spec fn merge_trees(st: StoreView, trees: MergeView<TreeId>) -> (
    StoreView,
    MergeView<TreeId>,
)
    decreases rank_of(trees), 2nat, 0nat,
{
    match trees.resolve_trivial() {
        Some(id) => (st, MergeView::resolved(id)),
        None => {
            let names = MergedTreeView::Merge(trees).names(st);
            let (st1, tree, conflicts) = merge_names(
                st,
                trees,
                names,
                0,
                Seq::empty(),
                Seq::empty(),
            );
            if conflicts.len() == 0 {
                let (st2, id) = st1.put_tree(tree);
                (st2, MergeView::resolved(id))
            } else {
                let (st2, removes) = write_sides(
                    st1,
                    tree,
                    conflicts,
                    false,
                    trees.removes.len() as int,
                    0,
                    Seq::empty(),
                );
                let (st3, adds) = write_sides(
                    st2,
                    tree,
                    conflicts,
                    true,
                    trees.adds.len() as int,
                    0,
                    Seq::empty(),
                );
                (st3, MergeView { removes, adds })
            }
        },
    }
}


/// What a list of conflicted names holds.
pub open spec fn conflicts_view(
    list: Seq<(RepoPathComponent, Merge<Option<TreeValue>>)>,
) -> NamedConflicts {
    Seq::new(list.len(), |i: int| (list[i].0@, list[i].1@))
}

/// Terms that are in order for a store stay so when the store grows and the
/// bound on tree identifiers is raised.
pub proof fn lemma_terms_below_kept(
    old_store: StoreView,
    new_store: StoreView,
    v: ValueTerms,
    small: nat,
    large: nat,
)
    requires
        old_store.extended_by(new_store),
        terms_below(old_store, v, small),
        small <= large,
    ensures
        terms_below(new_store, v, large),
{
    crate::store::lemma_extended_ok(old_store, new_store);
    crate::store::lemma_bound_grows(new_store, small as int, large as int);
    assert forall|i: int| 0 <= i < v.adds.len() implies (#[trigger] v.adds[i] matches Some(
        value,
    ) ==> new_store.value_ok(value, large as int)) by {
        if let Some(value) = v.adds[i] {
            assert(old_store.value_ok(value, small as int));
            assert(new_store.value_ok(value, small as int));
        }
    }
    assert forall|j: int| 0 <= j < v.removes.len() implies (#[trigger] v.removes[j] matches Some(
        value,
    ) ==> new_store.value_ok(value, large as int)) by {
        if let Some(value) = v.removes[j] {
            assert(old_store.value_ok(value, small as int));
            assert(new_store.value_ok(value, small as int));
        }
    }
}

/// What the trees of a store hold under one name is in order for trees
/// below their rank.
pub proof fn lemma_lookups_below(st: StoreView, trees: MergeView<TreeId>, name: Seq<u8>)
    requires
        st.wf(),
        MergedTreeView::Merge(trees).valid(st),
    ensures
        terms_below(st, trees.map(|id: TreeId| lookup(st.tree(id), name)), rank_of(trees)),
{
    let terms = trees.map(|id: TreeId| lookup(st.tree(id), name));
    crate::merged_tree::lemma_looked_up_terms(st, trees, name);
    let bound = rank_of(trees);
    assert forall|i: int| 0 <= i < terms.adds.len() implies (#[trigger] terms.adds[i] matches Some(
        value,
    ) ==> st.value_ok(value, bound as int)) by {
        crate::merged_tree::lemma_max_id(trees.adds, i);
        crate::store::lemma_bound_grows(st, trees.adds[i].0 as int, bound as int);
    }
    assert forall|j: int| 0 <= j < terms.removes.len() implies (#[trigger] terms.removes[j] matches Some(
        value,
    ) ==> st.value_ok(value, bound as int)) by {
        crate::merged_tree::lemma_max_id(trees.removes, j);
        crate::store::lemma_bound_grows(st, trees.removes[j].0 as int, bound as int);
    }
}

/// The content identifiers and the executable flags of a list of terms, if
/// all of them are files.
fn file_parts(terms: &Vec<Option<TreeValue>>) -> (r: Option<(Vec<FileId>, Vec<bool>)>)
    ensures
        match r {
            Some((ids, flags)) => {
                &&& forall|i: int| 0 <= i < terms@.len() ==> is_file(#[trigger] terms@[i])
                &&& ids@ == terms@.map_values(|term: Option<TreeValue>| file_id_of(term))
                &&& flags@ == terms@.map_values(|term: Option<TreeValue>| executable_of(term))
            },
            None => !(forall|i: int| 0 <= i < terms@.len() ==> is_file(#[trigger] terms@[i])),
        },
{
    let mut ids: Vec<FileId> = Vec::new();
    let mut flags: Vec<bool> = Vec::new();
    let mut i: usize = 0;
    while i < terms.len()
        invariant
            i <= terms.len(),
            ids.len() == i,
            flags.len() == i,
            forall|k: int| 0 <= k < i ==> is_file(#[trigger] terms@[k]),
            forall|k: int| 0 <= k < i ==> ids@[k] == file_id_of(terms@[k]),
            forall|k: int| 0 <= k < i ==> flags@[k] == executable_of(terms@[k]),
        decreases terms.len() - i,
    {
        match terms[i] {
            Some(TreeValue::File { id, executable }) => {
                ids.push(id);
                flags.push(executable);
            },
            _ => {
                assert(!is_file(terms@[i as int]));
                return None;
            },
        }
        i += 1;
    }
    assert(ids@ =~= terms@.map_values(|term: Option<TreeValue>| file_id_of(term)));
    assert(flags@ =~= terms@.map_values(|term: Option<TreeValue>| executable_of(term)));
    Some((ids, flags))
}

/// Copies of the contents of a list of stored files.
fn read_all(store: &Store, ids: &Vec<FileId>) -> (r: Vec<Vec<u8>>)
    requires
        forall|i: int| 0 <= i < ids@.len() ==> (#[trigger] ids@[i]).0 < store@.files.len(),
    ensures
        bytes_of(r@) == ids@.map_values(|id: FileId| store@.files[id.0 as int]),
{
    let mut r: Vec<Vec<u8>> = Vec::new();
    let mut i: usize = 0;
    while i < ids.len()
        invariant
            i <= ids.len(),
            r.len() == i,
            forall|k: int| 0 <= k < ids@.len() ==> (#[trigger] ids@[k]).0 < store@.files.len(),
            forall|k: int| 0 <= k < i ==> r@[k]@ == store@.files[ids@[k].0 as int],
        decreases ids.len() - i,
    {
        let contents = match store.read_file(ids[i]) {
            Ok(contents) => crate::merge::copy_items(contents),
            Err(_) => Vec::new(),
        };
        r.push(contents);
        i += 1;
    }
    assert(bytes_of(r@) =~= ids@.map_values(|id: FileId| store@.files[id.0 as int]));
    r
}

/// The file that a conflict between files resolves to, if it does; the
/// merged contents are written to the store.
fn try_resolve_file_conflict(store: &mut Store, values: &Merge<Option<TreeValue>>) -> (r: Option<
    TreeValue,
>)
    requires
        old(store).wf(),
        terms_below(old(store)@, values@, old(store)@.trees.len()),
    ensures
        final(store).wf(),
        old(store)@.extended_by(final(store)@),
        final(store)@.trees == old(store)@.trees,
        match r {
            Some(file) => resolve_file_conflict(old(store)@, values@) == Some((final(store)@, file))
                && final(store)@.value_ok(file, final(store)@.trees.len() as int),
            None => resolve_file_conflict(old(store)@, values@).is_none() && final(store)@ == old(
                store,
            )@,
        },
{
    let ghost st0 = store@;
    let (add_ids, add_flags) = match file_parts(values.adds()) {
        Some(parts) => parts,
        None => {
            return None;
        },
    };
    let (rem_ids, rem_flags) = match file_parts(values.removes()) {
        Some(parts) => parts,
        None => {
            return None;
        },
    };
    proof {
        reveal(vstd::laws_eq::obeys_concrete_eq);
        assert(vstd::laws_eq::obeys_concrete_eq::<bool>());
        assert(vstd::laws_eq::obeys_concrete_eq::<FileId>());
    }
    let flags = Merge::new(rem_flags, add_flags);
    let ids = Merge::new(rem_ids, add_ids);
    assert(flags@ == values@.map(|term: Option<TreeValue>| executable_of(term)));
    assert(ids@ == values@.map(|term: Option<TreeValue>| file_id_of(term)));
    let executable = match flags.resolve_trivial() {
        Some(executable) => executable,
        None => {
            return None;
        },
    };
    proof {
        assert forall|i: int| 0 <= i < ids@.adds.len() implies (#[trigger] ids@.adds[i]).0
            < st0.files.len() by {
            assert(is_file(values@.adds[i]));
            assert(st0.value_ok(values@.adds[i].unwrap(), st0.trees.len() as int));
        }
        assert forall|j: int| 0 <= j < ids@.removes.len() implies (#[trigger] ids@.removes[j]).0
            < st0.files.len() by {
            assert(is_file(values@.removes[j]));
            assert(st0.value_ok(values@.removes[j].unwrap(), st0.trees.len() as int));
        }
    }
    match ids.resolve_trivial() {
        Some(id) => {
            proof {
                crate::algebra_laws::lemma_resolve_trivial_is_a_term(ids@);
            }
            Some(TreeValue::File { id, executable })
        },
        None => {
            let removed = read_all(store, ids.removes());
            let added = read_all(store, ids.adds());
            assert(ids@.map(|id: FileId| st0.files[id.0 as int]) == (MergeView {
                removes: bytes_of(removed@),
                adds: bytes_of(added@),
            }));
            match crate::files::merge_contents(&removed, &added) {
                Some(contents) => {
                    let id = store.write_file(&contents);
                    Some(TreeValue::File { id, executable })
                },
                None => None,
            }
        },
    }
}

/// The entries that stand for a list of merged subtrees.
fn tree_entries_of(ids: &Vec<TreeId>) -> (r: Vec<Option<TreeValue>>)
    ensures
        r@ == ids@.map_values(|id: TreeId| tree_entry_of(id)),
{
    let mut r: Vec<Option<TreeValue>> = Vec::new();
    let mut i: usize = 0;
    while i < ids.len()
        invariant
            i <= ids.len(),
            r.len() == i,
            forall|k: int| 0 <= k < i ==> r@[k] == tree_entry_of(ids@[k]),
        decreases ids.len() - i,
    {
        if ids[i].0 == 0 {
            r.push(None);
        } else {
            r.push(Some(TreeValue::Tree(ids[i])));
        }
        i += 1;
    }
    assert(r@ =~= ids@.map_values(|id: TreeId| tree_entry_of(id)));
    r
}

/// The values under one name merged, for the trees `parent`.
fn merge_value_in(
    store: &mut Store,
    values: Merge<Option<TreeValue>>,
    parent: &Merge<TreeId>,
) -> (r: Merge<Option<TreeValue>>)
    requires
        old(store).wf(),
        terms_below(old(store)@, values@, rank_of(parent@)),
        rank_of(parent@) < old(store)@.trees.len(),
    ensures
        final(store).wf(),
        old(store)@.extended_by(final(store)@),
        (final(store)@, r@) == merge_value(old(store)@, values@, rank_of(parent@)),
        terms_below(final(store)@, r@, final(store)@.trees.len()),
        r@.is_resolved() || r@.adds.len() == values@.adds.len(),
    decreases rank_of(parent@), 0nat,
{
    let ghost st0 = store@;
    let ghost bound = rank_of(parent@);
    proof {
        lemma_values_compare_by_content();
        lemma_terms_below_kept(st0, st0, values@, bound, st0.trees.len());
    }
    match values.resolve_trivial() {
        Some(value) => {
            proof {
                crate::algebra_laws::lemma_resolve_trivial_is_a_term(values@);
                let x = choose|x: int| 0 <= x < values@.adds.len() && values@.adds[x] == value;
                assert(values@.adds[x] == value);
            }
            Merge::resolved(value)
        },
        None => {
            if is_tree(&values) {
                let sub = to_tree_terms(&values);
                proof {
                    crate::merged_tree::lemma_child_of_terms(st0, values@, bound);
                }
                let merged = merge_trees_in(store, &sub);
                let r = Merge::new(
                    tree_entries_of(merged.removes()),
                    tree_entries_of(merged.adds()),
                );
                assert(r@ == merged@.map(|id: TreeId| tree_entry_of(id)));
                assert(terms_below(store@, r@, store@.trees.len())) by {
                    assert forall|i: int| 0 <= i < r@.adds.len() implies (#[trigger] r@.adds[i] matches Some(
                        value,
                    ) ==> store@.value_ok(value, store@.trees.len() as int)) by {
                        assert(r@.adds[i] == tree_entry_of(merged@.adds[i]));
                    }
                    assert forall|j: int| 0 <= j < r@.removes.len() implies (#[trigger] r@.removes[j] matches Some(
                        value,
                    ) ==> store@.value_ok(value, store@.trees.len() as int)) by {
                        assert(r@.removes[j] == tree_entry_of(merged@.removes[j]));
                    }
                }
                r
            } else {
                match try_resolve_file_conflict(store, &values) {
                    Some(file) => Merge::resolved(Some(file)),
                    None => values,
                }
            }
        },
    }
}

/// The tree of one side: the resolved entries and that side's terms under
/// the conflicted names.
fn build_side(
    store: &Store,
    tree: &Tree,
    conflicts: &Vec<(RepoPathComponent, Merge<Option<TreeValue>>)>,
    added: bool,
    k: usize,
) -> (r: Tree)
    requires
        store.wf(),
        tree.wf(),
        store@.entries_ok(tree@, store@.trees.len() as int),
        forall|c: int|
            0 <= c < conflicts@.len() ==> terms_below(
                store@,
                (#[trigger] conflicts@[c]).1@,
                store@.trees.len(),
            ) && if added {
                k < conflicts@[c].1@.adds.len()
            } else {
                k < conflicts@[c].1@.removes.len()
            },
    ensures
        r@ == side_tree(tree@, conflicts_view(conflicts@), added, k as int, conflicts@.len() as int),
        r.wf(),
        store@.entries_ok(r@, store@.trees.len() as int),
{
    let ghost cv = conflicts_view(conflicts@);
    let mut r = tree.clone();
    let mut c: usize = 0;
    while c < conflicts.len()
        invariant
            c <= conflicts.len(),
            store.wf(),
            r.wf(),
            cv == conflicts_view(conflicts@),
            store@.entries_ok(r@, store@.trees.len() as int),
            r@ == side_tree(tree@, cv, added, k as int, c as int),
            forall|c: int|
                0 <= c < conflicts@.len() ==> terms_below(
                    store@,
                    (#[trigger] conflicts@[c]).1@,
                    store@.trees.len(),
                ) && if added {
                    k < conflicts@[c].1@.adds.len()
                } else {
                    k < conflicts@[c].1@.removes.len()
                },
        decreases conflicts.len() - c,
    {
        assert(terms_below(store@, conflicts@[c as int].1@, store@.trees.len()));
        let term = if added {
            conflicts[c].1.adds()[k]
        } else {
            conflicts[c].1.removes()[k]
        };
        assert(term == side_term(cv[c as int].1, added, k as int));
        proof {
            crate::tree_builder::lemma_entries_fit(store@, store@, r@, conflicts@[c as int].0@, term);
        }
        r.set_or_remove(&conflicts[c].0, term);
        c += 1;
    }
    r
}

/// Writes the trees of the removed or of the added sides.
fn write_side_trees(
    store: &mut Store,
    tree: &Tree,
    conflicts: &Vec<(RepoPathComponent, Merge<Option<TreeValue>>)>,
    added: bool,
    n: usize,
) -> (r: Vec<TreeId>)
    requires
        old(store).wf(),
        tree.wf(),
        old(store)@.entries_ok(tree@, old(store)@.trees.len() as int),
        forall|c: int|
            0 <= c < conflicts@.len() ==> terms_below(
                old(store)@,
                (#[trigger] conflicts@[c]).1@,
                old(store)@.trees.len(),
            ) && if added {
                n == conflicts@[c].1@.adds.len()
            } else {
                n == conflicts@[c].1@.removes.len()
            },
    ensures
        final(store).wf(),
        old(store)@.extended_by(final(store)@),
        (final(store)@, r@) == write_sides(
            old(store)@,
            tree@,
            conflicts_view(conflicts@),
            added,
            n as int,
            0,
            Seq::empty(),
        ),
        r.len() == n,
        forall|i: int| 0 <= i < r.len() ==> (#[trigger] r@[i]).0 < final(store)@.trees.len(),
{
    let ghost st0 = store@;
    let ghost cv = conflicts_view(conflicts@);
    let mut r: Vec<TreeId> = Vec::new();
    let mut k: usize = 0;
    while k < n
        invariant
            k <= n,
            r.len() == k,
            store.wf(),
            tree.wf(),
            st0.extended_by(store@),
            cv == conflicts_view(conflicts@),
            store@.entries_ok(tree@, store@.trees.len() as int),
            forall|c: int|
                0 <= c < conflicts@.len() ==> terms_below(
                    store@,
                    (#[trigger] conflicts@[c]).1@,
                    store@.trees.len(),
                ) && if added {
                    n == conflicts@[c].1@.adds.len()
                } else {
                    n == conflicts@[c].1@.removes.len()
                },
            write_sides(store@, tree@, cv, added, n as int, k as int, r@) == write_sides(
                st0,
                tree@,
                cv,
                added,
                n as int,
                0,
                Seq::empty(),
            ),
            forall|i: int| 0 <= i < r.len() ==> (#[trigger] r@[i]).0 < store@.trees.len(),
        decreases n - k,
    {
        let ghost before = store@;
        let side = build_side(store, tree, conflicts, added, k);
        match store.write_tree(&side) {
            Ok(id) => {
                r.push(id);
            },
            Err(_) => {
                assert(false);
            },
        }
        proof {
            crate::store::lemma_extended_ok(before, store@);
            crate::store::lemma_bound_grows(
                store@,
                before.trees.len() as int,
                store@.trees.len() as int,
            );
            assert forall|c: int| 0 <= c < conflicts@.len() implies terms_below(
                store@,
                (#[trigger] conflicts@[c]).1@,
                store@.trees.len(),
            ) by {
                lemma_terms_below_kept(
                    before,
                    store@,
                    conflicts@[c].1@,
                    before.trees.len(),
                    store@.trees.len(),
                );
            }
        }
        k += 1;
    }
    r
}

/// The trees of a conflict merged as far as they resolve; what has to be
/// written is written to the store.
pub(crate) fn merge_trees_in(store: &mut Store, trees: &Merge<TreeId>) -> (r: Merge<TreeId>)
    requires
        old(store).wf(),
        MergedTreeView::Merge(trees@).valid(old(store)@),
    ensures
        final(store).wf(),
        old(store)@.extended_by(final(store)@),
        (final(store)@, r@) == merge_trees(old(store)@, trees@),
        MergedTreeView::Merge(r@).valid(final(store)@),
        r@.is_resolved() || r@.adds.len() == trees@.adds.len(),
    decreases rank_of(trees@), 1nat,
{
    let ghost st0 = store@;
    proof {
        lemma_values_compare_by_content();
    }
    match trees.resolve_trivial() {
        Some(id) => {
            proof {
                crate::algebra_laws::lemma_resolve_trivial_is_a_term(trees@);
                let x = choose|x: int| 0 <= x < trees@.adds.len() && trees@.adds[x] == id;
                assert(trees@.adds[x] == id);
            }
            return Merge::resolved(id);
        },
        None => {},
    }
    let names = MergedTree::Merge(trees.clone()).names_in(store);
    let ghost all = names_of(names@);
    let mut tree = Tree::new();
    let mut conflicts: Vec<(RepoPathComponent, Merge<Option<TreeValue>>)> = Vec::new();
    let mut i: usize = 0;
    assert(conflicts_view(conflicts@) =~= NamedConflicts::empty());
    proof {
        crate::merged_tree::lemma_rank_in_store(st0, MergedTreeView::Merge(trees@));
    }
    while i < names.len()
        invariant
            i <= names.len(),
            all == names_of(names@),
            store.wf(),
            st0.extended_by(store@),
            MergedTreeView::Merge(trees@).valid(store@),
            rank_of(trees@) < store@.trees.len(),
            tree.wf(),
            store@.entries_ok(tree@, store@.trees.len() as int),
            forall|c: int|
                0 <= c < conflicts@.len() ==> terms_below(
                    store@,
                    (#[trigger] conflicts@[c]).1@,
                    store@.trees.len(),
                ) && conflicts@[c].1@.adds.len() == trees@.adds.len(),
            merge_names(store@, trees@, all, i as int, tree@, conflicts_view(conflicts@))
                == merge_names(st0, trees@, all, 0, Seq::empty(), Seq::empty()),
        decreases names.len() - i,
    {
        let ghost before = store@;
        let ghost cv = conflicts_view(conflicts@);
        let values = Merge::new(
            lookup_all(store, trees.removes(), &names[i]),
            lookup_all(store, trees.adds(), &names[i]),
        );
        assert(values@ == trees@.map(|id: TreeId| lookup(before.tree(id), all[i as int])));
        proof {
            lemma_lookups_below(before, trees@, all[i as int]);
        }
        let merged = merge_value_in(store, values, trees);
        proof {
            crate::store::lemma_extended_ok(before, store@);
            crate::store::lemma_bound_grows(
                store@,
                before.trees.len() as int,
                store@.trees.len() as int,
            );
            assert forall|c: int| 0 <= c < conflicts@.len() implies terms_below(
                store@,
                (#[trigger] conflicts@[c]).1@,
                store@.trees.len(),
            ) by {
                lemma_terms_below_kept(
                    before,
                    store@,
                    conflicts@[c].1@,
                    before.trees.len(),
                    store@.trees.len(),
                );
            }
        }
        if merged.is_resolved() {
            let value = merged.adds()[0];
            proof {
                crate::tree_builder::lemma_entries_fit(before, store@, tree@, all[i as int], value);
            }
            tree.set_or_remove(&names[i], value);
        } else {
            proof {
                crate::tree_builder::lemma_entries_fit(before, store@, tree@, all[i as int], None);
                crate::tree::lemma_with_entry_sorted(tree@, all[i as int], None);
            }
            conflicts.push((names[i].clone(), merged));
            assert(conflicts_view(conflicts@) =~= cv.push((all[i as int], merged@)));
            assert(store@.entries_ok(tree@, store@.trees.len() as int)) by {
                assert forall|k: int| 0 <= k < tree@.len() implies store@.value_ok(
                    #[trigger] tree@[k].1,
                    store@.trees.len() as int,
                ) by {
                    assert(before.value_ok(tree@[k].1, before.trees.len() as int));
                }
            }
        }
        i += 1;
    }
    let ghost st1 = store@;
    if conflicts.len() == 0 {
        match store.write_tree(&tree) {
            Ok(id) => Merge::resolved(id),
            Err(_) => {
                assert(false);
                Merge::resolved(TreeId(0))
            },
        }
    } else {
        let removes = write_side_trees(store, &tree, &conflicts, false, trees.removes().len());
        proof {
            crate::store::lemma_extended_ok(st1, store@);
            crate::store::lemma_bound_grows(
                store@,
                st1.trees.len() as int,
                store@.trees.len() as int,
            );
            assert forall|c: int| 0 <= c < conflicts@.len() implies terms_below(
                store@,
                (#[trigger] conflicts@[c]).1@,
                store@.trees.len(),
            ) by {
                lemma_terms_below_kept(
                    st1,
                    store@,
                    conflicts@[c].1@,
                    st1.trees.len(),
                    store@.trees.len(),
                );
            }
        }
        let adds = write_side_trees(store, &tree, &conflicts, true, trees.adds().len());
        Merge::new(removes, adds)
    }
}


/// The trees that a tree which may be conflicted stands for, with the store
/// after what had to be written: a plain tree is turned into removed and
/// added trees.
pub open spec fn to_trees(st: StoreView, tree: MergedTreeView) -> (StoreView, MergeView<TreeId>) {
    match tree {
        MergedTreeView::Legacy(id) => from_legacy(st, id),
        MergedTreeView::Merge(trees) => (st, trees),
    }
}

/// The tree resolved as far as it resolves.
pub open spec fn resolved_trees(st: StoreView, tree: MergedTreeView) -> (
    StoreView,
    MergeView<TreeId>,
) {
    let (st1, trees) = to_trees(st, tree);
    merge_trees(st1, trees)
}

/// The terms of a three-way merge of conflicted values: start from `side`,
/// take `base` away and put `other` in. Taking a conflict away removes what
/// it adds and adds what it removes.
pub open spec fn three_way<T>(side: MergeView<T>, base: MergeView<T>, other: MergeView<T>) -> MergeView<
    T,
> {
    MergeView {
        removes: side.removes + base.adds.skip(1) + seq![base.adds[0]] + other.removes,
        adds: side.adds + base.removes + other.adds,
    }
}

/// The three-way merge of trees that may be conflicted: the terms of all
/// three joined and simplified, merged as far as they resolve, and
/// simplified again.
pub open spec fn merged_trees(
    st: StoreView,
    side: MergedTreeView,
    base: MergedTreeView,
    other: MergedTreeView,
) -> (StoreView, MergeView<TreeId>) {
    let (st1, b) = to_trees(st, base);
    let (st2, s) = to_trees(st1, side);
    let (st3, o) = to_trees(st2, other);
    let (st4, merged) = merge_trees(st3, three_way(s, b, o).simplify());
    (st4, merged.simplify())
}

/// Trees of a store stay trees of the store when equal pairs are cancelled.
pub proof fn lemma_simplify_valid(st: StoreView, trees: MergeView<TreeId>)
    requires
        MergedTreeView::Merge(trees).valid(st),
    ensures
        MergedTreeView::Merge(trees.simplify()).valid(st),
{
    crate::algebra_laws::lemma_simplify_from_keeps_terms(trees, 0);
    crate::algebra_laws::lemma_simplify_from_wf(trees, 0);
    let s = trees.simplify();
    assert forall|i: int| 0 <= i < s.adds.len() implies (#[trigger] s.adds[i]).0 < st.trees.len() by {
        assert(trees.adds.contains(s.adds[i]));
    }
    assert forall|j: int| 0 <= j < s.removes.len() implies (#[trigger] s.removes[j]).0
        < st.trees.len() by {
        assert(trees.removes.contains(s.removes[j]));
    }
}

/// Appends the items of `src` from position `from` on to `dst`.
fn append_from(dst: &mut Vec<TreeId>, src: &Vec<TreeId>, from: usize)
    requires
        from <= src.len(),
    ensures
        final(dst)@ == old(dst)@ + src@.skip(from as int),
{
    let mut i: usize = from;
    assert(src@.skip(from as int).take(0) =~= Seq::<TreeId>::empty());
    assert(dst@ + Seq::<TreeId>::empty() =~= dst@);
    while i < src.len()
        invariant
            from <= i <= src.len(),
            dst@ == old(dst)@ + src@.skip(from as int).take(i - from),
        decreases src.len() - i,
    {
        dst.push(src[i]);
        assert(src@.skip(from as int).take(i + 1 - from) =~= src@.skip(from as int).take(
            i - from,
        ).push(src@[i as int]));
        i += 1;
    }
    assert(src@.skip(from as int).take(src.len() - from) =~= src@.skip(from as int));
}

/// The terms of a three-way merge of conflicted trees.
fn three_way_terms(side: &Merge<TreeId>, base: &Merge<TreeId>, other: &Merge<TreeId>) -> (r: Merge<
    TreeId,
>)
    requires
        side.wf(),
        base.wf(),
        other.wf(),
    ensures
        r@ == three_way(side@, base@, other@),
        r.wf(),
{
    let mut removes: Vec<TreeId> = Vec::new();
    let mut adds: Vec<TreeId> = Vec::new();
    append_from(&mut removes, side.removes(), 0);
    append_from(&mut removes, base.adds(), 1);
    removes.push(base.adds()[0]);
    append_from(&mut removes, other.removes(), 0);
    append_from(&mut adds, side.adds(), 0);
    append_from(&mut adds, base.removes(), 0);
    append_from(&mut adds, other.adds(), 0);
    proof {
        assert(side@.removes.skip(0) =~= side@.removes);
        assert(other@.removes.skip(0) =~= other@.removes);
        assert(side@.adds.skip(0) =~= side@.adds);
        assert(base@.removes.skip(0) =~= base@.removes);
        assert(other@.adds.skip(0) =~= other@.adds);
        assert(removes@ =~= three_way(side@, base@, other@).removes);
        assert(adds@ =~= three_way(side@, base@, other@).adds);
    }
    Merge::new(removes, adds)
}

impl MergedTree {
    /// The trees that this tree stands for, written to the store where it
    /// is a plain tree with conflict records.
    fn to_trees_in(&self, store: &mut Store) -> (r: Merge<TreeId>)
        requires
            old(store).wf(),
            self@.valid(old(store)@),
        ensures
            final(store).wf(),
            old(store)@.extended_by(final(store)@),
            (final(store)@, r@) == to_trees(old(store)@, self@),
            MergedTreeView::Merge(r@).valid(final(store)@),
    {
        match self {
            MergedTree::Legacy(id) => from_legacy_in(store, *id),
            MergedTree::Merge(trees) => trees.clone(),
        }
    }

    /// The removed and added trees that a plain tree with conflict records
    /// stands for, as a tree of its own. Fails, and leaves the store as it
    /// was, where the store lacks the tree.
    pub fn from_legacy_tree(store: &mut Store, id: TreeId) -> (r: Result<MergedTree, BackendError>)
        requires
            old(store).wf(),
        ensures
            final(store).wf(),
            old(store)@.extended_by(final(store)@),
            match r {
                Ok(tree) => {
                    &&& id.0 < old(store)@.trees.len()
                    &&& (final(store)@, tree@) == (
                        from_legacy(old(store)@, id).0,
                        MergedTreeView::Merge(from_legacy(old(store)@, id).1),
                    )
                    &&& tree@.valid(final(store)@)
                },
                Err(e) => {
                    &&& id.0 >= old(store)@.trees.len()
                    &&& e == BackendError::ObjectNotFound
                    &&& final(store)@ == old(store)@
                },
            },
    {
        if store.get_tree(id).is_err() {
            return Err(BackendError::ObjectNotFound);
        }
        Ok(MergedTree::Merge(from_legacy_in(store, id)))
    }

    /// Resolves the tree as far as it resolves: names whose values resolve
    /// trivially, directories that merge, and files whose flags and contents
    /// merge get one value; the other names keep their terms. The result is
    /// a single tree where every name resolves. Fails, and leaves the store
    /// as it was, where the store lacks one of the trees.
    pub fn resolve(&self, store: &mut Store) -> (r: Result<Merge<TreeId>, BackendError>)
        requires
            old(store).wf(),
            self.wf(),
        ensures
            final(store).wf(),
            old(store)@.extended_by(final(store)@),
            match r {
                Ok(trees) => {
                    &&& self@.valid(old(store)@)
                    &&& (final(store)@, trees@) == resolved_trees(old(store)@, self@)
                    &&& MergedTreeView::Merge(trees@).valid(final(store)@)
                },
                Err(e) => {
                    &&& !self@.valid(old(store)@)
                    &&& e == BackendError::ObjectNotFound
                    &&& final(store)@ == old(store)@
                },
            },
    {
        if !self.is_in(store) {
            return Err(BackendError::ObjectNotFound);
        }
        let trees = self.to_trees_in(store);
        Ok(merge_trees_in(store, &trees))
    }

    /// The three-way merge of this tree and `other` with `base` as their
    /// common origin, resolved as far as it resolves and simplified. Fails,
    /// and leaves the store as it was, where the store lacks one of the
    /// trees of the three.
    pub fn merge(&self, store: &mut Store, base: &MergedTree, other: &MergedTree) -> (r: Result<
        MergedTree,
        BackendError,
    >)
        requires
            old(store).wf(),
            self.wf(),
            base.wf(),
            other.wf(),
        ensures
            final(store).wf(),
            old(store)@.extended_by(final(store)@),
            match r {
                Ok(tree) => {
                    &&& self@.valid(old(store)@)
                    &&& base@.valid(old(store)@)
                    &&& other@.valid(old(store)@)
                    &&& (final(store)@, tree@) == (
                        merged_trees(old(store)@, self@, base@, other@).0,
                        MergedTreeView::Merge(merged_trees(old(store)@, self@, base@, other@).1),
                    )
                    &&& tree@.valid(final(store)@)
                },
                Err(e) => {
                    &&& !(self@.valid(old(store)@) && base@.valid(old(store)@) && other@.valid(
                        old(store)@,
                    ))
                    &&& e == BackendError::ObjectNotFound
                    &&& final(store)@ == old(store)@
                },
            },
    {
        if !self.is_in(store) || !base.is_in(store) || !other.is_in(store) {
            return Err(BackendError::ObjectNotFound);
        }
        let ghost st0 = store@;
        let b = base.to_trees_in(store);
        let ghost st1 = store@;
        proof {
            lemma_valid_kept(st0, st1, self@);
            lemma_valid_kept(st0, st1, other@);
        }
        let s = self.to_trees_in(store);
        let ghost st2 = store@;
        proof {
            lemma_valid_kept(st1, st2, other@);
        }
        let o = other.to_trees_in(store);
        let ghost st3 = store@;
        let terms = three_way_terms(&s, &b, &o);
        proof {
            lemma_values_compare_by_content();
            lemma_valid_kept(st1, st3, MergedTreeView::Merge(b@));
            lemma_valid_kept(st2, st3, MergedTreeView::Merge(s@));
            assert(MergedTreeView::Merge(terms@).valid(st3)) by {
                let t = terms@;
                assert forall|i: int| 0 <= i < t.adds.len() implies (#[trigger] t.adds[i]).0
                    < st3.trees.len() by {
                    if i < s@.adds.len() {
                        assert(t.adds[i] == s@.adds[i]);
                    } else if i < s@.adds.len() + b@.removes.len() {
                        assert(t.adds[i] == b@.removes[i - s@.adds.len()]);
                    } else {
                        assert(t.adds[i] == o@.adds[i - s@.adds.len() - b@.removes.len()]);
                    }
                }
                assert forall|j: int| 0 <= j < t.removes.len() implies (#[trigger] t.removes[j]).0
                    < st3.trees.len() by {
                    let n1 = s@.removes.len();
                    let n2 = n1 + b@.adds.len() - 1;
                    if j < n1 {
                        assert(t.removes[j] == s@.removes[j]);
                    } else if j < n2 {
                        assert(t.removes[j] == b@.adds[j - n1 + 1]);
                    } else if j == n2 {
                        assert(t.removes[j] == b@.adds[0]);
                    } else {
                        assert(t.removes[j] == o@.removes[j - n2 - 1]);
                    }
                }
            }
            lemma_simplify_valid(st3, terms@);
        }
        let simplified = terms.simplify();
        let merged = merge_trees_in(store, &simplified);
        proof {
            lemma_simplify_valid(store@, merged@);
        }
        Ok(MergedTree::Merge(merged.simplify()))
    }
}

/// A tree of a store is a tree of every store grown from it.
pub proof fn lemma_valid_kept(old_store: StoreView, new_store: StoreView, tree: MergedTreeView)
    requires
        old_store.extended_by(new_store),
        tree.valid(old_store),
    ensures
        tree.valid(new_store),
{
}


/// Resolving a single tree gives that tree and writes nothing.
pub proof fn lemma_resolve_single(st: StoreView, id: TreeId)
    ensures
        merge_trees(st, MergeView::resolved(id)) == (st, MergeView::resolved(id)),
        resolved_trees(st, MergedTreeView::Merge(MergeView::resolved(id))) == (
            st,
            MergeView::resolved(id),
        ),
{
    crate::algebra_laws::lemma_simplify_resolved(MergeView::resolved(id));
}

/// Trees that resolve trivially are resolved to that tree; nothing is written.
pub proof fn lemma_resolve_without_conflicts(st: StoreView, trees: MergeView<TreeId>)
    requires
        trees.resolve_trivial().is_some(),
    ensures
        merge_trees(st, trees) == (st, MergeView::resolved(trees.resolve_trivial().unwrap())),
{
}

/// Resolve idempotence for a result that is a single tree: resolving it
/// again gives the same tree and writes nothing more.
pub proof fn lemma_resolve_twice_single(st: StoreView, tree: MergedTreeView)
    requires
        resolved_trees(st, tree).1.is_resolved(),
        resolved_trees(st, tree).1.wf(),
    ensures
        resolved_trees(resolved_trees(st, tree).0, MergedTreeView::Merge(resolved_trees(st, tree).1))
            == resolved_trees(st, tree),
{
    let once = resolved_trees(st, tree);
    assert(once.1 =~= MergeView::resolved(once.1.adds[0])) by {
        assert(once.1.adds =~= seq![once.1.adds[0]]);
        assert(once.1.removes =~= Seq::empty());
    }
    lemma_resolve_single(once.0, once.1.adds[0]);
}

/// What the trees hold under one name.
pub open spec fn values_under(st: StoreView, trees: MergeView<TreeId>, name: Seq<u8>) -> ValueTerms {
    trees.map(|id: TreeId| lookup(st.tree(id), name))
}

/// Under every name the entries of the trees resolve trivially.
pub open spec fn only_trivial_conflicts(st: StoreView, trees: MergeView<TreeId>) -> bool {
    forall|name: Seq<u8>| (#[trigger] values_under(st, trees, name)).resolve_trivial().is_some()
}

/// Where every name resolves trivially, merging the names writes nothing
/// and leaves no name conflicted.
pub proof fn lemma_merge_names_trivial(
    st: StoreView,
    trees: MergeView<TreeId>,
    names: Seq<Seq<u8>>,
    i: int,
    tree: TreeView,
    conflicts: NamedConflicts,
)
    requires
        only_trivial_conflicts(st, trees),
    ensures
        merge_names(st, trees, names, i, tree, conflicts).0 == st,
        merge_names(st, trees, names, i, tree, conflicts).2 == conflicts,
    decreases names.len() - i,
{
    if 0 <= i < names.len() {
        let values = trees.map(|id: TreeId| lookup(st.tree(id), names[i]));
        assert(values == values_under(st, trees, names[i]));
        assert(values.resolve_trivial().is_some());
        let merged = merge_value(st, values, rank_of(trees));
        assert(merged == (st, MergeView::resolved(values.resolve_trivial().unwrap())));
        lemma_merge_names_trivial(
            st,
            trees,
            names,
            i + 1,
            with_entry(tree, names[i], merged.1.adds[0]),
            conflicts,
        );
    }
}

/// A tree whose only conflicts resolve trivially is resolved to a single tree.
pub proof fn lemma_trivial_conflicts_resolve(st: StoreView, trees: MergeView<TreeId>)
    requires
        only_trivial_conflicts(st, trees),
    ensures
        merge_trees(st, trees).1.is_resolved(),
        resolved_trees(st, MergedTreeView::Merge(trees)).1.is_resolved(),
{
    if trees.resolve_trivial().is_none() {
        let names = MergedTreeView::Merge(trees).names(st);
        lemma_merge_names_trivial(st, trees, names, 0, Seq::empty(), Seq::empty());
    }
}

} // verus!
