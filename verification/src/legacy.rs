//! Turning a plain tree with conflict records into removed and added trees.
use vstd::prelude::*;
use crate::backend::{TreeId, TreeValue};
use crate::merge::{Merge, MergeView};
use crate::merged_tree::{terms_below, MergedTreeView};
use crate::store::{Store, StoreView, ValueTerms};
use crate::tree::{with_entry, Tree, TreeView};
use crate::tree_merge::tree_entry_of;

verus! {

/// The larger of two numbers.
pub open spec fn larger(a: nat, b: nat) -> nat {
    if a >= b {
        a
    } else {
        b
    }
}

/// The largest number of added terms among the conflict records in and
/// below the entries of tree `t` from position `i` on.
pub open spec fn max_sides_from(st: StoreView, t: TreeId, i: int) -> nat
    decreases t.0, 1nat, st.tree(t).len() - i,
{
    if i < 0 || i >= st.tree(t).len() {
        0
    } else {
        larger(max_sides_of(st, t, st.tree(t)[i].1), max_sides_from(st, t, i + 1))
    }
}

/// The number of added terms of a conflict record, or the largest such
/// number in a subtree of tree `parent`; zero for other entries.
pub open spec fn max_sides_of(st: StoreView, parent: TreeId, value: TreeValue) -> nat
    decreases parent.0, 0nat, 0nat,
{
    match value {
        TreeValue::Conflict(c) => st.conflicts[c.0 as int].adds.len(),
        TreeValue::Tree(sub) => if sub.0 < parent.0 {
            max_sides(st, sub)
        } else {
            0
        },
        _ => 0,
    }
}

/// The largest number of added terms among the conflict records in and
/// below tree `t`; zero where it holds none.
pub open spec fn max_sides(st: StoreView, t: TreeId) -> nat
    decreases t.0, 2nat, 0nat,
{
    max_sides_from(st, t, 0)
}

/// The term of a record on the removed or the added side at position `k`,
/// "no entry" where the record has fewer terms.
pub open spec fn padded_term(terms: ValueTerms, added: bool, k: int) -> Option<TreeValue> {
    if added {
        if 0 <= k < terms.adds.len() {
            terms.adds[k]
        } else {
            None
        }
    } else {
        if 0 <= k < terms.removes.len() {
            terms.removes[k]
        } else {
            None
        }
    }
}

/// The entries of tree `t` from position `i` on, each as one side has it,
/// put into `acc`.
pub open spec fn side_from(
    st: StoreView,
    t: TreeId,
    added: bool,
    k: int,
    i: int,
    acc: TreeView,
) -> (StoreView, TreeView)
    decreases t.0, 1nat, st.tree(t).len() - i,
{
    if i < 0 || i >= st.tree(t).len() {
        (st, acc)
    } else {
        let entry = st.tree(t)[i];
        let (st1, value) = side_entry(st, t, entry.1, added, k);
        if st1.tree(t) == st.tree(t) {
            side_from(st1, t, added, k, i + 1, with_entry(acc, entry.0, value))
        } else {
            (st1, acc)
        }
    }
}

/// An entry of tree `parent` as one side has it: a conflict record gives
/// that side's term, a subtree is turned likewise, anything else stays.
pub open spec fn side_entry(
    st: StoreView,
    parent: TreeId,
    value: TreeValue,
    added: bool,
    k: int,
) -> (StoreView, Option<TreeValue>)
    decreases parent.0, 0nat, 0nat,
{
    match value {
        TreeValue::Conflict(c) => (st, padded_term(st.conflicts[c.0 as int], added, k)),
        TreeValue::Tree(sub) => if sub.0 < parent.0 {
            let (st1, id) = side(st, sub, added, k);
            (st1, tree_entry_of(id))
        } else {
            (st, Some(value))
        },
        other => (st, Some(other)),
    }
}

/// Tree `t` as one side has it: every conflict record in and below it
/// replaced by the record's term of that side.
pub open spec fn side(st: StoreView, t: TreeId, added: bool, k: int) -> (StoreView, TreeId)
    decreases t.0, 2nat, 0nat,
{
    let (st1, content) = side_from(st, t, added, k, 0, Seq::empty());
    st1.put_tree(content)
}

/// The trees of the sides from position `k` up to `n`.
pub open spec fn sides(st: StoreView, t: TreeId, added: bool, n: int, k: int, ids: Seq<TreeId>) -> (
    StoreView,
    Seq<TreeId>,
)
    decreases n - k,
{
    if k < 0 || k >= n {
        (st, ids)
    } else {
        let (st1, id) = side(st, t, added, k);
        sides(st1, t, added, n, k + 1, ids.push(id))
    }
}

/// The trees that a plain tree with conflict records stands for: the tree
/// itself where it holds no record; otherwise as many added trees as the
/// record with the most terms has added terms, and one removed tree less,
/// each holding under the path of every record that side's term. Records
/// with fewer terms count as "no entry" on the further sides.
pub open spec fn from_legacy(st: StoreView, t: TreeId) -> (StoreView, MergeView<TreeId>) {
    let n = max_sides(st, t);
    if n == 0 {
        (st, MergeView::resolved(t))
    } else {
        let (st1, removes) = sides(st, t, false, n - 1, 0, Seq::empty());
        let (st2, adds) = sides(st1, t, true, n as int, 0, Seq::empty());
        (st2, MergeView { removes, adds })
    }
}

/// The largest number of added terms among the conflict records in and below a stored tree.
fn count_sides(store: &Store, t: TreeId) -> (n: usize)
    requires
        store.wf(),
        t.0 < store@.trees.len(),
    ensures
        n == max_sides(store@, t),
    decreases t.0,
{
    let tree = match store.get_tree(t) {
        Ok(tree) => tree,
        Err(_) => {
            return 0;
        },
    };
    let mut n: usize = 0;
    let mut i: usize = tree.len();
    while i > 0
        invariant
            i <= tree@.len(),
            store.wf(),
            t.0 < store@.trees.len(),
            tree@ == store@.tree(t),
            n == max_sides_from(store@, t, i as int),
        decreases i,
    {
        i -= 1;
        assert(store@.entries_ok(store@.trees[t.0 as int], t.0 as int));
        assert(store@.value_ok(tree@[i as int].1, t.0 as int));
        let here = match tree.value_at(i) {
            TreeValue::Conflict(c) => match store.read_conflict(c) {
                Ok(terms) => terms.num_sides(),
                Err(_) => 0,
            },
            TreeValue::Tree(sub) => count_sides(store, sub),
            _ => 0,
        };
        assert(here == max_sides_of(store@, t, tree@[i as int].1));
        if here > n {
            n = here;
        }
    }
    n
}

/// Tree `t` as one side has it, written to the store.
fn write_side(store: &mut Store, t: TreeId, added: bool, k: usize) -> (r: TreeId)
    requires
        old(store).wf(),
        t.0 < old(store)@.trees.len(),
    ensures
        final(store).wf(),
        old(store)@.extended_by(final(store)@),
        (final(store)@, r) == side(old(store)@, t, added, k as int),
        r.0 < final(store)@.trees.len(),
    decreases t.0,
{
    let ghost st0 = store@;
    let source = match store.get_tree(t) {
        Ok(tree) => tree.clone(),
        Err(_) => Tree::new(),
    };
    let mut acc = Tree::new();
    let mut i: usize = 0;
    while i < source.len()
        invariant
            i <= source@.len(),
            store.wf(),
            st0.wf(),
            st0.extended_by(store@),
            t.0 < st0.trees.len(),
            source@ == st0.tree(t),
            acc.wf(),
            store@.entries_ok(acc@, store@.trees.len() as int),
            side_from(store@, t, added, k as int, i as int, acc@) == side_from(
                st0,
                t,
                added,
                k as int,
                0,
                Seq::empty(),
            ),
        decreases source@.len() - i,
    {
        let ghost before = store@;
        assert(before.tree(t) == st0.tree(t));
        let name = source.name_at(i);
        let entry = source.value_at(i);
        proof {
            assert(st0.entries_ok(st0.trees[t.0 as int], t.0 as int));
            assert(st0.value_ok(source@[i as int].1, t.0 as int));
            crate::store::lemma_extended_ok(st0, before);
            crate::store::lemma_bound_grows(before, t.0 as int, before.trees.len() as int);
        }
        let value = match entry {
            TreeValue::Conflict(c) => match store.read_conflict(c) {
                Ok(terms) => {
                    assert(before.terms_ok(terms@, before.trees.len() as int));
                    if added {
                        if k < terms.adds().len() {
                            assert(before.term_ok(terms@.adds[k as int], before.trees.len() as int));
                            terms.adds()[k]
                        } else {
                            None
                        }
                    } else {
                        if k < terms.removes().len() {
                            assert(before.term_ok(
                                terms@.removes[k as int],
                                before.trees.len() as int,
                            ));
                            terms.removes()[k]
                        } else {
                            None
                        }
                    }
                },
                Err(_) => None,
            },
            TreeValue::Tree(sub) => {
                let id = write_side(store, sub, added, k);
                if id.0 == 0 {
                    None
                } else {
                    Some(TreeValue::Tree(id))
                }
            },
            other => Some(other),
        };
        proof {
            assert((store@, value) == side_entry(before, t, entry, added, k as int));
            assert(store@.tree(t) == before.tree(t));
            crate::store::lemma_extended_ok(before, store@);
            crate::tree_builder::lemma_entries_fit(before, store@, acc@, name@, value);
        }
        acc.set_or_remove(name, value);
        i += 1;
    }
    match store.write_tree(&acc) {
        Ok(r) => r,
        Err(_) => {
            assert(false);
            t
        },
    }
}

/// The trees of the removed or of the added sides, written to the store.
fn write_sides(store: &mut Store, t: TreeId, added: bool, n: usize) -> (r: Vec<TreeId>)
    requires
        old(store).wf(),
        t.0 < old(store)@.trees.len(),
    ensures
        final(store).wf(),
        old(store)@.extended_by(final(store)@),
        (final(store)@, r@) == sides(old(store)@, t, added, n as int, 0, Seq::empty()),
        r.len() == n,
        forall|i: int| 0 <= i < r.len() ==> (#[trigger] r@[i]).0 < final(store)@.trees.len(),
{
    let ghost st0 = store@;
    let mut r: Vec<TreeId> = Vec::new();
    let mut k: usize = 0;
    while k < n
        invariant
            k <= n,
            r.len() == k,
            store.wf(),
            st0.extended_by(store@),
            t.0 < store@.trees.len(),
            sides(store@, t, added, n as int, k as int, r@) == sides(
                st0,
                t,
                added,
                n as int,
                0,
                Seq::empty(),
            ),
            forall|i: int| 0 <= i < r.len() ==> (#[trigger] r@[i]).0 < store@.trees.len(),
        decreases n - k,
    {
        let id = write_side(store, t, added, k);
        r.push(id);
        k += 1;
    }
    r
}

/// The trees that the plain tree `t` with its conflict records stands for,
/// written to the store.
pub(crate) fn from_legacy_in(store: &mut Store, t: TreeId) -> (r: Merge<TreeId>)
    requires
        old(store).wf(),
        t.0 < old(store)@.trees.len(),
    ensures
        final(store).wf(),
        old(store)@.extended_by(final(store)@),
        (final(store)@, r@) == from_legacy(old(store)@, t),
        MergedTreeView::Merge(r@).valid(final(store)@),
{
    let n = count_sides(store, t);
    if n == 0 {
        return Merge::resolved(t);
    }
    let removes = write_sides(store, t, false, n - 1);
    let adds = write_sides(store, t, true, n);
    Merge::new(removes, adds)
}

} // verus!
