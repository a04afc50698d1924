//! Collecting new values for paths and writing the trees that hold them.
use vstd::prelude::*;
use crate::assoc::{sorted, with_entry};
use crate::backend::{lemma_values_compare_by_content, BackendError, TreeId, TreeValue};
use crate::legacy::padded_term;
use crate::merge::{Merge, MergeView};
use crate::merged_tree::{
    empty_tree, terms_below, MergedTree, MergedTreeId, MergedTreeView, PathView,
};
use crate::order::{path_lt_fn, Order};
use crate::repo_path::RepoPath;
use crate::store::{Store, StoreView, ValueTerms};
use crate::tree_builder::{put_path, set_path, value_fits};

verus! {

/// New values for paths, ordered by path, each path at most once.
pub type OverridesView = Seq<(PathView, ValueTerms)>;

/// The mathematical content of a [`MergedTreeBuilder`].
pub struct BuilderView {
    pub base: MergedTreeView,
    pub overrides: OverridesView,
}

/// What a list of new values holds.
pub open spec fn overrides_view(list: Seq<(RepoPath, Merge<Option<TreeValue>>)>) -> OverridesView {
    Seq::new(list.len(), |i: int| (list[i].0@, list[i].1@))
}

/// The largest number of added terms among the new values from position
/// `i` on; zero where there is none.
pub open spec fn most_sides(ovs: OverridesView, i: int) -> nat
    decreases ovs.len() - i,
{
    if i < 0 || i >= ovs.len() {
        0
    } else {
        let rest = most_sides(ovs, i + 1);
        if ovs[i].1.adds.len() > rest {
            ovs[i].1.adds.len()
        } else {
            rest
        }
    }
}

/// What one side gets from a new value: the value itself where it is
/// resolved, else that side's term, "no entry" where it has fewer terms.
pub open spec fn side_value(v: ValueTerms, added: bool, k: int) -> Option<TreeValue> {
    if v.is_resolved() {
        v.adds[0]
    } else {
        padded_term(v, added, k)
    }
}

/// The tree of one side after the new values from position `i` on are put
/// into tree `t`, in the order of their paths.
pub open spec fn put_side(
    st: StoreView,
    t: TreeId,
    ovs: OverridesView,
    added: bool,
    k: int,
    i: int,
) -> (StoreView, TreeId)
    decreases ovs.len() - i,
{
    if i < 0 || i >= ovs.len() {
        (st, t)
    } else {
        let (st1, t1) = put_path(st, t, ovs[i].0, side_value(ovs[i].1, added, k));
        put_side(st1, t1, ovs, added, k, i + 1)
    }
}

/// The trees of the sides from position `k` on, each made from its base tree.
pub open spec fn put_sides(
    st: StoreView,
    bases: Seq<TreeId>,
    ovs: OverridesView,
    added: bool,
    k: int,
    ids: Seq<TreeId>,
) -> (StoreView, Seq<TreeId>)
    decreases bases.len() - k,
{
    if k < 0 || k >= bases.len() {
        (st, ids)
    } else {
        let (st1, id) = put_side(st, bases[k], ovs, added, k, 0);
        put_sides(st1, bases, ovs, added, k + 1, ids.push(id))
    }
}

/// The identity that trees are recorded under: the plain tree where there
/// is a single one, the removed and added trees otherwise.
pub open spec fn identity_of(trees: MergeView<TreeId>) -> MergedTreeView {
    if trees.is_resolved() {
        MergedTreeView::Legacy(trees.adds[0])
    } else {
        MergedTreeView::Merge(trees)
    }
}

/// The identity written for base trees and new values: the base gets as many
/// sides as the new value with the most terms has, further sides starting
/// out empty; each side gets its terms; equal removed and added trees cancel.
pub open spec fn write_merge(st: StoreView, base: MergeView<TreeId>, ovs: OverridesView) -> (
    StoreView,
    MergedTreeView,
) {
    let padded = base.pad_to(most_sides(ovs, 0), empty_tree());
    let (st1, removes) = put_sides(st, padded.removes, ovs, false, 0, Seq::empty());
    let (st2, adds) = put_sides(st1, padded.adds, ovs, true, 0, Seq::empty());
    (st2, identity_of((MergeView { removes, adds }).simplify()))
}

/// The plain tree after the new values from position `i` on are put into
/// tree `t`: a value that simplifies to a single one is set as it is, any
/// other is written as a conflict record that the entry names.
pub open spec fn put_legacy(st: StoreView, t: TreeId, ovs: OverridesView, i: int) -> (
    StoreView,
    TreeId,
)
    decreases ovs.len() - i,
{
    if i < 0 || i >= ovs.len() {
        (st, t)
    } else {
        let v = ovs[i].1.simplify();
        if v.is_resolved() {
            let (st1, t1) = put_path(st, t, ovs[i].0, v.adds[0]);
            put_legacy(st1, t1, ovs, i + 1)
        } else {
            let (st1, c) = st.put_conflict(v);
            let (st2, t2) = put_path(st1, t, ovs[i].0, Some(TreeValue::Conflict(c)));
            put_legacy(st2, t2, ovs, i + 1)
        }
    }
}

impl BuilderView {
    /// The store holds what the new values name, so that they can be written.
    pub open spec fn fits(self, st: StoreView) -> bool {
        forall|i: int|
            0 <= i < self.overrides.len() ==> if self.base is Legacy {
                let v = (#[trigger] self.overrides[i]).1.simplify();
                if v.is_resolved() {
                    value_fits(st, v.adds[0])
                } else {
                    st.terms_ok(v, st.trees.len() as int)
                }
            } else {
                terms_below(st, (#[trigger] self.overrides[i]).1, st.trees.len())
            }
    }

    /// The store after writing, and the identity written.
    pub open spec fn written(self, st: StoreView) -> (StoreView, MergedTreeView) {
        match self.base {
            MergedTreeView::Legacy(t) => {
                let (st1, id) = put_legacy(st, t, self.overrides, 0);
                (st1, MergedTreeView::Legacy(id))
            },
            MergedTreeView::Merge(trees) => write_merge(st, trees, self.overrides),
        }
    }

    /// The new values are ordered by path, none is for the root, and the
    /// arity invariants hold.
    pub open spec fn wf(self) -> bool {
        &&& self.base.wf()
        &&& sorted(self.overrides, path_lt_fn())
        &&& forall|i: int|
            0 <= i < self.overrides.len() ==> (#[trigger] self.overrides[i]).1.wf()
                && self.overrides[i].0.len() > 0
    }
}

/// Collects new values for paths of a base tree and writes the trees that
/// hold them. The last value given for a path counts.
#[derive(Debug)]
pub struct MergedTreeBuilder {
    base_tree_id: MergedTreeId,
    overrides: Vec<(RepoPath, Merge<Option<TreeValue>>)>,
}

impl View for MergedTreeBuilder {
    type V = BuilderView;

    closed spec fn view(&self) -> BuilderView {
        BuilderView { base: self.base_tree_id@, overrides: overrides_view(self.overrides@) }
    }
}

impl MergedTreeBuilder {
    /// The builder's invariant holds.
    pub open spec fn wf(&self) -> bool {
        self@.wf()
    }

    /// A builder for changes to the tree `base_tree_id`.
    pub fn new(base_tree_id: MergedTreeId) -> (r: MergedTreeBuilder)
        requires
            base_tree_id.wf(),
        ensures
            r@.base == base_tree_id@,
            r@.overrides == OverridesView::empty(),
            r.wf(),
    {
        let r = MergedTreeBuilder { base_tree_id, overrides: Vec::new() };
        assert(r@.overrides =~= OverridesView::empty());
        r
    }

    /// Sets the value that the tree written will hold at `path`; the value
    /// "no entry" deletes what is there.
    pub fn set_or_remove(&mut self, path: RepoPath, values: Merge<Option<TreeValue>>)
        requires
            old(self).wf(),
            values.wf(),
            path@.len() > 0,
        ensures
            final(self).wf(),
            final(self)@.base == old(self)@.base,
            final(self)@.overrides == with_entry(
                old(self)@.overrides,
                path@,
                Some(values@),
                path_lt_fn(),
            ),
    {
        let ghost ovs = self@.overrides;
        let mut p: usize = 0;
        let mut found = false;
        proof {
            crate::order::lemma_path_order();
        }
        while p < self.overrides.len() && !found
            invariant
                p <= self.overrides.len(),
                self@ == old(self)@,
                ovs == self@.overrides,
                found ==> p < ovs.len() && !crate::order::path_lt(ovs[p as int].0, path@),
                crate::assoc::lower_bound(ovs, path@, p as int, path_lt_fn())
                    == crate::assoc::lower_bound(ovs, path@, 0, path_lt_fn()),
            decreases self.overrides.len() - p + if found {
                0int
            } else {
                1int
            },
        {
            assert(ovs[p as int].0 == self.overrides@[p as int].0@);
            proof {
                crate::order::lemma_path_trichotomy(ovs[p as int].0, path@);
            }
            match self.overrides[p].0.compare(&path) {
                Order::Before => {
                    p += 1;
                },
                _ => {
                    found = true;
                },
            }
        }
        assert(p == crate::assoc::lower_bound(ovs, path@, 0, path_lt_fn()));
        let present = p < self.overrides.len() && self.overrides[p].0.same(&path);
        proof {
            crate::assoc::lemma_with_entry_sorted(ovs, path@, Some(values@), path_lt_fn());
        }
        if present {
            self.overrides.set(p, (path, values));
        } else {
            self.overrides.insert(p, (path, values));
        }
        assert(self@.overrides =~= with_entry(ovs, path@, Some(values@), path_lt_fn()));
    }
}


/// A value that fits a store fits every store grown from it.
pub proof fn lemma_value_fits_kept(
    old_store: StoreView,
    new_store: StoreView,
    value: Option<TreeValue>,
)
    requires
        old_store.extended_by(new_store),
        value_fits(old_store, value),
    ensures
        value_fits(new_store, value),
{
    crate::store::lemma_extended_ok(old_store, new_store);
    crate::store::lemma_bound_grows(
        new_store,
        old_store.trees.len() as int,
        new_store.trees.len() as int,
    );
    if let Some(v) = value {
        assert(new_store.value_ok(v, old_store.trees.len() as int));
    }
}

/// Whether every term of a value is "no entry" or names stored objects only.
fn terms_fit(store: &Store, values: &Merge<Option<TreeValue>>) -> (b: bool)
    requires
        store.wf(),
        values.wf(),
    ensures
        b == terms_below(store@, values@, store@.trees.len()),
{
    let a = list_fits(store, values.adds());
    let r = list_fits(store, values.removes());
    a && r
}

/// Whether every term of a list is "no entry" or names stored objects only.
fn list_fits(store: &Store, list: &Vec<Option<TreeValue>>) -> (b: bool)
    requires
        store.wf(),
    ensures
        b == (forall|i: int|
            0 <= i < list@.len() ==> (#[trigger] list@[i] matches Some(value) ==> store@.value_ok(
                value,
                store@.trees.len() as int,
            ))),
{
    let mut i: usize = 0;
    while i < list.len()
        invariant
            i <= list.len(),
            store.wf(),
            forall|k: int|
                0 <= k < i ==> (#[trigger] list@[k] matches Some(value) ==> store@.value_ok(
                    value,
                    store@.trees.len() as int,
                )),
        decreases list.len() - i,
    {
        match &list[i] {
            Some(value) => {
                if !store.holds_value(value) {
                    return false;
                }
            },
            None => {},
        }
        i += 1;
    }
    true
}

/// What one side gets from a new value.
fn side_value_of(values: &Merge<Option<TreeValue>>, added: bool, k: usize) -> (r: Option<TreeValue>)
    requires
        values.wf(),
    ensures
        r == side_value(values@, added, k as int),
{
    if values.is_resolved() {
        values.adds()[0]
    } else if added {
        if k < values.adds().len() {
            values.adds()[k]
        } else {
            None
        }
    } else {
        if k < values.removes().len() {
            values.removes()[k]
        } else {
            None
        }
    }
}

/// The new values fit the store as values for the sides of trees.
pub open spec fn sides_fit(st: StoreView, ovs: OverridesView) -> bool {
    forall|i: int|
        0 <= i < ovs.len() ==> terms_below(st, (#[trigger] ovs[i]).1, st.trees.len())
            && ovs[i].0.len() > 0
}

/// New values that fit a store fit every store grown from it.
pub proof fn lemma_sides_fit_kept(old_store: StoreView, new_store: StoreView, ovs: OverridesView)
    requires
        old_store.extended_by(new_store),
        sides_fit(old_store, ovs),
    ensures
        sides_fit(new_store, ovs),
{
    assert forall|i: int| 0 <= i < ovs.len() implies terms_below(
        new_store,
        (#[trigger] ovs[i]).1,
        new_store.trees.len(),
    ) by {
        crate::tree_merge::lemma_terms_below_kept(
            old_store,
            new_store,
            ovs[i].1,
            old_store.trees.len(),
            new_store.trees.len(),
        );
    }
}

/// Puts the terms of one side into tree `t`.
fn put_side_in(
    store: &mut Store,
    t: TreeId,
    overrides: &Vec<(RepoPath, Merge<Option<TreeValue>>)>,
    added: bool,
    k: usize,
) -> (r: TreeId)
    requires
        old(store).wf(),
        t.0 < old(store)@.trees.len(),
        sides_fit(old(store)@, overrides_view(overrides@)),
    ensures
        final(store).wf(),
        old(store)@.extended_by(final(store)@),
        r.0 < final(store)@.trees.len(),
        (final(store)@, r) == put_side(
            old(store)@,
            t,
            overrides_view(overrides@),
            added,
            k as int,
            0,
        ),
{
    let ghost st0 = store@;
    let ghost ovs = overrides_view(overrides@);
    let mut cur = t;
    let mut i: usize = 0;
    while i < overrides.len()
        invariant
            i <= overrides.len(),
            store.wf(),
            st0.extended_by(store@),
            ovs == overrides_view(overrides@),
            cur.0 < store@.trees.len(),
            sides_fit(store@, ovs),
            put_side(store@, cur, ovs, added, k as int, i as int) == put_side(
                st0,
                t,
                ovs,
                added,
                k as int,
                0,
            ),
        decreases overrides.len() - i,
    {
        let ghost before = store@;
        assert(terms_below(before, ovs[i as int].1, before.trees.len()));
        let value = side_value_of(&overrides[i].1, added, k);
        match set_path(store, cur, &overrides[i].0, value) {
            Ok(next) => {
                cur = next;
            },
            Err(_) => {
                assert(false);
            },
        }
        proof {
            lemma_sides_fit_kept(before, store@, ovs);
        }
        i += 1;
    }
    cur
}

/// Makes the trees of the removed or of the added sides from their base trees.
fn put_sides_in(
    store: &mut Store,
    bases: &Vec<TreeId>,
    overrides: &Vec<(RepoPath, Merge<Option<TreeValue>>)>,
    added: bool,
) -> (r: Vec<TreeId>)
    requires
        old(store).wf(),
        forall|k: int| 0 <= k < bases@.len() ==> (#[trigger] bases@[k]).0 < old(store)@.trees.len(),
        sides_fit(old(store)@, overrides_view(overrides@)),
    ensures
        final(store).wf(),
        old(store)@.extended_by(final(store)@),
        r.len() == bases.len(),
        forall|k: int| 0 <= k < r@.len() ==> (#[trigger] r@[k]).0 < final(store)@.trees.len(),
        (final(store)@, r@) == put_sides(
            old(store)@,
            bases@,
            overrides_view(overrides@),
            added,
            0,
            Seq::empty(),
        ),
{
    let ghost st0 = store@;
    let ghost ovs = overrides_view(overrides@);
    let mut r: Vec<TreeId> = Vec::new();
    let mut k: usize = 0;
    while k < bases.len()
        invariant
            k <= bases.len(),
            r.len() == k,
            store.wf(),
            st0.extended_by(store@),
            ovs == overrides_view(overrides@),
            sides_fit(store@, ovs),
            forall|j: int| 0 <= j < bases@.len() ==> (#[trigger] bases@[j]).0 < store@.trees.len(),
            forall|j: int| 0 <= j < r@.len() ==> (#[trigger] r@[j]).0 < store@.trees.len(),
            put_sides(store@, bases@, ovs, added, k as int, r@) == put_sides(
                st0,
                bases@,
                ovs,
                added,
                0,
                Seq::empty(),
            ),
        decreases bases.len() - k,
    {
        let ghost before = store@;
        let id = put_side_in(store, bases[k], overrides, added, k);
        proof {
            lemma_sides_fit_kept(before, store@, ovs);
        }
        r.push(id);
        k += 1;
    }
    r
}

/// The new values fit the store as values for a plain tree.
pub open spec fn legacy_fit(st: StoreView, ovs: OverridesView) -> bool {
    forall|i: int|
        0 <= i < ovs.len() ==> {
            let v = (#[trigger] ovs[i]).1.simplify();
            &&& ovs[i].1.wf()
            &&& ovs[i].0.len() > 0
            &&& if v.is_resolved() {
                value_fits(st, v.adds[0])
            } else {
                st.terms_ok(v, st.trees.len() as int)
            }
        }
}

/// New values that fit a store fit every store grown from it.
pub proof fn lemma_legacy_fit_kept(old_store: StoreView, new_store: StoreView, ovs: OverridesView)
    requires
        old_store.extended_by(new_store),
        legacy_fit(old_store, ovs),
    ensures
        legacy_fit(new_store, ovs),
{
    crate::store::lemma_extended_ok(old_store, new_store);
    crate::store::lemma_bound_grows(
        new_store,
        old_store.trees.len() as int,
        new_store.trees.len() as int,
    );
    assert forall|i: int| 0 <= i < ovs.len() implies {
        let v = (#[trigger] ovs[i]).1.simplify();
        &&& ovs[i].1.wf()
        &&& ovs[i].0.len() > 0
        &&& if v.is_resolved() {
            value_fits(new_store, v.adds[0])
        } else {
            new_store.terms_ok(v, new_store.trees.len() as int)
        }
    } by {
        let v = ovs[i].1.simplify();
        if v.is_resolved() {
            lemma_value_fits_kept(old_store, new_store, v.adds[0]);
        } else {
            assert(old_store.terms_ok(v, old_store.trees.len() as int));
            assert(new_store.terms_ok(v, old_store.trees.len() as int));
        }
    }
}

/// Puts the new values into the plain tree `t`.
fn put_legacy_in(
    store: &mut Store,
    t: TreeId,
    overrides: &Vec<(RepoPath, Merge<Option<TreeValue>>)>,
) -> (r: TreeId)
    requires
        old(store).wf(),
        t.0 < old(store)@.trees.len(),
        legacy_fit(old(store)@, overrides_view(overrides@)),
    ensures
        final(store).wf(),
        old(store)@.extended_by(final(store)@),
        r.0 < final(store)@.trees.len(),
        (final(store)@, r) == put_legacy(old(store)@, t, overrides_view(overrides@), 0),
{
    let ghost st0 = store@;
    let ghost ovs = overrides_view(overrides@);
    let mut cur = t;
    let mut i: usize = 0;
    proof {
        lemma_values_compare_by_content();
    }
    while i < overrides.len()
        invariant
            i <= overrides.len(),
            store.wf(),
            st0.extended_by(store@),
            ovs == overrides_view(overrides@),
            cur.0 < store@.trees.len(),
            legacy_fit(store@, ovs),
            vstd::laws_eq::obeys_concrete_eq::<Option<TreeValue>>(),
            put_legacy(store@, cur, ovs, i as int) == put_legacy(st0, t, ovs, 0),
        decreases overrides.len() - i,
    {
        let ghost before = store@;
        assert(ovs[i as int].1.wf());
        let v = overrides[i].1.clone().simplify();
        let value = if v.is_resolved() {
            v.adds()[0]
        } else {
            match store.write_conflict(&v) {
                Ok(c) => Some(TreeValue::Conflict(c)),
                Err(_) => {
                    assert(false);
                    None
                },
            }
        };
        let ghost mid = store@;
        match set_path(store, cur, &overrides[i].0, value) {
            Ok(next) => {
                cur = next;
            },
            Err(_) => {
                assert(false);
            },
        }
        proof {
            lemma_legacy_fit_kept(before, mid, ovs);
            lemma_legacy_fit_kept(mid, store@, ovs);
        }
        i += 1;
    }
    cur
}

impl MergedTreeBuilder {
    /// The largest number of added terms among the new values.
    fn most_sides(&self) -> (n: usize)
        ensures
            n == most_sides(self@.overrides, 0),
    {
        let mut n: usize = 0;
        let mut i: usize = self.overrides.len();
        while i > 0
            invariant
                i <= self.overrides.len(),
                n == most_sides(self@.overrides, i as int),
            decreases i,
        {
            i -= 1;
            let here = self.overrides[i].1.num_sides();
            assert(here == self@.overrides[i as int].1.adds.len());
            if here > n {
                n = here;
            }
        }
        n
    }

    /// Whether the store holds what the new values name.
    fn fits_in(&self, store: &Store) -> (b: bool)
        requires
            store.wf(),
            self.wf(),
        ensures
            b == self@.fits(store@),
    {
        proof {
            lemma_values_compare_by_content();
        }
        let mut i: usize = 0;
        while i < self.overrides.len()
            invariant
                i <= self.overrides.len(),
                store.wf(),
                self.wf(),
                vstd::laws_eq::obeys_concrete_eq::<Option<TreeValue>>(),
                forall|k: int|
                    0 <= k < i ==> if self@.base is Legacy {
                        let v = (#[trigger] self@.overrides[k]).1.simplify();
                        if v.is_resolved() {
                            value_fits(store@, v.adds[0])
                        } else {
                            store@.terms_ok(v, store@.trees.len() as int)
                        }
                    } else {
                        terms_below(store@, (#[trigger] self@.overrides[k]).1, store@.trees.len())
                    },
            decreases self.overrides.len() - i,
        {
            assert(self@.overrides[i as int].1.wf());
            assert(self@.overrides[i as int].1 == self.overrides@[i as int].1@);
            let ok = match &self.base_tree_id {
                MergedTree::Legacy(_) => {
                    let v = self.overrides[i].1.clone().simplify();
                    if v.is_resolved() {
                        match &v.adds()[0] {
                            Some(value) => store.holds_value(value),
                            None => true,
                        }
                    } else {
                        store.holds_record(&v)
                    }
                },
                MergedTree::Merge(_) => terms_fit(store, &self.overrides[i].1),
            };
            if !ok {
                return false;
            }
            i += 1;
        }
        true
    }

    /// Writes the trees that hold the base tree's entries with the new
    /// values in their place, and gives the identity to record: a plain tree
    /// where the base is one or a single tree results, otherwise removed and
    /// added trees, as many as the value with the most terms asks for.
    ///
    /// Fails, and leaves the store as it was, with `ObjectNotFound` where the
    /// store lacks a base tree, and with `DanglingReference` where a new
    /// value names something the store lacks.
    pub fn write_tree(self, store: &mut Store) -> (r: Result<MergedTreeId, BackendError>)
        requires
            old(store).wf(),
            self.wf(),
        ensures
            final(store).wf(),
            old(store)@.extended_by(final(store)@),
            match r {
                Ok(id) => {
                    &&& self@.base.valid(old(store)@)
                    &&& self@.fits(old(store)@)
                    &&& (final(store)@, id@) == self@.written(old(store)@)
                    &&& id@.valid(final(store)@)
                },
                Err(e) => {
                    &&& final(store)@ == old(store)@
                    &&& if !self@.base.valid(old(store)@) {
                        e == BackendError::ObjectNotFound
                    } else {
                        !self@.fits(old(store)@) && e == BackendError::DanglingReference
                    }
                },
            },
    {
        if !self.base_tree_id.is_in(store) {
            return Err(BackendError::ObjectNotFound);
        }
        if !self.fits_in(store) {
            return Err(BackendError::DanglingReference);
        }
        let ghost st0 = store@;
        let ghost ovs = self@.overrides;
        let num_sides = self.most_sides();
        match self.base_tree_id {
            MergedTree::Legacy(t) => {
                assert(legacy_fit(st0, ovs));
                let id = put_legacy_in(store, t, &self.overrides);
                Ok(MergedTree::Legacy(id))
            },
            MergedTree::Merge(trees) => {
                assert(sides_fit(st0, ovs));
                let mut padded = trees;
                padded.pad_to(num_sides, TreeId(0));
                assert(MergedTreeView::Merge(padded@).valid(st0)) by {
                    lemma_padded_valid(st0, trees@, num_sides as nat);
                }
                let removes = put_sides_in(store, padded.removes(), &self.overrides, false);
                proof {
                    lemma_sides_fit_kept(st0, store@, ovs);
                }
                let adds = put_sides_in(store, padded.adds(), &self.overrides, true);
                let written = Merge::new(removes, adds);
                proof {
                    lemma_values_compare_by_content();
                    crate::tree_merge::lemma_simplify_valid(store@, written@);
                }
                let simplified = written.simplify();
                if simplified.is_resolved() {
                    Ok(MergedTree::Legacy(simplified.adds()[0]))
                } else {
                    Ok(MergedTree::Merge(simplified))
                }
            },
        }
    }
}

/// Trees of a store padded with the empty tree are trees of the store.
pub proof fn lemma_padded_valid(st: StoreView, trees: MergeView<TreeId>, n: nat)
    requires
        st.wf(),
        MergedTreeView::Merge(trees).valid(st),
    ensures
        MergedTreeView::Merge(trees.pad_to(n, empty_tree())).valid(st),
    decreases n - trees.adds.len(),
{
    if trees.adds.len() < n {
        let next = MergeView {
            removes: trees.removes.push(empty_tree()),
            adds: trees.adds.push(empty_tree()),
        };
        lemma_padded_valid(st, next, n);
    }
}


/// The new values collected after one more is given.
pub open spec fn after_set(ovs: OverridesView, path: PathView, values: ValueTerms) -> OverridesView {
    with_entry(ovs, path, Some(values), path_lt_fn())
}

/// The order in which values for different paths are given does not matter:
/// the builder holds the same new values, whatever their numbers of terms,
/// and so writes the same trees and the same identity.
pub proof fn lemma_order_of_paths(
    b: BuilderView,
    st: StoreView,
    first: PathView,
    first_values: ValueTerms,
    second: PathView,
    second_values: ValueTerms,
)
    requires
        b.wf(),
        first != second,
    ensures
        after_set(after_set(b.overrides, first, first_values), second, second_values) == after_set(
            after_set(b.overrides, second, second_values),
            first,
            first_values,
        ),
        (BuilderView {
            base: b.base,
            overrides: after_set(
                after_set(b.overrides, first, first_values),
                second,
                second_values,
            ),
        }).written(st) == (BuilderView {
            base: b.base,
            overrides: after_set(
                after_set(b.overrides, second, second_values),
                first,
                first_values,
            ),
        }).written(st),
{
    crate::order::lemma_path_order();
    crate::assoc::lemma_with_entry_commutes(
        b.overrides,
        first,
        Some(first_values),
        second,
        Some(second_values),
        path_lt_fn(),
    );
}

/// The new values that a builder holds are determined by the last value
/// given for each path: two builders that hold the same value under every
/// path hold the same new values and write the same identity.
pub proof fn lemma_overrides_determined(a: BuilderView, b: BuilderView, st: StoreView)
    requires
        a.wf(),
        b.wf(),
        a.base == b.base,
        forall|path: PathView|
            crate::assoc::lookup(a.overrides, path, path_lt_fn()) == crate::assoc::lookup(
                b.overrides,
                path,
                path_lt_fn(),
            ),
    ensures
        a == b,
        a.written(st) == b.written(st),
{
    crate::order::lemma_path_order();
    crate::assoc::lemma_extensional(a.overrides, b.overrides, path_lt_fn());
}

} // verus!
