//! A tree that may be conflicted: one plain tree, or removed and added trees.
use vstd::prelude::*;
use crate::backend::{lemma_values_compare_by_content, BackendError, TreeId, TreeValue};
use crate::matchers::{Matcher, MatcherView};
use crate::merge::{Merge, MergeView};
use crate::repo_path::{RepoPath, RepoPathComponent};
use crate::store::{Store, StoreView, ValueTerms};
use crate::names::{union, union_names};
use crate::tree::lookup;

verus! {

/// A path as the names to follow from the root.
pub type PathView = Seq<Seq<u8>>;

/// A tree that may be conflicted, named by the identifiers of its trees.
/// Every operation takes the store that holds them.
#[derive(Debug, PartialEq, Eq)]
pub enum MergedTree {
    /// One plain tree; its conflicts are entries that name conflict records.
    Legacy(TreeId),
    /// Removed and added trees; a single tree where nothing is removed.
    Merge(Merge<TreeId>),
}

/// The identity of a tree that may be conflicted: what a commit records.
pub type MergedTreeId = MergedTree;

/// The mathematical content of a [`MergedTree`].
pub enum MergedTreeView {
    Legacy(TreeId),
    Merge(MergeView<TreeId>),
}

impl View for MergedTree {
    type V = MergedTreeView;

    open spec fn view(&self) -> MergedTreeView {
        match self {
            MergedTree::Legacy(id) => MergedTreeView::Legacy(*id),
            MergedTree::Merge(trees) => MergedTreeView::Merge(trees@),
        }
    }
}

/// The value found under a name or at a path of a tree that may be conflicted.
#[derive(Debug, PartialEq, Eq)]
pub enum MergedTreeValue {
    /// A single value; `None` where there is no entry.
    Resolved(Option<TreeValue>),
    /// Several terms that do not resolve without looking inside them.
    Conflict(Merge<Option<TreeValue>>),
}

impl View for MergedTreeValue {
    type V = ValueTerms;

    open spec fn view(&self) -> ValueTerms {
        match self {
            MergedTreeValue::Resolved(value) => MergeView::resolved(*value),
            MergedTreeValue::Conflict(terms) => terms@,
        }
    }
}

/// The identifier of the empty tree in every store.
pub open spec fn empty_tree() -> TreeId {
    TreeId(0)
}

/// The resolved value "no entry".
pub open spec fn absent() -> ValueTerms {
    MergeView::resolved(None)
}

/// Some term is an entry.
pub open spec fn any_present(v: ValueTerms) -> bool {
    ||| exists|i: int| 0 <= i < v.adds.len() && #[trigger] v.adds[i].is_some()
    ||| exists|j: int| 0 <= j < v.removes.len() && #[trigger] v.removes[j].is_some()
}

/// A term is a subtree or "no entry".
pub open spec fn tree_or_none(term: Option<TreeValue>) -> bool {
    match term {
        None => true,
        Some(TreeValue::Tree(_)) => true,
        _ => false,
    }
}

/// Some term is a subtree.
pub open spec fn any_tree(v: ValueTerms) -> bool {
    ||| exists|i: int| 0 <= i < v.adds.len() && #[trigger] v.adds[i] matches Some(TreeValue::Tree(_))
    ||| exists|j: int|
        0 <= j < v.removes.len() && #[trigger] v.removes[j] matches Some(TreeValue::Tree(_))
}

/// The value is a directory to walk into: every term is a subtree or "no
/// entry", and some term is a subtree.
pub open spec fn is_tree_value(v: ValueTerms) -> bool {
    &&& forall|i: int| 0 <= i < v.adds.len() ==> tree_or_none(#[trigger] v.adds[i])
    &&& forall|j: int| 0 <= j < v.removes.len() ==> tree_or_none(#[trigger] v.removes[j])
    &&& any_tree(v)
}

/// The tree that a term stands for when walking: its subtree, or the empty
/// tree where it is anything else.
pub open spec fn tree_of(term: Option<TreeValue>) -> TreeId {
    match term {
        Some(TreeValue::Tree(id)) => id,
        _ => empty_tree(),
    }
}

/// The trees that the terms of a value stand for.
pub open spec fn tree_terms(v: ValueTerms) -> MergeView<TreeId> {
    v.map(|term: Option<TreeValue>| tree_of(term))
}

/// The largest identifier in a list of trees.
pub open spec fn max_id(ids: Seq<TreeId>) -> nat
    decreases ids.len(),
{
    if ids.len() == 0 {
        0
    } else {
        let rest = max_id(ids.drop_last());
        if ids.last().0 > rest {
            ids.last().0 as nat
        } else {
            rest
        }
    }
}

/// One entry of a walk: a path and the value there.
pub type EntryView = (PathView, ValueTerms);

/// The names that occur in a list of trees, in order.
pub open spec fn names_over(st: StoreView, ids: Seq<TreeId>) -> Seq<Seq<u8>>
    decreases ids.len(),
{
    if ids.len() == 0 {
        Seq::empty()
    } else {
        union(names_over(st, ids.drop_last()), crate::tree::names(st.tree(ids.last())))
    }
}

/// One entry of a diff: a path, the value there on the left and on the right.
pub type DiffView = (PathView, ValueTerms, ValueTerms);

/// The single, empty tree.
pub open spec fn empty_merge() -> MergedTreeView {
    MergedTreeView::Merge(MergeView::resolved(empty_tree()))
}

/// What a diff reports for the path itself, where the values differ: both
/// values where neither is a directory; where one is a directory, the other
/// value against "no entry", if it has an entry among its terms.
pub open spec fn diff_leaf(path: PathView, lv: ValueTerms, rv: ValueTerms) -> Seq<DiffView> {
    let lt = is_tree_value(lv);
    let rt = is_tree_value(rv);
    if lt && rt {
        Seq::empty()
    } else if rt {
        if any_present(lv) {
            seq![(path, lv, absent())]
        } else {
            Seq::empty()
        }
    } else if lt {
        if any_present(rv) {
            seq![(path, absent(), rv)]
        } else {
            Seq::empty()
        }
    } else {
        seq![(path, lv, rv)]
    }
}

/// The entries of a diff with left and right exchanged.
pub open spec fn mirror(d: Seq<DiffView>) -> Seq<DiffView> {
    Seq::new(d.len(), |i: int| (d[i].0, d[i].2, d[i].1))
}

impl MergedTreeView {
    /// The tree that a diff walks into on this side under a name with value
    /// `v`: the directory there, or the empty tree where there is none.
    pub open spec fn diff_child(self, v: ValueTerms) -> MergedTreeView {
        if is_tree_value(v) {
            self.walk_child(v)
        } else {
            empty_merge()
        }
    }

    /// The differences at and below `name`: nothing where both sides hold the
    /// same value; otherwise what `diff_leaf` reports for the path, then the
    /// differences inside the directories.
    pub open spec fn diff_at(
        self,
        right: MergedTreeView,
        st: StoreView,
        prefix: PathView,
        name: Seq<u8>,
    ) -> Seq<DiffView>
        decreases self.rank() + right.rank(), 0nat, 0nat,
    {
        let lv = self.value(st, name);
        let rv = right.value(st, name);
        let path = prefix.push(name);
        if lv == rv {
            Seq::empty()
        } else {
            let lc = self.diff_child(lv);
            let rc = right.diff_child(rv);
            diff_leaf(path, lv, rv) + if (is_tree_value(lv) || is_tree_value(rv)) && lc.rank()
                + rc.rank() < self.rank() + right.rank() {
                lc.diff(rc, st, path)
            } else {
                Seq::empty()
            }
        }
    }

    /// The differences at and below the names from position `i` on.
    pub open spec fn diff_from(
        self,
        right: MergedTreeView,
        st: StoreView,
        prefix: PathView,
        names: Seq<Seq<u8>>,
        i: int,
    ) -> Seq<DiffView>
        decreases self.rank() + right.rank(), 1nat, names.len() - i,
    {
        if i < 0 || i >= names.len() {
            Seq::empty()
        } else {
            self.diff_at(right, st, prefix, names[i]) + self.diff_from(
                right,
                st,
                prefix,
                names,
                i + 1,
            )
        }
    }

    /// Every path below `prefix` at which the two trees differ, with both
    /// values, the names of both sides walked in order.
    pub open spec fn diff(self, right: MergedTreeView, st: StoreView, prefix: PathView) -> Seq<
        DiffView,
    >
        decreases self.rank() + right.rank(), 2nat, 0nat,
    {
        self.diff_from(right, st, prefix, union(self.names(st), right.names(st)), 0)
    }

    /// The differences that the filter lets through.
    pub open spec fn diff_matching(
        self,
        right: MergedTreeView,
        st: StoreView,
        matcher: MatcherView,
    ) -> Seq<DiffView> {
        self.diff(right, st, Seq::empty()).filter(|d: DiffView| matcher.matches(d.0))
    }

    /// The names that occur in any of the trees, in order.
    pub open spec fn names(self, st: StoreView) -> Seq<Seq<u8>> {
        match self {
            MergedTreeView::Legacy(id) => crate::tree::names(st.tree(id)),
            MergedTreeView::Merge(trees) => union(
                names_over(st, trees.adds),
                names_over(st, trees.removes),
            ),
        }
    }

    /// The entries at and below `name`: those of the directory there, or the
    /// value itself where it is no directory and some term is an entry.
    pub open spec fn entries_at(self, st: StoreView, prefix: PathView, name: Seq<u8>) -> Seq<
        EntryView,
    >
        decreases self.rank(), 0nat, 0nat,
    {
        let v = self.value(st, name);
        let path = prefix.push(name);
        if is_tree_value(v) {
            let child = self.walk_child(v);
            if child.rank() < self.rank() {
                child.entries(st, path)
            } else {
                Seq::empty()
            }
        } else if any_present(v) {
            seq![(path, v)]
        } else {
            Seq::empty()
        }
    }

    /// The entries at and below the names from position `i` on.
    pub open spec fn entries_from(
        self,
        st: StoreView,
        prefix: PathView,
        names: Seq<Seq<u8>>,
        i: int,
    ) -> Seq<EntryView>
        decreases self.rank(), 1nat, names.len() - i,
    {
        if i < 0 || i >= names.len() {
            Seq::empty()
        } else {
            self.entries_at(st, prefix, names[i]) + self.entries_from(st, prefix, names, i + 1)
        }
    }

    /// Every path below `prefix` that holds a value which is no directory and
    /// has an entry among its terms, with that value, directories walked in
    /// the order of their names.
    pub open spec fn entries(self, st: StoreView, prefix: PathView) -> Seq<EntryView>
        decreases self.rank(), 2nat, 0nat,
    {
        self.entries_from(st, prefix, self.names(st), 0)
    }

    /// The entries of the walk that the filter lets through.
    pub open spec fn entries_matching(self, st: StoreView, matcher: MatcherView) -> Seq<
        EntryView,
    > {
        self.entries(st, Seq::empty()).filter(|e: EntryView| matcher.matches(e.0))
    }

    /// The entries of the walk whose value is not resolved.
    pub open spec fn conflicts(self, st: StoreView) -> Seq<EntryView> {
        self.entries(st, Seq::empty()).filter(|e: EntryView| !e.1.is_resolved())
    }

    /// The arity invariant of the trees.
    pub open spec fn wf(self) -> bool {
        match self {
            MergedTreeView::Legacy(id) => true,
            MergedTreeView::Merge(trees) => trees.wf(),
        }
    }

    /// Every tree named is in the store, and the arity invariant holds.
    pub open spec fn valid(self, st: StoreView) -> bool {
        match self {
            MergedTreeView::Legacy(id) => id.0 < st.trees.len(),
            MergedTreeView::Merge(trees) => {
                &&& trees.wf()
                &&& forall|i: int| 0 <= i < trees.adds.len() ==> (#[trigger] trees.adds[i]).0 < st.trees.len()
                &&& forall|j: int|
                    0 <= j < trees.removes.len() ==> (#[trigger] trees.removes[j]).0
                        < st.trees.len()
            },
        }
    }

    /// The largest identifier among the trees. Subtrees have smaller ones.
    pub open spec fn rank(self) -> nat {
        match self {
            MergedTreeView::Legacy(id) => id.0 as nat,
            MergedTreeView::Merge(trees) => if max_id(trees.adds) > max_id(trees.removes) {
                max_id(trees.adds)
            } else {
                max_id(trees.removes)
            },
        }
    }

    /// The value under `name` as terms: in a plain tree the entry, with a
    /// conflict record replaced by its terms; otherwise the entries of all
    /// trees, or the single value where they resolve trivially.
    pub open spec fn value(self, st: StoreView, name: Seq<u8>) -> ValueTerms {
        match self {
            MergedTreeView::Legacy(id) => match lookup(st.tree(id), name) {
                Some(TreeValue::Conflict(c)) => st.conflicts[c.0 as int],
                entry => MergeView::resolved(entry),
            },
            MergedTreeView::Merge(trees) => {
                let terms = trees.map(|id: TreeId| lookup(st.tree(id), name));
                match terms.resolve_trivial() {
                    Some(entry) => MergeView::resolved(entry),
                    None => terms,
                }
            },
        }
    }

    /// The tree to walk into under a name whose value `v` is a directory.
    pub open spec fn walk_child(self, v: ValueTerms) -> MergedTreeView {
        if self is Legacy && v.is_resolved() {
            MergedTreeView::Legacy(tree_of(v.adds[0]))
        } else {
            MergedTreeView::Merge(tree_terms(v))
        }
    }

    /// The tree under `name` for following a path: a plain tree follows plain
    /// subtrees only; otherwise the terms that are no subtree count as empty,
    /// and there is no tree where all would be empty.
    pub open spec fn sub_tree(self, st: StoreView, name: Seq<u8>) -> Option<MergedTreeView> {
        let v = self.value(st, name);
        if self is Legacy {
            match lookup(st.tree(self->Legacy_0), name) {
                Some(TreeValue::Tree(id)) => Some(MergedTreeView::Legacy(id)),
                _ => None,
            }
        } else if any_tree(v) {
            Some(MergedTreeView::Merge(tree_terms(v)))
        } else {
            None
        }
    }

    /// The value at the root: the trees themselves.
    pub open spec fn root_value(self) -> ValueTerms {
        match self {
            MergedTreeView::Legacy(id) => MergeView::resolved(Some(TreeValue::Tree(id))),
            MergedTreeView::Merge(trees) => trees.map(|id: TreeId| Some(TreeValue::Tree(id))),
        }
    }

    /// The value at a path: found by walking down name by name; "no entry"
    /// where the walk leaves the tree.
    pub open spec fn path_value(self, st: StoreView, path: PathView) -> ValueTerms
        decreases path.len(),
    {
        if path.len() == 0 {
            self.root_value()
        } else if path.len() == 1 {
            self.value(st, path[0])
        } else {
            match self.sub_tree(st, path[0]) {
                Some(sub) => sub.path_value(st, path.skip(1)),
                None => absent(),
            }
        }
    }
}


/// The largest identifier bounds every identifier in the list.
pub proof fn lemma_max_id(ids: Seq<TreeId>, i: int)
    requires
        0 <= i < ids.len(),
    ensures
        ids[i].0 <= max_id(ids),
    decreases ids.len(),
{
    if i < ids.len() - 1 {
        lemma_max_id(ids.drop_last(), i);
    }
}

/// A bound on every identifier in the list bounds the largest.
pub proof fn lemma_max_id_bound(ids: Seq<TreeId>, bound: nat)
    requires
        forall|i: int| 0 <= i < ids.len() ==> (#[trigger] ids[i]).0 <= bound,
    ensures
        max_id(ids) <= bound,
    decreases ids.len(),
{
    if ids.len() > 0 {
        assert forall|i: int| 0 <= i < ids.drop_last().len() implies (#[trigger] ids.drop_last()[i]).0
            <= bound by {
            assert(ids.drop_last()[i] == ids[i]);
        }
        lemma_max_id_bound(ids.drop_last(), bound);
        assert(ids.last() == ids[ids.len() - 1]);
    }
}

/// The entries of a list of trees under one name.
pub(crate) fn lookup_all(store: &Store, ids: &Vec<TreeId>, name: &RepoPathComponent) -> (r: Vec<
    Option<TreeValue>,
>)
    requires
        forall|i: int| 0 <= i < ids@.len() ==> (#[trigger] ids@[i]).0 < store@.trees.len(),
    ensures
        r@ == ids@.map_values(|id: TreeId| lookup(store@.tree(id), name@)),
{
    let mut r: Vec<Option<TreeValue>> = Vec::new();
    let mut i: usize = 0;
    while i < ids.len()
        invariant
            i <= ids.len(),
            r.len() == i,
            forall|k: int| 0 <= k < ids@.len() ==> (#[trigger] ids@[k]).0 < store@.trees.len(),
            forall|k: int| 0 <= k < i ==> r@[k] == lookup(store@.tree(ids@[k]), name@),
        decreases ids.len() - i,
    {
        let entry = match store.get_tree(ids[i]) {
            Ok(tree) => tree.value(name),
            Err(_) => None,
        };
        r.push(entry);
        i += 1;
    }
    assert(r@ =~= ids@.map_values(|id: TreeId| lookup(store@.tree(id), name@)));
    r
}

/// The trees that a list of terms stands for.
fn trees_of_terms(terms: &Vec<Option<TreeValue>>) -> (r: Vec<TreeId>)
    ensures
        r@ == terms@.map_values(|term: Option<TreeValue>| tree_of(term)),
{
    let mut r: Vec<TreeId> = Vec::new();
    let mut i: usize = 0;
    while i < terms.len()
        invariant
            i <= terms.len(),
            r.len() == i,
            forall|k: int| 0 <= k < i ==> r@[k] == tree_of(terms@[k]),
        decreases terms.len() - i,
    {
        let id = match terms[i] {
            Some(TreeValue::Tree(id)) => id,
            _ => TreeId(0),
        };
        r.push(id);
        i += 1;
    }
    assert(r@ =~= terms@.map_values(|term: Option<TreeValue>| tree_of(term)));
    r
}

/// Whether some term in the list is a subtree, and whether all are subtrees or "no entry".
fn scan_terms(terms: &Vec<Option<TreeValue>>) -> (r: (bool, bool, bool))
    ensures
        r.0 == (exists|i: int|
            0 <= i < terms@.len() && #[trigger] terms@[i] matches Some(TreeValue::Tree(_))),
        r.1 == (forall|i: int| 0 <= i < terms@.len() ==> tree_or_none(#[trigger] terms@[i])),
        r.2 == (exists|i: int| 0 <= i < terms@.len() && #[trigger] terms@[i].is_some()),
{
    let mut some_tree = false;
    let mut all_trees = true;
    let mut some_entry = false;
    let mut i: usize = 0;
    while i < terms.len()
        invariant
            i <= terms.len(),
            some_tree == (exists|k: int|
                0 <= k < i && #[trigger] terms@[k] matches Some(TreeValue::Tree(_))),
            all_trees == (forall|k: int| 0 <= k < i ==> tree_or_none(#[trigger] terms@[k])),
            some_entry == (exists|k: int| 0 <= k < i && #[trigger] terms@[k].is_some()),
        decreases terms.len() - i,
    {
        match terms[i] {
            None => {},
            Some(TreeValue::Tree(_)) => {
                some_tree = true;
                some_entry = true;
            },
            Some(_) => {
                all_trees = false;
                some_entry = true;
            },
        }
        i += 1;
    }
    (some_tree, all_trees, some_entry)
}

/// Whether some term of the value is an entry.
pub fn has_present_term(v: &Merge<Option<TreeValue>>) -> (b: bool)
    ensures
        b == any_present(v@),
{
    let a = scan_terms(v.adds());
    let r = scan_terms(v.removes());
    a.2 || r.2
}

/// Whether the value is a directory to walk into.
pub fn is_tree(v: &Merge<Option<TreeValue>>) -> (b: bool)
    ensures
        b == is_tree_value(v@),
{
    let a = scan_terms(v.adds());
    let r = scan_terms(v.removes());
    a.1 && r.1 && (a.0 || r.0)
}

/// The trees that the terms of a value stand for.
pub fn to_tree_terms(v: &Merge<Option<TreeValue>>) -> (r: Merge<TreeId>)
    requires
        v.wf(),
    ensures
        r@ == tree_terms(v@),
        r.wf(),
{
    Merge::new(trees_of_terms(v.removes()), trees_of_terms(v.adds()))
}

impl MergedTreeValue {
    /// The value as terms.
    pub fn to_merge(self) -> (r: Merge<Option<TreeValue>>)
        ensures
            r@ == self@,
    {
        match self {
            MergedTreeValue::Resolved(value) => Merge::resolved(value),
            MergedTreeValue::Conflict(terms) => terms,
        }
    }
}

impl MergedTree {
    /// The arity invariant of the trees.
    pub open spec fn wf(&self) -> bool {
        self@.wf()
    }

    /// The plain tree `id`, whose conflicts are entries that name conflict records.
    pub fn legacy(id: TreeId) -> (r: MergedTree)
        ensures
            r@ == MergedTreeView::Legacy(id),
            r.wf(),
    {
        MergedTree::Legacy(id)
    }

    /// The tree made of removed and added trees.
    pub fn new(trees: Merge<TreeId>) -> (r: MergedTree)
        requires
            trees.wf(),
        ensures
            r@ == MergedTreeView::Merge(trees@),
            r.wf(),
    {
        MergedTree::Merge(trees)
    }

    /// The single tree `id`.
    pub fn resolved(id: TreeId) -> (r: MergedTree)
        ensures
            r@ == MergedTreeView::Merge(MergeView::resolved(id)),
            r.wf(),
    {
        MergedTree::Merge(Merge::resolved(id))
    }

    /// The identity of the tree.
    pub fn id(&self) -> (r: MergedTreeId)
        ensures
            r@ == self@,
    {
        match self {
            MergedTree::Legacy(id) => MergedTree::Legacy(*id),
            MergedTree::Merge(trees) => MergedTree::Merge(trees.clone()),
        }
    }

    /// Whether both name the same trees in the same places.
    pub fn same(&self, other: &MergedTree) -> (b: bool)
        ensures
            b == (self@ == other@),
    {
        proof {
            lemma_values_compare_by_content();
        }
        match (self, other) {
            (MergedTree::Legacy(a), MergedTree::Legacy(b)) => a.0 == b.0,
            (MergedTree::Merge(a), MergedTree::Merge(b)) => a.same_terms(b),
            _ => false,
        }
    }

    /// Whether the store holds every tree named.
    pub fn is_in(&self, store: &Store) -> (b: bool)
        requires
            self.wf(),
        ensures
            b == self@.valid(store@),
    {
        match self {
            MergedTree::Legacy(id) => store.get_tree(*id).is_ok(),
            MergedTree::Merge(trees) => ids_in_store(store, trees.adds()) && ids_in_store(
                store,
                trees.removes(),
            ),
        }
    }

    /// The value under `name`, on a tree that the store holds.
    fn value_in(&self, store: &Store, name: &RepoPathComponent) -> (r: Merge<Option<TreeValue>>)
        requires
            store.wf(),
            self@.valid(store@),
        ensures
            r@ == self@.value(store@, name@),
            r.wf(),
    {
        proof {
            lemma_values_compare_by_content();
        }
        match self {
            MergedTree::Legacy(id) => {
                let entry = match store.get_tree(*id) {
                    Ok(tree) => tree.value(name),
                    Err(_) => None,
                };
                proof {
                    if entry.is_some() {
                        crate::tree::lemma_lower_bound(store@.tree(*id), name@, 0);
                        let p = crate::tree::lower_bound(store@.tree(*id), name@, 0);
                        assert(store@.entries_ok(store@.trees[id.0 as int], id.0 as int));
                        assert(store@.value_ok(store@.tree(*id)[p].1, id.0 as int));
                    }
                }
                match entry {
                    Some(TreeValue::Conflict(c)) => match store.read_conflict(c) {
                        Ok(terms) => terms.clone(),
                        Err(_) => Merge::resolved(None),
                    },
                    _ => Merge::resolved(entry),
                }
            },
            MergedTree::Merge(trees) => {
                let terms = Merge::new(
                    lookup_all(store, trees.removes(), name),
                    lookup_all(store, trees.adds(), name),
                );
                proof {
                    lemma_looked_up_terms(store@, trees@, name@);
                }
                match terms.resolve_trivial() {
                    Some(entry) => Merge::resolved(entry),
                    None => terms,
                }
            },
        }
    }

    /// The value under `name`: resolved where there is a single value, among
    /// them "no entry"; conflicted otherwise. Fails where the store lacks one
    /// of the trees.
    pub fn value(&self, store: &Store, name: &RepoPathComponent) -> (r: Result<
        MergedTreeValue,
        BackendError,
    >)
        requires
            store.wf(),
            self.wf(),
        ensures
            match r {
                Ok(v) => {
                    &&& self@.valid(store@)
                    &&& v@ == self@.value(store@, name@)
                    &&& v is Resolved <==> v@.is_resolved()
                },
                Err(e) => !self@.valid(store@) && e == BackendError::ObjectNotFound,
            },
    {
        if !self.is_in(store) {
            return Err(BackendError::ObjectNotFound);
        }
        let terms = self.value_in(store, name);
        let ghost tv = terms@;
        match terms.into_resolved() {
            Ok(entry) => {
                assert(tv.adds =~= seq![entry]);
                assert(tv.removes =~= Seq::empty());
                Ok(MergedTreeValue::Resolved(entry))
            },
            Err(terms) => Ok(MergedTreeValue::Conflict(terms)),
        }
    }
}

/// Whether the store holds every tree in the list.
fn ids_in_store(store: &Store, ids: &Vec<TreeId>) -> (b: bool)
    ensures
        b == (forall|i: int| 0 <= i < ids@.len() ==> (#[trigger] ids@[i]).0 < store@.trees.len()),
{
    let mut i: usize = 0;
    while i < ids.len()
        invariant
            i <= ids.len(),
            forall|k: int| 0 <= k < i ==> (#[trigger] ids@[k]).0 < store@.trees.len(),
        decreases ids.len() - i,
    {
        if store.get_tree(ids[i]).is_err() {
            return false;
        }
        i += 1;
    }
    true
}

/// The entries that the trees of a store hold under one name refer to
/// objects of the store, and to trees with smaller identifiers only.
pub proof fn lemma_looked_up_terms(st: StoreView, trees: MergeView<TreeId>, name: Seq<u8>)
    requires
        st.wf(),
        MergedTreeView::Merge(trees).valid(st),
    ensures
        ({
            let terms = trees.map(|id: TreeId| lookup(st.tree(id), name));
            &&& terms.wf()
            &&& forall|i: int|
                0 <= i < terms.adds.len() ==> #[trigger] terms.adds[i] == lookup(
                    st.tree(trees.adds[i]),
                    name,
                ) && entry_below(st, terms.adds[i], trees.adds[i])
            &&& forall|j: int|
                0 <= j < terms.removes.len() ==> #[trigger] terms.removes[j] == lookup(
                    st.tree(trees.removes[j]),
                    name,
                ) && entry_below(st, terms.removes[j], trees.removes[j])
        }),
{
    let terms = trees.map(|id: TreeId| lookup(st.tree(id), name));
    assert forall|i: int| 0 <= i < terms.adds.len() implies entry_below(
        st,
        #[trigger] terms.adds[i],
        trees.adds[i],
    ) by {
        lemma_entry_below(st, trees.adds[i], name);
    }
    assert forall|j: int| 0 <= j < terms.removes.len() implies entry_below(
        st,
        #[trigger] terms.removes[j],
        trees.removes[j],
    ) by {
        lemma_entry_below(st, trees.removes[j], name);
    }
}

/// An entry of tree `id` names only stored objects, and trees below `id`.
pub open spec fn entry_below(st: StoreView, entry: Option<TreeValue>, id: TreeId) -> bool {
    match entry {
        None => true,
        Some(value) => st.value_ok(value, id.0 as int),
    }
}

/// What a stored tree holds under a name is in order.
pub proof fn lemma_entry_below(st: StoreView, id: TreeId, name: Seq<u8>)
    requires
        st.wf(),
        id.0 < st.trees.len(),
    ensures
        entry_below(st, lookup(st.tree(id), name), id),
{
    crate::tree::lemma_lower_bound(st.tree(id), name, 0);
    if lookup(st.tree(id), name).is_some() {
        let p = crate::tree::lower_bound(st.tree(id), name, 0);
        assert(st.entries_ok(st.trees[id.0 as int], id.0 as int));
        assert(st.value_ok(st.tree(id)[p].1, id.0 as int));
    }
}


/// Walking into a directory leads to trees of the store with smaller identifiers.
pub proof fn lemma_walk_child(st: StoreView, tree: MergedTreeView, name: Seq<u8>)
    requires
        st.wf(),
        tree.valid(st),
        is_tree_value(tree.value(st, name)),
    ensures
        tree.walk_child(tree.value(st, name)).valid(st),
        tree.walk_child(tree.value(st, name)).rank() < tree.rank(),
        tree.value(st, name).wf(),
{
    let v = tree.value(st, name);
    lemma_value_below(st, tree, name);
    lemma_rank_in_store(st, tree);
    lemma_child_of_terms(st, v, tree.rank());
}

/// The rank of a tree of the store is the identifier of one of its trees.
pub proof fn lemma_rank_in_store(st: StoreView, tree: MergedTreeView)
    requires
        st.wf(),
        tree.valid(st),
    ensures
        tree.rank() < st.trees.len(),
{
    if let MergedTreeView::Merge(trees) = tree {
        lemma_max_id_bound(trees.adds, (st.trees.len() - 1) as nat);
        lemma_max_id_bound(trees.removes, (st.trees.len() - 1) as nat);
    }
}

/// Every term of a value is "no entry" or in order for trees below the rank.
pub open spec fn terms_below(st: StoreView, v: ValueTerms, bound: nat) -> bool {
    &&& v.wf()
    &&& forall|i: int|
        0 <= i < v.adds.len() ==> (#[trigger] v.adds[i] matches Some(value) ==> st.value_ok(
            value,
            bound as int,
        ))
    &&& forall|j: int|
        0 <= j < v.removes.len() ==> (#[trigger] v.removes[j] matches Some(value) ==> st.value_ok(
            value,
            bound as int,
        ))
}

/// The terms of the value under a name refer to trees below the tree's rank.
pub proof fn lemma_value_below(st: StoreView, tree: MergedTreeView, name: Seq<u8>)
    requires
        st.wf(),
        tree.valid(st),
    ensures
        terms_below(st, tree.value(st, name), tree.rank()),
{
    let v = tree.value(st, name);
    match tree {
        MergedTreeView::Legacy(id) => {
            lemma_entry_below(st, id, name);
            match lookup(st.tree(id), name) {
                Some(TreeValue::Conflict(c)) => {
                    assert(st.terms_ok(st.conflicts[c.0 as int], id.0 as int));
                    assert forall|i: int| 0 <= i < v.adds.len() implies (#[trigger] v.adds[i] matches Some(
                        value,
                    ) ==> st.value_ok(value, id.0 as int)) by {
                        assert(st.term_ok(v.adds[i], id.0 as int));
                    }
                    assert forall|j: int| 0 <= j < v.removes.len() implies (#[trigger] v.removes[j] matches Some(
                        value,
                    ) ==> st.value_ok(value, id.0 as int)) by {
                        assert(st.term_ok(v.removes[j], id.0 as int));
                    }
                },
                _ => {},
            }
        },
        MergedTreeView::Merge(trees) => {
            let terms = trees.map(|id: TreeId| lookup(st.tree(id), name));
            lemma_looked_up_terms(st, trees, name);
            let bound = tree.rank();
            assert forall|i: int| 0 <= i < terms.adds.len() implies (#[trigger] terms.adds[i] matches Some(
                value,
            ) ==> st.value_ok(value, bound as int)) by {
                lemma_max_id(trees.adds, i);
                crate::store::lemma_bound_grows(st, trees.adds[i].0 as int, bound as int);
            }
            assert forall|j: int| 0 <= j < terms.removes.len() implies (#[trigger] terms.removes[j] matches Some(
                value,
            ) ==> st.value_ok(value, bound as int)) by {
                lemma_max_id(trees.removes, j);
                crate::store::lemma_bound_grows(st, trees.removes[j].0 as int, bound as int);
            }
            if terms.resolve_trivial().is_some() {
                crate::algebra_laws::lemma_resolve_trivial_is_a_term(terms);
                let e = terms.resolve_trivial().unwrap();
                let x = choose|x: int| 0 <= x < terms.adds.len() && terms.adds[x] == e;
                assert(v.adds[0] == terms.adds[x]);
            }
        },
    }
}

/// The trees that stand for terms below a bound are trees of the store; where
/// one term is a subtree, they all have identifiers below the bound.
pub proof fn lemma_child_of_terms(st: StoreView, v: ValueTerms, bound: nat)
    requires
        st.wf(),
        terms_below(st, v, bound),
        bound <= st.trees.len(),
    ensures
        MergedTreeView::Merge(tree_terms(v)).valid(st),
        MergedTreeView::Legacy(tree_of(v.adds[0])).valid(st),
        any_tree(v) ==> MergedTreeView::Merge(tree_terms(v)).rank() < bound,
        any_tree(v) ==> tree_of(v.adds[0]).0 < bound,
{
    let t = tree_terms(v);
    assert forall|i: int| 0 <= i < t.adds.len() implies (#[trigger] t.adds[i]).0 < st.trees.len()
        && (bound > 0 ==> t.adds[i].0 <= bound - 1) by {
        assert(t.adds[i] == tree_of(v.adds[i]));
    }
    assert forall|j: int| 0 <= j < t.removes.len() implies (#[trigger] t.removes[j]).0
        < st.trees.len() && (bound > 0 ==> t.removes[j].0 <= bound - 1) by {
        assert(t.removes[j] == tree_of(v.removes[j]));
    }
    assert(t.adds[0] == tree_of(v.adds[0]));
    if any_tree(v) {
        assert(bound > 0) by {
            if exists|i: int| 0 <= i < v.adds.len() && #[trigger] v.adds[i] matches Some(TreeValue::Tree(_)) {
                let i = choose|i: int| 0 <= i < v.adds.len() && #[trigger] v.adds[i] matches Some(TreeValue::Tree(_));
                assert(st.value_ok(v.adds[i].unwrap(), bound as int));
            } else {
                let j = choose|j: int| 0 <= j < v.removes.len() && #[trigger] v.removes[j] matches Some(TreeValue::Tree(_));
                assert(st.value_ok(v.removes[j].unwrap(), bound as int));
            }
        }
        lemma_max_id_bound(t.adds, (bound - 1) as nat);
        lemma_max_id_bound(t.removes, (bound - 1) as nat);
    }
}


/// What a list of walked entries holds.
pub open spec fn entries_view(list: Seq<(RepoPath, Merge<Option<TreeValue>>)>) -> Seq<EntryView> {
    Seq::new(list.len(), |i: int| (list[i].0@, list[i].1@))
}

/// The names that occur in a list of stored trees, in order.
pub(crate) fn names_in(store: &Store, ids: &Vec<TreeId>) -> (r: Vec<RepoPathComponent>)
    requires
        forall|i: int| 0 <= i < ids@.len() ==> (#[trigger] ids@[i]).0 < store@.trees.len(),
    ensures
        crate::repo_path::names_of(r@) == names_over(store@, ids@),
{
    let mut r: Vec<RepoPathComponent> = Vec::new();
    let mut k: usize = 0;
    assert(crate::repo_path::names_of(r@) =~= Seq::<Seq<u8>>::empty());
    assert(ids@.take(0) =~= Seq::<TreeId>::empty());
    while k < ids.len()
        invariant
            k <= ids.len(),
            forall|i: int| 0 <= i < ids@.len() ==> (#[trigger] ids@[i]).0 < store@.trees.len(),
            crate::repo_path::names_of(r@) == names_over(store@, ids@.take(k as int)),
        decreases ids.len() - k,
    {
        match store.get_tree(ids[k]) {
            Ok(tree) => {
                let names = tree.names();
                r = union_names(&r, &names);
            },
            Err(_) => {},
        }
        proof {
            assert(ids@.take(k + 1).drop_last() =~= ids@.take(k as int));
            assert(ids@.take(k + 1).last() == ids@[k as int]);
        }
        k += 1;
    }
    assert(ids@.take(ids.len() as int) =~= ids@);
    r
}

impl MergedTree {
    /// The names that occur in any of the trees, in order.
    pub(crate) fn names_in(&self, store: &Store) -> (r: Vec<RepoPathComponent>)
        requires
            self@.valid(store@),
        ensures
            crate::repo_path::names_of(r@) == self@.names(store@),
    {
        match self {
            MergedTree::Legacy(id) => match store.get_tree(*id) {
                Ok(tree) => tree.names(),
                Err(_) => Vec::new(),
            },
            MergedTree::Merge(trees) => {
                let a = names_in(store, trees.adds());
                let b = names_in(store, trees.removes());
                union_names(&a, &b)
            },
        }
    }

    /// The tree to walk into under a name whose value `v` is a directory.
    fn walk_child(&self, v: &Merge<Option<TreeValue>>) -> (r: MergedTree)
        requires
            v.wf(),
        ensures
            r@ == self@.walk_child(v@),
    {
        match self {
            MergedTree::Legacy(_) => {
                if v.is_resolved() {
                    let trees = to_tree_terms(v);
                    assert(trees@.adds[0] == tree_of(v@.adds[0]));
                    return MergedTree::Legacy(trees.adds()[0]);
                }
            },
            _ => {},
        }
        MergedTree::Merge(to_tree_terms(v))
    }

    /// Appends the entries below `prefix` to `out`.
    fn collect_entries(
        &self,
        store: &Store,
        prefix: &RepoPath,
        out: &mut Vec<(RepoPath, Merge<Option<TreeValue>>)>,
    )
        requires
            store.wf(),
            self@.valid(store@),
        ensures
            entries_view(final(out)@) == entries_view(old(out)@) + self@.entries(
                store@,
                prefix@,
            ),
        decreases self@.rank(),
    {
        let names = self.names_in(store);
        let ghost all = crate::repo_path::names_of(names@);
        let ghost start = entries_view(out@);
        let mut i: usize = 0;
        assert(start + self@.entries_from(store@, prefix@, all, 0) == start + self@.entries(
            store@,
            prefix@,
        ));
        while i < names.len()
            invariant
                store.wf(),
                self@.valid(store@),
                i <= names.len(),
                all == crate::repo_path::names_of(names@),
                entries_view(out@) + self@.entries_from(store@, prefix@, all, i as int) == start
                    + self@.entries(store@, prefix@),
            decreases names.len() - i,
        {
            let ghost before = entries_view(out@);
            let ghost here = self@.entries_at(store@, prefix@, all[i as int]);
            let ghost rest = self@.entries_from(store@, prefix@, all, i + 1);
            assert(self@.entries_from(store@, prefix@, all, i as int) == here + rest);
            let v = self.value_in(store, &names[i]);
            let path = prefix.join(&names[i]);
            if is_tree(&v) {
                let child = self.walk_child(&v);
                proof {
                    lemma_walk_child(store@, self@, all[i as int]);
                }
                child.collect_entries(store, &path, out);
            } else if has_present_term(&v) {
                out.push((path, v));
                assert(entries_view(out@) =~= before + here);
            } else {
                assert(entries_view(out@) =~= before + here);
            }
            assert((before + here) + rest =~= before + (here + rest));
            i += 1;
        }
        assert(entries_view(out@) + Seq::<EntryView>::empty() =~= entries_view(out@));
    }

    /// Every path that holds a value which is no directory and has an entry
    /// among its terms, with that value, in the order of the walk. Fails
    /// where the store lacks one of the trees.
    pub fn entries(&self, store: &Store) -> (r: Result<
        Vec<(RepoPath, Merge<Option<TreeValue>>)>,
        BackendError,
    >)
        requires
            store.wf(),
            self.wf(),
        ensures
            match r {
                Ok(list) => {
                    &&& self@.valid(store@)
                    &&& entries_view(list@) == self@.entries(store@, Seq::empty())
                    &&& crate::walk_laws::rising_paths(
                        crate::walk_laws::entry_paths(entries_view(list@)),
                    )
                },
                Err(e) => !self@.valid(store@) && e == BackendError::ObjectNotFound,
            },
    {
        if !self.is_in(store) {
            return Err(BackendError::ObjectNotFound);
        }
        let mut out: Vec<(RepoPath, Merge<Option<TreeValue>>)> = Vec::new();
        let root = RepoPath::root();
        proof {
            crate::walk_laws::lemma_entries_rising(store@, self@, Seq::empty());
        }
        self.collect_entries(store, &root, &mut out);
        assert(entries_view(Seq::empty()) + self@.entries(store@, root@) =~= self@.entries(
            store@,
            root@,
        ));
        Ok(out)
    }
}


/// The tree found under a name when following a path is a tree of the store.
pub proof fn lemma_sub_tree_valid(st: StoreView, tree: MergedTreeView, name: Seq<u8>)
    requires
        st.wf(),
        tree.valid(st),
        tree.sub_tree(st, name).is_some(),
    ensures
        tree.sub_tree(st, name).unwrap().valid(st),
{
    lemma_value_below(st, tree, name);
    lemma_rank_in_store(st, tree);
    lemma_child_of_terms(st, tree.value(st, name), tree.rank());
    if let MergedTreeView::Legacy(id) = tree {
        lemma_entry_below(st, id, name);
    }
}

/// A list none of whose items satisfies the test has nothing left when filtered.
pub proof fn lemma_filter_none<T>(items: Seq<T>, keep: spec_fn(T) -> bool)
    requires
        forall|k: int| 0 <= k < items.len() ==> !keep(items[k]),
    ensures
        items.filter(keep) == Seq::<T>::empty(),
    decreases items.len(),
{
    reveal(Seq::filter);
    if items.len() > 0 {
        assert forall|k: int| 0 <= k < items.drop_last().len() implies !keep(
            items.drop_last()[k],
        ) by {
            assert(items.drop_last()[k] == items[k]);
        }
        lemma_filter_none(items.drop_last(), keep);
        assert(!keep(items[items.len() - 1]));
    }
}

/// A copy of one walked entry.
fn copy_entry(e: &(RepoPath, Merge<Option<TreeValue>>)) -> (r: (
    RepoPath,
    Merge<Option<TreeValue>>,
))
    ensures
        r.0@ == e.0@,
        r.1@ == e.1@,
{
    (e.0.clone(), e.1.clone())
}

impl MergedTree {
    /// The tree under `name` for following a path, on a tree that the store holds.
    fn sub_tree_in(&self, store: &Store, name: &RepoPathComponent) -> (r: Option<MergedTree>)
        requires
            store.wf(),
            self@.valid(store@),
        ensures
            match r {
                Some(sub) => self@.sub_tree(store@, name@) == Some(sub@) && sub@.valid(store@),
                None => self@.sub_tree(store@, name@).is_none(),
            },
    {
        proof {
            if self@.sub_tree(store@, name@).is_some() {
                lemma_sub_tree_valid(store@, self@, name@);
            }
        }
        match self {
            MergedTree::Legacy(id) => {
                let entry = match store.get_tree(*id) {
                    Ok(tree) => tree.value(name),
                    Err(_) => None,
                };
                match entry {
                    Some(TreeValue::Tree(sub)) => Some(MergedTree::Legacy(sub)),
                    _ => None,
                }
            },
            MergedTree::Merge(_) => {
                let v = self.value_in(store, name);
                let a = scan_terms(v.adds());
                let r = scan_terms(v.removes());
                if a.0 || r.0 {
                    Some(MergedTree::Merge(to_tree_terms(&v)))
                } else {
                    None
                }
            },
        }
    }

    /// The tree under `name` for following a path, if there is one. Fails
    /// where the store lacks one of the trees.
    pub fn sub_tree(&self, store: &Store, name: &RepoPathComponent) -> (r: Result<
        Option<MergedTree>,
        BackendError,
    >)
        requires
            store.wf(),
            self.wf(),
        ensures
            match r {
                Ok(Some(sub)) => self@.valid(store@) && self@.sub_tree(store@, name@) == Some(
                    sub@,
                ) && sub@.valid(store@),
                Ok(None) => self@.valid(store@) && self@.sub_tree(store@, name@).is_none(),
                Err(e) => !self@.valid(store@) && e == BackendError::ObjectNotFound,
            },
    {
        if !self.is_in(store) {
            return Err(BackendError::ObjectNotFound);
        }
        Ok(self.sub_tree_in(store, name))
    }

    /// The value at the root: the trees themselves.
    fn root_value(&self) -> (r: Merge<Option<TreeValue>>)
        requires
            self.wf(),
        ensures
            r@ == self@.root_value(),
            r.wf(),
    {
        match self {
            MergedTree::Legacy(id) => Merge::resolved(Some(TreeValue::Tree(*id))),
            MergedTree::Merge(trees) => Merge::new(
                tree_values(trees.removes()),
                tree_values(trees.adds()),
            ),
        }
    }

    /// The value at `path`, "no entry" where the path leaves the tree. Fails
    /// where the store lacks one of the trees.
    pub fn path_value(&self, store: &Store, path: &RepoPath) -> (r: Result<
        Merge<Option<TreeValue>>,
        BackendError,
    >)
        requires
            store.wf(),
            self.wf(),
        ensures
            match r {
                Ok(v) => self@.valid(store@) && v@ == self@.path_value(store@, path@) && v.wf(),
                Err(e) => !self@.valid(store@) && e == BackendError::ObjectNotFound,
            },
    {
        if !self.is_in(store) {
            return Err(BackendError::ObjectNotFound);
        }
        let names = path.components();
        if names.len() == 0 {
            return Ok(self.root_value());
        }
        let mut cur = self.id();
        let mut i: usize = 0;
        assert(path@.skip(0) =~= path@);
        while i + 1 < names.len()
            invariant
                store.wf(),
                self@.valid(store@),
                cur@.valid(store@),
                i < names.len(),
                crate::repo_path::names_of(names@) == path@,
                cur@.path_value(store@, path@.skip(i as int)) == self@.path_value(store@, path@),
            decreases names.len() - i,
        {
            let ghost rest = path@.skip(i as int);
            assert(rest[0] == names@[i as int]@);
            assert(rest.len() >= 2);
            assert(rest.skip(1) =~= path@.skip(i + 1));
            match cur.sub_tree_in(store, &names[i]) {
                Some(sub) => {
                    cur = sub;
                },
                None => {
                    return Ok(Merge::absent());
                },
            }
            i += 1;
        }
        let ghost rest = path@.skip(i as int);
        assert(rest.len() == 1 && rest[0] == names@[i as int]@);
        Ok(cur.value_in(store, &names[i]))
    }

    /// Appends the entries below `prefix` that the filter lets through to
    /// `out`. Directories that the filter does not visit are not entered.
    fn collect_matching(
        &self,
        store: &Store,
        prefix: &RepoPath,
        matcher: &Matcher,
        out: &mut Vec<(RepoPath, Merge<Option<TreeValue>>)>,
    )
        requires
            store.wf(),
            self@.valid(store@),
        ensures
            entries_view(final(out)@) == entries_view(old(out)@) + self@.entries(
                store@,
                prefix@,
            ).filter(|e: EntryView| matcher@.matches(e.0)),
        decreases self@.rank(),
    {
        let names = self.names_in(store);
        let ghost all = crate::repo_path::names_of(names@);
        let ghost start = entries_view(out@);
        let ghost pred = |e: EntryView| matcher@.matches(e.0);
        let mut i: usize = 0;
        assert(self@.entries_from(store@, prefix@, all, 0) == self@.entries(store@, prefix@));
        while i < names.len()
            invariant
                store.wf(),
                self@.valid(store@),
                i <= names.len(),
                all == crate::repo_path::names_of(names@),
                pred == (|e: EntryView| matcher@.matches(e.0)),
                entries_view(out@) + self@.entries_from(store@, prefix@, all, i as int).filter(pred)
                    == start + self@.entries(store@, prefix@).filter(pred),
            decreases names.len() - i,
        {
            let ghost before = entries_view(out@);
            let ghost here = self@.entries_at(store@, prefix@, all[i as int]);
            let ghost rest = self@.entries_from(store@, prefix@, all, i + 1);
            assert(self@.entries_from(store@, prefix@, all, i as int) == here + rest);
            proof {
                Seq::filter_distributes_over_add(here, rest, pred);
            }
            let v = self.value_in(store, &names[i]);
            let path = prefix.join(&names[i]);
            if is_tree(&v) {
                let child = self.walk_child(&v);
                proof {
                    lemma_walk_child(store@, self@, all[i as int]);
                }
                if matcher.visits(&path) {
                    child.collect_matching(store, &path, matcher, out);
                } else {
                    proof {
                        crate::walk_laws::lemma_entries_rising(store@, child@, path@);
                        assert forall|k: int| 0 <= k < here.len() implies !pred(here[k]) by {
                            crate::matchers::lemma_unvisited(matcher@, path@, here[k].0);
                        }
                        lemma_filter_none(here, pred);
                    }
                }
                assert(entries_view(out@) =~= before + here.filter(pred));
            } else {
                proof {
                    reveal_with_fuel(Seq::filter, 2);
                    if any_present(v@) {
                        assert(here.drop_last() =~= Seq::<EntryView>::empty());
                    }
                }
                if has_present_term(&v) && matcher.matches(&path) {
                    out.push((path, v));
                }
                assert(entries_view(out@) =~= before + here.filter(pred));
            }
            assert((before + here.filter(pred)) + rest.filter(pred) =~= before + (here.filter(pred)
                + rest.filter(pred)));
            i += 1;
        }
        proof {
            reveal(Seq::filter);
            assert(entries_view(out@) + Seq::<EntryView>::empty() =~= entries_view(out@));
        }
    }

    /// The entries of the walk that the filter lets through; directories
    /// that the filter does not visit are not entered. Fails where the store
    /// lacks one of the trees.
    pub fn entries_matching(&self, store: &Store, matcher: &Matcher) -> (r: Result<
        Vec<(RepoPath, Merge<Option<TreeValue>>)>,
        BackendError,
    >)
        requires
            store.wf(),
            self.wf(),
        ensures
            match r {
                Ok(list) => {
                    &&& self@.valid(store@)
                    &&& entries_view(list@) == self@.entries_matching(store@, matcher@)
                    &&& crate::walk_laws::rising_paths(
                        crate::walk_laws::entry_paths(entries_view(list@)),
                    )
                },
                Err(e) => !self@.valid(store@) && e == BackendError::ObjectNotFound,
            },
    {
        if !self.is_in(store) {
            return Err(BackendError::ObjectNotFound);
        }
        proof {
            crate::walk_laws::lemma_filtered_walks_rising(store@, self@, matcher@);
        }
        let mut out: Vec<(RepoPath, Merge<Option<TreeValue>>)> = Vec::new();
        let root = RepoPath::root();
        self.collect_matching(store, &root, matcher, &mut out);
        assert(entries_view(Seq::empty()) + self@.entries_matching(store@, matcher@)
            =~= self@.entries_matching(store@, matcher@));
        Ok(out)
    }

    /// The paths whose value is not resolved, with that value, in the order
    /// of the walk. Fails where the store lacks one of the trees.
    pub fn conflicts(&self, store: &Store) -> (r: Result<
        Vec<(RepoPath, Merge<Option<TreeValue>>)>,
        BackendError,
    >)
        requires
            store.wf(),
            self.wf(),
        ensures
            match r {
                Ok(list) => {
                    &&& self@.valid(store@)
                    &&& entries_view(list@) == self@.conflicts(store@)
                    &&& crate::walk_laws::rising_paths(
                        crate::walk_laws::entry_paths(entries_view(list@)),
                    )
                },
                Err(e) => !self@.valid(store@) && e == BackendError::ObjectNotFound,
            },
    {
        proof {
            if self@.valid(store@) {
                crate::walk_laws::lemma_filtered_walks_rising(store@, self@, MatcherView::Everything);
            }
        }
        let all = match self.entries(store) {
            Ok(all) => all,
            Err(e) => {
                return Err(e);
            },
        };
        let ghost pred = |e: EntryView| !e.1.is_resolved();
        let ghost src = entries_view(all@);
        let mut out: Vec<(RepoPath, Merge<Option<TreeValue>>)> = Vec::new();
        let mut i: usize = 0;
        proof {
            reveal(Seq::filter);
            assert(src.take(0) =~= Seq::<EntryView>::empty());
            assert(entries_view(out@) =~= src.take(0).filter(pred));
        }
        while i < all.len()
            invariant
                i <= all.len(),
                src == entries_view(all@),
                pred == (|e: EntryView| !e.1.is_resolved()),
                entries_view(out@) == src.take(i as int).filter(pred),
            decreases all.len() - i,
        {
            let ghost before = entries_view(out@);
            proof {
                reveal(Seq::filter);
                assert(src.take(i + 1).drop_last() =~= src.take(i as int));
                assert(src.take(i + 1).last() == src[i as int]);
            }
            if !all[i].1.is_resolved() {
                out.push(copy_entry(&all[i]));
                assert(entries_view(out@) =~= before.push(src[i as int]));
            }
            i += 1;
        }
        assert(src.take(all.len() as int) =~= src);
        Ok(out)
    }
}

/// The subtree entries that name the trees of a list.
fn tree_values(ids: &Vec<TreeId>) -> (r: Vec<Option<TreeValue>>)
    ensures
        r@ == ids@.map_values(|id: TreeId| Some(TreeValue::Tree(id))),
{
    let mut r: Vec<Option<TreeValue>> = Vec::new();
    let mut i: usize = 0;
    while i < ids.len()
        invariant
            i <= ids.len(),
            r.len() == i,
            forall|k: int| 0 <= k < i ==> r@[k] == Some(TreeValue::Tree(ids@[k])),
        decreases ids.len() - i,
    {
        r.push(Some(TreeValue::Tree(ids[i])));
        i += 1;
    }
    assert(r@ =~= ids@.map_values(|id: TreeId| Some(TreeValue::Tree(id))));
    r
}


/// Exchanging left and right in two lists of differences exchanges them in
/// the joined list.
pub proof fn lemma_mirror_add(a: Seq<DiffView>, b: Seq<DiffView>)
    ensures
        mirror(a + b) == mirror(a) + mirror(b),
{
    assert(mirror(a + b) =~= mirror(a) + mirror(b));
}

/// What is reported for a path itself is the same with the sides exchanged.
pub proof fn lemma_diff_leaf_mirror(path: PathView, lv: ValueTerms, rv: ValueTerms)
    ensures
        diff_leaf(path, rv, lv) == mirror(diff_leaf(path, lv, rv)),
{
    assert(diff_leaf(path, rv, lv) =~= mirror(diff_leaf(path, lv, rv)));
}

/// The differences under one name, with the trees exchanged, are the same
/// differences with left and right exchanged in each.
pub proof fn lemma_diff_at_mirror(
    left: MergedTreeView,
    right: MergedTreeView,
    st: StoreView,
    prefix: PathView,
    name: Seq<u8>,
)
    ensures
        right.diff_at(left, st, prefix, name) == mirror(left.diff_at(right, st, prefix, name)),
    decreases left.rank() + right.rank(), 0nat, 0nat,
{
    let lv = left.value(st, name);
    let rv = right.value(st, name);
    let path = prefix.push(name);
    if lv == rv {
        assert(mirror(Seq::<DiffView>::empty()) =~= Seq::<DiffView>::empty());
    } else {
        let lc = left.diff_child(lv);
        let rc = right.diff_child(rv);
        lemma_diff_leaf_mirror(path, lv, rv);
        if (is_tree_value(lv) || is_tree_value(rv)) && lc.rank() + rc.rank() < left.rank()
            + right.rank() {
            lemma_diff_mirror(lc, rc, st, path);
            lemma_mirror_add(diff_leaf(path, lv, rv), lc.diff(rc, st, path));
        } else {
            lemma_mirror_add(diff_leaf(path, lv, rv), Seq::empty());
            assert(mirror(Seq::<DiffView>::empty()) =~= Seq::<DiffView>::empty());
        }
    }
}

/// The same for the differences under a list of names.
pub proof fn lemma_diff_from_mirror(
    left: MergedTreeView,
    right: MergedTreeView,
    st: StoreView,
    prefix: PathView,
    names: Seq<Seq<u8>>,
    i: int,
)
    ensures
        right.diff_from(left, st, prefix, names, i) == mirror(
            left.diff_from(right, st, prefix, names, i),
        ),
    decreases left.rank() + right.rank(), 1nat, names.len() - i,
{
    if i < 0 || i >= names.len() {
        assert(mirror(Seq::<DiffView>::empty()) =~= Seq::<DiffView>::empty());
    } else {
        lemma_diff_at_mirror(left, right, st, prefix, names[i]);
        lemma_diff_from_mirror(left, right, st, prefix, names, i + 1);
        lemma_mirror_add(
            left.diff_at(right, st, prefix, names[i]),
            left.diff_from(right, st, prefix, names, i + 1),
        );
    }
}

/// Diff symmetry: the diff of two trees taken the other way round reports
/// the same paths in the same order, with left and right exchanged at each.
pub proof fn lemma_diff_mirror(
    left: MergedTreeView,
    right: MergedTreeView,
    st: StoreView,
    prefix: PathView,
)
    ensures
        right.diff(left, st, prefix) == mirror(left.diff(right, st, prefix)),
    decreases left.rank() + right.rank(), 2nat, 0nat,
{
    crate::names::lemma_union_commutes(left.names(st), right.names(st), 0, 0);
    lemma_diff_from_mirror(left, right, st, prefix, union(left.names(st), right.names(st)), 0);
}

/// Filtering by path and exchanging left and right can be done in either order.
pub proof fn lemma_mirror_filter(d: Seq<DiffView>, matcher: MatcherView)
    ensures
        mirror(d).filter(|e: DiffView| matcher.matches(e.0)) == mirror(
            d.filter(|e: DiffView| matcher.matches(e.0)),
        ),
    decreases d.len(),
{
    reveal(Seq::filter);
    let pred = |e: DiffView| matcher.matches(e.0);
    if d.len() == 0 {
        assert(mirror(d) =~= Seq::<DiffView>::empty());
        assert(mirror(d.filter(pred)) =~= Seq::<DiffView>::empty());
    } else {
        lemma_mirror_filter(d.drop_last(), matcher);
        assert(mirror(d).drop_last() =~= mirror(d.drop_last()));
        assert(mirror(d).last() == (d.last().0, d.last().2, d.last().1));
        if pred(d.last()) {
            assert(mirror(d.drop_last().filter(pred).push(d.last())) =~= mirror(
                d.drop_last().filter(pred),
            ).push(mirror(d).last()));
        }
    }
}

/// Diff symmetry under a filter: the filtered diff taken the other way round
/// reports the same paths in the same order, with left and right exchanged.
pub proof fn lemma_diff_matching_mirror(
    left: MergedTreeView,
    right: MergedTreeView,
    st: StoreView,
    matcher: MatcherView,
)
    ensures
        right.diff_matching(left, st, matcher) == mirror(left.diff_matching(right, st, matcher)),
{
    lemma_diff_mirror(left, right, st, Seq::empty());
    lemma_mirror_filter(left.diff(right, st, Seq::empty()), matcher);
}


/// What a list of differences holds.
pub open spec fn diff_view(
    list: Seq<(RepoPath, Merge<Option<TreeValue>>, Merge<Option<TreeValue>>)>,
) -> Seq<DiffView> {
    Seq::new(list.len(), |i: int| (list[i].0@, list[i].1@, list[i].2@))
}

/// The single, empty tree is in every store and has the lowest rank.
pub proof fn lemma_empty_merge(st: StoreView)
    requires
        st.wf(),
    ensures
        empty_merge().valid(st),
        empty_merge().rank() == 0,
{
    let ids = seq![empty_tree()];
    assert(ids.drop_last() =~= Seq::<TreeId>::empty());
    assert(max_id(ids) == 0) by {
        reveal_with_fuel(max_id, 2);
    }
}

/// The trees that a diff walks into are trees of the store, and their ranks
/// together are smaller where one of the values is a directory.
pub proof fn lemma_diff_children(
    st: StoreView,
    left: MergedTreeView,
    right: MergedTreeView,
    name: Seq<u8>,
)
    requires
        st.wf(),
        left.valid(st),
        right.valid(st),
    ensures
        ({
            let lv = left.value(st, name);
            let rv = right.value(st, name);
            let lc = left.diff_child(lv);
            let rc = right.diff_child(rv);
            &&& lc.valid(st)
            &&& rc.valid(st)
            &&& (is_tree_value(lv) || is_tree_value(rv)) ==> lc.rank() + rc.rank() < left.rank()
                + right.rank()
        }),
{
    lemma_empty_merge(st);
    if is_tree_value(left.value(st, name)) {
        lemma_walk_child(st, left, name);
    }
    if is_tree_value(right.value(st, name)) {
        lemma_walk_child(st, right, name);
    }
}

impl MergedTree {
    /// The tree that a diff walks into on this side.
    fn diff_child(&self, v: &Merge<Option<TreeValue>>) -> (r: MergedTree)
        requires
            v.wf(),
        ensures
            r@ == self@.diff_child(v@),
    {
        if is_tree(v) {
            self.walk_child(v)
        } else {
            MergedTree::resolved(TreeId(0))
        }
    }

    /// Appends the differences below `prefix` that the filter lets through to
    /// `out`. Directories that the filter does not visit are not entered.
    fn collect_diff(
        &self,
        right: &MergedTree,
        store: &Store,
        prefix: &RepoPath,
        matcher: &Matcher,
        out: &mut Vec<(RepoPath, Merge<Option<TreeValue>>, Merge<Option<TreeValue>>)>,
    )
        requires
            store.wf(),
            self@.valid(store@),
            right@.valid(store@),
        ensures
            diff_view(final(out)@) == diff_view(old(out)@) + self@.diff(
                right@,
                store@,
                prefix@,
            ).filter(|d: DiffView| matcher@.matches(d.0)),
        decreases self@.rank() + right@.rank(),
    {
        let left_names = self.names_in(store);
        let right_names = right.names_in(store);
        let names = union_names(&left_names, &right_names);
        let ghost all = crate::repo_path::names_of(names@);
        let ghost start = diff_view(out@);
        let ghost pred = |d: DiffView| matcher@.matches(d.0);
        let mut i: usize = 0;
        proof {
            lemma_values_compare_by_content();
        }
        assert(self@.diff_from(right@, store@, prefix@, all, 0) == self@.diff(
            right@,
            store@,
            prefix@,
        ));
        while i < names.len()
            invariant
                store.wf(),
                self@.valid(store@),
                right@.valid(store@),
                i <= names.len(),
                all == crate::repo_path::names_of(names@),
                pred == (|d: DiffView| matcher@.matches(d.0)),
                vstd::laws_eq::obeys_concrete_eq::<Option<TreeValue>>(),
                diff_view(out@) + self@.diff_from(right@, store@, prefix@, all, i as int).filter(
                    pred,
                ) == start + self@.diff(right@, store@, prefix@).filter(pred),
            decreases names.len() - i,
        {
            let ghost before = diff_view(out@);
            let ghost here = self@.diff_at(right@, store@, prefix@, all[i as int]);
            let ghost rest = self@.diff_from(right@, store@, prefix@, all, i + 1);
            assert(self@.diff_from(right@, store@, prefix@, all, i as int) == here + rest);
            proof {
                Seq::filter_distributes_over_add(here, rest, pred);
            }
            let lv = self.value_in(store, &names[i]);
            let rv = right.value_in(store, &names[i]);
            if !lv.same_terms(&rv) {
                let path = prefix.join(&names[i]);
                let lt = is_tree(&lv);
                let rt = is_tree(&rv);
                let lc = self.diff_child(&lv);
                let rc = right.diff_child(&rv);
                let ghost leaf = diff_leaf(path@, lv@, rv@);
                let ghost below = if lt || rt {
                    lc@.diff(rc@, store@, path@)
                } else {
                    Seq::<DiffView>::empty()
                };
                proof {
                    lemma_diff_children(store@, self@, right@, all[i as int]);
                    assert(here == leaf + below);
                    Seq::filter_distributes_over_add(leaf, below, pred);
                    reveal_with_fuel(Seq::filter, 2);
                    if leaf.len() > 0 {
                        assert(leaf.drop_last() =~= Seq::<DiffView>::empty());
                    }
                }
                if matcher.matches(&path) {
                    if lt && rt {
                    } else if rt {
                        if has_present_term(&lv) {
                            out.push((path.clone(), lv, Merge::absent()));
                        }
                    } else if lt {
                        if has_present_term(&rv) {
                            out.push((path.clone(), Merge::absent(), rv));
                        }
                    } else {
                        out.push((path.clone(), lv, rv));
                    }
                }
                assert(diff_view(out@) =~= before + leaf.filter(pred));
                if lt || rt {
                    if matcher.visits(&path) {
                        lc.collect_diff(&rc, store, &path, matcher, out);
                    } else {
                        proof {
                            crate::walk_laws::lemma_diff_rising(lc@, rc@, store@, path@);
                            assert forall|k: int| 0 <= k < below.len() implies !pred(below[k]) by {
                                crate::matchers::lemma_unvisited(matcher@, path@, below[k].0);
                            }
                            lemma_filter_none(below, pred);
                        }
                    }
                } else {
                    proof {
                        reveal(Seq::filter);
                    }
                }
                assert(diff_view(out@) =~= before + (leaf.filter(pred) + below.filter(pred)));
            } else {
                proof {
                    reveal(Seq::filter);
                }
                assert(diff_view(out@) =~= before + here.filter(pred));
            }
            assert((before + here.filter(pred)) + rest.filter(pred) =~= before + (here.filter(pred)
                + rest.filter(pred)));
            i += 1;
        }
        proof {
            reveal(Seq::filter);
            assert(diff_view(out@) + Seq::<DiffView>::empty() =~= diff_view(out@));
        }
    }

    /// Every path at which this tree and `other` differ and which the filter
    /// lets through, with the value here and the value there, in rising
    /// order of the paths. Subtrees that are the same on both sides are not
    /// entered, nor are directories that the filter does not visit. Fails
    /// where the store lacks one of the trees of either side.
    pub fn diff(&self, store: &Store, other: &MergedTree, matcher: &Matcher) -> (r: Result<
        Vec<(RepoPath, Merge<Option<TreeValue>>, Merge<Option<TreeValue>>)>,
        BackendError,
    >)
        requires
            store.wf(),
            self.wf(),
            other.wf(),
        ensures
            match r {
                Ok(list) => {
                    &&& self@.valid(store@)
                    &&& other@.valid(store@)
                    &&& diff_view(list@) == self@.diff_matching(other@, store@, matcher@)
                    &&& crate::walk_laws::rising_paths(crate::walk_laws::diff_paths(diff_view(list@)))
                },
                Err(e) => !(self@.valid(store@) && other@.valid(store@)) && e
                    == BackendError::ObjectNotFound,
            },
    {
        if !self.is_in(store) || !other.is_in(store) {
            return Err(BackendError::ObjectNotFound);
        }
        proof {
            crate::walk_laws::lemma_diff_matching_rising(self@, other@, store@, matcher@);
        }
        let mut out: Vec<(RepoPath, Merge<Option<TreeValue>>, Merge<Option<TreeValue>>)> =
            Vec::new();
        let root = RepoPath::root();
        self.collect_diff(other, store, &root, matcher, &mut out);
        assert(diff_view(Seq::empty()) + self@.diff_matching(other@, store@, matcher@)
            =~= self@.diff_matching(other@, store@, matcher@));
        Ok(out)
    }
}

} // verus!
