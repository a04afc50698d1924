//! A content-addressed store held in memory: equal contents get one identifier.
use vstd::prelude::*;
use crate::backend::{BackendError, ConflictId, FileId, SymlinkId, TreeId, TreeValue};
use crate::merge::{copy_items, same_items, Merge, MergeView};
use crate::tree::{tree_sorted, Tree, TreeView};

verus! {

/// The terms of a conflict between entry values; `None` stands for "no entry".
pub type ValueTerms = MergeView<Option<TreeValue>>;

/// What a store holds: file contents, symlink targets, single-level trees and
/// conflict records, each list indexed by the identifiers.
pub struct StoreView {
    pub files: Seq<Seq<u8>>,
    pub symlinks: Seq<Seq<u8>>,
    pub trees: Seq<TreeView>,
    pub conflicts: Seq<ValueTerms>,
}

/// No item occurs twice.
pub open spec fn distinct<T>(s: Seq<T>) -> bool {
    forall|i: int, j: int| 0 <= i < j < s.len() ==> #[trigger] s[i] != #[trigger] s[j]
}

impl StoreView {
    /// A term of a conflict record refers to stored objects only, and is not
    /// itself a conflict record. Trees it names have identifiers below `bound`
    /// and are not the empty tree: an empty directory is no entry.
    pub open spec fn term_ok(self, term: Option<TreeValue>, bound: int) -> bool {
        match term {
            None => true,
            Some(TreeValue::File { id, executable }) => id.0 < self.files.len(),
            Some(TreeValue::Symlink(id)) => id.0 < self.symlinks.len(),
            Some(TreeValue::Tree(id)) => 0 < id.0 < bound,
            Some(TreeValue::Conflict(id)) => false,
        }
    }

    /// All terms of a record are in order for the bound on tree identifiers.
    pub open spec fn terms_ok(self, terms: ValueTerms, bound: int) -> bool {
        &&& terms.wf()
        &&& forall|i: int| 0 <= i < terms.adds.len() ==> self.term_ok(#[trigger] terms.adds[i], bound)
        &&& forall|i: int|
            0 <= i < terms.removes.len() ==> self.term_ok(#[trigger] terms.removes[i], bound)
    }

    /// An entry value refers to stored objects only; trees it names, directly
    /// or through a conflict record, have identifiers below `bound`.
    pub open spec fn value_ok(self, value: TreeValue, bound: int) -> bool {
        match value {
            TreeValue::Conflict(id) => id.0 < self.conflicts.len() && self.terms_ok(
                self.conflicts[id.0 as int],
                bound,
            ),
            _ => self.term_ok(Some(value), bound),
        }
    }

    /// All entries of a directory are in order for the bound.
    pub open spec fn entries_ok(self, tree: TreeView, bound: int) -> bool {
        forall|k: int| 0 <= k < tree.len() ==> self.value_ok(#[trigger] tree[k].1, bound)
    }

    /// The store's invariant: the first tree is the empty one; every tree is
    /// ordered by name and names only objects written before it; every
    /// conflict record names only stored objects; no content is stored twice.
    pub open spec fn wf(self) -> bool {
        &&& self.trees.len() >= 1
        &&& self.trees[0].len() == 0
        &&& forall|i: int| 0 <= i < self.trees.len() ==> tree_sorted(#[trigger] self.trees[i])
        &&& forall|i: int|
            0 <= i < self.trees.len() ==> self.entries_ok(#[trigger] self.trees[i], i)
        &&& forall|c: int|
            0 <= c < self.conflicts.len() ==> self.terms_ok(
                #[trigger] self.conflicts[c],
                self.trees.len() as int,
            )
        &&& distinct(self.files)
        &&& distinct(self.symlinks)
        &&& distinct(self.trees)
        &&& distinct(self.conflicts)
    }

    /// `later` holds everything that this store holds, under the same identifiers.
    pub open spec fn extended_by(self, later: StoreView) -> bool {
        &&& self.files.is_prefix_of(later.files)
        &&& self.symlinks.is_prefix_of(later.symlinks)
        &&& self.trees.is_prefix_of(later.trees)
        &&& self.conflicts.is_prefix_of(later.conflicts)
    }

    /// The position of the first item of `list` that equals `item`.
    pub open spec fn index_in<T>(list: Seq<T>, item: T) -> int {
        choose|i: int| 0 <= i < list.len() && list[i] == item
    }

    /// The store after writing a tree, and the identifier given: that of the
    /// stored tree with these entries, or the next free one.
    pub open spec fn put_tree(self, tree: TreeView) -> (StoreView, TreeId) {
        if self.trees.contains(tree) {
            (self, TreeId(Self::index_in(self.trees, tree) as usize))
        } else {
            (
                StoreView {
                    files: self.files,
                    symlinks: self.symlinks,
                    trees: self.trees.push(tree),
                    conflicts: self.conflicts,
                },
                TreeId(self.trees.len() as usize),
            )
        }
    }

    /// The store after writing a file content, and the identifier given.
    pub open spec fn put_file(self, contents: Seq<u8>) -> (StoreView, FileId) {
        if self.files.contains(contents) {
            (self, FileId(Self::index_in(self.files, contents) as usize))
        } else {
            (
                StoreView {
                    files: self.files.push(contents),
                    symlinks: self.symlinks,
                    trees: self.trees,
                    conflicts: self.conflicts,
                },
                FileId(self.files.len() as usize),
            )
        }
    }

    /// The store after writing a conflict record, and the identifier given.
    pub open spec fn put_conflict(self, terms: ValueTerms) -> (StoreView, ConflictId) {
        if self.conflicts.contains(terms) {
            (self, ConflictId(Self::index_in(self.conflicts, terms) as usize))
        } else {
            (
                StoreView {
                    files: self.files,
                    symlinks: self.symlinks,
                    trees: self.trees,
                    conflicts: self.conflicts.push(terms),
                },
                ConflictId(self.conflicts.len() as usize),
            )
        }
    }

    /// The entries of the tree `id`.
    pub open spec fn tree(self, id: TreeId) -> TreeView {
        self.trees[id.0 as int]
    }
}

/// A store that grows keeps what was in order before.
pub proof fn lemma_extended_ok(old_store: StoreView, new_store: StoreView)
    requires
        old_store.extended_by(new_store),
    ensures
        forall|term: Option<TreeValue>, bound: int|
            old_store.term_ok(term, bound) ==> #[trigger] new_store.term_ok(term, bound),
        forall|terms: ValueTerms, bound: int|
            old_store.terms_ok(terms, bound) ==> #[trigger] new_store.terms_ok(terms, bound),
        forall|value: TreeValue, bound: int|
            old_store.value_ok(value, bound) ==> #[trigger] new_store.value_ok(value, bound),
        forall|tree: TreeView, bound: int|
            old_store.entries_ok(tree, bound) ==> #[trigger] new_store.entries_ok(tree, bound),
{
    assert forall|terms: ValueTerms, bound: int| old_store.terms_ok(terms, bound) implies #[trigger]
        new_store.terms_ok(terms, bound) by {
        assert forall|i: int| 0 <= i < terms.adds.len() implies new_store.term_ok(
            #[trigger] terms.adds[i],
            bound,
        ) by {
            assert(old_store.term_ok(terms.adds[i], bound));
        }
        assert forall|i: int| 0 <= i < terms.removes.len() implies new_store.term_ok(
            #[trigger] terms.removes[i],
            bound,
        ) by {
            assert(old_store.term_ok(terms.removes[i], bound));
        }
    }
    assert forall|value: TreeValue, bound: int| old_store.value_ok(value, bound) implies #[trigger]
        new_store.value_ok(value, bound) by {
        if let TreeValue::Conflict(id) = value {
            assert(old_store.conflicts[id.0 as int] == new_store.conflicts[id.0 as int]);
            assert(old_store.terms_ok(old_store.conflicts[id.0 as int], bound));
        }
    }
    assert forall|tree: TreeView, bound: int| old_store.entries_ok(tree, bound) implies #[trigger]
        new_store.entries_ok(tree, bound) by {
        assert forall|k: int| 0 <= k < tree.len() implies new_store.value_ok(
            #[trigger] tree[k].1,
            bound,
        ) by {
            assert(old_store.value_ok(tree[k].1, bound));
        }
    }
}

/// A larger bound on tree identifiers admits what a smaller one admits.
pub proof fn lemma_bound_grows(st: StoreView, small: int, large: int)
    requires
        small <= large,
    ensures
        forall|term: Option<TreeValue>| st.term_ok(term, small) ==> #[trigger] st.term_ok(term, large),
        forall|terms: ValueTerms| st.terms_ok(terms, small) ==> #[trigger] st.terms_ok(terms, large),
        forall|value: TreeValue| st.value_ok(value, small) ==> #[trigger] st.value_ok(value, large),
{
    assert forall|terms: ValueTerms| st.terms_ok(terms, small) implies #[trigger] st.terms_ok(
        terms,
        large,
    ) by {
        assert forall|i: int| 0 <= i < terms.adds.len() implies st.term_ok(
            #[trigger] terms.adds[i],
            large,
        ) by {
            assert(st.term_ok(terms.adds[i], small));
        }
        assert forall|i: int| 0 <= i < terms.removes.len() implies st.term_ok(
            #[trigger] terms.removes[i],
            large,
        ) by {
            assert(st.term_ok(terms.removes[i], small));
        }
    }
}

/// In a list without repetition an item stands at one position only.
pub proof fn lemma_index_in<T>(list: Seq<T>, item: T, p: int)
    requires
        distinct(list),
        0 <= p < list.len(),
        list[p] == item,
    ensures
        StoreView::index_in(list, item) == p,
        list.contains(item),
{
    let i = StoreView::index_in(list, item);
    assert(0 <= i < list.len() && list[i] == item);
    if i < p {
        assert(list[i] != list[p]);
    } else if p < i {
        assert(list[p] != list[i]);
    }
}

/// A list that holds `item` nowhere does not contain it.
pub proof fn lemma_not_contained<T>(list: Seq<T>, item: T)
    requires
        forall|k: int| 0 <= k < list.len() ==> list[k] != item,
    ensures
        !list.contains(item),
        distinct(list) ==> distinct(list.push(item)),
{
}

/// Appending one new, well-formed object keeps the store's invariant.
pub proof fn lemma_wf_grows(old_store: StoreView, new_store: StoreView)
    requires
        old_store.wf(),
        old_store.extended_by(new_store),
        distinct(new_store.files),
        distinct(new_store.symlinks),
        distinct(new_store.trees),
        distinct(new_store.conflicts),
        forall|i: int|
            old_store.trees.len() <= i < new_store.trees.len() ==> tree_sorted(
                #[trigger] new_store.trees[i],
            ) && new_store.entries_ok(new_store.trees[i], i),
        forall|c: int|
            old_store.conflicts.len() <= c < new_store.conflicts.len() ==> new_store.terms_ok(
                #[trigger] new_store.conflicts[c],
                new_store.trees.len() as int,
            ),
    ensures
        new_store.wf(),
{
    lemma_extended_ok(old_store, new_store);
    lemma_bound_grows(new_store, old_store.trees.len() as int, new_store.trees.len() as int);
    assert(new_store.trees[0] == old_store.trees[0]);
    assert forall|i: int| 0 <= i < new_store.trees.len() implies tree_sorted(
        #[trigger] new_store.trees[i],
    ) && new_store.entries_ok(new_store.trees[i], i) by {
        if i < old_store.trees.len() {
            assert(new_store.trees[i] == old_store.trees[i]);
            assert(old_store.entries_ok(old_store.trees[i], i));
        }
    }
    assert forall|c: int| 0 <= c < new_store.conflicts.len() implies new_store.terms_ok(
        #[trigger] new_store.conflicts[c],
        new_store.trees.len() as int,
    ) by {
        if c < old_store.conflicts.len() {
            assert(new_store.conflicts[c] == old_store.conflicts[c]);
            assert(old_store.terms_ok(old_store.conflicts[c], old_store.trees.len() as int));
            assert(new_store.terms_ok(old_store.conflicts[c], old_store.trees.len() as int));
        }
    }
}

/// Writing a well-formed tree whose entries the store holds keeps the
/// store's invariant and gives the identifier of a tree with these entries.
pub proof fn lemma_put_tree(st: StoreView, tree: TreeView)
    requires
        st.wf(),
        tree_sorted(tree),
        st.entries_ok(tree, st.trees.len() as int),
        st.put_tree(tree).0.trees.len() <= usize::MAX,
    ensures
        st.put_tree(tree).0.wf(),
        st.extended_by(st.put_tree(tree).0),
        st.put_tree(tree).1.0 < st.put_tree(tree).0.trees.len(),
        st.put_tree(tree).0.tree(st.put_tree(tree).1) == tree,
        st.put_tree(tree).0.files == st.files,
        st.put_tree(tree).0.symlinks == st.symlinks,
        st.put_tree(tree).0.conflicts == st.conflicts,
{
    let (st1, id) = st.put_tree(tree);
    if st.trees.contains(tree) {
        let i = StoreView::index_in(st.trees, tree);
        assert(0 <= i < st.trees.len() && st.trees[i] == tree);
    } else {
        lemma_extended_ok(st, st1);
        lemma_bound_grows(st1, st.trees.len() as int, st1.trees.len() as int);
        assert forall|c: int| st.conflicts.len() <= c < st1.conflicts.len() implies st1.terms_ok(
            #[trigger] st1.conflicts[c],
            st1.trees.len() as int,
        ) by {}
        lemma_wf_grows(st, st1);
    }
}

/// Writing a file content keeps the store's invariant and gives the
/// identifier of a file with this content.
pub proof fn lemma_put_file(st: StoreView, contents: Seq<u8>)
    requires
        st.wf(),
        st.put_file(contents).0.files.len() <= usize::MAX,
    ensures
        st.put_file(contents).0.wf(),
        st.extended_by(st.put_file(contents).0),
        st.put_file(contents).1.0 < st.put_file(contents).0.files.len(),
        st.put_file(contents).0.files[st.put_file(contents).1.0 as int] == contents,
        st.put_file(contents).0.trees == st.trees,
        st.put_file(contents).0.symlinks == st.symlinks,
        st.put_file(contents).0.conflicts == st.conflicts,
{
    let (st1, id) = st.put_file(contents);
    if st.files.contains(contents) {
        let i = StoreView::index_in(st.files, contents);
        assert(0 <= i < st.files.len() && st.files[i] == contents);
    } else {
        lemma_extended_ok(st, st1);
        assert forall|i: int| st.trees.len() <= i < st1.trees.len() implies tree_sorted(
            #[trigger] st1.trees[i],
        ) && st1.entries_ok(st1.trees[i], i) by {}
        assert forall|c: int| st.conflicts.len() <= c < st1.conflicts.len() implies st1.terms_ok(
            #[trigger] st1.conflicts[c],
            st1.trees.len() as int,
        ) by {}
        lemma_wf_grows(st, st1);
    }
}

/// The position of `item` in `list`, or the length of the list.
fn find_bytes(list: &Vec<Vec<u8>>, item: &Vec<u8>) -> (p: usize)
    ensures
        p <= list.len(),
        p < list.len() ==> list@[p as int]@ == item@,
        forall|k: int| 0 <= k < p ==> list@[k]@ != item@,
{
    proof {
        reveal(vstd::laws_eq::obeys_concrete_eq);
        assert(vstd::laws_eq::obeys_concrete_eq::<u8>());
    }
    let mut p: usize = 0;
    while p < list.len()
        invariant
            p <= list.len(),
            forall|k: int| 0 <= k < p ==> list@[k]@ != item@,
            vstd::laws_eq::obeys_concrete_eq::<u8>(),
        decreases list.len() - p,
    {
        if same_items(&list[p], item) {
            return p;
        }
        p += 1;
    }
    p
}

/// The contents of a list of byte strings.
pub open spec fn bytes_of(list: Seq<Vec<u8>>) -> Seq<Seq<u8>> {
    Seq::new(list.len(), |i: int| list[i]@)
}

/// The contents of a list of trees.
pub open spec fn trees_of(list: Seq<Tree>) -> Seq<TreeView> {
    Seq::new(list.len(), |i: int| list[i]@)
}

/// The contents of a list of conflict records.
pub open spec fn records_of(list: Seq<Merge<Option<TreeValue>>>) -> Seq<ValueTerms> {
    Seq::new(list.len(), |i: int| list[i]@)
}

/// A content-addressed store in memory. Objects are never changed or
/// deleted; writing a content that is already stored gives its identifier.
#[derive(Debug)]
pub struct Store {
    files: Vec<Vec<u8>>,
    symlinks: Vec<Vec<u8>>,
    trees: Vec<Tree>,
    conflicts: Vec<Merge<Option<TreeValue>>>,
}

impl View for Store {
    type V = StoreView;

    closed spec fn view(&self) -> StoreView {
        StoreView {
            files: bytes_of(self.files@),
            symlinks: bytes_of(self.symlinks@),
            trees: trees_of(self.trees@),
            conflicts: records_of(self.conflicts@),
        }
    }
}

impl Store {
    /// The store's invariant holds.
    pub open spec fn wf(&self) -> bool {
        self@.wf()
    }

    /// A store that holds the empty tree and nothing else.
    pub fn new() -> (r: Store)
        ensures
            r.wf(),
            r@.files.len() == 0,
            r@.symlinks.len() == 0,
            r@.conflicts.len() == 0,
            r@.trees.len() == 1,
    {
        let mut trees: Vec<Tree> = Vec::new();
        trees.push(Tree::new());
        let r = Store { files: Vec::new(), symlinks: Vec::new(), trees, conflicts: Vec::new() };
        assert(r@.trees[0] == TreeView::empty());
        r
    }

    /// The identifier of the empty tree.
    pub fn empty_tree_id(&self) -> (id: TreeId)
        ensures
            id == TreeId(0),
    {
        TreeId(0)
    }

    /// Stores a file content and gives its identifier.
    pub fn write_file(&mut self, contents: &Vec<u8>) -> (id: FileId)
        requires
            old(self).wf(),
        ensures
            final(self).wf(),
            old(self)@.extended_by(final(self)@),
            id.0 < final(self)@.files.len(),
            final(self)@.files[id.0 as int] == contents@,
            final(self)@.symlinks == old(self)@.symlinks,
            final(self)@.trees == old(self)@.trees,
            final(self)@.conflicts == old(self)@.conflicts,
            old(self)@.files.contains(contents@) ==> final(self)@ == old(self)@,
            !old(self)@.files.contains(contents@) ==> final(self)@.files == old(self)@.files.push(
                contents@,
            ),
            (final(self)@, id) == old(self)@.put_file(contents@),
    {
        let p = find_bytes(&self.files, contents);
        if p < self.files.len() {
            proof {
                lemma_index_in(self@.files, contents@, p as int);
            }
            return FileId(p);
        }
        self.files.push(copy_items(contents));
        proof {
            assert(self@.files =~= old(self)@.files.push(contents@));
            assert(self@.symlinks =~= old(self)@.symlinks);
            assert(self@.trees =~= old(self)@.trees);
            assert(self@.conflicts =~= old(self)@.conflicts);
            lemma_not_contained(old(self)@.files, contents@);
            lemma_wf_grows(old(self)@, self@);
        }
        FileId(p)
    }

    /// The content of a stored file.
    pub fn read_file(&self, id: FileId) -> (r: Result<&Vec<u8>, BackendError>)
        ensures
            match r {
                Ok(contents) => id.0 < self@.files.len() && contents@ == self@.files[id.0 as int],
                Err(e) => id.0 >= self@.files.len() && e == BackendError::ObjectNotFound,
            },
    {
        if id.0 < self.files.len() {
            Ok(&self.files[id.0])
        } else {
            Err(BackendError::ObjectNotFound)
        }
    }

    /// Stores a symlink target and gives its identifier.
    pub fn write_symlink(&mut self, target: &Vec<u8>) -> (id: SymlinkId)
        requires
            old(self).wf(),
        ensures
            final(self).wf(),
            old(self)@.extended_by(final(self)@),
            id.0 < final(self)@.symlinks.len(),
            final(self)@.symlinks[id.0 as int] == target@,
            final(self)@.files == old(self)@.files,
            final(self)@.trees == old(self)@.trees,
            final(self)@.conflicts == old(self)@.conflicts,
            old(self)@.symlinks.contains(target@) ==> final(self)@ == old(self)@,
            !old(self)@.symlinks.contains(target@) ==> final(self)@.symlinks
                == old(self)@.symlinks.push(target@),
    {
        let p = find_bytes(&self.symlinks, target);
        if p < self.symlinks.len() {
            return SymlinkId(p);
        }
        self.symlinks.push(copy_items(target));
        proof {
            assert(self@.symlinks =~= old(self)@.symlinks.push(target@));
            assert(self@.files =~= old(self)@.files);
            assert(self@.trees =~= old(self)@.trees);
            assert(self@.conflicts =~= old(self)@.conflicts);
            lemma_not_contained(old(self)@.symlinks, target@);
            lemma_wf_grows(old(self)@, self@);
        }
        SymlinkId(p)
    }

    /// The target of a stored symlink.
    pub fn read_symlink(&self, id: SymlinkId) -> (r: Result<&Vec<u8>, BackendError>)
        ensures
            match r {
                Ok(target) => id.0 < self@.symlinks.len() && target@ == self@.symlinks[id.0 as int],
                Err(e) => id.0 >= self@.symlinks.len() && e == BackendError::ObjectNotFound,
            },
    {
        if id.0 < self.symlinks.len() {
            Ok(&self.symlinks[id.0])
        } else {
            Err(BackendError::ObjectNotFound)
        }
    }

    /// Whether a term of a conflict record names stored objects only.
    fn term_is_ok(&self, term: &Option<TreeValue>) -> (b: bool)
        ensures
            b == self@.term_ok(*term, self@.trees.len() as int),
    {
        match term {
            None => true,
            Some(TreeValue::File { id, executable }) => id.0 < self.files.len(),
            Some(TreeValue::Symlink(id)) => id.0 < self.symlinks.len(),
            Some(TreeValue::Tree(id)) => 0 < id.0 && id.0 < self.trees.len(),
            Some(TreeValue::Conflict(id)) => false,
        }
    }

    /// Whether all terms in a list name stored objects only.
    fn term_list_is_ok(&self, list: &Vec<Option<TreeValue>>) -> (b: bool)
        ensures
            b == (forall|i: int|
                0 <= i < list@.len() ==> self@.term_ok(
                    #[trigger] list@[i],
                    self@.trees.len() as int,
                )),
    {
        let mut i: usize = 0;
        while i < list.len()
            invariant
                i <= list.len(),
                forall|k: int|
                    0 <= k < i ==> self@.term_ok(#[trigger] list@[k], self@.trees.len() as int),
            decreases list.len() - i,
        {
            if !self.term_is_ok(&list[i]) {
                return false;
            }
            i += 1;
        }
        true
    }

    /// Whether an entry value names stored objects only, so that a tree
    /// holding it can be written.
    pub fn holds_value(&self, value: &TreeValue) -> (b: bool)
        requires
            self.wf(),
        ensures
            b == self@.value_ok(*value, self@.trees.len() as int),
    {
        match value {
            TreeValue::Conflict(id) => id.0 < self.conflicts.len(),
            v => self.term_is_ok(&Some(*v)),
        }
    }

    /// Whether terms can be written as a conflict record: none is a record
    /// itself and all name stored objects only.
    pub fn holds_record(&self, terms: &Merge<Option<TreeValue>>) -> (b: bool)
        requires
            terms.wf(),
        ensures
            b == self@.terms_ok(terms@, self@.trees.len() as int),
    {
        self.term_list_is_ok(terms.adds()) && self.term_list_is_ok(terms.removes())
    }

    /// Whether all entries of a directory name stored objects only.
    fn entries_are_ok(&self, tree: &Tree) -> (b: bool)
        requires
            self.wf(),
        ensures
            b == self@.entries_ok(tree@, self@.trees.len() as int),
    {
        let mut i: usize = 0;
        while i < tree.len()
            invariant
                self.wf(),
                i <= tree@.len(),
                forall|k: int|
                    0 <= k < i ==> self@.value_ok(#[trigger] tree@[k].1, self@.trees.len() as int),
            decreases tree@.len() - i,
        {
            let ok = match tree.value_at(i) {
                TreeValue::Conflict(id) => id.0 < self.conflicts.len(),
                v => self.term_is_ok(&Some(v)),
            };
            if !ok {
                assert(!self@.value_ok(tree@[i as int].1, self@.trees.len() as int));
                return false;
            }
            i += 1;
        }
        true
    }

    /// The position of a stored tree with the entries of `tree`, or the number of trees.
    fn find_tree(&self, tree: &Tree) -> (p: usize)
        ensures
            p <= self@.trees.len(),
            p < self@.trees.len() ==> self@.trees[p as int] == tree@,
            forall|k: int| 0 <= k < p ==> self@.trees[k] != tree@,
    {
        let mut p: usize = 0;
        while p < self.trees.len()
            invariant
                p <= self.trees.len(),
                forall|k: int| 0 <= k < p ==> self@.trees[k] != tree@,
            decreases self.trees.len() - p,
        {
            if self.trees[p].same(tree) {
                return p;
            }
            p += 1;
        }
        p
    }

    /// Stores a single-level tree and gives its identifier. The tree is
    /// refused, and the store left as it was, where one of its entries names
    /// an object that the store does not hold.
    pub fn write_tree(&mut self, tree: &Tree) -> (r: Result<TreeId, BackendError>)
        requires
            old(self).wf(),
            tree.wf(),
        ensures
            final(self).wf(),
            old(self)@.extended_by(final(self)@),
            final(self)@.files == old(self)@.files,
            final(self)@.symlinks == old(self)@.symlinks,
            final(self)@.conflicts == old(self)@.conflicts,
            match r {
                Ok(id) => {
                    &&& old(self)@.entries_ok(tree@, old(self)@.trees.len() as int)
                    &&& id.0 < final(self)@.trees.len()
                    &&& final(self)@.trees[id.0 as int] == tree@
                    &&& old(self)@.trees.contains(tree@) ==> final(self)@ == old(self)@
                    &&& !old(self)@.trees.contains(tree@) ==> final(self)@.trees
                        == old(self)@.trees.push(tree@)
                    &&& (final(self)@, id) == old(self)@.put_tree(tree@)
                },
                Err(e) => {
                    &&& !old(self)@.entries_ok(tree@, old(self)@.trees.len() as int)
                    &&& e == BackendError::DanglingReference
                    &&& final(self)@ == old(self)@
                },
            },
    {
        if !self.entries_are_ok(tree) {
            return Err(BackendError::DanglingReference);
        }
        let p = self.find_tree(tree);
        if p < self.trees.len() {
            proof {
                lemma_index_in(self@.trees, tree@, p as int);
            }
            return Ok(TreeId(p));
        }
        self.trees.push(tree.clone());
        proof {
            assert(self@.trees =~= old(self)@.trees.push(tree@));
            assert(self@.files =~= old(self)@.files);
            assert(self@.symlinks =~= old(self)@.symlinks);
            assert(self@.conflicts =~= old(self)@.conflicts);
            lemma_not_contained(old(self)@.trees, tree@);
            lemma_extended_ok(old(self)@, self@);
            lemma_bound_grows(self@, old(self)@.trees.len() as int, self@.trees.len() as int);
            assert forall|c: int| old(self)@.conflicts.len() <= c < self@.conflicts.len() implies self@.terms_ok(
                #[trigger] self@.conflicts[c],
                self@.trees.len() as int,
            ) by {}
            lemma_wf_grows(old(self)@, self@);
        }
        Ok(TreeId(p))
    }

    /// A stored single-level tree.
    pub fn get_tree(&self, id: TreeId) -> (r: Result<&Tree, BackendError>)
        ensures
            match r {
                Ok(tree) => id.0 < self@.trees.len() && tree@ == self@.trees[id.0 as int],
                Err(e) => id.0 >= self@.trees.len() && e == BackendError::ObjectNotFound,
            },
    {
        if id.0 < self.trees.len() {
            Ok(&self.trees[id.0])
        } else {
            Err(BackendError::ObjectNotFound)
        }
    }

    /// The position of a stored record with the given terms, or the number of records.
    fn find_conflict(&self, terms: &Merge<Option<TreeValue>>) -> (p: usize)
        ensures
            p <= self@.conflicts.len(),
            p < self@.conflicts.len() ==> self@.conflicts[p as int] == terms@,
            forall|k: int| 0 <= k < p ==> self@.conflicts[k] != terms@,
    {
        proof {
            crate::backend::lemma_values_compare_by_content();
        }
        let mut p: usize = 0;
        while p < self.conflicts.len()
            invariant
                p <= self.conflicts.len(),
                forall|k: int| 0 <= k < p ==> self@.conflicts[k] != terms@,
                vstd::laws_eq::obeys_concrete_eq::<Option<TreeValue>>(),
            decreases self.conflicts.len() - p,
        {
            if self.conflicts[p].same_terms(terms) {
                return p;
            }
            p += 1;
        }
        p
    }

    /// Stores a conflict record and gives its identifier. The record is
    /// refused, and the store left as it was, where one of its terms is a
    /// conflict record itself or names an object that the store does not hold.
    pub fn write_conflict(&mut self, terms: &Merge<Option<TreeValue>>) -> (r: Result<
        ConflictId,
        BackendError,
    >)
        requires
            old(self).wf(),
            terms.wf(),
        ensures
            final(self).wf(),
            old(self)@.extended_by(final(self)@),
            final(self)@.files == old(self)@.files,
            final(self)@.symlinks == old(self)@.symlinks,
            final(self)@.trees == old(self)@.trees,
            match r {
                Ok(id) => {
                    &&& old(self)@.terms_ok(terms@, old(self)@.trees.len() as int)
                    &&& id.0 < final(self)@.conflicts.len()
                    &&& final(self)@.conflicts[id.0 as int] == terms@
                    &&& old(self)@.conflicts.contains(terms@) ==> final(self)@ == old(self)@
                    &&& !old(self)@.conflicts.contains(terms@) ==> final(self)@.conflicts
                        == old(self)@.conflicts.push(terms@)
                    &&& (final(self)@, id) == old(self)@.put_conflict(terms@)
                },
                Err(e) => {
                    &&& !old(self)@.terms_ok(terms@, old(self)@.trees.len() as int)
                    &&& e == BackendError::DanglingReference
                    &&& final(self)@ == old(self)@
                },
            },
    {
        if !self.holds_record(terms) {
            return Err(BackendError::DanglingReference);
        }
        let p = self.find_conflict(terms);
        if p < self.conflicts.len() {
            proof {
                lemma_index_in(self@.conflicts, terms@, p as int);
            }
            return Ok(ConflictId(p));
        }
        self.conflicts.push(terms.clone());
        proof {
            assert(self@.conflicts =~= old(self)@.conflicts.push(terms@));
            assert(self@.files =~= old(self)@.files);
            assert(self@.symlinks =~= old(self)@.symlinks);
            assert(self@.trees =~= old(self)@.trees);
            lemma_not_contained(old(self)@.conflicts, terms@);
            lemma_extended_ok(old(self)@, self@);
            lemma_wf_grows(old(self)@, self@);
        }
        Ok(ConflictId(p))
    }

    /// A stored conflict record.
    pub fn read_conflict(&self, id: ConflictId) -> (r: Result<
        &Merge<Option<TreeValue>>,
        BackendError,
    >)
        ensures
            match r {
                Ok(terms) => id.0 < self@.conflicts.len() && terms@ == self@.conflicts[id.0 as int],
                Err(e) => id.0 >= self@.conflicts.len() && e == BackendError::ObjectNotFound,
            },
    {
        if id.0 < self.conflicts.len() {
            Ok(&self.conflicts[id.0])
        } else {
            Err(BackendError::ObjectNotFound)
        }
    }
}

} // verus!
