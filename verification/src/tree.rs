//! A single-level tree: the entries of one directory, ordered by name.
use vstd::prelude::*;
use crate::backend::TreeValue;
use crate::order::{name_lt, name_lt_fn, Order};
use crate::repo_path::RepoPathComponent;

verus! {

/// The entries of a directory as a list of names with their values.
pub type TreeView = Seq<(Seq<u8>, TreeValue)>;

/// The names come in strictly rising order: no name occurs twice.
pub open spec fn tree_sorted(t: TreeView) -> bool {
    crate::assoc::sorted(t, name_lt_fn())
}

/// The first position from `from` on whose name is not before `name`.
pub open spec fn lower_bound(t: TreeView, name: Seq<u8>, from: int) -> int {
    crate::assoc::lower_bound(t, name, from, name_lt_fn())
}

/// Whether the directory has an entry called `name`.
pub open spec fn has_name(t: TreeView, name: Seq<u8>) -> bool {
    crate::assoc::has_key(t, name, name_lt_fn())
}

/// The value under `name`, if there is an entry of that name.
pub open spec fn lookup(t: TreeView, name: Seq<u8>) -> Option<TreeValue> {
    crate::assoc::lookup(t, name, name_lt_fn())
}

/// The directory with the entry `name` set to `value`, or without it.
pub open spec fn with_entry(t: TreeView, name: Seq<u8>, value: Option<TreeValue>) -> TreeView {
    crate::assoc::with_entry(t, name, value, name_lt_fn())
}

/// The names of the entries, in order.
pub open spec fn names(t: TreeView) -> Seq<Seq<u8>> {
    Seq::new(t.len(), |i: int| t[i].0)
}

/// Where `lower_bound` lands: names before it come before `name`, and the
/// name there does not.
pub proof fn lemma_lower_bound(t: TreeView, name: Seq<u8>, from: int)
    requires
        0 <= from <= t.len(),
    ensures
        from <= lower_bound(t, name, from) <= t.len(),
        forall|k: int| from <= k < lower_bound(t, name, from) ==> name_lt(#[trigger] t[k].0, name),
        lower_bound(t, name, from) < t.len() ==> !name_lt(t[lower_bound(t, name, from)].0, name),
{
    crate::order::lemma_name_order();
    crate::assoc::lemma_lower_bound(t, name, from, name_lt_fn());
}

/// In an ordered directory an entry is found exactly at its position.
pub proof fn lemma_lookup_at(t: TreeView, i: int)
    requires
        tree_sorted(t),
        0 <= i < t.len(),
    ensures
        lower_bound(t, t[i].0, 0) == i,
        lookup(t, t[i].0) == Some(t[i].1),
        has_name(t, t[i].0),
{
    crate::order::lemma_name_order();
    crate::assoc::lemma_lookup_at(t, i, name_lt_fn());
}

/// A name that the lookup finds is the name of some entry, and the other
/// way round.
pub proof fn lemma_lookup_some(t: TreeView, name: Seq<u8>)
    requires
        tree_sorted(t),
    ensures
        has_name(t, name) <==> exists|i: int| 0 <= i < t.len() && #[trigger] t[i].0 == name,
        has_name(t, name) <==> lookup(t, name).is_some(),
{
    crate::order::lemma_name_order();
    crate::assoc::lemma_lookup_some(t, name, name_lt_fn());
}

/// Setting or deleting an entry keeps the order.
pub proof fn lemma_with_entry_sorted(t: TreeView, name: Seq<u8>, value: Option<TreeValue>)
    requires
        tree_sorted(t),
    ensures
        tree_sorted(with_entry(t, name, value)),
{
    crate::order::lemma_name_order();
    crate::assoc::lemma_with_entry_sorted(t, name, value, name_lt_fn());
}

/// After setting or deleting an entry, its name gives the new value.
pub proof fn lemma_with_entry_same(t: TreeView, name: Seq<u8>, value: Option<TreeValue>)
    requires
        tree_sorted(t),
    ensures
        lookup(with_entry(t, name, value), name) == value,
{
    crate::order::lemma_name_order();
    crate::assoc::lemma_with_entry_same(t, name, value, name_lt_fn());
}

/// Setting or deleting an entry leaves the other names as they were.
pub proof fn lemma_with_entry_other(
    t: TreeView,
    name: Seq<u8>,
    value: Option<TreeValue>,
    other: Seq<u8>,
)
    requires
        tree_sorted(t),
        other != name,
    ensures
        lookup(with_entry(t, name, value), other) == lookup(t, other),
{
    crate::order::lemma_name_order();
    crate::assoc::lemma_with_entry_other(t, name, value, other, name_lt_fn());
}

/// Ordered directories that give the same value under every name are equal.
pub proof fn lemma_tree_extensional(a: TreeView, b: TreeView)
    requires
        tree_sorted(a),
        tree_sorted(b),
        forall|name: Seq<u8>| lookup(a, name) == lookup(b, name),
    ensures
        a == b,
{
    crate::order::lemma_name_order();
    assert forall|name: Seq<u8>|
        crate::assoc::lookup(a, name, name_lt_fn()) == crate::assoc::lookup(
            b,
            name,
            name_lt_fn(),
        ) by {
        assert(lookup(a, name) == lookup(b, name));
    }
    crate::assoc::lemma_extensional(a, b, name_lt_fn());
}

/// One entry of a directory.
#[derive(Debug, PartialEq, Eq)]
struct TreeEntry {
    name: RepoPathComponent,
    value: TreeValue,
}

/// The entries of one directory, ordered by name.
#[derive(Debug, PartialEq, Eq)]
pub struct Tree {
    entries: Vec<TreeEntry>,
}

impl View for Tree {
    type V = TreeView;

    closed spec fn view(&self) -> TreeView {
        Seq::new(self.entries@.len(), |i: int| (self.entries@[i].name@, self.entries@[i].value))
    }
}

impl Clone for Tree {
    fn clone(&self) -> (r: Tree)
        ensures
            r@ == self@,
    {
        let mut entries: Vec<TreeEntry> = Vec::new();
        let mut i: usize = 0;
        while i < self.entries.len()
            invariant
                i <= self.entries.len(),
                entries.len() == i,
                forall|k: int|
                    0 <= k < i ==> entries@[k].name@ == self.entries@[k].name@ && entries@[k].value
                        == self.entries@[k].value,
            decreases self.entries.len() - i,
        {
            entries.push(
                TreeEntry { name: self.entries[i].name.clone(), value: self.entries[i].value },
            );
            i += 1;
        }
        let r = Tree { entries };
        assert(r@ =~= self@);
        r
    }
}

impl Tree {
    /// The names come in strictly rising order.
    pub open spec fn wf(&self) -> bool {
        tree_sorted(self@)
    }

    /// The empty directory.
    pub fn new() -> (r: Tree)
        ensures
            r@ == TreeView::empty(),
            r.wf(),
    {
        let r = Tree { entries: Vec::new() };
        assert(r@ =~= TreeView::empty());
        r
    }

    /// The number of entries.
    pub fn len(&self) -> (n: usize)
        ensures
            n == self@.len(),
    {
        self.entries.len()
    }

    /// Whether the directory has no entry.
    pub fn is_empty(&self) -> (b: bool)
        ensures
            b == (self@.len() == 0),
    {
        self.entries.len() == 0
    }

    /// The name of the entry at position `i`.
    pub fn name_at(&self, i: usize) -> (r: &RepoPathComponent)
        requires
            i < self@.len(),
        ensures
            r@ == self@[i as int].0,
    {
        &self.entries[i].name
    }

    /// The value of the entry at position `i`.
    pub fn value_at(&self, i: usize) -> (r: TreeValue)
        requires
            i < self@.len(),
        ensures
            r == self@[i as int].1,
    {
        self.entries[i].value
    }

    /// The names of the entries, in order.
    pub fn names(&self) -> (r: Vec<RepoPathComponent>)
        ensures
            crate::repo_path::names_of(r@) == names(self@),
    {
        let mut r: Vec<RepoPathComponent> = Vec::new();
        let mut i: usize = 0;
        while i < self.entries.len()
            invariant
                i <= self.entries.len(),
                r.len() == i,
                forall|k: int| 0 <= k < i ==> r@[k]@ == self@[k].0,
            decreases self.entries.len() - i,
        {
            r.push(self.entries[i].name.clone());
            i += 1;
        }
        assert(crate::repo_path::names_of(r@) =~= names(self@));
        r
    }

    /// The first position whose name is not before `name`.
    fn position(&self, name: &RepoPathComponent) -> (p: usize)
        ensures
            p == lower_bound(self@, name@, 0),
            p <= self@.len(),
    {
        let mut p: usize = 0;
        while p < self.entries.len()
            invariant
                p <= self.entries.len(),
                lower_bound(self@, name@, p as int) == lower_bound(self@, name@, 0),
            decreases self.entries.len() - p,
        {
            match self.entries[p].name.compare(name) {
                Order::Before => {},
                _ => {
                    return p;
                },
            }
            p += 1;
        }
        p
    }

    /// The value under `name`, if there is an entry of that name.
    pub fn value(&self, name: &RepoPathComponent) -> (r: Option<TreeValue>)
        ensures
            r == lookup(self@, name@),
    {
        let p = self.position(name);
        if p < self.entries.len() && self.entries[p].name.same(name) {
            Some(self.entries[p].value)
        } else {
            None
        }
    }

    /// Sets the entry `name` to `value`, or deletes it where `value` is `None`.
    pub fn set_or_remove(&mut self, name: &RepoPathComponent, value: Option<TreeValue>)
        requires
            old(self).wf(),
        ensures
            final(self)@ == with_entry(old(self)@, name@, value),
            final(self).wf(),
    {
        let p = self.position(name);
        let present = p < self.entries.len() && self.entries[p].name.same(name);
        proof {
            lemma_with_entry_sorted(self@, name@, value);
        }
        match value {
            Some(v) => {
                let entry = TreeEntry { name: name.clone(), value: v };
                if present {
                    self.entries.set(p, entry);
                } else {
                    self.entries.insert(p, entry);
                }
            },
            None => {
                if present {
                    self.entries.remove(p);
                }
            },
        }
        assert(self@ =~= with_entry(old(self)@, name@, value));
    }

    /// Sets the entry `name` to `value`.
    pub fn set(&mut self, name: &RepoPathComponent, value: TreeValue)
        requires
            old(self).wf(),
        ensures
            final(self)@ == with_entry(old(self)@, name@, Some(value)),
            final(self).wf(),
    {
        self.set_or_remove(name, Some(value));
    }

    /// Deletes the entry `name`, if there is one.
    pub fn remove(&mut self, name: &RepoPathComponent)
        requires
            old(self).wf(),
        ensures
            final(self)@ == with_entry(old(self)@, name@, None),
            final(self).wf(),
    {
        self.set_or_remove(name, None);
    }

    /// Whether both directories hold the same entries.
    pub fn same(&self, other: &Tree) -> (b: bool)
        ensures
            b == (self@ == other@),
    {
        if self.entries.len() != other.entries.len() {
            assert(self@.len() != other@.len());
            return false;
        }
        let mut i: usize = 0;
        while i < self.entries.len()
            invariant
                i <= self.entries.len(),
                self.entries.len() == other.entries.len(),
                forall|k: int| 0 <= k < i ==> self@[k] == other@[k],
            decreases self.entries.len() - i,
        {
            if !self.entries[i].name.same(&other.entries[i].name) || !(self.entries[i].value
                == other.entries[i].value) {
                assert(self@[i as int] != other@[i as int]);
                return false;
            }
            i += 1;
        }
        assert(self@ =~= other@);
        true
    }
}

} // verus!
