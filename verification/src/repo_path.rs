//! Paths from the root of a tree, as sequences of names.
use vstd::prelude::*;
use vstd::string::{StrSliceExecFns, StringSliceAdditionalSpecFns};
use crate::order::{compare_names, name_order, path_order, Order};

verus! {

/// One name within a directory.
#[derive(Debug, PartialEq, Eq)]
pub struct RepoPathComponent {
    value: Vec<u8>,
}

impl View for RepoPathComponent {
    type V = Seq<u8>;

    closed spec fn view(&self) -> Seq<u8> {
        self.value@
    }
}

impl Clone for RepoPathComponent {
    fn clone(&self) -> (r: RepoPathComponent)
        ensures
            r@ == self@,
    {
        RepoPathComponent { value: crate::merge::copy_items(&self.value) }
    }
}

impl RepoPathComponent {
    /// The name written as text.
    pub fn from(value: &str) -> (r: RepoPathComponent)
        ensures
            r@ == value.spec_bytes(),
    {
        RepoPathComponent { value: value.as_bytes_vec() }
    }

    /// The name given by its bytes.
    pub fn from_bytes(value: Vec<u8>) -> (r: RepoPathComponent)
        ensures
            r@ == value@,
    {
        RepoPathComponent { value }
    }

    /// The bytes of the name.
    pub fn as_bytes(&self) -> (r: &Vec<u8>)
        ensures
            r@ == self@,
    {
        &self.value
    }

    /// How this name stands to another in the order of names.
    pub fn compare(&self, other: &RepoPathComponent) -> (r: Order)
        ensures
            r == name_order(self@, other@),
            r == Order::After <==> crate::order::name_lt(other@, self@),
    {
        compare_names(&self.value, &other.value)
    }

    /// Whether both are the same name.
    pub fn same(&self, other: &RepoPathComponent) -> (r: bool)
        ensures
            r == (self@ == other@),
    {
        proof {
            crate::order::lemma_name_order();
            crate::order::lemma_lex_trichotomy(self@, other@, crate::order::byte_lt());
        }
        match compare_names(&self.value, &other.value) {
            Order::Same => true,
            _ => false,
        }
    }
}

/// The names that a list of components stands for.
pub open spec fn names_of(components: Seq<RepoPathComponent>) -> Seq<Seq<u8>> {
    Seq::new(components.len(), |i: int| components[i]@)
}

/// The byte that separates the names of a path written as text.
pub open spec fn slash() -> u8 {
    47u8
}

/// The pieces of a text between its slashes, in order.
pub open spec fn split_names(text: Seq<u8>) -> Seq<Seq<u8>>
    decreases text.len(),
{
    let k = crate::merge::first_index_from(text, slash(), 0);
    if k < 0 || k >= text.len() {
        seq![text]
    } else {
        seq![text.take(k)] + split_names(text.skip(k + 1))
    }
}

/// The path that a text stands for: the root for the empty text, else the
/// names between the slashes.
pub open spec fn parse_path(text: Seq<u8>) -> Seq<Seq<u8>> {
    if text.len() == 0 {
        Seq::empty()
    } else {
        split_names(text)
    }
}

/// A location in a tree: the names to follow from the root.
#[derive(Debug, PartialEq, Eq)]
pub struct RepoPath {
    components: Vec<RepoPathComponent>,
}

impl View for RepoPath {
    type V = Seq<Seq<u8>>;

    closed spec fn view(&self) -> Seq<Seq<u8>> {
        names_of(self.components@)
    }
}

impl Clone for RepoPath {
    fn clone(&self) -> (r: RepoPath)
        ensures
            r@ == self@,
    {
        let mut components: Vec<RepoPathComponent> = Vec::new();
        let mut i: usize = 0;
        while i < self.components.len()
            invariant
                i <= self.components.len(),
                components.len() == i,
                forall|k: int| 0 <= k < i ==> components@[k]@ == self.components@[k]@,
            decreases self.components.len() - i,
        {
            components.push(self.components[i].clone());
            i += 1;
        }
        let r = RepoPath { components };
        assert(r@ =~= self@);
        r
    }
}

impl RepoPath {
    /// The path of the root: no names.
    pub fn root() -> (r: RepoPath)
        ensures
            r@ == Seq::<Seq<u8>>::empty(),
    {
        let r = RepoPath { components: Vec::new() };
        assert(r@ =~= Seq::<Seq<u8>>::empty());
        r
    }

    /// The path written as text, its names separated by slashes; the empty
    /// text is the root.
    pub fn from_internal_string(value: &str) -> (r: RepoPath)
        ensures
            r@ == parse_path(value.spec_bytes()),
    {
        let text = value.as_bytes_vec();
        if text.len() == 0 {
            return RepoPath::root();
        }
        let mut components: Vec<RepoPathComponent> = Vec::new();
        let mut start: usize = 0;
        let mut i: usize = 0;
        assert(names_of(components@) =~= Seq::<Seq<u8>>::empty());
        assert(text@.skip(0) =~= text@);
        while i < text.len()
            invariant
                start <= i <= text.len(),
                names_of(components@) + split_names(text@.skip(start as int)) == split_names(text@),
                forall|j: int| start <= j < i ==> text@[j] != slash(),
            decreases text.len() - i,
        {
            if text[i] == 47u8 {
                let name = crate::merge::copy_range(&text, start, i);
                proof {
                    let rest = text@.skip(start as int);
                    let k = i - start;
                    assert(rest[k] == slash());
                    assert forall|j: int| 0 <= j < k implies rest[j] != slash() by {
                        assert(rest[j] == text@[start + j]);
                    }
                    crate::algebra_laws::lemma_first_index_is(rest, slash(), 0, k);
                    assert(rest.take(k) =~= name@);
                    assert(rest.skip(k + 1) =~= text@.skip(i + 1));
                    assert(split_names(rest) == seq![name@] + split_names(text@.skip(i + 1)));
                    let piece = RepoPathComponent { value: name };
                    assert(names_of(components@.push(piece)) =~= names_of(components@).push(name@));
                    assert(names_of(components@).push(name@) + split_names(text@.skip(i + 1))
                        =~= names_of(components@) + (seq![name@] + split_names(
                        text@.skip(i + 1),
                    )));
                }
                components.push(RepoPathComponent { value: name });
                start = i + 1;
            }
            i += 1;
        }
        let name = crate::merge::copy_range(&text, start, text.len());
        proof {
            let rest = text@.skip(start as int);
            assert forall|j: int| 0 <= j < rest.len() implies rest[j] != slash() by {
                assert(rest[j] == text@[start + j]);
            }
            crate::algebra_laws::lemma_first_index_is(rest, slash(), 0, rest.len() as int);
            assert(rest =~= name@);
            let piece = RepoPathComponent { value: name };
            assert(names_of(components@.push(piece)) =~= names_of(components@).push(name@));
            assert(names_of(components@).push(name@) =~= names_of(components@) + seq![name@]);
        }
        components.push(RepoPathComponent { value: name });
        RepoPath { components }
    }

    /// The path made of the given names.
    pub fn from_components(components: Vec<RepoPathComponent>) -> (r: RepoPath)
        ensures
            r@ == names_of(components@),
    {
        RepoPath { components }
    }

    /// The names of the path.
    pub fn components(&self) -> (r: &Vec<RepoPathComponent>)
        ensures
            names_of(r@) == self@,
    {
        &self.components
    }

    /// The number of names.
    pub fn len(&self) -> (n: usize)
        ensures
            n == self@.len(),
    {
        self.components.len()
    }

    /// Whether this is the path of the root.
    pub fn is_root(&self) -> (b: bool)
        ensures
            b == (self@.len() == 0),
    {
        self.components.len() == 0
    }

    /// The path of `name` inside the directory at this path.
    pub fn join(&self, name: &RepoPathComponent) -> (r: RepoPath)
        ensures
            r@ == self@.push(name@),
    {
        let mut r = self.clone();
        r.components.push(name.clone());
        assert(r@ =~= self@.push(name@));
        r
    }

    /// The directory that holds this path, if it is not the root.
    pub fn parent(&self) -> (r: Option<RepoPath>)
        ensures
            match r {
                Some(p) => self@.len() > 0 && p@ == self@.drop_last(),
                None => self@.len() == 0,
            },
    {
        if self.components.len() == 0 {
            return None;
        }
        let mut r = self.clone();
        r.components.pop();
        assert(r@ =~= self@.drop_last());
        Some(r)
    }

    /// The directory that holds this path and the last name, if it is not the root.
    pub fn split(&self) -> (r: Option<(RepoPath, RepoPathComponent)>)
        ensures
            match r {
                Some((dir, name)) => self@.len() > 0 && dir@ == self@.drop_last() && name@
                    == self@.last(),
                None => self@.len() == 0,
            },
    {
        if self.components.len() == 0 {
            return None;
        }
        let mut r = self.clone();
        let last = r.components.pop();
        assert(r@ =~= self@.drop_last());
        match last {
            Some(name) => Some((r, name)),
            None => None,
        }
    }

    /// How this path stands to another in the order of paths: name by
    /// name, a directory before what it holds.
    pub fn compare(&self, other: &RepoPath) -> (r: Order)
        ensures
            r == path_order(self@, other@),
            r == Order::After <==> crate::order::path_lt(other@, self@),
    {
        let a = &self.components;
        let b = &other.components;
        let mut i: usize = 0;
        proof {
            crate::order::lemma_path_trichotomy(self@, other@);
        }
        while i < a.len() && i < b.len()
            invariant
                i <= a.len(),
                i <= b.len(),
                a@ == self.components@,
                b@ == other.components@,
                crate::order::first_diff(self@, other@, i as int) == crate::order::first_diff(
                    self@,
                    other@,
                    0,
                ),
                crate::order::path_lt(self@, other@) || self@ == other@ || crate::order::path_lt(
                    other@,
                    self@,
                ),
                !(crate::order::path_lt(self@, other@) && self@ == other@),
                !(crate::order::path_lt(other@, self@) && self@ == other@),
                !(crate::order::path_lt(self@, other@) && crate::order::path_lt(other@, self@)),
            decreases a.len() - i,
        {
            proof {
                reveal(crate::order::lex_lt);
                crate::order::lemma_first_diff(self@, other@, 0);
                crate::order::lemma_name_trichotomy(self@[i as int], other@[i as int]);
            }
            match a[i].compare(&b[i]) {
                Order::Before => {
                    return Order::Before;
                },
                Order::After => {
                    return Order::After;
                },
                Order::Same => {},
            }
            i += 1;
        }
        proof {
            reveal(crate::order::lex_lt);
            crate::order::lemma_first_diff(self@, other@, 0);
        }
        if i < b.len() {
            Order::Before
        } else if i < a.len() {
            Order::After
        } else {
            assert(self@ =~= other@);
            Order::Same
        }
    }

    /// Whether this path lies below the directory `dir`.
    pub fn is_below(&self, dir: &RepoPath) -> (b: bool)
        ensures
            b == crate::tree_builder::proper_prefix(dir@, self@),
    {
        if self.components.len() <= dir.components.len() {
            return false;
        }
        let mut i: usize = 0;
        while i < dir.components.len()
            invariant
                i <= dir.components.len(),
                dir.components.len() < self.components.len(),
                forall|k: int| 0 <= k < i ==> self@[k] == dir@[k],
            decreases dir.components.len() - i,
        {
            if !self.components[i].same(&dir.components[i]) {
                assert(self@.take(dir@.len() as int)[i as int] != dir@[i as int]);
                return false;
            }
            i += 1;
        }
        assert(self@.take(dir@.len() as int) =~= dir@);
        true
    }

    /// Whether both are the same path.
    pub fn same(&self, other: &RepoPath) -> (b: bool)
        ensures
            b == (self@ == other@),
    {
        if self.components.len() != other.components.len() {
            assert(self@.len() != other@.len());
            return false;
        }
        let mut i: usize = 0;
        while i < self.components.len()
            invariant
                i <= self.components.len(),
                self.components.len() == other.components.len(),
                forall|k: int| 0 <= k < i ==> self@[k] == other@[k],
            decreases self.components.len() - i,
        {
            if !self.components[i].same(&other.components[i]) {
                assert(self@[i as int] != other@[i as int]);
                return false;
            }
            i += 1;
        }
        assert(self@ =~= other@);
        true
    }
}

} // verus!
