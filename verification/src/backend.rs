//! Identifiers of stored objects and the value of one tree entry.
use vstd::prelude::*;
use vstd::std_specs::cmp::PartialEqSpecImpl;

verus! {

/// Identifies a stored file content.
#[derive(Clone, Copy, Debug, Eq)]
pub struct FileId(pub usize);

/// Identifies a stored symlink target.
#[derive(Clone, Copy, Debug, Eq)]
pub struct SymlinkId(pub usize);

/// Identifies a stored single-level tree.
#[derive(Clone, Copy, Debug, Eq)]
pub struct TreeId(pub usize);

/// Identifies a stored conflict record.
#[derive(Clone, Copy, Debug, Eq)]
pub struct ConflictId(pub usize);

/// What a tree holds under one name.
#[derive(Clone, Copy, Debug, Eq)]
pub enum TreeValue {
    File { id: FileId, executable: bool },
    Symlink(SymlinkId),
    Tree(TreeId),
    Conflict(ConflictId),
}

/// Why a store operation was refused.
#[derive(Clone, Copy, Debug, Eq)]
pub enum BackendError {
    /// An identifier names no object of the store.
    ObjectNotFound,
    /// An object to be written refers to something the store does not hold.
    DanglingReference,
}

impl PartialEq for FileId {
    fn eq(&self, other: &FileId) -> (r: bool) {
        self.0 == other.0
    }
}

impl PartialEqSpecImpl for FileId {
    open spec fn obeys_eq_spec() -> bool {
        true
    }

    open spec fn eq_spec(&self, other: &FileId) -> bool {
        *self == *other
    }
}

impl PartialEq for SymlinkId {
    fn eq(&self, other: &SymlinkId) -> (r: bool) {
        self.0 == other.0
    }
}

impl PartialEqSpecImpl for SymlinkId {
    open spec fn obeys_eq_spec() -> bool {
        true
    }

    open spec fn eq_spec(&self, other: &SymlinkId) -> bool {
        *self == *other
    }
}

impl PartialEq for TreeId {
    fn eq(&self, other: &TreeId) -> (r: bool) {
        self.0 == other.0
    }
}

impl PartialEqSpecImpl for TreeId {
    open spec fn obeys_eq_spec() -> bool {
        true
    }

    open spec fn eq_spec(&self, other: &TreeId) -> bool {
        *self == *other
    }
}

impl PartialEq for ConflictId {
    fn eq(&self, other: &ConflictId) -> (r: bool) {
        self.0 == other.0
    }
}

impl PartialEqSpecImpl for ConflictId {
    open spec fn obeys_eq_spec() -> bool {
        true
    }

    open spec fn eq_spec(&self, other: &ConflictId) -> bool {
        *self == *other
    }
}

impl PartialEq for TreeValue {
    fn eq(&self, other: &TreeValue) -> (r: bool) {
        match (*self, *other) {
            (
                TreeValue::File { id: a, executable: x },
                TreeValue::File { id: b, executable: y },
            ) => a.0 == b.0 && x == y,
            (TreeValue::Symlink(a), TreeValue::Symlink(b)) => a.0 == b.0,
            (TreeValue::Tree(a), TreeValue::Tree(b)) => a.0 == b.0,
            (TreeValue::Conflict(a), TreeValue::Conflict(b)) => a.0 == b.0,
            _ => false,
        }
    }
}

impl PartialEqSpecImpl for TreeValue {
    open spec fn obeys_eq_spec() -> bool {
        true
    }

    open spec fn eq_spec(&self, other: &TreeValue) -> bool {
        *self == *other
    }
}

impl PartialEq for BackendError {
    fn eq(&self, other: &BackendError) -> (r: bool) {
        match (*self, *other) {
            (BackendError::ObjectNotFound, BackendError::ObjectNotFound) => true,
            (BackendError::DanglingReference, BackendError::DanglingReference) => true,
            _ => false,
        }
    }
}

impl PartialEqSpecImpl for BackendError {
    open spec fn obeys_eq_spec() -> bool {
        true
    }

    open spec fn eq_spec(&self, other: &BackendError) -> bool {
        *self == *other
    }
}

impl TreeValue {
    /// Whether the entry is a subtree.
    pub open spec fn is_tree(self) -> bool {
        self is Tree
    }
}

/// The identifiers and entry values compare by what they hold.
pub proof fn lemma_values_compare_by_content()
    ensures
        vstd::laws_eq::obeys_concrete_eq::<TreeId>(),
        vstd::laws_eq::obeys_concrete_eq::<TreeValue>(),
        vstd::laws_eq::obeys_concrete_eq::<Option<TreeValue>>(),
        vstd::laws_eq::obeys_concrete_eq::<Option<TreeId>>(),
{
    reveal(vstd::laws_eq::obeys_concrete_eq);
}

} // verus!
