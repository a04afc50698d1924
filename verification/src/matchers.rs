//! Path filters for walks and diffs.
use vstd::prelude::*;
use crate::repo_path::RepoPath;

verus! {

/// Which paths a walk or a diff reports.
#[derive(Debug, PartialEq, Eq)]
pub enum Matcher {
    /// Every path.
    Everything,
    /// The listed paths and no others.
    Files(Vec<RepoPath>),
}

/// The mathematical content of a [`Matcher`].
pub enum MatcherView {
    Everything,
    Files(Seq<Seq<Seq<u8>>>),
}

/// The paths that a list of paths stands for.
pub open spec fn paths_of(list: Seq<RepoPath>) -> Seq<Seq<Seq<u8>>> {
    Seq::new(list.len(), |i: int| list[i]@)
}

impl View for Matcher {
    type V = MatcherView;

    open spec fn view(&self) -> MatcherView {
        match self {
            Matcher::Everything => MatcherView::Everything,
            Matcher::Files(list) => MatcherView::Files(paths_of(list@)),
        }
    }
}

impl MatcherView {
    /// Whether the filter lets `path` through.
    pub open spec fn matches(self, path: Seq<Seq<u8>>) -> bool {
        match self {
            MatcherView::Everything => true,
            MatcherView::Files(list) => list.contains(path),
        }
    }

    /// Whether the filter may let through something below the directory `dir`.
    pub open spec fn visits(self, dir: Seq<Seq<u8>>) -> bool {
        match self {
            MatcherView::Everything => true,
            MatcherView::Files(list) => any_below(list, dir),
        }
    }
}

/// Some path of the list lies below the directory `dir`.
pub open spec fn any_below(list: Seq<Seq<Seq<u8>>>, dir: Seq<Seq<u8>>) -> bool {
    exists|i: int| 0 <= i < list.len() && crate::tree_builder::proper_prefix(dir, #[trigger] list[i])
}

/// Below a directory that the filter does not visit it lets nothing through.
pub proof fn lemma_unvisited(matcher: MatcherView, dir: Seq<Seq<u8>>, path: Seq<Seq<u8>>)
    requires
        !matcher.visits(dir),
        crate::tree_builder::proper_prefix(dir, path),
    ensures
        !matcher.matches(path),
{
    if let MatcherView::Files(list) = matcher {
        if list.contains(path) {
            let i = choose|i: int| 0 <= i < list.len() && list[i] == path;
            assert(crate::tree_builder::proper_prefix(dir, list[i]));
        }
    }
}

impl Matcher {
    /// The filter that lets every path through.
    pub fn everything() -> (r: Matcher)
        ensures
            r@ == MatcherView::Everything,
    {
        Matcher::Everything
    }

    /// The filter that lets exactly the listed paths through.
    pub fn files(list: Vec<RepoPath>) -> (r: Matcher)
        ensures
            r@ == MatcherView::Files(paths_of(list@)),
    {
        Matcher::Files(list)
    }

    /// Whether the filter may let through something below the directory
    /// `dir`, so that a walk has to enter it.
    pub fn visits(&self, dir: &RepoPath) -> (b: bool)
        ensures
            b == self@.visits(dir@),
    {
        match self {
            Matcher::Everything => true,
            Matcher::Files(list) => {
                let mut i: usize = 0;
                while i < list.len()
                    invariant
                        i <= list.len(),
                        self@ == MatcherView::Files(paths_of(list@)),
                        forall|k: int|
                            0 <= k < i ==> !crate::tree_builder::proper_prefix(
                                dir@,
                                #[trigger] paths_of(list@)[k],
                            ),
                    decreases list.len() - i,
                {
                    if list[i].is_below(dir) {
                        let ghost paths = paths_of(list@);
                        assert(0 <= i < paths.len() && crate::tree_builder::proper_prefix(
                            dir@,
                            paths[i as int],
                        ));
                        assert(any_below(paths, dir@));
                        return true;
                    }
                    i += 1;
                }
                false
            },
        }
    }

    /// Whether the filter lets `path` through.
    pub fn matches(&self, path: &RepoPath) -> (b: bool)
        ensures
            b == self@.matches(path@),
    {
        match self {
            Matcher::Everything => true,
            Matcher::Files(list) => {
                let mut i: usize = 0;
                while i < list.len()
                    invariant
                        i <= list.len(),
                        self@ == MatcherView::Files(paths_of(list@)),
                        forall|k: int| 0 <= k < i ==> paths_of(list@)[k] != path@,
                    decreases list.len() - i,
                {
                    if list[i].same(path) {
                        assert(paths_of(list@)[i as int] == path@);
                        assert(paths_of(list@).contains(path@));
                        return true;
                    }
                    i += 1;
                }
                false
            },
        }
    }
}

} // verus!
