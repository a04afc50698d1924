//! The benchmark commands: what can be timed, and under which name.
use vstd::prelude::*;
use vstd::string::{StrSliceExecFns, StringExecFns};
use crate::merge::first_index_from;

verus! {

/// Find the common ancestor(s) of a set of commits.
#[derive(Clone, Debug)]
pub struct BenchCommonAncestorsArgs {
    revision1: String,
    revision2: String,
}

/// Checks if the first commit is an ancestor of the second commit.
#[derive(Clone, Debug)]
pub struct BenchIsAncestorArgs {
    ancestor: String,
    descendant: String,
}

/// Walk the revisions in the revset.
#[derive(Clone, Debug)]
pub struct BenchRevsetArgs {
    revisions: String,
}

/// Benchmark multiple revsets specified in a file.
#[derive(Clone, Debug)]
pub struct BenchRevsetsArgs {
    file: String,
}

/// Resolve a commit ID prefix.
#[derive(Clone, Debug)]
pub struct BenchResolvePrefixArgs {
    prefix: String,
}

/// Commands for benchmarking internal operations.
#[derive(Clone, Debug)]
pub enum BenchCommands {
    CommonAncestors(BenchCommonAncestorsArgs),
    IsAncestor(BenchIsAncestorArgs),
    ResolvePrefix(BenchResolvePrefixArgs),
    Revset(BenchRevsetArgs),
    Revsets(BenchRevsetsArgs),
}

impl BenchCommonAncestorsArgs {
    /// The two revisions as text.
    pub closed spec fn revisions(&self) -> (Seq<char>, Seq<char>) {
        (self.revision1@, self.revision2@)
    }

    /// The arguments for the two revisions.
    pub fn new(revision1: String, revision2: String) -> (r: BenchCommonAncestorsArgs)
        ensures
            r.revisions() == (revision1@, revision2@),
    {
        BenchCommonAncestorsArgs { revision1, revision2 }
    }

    /// The first revision.
    pub fn revision1(&self) -> (r: &String)
        ensures
            r@ == self.revisions().0,
    {
        &self.revision1
    }

    /// The second revision.
    pub fn revision2(&self) -> (r: &String)
        ensures
            r@ == self.revisions().1,
    {
        &self.revision2
    }
}

impl BenchIsAncestorArgs {
    /// The two revisions as text: the ancestor, then the descendant.
    pub closed spec fn revisions(&self) -> (Seq<char>, Seq<char>) {
        (self.ancestor@, self.descendant@)
    }

    /// The arguments for the two revisions.
    pub fn new(ancestor: String, descendant: String) -> (r: BenchIsAncestorArgs)
        ensures
            r.revisions() == (ancestor@, descendant@),
    {
        BenchIsAncestorArgs { ancestor, descendant }
    }

    /// The revision taken as the ancestor.
    pub fn ancestor(&self) -> (r: &String)
        ensures
            r@ == self.revisions().0,
    {
        &self.ancestor
    }

    /// The revision taken as the descendant.
    pub fn descendant(&self) -> (r: &String)
        ensures
            r@ == self.revisions().1,
    {
        &self.descendant
    }
}

impl BenchRevsetArgs {
    /// The revset as text.
    pub closed spec fn text(&self) -> Seq<char> {
        self.revisions@
    }

    /// The arguments for the revset.
    pub fn new(revisions: String) -> (r: BenchRevsetArgs)
        ensures
            r.text() == revisions@,
    {
        BenchRevsetArgs { revisions }
    }

    /// The revset.
    pub fn revisions(&self) -> (r: &String)
        ensures
            r@ == self.text(),
    {
        &self.revisions
    }
}

impl BenchRevsetsArgs {
    /// The name of the file as text.
    pub closed spec fn text(&self) -> Seq<char> {
        self.file@
    }

    /// The arguments for the file of revsets.
    pub fn new(file: String) -> (r: BenchRevsetsArgs)
        ensures
            r.text() == file@,
    {
        BenchRevsetsArgs { file }
    }

    /// The name of the file of revsets.
    pub fn file(&self) -> (r: &String)
        ensures
            r@ == self.text(),
    {
        &self.file
    }
}

impl BenchResolvePrefixArgs {
    /// The prefix as text.
    pub closed spec fn text(&self) -> Seq<char> {
        self.prefix@
    }

    /// The arguments for the prefix.
    pub fn new(prefix: String) -> (r: BenchResolvePrefixArgs)
        ensures
            r.text() == prefix@,
    {
        BenchResolvePrefixArgs { prefix }
    }

    /// The prefix as given.
    pub fn prefix(&self) -> (r: &String)
        ensures
            r@ == self.text(),
    {
        &self.prefix
    }
}

/// The name under which timing two revisions is reported: the kind of
/// benchmark, then the two revisions, joined by hyphens.
pub open spec fn pair_id(kind: Seq<char>, first: Seq<char>, second: Seq<char>) -> Seq<char> {
    kind + seq!['-'] + first + seq!['-'] + second
}

/// The name under which timing one input is reported.
pub open spec fn single_id(kind: Seq<char>, input: Seq<char>) -> Seq<char> {
    kind + seq!['-'] + input
}

impl BenchCommonAncestorsArgs {
    /// The name under which this benchmark is reported.
    pub fn bench_id(&self) -> (id: String)
        ensures
            id@ == pair_id("commonancestors"@, self.revisions().0, self.revisions().1),
    {
        proof {
            reveal_strlit("-");
        }
        let mut id = String::from_str("commonancestors");
        id.append("-");
        id.append(self.revision1.as_str());
        id.append("-");
        id.append(self.revision2.as_str());
        assert("-"@ =~= seq!['-']);
        id
    }
}

impl BenchIsAncestorArgs {
    /// The name under which this benchmark is reported.
    pub fn bench_id(&self) -> (id: String)
        ensures
            id@ == pair_id("isancestor"@, self.revisions().0, self.revisions().1),
    {
        proof {
            reveal_strlit("-");
        }
        let mut id = String::from_str("isancestor");
        id.append("-");
        id.append(self.ancestor.as_str());
        id.append("-");
        id.append(self.descendant.as_str());
        assert("-"@ =~= seq!['-']);
        id
    }
}

impl BenchRevsetArgs {
    /// The name under which this benchmark is reported.
    pub fn bench_id(&self) -> (id: String)
        ensures
            id@ == single_id("revset"@, self.text()),
    {
        proof {
            reveal_strlit("-");
        }
        let mut id = String::from_str("revset");
        id.append("-");
        id.append(self.revisions.as_str());
        assert("-"@ =~= seq!['-']);
        id
    }
}


impl BenchResolvePrefixArgs {
    /// The name under which resolving the prefix is reported, for the
    /// prefix written in lower-case hexadecimal digits.
    pub fn bench_id(hex: &str) -> (id: String)
        ensures
            id@ == single_id("resolveprefix"@, hex@),
    {
        proof {
            reveal_strlit("-");
        }
        let mut id = String::from_str("resolveprefix");
        id.append("-");
        id.append(hex);
        assert("-"@ =~= seq!['-']);
        id
    }
}

/// The name under which one revset of a file of revsets is reported.
pub fn revsets_bench_id(revset: &str) -> (id: String)
    ensures
        id@ == "revset"@ + seq![' '] + revset@,
{
    proof {
        reveal_strlit(" ");
    }
    let mut id = String::from_str("revset");
    id.append(" ");
    id.append(revset);
    assert(" "@ =~= seq![' ']);
    id
}

/// White space as the trimming of a line takes it: the characters with the
/// Unicode property `White_Space`.
pub open spec fn is_space(c: char) -> bool {
    let n = c as u32;
    ||| 0x09 <= n <= 0x0d
    ||| n == 0x20
    ||| n == 0x85
    ||| n == 0xa0
    ||| n == 0x1680
    ||| 0x2000 <= n <= 0x200a
    ||| n == 0x2028
    ||| n == 0x2029
    ||| n == 0x202f
    ||| n == 0x205f
    ||| n == 0x3000
}

/// The first position from `i` on that holds no white space.
pub open spec fn skip_space(text: Seq<char>, i: int) -> int
    decreases text.len() - i,
{
    if i < 0 || i >= text.len() || !is_space(text[i]) {
        i
    } else {
        skip_space(text, i + 1)
    }
}

/// The end of the text before position `j` once trailing white space is dropped.
pub open spec fn drop_space(text: Seq<char>, j: int) -> int
    decreases j,
{
    if j <= 0 || j > text.len() || !is_space(text[j - 1]) {
        j
    } else {
        drop_space(text, j - 1)
    }
}

/// The text from `from` up to `to` without the white space at its ends.
pub open spec fn trimmed(text: Seq<char>, from: int, to: int) -> Seq<char> {
    let line = text.subrange(from, to);
    let a = skip_space(line, 0);
    if a >= line.len() {
        Seq::empty()
    } else {
        line.subrange(a, drop_space(line, line.len() as int))
    }
}

/// Whether a trimmed line names a revset: it is not empty and no comment.
pub open spec fn is_revset(line: Seq<char>) -> bool {
    line.len() > 0 && line[0] != '#'
}

/// The revsets in the lines of a text from position `start` on.
pub open spec fn revsets_from(text: Seq<char>, start: int) -> Seq<Seq<char>>
    decreases text.len() - start,
{
    if start < 0 || start > text.len() {
        Seq::empty()
    } else {
        let end = first_index_from(text, '\n', start);
        if end < start || end > text.len() {
            Seq::empty()
        } else {
            let line = trimmed(text, start, end);
            let here = if is_revset(line) {
                seq![line]
            } else {
                Seq::empty()
            };
            if end >= text.len() {
                here
            } else {
                here + revsets_from(text, end + 1)
            }
        }
    }
}

/// The revsets that a file of revsets asks to benchmark: its lines without
/// the white space at their ends, but for empty lines and lines that start
/// with `#`.
pub open spec fn revsets_in(text: Seq<char>) -> Seq<Seq<char>> {
    revsets_from(text, 0)
}

/// What a list of texts holds.
pub open spec fn texts_of(list: Seq<String>) -> Seq<Seq<char>> {
    Seq::new(list.len(), |i: int| list[i]@)
}

/// Whether a character is white space.
pub fn is_whitespace(c: char) -> (b: bool)
    ensures
        b == is_space(c),
{
    let n = c as u32;
    (0x09 <= n && n <= 0x0d) || n == 0x20 || n == 0x85 || n == 0xa0 || n == 0x1680 || (0x2000 <= n
        && n <= 0x200a) || n == 0x2028 || n == 0x2029 || n == 0x202f || n == 0x205f || n == 0x3000
}

/// The revsets that a file of revsets asks to benchmark.
pub fn revsets_to_benchmark(contents: &str) -> (r: Vec<String>)
    ensures
        texts_of(r@) == revsets_in(contents@),
{
    let n = contents.unicode_len();
    let mut r: Vec<String> = Vec::new();
    let mut start: usize = 0;
    assert(texts_of(r@) =~= Seq::<Seq<char>>::empty());
    loop
        invariant
            start <= n,
            n == contents@.len(),
            texts_of(r@) + revsets_from(contents@, start as int) == revsets_in(contents@),
        decreases n - start + 1,
    {
        // The end of the line that starts here.
        let mut end: usize = start;
        while end < n && contents.get_char(end) != '\n'
            invariant
                start <= end <= n,
                n == contents@.len(),
                first_index_from(contents@, '\n', end as int) == first_index_from(
                    contents@,
                    '\n',
                    start as int,
                ),
            decreases n - end,
        {
            end += 1;
        }
        assert(end == first_index_from(contents@, '\n', start as int));
        let ghost line = contents@.subrange(start as int, end as int);
        // The line without the white space at its ends.
        let mut a: usize = start;
        while a < end && is_whitespace(contents.get_char(a))
            invariant
                start <= a <= end,
                end <= n,
                n == contents@.len(),
                line == contents@.subrange(start as int, end as int),
                skip_space(line, a - start) == skip_space(line, 0),
            decreases end - a,
        {
            assert(line[a - start] == contents@[a as int]);
            a += 1;
        }
        assert(a - start == skip_space(line, 0)) by {
            if a < end {
                assert(line[a - start] == contents@[a as int]);
            }
        }
        let mut b: usize = end;
        while b > a && is_whitespace(contents.get_char(b - 1))
            invariant
                a <= b <= end,
                start <= a,
                end <= n,
                n == contents@.len(),
                line == contents@.subrange(start as int, end as int),
                drop_space(line, b - start) == drop_space(line, line.len() as int),
            decreases b,
        {
            assert(line[b - start - 1] == contents@[b - 1]);
            b -= 1;
        }
        let ghost before = texts_of(r@);
        let ghost here = trimmed(contents@, start as int, end as int);
        proof {
            if a < end {
                assert(line[a - start] == contents@[a as int]);
                assert(!is_space(line[a - start]));
                if b > a {
                    assert(line[b - start - 1] == contents@[b - 1]);
                }
                assert(b > a) by {
                    if b == a {
                        lemma_drop_space_stops(line, line.len() as int, a - start);
                        lemma_drop_space_bound(line, a - start);
                    }
                }
                assert(drop_space(line, b - start) == b - start);
                assert(here =~= contents@.subrange(a as int, b as int));
            } else {
                assert(here =~= Seq::<char>::empty());
            }
        }
        if a < b && contents.get_char(a) != '#' {
            let text = String::from_str(contents.substring_char(a, b));
            r.push(text);
            assert(texts_of(r@) =~= before.push(here));
            assert(before.push(here) =~= before + seq![here]);
        } else {
            assert(!is_revset(here)) by {
                if a < b {
                    assert(here[0] == contents@[a as int]);
                }
            }
            assert(before + Seq::<Seq<char>>::empty() =~= before);
        }
        if end >= n {
            return r;
        }
        proof {
            let rest = revsets_from(contents@, end + 1);
            let kept = if is_revset(here) {
                seq![here]
            } else {
                Seq::<Seq<char>>::empty()
            };
            assert(revsets_from(contents@, start as int) == kept + rest);
            assert((before + kept) + rest =~= before + (kept + rest));
        }
        start = end + 1;
    }
}

/// Dropping trailing white space moves the end backwards only.
pub proof fn lemma_drop_space_bound(text: Seq<char>, j: int)
    ensures
        drop_space(text, j) <= j,
    decreases j,
{
    if 0 < j <= text.len() && is_space(text[j - 1]) {
        lemma_drop_space_bound(text, j - 1);
    }
}

/// Dropping trailing white space never goes past a character that is none.
pub proof fn lemma_drop_space_stops(text: Seq<char>, j: int, a: int)
    requires
        0 <= a < j <= text.len(),
        !is_space(text[a]),
    ensures
        drop_space(text, j) > a,
    decreases j,
{
    if is_space(text[j - 1]) {
        lemma_drop_space_stops(text, j - 1, a);
    }
}

} // verus!
