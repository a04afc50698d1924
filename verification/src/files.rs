//! Merging file contents line by line.
use vstd::prelude::*;
use crate::algebra_laws::lemma_first_index_is;
use crate::merge::{copy_range, first_index_from, Merge, MergeView};
use crate::store::{bytes_of, distinct};

verus! {

/// The byte that ends a line.
pub open spec fn newline() -> u8 {
    10u8
}

/// The lines of a text, each with the newline that ends it; the last line
/// may lack one.
pub open spec fn lines(text: Seq<u8>) -> Seq<Seq<u8>>
    decreases text.len(),
{
    if text.len() == 0 {
        Seq::empty()
    } else {
        let k = first_index_from(text, newline(), 0);
        if k < 0 || k >= text.len() {
            seq![text]
        } else {
            seq![text.take(k + 1)] + lines(text.skip(k + 1))
        }
    }
}

/// Every term has `n` lines.
pub open spec fn all_of_length(split: MergeView<Seq<Seq<u8>>>, n: nat) -> bool {
    &&& forall|i: int| 0 <= i < split.adds.len() ==> (#[trigger] split.adds[i]).len() == n
    &&& forall|j: int| 0 <= j < split.removes.len() ==> (#[trigger] split.removes[j]).len() == n
}

/// The lines at position `k` of all terms.
pub open spec fn lines_at(split: MergeView<Seq<Seq<u8>>>, k: int) -> MergeView<Seq<u8>> {
    split.map(|term: Seq<Seq<u8>>| term[k])
}

/// The first `n` lines merged: each position resolves trivially among the
/// terms, or there is no result.
pub open spec fn merged_lines(split: MergeView<Seq<Seq<u8>>>, n: nat) -> Option<Seq<u8>>
    decreases n,
{
    if n == 0 {
        Some(Seq::empty())
    } else {
        match (merged_lines(split, (n - 1) as nat), lines_at(split, n - 1).resolve_trivial()) {
            (Some(head), Some(line)) => Some(head + line),
            _ => None,
        }
    }
}

/// The contents merged line by line. There is a result where all terms have
/// the same number of lines and at each position the lines resolve
/// trivially: no position is changed in two ways. Terms that differ in their
/// number of lines are left conflicted.
pub open spec fn merged_content(terms: MergeView<Seq<u8>>) -> Option<Seq<u8>> {
    let split = terms.map(|text: Seq<u8>| lines(text));
    if terms.adds.len() > 0 && all_of_length(split, split.adds[0].len()) {
        merged_lines(split, split.adds[0].len())
    } else {
        None
    }
}


/// Once a position does not resolve, no longer run of lines has a result.
pub proof fn lemma_merged_lines_none(split: MergeView<Seq<Seq<u8>>>, k: nat, n: nat)
    requires
        k <= n,
        merged_lines(split, k).is_none(),
    ensures
        merged_lines(split, n).is_none(),
    decreases n - k,
{
    if k < n {
        lemma_merged_lines_none(split, k, (n - 1) as nat);
    }
}

/// The lines of a text.
pub fn split_lines(text: &Vec<u8>) -> (r: Vec<Vec<u8>>)
    ensures
        bytes_of(r@) == lines(text@),
{
    let mut r: Vec<Vec<u8>> = Vec::new();
    let mut start: usize = 0;
    let mut i: usize = 0;
    assert(bytes_of(r@) =~= Seq::<Seq<u8>>::empty());
    assert(text@.skip(0) =~= text@);
    while i < text.len()
        invariant
            start <= i <= text.len(),
            bytes_of(r@) + lines(text@.skip(start as int)) == lines(text@),
            forall|j: int| start <= j < i ==> text@[j] != newline(),
        decreases text.len() - i,
    {
        if text[i] == 10u8 {
            let line = copy_range(text, start, i + 1);
            proof {
                let rest = text@.skip(start as int);
                let k = i - start;
                assert(rest[k] == newline());
                assert forall|j: int| 0 <= j < k implies rest[j] != newline() by {
                    assert(rest[j] == text@[start + j]);
                }
                lemma_first_index_is(rest, newline(), 0, k);
                assert(rest.take(k + 1) =~= line@);
                assert(rest.skip(k + 1) =~= text@.skip(i + 1));
                assert(lines(rest) == seq![line@] + lines(text@.skip(i + 1)));
                assert(bytes_of(r@.push(line)) =~= bytes_of(r@).push(line@));
                assert(bytes_of(r@).push(line@) + lines(text@.skip(i + 1)) =~= bytes_of(r@) + (
                seq![line@] + lines(text@.skip(i + 1))));
            }
            r.push(line);
            start = i + 1;
        }
        i += 1;
    }
    if start < text.len() {
        let line = copy_range(text, start, text.len());
        proof {
            let rest = text@.skip(start as int);
            assert forall|j: int| 0 <= j < rest.len() implies rest[j] != newline() by {
                assert(rest[j] == text@[start + j]);
            }
            lemma_first_index_is(rest, newline(), 0, rest.len() as int);
            assert(rest =~= line@);
            assert(bytes_of(r@.push(line)) =~= bytes_of(r@).push(line@));
            assert(bytes_of(r@).push(line@) =~= bytes_of(r@) + seq![line@]);
        }
        r.push(line);
    } else {
        assert(text@.skip(start as int).len() == 0);
        assert(bytes_of(r@) + Seq::<Seq<u8>>::empty() =~= bytes_of(r@));
    }
    r
}

/// The lines of every text in a list.
fn split_all(texts: &Vec<Vec<u8>>) -> (r: Vec<Vec<Vec<u8>>>)
    ensures
        r.len() == texts.len(),
        forall|i: int| 0 <= i < r.len() ==> bytes_of(#[trigger] r@[i]@) == lines(texts@[i]@),
{
    let mut r: Vec<Vec<Vec<u8>>> = Vec::new();
    let mut i: usize = 0;
    while i < texts.len()
        invariant
            i <= texts.len(),
            r.len() == i,
            forall|k: int| 0 <= k < i ==> bytes_of(#[trigger] r@[k]@) == lines(texts@[k]@),
        decreases texts.len() - i,
    {
        r.push(split_lines(&texts[i]));
        i += 1;
    }
    r
}

/// Whether every list of lines has `n` lines.
fn all_have_length(split: &Vec<Vec<Vec<u8>>>, n: usize) -> (b: bool)
    ensures
        b == (forall|i: int| 0 <= i < split.len() ==> (#[trigger] split@[i]).len() == n),
{
    let mut i: usize = 0;
    while i < split.len()
        invariant
            i <= split.len(),
            forall|k: int| 0 <= k < i ==> (#[trigger] split@[k]).len() == n,
        decreases split.len() - i,
    {
        if split[i].len() != n {
            return false;
        }
        i += 1;
    }
    true
}

/// The position of `line` in `table`, which gets the line appended where it
/// does not hold it yet.
fn intern(table: &mut Vec<Vec<u8>>, line: &Vec<u8>) -> (id: usize)
    requires
        distinct(bytes_of(old(table)@)),
    ensures
        distinct(bytes_of(final(table)@)),
        bytes_of(old(table)@).is_prefix_of(bytes_of(final(table)@)),
        id < final(table).len(),
        final(table)@[id as int]@ == line@,
{
    proof {
        reveal(vstd::laws_eq::obeys_concrete_eq);
        assert(vstd::laws_eq::obeys_concrete_eq::<u8>());
    }
    let mut p: usize = 0;
    while p < table.len()
        invariant
            p <= table.len(),
            table@ == old(table)@,
            distinct(bytes_of(table@)),
            forall|k: int| 0 <= k < p ==> bytes_of(table@)[k] != line@,
            vstd::laws_eq::obeys_concrete_eq::<u8>(),
        decreases table.len() - p,
    {
        if crate::merge::same_items(&table[p], line) {
            return p;
        }
        p += 1;
    }
    table.push(crate::merge::copy_items(line));
    assert(bytes_of(table@) =~= bytes_of(old(table)@).push(line@));
    p
}

/// The positions in `table` of the lines at position `k` of every term.
fn intern_column(table: &mut Vec<Vec<u8>>, split: &Vec<Vec<Vec<u8>>>, k: usize) -> (r: Vec<usize>)
    requires
        distinct(bytes_of(old(table)@)),
        forall|i: int| 0 <= i < split.len() ==> k < (#[trigger] split@[i]).len(),
    ensures
        distinct(bytes_of(final(table)@)),
        bytes_of(old(table)@).is_prefix_of(bytes_of(final(table)@)),
        r.len() == split.len(),
        forall|i: int|
            0 <= i < r.len() ==> #[trigger] r@[i] < final(table).len() && bytes_of(
                final(table)@,
            )[r@[i] as int] == split@[i]@[k as int]@,
{
    let mut r: Vec<usize> = Vec::new();
    let mut i: usize = 0;
    while i < split.len()
        invariant
            i <= split.len(),
            r.len() == i,
            distinct(bytes_of(table@)),
            bytes_of(old(table)@).is_prefix_of(bytes_of(table@)),
            forall|j: int| 0 <= j < split.len() ==> k < (#[trigger] split@[j]).len(),
            forall|j: int|
                0 <= j < i ==> #[trigger] r@[j] < table.len() && bytes_of(table@)[r@[j] as int]
                    == split@[j]@[k as int]@,
        decreases split.len() - i,
    {
        let ghost before = bytes_of(table@);
        let id = intern(table, &split[i][k]);
        assert forall|j: int| 0 <= j < i implies #[trigger] r@[j] < table.len() && bytes_of(
            table@,
        )[r@[j] as int] == split@[j]@[k as int]@ by {
            assert(before[r@[j] as int] == bytes_of(table@)[r@[j] as int]);
        }
        r.push(id);
        i += 1;
    }
    r
}

/// The contents merged line by line, if no position is changed in two ways.
pub fn merge_contents(removes: &Vec<Vec<u8>>, adds: &Vec<Vec<u8>>) -> (r: Option<Vec<u8>>)
    requires
        adds.len() == removes.len() + 1,
    ensures
        match r {
            Some(text) => merged_content(
                MergeView { removes: bytes_of(removes@), adds: bytes_of(adds@) },
            ) == Some(text@),
            None => merged_content(
                MergeView { removes: bytes_of(removes@), adds: bytes_of(adds@) },
            ).is_none(),
        },
{
    let ghost terms = MergeView { removes: bytes_of(removes@), adds: bytes_of(adds@) };
    let ghost split = terms.map(|text: Seq<u8>| lines(text));
    let removed = split_all(removes);
    let added = split_all(adds);
    let n = added[0].len();
    assert(split.adds[0] == lines(adds@[0]@));
    assert(split.adds[0].len() == n) by {
        assert(bytes_of(added@[0]@).len() == n);
    }
    let fits = all_have_length(&removed, n) && all_have_length(&added, n);
    proof {
        assert forall|i: int| 0 <= i < split.adds.len() implies (#[trigger] split.adds[i]).len()
            == added@[i].len() by {
            assert(bytes_of(added@[i]@).len() == added@[i].len());
        }
        assert forall|j: int| 0 <= j < split.removes.len() implies (#[trigger] split.removes[j]).len()
            == removed@[j].len() by {
            assert(bytes_of(removed@[j]@).len() == removed@[j].len());
        }
        if all_of_length(split, n as nat) {
            assert forall|i: int| 0 <= i < added.len() implies (#[trigger] added@[i]).len() == n by {
                assert(split.adds[i].len() == n);
            }
            assert forall|j: int| 0 <= j < removed.len() implies (#[trigger] removed@[j]).len()
                == n by {
                assert(split.removes[j].len() == n);
            }
        }
    }
    if !fits {
        return None;
    }
    let mut out: Vec<u8> = Vec::new();
    let mut k: usize = 0;
    assert(out@ =~= Seq::<u8>::empty());
    while k < n
        invariant
            k <= n,
            adds.len() == removes.len() + 1,
            removed.len() == removes.len(),
            added.len() == adds.len(),
            terms == (MergeView { removes: bytes_of(removes@), adds: bytes_of(adds@) }),
            split == terms.map(|text: Seq<u8>| lines(text)),
            forall|i: int| 0 <= i < added.len() ==> bytes_of(#[trigger] added@[i]@) == lines(adds@[i]@),
            forall|j: int|
                0 <= j < removed.len() ==> bytes_of(#[trigger] removed@[j]@) == lines(
                    removes@[j]@,
                ),
            forall|i: int| 0 <= i < added.len() ==> (#[trigger] added@[i]).len() == n,
            forall|j: int| 0 <= j < removed.len() ==> (#[trigger] removed@[j]).len() == n,
            all_of_length(split, n as nat),
            split.adds[0].len() == n,
            merged_lines(split, k as nat) == Some(out@),
        decreases n - k,
    {
        let mut table: Vec<Vec<u8>> = Vec::new();
        let rem_ids = intern_column(&mut table, &removed, k);
        let ghost mid = bytes_of(table@);
        let add_ids = intern_column(&mut table, &added, k);
        let ids = Merge::new(rem_ids, add_ids);
        proof {
            reveal(vstd::laws_eq::obeys_concrete_eq);
            assert(vstd::laws_eq::obeys_concrete_eq::<usize>());
        }
        let resolved = ids.resolve_trivial();
        proof {
            let tv = bytes_of(table@);
            let f = |id: usize| tv[id as int];
            let dom = |id: usize| id < tv.len();
            assert(crate::algebra_laws::injective_on(f, dom)) by {
                assert forall|x: usize, y: usize| dom(x) && dom(y) && #[trigger] f(x)
                    == #[trigger] f(y) implies x == y by {
                    if x < y {
                        assert(tv[x as int] != tv[y as int]);
                    } else if y < x {
                        assert(tv[y as int] != tv[x as int]);
                    }
                }
            }
            assert(crate::algebra_laws::terms_in(ids@, dom)) by {
                assert forall|j: int| 0 <= j < ids@.removes.len() implies dom(
                    #[trigger] ids@.removes[j],
                ) by {
                    assert(ids@.removes[j] < mid.len());
                }
            }
            crate::algebra_laws::lemma_resolve_trivial_renamed(ids@, f, dom);
            let column = lines_at(split, k as int);
            assert(ids@.map(f).adds =~= column.adds) by {
                assert forall|i: int| 0 <= i < column.adds.len() implies ids@.map(f).adds[i]
                    == column.adds[i] by {
                    assert(bytes_of(added@[i]@)[k as int] == added@[i]@[k as int]@);
                }
            }
            assert(ids@.map(f).removes =~= column.removes) by {
                assert forall|j: int| 0 <= j < column.removes.len() implies ids@.map(f).removes[j]
                    == column.removes[j] by {
                    assert(bytes_of(removed@[j]@)[k as int] == removed@[j]@[k as int]@);
                    assert(mid[ids@.removes[j] as int] == tv[ids@.removes[j] as int]);
                }
            }
            assert(ids@.map(f) == column);
        }
        match resolved {
            None => {
                proof {
                    lemma_merged_lines_none(split, (k + 1) as nat, n as nat);
                }
                return None;
            },
            Some(id) => {
                proof {
                    crate::algebra_laws::lemma_resolve_trivial_is_a_term(ids@);
                }
                let line = &table[id];
                let ghost before = out@;
                let mut j: usize = 0;
                while j < line.len()
                    invariant
                        j <= line.len(),
                        out@ == before + line@.take(j as int),
                    decreases line.len() - j,
                {
                    out.push(line[j]);
                    assert(line@.take(j + 1) =~= line@.take(j as int).push(line@[j as int]));
                    assert(out@ =~= before + line@.take(j + 1));
                    j += 1;
                }
                assert(line@.take(line.len() as int) =~= line@);
            },
        }
        k += 1;
    }
    Some(out)
}

} // verus!
