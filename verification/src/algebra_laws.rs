//! Laws of the conflict algebra: what cancelling and trivial resolution keep.
use vstd::prelude::*;
use crate::merge::{first_index_from, occurrences, MergeView};

verus! {

/// Cancelling keeps the arity invariant and never adds terms.
pub proof fn lemma_simplify_from_wf<T>(m: MergeView<T>, i: int)
    requires
        m.wf(),
    ensures
        m.simplify_from(i).wf(),
        m.simplify_from(i).adds.len() <= m.adds.len(),
    decreases m.adds.len(), m.adds.len() - i,
{
    if 0 <= i < m.adds.len() {
        let j = first_index_from(m.removes, m.adds[i], 0);
        lemma_first_index(m.removes, m.adds[i], 0);
        if j < m.removes.len() {
            lemma_simplify_from_wf(m.without(j, i), i);
        } else {
            lemma_simplify_from_wf(m, i + 1);
        }
    }
}

/// What `first_index_from` finds: the item, not seen earlier, or the end.
pub proof fn lemma_first_index<T>(s: Seq<T>, v: T, from: int)
    requires
        0 <= from,
    ensures
        from <= first_index_from(s, v, from) <= s.len() || (from > s.len() && first_index_from(
            s,
            v,
            from,
        ) == s.len()),
        first_index_from(s, v, from) < s.len() ==> s[first_index_from(s, v, from)] == v,
        forall|k: int| from <= k < first_index_from(s, v, from) ==> s[k] != v,
    decreases s.len() - from,
{
    if from < s.len() && s[from] != v {
        lemma_first_index(s, v, from + 1);
    }
}

/// Once the added terms before `i` are known to match no removed term,
/// cancelling from `i` on leaves no removed term equal to an added one.
pub proof fn lemma_simplify_from_is_simplified<T>(m: MergeView<T>, i: int)
    requires
        m.wf(),
        0 <= i,
        forall|a: int, r: int|
            0 <= a < i && a < m.adds.len() && 0 <= r < m.removes.len() ==> #[trigger] m.adds[a]
                != #[trigger] m.removes[r],
    ensures
        m.simplify_from(i).is_simplified(),
    decreases m.adds.len(), m.adds.len() - i,
{
    if i < m.adds.len() {
        let j = first_index_from(m.removes, m.adds[i], 0);
        lemma_first_index(m.removes, m.adds[i], 0);
        if j < m.removes.len() {
            let w = m.without(j, i);
            assert forall|a: int, r: int|
                0 <= a < i && a < w.adds.len() && 0 <= r < w.removes.len() implies #[trigger] w.adds[a]
                != #[trigger] w.removes[r] by {
                assert(w.adds[a] == m.adds[a]);
                assert(w.removes[r] == m.removes[if r < j {
                    r
                } else {
                    r + 1
                }]);
            }
            lemma_simplify_from_is_simplified(w, i);
        } else {
            lemma_simplify_from_is_simplified(m, i + 1);
        }
    }
}

/// After cancelling, no removed term equals an added term.
pub proof fn lemma_simplify_is_simplified<T>(m: MergeView<T>)
    requires
        m.wf(),
    ensures
        m.simplify().is_simplified(),
        m.simplify().wf(),
        m.simplify().adds.len() <= m.adds.len(),
{
    lemma_simplify_from_is_simplified(m, 0);
    lemma_simplify_from_wf(m, 0);
}

/// Terms in which no removed term equals an added term are left as they are.
pub proof fn lemma_simplified_is_fixed<T>(m: MergeView<T>, i: int)
    requires
        m.is_simplified(),
        0 <= i,
    ensures
        m.simplify_from(i) == m,
    decreases m.adds.len() - i,
{
    if i < m.adds.len() {
        lemma_first_index(m.removes, m.adds[i], 0);
        lemma_simplified_is_fixed(m, i + 1);
    }
}

/// Cancelling twice gives what cancelling once gives.
pub proof fn lemma_simplify_idempotent<T>(m: MergeView<T>)
    requires
        m.wf(),
    ensures
        m.simplify().simplify() == m.simplify(),
{
    lemma_simplify_is_simplified(m);
    lemma_simplified_is_fixed(m.simplify(), 0);
}

/// Cancelling is lossless for trivial resolution: the terms resolve
/// trivially to the same value before and after.
pub proof fn lemma_simplify_keeps_resolution<T>(m: MergeView<T>)
    requires
        m.wf(),
    ensures
        m.simplify().resolve_trivial() == m.resolve_trivial(),
{
    lemma_simplify_idempotent(m);
}

/// A resolved value is left as it is.
pub proof fn lemma_simplify_resolved<T>(m: MergeView<T>)
    requires
        m.is_resolved(),
    ensures
        m.simplify() == m,
        m.wf() ==> m.resolve_trivial() == Some(m.adds[0]),
{
    lemma_simplified_is_fixed(m, 0);
}

/// Deleting one item lowers its count by one and leaves the other counts.
pub proof fn lemma_occurrences_remove<T>(s: Seq<T>, k: int, v: T)
    requires
        0 <= k < s.len(),
    ensures
        occurrences(s.remove(k), v) == occurrences(s, v) - if s[k] == v {
            1int
        } else {
            0int
        },
    decreases s.len(),
{
    if k == s.len() - 1 {
        assert(s.remove(k) =~= s.drop_last());
    } else {
        assert(s.remove(k).drop_last() =~= s.drop_last().remove(k));
        assert(s.remove(k).last() == s.last());
        lemma_occurrences_remove(s.drop_last(), k, v);
    }
}

/// Cancelling is lossless: for every value, the number of times it is added
/// minus the number of times it is removed stays the same.
pub proof fn lemma_simplify_from_keeps_net_count<T>(m: MergeView<T>, i: int, v: T)
    requires
        m.wf(),
    ensures
        m.simplify_from(i).net_count(v) == m.net_count(v),
    decreases m.adds.len(), m.adds.len() - i,
{
    if 0 <= i < m.adds.len() {
        let j = first_index_from(m.removes, m.adds[i], 0);
        lemma_first_index(m.removes, m.adds[i], 0);
        if j < m.removes.len() {
            lemma_occurrences_remove(m.removes, j, v);
            lemma_occurrences_remove(m.adds, i, v);
            lemma_simplify_from_keeps_net_count(m.without(j, i), i, v);
        } else {
            lemma_simplify_from_keeps_net_count(m, i + 1, v);
        }
    }
}

/// Cancelling makes up no term: what is left was among the terms before.
pub proof fn lemma_simplify_from_keeps_terms<T>(m: MergeView<T>, i: int)
    requires
        m.wf(),
    ensures
        forall|k: int|
            0 <= k < m.simplify_from(i).adds.len() ==> m.adds.contains(
                #[trigger] m.simplify_from(i).adds[k],
            ),
        forall|k: int|
            0 <= k < m.simplify_from(i).removes.len() ==> m.removes.contains(
                #[trigger] m.simplify_from(i).removes[k],
            ),
    decreases m.adds.len(), m.adds.len() - i,
{
    if 0 <= i < m.adds.len() {
        let j = first_index_from(m.removes, m.adds[i], 0);
        lemma_first_index(m.removes, m.adds[i], 0);
        if j < m.removes.len() {
            let w = m.without(j, i);
            lemma_simplify_from_keeps_terms(w, i);
            let r = w.simplify_from(i);
            assert(m.simplify_from(i) == r);
            assert forall|k: int| 0 <= k < r.adds.len() implies m.adds.contains(
                #[trigger] r.adds[k],
            ) by {
                assert(w.adds.contains(r.adds[k]));
                let x = choose|x: int| 0 <= x < w.adds.len() && w.adds[x] == r.adds[k];
                assert(w.adds[x] == m.adds[if x < i {
                    x
                } else {
                    x + 1
                }]);
            }
            assert forall|k: int| 0 <= k < r.removes.len() implies m.removes.contains(
                #[trigger] r.removes[k],
            ) by {
                assert(w.removes.contains(r.removes[k]));
                let x = choose|x: int| 0 <= x < w.removes.len() && w.removes[x] == r.removes[k];
                assert(w.removes[x] == m.removes[if x < j {
                    x
                } else {
                    x + 1
                }]);
            }
        } else {
            lemma_simplify_from_keeps_terms(m, i + 1);
            assert(m.simplify_from(i) == m.simplify_from(i + 1));
        }
    } else {
        assert(m.simplify_from(i) == m);
        assert forall|k: int| 0 <= k < m.adds.len() implies m.adds.contains(#[trigger] m.adds[k]) by {}
        assert forall|k: int| 0 <= k < m.removes.len() implies m.removes.contains(
            #[trigger] m.removes[k],
        ) by {}
    }
}

/// The value that terms resolve to trivially is one of the added terms.
pub proof fn lemma_resolve_trivial_is_a_term<T>(m: MergeView<T>)
    requires
        m.wf(),
        m.resolve_trivial().is_some(),
    ensures
        m.adds.contains(m.resolve_trivial().unwrap()),
{
    lemma_simplify_from_keeps_terms(m, 0);
    lemma_simplify_from_wf(m, 0);
}

/// Every term satisfies `dom`.
pub open spec fn terms_in<T>(m: MergeView<T>, dom: spec_fn(T) -> bool) -> bool {
    &&& forall|i: int| 0 <= i < m.adds.len() ==> dom(#[trigger] m.adds[i])
    &&& forall|j: int| 0 <= j < m.removes.len() ==> dom(#[trigger] m.removes[j])
}

/// `f` gives different results for different items that satisfy `dom`.
pub open spec fn injective_on<A, B>(f: spec_fn(A) -> B, dom: spec_fn(A) -> bool) -> bool {
    forall|x: A, y: A| dom(x) && dom(y) && #[trigger] f(x) == #[trigger] f(y) ==> x == y
}

/// Searching for an item gives the same position after renaming all items
/// one to one.
pub proof fn lemma_first_index_renamed<A, B>(
    s: Seq<A>,
    v: A,
    f: spec_fn(A) -> B,
    dom: spec_fn(A) -> bool,
    from: int,
)
    requires
        injective_on(f, dom),
        dom(v),
        forall|k: int| 0 <= k < s.len() ==> dom(#[trigger] s[k]),
    ensures
        first_index_from(s.map_values(f), f(v), from) == first_index_from(s, v, from),
    decreases s.len() - from,
{
    if 0 <= from < s.len() {
        assert(s.map_values(f)[from] == f(s[from]));
        if s[from] != v {
            lemma_first_index_renamed(s, v, f, dom, from + 1);
        }
    }
}

/// Cancelling gives the same terms whether items are renamed one to one
/// before or after.
pub proof fn lemma_simplify_from_renamed<A, B>(
    m: MergeView<A>,
    f: spec_fn(A) -> B,
    dom: spec_fn(A) -> bool,
    i: int,
)
    requires
        m.wf(),
        injective_on(f, dom),
        terms_in(m, dom),
    ensures
        m.map(f).simplify_from(i) == m.simplify_from(i).map(f),
        terms_in(m.simplify_from(i), dom),
    decreases m.adds.len(), m.adds.len() - i,
{
    let n = m.map(f);
    if 0 <= i < m.adds.len() {
        assert(n.adds[i] == f(m.adds[i]));
        lemma_first_index_renamed(m.removes, m.adds[i], f, dom, 0);
        let j = first_index_from(m.removes, m.adds[i], 0);
        lemma_first_index(m.removes, m.adds[i], 0);
        if j < m.removes.len() {
            let w = m.without(j, i);
            assert(w.map(f).removes =~= n.without(j, i).removes);
            assert(w.map(f).adds =~= n.without(j, i).adds);
            assert(terms_in(w, dom)) by {
                assert forall|k: int| 0 <= k < w.adds.len() implies dom(#[trigger] w.adds[k]) by {
                    assert(w.adds[k] == m.adds[if k < i {
                        k
                    } else {
                        k + 1
                    }]);
                }
                assert forall|k: int| 0 <= k < w.removes.len() implies dom(
                    #[trigger] w.removes[k],
                ) by {
                    assert(w.removes[k] == m.removes[if k < j {
                        k
                    } else {
                        k + 1
                    }]);
                }
            }
            lemma_simplify_from_renamed(w, f, dom, i);
        } else {
            lemma_simplify_from_renamed(m, f, dom, i + 1);
        }
    }
}

/// Trivial resolution gives the same value whether items are renamed one to
/// one before or after.
pub proof fn lemma_resolve_trivial_renamed<A, B>(
    m: MergeView<A>,
    f: spec_fn(A) -> B,
    dom: spec_fn(A) -> bool,
)
    requires
        m.wf(),
        injective_on(f, dom),
        terms_in(m, dom),
    ensures
        m.map(f).resolve_trivial() == match m.resolve_trivial() {
            Some(v) => Some(f(v)),
            None => None,
        },
{
    lemma_simplify_from_renamed(m, f, dom, 0);
    lemma_simplify_from_wf(m, 0);
    let s = m.simplify();
    let t = s.map(f);
    assert(t == m.map(f).simplify());
    if s.is_uniform() {
        assert forall|i: int| 0 <= i < t.adds.len() implies #[trigger] t.adds[i] == t.adds[0] by {
            assert(s.adds[i] == s.adds[0]);
        }
        assert forall|j: int| 0 <= j < t.removes.len() implies #[trigger] t.removes[j]
            == t.removes[0] by {
            assert(s.removes[j] == s.removes[0]);
        }
    }
    if t.is_uniform() {
        assert forall|i: int| 0 <= i < s.adds.len() implies #[trigger] s.adds[i] == s.adds[0] by {
            assert(t.adds[i] == t.adds[0]);
            assert(dom(s.adds[i]) && dom(s.adds[0]));
        }
        assert forall|j: int| 0 <= j < s.removes.len() implies #[trigger] s.removes[j]
            == s.removes[0] by {
            assert(t.removes[j] == t.removes[0]);
            assert(dom(s.removes[j]) && dom(s.removes[0]));
        }
    }
}

/// A position that holds the item, with none before it, is where the search ends.
pub proof fn lemma_first_index_is<T>(s: Seq<T>, v: T, from: int, k: int)
    requires
        0 <= from <= k <= s.len(),
        forall|j: int| from <= j < k ==> s[j] != v,
        k < s.len() ==> s[k] == v,
    ensures
        first_index_from(s, v, from) == k,
    decreases k - from,
{
    if from < k {
        lemma_first_index_is(s, v, from + 1, k);
    }
}

/// An item is counted as often as it occurs: never less than zero times, and
/// at least once exactly where the list contains it.
pub proof fn lemma_occurrences_contains<T>(s: Seq<T>, v: T)
    ensures
        occurrences(s, v) >= 0,
        occurrences(s, v) >= 1 <==> s.contains(v),
    decreases s.len(),
{
    if s.len() > 0 {
        lemma_occurrences_contains(s.drop_last(), v);
        if s.last() == v {
            assert(s[s.len() - 1] == v);
        } else if s.contains(v) {
            let i = choose|i: int| 0 <= i < s.len() && s[i] == v;
            assert(s.drop_last()[i] == v);
        } else if s.drop_last().contains(v) {
            let i = choose|i: int| 0 <= i < s.drop_last().len() && s.drop_last()[i] == v;
            assert(s[i] == v);
        }
    }
}

/// In a list that repeats one item, that item is counted as often as the
/// list is long, and no other item is counted.
pub proof fn lemma_occurrences_constant<T>(s: Seq<T>, x: T, v: T)
    requires
        forall|i: int| 0 <= i < s.len() ==> s[i] == x,
    ensures
        occurrences(s, v) == if v == x {
            s.len() as int
        } else {
            0int
        },
    decreases s.len(),
{
    if s.len() > 0 {
        assert(s.last() == x);
        lemma_occurrences_constant(s.drop_last(), x, v);
    }
}

/// After cancelling, an added term is added more often than removed, and a
/// removed term is removed more often than added.
pub proof fn lemma_simplified_counts<T>(m: MergeView<T>)
    requires
        m.is_simplified(),
    ensures
        forall|i: int| 0 <= i < m.adds.len() ==> m.net_count(#[trigger] m.adds[i]) >= 1,
        forall|j: int| 0 <= j < m.removes.len() ==> m.net_count(#[trigger] m.removes[j]) <= -1,
{
    assert forall|i: int| 0 <= i < m.adds.len() implies m.net_count(#[trigger] m.adds[i]) >= 1 by {
        let v = m.adds[i];
        lemma_occurrences_contains(m.adds, v);
        lemma_occurrences_contains(m.removes, v);
        if m.removes.contains(v) {
            let j = choose|j: int| 0 <= j < m.removes.len() && m.removes[j] == v;
            assert(m.adds[i] != m.removes[j]);
        }
    }
    assert forall|j: int| 0 <= j < m.removes.len() implies m.net_count(#[trigger] m.removes[j])
        <= -1 by {
        let v = m.removes[j];
        lemma_occurrences_contains(m.adds, v);
        lemma_occurrences_contains(m.removes, v);
        if m.adds.contains(v) {
            let i = choose|i: int| 0 <= i < m.adds.len() && m.adds[i] == v;
            assert(m.adds[i] != m.removes[j]);
        }
    }
}

/// Only `a` is added more often than removed, and at most one value is
/// removed more often than added.
pub open spec fn counts_favour<T>(m: MergeView<T>, a: T) -> bool {
    &&& forall|w: T| #[trigger] m.net_count(w) >= 1 ==> w == a
    &&& forall|w1: T, w2: T|
        #[trigger] m.net_count(w1) <= -1 && #[trigger] m.net_count(w2) <= -1 ==> w1 == w2
}

/// Terms resolve trivially to the only value that is added more often than
/// removed, provided that at most one value is removed more often than added.
pub proof fn lemma_resolves_by_counts<T>(m: MergeView<T>, a: T)
    requires
        m.wf(),
        counts_favour(m, a),
    ensures
        m.resolve_trivial() == Some(a),
{
    let s = m.simplify();
    lemma_simplify_is_simplified(m);
    lemma_simplified_counts(s);
    assert forall|i: int| 0 <= i < s.adds.len() implies #[trigger] s.adds[i] == a by {
        lemma_simplify_from_keeps_net_count(m, 0, s.adds[i]);
        assert(m.net_count(s.adds[i]) >= 1);
    }
    assert forall|j: int| 0 <= j < s.removes.len() implies #[trigger] s.removes[j]
        == s.removes[0] by {
        lemma_simplify_from_keeps_net_count(m, 0, s.removes[j]);
        lemma_simplify_from_keeps_net_count(m, 0, s.removes[0]);
        assert(m.net_count(s.removes[j]) <= -1);
        assert(m.net_count(s.removes[0]) <= -1);
    }
    assert(s.adds[0] == a);
}

/// In terms that repeat one added and one removed value, only the added value
/// is added more often than removed, and only the removed one the other way.
pub proof fn lemma_uniform_counts<T>(u: MergeView<T>)
    requires
        u.wf(),
        u.is_uniform(),
    ensures
        counts_favour(u, u.adds[0]),
{
    assert forall|w: T| #[trigger] u.net_count(w) >= 1 implies w == u.adds[0] by {
        lemma_occurrences_constant(u.adds, u.adds[0], w);
        lemma_occurrences_contains(u.removes, w);
    }
    assert forall|w1: T, w2: T|
        #[trigger] u.net_count(w1) <= -1 && #[trigger] u.net_count(w2) <= -1 implies w1 == w2 by {
        lemma_occurrences_contains(u.adds, w1);
        lemma_occurrences_contains(u.adds, w2);
        if u.removes.len() > 0 {
            lemma_occurrences_constant(u.removes, u.removes[0], w1);
            lemma_occurrences_constant(u.removes, u.removes[0], w2);
        } else {
            lemma_occurrences_contains(u.removes, w1);
            assert(!u.removes.contains(w1));
        }
    }
}

/// Terms that are all one value resolve trivially to it.
pub proof fn lemma_constant_resolves<T>(m: MergeView<T>, e: T)
    requires
        m.wf(),
        forall|i: int| 0 <= i < m.adds.len() ==> m.adds[i] == e,
        forall|j: int| 0 <= j < m.removes.len() ==> m.removes[j] == e,
    ensures
        m.resolve_trivial() == Some(e),
{
    assert forall|w: T| #[trigger] m.net_count(w) >= 1 implies w == e by {
        lemma_occurrences_constant(m.adds, e, w);
        lemma_occurrences_contains(m.removes, w);
    }
    assert forall|w1: T, w2: T|
        #[trigger] m.net_count(w1) <= -1 && #[trigger] m.net_count(w2) <= -1 implies w1 == w2 by {
        lemma_occurrences_constant(m.adds, e, w1);
        lemma_occurrences_constant(m.removes, e, w1);
    }
    lemma_resolves_by_counts(m, e);
}

/// Cancelling before or after transforming the terms leaves every value
/// added as often, net of removals.
pub proof fn lemma_simplify_from_mapped_counts<A, B>(
    m: MergeView<A>,
    f: spec_fn(A) -> B,
    i: int,
    w: B,
)
    requires
        m.wf(),
    ensures
        m.simplify_from(i).map(f).net_count(w) == m.map(f).net_count(w),
    decreases m.adds.len(), m.adds.len() - i,
{
    if 0 <= i < m.adds.len() {
        let j = first_index_from(m.removes, m.adds[i], 0);
        lemma_first_index(m.removes, m.adds[i], 0);
        if j < m.removes.len() {
            let n = m.map(f);
            let v = m.without(j, i);
            assert(v.map(f).removes =~= n.removes.remove(j));
            assert(v.map(f).adds =~= n.adds.remove(i));
            assert(n.removes[j] == n.adds[i]);
            lemma_occurrences_remove(n.removes, j, w);
            lemma_occurrences_remove(n.adds, i, w);
            lemma_simplify_from_mapped_counts(v, f, i, w);
        } else {
            lemma_simplify_from_mapped_counts(m, f, i + 1, w);
        }
    }
}

/// Trivial resolution carries over to transformed terms: where terms
/// resolve trivially to a value, the transformed terms resolve trivially to
/// the transformed value.
pub proof fn lemma_resolve_trivial_mapped<A, B>(m: MergeView<A>, f: spec_fn(A) -> B)
    requires
        m.wf(),
        m.resolve_trivial().is_some(),
    ensures
        m.map(f).resolve_trivial() == Some(f(m.resolve_trivial().unwrap())),
{
    let s = m.simplify();
    let a = s.adds[0];
    lemma_simplify_from_wf(m, 0);
    let u = s.map(f);
    assert(u.is_uniform()) by {
        assert forall|i: int| 0 <= i < u.adds.len() implies #[trigger] u.adds[i] == u.adds[0] by {
            assert(s.adds[i] == s.adds[0]);
        }
        assert forall|j: int| 0 <= j < u.removes.len() implies #[trigger] u.removes[j]
            == u.removes[0] by {
            assert(s.removes[j] == s.removes[0]);
        }
    }
    lemma_uniform_counts(u);
    let n = m.map(f);
    assert(counts_favour(n, f(a))) by {
        assert forall|w: B| #[trigger] n.net_count(w) >= 1 implies w == f(a) by {
            lemma_simplify_from_mapped_counts(m, f, 0, w);
            assert(u.net_count(w) >= 1);
        }
        assert forall|w1: B, w2: B|
            #[trigger] n.net_count(w1) <= -1 && #[trigger] n.net_count(w2) <= -1 implies w1
            == w2 by {
            lemma_simplify_from_mapped_counts(m, f, 0, w1);
            lemma_simplify_from_mapped_counts(m, f, 0, w2);
            assert(u.net_count(w1) <= -1);
            assert(u.net_count(w2) <= -1);
        }
    }
    lemma_resolves_by_counts(n, f(a));
}

} // verus!
