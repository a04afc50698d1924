//! Lists of keys with values, ordered by key, each key at most once.
use vstd::prelude::*;
use crate::order::strict_total;

verus! {

/// Of two keys exactly one holds: the first comes before the second, they
/// are equal, or the second comes before the first.
pub proof fn lemma_total<K>(a: K, b: K, lt: spec_fn(K, K) -> bool)
    requires
        strict_total(lt),
    ensures
        lt(a, b) || a == b || lt(b, a),
        !(lt(a, b) && a == b),
        !(lt(b, a) && a == b),
        !(lt(a, b) && lt(b, a)),
{
}

/// The order of keys is transitive.
pub proof fn lemma_transitive<K>(a: K, b: K, c: K, lt: spec_fn(K, K) -> bool)
    requires
        strict_total(lt),
        lt(a, b),
        lt(b, c),
    ensures
        lt(a, c),
{
}

/// The keys come in strictly rising order: no key occurs twice.
pub open spec fn sorted<K, V>(t: Seq<(K, V)>, lt: spec_fn(K, K) -> bool) -> bool {
    forall|i: int, j: int| 0 <= i < j < t.len() ==> lt(#[trigger] t[i].0, #[trigger] t[j].0)
}

/// The first position from `from` on whose name is not before `name`.
pub open spec fn lower_bound<K, V>(t: Seq<(K, V)>, name: K, from: int, lt: spec_fn(K, K) -> bool) -> int
    decreases t.len() - from,
{
    if from < 0 || from >= t.len() || !lt(t[from].0, name) {
        from
    } else {
        lower_bound(t, name, from + 1, lt)
    }
}

/// Whether the directory has an entry called `name`.
pub open spec fn has_key<K, V>(t: Seq<(K, V)>, name: K, lt: spec_fn(K, K) -> bool) -> bool {
    let p = lower_bound(t, name, 0, lt);
    p < t.len() && t[p].0 == name
}

/// The value under `name`, if there is an entry of that name.
pub open spec fn lookup<K, V>(t: Seq<(K, V)>, name: K, lt: spec_fn(K, K) -> bool) -> Option<V> {
    let p = lower_bound(t, name, 0, lt);
    if p < t.len() && t[p].0 == name {
        Some(t[p].1)
    } else {
        None
    }
}

/// The directory with the entry `name` set to `value`, or without it.
pub open spec fn with_entry<K, V>(t: Seq<(K, V)>, name: K, value: Option<V>, lt: spec_fn(K, K) -> bool) -> Seq<(K, V)> {
    let p = lower_bound(t, name, 0, lt);
    let present = p < t.len() && t[p].0 == name;
    match value {
        Some(v) => if present {
            t.update(p, (name, v))
        } else {
            t.insert(p, (name, v))
        },
        None => if present {
            t.remove(p)
        } else {
            t
        },
    }
}

/// Where `lower_bound` lands: names before it come before `name`, and the
/// name there does not.
pub proof fn lemma_lower_bound<K, V>(t: Seq<(K, V)>, name: K, from: int, lt: spec_fn(K, K) -> bool)
    requires
        crate::order::strict_total(lt),
        0 <= from <= t.len(),
    ensures
        from <= lower_bound(t, name, from, lt) <= t.len(),
        forall|k: int| from <= k < lower_bound(t, name, from, lt) ==> lt(#[trigger] t[k].0, name),
        lower_bound(t, name, from, lt) < t.len() ==> !lt(t[lower_bound(t, name, from, lt)].0, name),
    decreases t.len() - from,
{
    if from < t.len() && lt(t[from].0, name) {
        lemma_lower_bound(t, name, from + 1, lt);
    }
}

/// In an ordered directory an entry is found exactly at its position.
pub proof fn lemma_lookup_at<K, V>(t: Seq<(K, V)>, i: int, lt: spec_fn(K, K) -> bool)
    requires
        crate::order::strict_total(lt),
        sorted(t, lt),
        0 <= i < t.len(),
    ensures
        lower_bound(t, t[i].0, 0, lt) == i,
        lookup(t, t[i].0, lt) == Some(t[i].1),
        has_key(t, t[i].0, lt),
{
    let name = t[i].0;
    lemma_lower_bound(t, name, 0, lt);
    let p = lower_bound(t, name, 0, lt);
    lemma_total(name, name, lt);
    if p < i {
        assert(lt(t[p].0, t[i].0));
    } else if p > i {
        assert(lt(t[i].0, name));
    }
}

/// A name that the lookup finds is the name of some entry, and the other
/// way round.
pub proof fn lemma_lookup_some<K, V>(t: Seq<(K, V)>, name: K, lt: spec_fn(K, K) -> bool)
    requires
        crate::order::strict_total(lt),
        sorted(t, lt),
    ensures
        has_key(t, name, lt) <==> exists|i: int| 0 <= i < t.len() && #[trigger] t[i].0 == name,
        has_key(t, name, lt) <==> lookup(t, name, lt).is_some(),
{
    lemma_lower_bound(t, name, 0, lt);
    if exists|i: int| 0 <= i < t.len() && #[trigger] t[i].0 == name {
        let i = choose|i: int| 0 <= i < t.len() && #[trigger] t[i].0 == name;
        lemma_lookup_at(t, i, lt);
    }
}

/// In an ordered directory, where `name` would stand: everything before is
/// before it, everything after is after it.
pub proof fn lemma_lower_bound_sorted<K, V>(t: Seq<(K, V)>, name: K, lt: spec_fn(K, K) -> bool)
    requires
        crate::order::strict_total(lt),
        sorted(t, lt),
    ensures
        0 <= lower_bound(t, name, 0, lt) <= t.len(),
        forall|k: int| 0 <= k < lower_bound(t, name, 0, lt) ==> lt(#[trigger] t[k].0, name),
        forall|k: int|
            lower_bound(t, name, 0, lt) <= k < t.len() && t[k].0 != name ==> lt(
                name,
                #[trigger] t[k].0,
            ),
        forall|k: int| lower_bound(t, name, 0, lt) < k < t.len() ==> #[trigger] t[k].0 != name,
{
    lemma_lower_bound(t, name, 0, lt);
    let p = lower_bound(t, name, 0, lt);
    assert forall|k: int| p <= k < t.len() && t[k].0 != name implies lt(
        name,
        #[trigger] t[k].0,
    ) by {
        lemma_total(t[k].0, name, lt);
        lemma_total(t[p].0, name, lt);
        if k > p && lt(t[k].0, name) {
            assert(lt(t[p].0, t[k].0));
            lemma_transitive(t[p].0, t[k].0, name, lt);
        }
    }
    assert forall|k: int| p < k < t.len() implies #[trigger] t[k].0 != name by {
        assert(lt(t[p].0, t[k].0));
        lemma_total(t[p].0, name, lt);
    }
}

/// Setting or deleting an entry keeps the order.
pub proof fn lemma_with_entry_sorted<K, V>(t: Seq<(K, V)>, name: K, value: Option<V>, lt: spec_fn(K, K) -> bool)
    requires
        crate::order::strict_total(lt),
        sorted(t, lt),
    ensures
        sorted(with_entry(t, name, value, lt), lt),
{
    lemma_lower_bound_sorted(t, name, lt);
    let p = lower_bound(t, name, 0, lt);
    let present = p < t.len() && t[p].0 == name;
    let w = with_entry(t, name, value, lt);
    assert forall|i: int, j: int| 0 <= i < j < w.len() implies lt(
        #[trigger] w[i].0,
        #[trigger] w[j].0,
    ) by {
        if value.is_some() {
            if present {
                assert(w[i].0 == t[i].0 && w[j].0 == t[j].0);
            } else {
                let oi = if i < p { i } else { i - 1 };
                let oj = if j < p { j } else { j - 1 };
                if i == p {
                    assert(w[j] == t[oj]);
                } else if j == p {
                    assert(w[i] == t[oi]);
                } else {
                    assert(w[i] == t[oi] && w[j] == t[oj]);
                }
            }
        } else {
            if present {
                let oi = if i < p { i } else { i + 1 };
                let oj = if j < p { j } else { j + 1 };
                assert(w[i] == t[oi] && w[j] == t[oj]);
            }
        }
    }
}

/// After setting or deleting an entry, its name gives the new value.
pub proof fn lemma_with_entry_same<K, V>(t: Seq<(K, V)>, name: K, value: Option<V>, lt: spec_fn(K, K) -> bool)
    requires
        crate::order::strict_total(lt),
        sorted(t, lt),
    ensures
        lookup(with_entry(t, name, value, lt), name, lt) == value,
{
    lemma_lower_bound_sorted(t, name, lt);
    lemma_with_entry_sorted(t, name, value, lt);
    let p = lower_bound(t, name, 0, lt);
    let present = p < t.len() && t[p].0 == name;
    let w = with_entry(t, name, value, lt);
    lemma_total(name, name, lt);
    match value {
        Some(v) => {
            assert(w[p] == (name, v));
            lemma_lookup_at(w, p, lt);
        },
        None => {
            lemma_lookup_some(w, name, lt);
            if exists|i: int| 0 <= i < w.len() && #[trigger] w[i].0 == name {
                let i = choose|i: int| 0 <= i < w.len() && #[trigger] w[i].0 == name;
                if present {
                    let oi = if i < p { i } else { i + 1 };
                    assert(w[i] == t[oi]);
                } else {
                    assert(w[i] == t[i]);
                }
            }
        },
    }
}

/// Setting or deleting an entry leaves the other names as they were.
pub proof fn lemma_with_entry_other<K, V>(
    t: Seq<(K, V)>,
    name: K,
    value: Option<V>,
    other: K,
    lt: spec_fn(K, K) -> bool,
)
    requires
        crate::order::strict_total(lt),
        sorted(t, lt),
        other != name,
    ensures
        lookup(with_entry(t, name, value, lt), other, lt) == lookup(t, other, lt),
{
    lemma_lower_bound(t, name, 0, lt);
    lemma_with_entry_sorted(t, name, value, lt);
    let p = lower_bound(t, name, 0, lt);
    let present = p < t.len() && t[p].0 == name;
    let w = with_entry(t, name, value, lt);
    lemma_lookup_some(w, other, lt);
    lemma_lookup_some(t, other, lt);
    if has_key(t, other, lt) {
        let i = choose|i: int| 0 <= i < t.len() && #[trigger] t[i].0 == other;
        lemma_lookup_at(t, i, lt);
        let ni: int = if value.is_some() {
            if present || i < p { i } else { i + 1 }
        } else {
            if present && i >= p { i - 1 } else { i }
        };
        assert(0 <= ni < w.len() && w[ni] == t[i]);
        lemma_lookup_at(w, ni, lt);
    } else if has_key(w, other, lt) {
        let i = choose|i: int| 0 <= i < w.len() && #[trigger] w[i].0 == other;
        let oi: int = if value.is_some() {
            if present || i < p { i } else { i - 1 }
        } else {
            if present && i >= p { i + 1 } else { i }
        };
        assert(0 <= oi < t.len() && w[i] == t[oi]);
    }
}

/// Ordered directories that give the same value under every name are equal.
pub proof fn lemma_extensional<K, V>(a: Seq<(K, V)>, b: Seq<(K, V)>, lt: spec_fn(K, K) -> bool)
    requires
        crate::order::strict_total(lt),
        sorted(a, lt),
        sorted(b, lt),
        forall|name: K| lookup(a, name, lt) == lookup(b, name, lt),
    ensures
        a == b,
    decreases a.len(),
{
    if a.len() == 0 {
        if b.len() > 0 {
            lemma_lookup_at(b, 0, lt);
            assert(lookup(a, b[0].0, lt) == lookup(b, b[0].0, lt));
        }
        assert(a =~= b);
    } else {
        let la = a.last();
        lemma_lookup_at(a, a.len() - 1, lt);
        assert(lookup(a, la.0, lt) == lookup(b, la.0, lt));
        lemma_lookup_some(b, la.0, lt);
        let bi = choose|i: int| 0 <= i < b.len() && #[trigger] b[i].0 == la.0;
        lemma_lookup_at(b, bi, lt);
        // `la` is the last entry of `b` too.
        if bi < b.len() - 1 {
            let lb = b.last();
            lemma_lookup_at(b, b.len() - 1, lt);
            assert(lookup(a, lb.0, lt) == lookup(b, lb.0, lt));
            lemma_lookup_some(a, lb.0, lt);
            let ai = choose|i: int| 0 <= i < a.len() && #[trigger] a[i].0 == lb.0;
            assert(lt(b[bi].0, b[b.len() - 1].0));
            if ai < a.len() - 1 {
                assert(lt(a[ai].0, a[a.len() - 1].0));
            }
            lemma_total(la.0, lb.0, lt);
        }
        let a2 = a.drop_last();
        let b2 = b.drop_last();
        assert forall|name: K| lookup(a2, name, lt) == lookup(b2, name, lt) by {
            assert(lookup(a, name, lt) == lookup(b, name, lt));
            lemma_drop_last_lookup(a, name, lt);
            lemma_drop_last_lookup(b, name, lt);
        }
        lemma_extensional(a2, b2, lt);
        assert(a =~= a2.push(la));
        assert(b =~= b2.push(b.last()));
    }
}

/// Dropping the last entry of an ordered directory removes that name only.
pub proof fn lemma_drop_last_lookup<K, V>(t: Seq<(K, V)>, name: K, lt: spec_fn(K, K) -> bool)
    requires
        crate::order::strict_total(lt),
        sorted(t, lt),
        t.len() > 0,
    ensures
        sorted(t.drop_last(), lt),
        lookup(t.drop_last(), name, lt) == if name == t.last().0 {
            None
        } else {
            lookup(t, name, lt)
        },
{
    let d = t.drop_last();
    lemma_lookup_some(d, name, lt);
    lemma_lookup_some(t, name, lt);
    if has_key(d, name, lt) {
        let i = choose|i: int| 0 <= i < d.len() && #[trigger] d[i].0 == name;
        assert(d[i] == t[i]);
        lemma_lookup_at(d, i, lt);
        lemma_lookup_at(t, i, lt);
        assert(lt(t[i].0, t[t.len() - 1].0));
        lemma_total(name, t.last().0, lt);
    } else if has_key(t, name, lt) {
        let i = choose|i: int| 0 <= i < t.len() && #[trigger] t[i].0 == name;
        if i < t.len() - 1 {
            assert(d[i] == t[i]);
        }
    }
}




/// Setting two different keys gives the same list in either order.
pub proof fn lemma_with_entry_commutes<K, V>(
    t: Seq<(K, V)>,
    first: K,
    first_value: Option<V>,
    second: K,
    second_value: Option<V>,
    lt: spec_fn(K, K) -> bool,
)
    requires
        crate::order::strict_total(lt),
        sorted(t, lt),
        first != second,
    ensures
        with_entry(with_entry(t, first, first_value, lt), second, second_value, lt) == with_entry(
            with_entry(t, second, second_value, lt),
            first,
            first_value,
            lt,
        ),
{
    let a1 = with_entry(t, first, first_value, lt);
    let a2 = with_entry(a1, second, second_value, lt);
    let b1 = with_entry(t, second, second_value, lt);
    let b2 = with_entry(b1, first, first_value, lt);
    lemma_with_entry_sorted(t, first, first_value, lt);
    lemma_with_entry_sorted(a1, second, second_value, lt);
    lemma_with_entry_sorted(t, second, second_value, lt);
    lemma_with_entry_sorted(b1, first, first_value, lt);
    assert forall|key: K| lookup(a2, key, lt) == lookup(b2, key, lt) by {
        if key == first {
            lemma_with_entry_other(a1, second, second_value, key, lt);
            lemma_with_entry_same(t, first, first_value, lt);
            lemma_with_entry_same(b1, first, first_value, lt);
        } else if key == second {
            lemma_with_entry_same(a1, second, second_value, lt);
            lemma_with_entry_other(b1, first, first_value, key, lt);
            lemma_with_entry_same(t, second, second_value, lt);
        } else {
            lemma_with_entry_other(a1, second, second_value, key, lt);
            lemma_with_entry_other(t, first, first_value, key, lt);
            lemma_with_entry_other(b1, first, first_value, key, lt);
            lemma_with_entry_other(t, second, second_value, key, lt);
        }
    }
    lemma_extensional(a2, b2, lt);
}

} // verus!
