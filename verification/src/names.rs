//! Ordered lists of names and their union.
use vstd::prelude::*;
use crate::order::{name_lt, Order};
use crate::repo_path::{names_of, RepoPathComponent};

verus! {

/// The union of two ordered lists of names, from positions `i` and `j` on:
/// the names of both in order, a name of both taken once.
pub open spec fn union_from(a: Seq<Seq<u8>>, b: Seq<Seq<u8>>, i: int, j: int) -> Seq<Seq<u8>>
    decreases a.len() - i + b.len() - j,
{
    if i < 0 || j < 0 || i > a.len() || j > b.len() {
        Seq::empty()
    } else if i >= a.len() {
        if j >= b.len() {
            Seq::empty()
        } else {
            seq![b[j]] + union_from(a, b, i, j + 1)
        }
    } else if j >= b.len() {
        seq![a[i]] + union_from(a, b, i + 1, j)
    } else if name_lt(a[i], b[j]) {
        seq![a[i]] + union_from(a, b, i + 1, j)
    } else if a[i] == b[j] {
        seq![a[i]] + union_from(a, b, i + 1, j + 1)
    } else {
        seq![b[j]] + union_from(a, b, i, j + 1)
    }
}

/// The union of two ordered lists of names.
pub open spec fn union(a: Seq<Seq<u8>>, b: Seq<Seq<u8>>) -> Seq<Seq<u8>> {
    union_from(a, b, 0, 0)
}

/// The union does not depend on which list comes first.
pub proof fn lemma_union_commutes(a: Seq<Seq<u8>>, b: Seq<Seq<u8>>, i: int, j: int)
    ensures
        union_from(a, b, i, j) == union_from(b, a, j, i),
    decreases a.len() - i + b.len() - j,
{
    if i < 0 || j < 0 || i > a.len() || j > b.len() {
    } else if i >= a.len() {
        if j < b.len() {
            lemma_union_commutes(a, b, i, j + 1);
        }
    } else if j >= b.len() {
        lemma_union_commutes(a, b, i + 1, j);
    } else {
        crate::order::lemma_name_trichotomy(a[i], b[j]);
        if name_lt(a[i], b[j]) {
            lemma_union_commutes(a, b, i + 1, j);
        } else if a[i] == b[j] {
            lemma_union_commutes(a, b, i + 1, j + 1);
        } else {
            lemma_union_commutes(a, b, i, j + 1);
        }
    }
}

/// The union of two ordered lists of names.
pub fn union_names(a: &Vec<RepoPathComponent>, b: &Vec<RepoPathComponent>) -> (r: Vec<
    RepoPathComponent,
>)
    ensures
        names_of(r@) == union(names_of(a@), names_of(b@)),
{
    let ghost av = names_of(a@);
    let ghost bv = names_of(b@);
    let mut r: Vec<RepoPathComponent> = Vec::new();
    let mut i: usize = 0;
    let mut j: usize = 0;
    assert(names_of(r@) =~= Seq::<Seq<u8>>::empty());
    while i < a.len() || j < b.len()
        invariant
            i <= a.len(),
            j <= b.len(),
            av == names_of(a@),
            bv == names_of(b@),
            names_of(r@) + union_from(av, bv, i as int, j as int) == union(av, bv),
        decreases a.len() - i + b.len() - j,
    {
        let ghost before = names_of(r@);
        let ghost rest = union_from(av, bv, i as int, j as int);
        let take_a: bool;
        let take_b: bool;
        if i >= a.len() {
            take_a = false;
            take_b = true;
        } else if j >= b.len() {
            take_a = true;
            take_b = false;
        } else {
            match a[i].compare(&b[j]) {
                Order::Before => {
                    take_a = true;
                    take_b = false;
                },
                Order::Same => {
                    take_a = true;
                    take_b = true;
                },
                Order::After => {
                    take_a = false;
                    take_b = true;
                },
            }
        }
        if take_a {
            r.push(a[i].clone());
        } else {
            r.push(b[j].clone());
        }
        if take_a {
            i += 1;
        }
        if take_b {
            j += 1;
        }
        proof {
            let next = union_from(av, bv, i as int, j as int);
            assert(rest == seq![rest[0]] + next);
            assert(names_of(r@) =~= before.push(rest[0]));
            assert(before.push(rest[0]) + next =~= before + rest);
        }
    }
    assert(union_from(av, bv, i as int, j as int) =~= Seq::<Seq<u8>>::empty());
    assert(names_of(r@) + Seq::<Seq<u8>>::empty() =~= names_of(r@));
    r
}


/// The names come in strictly rising order.
pub open spec fn rising(names: Seq<Seq<u8>>) -> bool {
    forall|i: int, j: int|
        0 <= i < j < names.len() ==> name_lt(#[trigger] names[i], #[trigger] names[j])
}

/// `name` is not before `low`.
pub open spec fn at_least(low: Seq<u8>, name: Seq<u8>) -> bool {
    low == name || name_lt(low, name)
}

/// Every name of the union from positions `i` and `j` on is not before the
/// name at `i` or not before the name at `j`; the union is in rising order;
/// and it holds every name that one of the lists holds from there on.
pub proof fn lemma_union(a: Seq<Seq<u8>>, b: Seq<Seq<u8>>, i: int, j: int)
    requires
        rising(a),
        rising(b),
        0 <= i <= a.len(),
        0 <= j <= b.len(),
    ensures
        rising(union_from(a, b, i, j)),
        forall|k: int|
            0 <= k < union_from(a, b, i, j).len() ==> (i < a.len() && at_least(
                a[i],
                #[trigger] union_from(a, b, i, j)[k],
            )) || (j < b.len() && at_least(b[j], union_from(a, b, i, j)[k])),
        forall|x: int| i <= x < a.len() ==> union_from(a, b, i, j).contains(#[trigger] a[x]),
        forall|y: int| j <= y < b.len() ==> union_from(a, b, i, j).contains(#[trigger] b[y]),
        forall|k: int|
            0 <= k < union_from(a, b, i, j).len() ==> a.contains(
                #[trigger] union_from(a, b, i, j)[k],
            ) || b.contains(union_from(a, b, i, j)[k]),
    decreases a.len() - i + b.len() - j,
{
    let u = union_from(a, b, i, j);
    if i >= a.len() && j >= b.len() {
    } else {
        let take_a = j >= b.len() || (i < a.len() && (name_lt(a[i], b[j]) || a[i] == b[j]));
        let take_b = i >= a.len() || (j < b.len() && !name_lt(a[i], b[j]));
        let ni = if take_a { i + 1 } else { i };
        let nj = if take_b { j + 1 } else { j };
        let head = if take_a { a[i] } else { b[j] };
        let rest = union_from(a, b, ni, nj);
        lemma_union(a, b, ni, nj);
        assert(u == seq![head] + rest);
        if i < a.len() && j < b.len() {
            crate::order::lemma_name_trichotomy(a[i], b[j]);
        }
        // The head is before every name of the rest.
        assert forall|k: int| 0 <= k < rest.len() implies name_lt(head, #[trigger] rest[k]) by {
            let e = rest[k];
            if ni < a.len() && at_least(a[ni], e) {
                if take_a {
                    assert(name_lt(a[i], a[ni]));
                    if a[ni] != e {
                        crate::order::lemma_name_transitive(a[i], a[ni], e);
                    }
                } else {
                    // head is b[j], before a[i] == a[ni]
                    assert(name_lt(b[j], a[i]));
                    if a[ni] != e {
                        crate::order::lemma_name_transitive(b[j], a[ni], e);
                    }
                }
            } else {
                assert(nj < b.len() && at_least(b[nj], e));
                if take_b && !take_a {
                    assert(name_lt(b[j], b[nj]));
                    if b[nj] != e {
                        crate::order::lemma_name_transitive(b[j], b[nj], e);
                    }
                } else if take_b {
                    // both heads are equal
                    assert(name_lt(b[j], b[nj]));
                    if b[nj] != e {
                        crate::order::lemma_name_transitive(b[j], b[nj], e);
                    }
                } else {
                    // head is a[i], before b[j] == b[nj]
                    if b[nj] != e {
                        crate::order::lemma_name_transitive(a[i], b[nj], e);
                    }
                }
            }
        }
        assert(rising(u)) by {
            assert forall|x: int, y: int| 0 <= x < y < u.len() implies name_lt(
                #[trigger] u[x],
                #[trigger] u[y],
            ) by {
                if x == 0 {
                    assert(u[y] == rest[y - 1]);
                } else {
                    assert(u[x] == rest[x - 1] && u[y] == rest[y - 1]);
                }
            }
        }
        assert forall|k: int| 0 <= k < u.len() implies (i < a.len() && at_least(a[i], #[trigger] u[k]))
            || (j < b.len() && at_least(b[j], u[k])) by {
            if k > 0 {
                assert(u[k] == rest[k - 1]);
            }
        }
        assert forall|x: int| i <= x < a.len() implies u.contains(#[trigger] a[x]) by {
            if x >= ni {
                assert(rest.contains(a[x]));
                let k = choose|k: int| 0 <= k < rest.len() && rest[k] == a[x];
                assert(u[k + 1] == a[x]);
            } else {
                assert(u[0] == a[x]);
            }
        }
        assert forall|y: int| j <= y < b.len() implies u.contains(#[trigger] b[y]) by {
            if y >= nj {
                assert(rest.contains(b[y]));
                let k = choose|k: int| 0 <= k < rest.len() && rest[k] == b[y];
                assert(u[k + 1] == b[y]);
            } else {
                assert(u[0] == b[y]);
            }
        }
        assert forall|k: int| 0 <= k < u.len() implies a.contains(#[trigger] u[k]) || b.contains(
            u[k],
        ) by {
            if k > 0 {
                assert(u[k] == rest[k - 1]);
            } else if take_a {
                assert(a[i] == u[0]);
            } else {
                assert(b[j] == u[0]);
            }
        }
    }
}

} // verus!
