//! Lexicographic order on sequences, as used for names and for paths.
use vstd::prelude::*;

verus! {

/// The outcome of comparing two names or two paths.
#[derive(Clone, Copy, Debug, PartialEq, Eq, Structural)]
pub enum Order {
    Before,
    Same,
    After,
}

/// The first position from `i` on at which `a` and `b` differ or one of them ends.
pub open spec fn first_diff<T>(a: Seq<T>, b: Seq<T>, i: int) -> int
    decreases a.len() - i,
{
    if i < 0 || i >= a.len() || i >= b.len() || a[i] != b[i] {
        i
    } else {
        first_diff(a, b, i + 1)
    }
}

/// `a` comes before `b`: at the first position where they part, `a` has
/// ended or holds the smaller item.
#[verifier::opaque]
pub open spec fn lex_lt<T>(a: Seq<T>, b: Seq<T>, lt: spec_fn(T, T) -> bool) -> bool {
    let k = first_diff(a, b, 0);
    k < b.len() && (k >= a.len() || lt(a[k], b[k]))
}

/// `lt` is a strict total order.
pub open spec fn strict_total<T>(lt: spec_fn(T, T) -> bool) -> bool {
    &&& forall|x: T| !#[trigger] lt(x, x)
    &&& forall|x: T, y: T| x != y ==> #[trigger] lt(x, y) || lt(y, x)
    &&& forall|x: T, y: T| #[trigger] lt(x, y) ==> !lt(y, x)
    &&& forall|x: T, y: T, z: T| #[trigger] lt(x, y) && #[trigger] lt(y, z) ==> lt(x, z)
}

/// Up to `first_diff` the two sequences agree, and there they part.
pub proof fn lemma_first_diff<T>(a: Seq<T>, b: Seq<T>, i: int)
    requires
        0 <= i,
    ensures
        i <= first_diff(a, b, i),
        i <= a.len() && i <= b.len() ==> first_diff(a, b, i) <= a.len() && first_diff(a, b, i)
            <= b.len(),
        forall|j: int| i <= j < first_diff(a, b, i) ==> a[j] == b[j],
        first_diff(a, b, i) < a.len() && first_diff(a, b, i) < b.len() ==> a[first_diff(a, b, i)]
            != b[first_diff(a, b, i)],
        first_diff(a, b, i) == first_diff(b, a, i),
    decreases a.len() - i,
{
    if i < a.len() && i < b.len() && a[i] == b[i] {
        lemma_first_diff(a, b, i + 1);
    }
}

/// A position at which two sequences part after agreeing is `first_diff`.
pub proof fn lemma_first_diff_unique<T>(a: Seq<T>, b: Seq<T>, i: int, k: int)
    requires
        0 <= i <= k,
        k <= a.len(),
        k <= b.len(),
        forall|j: int| i <= j < k ==> a[j] == b[j],
        k < a.len() && k < b.len() ==> a[k] != b[k],
    ensures
        first_diff(a, b, i) == k,
    decreases k - i,
{
    if i < k {
        lemma_first_diff_unique(a, b, i + 1, k);
    }
}

/// Of two sequences exactly one holds: the first comes before the second,
/// they are equal, or the second comes before the first.
pub proof fn lemma_lex_trichotomy<T>(a: Seq<T>, b: Seq<T>, lt: spec_fn(T, T) -> bool)
    requires
        strict_total(lt),
    ensures
        lex_lt(a, b, lt) || a == b || lex_lt(b, a, lt),
        !(lex_lt(a, b, lt) && a == b),
        !(lex_lt(b, a, lt) && a == b),
        !(lex_lt(a, b, lt) && lex_lt(b, a, lt)),
{
    reveal(lex_lt);
    lemma_first_diff(a, b, 0);
    lemma_first_diff(b, a, 0);
    let k = first_diff(a, b, 0);
    if k == a.len() && k == b.len() {
        assert(a =~= b);
    }
}

/// The order is transitive.
pub proof fn lemma_lex_transitive<T>(a: Seq<T>, b: Seq<T>, c: Seq<T>, lt: spec_fn(T, T) -> bool)
    requires
        strict_total(lt),
        lex_lt(a, b, lt),
        lex_lt(b, c, lt),
    ensures
        lex_lt(a, c, lt),
{
    reveal(lex_lt);
    lemma_first_diff(a, b, 0);
    lemma_first_diff(b, c, 0);
    let k1 = first_diff(a, b, 0);
    let k2 = first_diff(b, c, 0);
    let k = if k1 <= k2 {
        k1
    } else {
        k2
    };
    assert(forall|j: int| 0 <= j < k ==> a[j] == c[j]);
    if k < a.len() && k < c.len() {
        if k1 < k2 {
            assert(b[k] == c[k]);
        } else if k2 < k1 {
            assert(a[k] == b[k]);
        } else {
            assert(lt(a[k], b[k]) && lt(b[k], c[k]));
        }
        assert(lt(a[k], c[k]));
    }
    lemma_first_diff_unique(a, c, 0, k);
}

/// A sequence comes before each of its proper extensions.
pub proof fn lemma_prefix_is_before<T>(a: Seq<T>, b: Seq<T>, lt: spec_fn(T, T) -> bool)
    requires
        a.len() < b.len(),
        a == b.take(a.len() as int),
    ensures
        lex_lt(a, b, lt),
{
    reveal(lex_lt);
    lemma_first_diff_unique(a, b, 0, a.len() as int);
}

/// The order of bytes.
pub open spec fn byte_lt() -> spec_fn(u8, u8) -> bool {
    |x: u8, y: u8| x < y
}

/// The order of names: byte by byte, a prefix first.
pub open spec fn name_lt(a: Seq<u8>, b: Seq<u8>) -> bool {
    lex_lt(a, b, byte_lt())
}

/// The order of names as a function value.
pub open spec fn name_lt_fn() -> spec_fn(Seq<u8>, Seq<u8>) -> bool {
    |x: Seq<u8>, y: Seq<u8>| name_lt(x, y)
}

/// The order of paths: name by name, a directory before what it holds.
pub open spec fn path_lt(p: Seq<Seq<u8>>, q: Seq<Seq<u8>>) -> bool {
    lex_lt(p, q, name_lt_fn())
}

/// The order of names is a strict total order.
pub proof fn lemma_name_order()
    ensures
        strict_total(byte_lt()),
        strict_total(name_lt_fn()),
{
    let lt = byte_lt();
    assert(strict_total(lt));
    let nlt = name_lt_fn();
    assert forall|x: Seq<u8>| !#[trigger] nlt(x, x) by {
        lemma_lex_trichotomy(x, x, lt);
    }
    assert forall|x: Seq<u8>, y: Seq<u8>| x != y implies #[trigger] nlt(x, y) || nlt(y, x) by {
        lemma_lex_trichotomy(x, y, lt);
    }
    assert forall|x: Seq<u8>, y: Seq<u8>| #[trigger] nlt(x, y) implies !nlt(y, x) by {
        lemma_lex_trichotomy(x, y, lt);
    }
    assert forall|x: Seq<u8>, y: Seq<u8>, z: Seq<u8>| #[trigger]
        nlt(x, y) && #[trigger] nlt(y, z) implies nlt(x, z) by {
        lemma_lex_transitive(x, y, z, lt);
    }
}

/// Of two names exactly one holds: the first comes before the second, they
/// are equal, or the second comes before the first.
pub proof fn lemma_name_trichotomy(a: Seq<u8>, b: Seq<u8>)
    ensures
        name_lt(a, b) || a == b || name_lt(b, a),
        !(name_lt(a, b) && a == b),
        !(name_lt(b, a) && a == b),
        !(name_lt(a, b) && name_lt(b, a)),
{
    lemma_lex_trichotomy(a, b, byte_lt());
}

/// The order of names is transitive.
pub proof fn lemma_name_transitive(a: Seq<u8>, b: Seq<u8>, c: Seq<u8>)
    requires
        name_lt(a, b),
        name_lt(b, c),
    ensures
        name_lt(a, c),
{
    lemma_lex_transitive(a, b, c, byte_lt());
}

/// Of two paths exactly one holds: the first comes before the second, they
/// are equal, or the second comes before the first.
pub proof fn lemma_path_trichotomy(p: Seq<Seq<u8>>, q: Seq<Seq<u8>>)
    ensures
        path_lt(p, q) || p == q || path_lt(q, p),
        !(path_lt(p, q) && p == q),
        !(path_lt(q, p) && p == q),
        !(path_lt(p, q) && path_lt(q, p)),
{
    lemma_name_order();
    lemma_lex_trichotomy(p, q, name_lt_fn());
}

/// The order of paths is transitive.
pub proof fn lemma_path_transitive(p: Seq<Seq<u8>>, q: Seq<Seq<u8>>, r: Seq<Seq<u8>>)
    requires
        path_lt(p, q),
        path_lt(q, r),
    ensures
        path_lt(p, r),
{
    lemma_name_order();
    lemma_lex_transitive(p, q, r, name_lt_fn());
}

/// What the order of two names is.
pub open spec fn name_order(a: Seq<u8>, b: Seq<u8>) -> Order {
    if name_lt(a, b) {
        Order::Before
    } else if a == b {
        Order::Same
    } else {
        Order::After
    }
}

/// What the order of two paths is.
pub open spec fn path_order(p: Seq<Seq<u8>>, q: Seq<Seq<u8>>) -> Order {
    if path_lt(p, q) {
        Order::Before
    } else if p == q {
        Order::Same
    } else {
        Order::After
    }
}

/// The order of paths as a function value.
pub open spec fn path_lt_fn() -> spec_fn(Seq<Seq<u8>>, Seq<Seq<u8>>) -> bool {
    |p: Seq<Seq<u8>>, q: Seq<Seq<u8>>| path_lt(p, q)
}

/// The order of paths is a strict total order.
pub proof fn lemma_path_order()
    ensures
        strict_total(path_lt_fn()),
{
    let plt = path_lt_fn();
    assert forall|x: Seq<Seq<u8>>| !#[trigger] plt(x, x) by {
        lemma_path_trichotomy(x, x);
    }
    assert forall|x: Seq<Seq<u8>>, y: Seq<Seq<u8>>| x != y implies #[trigger] plt(x, y) || plt(
        y,
        x,
    ) by {
        lemma_path_trichotomy(x, y);
    }
    assert forall|x: Seq<Seq<u8>>, y: Seq<Seq<u8>>| #[trigger] plt(x, y) implies !plt(y, x) by {
        lemma_path_trichotomy(x, y);
    }
    assert forall|x: Seq<Seq<u8>>, y: Seq<Seq<u8>>, z: Seq<Seq<u8>>| #[trigger]
        plt(x, y) && #[trigger] plt(y, z) implies plt(x, z) by {
        lemma_path_transitive(x, y, z);
    }
}

/// Compares two names byte by byte.
pub fn compare_names(a: &Vec<u8>, b: &Vec<u8>) -> (r: Order)
    ensures
        r == name_order(a@, b@),
        r == Order::After <==> name_lt(b@, a@),
{
    let mut i: usize = 0;
    proof {
        lemma_name_order();
        lemma_lex_trichotomy(a@, b@, byte_lt());
    }
    while i < a.len() && i < b.len()
        invariant
            i <= a.len(),
            i <= b.len(),
            first_diff(a@, b@, i as int) == first_diff(a@, b@, 0),
            lex_lt(a@, b@, byte_lt()) || a@ == b@ || lex_lt(b@, a@, byte_lt()),
            !(lex_lt(a@, b@, byte_lt()) && a@ == b@),
            !(lex_lt(b@, a@, byte_lt()) && a@ == b@),
            !(lex_lt(a@, b@, byte_lt()) && lex_lt(b@, a@, byte_lt())),
        decreases a.len() - i,
    {
        proof {
            reveal(lex_lt);
            lemma_first_diff(a@, b@, 0);
        }
        if a[i] < b[i] {
            return Order::Before;
        }
        if a[i] > b[i] {
            return Order::After;
        }
        i += 1;
    }
    proof {
        reveal(lex_lt);
        lemma_first_diff(a@, b@, 0);
    }
    if i < b.len() {
        Order::Before
    } else if i < a.len() {
        Order::After
    } else {
        assert(a@ =~= b@);
        Order::Same
    }
}


/// `path` is `base` or lies below it.
pub open spec fn at_or_under(base: Seq<Seq<u8>>, path: Seq<Seq<u8>>) -> bool {
    base.len() <= path.len() && path.take(base.len() as int) == base
}

/// What lies at or below a name of a directory comes before what lies at or
/// below a later name of that directory.
pub proof fn lemma_paths_by_name(
    prefix: Seq<Seq<u8>>,
    first: Seq<u8>,
    second: Seq<u8>,
    p: Seq<Seq<u8>>,
    q: Seq<Seq<u8>>,
)
    requires
        name_lt(first, second),
        at_or_under(prefix.push(first), p),
        at_or_under(prefix.push(second), q),
    ensures
        path_lt(p, q),
{
    reveal(lex_lt);
    let k = prefix.len() as int;
    assert forall|j: int| 0 <= j < k implies p[j] == q[j] by {
        assert(p.take(k + 1)[j] == prefix.push(first)[j]);
        assert(q.take(k + 1)[j] == prefix.push(second)[j]);
    }
    assert(p[k] == first) by {
        assert(p.take(k + 1)[k] == prefix.push(first)[k]);
    }
    assert(q[k] == second) by {
        assert(q.take(k + 1)[k] == prefix.push(second)[k]);
    }
    lemma_name_trichotomy(first, second);
    lemma_first_diff_unique(p, q, 0, k);
}

/// A directory comes before what lies below it.
pub proof fn lemma_path_before_below(base: Seq<Seq<u8>>, path: Seq<Seq<u8>>)
    requires
        at_or_under(base, path),
        base.len() < path.len(),
    ensures
        path_lt(base, path),
{
    lemma_prefix_is_before(base, path, name_lt_fn());
}

/// What lies at or below a path lies at or below the directories that lead to it.
pub proof fn lemma_under_longer(base: Seq<Seq<u8>>, name: Seq<u8>, path: Seq<Seq<u8>>)
    requires
        at_or_under(base.push(name), path),
    ensures
        at_or_under(base, path),
        base.len() < path.len(),
{
    assert(path.take(base.len() as int) =~= path.take(base.len() as int + 1).take(base.len() as int));
    assert(base.push(name).take(base.len() as int) =~= base);
}

} // verus!
