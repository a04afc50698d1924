//! The conflict algebra: a value with `k` removed and `k + 1` added terms.
use vstd::prelude::*;
use vstd::laws_eq::obeys_concrete_eq;

verus! {

/// The mathematical content of a [`Merge`]: its removed and added terms.
pub struct MergeView<T> {
    pub removes: Seq<T>,
    pub adds: Seq<T>,
}

/// The first position at or after `from` where `s` holds `v`, or `s.len()`.
pub open spec fn first_index_from<T>(s: Seq<T>, v: T, from: int) -> int
    decreases s.len() - from,
{
    if from < 0 || from >= s.len() {
        s.len() as int
    } else if s[from] == v {
        from
    } else {
        first_index_from(s, v, from + 1)
    }
}

/// How often `v` occurs in `s`.
pub open spec fn occurrences<T>(s: Seq<T>, v: T) -> int
    decreases s.len(),
{
    if s.len() == 0 {
        0
    } else {
        occurrences(s.drop_last(), v) + if s.last() == v {
            1int
        } else {
            0int
        }
    }
}

impl<T> MergeView<T> {
    /// One more added than removed term.
    pub open spec fn wf(self) -> bool {
        self.adds.len() == self.removes.len() + 1
    }

    /// A single value: nothing removed.
    pub open spec fn is_resolved(self) -> bool {
        self.removes.len() == 0
    }

    /// The single value `value`.
    pub open spec fn resolved(value: T) -> MergeView<T> {
        MergeView { removes: Seq::empty(), adds: seq![value] }
    }

    /// The number of added terms.
    pub open spec fn num_sides(self) -> nat {
        self.adds.len()
    }

    /// The terms with removed term `r` and added term `a` deleted.
    pub open spec fn without(self, r: int, a: int) -> MergeView<T> {
        MergeView { removes: self.removes.remove(r), adds: self.adds.remove(a) }
    }

    /// Added occurrences of `v` minus removed ones.
    pub open spec fn net_count(self, v: T) -> int {
        occurrences(self.adds, v) - occurrences(self.removes, v)
    }

    /// No removed term equals an added term.
    pub open spec fn is_simplified(self) -> bool {
        forall|i: int, j: int|
            0 <= i < self.adds.len() && 0 <= j < self.removes.len() ==> #[trigger] self.adds[i]
                != #[trigger] self.removes[j]
    }

    /// Cancels pairs, looking at the added terms from position `i` on: an
    /// added term that equals a removed one is deleted together with the
    /// first such removed term.
    pub open spec fn simplify_from(self, i: int) -> MergeView<T>
        decreases self.adds.len(), self.adds.len() - i,
    {
        if i < 0 || i >= self.adds.len() {
            self
        } else {
            let j = first_index_from(self.removes, self.adds[i], 0);
            if j < self.removes.len() {
                self.without(j, i).simplify_from(i)
            } else {
                self.simplify_from(i + 1)
            }
        }
    }

    /// The terms left when every pair of an equal removed and added term is
    /// cancelled.
    pub open spec fn simplify(self) -> MergeView<T> {
        self.simplify_from(0)
    }

    /// All added terms are one value and all removed terms are one value.
    pub open spec fn is_uniform(self) -> bool {
        &&& forall|i: int| 0 <= i < self.adds.len() ==> #[trigger] self.adds[i] == self.adds[0]
        &&& forall|j: int|
            0 <= j < self.removes.len() ==> #[trigger] self.removes[j] == self.removes[0]
    }

    /// The value that the terms resolve to without looking inside them: the
    /// one left after cancelling, or the one that every side changed to.
    pub open spec fn resolve_trivial(self) -> Option<T> {
        let s = self.simplify();
        if s.adds.len() > 0 && s.is_uniform() {
            Some(s.adds[0])
        } else {
            None
        }
    }

    /// Terms `value` appended to both lists until there are `num_sides` added terms.
    pub open spec fn pad_to(self, num_sides: nat, value: T) -> MergeView<T>
        decreases num_sides - self.adds.len(),
    {
        if self.adds.len() >= num_sides {
            self
        } else {
            (MergeView { removes: self.removes.push(value), adds: self.adds.push(value) }).pad_to(
                num_sides,
                value,
            )
        }
    }

    /// The terms transformed one by one.
    pub open spec fn map<U>(self, f: spec_fn(T) -> U) -> MergeView<U> {
        MergeView { removes: self.removes.map_values(f), adds: self.adds.map_values(f) }
    }
}

/// A value with `k` removed and `k + 1` added terms: start from the first
/// added term, then for each further pair take the removed term away and put
/// the added term in. With `k == 0` it is a single, resolved value.
#[derive(Debug, PartialEq, Eq)]
pub struct Merge<T> {
    removes: Vec<T>,
    adds: Vec<T>,
}

impl<T> View for Merge<T> {
    type V = MergeView<T>;

    closed spec fn view(&self) -> MergeView<T> {
        MergeView { removes: self.removes@, adds: self.adds@ }
    }
}

impl<T> Merge<T> {
    /// The arity invariant of the stored terms.
    pub open spec fn wf(&self) -> bool {
        self@.wf()
    }

    /// Terms from explicit lists.
    pub fn new(removes: Vec<T>, adds: Vec<T>) -> (m: Merge<T>)
        requires
            adds.len() == removes.len() + 1,
        ensures
            m@.removes == removes@,
            m@.adds == adds@,
            m.wf(),
    {
        Merge { removes, adds }
    }

    /// Terms from explicit lists, or nothing where there is not exactly one
    /// more added than removed term.
    pub fn try_new(removes: Vec<T>, adds: Vec<T>) -> (r: Option<Merge<T>>)
        ensures
            match r {
                Some(m) => adds.len() == removes.len() + 1 && m@.removes == removes@ && m@.adds
                    == adds@ && m.wf(),
                None => adds.len() != removes.len() + 1,
            },
    {
        if adds.len() > 0 && adds.len() - 1 == removes.len() {
            Some(Merge { removes, adds })
        } else {
            None
        }
    }

    /// A single value.
    pub fn resolved(value: T) -> (m: Merge<T>)
        ensures
            m@ == MergeView::resolved(value),
            m.wf(),
    {
        let mut adds: Vec<T> = Vec::new();
        adds.push(value);
        let m = Merge { removes: Vec::new(), adds };
        assert(m@.adds =~= seq![value]);
        assert(m@.removes =~= Seq::empty());
        m
    }

    /// The removed terms.
    pub fn removes(&self) -> (r: &Vec<T>)
        ensures
            r@ == self@.removes,
    {
        &self.removes
    }

    /// The added terms.
    pub fn adds(&self) -> (r: &Vec<T>)
        ensures
            r@ == self@.adds,
    {
        &self.adds
    }

    /// The number of added terms.
    pub fn num_sides(&self) -> (n: usize)
        ensures
            n == self@.num_sides(),
    {
        self.adds.len()
    }

    /// Whether nothing is removed, so that there is a single value.
    pub fn is_resolved(&self) -> (b: bool)
        ensures
            b == self@.is_resolved(),
    {
        self.removes.len() == 0
    }

    /// The single value, if the terms are resolved.
    pub fn as_resolved(&self) -> (r: Option<&T>)
        requires
            self.wf(),
        ensures
            self@.is_resolved() ==> r == Some(&self@.adds[0]),
            !self@.is_resolved() ==> r.is_none(),
    {
        if self.removes.len() == 0 {
            Some(&self.adds[0])
        } else {
            None
        }
    }

    /// The single value, or the terms handed back if they are conflicted.
    pub fn into_resolved(self) -> (r: Result<T, Merge<T>>)
        requires
            self.wf(),
        ensures
            match r {
                Ok(v) => self@.is_resolved() && v == self@.adds[0],
                Err(m) => !self@.is_resolved() && m@ == self@,
            },
    {
        if self.removes.len() == 0 {
            let mut adds = self.adds;
            let v = adds.remove(0);
            Ok(v)
        } else {
            Err(self)
        }
    }
}

/// The first position at which `s` holds `v`, or `s.len()`.
fn position<T: PartialEq>(s: &Vec<T>, v: &T) -> (j: usize)
    requires
        obeys_concrete_eq::<T>(),
    ensures
        j == first_index_from(s@, *v, 0),
        j <= s.len(),
{
    proof {
        reveal(obeys_concrete_eq);
    }
    let mut j: usize = 0;
    while j < s.len()
        invariant
            j <= s.len(),
            first_index_from(s@, *v, j as int) == first_index_from(s@, *v, 0),
            obeys_concrete_eq::<T>(),
        decreases s.len() - j,
    {
        proof {
            reveal(obeys_concrete_eq);
        }
        if s[j] == *v {
            return j;
        }
        j += 1;
    }
    j
}

impl<T: PartialEq> Merge<T> {
    /// Cancels every pair of an equal removed and added term.
    pub fn simplify(self) -> (r: Merge<T>)
        requires
            self.wf(),
            obeys_concrete_eq::<T>(),
        ensures
            r@ == self@.simplify(),
            r.wf(),
            r@.is_simplified(),
            r@.adds.len() <= self@.adds.len(),
    {
        let ghost start = self@;
        let mut removes = self.removes;
        let mut adds = self.adds;
        let mut i: usize = 0;
        while i < adds.len()
            invariant
                i <= adds.len(),
                adds.len() == removes.len() + 1,
                (MergeView { removes: removes@, adds: adds@ }).simplify_from(i as int)
                    == start.simplify(),
                obeys_concrete_eq::<T>(),
            decreases 2 * adds.len() - i,
        {
            let j = position(&removes, &adds[i]);
            if j < removes.len() {
                removes.remove(j);
                adds.remove(i);
            } else {
                i += 1;
            }
        }
        let r = Merge { removes, adds };
        proof {
            crate::algebra_laws::lemma_simplify_is_simplified(start);
        }
        r
    }

    /// Whether both hold the same terms in the same places.
    pub fn same_terms(&self, other: &Merge<T>) -> (b: bool)
        requires
            obeys_concrete_eq::<T>(),
        ensures
            b == (self@ == other@),
    {
        let a = same_items(&self.removes, &other.removes);
        let b = same_items(&self.adds, &other.adds);
        a && b
    }
}

/// Whether two lists hold the same items in the same places.
pub fn same_items<T: PartialEq>(a: &Vec<T>, b: &Vec<T>) -> (r: bool)
    requires
        obeys_concrete_eq::<T>(),
    ensures
        r == (a@ == b@),
{
    proof {
        reveal(obeys_concrete_eq);
    }
    if a.len() != b.len() {
        return false;
    }
    let mut i: usize = 0;
    while i < a.len()
        invariant
            i <= a.len(),
            a.len() == b.len(),
            forall|k: int| 0 <= k < i ==> a@[k] == b@[k],
            obeys_concrete_eq::<T>(),
        decreases a.len() - i,
    {
        proof {
            reveal(obeys_concrete_eq);
        }
        if !(a[i] == b[i]) {
            return false;
        }
        i += 1;
    }
    assert(a@ =~= b@);
    true
}

/// The terms in chain order: added and removed terms in turn, starting and
/// ending with an added one.
pub open spec fn interleaved<T>(m: MergeView<T>) -> Seq<T> {
    Seq::new(
        m.adds.len() + m.removes.len(),
        |k: int|
            if k % 2 == 0 {
                m.adds[k / 2]
            } else {
                m.removes[k / 2]
            },
    )
}

/// The terms that a chain of odd length stands for.
pub open spec fn from_interleaved<T>(terms: Seq<T>) -> MergeView<T> {
    MergeView {
        removes: Seq::new((terms.len() / 2) as nat, |j: int| terms[2 * j + 1]),
        adds: Seq::new((terms.len() / 2 + 1) as nat, |i: int| terms[2 * i]),
    }
}

/// A copy of a list of plain values.
pub fn copy_items<T: Copy>(v: &Vec<T>) -> (r: Vec<T>)
    ensures
        r@ == v@,
{
    let mut r: Vec<T> = Vec::new();
    let mut i: usize = 0;
    while i < v.len()
        invariant
            i <= v.len(),
            r@ == v@.take(i as int),
        decreases v.len() - i,
    {
        r.push(v[i]);
        assert(v@.take(i + 1) =~= v@.take(i as int).push(v@[i as int]));
        i += 1;
    }
    assert(v@.take(v.len() as int) =~= v@);
    r
}

impl<T: Copy> Clone for Merge<T> {
    fn clone(&self) -> (r: Merge<T>)
        ensures
            r@ == self@,
    {
        Merge { removes: copy_items(&self.removes), adds: copy_items(&self.adds) }
    }
}

impl<T: Copy> Merge<T> {
    /// Appends `value` to both lists until there are `num_sides` added terms.
    pub fn pad_to(&mut self, num_sides: usize, value: T)
        requires
            old(self).wf(),
        ensures
            final(self)@ == old(self)@.pad_to(num_sides as nat, value),
            final(self).wf(),
            final(self)@.adds.len() == if old(self)@.adds.len() >= num_sides {
                old(self)@.adds.len()
            } else {
                num_sides as nat
            },
    {
        while self.adds.len() < num_sides
            invariant
                self.wf(),
                self@.pad_to(num_sides as nat, value) == old(self)@.pad_to(num_sides as nat, value),
                self@.adds.len() >= old(self)@.adds.len(),
                old(self)@.adds.len() < num_sides ==> self@.adds.len() <= num_sides,
                old(self)@.adds.len() >= num_sides ==> self@ == old(self)@,
            decreases num_sides - self.adds.len(),
        {
            self.removes.push(value);
            self.adds.push(value);
        }
    }

    /// The terms in chain order.
    pub fn to_interleaved(&self) -> (r: Vec<T>)
        requires
            self.wf(),
        ensures
            r@ == interleaved(self@),
    {
        let mut r: Vec<T> = Vec::new();
        r.push(self.adds[0]);
        let mut j: usize = 0;
        while j < self.removes.len()
            invariant
                self.wf(),
                j <= self.removes.len(),
                r.len() == 2 * j + 1,
                forall|k: int| 0 <= k < r.len() ==> r@[k] == #[trigger] interleaved(self@)[k],
            decreases self.removes.len() - j,
        {
            r.push(self.removes[j]);
            r.push(self.adds[j + 1]);
            j += 1;
        }
        assert(r@ =~= interleaved(self@));
        r
    }
}

impl<T: Copy + PartialEq> Merge<T> {
    /// The value that the terms resolve to without looking inside them, if
    /// there is one.
    pub fn resolve_trivial(&self) -> (r: Option<T>)
        requires
            self.wf(),
            obeys_concrete_eq::<T>(),
        ensures
            r == self@.resolve_trivial(),
    {
        proof {
            reveal(obeys_concrete_eq);
        }
        let s = self.clone().simplify();
        let first = s.adds[0];
        let mut i: usize = 1;
        while i < s.adds.len()
            invariant
                1 <= i <= s.adds.len(),
                first == s@.adds[0],
                s@ == self@.simplify(),
                forall|k: int| 0 <= k < i ==> #[trigger] s@.adds[k] == s@.adds[0],
                obeys_concrete_eq::<T>(),
            decreases s.adds.len() - i,
        {
            proof {
                reveal(obeys_concrete_eq);
            }
            if !(s.adds[i] == first) {
                assert(s@.adds[i as int] != s@.adds[0]);
                return None;
            }
            i += 1;
        }
        let mut j: usize = 1;
        while j < s.removes.len()
            invariant
                1 <= j,
                s.removes.len() >= 1 ==> j <= s.removes.len(),
                s@ == self@.simplify(),
                first == s@.adds[0],
                s.adds.len() >= 1,
                forall|k: int| 0 <= k < j && k < s.removes.len() ==> #[trigger] s@.removes[k] == s@.removes[0],
                forall|k: int| 0 <= k < s.adds.len() ==> #[trigger] s@.adds[k] == s@.adds[0],
                obeys_concrete_eq::<T>(),
            decreases s.removes.len() - j,
        {
            proof {
                reveal(obeys_concrete_eq);
            }
            if !(s.removes[j] == s.removes[0]) {
                assert(s@.removes[j as int] != s@.removes[0]);
                return None;
            }
            j += 1;
        }
        Some(first)
    }

    /// The simplified terms that a chain of odd length stands for: the items
    /// at even places are added, those at odd places removed.
    pub fn from_interleaved(terms: &Vec<T>) -> (r: Merge<T>)
        requires
            terms.len() % 2 == 1,
            obeys_concrete_eq::<T>(),
        ensures
            r@ == from_interleaved(terms@).simplify(),
            r.wf(),
    {
        let mut removes: Vec<T> = Vec::new();
        let mut adds: Vec<T> = Vec::new();
        adds.push(terms[0]);
        let mut j: usize = 0;
        while 2 * j + 1 < terms.len()
            invariant
                terms.len() % 2 == 1,
                2 * j + 1 <= terms.len(),
                removes.len() == j,
                adds.len() == j + 1,
                forall|k: int| 0 <= k < j ==> removes@[k] == terms@[2 * k + 1],
                forall|k: int| 0 <= k <= j ==> adds@[k] == terms@[2 * k],
            decreases terms.len() - 2 * j,
        {
            removes.push(terms[2 * j + 1]);
            adds.push(terms[2 * j + 2]);
            j += 1;
        }
        let m = Merge { removes, adds };
        assert(m@.removes =~= from_interleaved(terms@).removes);
        assert(m@.adds =~= from_interleaved(terms@).adds);
        m.simplify()
    }
}

impl<T> Merge<Option<T>> {
    /// The resolved value that stands for "no entry".
    pub fn absent() -> (m: Merge<Option<T>>)
        ensures
            m@ == MergeView::resolved(None::<T>),
            m.wf(),
    {
        Merge::resolved(None)
    }

    /// The resolved value that stands for an entry.
    pub fn normal(value: T) -> (m: Merge<Option<T>>)
        ensures
            m@ == MergeView::resolved(Some(value)),
            m.wf(),
    {
        Merge::resolved(Some(value))
    }

    /// Whether the terms are the resolved value "no entry".
    pub fn is_absent(&self) -> (b: bool)
        requires
            self.wf(),
        ensures
            b == (self@.is_resolved() && self@.adds[0].is_none()),
    {
        self.removes.len() == 0 && self.adds[0].is_none()
    }

    /// Whether the terms are anything but the resolved value "no entry".
    pub fn is_present(&self) -> (b: bool)
        requires
            self.wf(),
        ensures
            b == !(self@.is_resolved() && self@.adds[0].is_none()),
    {
        !self.is_absent()
    }
}

/// `f` may be called on every item of the list.
pub open spec fn callable_on<T, U, F: Fn(&T) -> U>(f: F, list: Seq<T>) -> bool {
    forall|i: int| 0 <= i < list.len() ==> call_requires(f, (&#[trigger] list[i],))
}

/// `out` holds a result of `f` for each item of `list`, in order.
pub open spec fn mapped_by<T, U, F: Fn(&T) -> U>(f: F, list: Seq<T>, out: Seq<U>) -> bool {
    &&& out.len() == list.len()
    &&& forall|i: int| 0 <= i < list.len() ==> call_ensures(f, (&list[i],), #[trigger] out[i])
}

/// `f` succeeded on the first `k` items of `list`, with the results `out`.
pub open spec fn succeeded_on<T, U, E, F: Fn(&T) -> Result<U, E>>(
    f: F,
    list: Seq<T>,
    k: int,
    out: Seq<U>,
) -> bool {
    &&& out.len() == k
    &&& forall|i: int| 0 <= i < k ==> call_ensures(f, (&list[i],), Ok::<U, E>(#[trigger] out[i]))
}

/// `f` failed with `e` on an item of `list` after succeeding on all before it.
pub open spec fn first_failure<T, U, E, F: Fn(&T) -> Result<U, E>>(f: F, list: Seq<T>, e: E) -> bool {
    exists|k: int, out: Seq<U>|
        0 <= k < list.len() && #[trigger] succeeded_on(f, list, k, out) && call_ensures(
            f,
            (&list[k],),
            Err::<U, E>(e),
        )
}

/// The results of `f` for the items of a list.
fn map_list<T, U, F: Fn(&T) -> U>(list: &Vec<T>, f: &F) -> (r: Vec<U>)
    requires
        callable_on(*f, list@),
    ensures
        mapped_by(*f, list@, r@),
{
    let mut r: Vec<U> = Vec::new();
    let mut i: usize = 0;
    while i < list.len()
        invariant
            i <= list.len(),
            callable_on(*f, list@),
            mapped_by(*f, list@.take(i as int), r@),
        decreases list.len() - i,
    {
        let u = f(&list[i]);
        r.push(u);
        assert forall|k: int| 0 <= k < i + 1 implies call_ensures(
            *f,
            (&list@.take(i + 1)[k],),
            #[trigger] r@[k],
        ) by {
            if k < i {
                assert(list@.take(i as int)[k] == list@.take(i + 1)[k]);
            }
        }
        i += 1;
    }
    assert(list@.take(list.len() as int) =~= list@);
    r
}

/// The results of `f` for the items of a list, or its first failure.
fn try_map_list<T, U, E, F: Fn(&T) -> Result<U, E>>(list: &Vec<T>, f: &F) -> (r: Result<Vec<U>, E>)
    requires
        callable_on(*f, list@),
    ensures
        match r {
            Ok(out) => succeeded_on(*f, list@, list@.len() as int, out@),
            Err(e) => first_failure(*f, list@, e),
        },
{
    let mut r: Vec<U> = Vec::new();
    let mut i: usize = 0;
    while i < list.len()
        invariant
            i <= list.len(),
            callable_on(*f, list@),
            succeeded_on(*f, list@, i as int, r@),
        decreases list.len() - i,
    {
        match f(&list[i]) {
            Ok(u) => {
                r.push(u);
            },
            Err(e) => {
                assert(succeeded_on(*f, list@, i as int, r@));
                return Err(e);
            },
        }
        i += 1;
    }
    Ok(r)
}

impl<T> Merge<T> {
    /// The terms transformed one by one by `f`; the arity stays.
    pub fn map<U, F: Fn(&T) -> U>(&self, f: F) -> (r: Merge<U>)
        requires
            self.wf(),
            callable_on(f, self@.removes),
            callable_on(f, self@.adds),
        ensures
            r.wf(),
            mapped_by(f, self@.removes, r@.removes),
            mapped_by(f, self@.adds, r@.adds),
    {
        let removes = map_list(&self.removes, &f);
        let adds = map_list(&self.adds, &f);
        Merge { removes, adds }
    }

    /// The terms transformed one by one by `f`, the removed ones first; at
    /// the first failure of `f` its error is handed on and no further term
    /// is looked at.
    pub fn try_map<U, E, F: Fn(&T) -> Result<U, E>>(&self, f: F) -> (r: Result<Merge<U>, E>)
        requires
            self.wf(),
            callable_on(f, self@.removes),
            callable_on(f, self@.adds),
        ensures
            match r {
                Ok(m) => {
                    &&& m.wf()
                    &&& succeeded_on(f, self@.removes, self@.removes.len() as int, m@.removes)
                    &&& succeeded_on(f, self@.adds, self@.adds.len() as int, m@.adds)
                },
                Err(e) => {
                    ||| first_failure(f, self@.removes, e)
                    ||| (exists|out: Seq<U>|
                        #[trigger] succeeded_on(
                            f,
                            self@.removes,
                            self@.removes.len() as int,
                            out,
                        )) && first_failure(f, self@.adds, e)
                },
            },
    {
        let removes = match try_map_list(&self.removes, &f) {
            Ok(removes) => removes,
            Err(e) => {
                return Err(e);
            },
        };
        let adds = match try_map_list(&self.adds, &f) {
            Ok(adds) => adds,
            Err(e) => {
                assert(succeeded_on(f, self@.removes, self@.removes.len() as int, removes@));
                return Err(e);
            },
        };
        Ok(Merge { removes, adds })
    }
}

/// A copy of the items of a list from position `from` up to `to`.
pub fn copy_range<T: Copy>(text: &Vec<T>, from: usize, to: usize) -> (r: Vec<T>)
    requires
        from <= to <= text.len(),
    ensures
        r@ == text@.subrange(from as int, to as int),
{
    let mut r: Vec<T> = Vec::new();
    let mut i: usize = from;
    while i < to
        invariant
            from <= i <= to,
            to <= text.len(),
            r@ == text@.subrange(from as int, i as int),
        decreases to - i,
    {
        r.push(text[i]);
        assert(text@.subrange(from as int, i + 1) =~= text@.subrange(from as int, i as int).push(
            text@[i as int],
        ));
        i += 1;
    }
    r
}

} // verus!
