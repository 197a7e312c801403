//! An insertion-ordered set of distinct values.
use vstd::prelude::*;

verus! {

/// A value that can be compared with, and copied into, another value of its
/// type, both by its view.
pub trait Element: Sized + View {
    fn same(&self, other: &Self) -> (r: bool)
        ensures
            r == (self@ == other@),
    ;

    fn duplicate(&self) -> (r: Self)
        ensures
            r@ == self@,
    ;
}

impl Element for String {
    fn same(&self, other: &Self) -> (r: bool) {
        *self == *other
    }

    fn duplicate(&self) -> (r: Self) {
        self.clone()
    }
}

impl Element for i32 {
    fn same(&self, other: &Self) -> (r: bool) {
        *self == *other
    }

    fn duplicate(&self) -> (r: Self) {
        *self
    }
}

impl Element for i64 {
    fn same(&self, other: &Self) -> (r: bool) {
        *self == *other
    }

    fn duplicate(&self) -> (r: Self) {
        *self
    }
}

impl Element for u32 {
    fn same(&self, other: &Self) -> (r: bool) {
        *self == *other
    }

    fn duplicate(&self) -> (r: Self) {
        *self
    }
}

impl Element for u64 {
    fn same(&self, other: &Self) -> (r: bool) {
        *self == *other
    }

    fn duplicate(&self) -> (r: Self) {
        *self
    }
}

impl Element for usize {
    fn same(&self, other: &Self) -> (r: bool) {
        *self == *other
    }

    fn duplicate(&self) -> (r: Self) {
        *self
    }
}

/// The views of a sequence of elements.
pub open spec fn views<T: View>(s: Seq<T>) -> Seq<T::V> {
    s.map_values(|t: T| t@)
}

/// Values in the order of their first insertion, each held once.
/// Membership is found by a scan over the values, compared by their views,
/// so that every operation is proved for any element type; a hashed index
/// is provable only for keys of primitive types.
pub struct OrderedSet<T> {
    items: Vec<T>,
}

impl<T: Element> View for OrderedSet<T> {
    type V = Seq<T::V>;

    closed spec fn view(&self) -> Seq<T::V> {
        views(self.items@)
    }
}

impl<T: Element> OrderedSet<T> {
    /// No value is held twice.
    pub open spec fn wf(&self) -> bool {
        self@.no_duplicates()
    }

    pub fn new() -> (r: OrderedSet<T>)
        ensures
            r.wf(),
            r@ == Seq::<T::V>::empty(),
    {
        OrderedSet { items: Vec::new() }
    }

    /// Inserts `item` at the end unless it is already held; returns whether
    /// it was inserted.
    pub fn add(&mut self, item: &T) -> (r: bool)
        requires
            old(self).wf(),
        ensures
            final(self).wf(),
            r == !old(self)@.contains(item@),
            final(self)@ == add_unique(old(self)@, item@),
    {
        if self.index(item).is_some() {
            return false;
        }
        self.items.push(item.duplicate());
        assert(self@ =~= old(self)@.push(item@));
        true
    }

    /// The position of `item` in insertion order, if it is held.
    pub fn index(&self, item: &T) -> (r: Option<usize>)
        requires
            self.wf(),
        ensures
            match r {
                Some(i) => i < self@.len() && self@[i as int] == item@,
                None => !self@.contains(item@),
            },
    {
        let mut i: usize = 0;
        while i < self.items.len()
            invariant
                i <= self.items.len(),
                forall|j: int| 0 <= j < i ==> self@[j] != item@,
            decreases self.items.len() - i,
        {
            if self.items[i].same(item) {
                return Some(i);
            }
            i += 1;
        }
        None
    }

    /// Whether `item` is held.
    pub fn contains(&self, item: &T) -> (r: bool)
        requires
            self.wf(),
        ensures
            r == self@.contains(item@),
    {
        self.index(item).is_some()
    }

    pub fn len(&self) -> (r: usize)
        ensures
            r == self@.len(),
    {
        self.items.len()
    }

    /// The value at position `i` in insertion order.
    pub fn get(&self, i: usize) -> (r: &T)
        requires
            i < self@.len(),
        ensures
            r@ == self@[i as int],
    {
        &self.items[i]
    }

    /// Adds each of `values` in order, as `add` does, and returns what each
    /// add reported.
    pub fn add_each(&mut self, values: &Vec<T>) -> (r: Vec<bool>)
        requires
            old(self).wf(),
        ensures
            final(self).wf(),
            final(self)@ == add_from(old(self)@, views(values@)),
            r.len() == values.len(),
            forall|i: int|
                0 <= i < values.len() ==> r@[i] == !add_from(
                    old(self)@,
                    views(values@).take(i),
                ).contains(values@[i]@),
    {
        let ghost s0 = self@;
        let ghost vs = views(values@);
        let mut r: Vec<bool> = Vec::new();
        let mut i: usize = 0;
        assert(vs.take(0) =~= Seq::<T::V>::empty());
        while i < values.len()
            invariant
                self.wf(),
                i <= values.len(),
                vs == views(values@),
                self@ == add_from(s0, vs.take(i as int)),
                r.len() == i,
                forall|j: int|
                    0 <= j < i ==> r@[j] == !add_from(s0, vs.take(j)).contains(values@[j]@),
            decreases values.len() - i,
        {
            assert(vs.take(i + 1).drop_last() =~= vs.take(i as int));
            assert(vs[i as int] == values@[i as int]@);
            let b = self.add(&values[i]);
            r.push(b);
            i += 1;
        }
        assert(vs.take(values.len() as int) =~= vs);
        r
    }

    /// A copy holding the same values in the same order.
    pub fn duplicate(&self) -> (r: OrderedSet<T>)
        ensures
            r@ == self@,
    {
        let mut items: Vec<T> = Vec::new();
        let mut i: usize = 0;
        while i < self.items.len()
            invariant
                i <= self.items.len(),
                views(items@) == self@.take(i as int),
            decreases self.items.len() - i,
        {
            let x = self.items[i].duplicate();
            let ghost before = items@;
            items.push(x);
            assert(views(items@) =~= views(before).push(x@));
            i += 1;
            assert(views(items@) =~= self@.take(i as int));
        }
        assert(self@.take(self.items.len() as int) =~= self@);
        OrderedSet { items }
    }

    /// The held values in insertion order.
    pub fn into_vec(self) -> (r: Vec<T>)
        ensures
            views(r@) == self@,
    {
        self.items
    }
}

/// `s` with `v` appended, unless `s` already contains `v`.
pub open spec fn add_unique<V>(s: Seq<V>, v: V) -> Seq<V> {
    if s.contains(v) {
        s
    } else {
        s.push(v)
    }
}

/// What a set holding `s` holds after adding each of `adds` in order.
pub open spec fn add_from<V>(s: Seq<V>, adds: Seq<V>) -> Seq<V>
    decreases adds.len(),
{
    if adds.len() == 0 {
        s
    } else {
        add_unique(add_from(s, adds.drop_last()), adds.last())
    }
}

/// What a set holds after adding each of `adds` in order to an empty one.
pub open spec fn add_all<V>(adds: Seq<V>) -> Seq<V> {
    add_from(Seq::empty(), adds)
}

proof fn lemma_add_all_step<V>(adds: Seq<V>, k: int)
    requires
        0 <= k < adds.len(),
    ensures
        add_all(adds.take(k + 1)) == add_unique(add_all(adds.take(k)), adds[k]),
{
    assert(adds.take(k + 1).drop_last() =~= adds.take(k));
}

proof fn lemma_add_all_contents<V>(adds: Seq<V>)
    ensures
        add_all(adds).no_duplicates(),
        forall|x: V| add_all(adds).contains(x) <==> adds.contains(x),
    decreases adds.len(),
{
    if adds.len() > 0 {
        let rest = adds.drop_last();
        lemma_add_all_contents(rest);
        let p = add_all(rest);
        let last = adds.last();
        assert(adds[adds.len() - 1] == last);
        assert(add_all(adds) == add_unique(p, last));
        assert forall|x: V| adds.contains(x) implies add_all(adds).contains(x) by {
            let i = choose|i: int| 0 <= i < adds.len() && adds[i] == x;
            if i < adds.len() - 1 {
                assert(rest[i] == adds[i]);
                assert(rest.contains(x));
                assert(p.contains(x));
                let j = choose|j: int| 0 <= j < p.len() && p[j] == x;
                if !p.contains(last) {
                    assert(p.push(last)[j] == x);
                }
            } else if !p.contains(last) {
                assert(p.push(last)[p.len() as int] == last);
            }
        }
        assert forall|x: V| add_all(adds).contains(x) implies adds.contains(x) by {
            if p.contains(x) {
                assert(rest.contains(x));
                let j = choose|j: int| 0 <= j < rest.len() && rest[j] == x;
                assert(rest[j] == adds[j]);
            } else if x != last {
                assert(!p.contains(last));
                let j = choose|j: int| 0 <= j < p.len() + 1 && p.push(last)[j] == x;
                if j < p.len() {
                    assert(p[j] == x);
                }
            }
        }
        if !p.contains(last) {
            assert(p.push(last).no_duplicates()) by {
                assert forall|i: int, j: int|
                    0 <= i < p.len() + 1 && 0 <= j < p.len() + 1 && i != j implies p.push(last)[i]
                    != p.push(last)[j] by {
                    if i < p.len() && j == p.len() {
                        assert(p[i] != last);
                    }
                    if j < p.len() && i == p.len() {
                        assert(p[j] != last);
                    }
                }
            }
        }
    }
}

proof fn lemma_add_all_prefix<V>(adds: Seq<V>, k: int, j: int)
    requires
        0 <= k <= j <= adds.len(),
    ensures
        add_all(adds.take(k)).len() <= add_all(adds.take(j)).len(),
        forall|i: int|
            0 <= i < add_all(adds.take(k)).len() ==> #[trigger] add_all(adds.take(j))[i]
                == add_all(adds.take(k))[i],
    decreases j - k,
{
    if k < j {
        lemma_add_all_prefix(adds, k, j - 1);
        lemma_add_all_step(adds, j - 1);
    }
}

/// Adding the values of `adds` one at a time to an empty set: the add of
/// `adds[k]` reports a new value exactly when the value does not occur
/// before position `k`, so exactly once per distinct value; the set then
/// holds each distinct value of `adds` once and nothing else, so a value
/// never added has no index; and the value first added at step `k` keeps
/// the index it was given then, the number of distinct values added before
/// it, whatever is added after: that position is within the set and is the
/// only one that holds the value.
pub proof fn lemma_add_sequence<V>(adds: Seq<V>)
    ensures
        add_all(adds).no_duplicates(),
        forall|x: V| add_all(adds).contains(x) <==> adds.contains(x),
        forall|k: int|
            0 <= k < adds.len() ==> (!add_all(adds.take(k)).contains(adds[k])
                <==> !adds.take(k).contains(adds[k])),
        forall|k: int|
            0 <= k < adds.len() && !adds.take(k).contains(adds[k]) ==> add_all(adds)[add_all(
                adds.take(k),
            ).len() as int] == adds[k],
        forall|k: int|
            0 <= k < adds.len() && !adds.take(k).contains(adds[k]) ==> add_all(adds.take(k)).len()
                < add_all(adds).len(),
        forall|k: int, p: int|
            0 <= k < adds.len() && !adds.take(k).contains(adds[k]) && 0 <= p < add_all(adds).len()
                && add_all(adds)[p] == adds[k] ==> p == add_all(adds.take(k)).len(),
{
    lemma_add_all_contents(adds);
    assert forall|k: int|
        0 <= k < adds.len() implies (!add_all(adds.take(k)).contains(adds[k])
        <==> !adds.take(k).contains(adds[k])) by {
        lemma_add_all_contents(adds.take(k));
    }
    assert forall|k: int|
        0 <= k < adds.len() && !adds.take(k).contains(adds[k]) implies add_all(adds)[add_all(
        adds.take(k),
    ).len() as int] == adds[k] by {
        lemma_add_all_contents(adds.take(k));
        lemma_add_all_step(adds, k);
        let n = add_all(adds.take(k)).len() as int;
        assert(add_all(adds.take(k + 1))[n] == adds[k]);
        lemma_add_all_prefix(adds, k + 1, adds.len() as int);
        assert(adds.take(adds.len() as int) =~= adds);
    }
    assert forall|k: int|
        0 <= k < adds.len() && !adds.take(k).contains(adds[k]) implies add_all(adds.take(k)).len()
        < add_all(adds).len() by {
        lemma_add_all_contents(adds.take(k));
        lemma_add_all_step(adds, k);
        lemma_add_all_prefix(adds, k + 1, adds.len() as int);
        assert(adds.take(adds.len() as int) =~= adds);
    }
    assert forall|k: int, p: int|
        0 <= k < adds.len() && !adds.take(k).contains(adds[k]) && 0 <= p < add_all(adds).len()
            && add_all(adds)[p] == adds[k] implies p == add_all(adds.take(k)).len() by {
        let n = add_all(adds.take(k)).len() as int;
        assert(add_all(adds)[n] == adds[k]);
    }
}

} // verus!
