//! Finite sets of identifiers, kept as strictly ascending vectors.

use vstd::prelude::*;

verus! {

/// An identifier: a machine integer that stands for a mathematical one and is
/// ordered by it.
pub trait Id: Copy {
    /// The integer this identifier stands for.
    spec fn id(self) -> int;

    /// Whether `self` comes strictly before `other`.
    fn precedes(self, other: Self) -> (r: bool)
        ensures
            r == (self.id() < other.id()),
    ;

    /// Whether `self` and `other` stand for the same integer.
    fn same(self, other: Self) -> (r: bool)
        ensures
            r == (self.id() == other.id()),
    ;
}

impl Id for i32 {
    open spec fn id(self) -> int {
        self as int
    }

    fn precedes(self, other: i32) -> (r: bool) {
        self < other
    }

    fn same(self, other: i32) -> (r: bool) {
        self == other
    }
}

impl Id for usize {
    open spec fn id(self) -> int {
        self as int
    }

    fn precedes(self, other: usize) -> (r: bool) {
        self < other
    }

    fn same(self, other: usize) -> (r: bool) {
        self == other
    }
}

/// The integers that a sequence of identifiers stands for, in order.
pub open spec fn ids<T: Id>(s: Seq<T>) -> Seq<int> {
    s.map_values(|t: T| t.id())
}

/// Every element is strictly smaller than each one after it.
pub open spec fn ascending(s: Seq<int>) -> bool {
    forall|i: int, j: int| 0 <= i < j < s.len() ==> s[i] < s[j]
}

/// An ascending sequence lists a set of as many elements as it is long.
pub proof fn lemma_ascending_len(s: Seq<int>)
    requires
        ascending(s),
    ensures
        s.no_duplicates(),
        s.to_set().finite(),
        s.to_set().len() == s.len(),
{
    assert(s.no_duplicates()) by {
        assert forall|i: int, j: int| 0 <= i < s.len() && 0 <= j < s.len() && i != j implies s[i]
            != s[j] by {
            if i < j {
                assert(s[i] < s[j]);
            } else {
                assert(s[j] < s[i]);
            }
        }
    }
    s.unique_seq_to_set();
    s.lemma_cardinality_of_set();
}

/// Two ascending sequences that list the same set are the same sequence.
pub proof fn lemma_ascending_unique(a: Seq<int>, b: Seq<int>)
    requires
        ascending(a),
        ascending(b),
        a.to_set() == b.to_set(),
    ensures
        a == b,
    decreases a.len(),
{
    lemma_ascending_len(a);
    lemma_ascending_len(b);
    if a.len() > 0 {
        let x = a.last();
        let y = b.last();
        assert(a.to_set().contains(x));
        assert(b.to_set().contains(y));
        let i = choose|i: int| 0 <= i < b.len() && b[i] == x;
        let j = choose|j: int| 0 <= j < a.len() && a[j] == y;
        assert(x == y) by {
            if i < b.len() - 1 {
                assert(b[i] < b[b.len() - 1]);
            }
            if j < a.len() - 1 {
                assert(a[j] < a[a.len() - 1]);
            }
        }
        let a0 = a.drop_last();
        let b0 = b.drop_last();
        assert(a0.to_set() =~= b0.to_set()) by {
            assert forall|k: int| a0.to_set().contains(k) <==> b0.to_set().contains(k) by {
                if a0.to_set().contains(k) {
                    let p = choose|p: int| 0 <= p < a0.len() && a0[p] == k;
                    assert(a[p] == k && a[p] < a[a.len() - 1]);
                    assert(a.to_set().contains(k));
                    let q = choose|q: int| 0 <= q < b.len() && b[q] == k;
                    assert(b0[q] == k);
                }
                if b0.to_set().contains(k) {
                    let p = choose|p: int| 0 <= p < b0.len() && b0[p] == k;
                    assert(b[p] == k && b[p] < b[b.len() - 1]);
                    assert(b.to_set().contains(k));
                    let q = choose|q: int| 0 <= q < a.len() && a[q] == k;
                    assert(a0[q] == k);
                }
            }
        }
        lemma_ascending_unique(a0, b0);
        assert(a =~= a0.push(x));
        assert(b =~= b0.push(y));
    } else {
        assert(b.len() == 0);
        assert(a =~= b);
    }
}

/// A finite set of identifiers, stored in ascending order without repeats.
pub struct OrderedSet<T: Id> {
    items: Vec<T>,
}

impl<T: Id> View for OrderedSet<T> {
    type V = Set<int>;

    /// The set of integers that the stored identifiers stand for.
    open spec fn view(&self) -> Set<int> {
        self.keys().to_set()
    }
}

impl<T: Id> OrderedSet<T> {
    /// The stored identifiers as integers, in storage order.
    pub closed spec fn keys(&self) -> Seq<int> {
        ids(self.items@)
    }

    /// The storage is strictly ascending.
    pub open spec fn wf(&self) -> bool {
        ascending(self.keys())
    }

    /// A well-formed set is finite and has as many elements as it stores.
    pub proof fn lemma_len(&self)
        requires
            self.wf(),
        ensures
            self@.finite(),
            self@.len() == self.keys().len(),
    {
        lemma_ascending_len(self.keys());
    }

    /// The empty set.
    pub fn new() -> (s: Self)
        ensures
            s.wf(),
            s.keys() == Seq::<int>::empty(),
            s@ == Set::<int>::empty(),
    {
        let s = OrderedSet { items: Vec::new() };
        assert(s.keys() =~= Seq::<int>::empty());
        assert(s@ =~= Set::<int>::empty());
        s
    }

    /// The set listed by a strictly ascending vector.
    pub fn from_ascending(items: Vec<T>) -> (s: Self)
        requires
            ascending(ids(items@)),
        ensures
            s.wf(),
            s.keys() == ids(items@),
    {
        OrderedSet { items }
    }

    /// A copy of the set.
    pub fn duplicate(&self) -> (s: Self)
        ensures
            s.keys() == self.keys(),
            s@ == self@,
    {
        let mut items: Vec<T> = Vec::new();
        let mut i: usize = 0;
        while i < self.items.len()
            invariant
                i <= self.items@.len(),
                items@ == self.items@.subrange(0, i as int),
            decreases self.items@.len() - i,
        {
            items.push(self.items[i]);
            assert(items@ =~= self.items@.subrange(0, i + 1));
            i = i + 1;
        }
        assert(items@ =~= self.items@);
        OrderedSet { items }
    }

    /// The number of elements.
    pub fn len(&self) -> (n: usize)
        requires
            self.wf(),
        ensures
            n == self.keys().len(),
            n == self@.len(),
    {
        proof {
            self.lemma_len();
        }
        self.items.len()
    }

    /// Whether the set has no element.
    pub fn is_empty(&self) -> (b: bool)
        requires
            self.wf(),
        ensures
            b == (self.keys().len() == 0),
            b == (self@ == Set::<int>::empty()),
    {
        proof {
            self.lemma_len();
            if self.keys().len() == 0 {
                assert(self@ =~= Set::<int>::empty());
            }
        }
        self.items.len() == 0
    }

    /// The element at position `i` of the ascending listing.
    pub fn get(&self, i: usize) -> (t: T)
        requires
            i < self.keys().len(),
        ensures
            t.id() == self.keys()[i as int],
            self@.contains(t.id()),
    {
        self.items[i]
    }

    /// The ascending listing itself.
    pub fn as_slice(&self) -> (s: &[T])
        ensures
            ids(s@) == self.keys(),
    {
        self.items.as_slice()
    }

    /// The number of stored elements that come strictly before `x`.
    fn rank(&self, x: T) -> (r: usize)
        requires
            self.wf(),
        ensures
            r <= self.keys().len(),
            forall|i: int| 0 <= i < r ==> self.keys()[i] < x.id(),
            forall|i: int| r <= i < self.keys().len() ==> x.id() <= self.keys()[i],
    {
        let mut lo: usize = 0;
        let mut hi: usize = self.items.len();
        while lo < hi
            invariant
                self.wf(),
                lo <= hi <= self.items.len(),
                forall|i: int| 0 <= i < lo ==> self.keys()[i] < x.id(),
                forall|i: int| hi <= i < self.keys().len() ==> x.id() <= self.keys()[i],
            decreases hi - lo,
        {
            let mid: usize = lo + (hi - lo) / 2;
            if self.items[mid].precedes(x) {
                assert forall|i: int| 0 <= i < mid + 1 implies self.keys()[i] < x.id() by {
                    if i < mid {
                        assert(self.keys()[i] < self.keys()[mid as int]);
                    }
                }
                lo = mid + 1;
            } else {
                assert forall|i: int| mid <= i < self.keys().len() implies x.id()
                    <= self.keys()[i] by {
                    if mid < i {
                        assert(self.keys()[mid as int] < self.keys()[i]);
                    }
                }
                hi = mid;
            }
        }
        lo
    }

    /// Whether `x` is an element.
    pub fn contains(&self, x: T) -> (b: bool)
        requires
            self.wf(),
        ensures
            b == self@.contains(x.id()),
    {
        let r = self.rank(x);
        if r < self.items.len() && self.items[r].same(x) {
            assert(self.keys()[r as int] == x.id());
            true
        } else {
            assert(!self@.contains(x.id())) by {
                if self@.contains(x.id()) {
                    let i = choose|i: int| 0 <= i < self.keys().len() && self.keys()[i] == x.id();
                    if i > r {
                        assert(self.keys()[r as int] < self.keys()[i]);
                    }
                }
            }
            false
        }
    }

    /// Adds `x`; says whether it was new.
    pub fn insert(&mut self, x: T) -> (added: bool)
        requires
            old(self).wf(),
        ensures
            final(self).wf(),
            final(self)@ == old(self)@.insert(x.id()),
            added == !old(self)@.contains(x.id()),
    {
        let r = self.rank(x);
        if r < self.items.len() && self.items[r].same(x) {
            assert(self.keys()[r as int] == x.id());
            assert(self@ =~= self@.insert(x.id()));
            false
        } else {
            let ghost before = self.keys();
            assert(!self@.contains(x.id())) by {
                if self@.contains(x.id()) {
                    let i = choose|i: int| 0 <= i < before.len() && before[i] == x.id();
                    if i > r {
                        assert(before[r as int] < before[i]);
                    }
                }
            }
            self.items.insert(r, x);
            proof {
                let after = self.keys();
                assert(after =~= before.insert(r as int, x.id()));
                assert forall|i: int, j: int| 0 <= i < j < after.len() implies after[i]
                    < after[j] by {
                    let oi = if i < r { i } else { i - 1 };
                    let oj = if j < r { j } else { j - 1 };
                    if i != r && j != r {
                        assert(before[oi] < before[oj]);
                    }
                }
                assert forall|k: int| after.to_set().contains(k) <==> before.to_set().insert(
                    x.id(),
                ).contains(k) by {
                    if after.to_set().contains(k) {
                        let i = choose|i: int| 0 <= i < after.len() && after[i] == k;
                        if i < r {
                            assert(before[i] == k);
                        } else if i > r {
                            assert(before[i - 1] == k);
                        }
                    }
                    if before.to_set().contains(k) {
                        let i = choose|i: int| 0 <= i < before.len() && before[i] == k;
                        if i < r {
                            assert(after[i] == k);
                        } else {
                            assert(after[i + 1] == k);
                        }
                    }
                    if k == x.id() {
                        assert(after[r as int] == k);
                    }
                }
                assert(self@ =~= old(self)@.insert(x.id()));
            }
            true
        }
    }

    /// Takes `x` out; says whether it was there.
    pub fn remove(&mut self, x: T) -> (removed: bool)
        requires
            old(self).wf(),
        ensures
            final(self).wf(),
            final(self)@ == old(self)@.remove(x.id()),
            removed == old(self)@.contains(x.id()),
    {
        let r = self.rank(x);
        let ghost before = self.keys();
        if r < self.items.len() && self.items[r].same(x) {
            assert(before[r as int] == x.id());
            self.items.remove(r);
            proof {
                let after = self.keys();
                assert(after =~= before.remove(r as int));
                assert forall|i: int, j: int| 0 <= i < j < after.len() implies after[i]
                    < after[j] by {
                    let oi = if i < r { i } else { i + 1 };
                    let oj = if j < r { j } else { j + 1 };
                    assert(before[oi] < before[oj]);
                }
                assert forall|k: int| after.to_set().contains(k) <==> before.to_set().remove(
                    x.id(),
                ).contains(k) by {
                    if after.to_set().contains(k) {
                        let i = choose|i: int| 0 <= i < after.len() && after[i] == k;
                        let oi = if i < r { i } else { i + 1 };
                        assert(before[oi] == k);
                        if oi < r {
                            assert(before[oi] < before[r as int]);
                        } else {
                            assert(before[r as int] < before[oi]);
                        }
                    }
                    if before.to_set().contains(k) && k != x.id() {
                        let i = choose|i: int| 0 <= i < before.len() && before[i] == k;
                        if i < r {
                            assert(after[i] == k);
                        } else {
                            assert(after[i - 1] == k);
                        }
                    }
                }
                assert(self@ =~= old(self)@.remove(x.id()));
            }
            true
        } else {
            assert(!self@.contains(x.id())) by {
                if self@.contains(x.id()) {
                    let i = choose|i: int| 0 <= i < before.len() && before[i] == x.id();
                    if i > r {
                        assert(before[r as int] < before[i]);
                    }
                }
            }
            assert(self@ =~= self@.remove(x.id()));
            false
        }
    }

    /// Whether every element of `self` is an element of `other`.
    pub fn is_subset(&self, other: &Self) -> (b: bool)
        requires
            self.wf(),
            other.wf(),
        ensures
            b == self@.subset_of(other@),
    {
        let n = self.items.len();
        let m = other.items.len();
        let mut i: usize = 0;
        let mut j: usize = 0;
        while i < n
            invariant
                self.wf(),
                other.wf(),
                n == self.keys().len(),
                m == other.keys().len(),
                i <= n,
                j <= m,
                forall|p: int| 0 <= p < i ==> other@.contains(#[trigger] self.keys()[p]),
                i < n ==> forall|q: int| 0 <= q < j ==> other.keys()[q] < self.keys()[i as int],
            decreases n - i, m - j,
        {
            let a = self.items[i];
            if j < m && other.items[j].same(a) {
                assert(other.keys()[j as int] == self.keys()[i as int]);
                assert forall|q: int| i + 1 < n && 0 <= q < j + 1 implies other.keys()[q]
                    < self.keys()[i + 1] by {
                    assert(self.keys()[i as int] < self.keys()[i + 1]);
                }
                i = i + 1;
                j = j + 1;
            } else if j < m && other.items[j].precedes(a) {
                j = j + 1;
            } else {
                assert(!other@.contains(a.id())) by {
                    if other@.contains(a.id()) {
                        let q = choose|q: int| 0 <= q < m && other.keys()[q] == a.id();
                        if q > j {
                            assert(other.keys()[j as int] < other.keys()[q]);
                        }
                    }
                }
                assert(self@.contains(self.keys()[i as int]));
                return false;
            }
        }
        assert forall|k: int| self@.contains(k) implies other@.contains(k) by {
            let p = choose|p: int| 0 <= p < n && self.keys()[p] == k;
            assert(other@.contains(self.keys()[p]));
        }
        true
    }

    /// Takes every element of `other` out of `self`.
    pub fn subtract(&mut self, other: &Self)
        requires
            old(self).wf(),
            other.wf(),
        ensures
            final(self).wf(),
            final(self)@ == old(self)@.difference(other@),
    {
        let n = self.items.len();
        let m = other.items.len();
        let mut kept: Vec<T> = Vec::new();
        let mut i: usize = 0;
        let mut j: usize = 0;
        while i < n
            invariant
                self.wf(),
                other.wf(),
                n == self.keys().len(),
                m == other.keys().len(),
                i <= n,
                j <= m,
                i < n ==> forall|q: int| 0 <= q < j ==> other.keys()[q] < self.keys()[i as int],
                ascending(ids(kept@)),
                i < n ==> forall|q: int|
                    0 <= q < kept.len() ==> ids(kept@)[q] < self.keys()[i as int],
                forall|q: int|
                    0 <= q < kept.len() ==> self@.contains(#[trigger] ids(kept@)[q])
                        && !other@.contains(ids(kept@)[q]),
                forall|p: int|
                    0 <= p < i && !other@.contains(#[trigger] self.keys()[p]) ==> ids(
                        kept@,
                    ).to_set().contains(self.keys()[p]),
            decreases n - i, m - j,
        {
            let a = self.items[i];
            if j < m && other.items[j].precedes(a) {
                j = j + 1;
            } else {
                let ghost held = ids(kept@);
                if j < m && other.items[j].same(a) {
                    assert(other@.contains(other.keys()[j as int]));
                    j = j + 1;
                } else {
                    assert(!other@.contains(a.id())) by {
                        if other@.contains(a.id()) {
                            let q = choose|q: int| 0 <= q < m && other.keys()[q] == a.id();
                            if q > j {
                                assert(other.keys()[j as int] < other.keys()[q]);
                            }
                        }
                    }
                    kept.push(a);
                    assert(ids(kept@) =~= held.push(a.id()));
                    assert(self@.contains(self.keys()[i as int]));
                }
                proof {
                    let now = ids(kept@);
                    assert forall|p: int|
                        0 <= p < i + 1 && !other@.contains(
                            #[trigger] self.keys()[p],
                        ) implies now.to_set().contains(self.keys()[p]) by {
                        if p < i {
                            let q = choose|q: int| 0 <= q < held.len() && held[q] == self.keys()[p];
                            assert(now[q] == self.keys()[p]);
                        } else {
                            assert(now[now.len() - 1] == self.keys()[p]);
                        }
                    }
                    if i + 1 < n {
                        assert(self.keys()[i as int] < self.keys()[i + 1]);
                    }
                }
                i = i + 1;
            }
        }
        proof {
            let now = ids(kept@);
            assert forall|k: int| now.to_set().contains(k) <==> self@.difference(other@).contains(
                k,
            ) by {
                if now.to_set().contains(k) {
                    let q = choose|q: int| 0 <= q < now.len() && now[q] == k;
                    assert(self@.contains(now[q]) && !other@.contains(now[q]));
                }
                if self@.contains(k) && !other@.contains(k) {
                    let p = choose|p: int| 0 <= p < n && self.keys()[p] == k;
                    assert(now.to_set().contains(self.keys()[p]));
                }
            }
            assert(now.to_set() =~= self@.difference(other@));
        }
        self.items = kept;
    }
}

} // verus!
