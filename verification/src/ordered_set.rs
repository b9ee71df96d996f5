//! A set kept in ascending order, and the ranges of it.

use crate::order;
use vstd::prelude::*;

verus! {

/// An endpoint of a range of values.
#[derive(Clone, Copy, Debug, PartialEq, Eq, Hash)]
pub enum Bound<T> {
    /// The endpoint belongs to the range.
    Included(T),
    /// The endpoint does not belong to the range.
    Excluded(T),
    /// The range has no endpoint on this side.
    Unbounded,
}

impl<T: PartialOrd> Bound<T> {
    /// `v` is not before a range that starts here.
    pub open spec fn starts_before(self, v: T) -> bool {
        match self {
            Bound::Included(b) => order::le(b, v),
            Bound::Excluded(b) => order::lt(b, v),
            Bound::Unbounded => true,
        }
    }

    /// `v` is not past a range that ends here.
    pub open spec fn ends_after(self, v: T) -> bool {
        match self {
            Bound::Included(b) => order::le(v, b),
            Bound::Excluded(b) => order::lt(v, b),
            Bound::Unbounded => true,
        }
    }

    /// The range does not end before it starts, nor at a start that both endpoints exclude.
    pub open spec fn is_range(self, end: Bound<T>) -> bool {
        match (self, end) {
            (Bound::Unbounded, _) => true,
            (_, Bound::Unbounded) => true,
            (Bound::Excluded(a), Bound::Excluded(b)) => order::lt(a, b),
            (Bound::Included(a), Bound::Included(b)) => order::le(a, b),
            (Bound::Included(a), Bound::Excluded(b)) => order::le(a, b),
            (Bound::Excluded(a), Bound::Included(b)) => order::le(a, b),
        }
    }
}

/// `s` is in strictly ascending order.
pub open spec fn sorted<T: PartialOrd>(s: Seq<T>) -> bool {
    forall|i: int, j: int|
        #![trigger s[i], s[j]]
        0 <= i < j < s.len() ==> order::lt(s[i], s[j])
}

/// A set of values in ascending order.
#[derive(Clone, Debug, PartialEq)]
pub struct OrderedSet<T> {
    entries: Vec<T>,
}

impl<T> View for OrderedSet<T> {
    type V = Set<T>;

    closed spec fn view(&self) -> Set<T> {
        self.entries@.to_set()
    }
}

impl<T: PartialOrd> OrderedSet<T> {
    /// The values stand in ascending order.
    pub closed spec fn wf(&self) -> bool {
        sorted(self.entries@)
    }

    /// An empty set.
    pub fn new() -> (s: Self)
        ensures
            s.wf(),
            s@ == Set::<T>::empty(),
    {
        let s = OrderedSet { entries: Vec::new() };
        assert(s@ =~= Set::<T>::empty());
        s
    }

    /// The values, in ascending order.
    pub fn as_slice(&self) -> (s: &[T])
        requires
            self.wf(),
        ensures
            sorted(s@),
            s@.to_set() == self@,
    {
        self.entries.as_slice()
    }

    /// The number of values before `key`, or with `past` the number of those not after it.
    fn position(&self, key: &T, past: bool) -> (p: usize)
        requires
            self.wf(),
            order::lawful::<T>(),
        ensures
            p <= self.entries@.len(),
            forall|i: int|
                0 <= i < p ==> order::lt(#[trigger] self.entries@[i], *key) || (past
                    && self.entries@[i] == *key),
            forall|i: int|
                p <= i < self.entries@.len() ==> order::lt(*key, #[trigger] self.entries@[i]) || (
                !past && self.entries@[i] == *key),
    {
        let mut lo: usize = 0;
        let mut hi: usize = self.entries.len();
        while lo < hi
            invariant
                self.wf(),
                order::lawful::<T>(),
                lo <= hi <= self.entries@.len(),
                forall|i: int|
                    0 <= i < lo ==> order::lt(#[trigger] self.entries@[i], *key) || (past
                        && self.entries@[i] == *key),
                forall|i: int|
                    hi <= i < self.entries@.len() ==> order::lt(*key, #[trigger] self.entries@[i])
                        || (!past && self.entries@[i] == *key),
            decreases hi - lo,
        {
            let mid: usize = lo + (hi - lo) / 2;
            let ghost pivot = self.entries@[mid as int];
            let left: bool = if past {
                !order::less(key, &self.entries[mid])
            } else {
                order::less(&self.entries[mid], key)
            };
            proof {
                order::lemma_total(pivot, *key);
                if order::lt(pivot, *key) {
                    order::lemma_asymmetric(pivot, *key);
                }
                if pivot == *key && order::lt(pivot, *key) {
                    order::lemma_asymmetric(pivot, *key);
                }
            }
            if left {
                assert forall|i: int| 0 <= i <= mid implies order::lt(
                    #[trigger] self.entries@[i],
                    *key,
                ) || (past && self.entries@[i] == *key) by {
                    if i < mid {
                        order::lemma_transitive(self.entries@[i], pivot, *key);
                    }
                }
                lo = mid + 1;
            } else {
                assert forall|i: int| mid <= i < self.entries@.len() implies order::lt(
                    *key,
                    #[trigger] self.entries@[i],
                ) || (!past && self.entries@[i] == *key) by {
                    if i > mid {
                        order::lemma_transitive(*key, pivot, self.entries@[i]);
                    }
                }
                hi = mid;
            }
        }
        lo
    }

    /// Adds `value`, and returns whether it was not there before.
    pub fn insert(&mut self, value: T) -> (r: bool)
        requires
            old(self).wf(),
            order::lawful::<T>(),
        ensures
            final(self).wf(),
            final(self)@ == old(self)@.insert(value),
            r == !old(self)@.contains(value),
    {
        let p: usize = self.position(&value, false);
        let ghost s = self.entries@;
        let ghost k = p as int;
        if p < self.entries.len() && order::same(&self.entries[p], &value) {
            assert(s[k] == value);
            assert(self@.insert(value) =~= self@);
            return false;
        }
        assert forall|i: int| k <= i < s.len() implies order::lt(value, #[trigger] s[i]) by {
            if i > k {
                order::lemma_transitive(value, s[k], s[i]);
            }
        }
        assert(!s.contains(value)) by {
            if s.contains(value) {
                let i = choose|i: int| 0 <= i < s.len() && #[trigger] s[i] == value;
                order::lemma_asymmetric(s[i], value);
            }
        }
        let ghost v = value;
        self.entries.insert(p, value);
        proof {
            let t = self.entries@;
            assert(forall|i: int| 0 <= i < k ==> #[trigger] t[i] == s[i]);
            assert(t[k] == v);
            assert(forall|i: int| k < i < t.len() ==> #[trigger] t[i] == s[i - 1]);
            assert(sorted(t));
            assert forall|u: T| #[trigger] s.contains(u) implies t.contains(u) by {
                let i = choose|i: int| 0 <= i < s.len() && #[trigger] s[i] == u;
                if i < k {
                    assert(t[i] == u);
                } else {
                    assert(t[i + 1] == u);
                }
            }
            assert(t.to_set() =~= s.to_set().insert(v));
        }
        true
    }

    /// Removes `value`, and returns whether it was there.
    pub fn remove(&mut self, value: &T) -> (r: bool)
        requires
            old(self).wf(),
            order::lawful::<T>(),
        ensures
            final(self).wf(),
            final(self)@ == old(self)@.remove(*value),
            r == old(self)@.contains(*value),
    {
        let p: usize = self.position(value, false);
        let ghost s = self.entries@;
        let ghost k = p as int;
        if p < self.entries.len() && order::same(&self.entries[p], value) {
            let _ = self.entries.remove(p);
            proof {
                let t = self.entries@;
                assert(s[k] == *value);
                assert(forall|i: int| 0 <= i < k ==> #[trigger] t[i] == s[i]);
                assert(forall|i: int| k <= i < t.len() ==> #[trigger] t[i] == s[i + 1]);
                assert(sorted(t));
                assert forall|u: T| u != *value && #[trigger] s.contains(u) implies t.contains(
                    u,
                ) by {
                    let i = choose|i: int| 0 <= i < s.len() && #[trigger] s[i] == u;
                    if i < k {
                        assert(t[i] == u);
                    } else {
                        assert(t[i - 1] == u);
                    }
                }
                assert(!t.contains(*value)) by {
                    if t.contains(*value) {
                        let i = choose|i: int| 0 <= i < t.len() && #[trigger] t[i] == *value;
                        if i < k {
                            order::lemma_asymmetric(s[i], s[k]);
                        } else {
                            order::lemma_asymmetric(s[k], s[i + 1]);
                        }
                    }
                }
                assert(t.to_set() =~= s.to_set().remove(*value));
            }
            return true;
        }
        proof {
            if s.contains(*value) {
                let i = choose|i: int| 0 <= i < s.len() && #[trigger] s[i] == *value;
                if i < k {
                    order::lemma_asymmetric(s[i], *value);
                } else if i > k {
                    order::lemma_transitive(*value, s[k], s[i]);
                    order::lemma_asymmetric(*value, s[i]);
                }
            }
            assert(self@.remove(*value) =~= self@);
        }
        false
    }

    /// The values within a range, in ascending order.
    pub fn range(&self, start: Bound<T>, end: Bound<T>) -> (r: &[T])
        requires
            self.wf(),
            order::lawful::<T>(),
            start.is_range(end),
        ensures
            sorted(r@),
            forall|v: T| #[trigger]
                r@.contains(v) <==> self@.contains(v) && start.starts_before(v) && end.ends_after(v),
    {
        let lo: usize = match &start {
            Bound::Included(b) => self.position(b, false),
            Bound::Excluded(b) => self.position(b, true),
            Bound::Unbounded => 0,
        };
        let hi: usize = match &end {
            Bound::Included(b) => self.position(b, true),
            Bound::Excluded(b) => self.position(b, false),
            Bound::Unbounded => self.entries.len(),
        };
        let ghost s = self.entries@;
        assert forall|i: int| 0 <= i < s.len() implies (lo <= i <==> start.starts_before(
            #[trigger] s[i],
        )) by {
            self.lemma_start(start, s[i]);
        }
        assert forall|i: int| 0 <= i < s.len() implies (i < hi <==> end.ends_after(
            #[trigger] s[i],
        )) by {
            self.lemma_end(end, s[i]);
        }
        assert(lo <= hi) by {
            if hi < lo {
                assert(!start.starts_before(s[hi as int]) && !end.ends_after(s[hi as int]));
                self.lemma_range(start, end, s[hi as int]);
            }
        }
        let r = &self.entries.as_slice()[lo..hi];
        proof {
            assert forall|v: T| r@.contains(v) implies self@.contains(v) && start.starts_before(v)
                && end.ends_after(v) by {
                let i = choose|i: int| 0 <= i < r@.len() && #[trigger] r@[i] == v;
                assert(s[lo + i] == v);
            }
            assert forall|v: T|
                self@.contains(v) && start.starts_before(v) && end.ends_after(
                    v,
                ) implies #[trigger] r@.contains(v) by {
                let i = choose|i: int| 0 <= i < s.len() && #[trigger] s[i] == v;
                assert(r@[i - lo] == v);
            }
        }
        r
    }

    /// What a start admits, seen from the other side.
    proof fn lemma_start(&self, start: Bound<T>, v: T)
        requires
            order::lawful::<T>(),
        ensures
            match start {
                Bound::Included(b) => start.starts_before(v) <==> !order::lt(v, b),
                Bound::Excluded(b) => start.starts_before(v) <==> !(order::lt(v, b) || v == b),
                Bound::Unbounded => start.starts_before(v),
            },
    {
        let b = match start {
            Bound::Included(b) => b,
            Bound::Excluded(b) => b,
            Bound::Unbounded => v,
        };
        order::lemma_total(b, v);
        if order::lt(b, v) {
            order::lemma_asymmetric(b, v);
        }
        if order::lt(v, b) {
            order::lemma_asymmetric(v, b);
        }
    }

    /// What an end admits, seen from the other side.
    proof fn lemma_end(&self, end: Bound<T>, v: T)
        requires
            order::lawful::<T>(),
        ensures
            match end {
                Bound::Included(b) => end.ends_after(v) <==> !order::lt(b, v),
                Bound::Excluded(b) => end.ends_after(v) <==> !(order::lt(b, v) || v == b),
                Bound::Unbounded => end.ends_after(v),
            },
    {
        let b = match end {
            Bound::Included(b) => b,
            Bound::Excluded(b) => b,
            Bound::Unbounded => v,
        };
        order::lemma_total(b, v);
        if order::lt(b, v) {
            order::lemma_asymmetric(b, v);
        }
        if order::lt(v, b) {
            order::lemma_asymmetric(v, b);
        }
    }

    /// Of a range, no value lies both before its start and past its end.
    proof fn lemma_range(&self, start: Bound<T>, end: Bound<T>, v: T)
        requires
            order::lawful::<T>(),
            start.is_range(end),
        ensures
            start.starts_before(v) || end.ends_after(v),
    {
        self.lemma_start(start, v);
        self.lemma_end(end, v);
        if !start.starts_before(v) && !end.ends_after(v) {
            let a = match start {
                Bound::Included(b) => b,
                Bound::Excluded(b) => b,
                Bound::Unbounded => v,
            };
            let b = match end {
                Bound::Included(b) => b,
                Bound::Excluded(b) => b,
                Bound::Unbounded => v,
            };
            order::lemma_transitive(b, v, a);
            if order::lt(b, a) {
                order::lemma_asymmetric(b, a);
            }
            if order::lt(a, b) {
                order::lemma_asymmetric(a, b);
            }
        }
    }
}

} // verus!
