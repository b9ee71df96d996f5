//! A map from transaction ids, kept in ascending order of id.

use crate::hash_types;
use crate::hash_types::Txid;
use crate::order;
use vstd::prelude::*;

verus! {

/// A map whose keys are transaction ids.
#[derive(Clone, Debug, PartialEq)]
pub struct TxidMap<V> {
    entries: Vec<(Txid, V)>,
}

/// The ids of `s` come in strictly ascending order.
pub open spec fn ascending<V>(s: Seq<(Txid, V)>) -> bool {
    forall|i: int, j: int|
        #![trigger s[i], s[j]]
        0 <= i < j < s.len() ==> order::lt(s[i].0, s[j].0)
}

/// `s` holds the entries of `m`, each once, in ascending order of id.
pub open spec fn lists<V>(s: Seq<(Txid, V)>, m: Map<Txid, V>) -> bool {
    &&& ascending(s)
    &&& forall|i: int|
        0 <= i < s.len() ==> m.contains_key((#[trigger] s[i]).0) && m[s[i].0] == s[i].1
    &&& forall|t: Txid| #[trigger]
        m.contains_key(t) ==> exists|i: int| 0 <= i < s.len() && (#[trigger] s[i]).0 == t
}

/// `txid` is among the first `k` ids of `s`.
pub open spec fn lists_before<V>(s: Seq<(Txid, V)>, k: int, txid: Txid) -> bool {
    exists|i: int| 0 <= i < k && (#[trigger] s[i]).0 == txid
}

/// One more place holds one id more.
pub proof fn lemma_lists_before_next<V>(s: Seq<(Txid, V)>, k: int, txid: Txid)
    requires
        0 <= k < s.len(),
    ensures
        lists_before(s, k + 1, txid) <==> lists_before(s, k, txid) || s[k].0 == txid,
{
    if lists_before(s, k, txid) {
        let i = choose|i: int| 0 <= i < k && (#[trigger] s[i]).0 == txid;
        assert(0 <= i < k + 1 && s[i].0 == txid);
    }
}

/// All places together hold the ids of the map.
pub proof fn lemma_lists_before_all<V>(s: Seq<(Txid, V)>, m: Map<Txid, V>)
    requires
        lists(s, m),
    ensures
        forall|t: Txid| #[trigger] lists_before(s, s.len() as int, t) <==> m.contains_key(t),
{
}

/// The map that an ascending sequence of entries stands for.
spec fn to_map<V>(s: Seq<(Txid, V)>) -> Map<Txid, V> {
    Map::new(
        |t: Txid| exists|i: int| 0 <= i < s.len() && (#[trigger] s[i]).0 == t,
        |t: Txid| s[choose|i: int| 0 <= i < s.len() && (#[trigger] s[i]).0 == t].1,
    )
}

/// In an ascending sequence an id stands in one place only.
pub proof fn lemma_position_unique<V>(s: Seq<(Txid, V)>, i: int, j: int)
    requires
        ascending(s),
        0 <= i < s.len(),
        0 <= j < s.len(),
        s[i].0 == s[j].0,
    ensures
        i == j,
{
    hash_types::lemma_txid_lawful();
    if i < j {
        order::lemma_asymmetric(s[i].0, s[j].0);
    } else if j < i {
        order::lemma_asymmetric(s[j].0, s[i].0);
    }
}

proof fn lemma_to_map<V>(s: Seq<(Txid, V)>)
    requires
        ascending(s),
    ensures
        lists(s, to_map(s)),
{
    let m = to_map(s);
    assert forall|i: int| 0 <= i < s.len() implies m.contains_key((#[trigger] s[i]).0) && m[s[i].0]
        == s[i].1 by {
        let t = s[i].0;
        let j = choose|j: int| 0 <= j < s.len() && (#[trigger] s[j]).0 == t;
        lemma_position_unique(s, i, j);
    }
}

/// A sequence lists one map only.
pub proof fn lemma_lists_unique<V>(s: Seq<(Txid, V)>, m1: Map<Txid, V>, m2: Map<Txid, V>)
    requires
        lists(s, m1),
        lists(s, m2),
    ensures
        m1 == m2,
{
    assert forall|t: Txid| m1.contains_key(t) implies m2.contains_key(t) && m1[t] == m2[t] by {
        let i = choose|i: int| 0 <= i < s.len() && (#[trigger] s[i]).0 == t;
        assert(s[i].0 == t);
    }
    assert forall|t: Txid| m2.contains_key(t) implies m1.contains_key(t) by {
        let i = choose|i: int| 0 <= i < s.len() && (#[trigger] s[i]).0 == t;
        assert(s[i].0 == t);
    }
    assert(m1 =~= m2);
}

impl<V> View for TxidMap<V> {
    type V = Map<Txid, V>;

    closed spec fn view(&self) -> Map<Txid, V> {
        to_map(self.entries@)
    }
}

impl<V> TxidMap<V> {
    /// The entries stand in ascending order.
    pub closed spec fn wf(&self) -> bool {
        ascending(self.entries@)
    }

    /// An empty map.
    pub fn new() -> (m: Self)
        ensures
            m.wf(),
            m@ == Map::<Txid, V>::empty(),
    {
        let m = TxidMap { entries: Vec::new() };
        assert(m@ =~= Map::<Txid, V>::empty());
        m
    }

    /// The entries, in ascending order of id.
    pub fn entries(&self) -> (s: &[(Txid, V)])
        requires
            self.wf(),
        ensures
            lists(s@, self@),
    {
        proof {
            lemma_to_map(self.entries@);
        }
        self.entries.as_slice()
    }

    /// Whether there is no entry.
    pub fn is_empty(&self) -> (r: bool)
        requires
            self.wf(),
        ensures
            r == (self@ == Map::<Txid, V>::empty()),
    {
        proof {
            lemma_to_map(self.entries@);
            if self.entries@.len() == 0 {
                assert(self@ =~= Map::<Txid, V>::empty());
            } else {
                assert(self@.contains_key(self.entries@[0].0));
            }
        }
        self.entries.len() == 0
    }

    /// The number of entries whose id comes before `txid`.
    fn position(&self, txid: &Txid) -> (p: usize)
        requires
            self.wf(),
        ensures
            p <= self.entries@.len(),
            forall|i: int| 0 <= i < p ==> order::lt((#[trigger] self.entries@[i]).0, *txid),
            forall|i: int|
                p <= i < self.entries@.len() ==> order::le(*txid, (#[trigger] self.entries@[i]).0),
    {
        proof {
            hash_types::lemma_txid_lawful();
        }
        let mut lo: usize = 0;
        let mut hi: usize = self.entries.len();
        while lo < hi
            invariant
                self.wf(),
                order::lawful::<Txid>(),
                lo <= hi <= self.entries@.len(),
                forall|i: int| 0 <= i < lo ==> order::lt((#[trigger] self.entries@[i]).0, *txid),
                forall|i: int|
                    hi <= i < self.entries@.len() ==> order::le(
                        *txid,
                        (#[trigger] self.entries@[i]).0,
                    ),
            decreases hi - lo,
        {
            let mid: usize = lo + (hi - lo) / 2;
            if order::less(&self.entries[mid].0, txid) {
                assert forall|i: int| 0 <= i <= mid implies order::lt(
                    (#[trigger] self.entries@[i]).0,
                    *txid,
                ) by {
                    if i < mid {
                        order::lemma_transitive(
                            self.entries@[i].0,
                            self.entries@[mid as int].0,
                            *txid,
                        );
                    }
                }
                lo = mid + 1;
            } else {
                assert forall|i: int| mid <= i < self.entries@.len() implies order::le(
                    *txid,
                    (#[trigger] self.entries@[i]).0,
                ) by {
                    order::lemma_total(self.entries@[mid as int].0, *txid);
                    if i > mid {
                        order::lemma_transitive(
                            *txid,
                            self.entries@[mid as int].0,
                            self.entries@[i].0,
                        );
                    }
                }
                hi = mid;
            }
        }
        lo
    }

    /// Whether `txid` stands at the place where it would be inserted.
    fn is_at(&self, p: usize, txid: &Txid) -> (r: bool)
        requires
            self.wf(),
            p <= self.entries@.len(),
            forall|i: int| 0 <= i < p ==> order::lt((#[trigger] self.entries@[i]).0, *txid),
            forall|i: int|
                p <= i < self.entries@.len() ==> order::le(*txid, (#[trigger] self.entries@[i]).0),
        ensures
            r == self@.contains_key(*txid),
            r ==> p < self.entries@.len() && self.entries@[p as int].0 == *txid
                && self.entries@[p as int].1 == self@[*txid],
            !r ==> forall|i: int|
                p <= i < self.entries@.len() ==> order::lt(*txid, (#[trigger] self.entries@[i]).0),
    {
        proof {
            hash_types::lemma_txid_lawful();
            lemma_to_map(self.entries@);
        }
        let r: bool = p < self.entries.len() && order::same(&self.entries[p].0, txid);
        proof {
            if !r {
                assert forall|i: int| p <= i < self.entries@.len() implies order::lt(
                    *txid,
                    (#[trigger] self.entries@[i]).0,
                ) by {
                    if i > p {
                        order::lemma_transitive(
                            *txid,
                            self.entries@[p as int].0,
                            self.entries@[i].0,
                        );
                    }
                }
                if self@.contains_key(*txid) {
                    let i = choose|i: int|
                        0 <= i < self.entries@.len() && (#[trigger] self.entries@[i]).0 == *txid;
                    if i < p {
                        order::lemma_asymmetric(self.entries@[i].0, *txid);
                    } else {
                        order::lemma_asymmetric(*txid, self.entries@[i].0);
                    }
                }
            }
        }
        r
    }

    /// The value that `txid` is mapped to.
    pub fn get(&self, txid: &Txid) -> (r: Option<&V>)
        requires
            self.wf(),
        ensures
            match r {
                Some(v) => self@.contains_key(*txid) && self@[*txid] == *v,
                None => !self@.contains_key(*txid),
            },
    {
        let p: usize = self.position(txid);
        if self.is_at(p, txid) {
            Some(&self.entries[p].1)
        } else {
            None
        }
    }

    /// Maps `txid` to `value`, and returns what it was mapped to before.
    pub fn insert(&mut self, txid: Txid, value: V) -> (r: Option<V>)
        requires
            old(self).wf(),
        ensures
            final(self).wf(),
            final(self)@ == old(self)@.insert(txid, value),
            match r {
                Some(v) => old(self)@.contains_key(txid) && old(self)@[txid] == v,
                None => !old(self)@.contains_key(txid),
            },
    {
        let p: usize = self.position(&txid);
        let present: bool = self.is_at(p, &txid);
        let ghost s = self.entries@;
        let ghost m = self@;
        let ghost k = p as int;
        proof {
            lemma_to_map(s);
        }
        let mut previous: Option<V> = None;
        if present {
            let (_, v) = self.entries.remove(p);
            previous = Some(v);
        }
        self.entries.insert(p, (txid, value));
        proof {
            let t = self.entries@;
            let gap: int = if present {
                0
            } else {
                1
            };
            assert(t.len() == s.len() + gap);
            assert(forall|i: int| 0 <= i < k ==> #[trigger] t[i] == s[i]);
            assert(t[k] == (txid, value));
            assert(forall|i: int| k < i < t.len() ==> #[trigger] t[i] == s[i - gap]);
            assert(ascending(t));
            assert forall|i: int| 0 <= i < t.len() && i != k implies (#[trigger] t[i]).0 != txid by {
                hash_types::lemma_txid_lawful();
                if i < k {
                    order::lemma_asymmetric(t[i].0, txid);
                } else {
                    order::lemma_asymmetric(txid, t[i].0);
                }
            }
            let n = m.insert(txid, value);
            assert forall|u: Txid| #[trigger] n.contains_key(u) implies exists|i: int|
                0 <= i < t.len() && (#[trigger] t[i]).0 == u by {
                if u == txid {
                    assert(t[k].0 == u);
                } else {
                    let i = choose|i: int| 0 <= i < s.len() && (#[trigger] s[i]).0 == u;
                    if i < k {
                        assert(t[i].0 == u);
                    } else {
                        assert(t[i + gap].0 == u);
                    }
                }
            }
            assert(lists(t, n));
            lemma_to_map(t);
            lemma_lists_unique(t, n, to_map(t));
        }
        previous
    }

    /// Removes `txid`, and returns what it was mapped to.
    pub fn remove(&mut self, txid: &Txid) -> (r: Option<V>)
        requires
            old(self).wf(),
        ensures
            final(self).wf(),
            final(self)@ == old(self)@.remove(*txid),
            match r {
                Some(v) => old(self)@.contains_key(*txid) && old(self)@[*txid] == v,
                None => !old(self)@.contains_key(*txid),
            },
    {
        let p: usize = self.position(txid);
        let present: bool = self.is_at(p, txid);
        let ghost s = self.entries@;
        let ghost m = self@;
        let ghost k = p as int;
        proof {
            lemma_to_map(s);
        }
        if !present {
            assert(m.remove(*txid) =~= m);
            return None;
        }
        let (_, v) = self.entries.remove(p);
        proof {
            let t = self.entries@;
            assert(forall|i: int| 0 <= i < k ==> #[trigger] t[i] == s[i]);
            assert(forall|i: int| k <= i < t.len() ==> #[trigger] t[i] == s[i + 1]);
            assert(ascending(t));
            assert forall|i: int| 0 <= i < t.len() implies (#[trigger] t[i]).0 != *txid by {
                let j = if i < k {
                    i
                } else {
                    i + 1
                };
                if s[j].0 == *txid {
                    lemma_position_unique(s, j, k);
                }
            }
            let n = m.remove(*txid);
            assert forall|u: Txid| #[trigger] n.contains_key(u) implies exists|i: int|
                0 <= i < t.len() && (#[trigger] t[i]).0 == u by {
                let i = choose|i: int| 0 <= i < s.len() && (#[trigger] s[i]).0 == u;
                if i < k {
                    assert(t[i].0 == u);
                } else {
                    assert(t[i - 1].0 == u);
                }
            }
            assert(lists(t, n));
            lemma_to_map(t);
            lemma_lists_unique(t, n, to_map(t));
        }
        Some(v)
    }
}

} // verus!
