//! Which outputs are known, and which transactions spend them.

use crate::hash_types::Txid;
use crate::transaction::OutPoint;
use crate::transaction::TxOut;
use crate::transaction::TxOutView;
use vstd::prelude::*;

verus! {

/// What a [`TxGraph`] holds.
pub struct TxGraphView {
    /// The known outputs.
    pub txouts: Map<OutPoint, TxOutView>,
    /// Each output together with a transaction that spends it.
    pub spends: Set<(OutPoint, Txid)>,
}

/// Outputs and the transactions that spend them.
#[derive(Clone, Debug)]
pub struct TxGraph {
    txouts: Vec<(OutPoint, TxOut)>,
    spends: Vec<(OutPoint, Txid)>,
}

/// No output stands in two places.
spec fn distinct(s: Seq<(OutPoint, TxOut)>) -> bool {
    forall|i: int, j: int|
        #![trigger s[i], s[j]]
        0 <= i < j < s.len() ==> s[i].0 != s[j].0
}

/// The map that a list of distinct outputs stands for.
spec fn to_map(s: Seq<(OutPoint, TxOut)>) -> Map<OutPoint, TxOutView> {
    Map::new(
        |o: OutPoint| exists|i: int| 0 <= i < s.len() && (#[trigger] s[i]).0 == o,
        |o: OutPoint| s[choose|i: int| 0 <= i < s.len() && (#[trigger] s[i]).0 == o].1@,
    )
}

/// The transactions that a list of spends has for an output, as they stand in it.
spec fn spenders_in(s: Seq<(OutPoint, Txid)>, outpoint: OutPoint) -> Seq<Txid>
    decreases s.len(),
{
    if s.len() == 0 {
        Seq::empty()
    } else if s.last().0 == outpoint {
        spenders_in(s.drop_last(), outpoint).push(s.last().1)
    } else {
        spenders_in(s.drop_last(), outpoint)
    }
}

impl View for TxGraph {
    type V = TxGraphView;

    closed spec fn view(&self) -> TxGraphView {
        TxGraphView { txouts: to_map(self.txouts@), spends: self.spends@.to_set() }
    }
}

impl TxGraph {
    /// Each known output is held once.
    pub closed spec fn wf(&self) -> bool {
        distinct(self.txouts@)
    }

    /// The transactions that spend an output, in the order in which the graph lists them.
    pub closed spec fn spenders(&self, outpoint: OutPoint) -> Seq<Txid> {
        spenders_in(self.spends@, outpoint)
    }

    /// A graph that knows nothing.
    pub fn new() -> (graph: Self)
        ensures
            graph.wf(),
            graph@.txouts == Map::<OutPoint, TxOutView>::empty(),
            graph@.spends == Set::<(OutPoint, Txid)>::empty(),
    {
        let graph = TxGraph { txouts: Vec::new(), spends: Vec::new() };
        assert(graph@.txouts =~= Map::empty());
        assert(graph@.spends =~= Set::empty());
        graph
    }

    /// The place of an output among the known ones.
    fn position(&self, outpoint: &OutPoint) -> (r: Option<usize>)
        requires
            self.wf(),
        ensures
            match r {
                Some(k) => k < self.txouts@.len() && self.txouts@[k as int].0 == *outpoint
                    && self@.txouts.contains_key(*outpoint) && self@.txouts[*outpoint]
                    == self.txouts@[k as int].1@,
                None => !self@.txouts.contains_key(*outpoint),
            },
    {
        for k in 0..self.txouts.len()
            invariant
                self.wf(),
                forall|i: int| 0 <= i < k ==> (#[trigger] self.txouts@[i]).0 != *outpoint,
        {
            if self.txouts[k].0.same(outpoint) {
                let ghost s = self.txouts@;
                assert(s[k as int].0 == *outpoint);
                return Some(k);
            }
        }
        None
    }

    /// Notes an output, in place of what was known of it.
    pub fn insert_txout(&mut self, outpoint: OutPoint, txout: TxOut)
        requires
            old(self).wf(),
        ensures
            final(self).wf(),
            final(self)@.txouts == old(self)@.txouts.insert(outpoint, txout@),
            final(self)@.spends == old(self)@.spends,
    {
        let ghost s = self.txouts@;
        let ghost m = self@.txouts;
        let ghost view = txout@;
        let found: Option<usize> = self.position(&outpoint);
        match found {
            Some(k) => {
                self.txouts.set(k, (outpoint, txout));
            },
            None => {
                self.txouts.push((outpoint, txout));
            },
        }
        proof {
            let t = self.txouts@;
            let p: int = match found {
                Some(k) => k as int,
                None => s.len() as int,
            };
            assert(t[p].0 == outpoint && t[p].1@ == view);
            assert(forall|i: int| 0 <= i < t.len() && i != p ==> #[trigger] t[i] == s[i]);
            assert forall|i: int| 0 <= i < s.len() && i != p implies (#[trigger] s[i]).0
                != outpoint by {
                if found is None {
                    assert(s[i].0 != outpoint);
                } else if i < p {
                    assert(s[i].0 != s[p].0);
                } else {
                    assert(s[p].0 != s[i].0);
                }
            }
            assert(distinct(t));
            let n = to_map(t);
            assert forall|o: OutPoint| #[trigger]
                n.contains_key(o) <==> m.insert(outpoint, view).contains_key(o) by {
                if m.contains_key(o) {
                    let i = choose|i: int| 0 <= i < s.len() && (#[trigger] s[i]).0 == o;
                    assert(t[i].0 == o);
                }
                if n.contains_key(o) {
                    let i = choose|i: int| 0 <= i < t.len() && (#[trigger] t[i]).0 == o;
                    if i != p {
                        assert(s[i].0 == o);
                    }
                }
            }
            assert forall|o: OutPoint| #[trigger] n.contains_key(o) implies n[o] == m.insert(
                outpoint,
                view,
            )[o] by {
                let i = choose|i: int| 0 <= i < t.len() && (#[trigger] t[i]).0 == o;
                if i == p {
                    assert(o == outpoint);
                } else {
                    assert(s[i].0 == o);
                    let j = choose|j: int| 0 <= j < s.len() && (#[trigger] s[j]).0 == o;
                    assert(i == j) by {
                        if i < j {
                            assert(s[i].0 != s[j].0);
                        } else if j < i {
                            assert(s[j].0 != s[i].0);
                        }
                    }
                }
            }
            assert(n =~= m.insert(outpoint, view));
        }
    }

    /// Notes that `txid` spends an output.
    pub fn insert_spend(&mut self, outpoint: OutPoint, txid: Txid)
        requires
            old(self).wf(),
        ensures
            final(self).wf(),
            final(self)@.txouts == old(self)@.txouts,
            final(self)@.spends == old(self)@.spends.insert((outpoint, txid)),
    {
        let ghost s = self.spends@;
        self.spends.push((outpoint, txid));
        proof {
            let t = self.spends@;
            assert(t[s.len() as int] == (outpoint, txid));
            assert forall|e: (OutPoint, Txid)| s.contains(e) implies t.contains(e) by {
                let i = choose|i: int| 0 <= i < s.len() && s[i] == e;
                assert(t[i] == e);
            }
            assert(t.to_set() =~= s.to_set().insert((outpoint, txid)));
        }
    }

    /// The output that `outpoint` refers to, if it is known.
    pub fn txout(&self, outpoint: OutPoint) -> (r: Option<&TxOut>)
        requires
            self.wf(),
        ensures
            match r {
                Some(txout) => self@.txouts.contains_key(outpoint) && self@.txouts[outpoint]
                    == txout@,
                None => !self@.txouts.contains_key(outpoint),
            },
    {
        match self.position(&outpoint) {
            Some(k) => Some(&self.txouts[k].1),
            None => None,
        }
    }

    /// The transactions that spend an output.
    pub fn outspends(&self, outpoint: OutPoint) -> (r: Vec<Txid>)
        ensures
            r@ == self.spenders(outpoint),
            forall|t: Txid| #[trigger] r@.contains(t) <==> self@.spends.contains((outpoint, t)),
    {
        let mut r: Vec<Txid> = Vec::new();
        for k in 0..self.spends.len()
            invariant
                r@ == spenders_in(self.spends@.take(k as int), outpoint),
                forall|t: Txid| #[trigger]
                    r@.contains(t) <==> self.spends@.take(k as int).contains((outpoint, t)),
        {
            let ghost shorter = self.spends@.take(k as int);
            let ghost longer = self.spends@.take(k + 1);
            let ghost before = r@;
            assert(longer.drop_last() =~= shorter);
            if self.spends[k].0.same(&outpoint) {
                r.push(self.spends[k].1);
            }
            assert forall|t: Txid| #[trigger] r@.contains(t) <==> longer.contains(
                (outpoint, t),
            ) by {
                assert(longer =~= shorter.push(self.spends@[k as int]));
                assert(longer[k as int] == self.spends@[k as int]);
                if shorter.contains((outpoint, t)) {
                    let i = choose|i: int| 0 <= i < k && shorter[i] == (outpoint, t);
                    assert(longer[i] == (outpoint, t));
                }
                if before.contains(t) {
                    let i = choose|i: int| 0 <= i < before.len() && before[i] == t;
                    assert(r@[i] == t);
                }
                if self.spends@[k as int] == (outpoint, t) {
                    assert(r@[before.len() as int] == t);
                }
                if longer.contains((outpoint, t)) {
                    let i = choose|i: int| 0 <= i < k + 1 && longer[i] == (outpoint, t);
                    if i < k {
                        assert(shorter[i] == (outpoint, t));
                    }
                }
                if r@.contains(t) {
                    let i = choose|i: int| 0 <= i < r@.len() && r@[i] == t;
                    if i < before.len() {
                        assert(before[i] == t);
                    }
                }
            }
        }
        assert(self.spends@.take(self.spends@.len() as int) =~= self.spends@);
        r
    }
}

} // verus!
