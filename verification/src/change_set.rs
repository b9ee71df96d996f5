//! Sets of changes to a chain.

use crate::chain_data::TxHeight;
use crate::chain_index;
use crate::chain_index::ChainIndex;
use crate::hash_types::BlockHash;
use crate::hash_types::Txid;
use crate::heights;
use crate::model::ChangeSetView;
use crate::order;
use crate::ordered_set;
use crate::txid_map;
use crate::txid_map::TxidMap;
use std::collections::BTreeMap;
use vstd::prelude::*;

verus! {

broadcast use vstd::laws_cmp::group_laws_cmp;

/// The return value of
/// [`determine_changeset`](crate::sparse_chain::SparseChain::determine_changeset).
#[derive(Clone, Debug, PartialEq)]
pub struct ChangeSet<I = TxHeight> {
    pub checkpoints: BTreeMap<u32, Option<BlockHash>>,
    pub txids: TxidMap<Option<I>>,
}

impl<I> View for ChangeSet<I> {
    type V = ChangeSetView<I>;

    open spec fn view(&self) -> ChangeSetView<I> {
        ChangeSetView { checkpoints: self.checkpoints@, txids: self.txids@ }
    }
}

impl<I> Default for ChangeSet<I> {
    fn default() -> (c: Self)
        ensures
            c.wf(),
            c@ == ChangeSetView::<I>::empty(),
    {
        ChangeSet { checkpoints: BTreeMap::new(), txids: TxidMap::new() }
    }
}

impl<I: ChainIndex> ChangeSet<I> {
    /// Both sets of changes as one; where both change the same thing, `new_set` prevails.
    pub fn merge(self, new_set: Self) -> (merged: Self)
        requires
            self.wf(),
            new_set.wf(),
        ensures
            merged.wf(),
            merged@ == self@.merge(new_set@),
    {
        let ghost before = self@;
        let ghost newer = new_set@;
        let mut checkpoints = self.checkpoints;
        let hs: Vec<u32> = heights::heights(&new_set.checkpoints);
        for k in 0..hs.len()
            invariant
                heights::lists(hs@, newer.checkpoints.dom()),
                new_set.checkpoints@ == newer.checkpoints,
                forall|h: u32| #[trigger]
                    checkpoints@.contains_key(h) <==> before.checkpoints.contains_key(h)
                        || hs@.take(k as int).contains(h),
                forall|h: u32| #[trigger]
                    checkpoints@.contains_key(h) ==> checkpoints@[h] == if hs@.take(
                        k as int,
                    ).contains(h) {
                        newer.checkpoints[h]
                    } else {
                        before.checkpoints[h]
                    },
        {
            let h: u32 = hs[k];
            assert(hs@.contains(h));
            let change: Option<BlockHash> = *new_set.checkpoints.get(&h).unwrap();
            checkpoints.insert(h, change);
            assert forall|x: u32| #[trigger] hs@.take(k + 1).contains(x) <==> hs@.take(
                k as int,
            ).contains(x) || x == h by {
                heights::lemma_take_next(hs@, k as int, x);
            }
        }
        assert(hs@.take(hs@.len() as int) =~= hs@);
        assert(checkpoints@ =~= before.checkpoints.union_prefer_right(newer.checkpoints));
        let mut txids = self.txids;
        let es = new_set.txids.entries();
        for k in 0..es.len()
            invariant
                txid_map::lists(es@, newer.txids),
                txids.wf(),
                forall|t: Txid| #[trigger]
                    txids@.contains_key(t) <==> before.txids.contains_key(t)
                        || txid_map::lists_before(es@, k as int, t),
                forall|t: Txid| #[trigger]
                    txids@.contains_key(t) ==> txids@[t] == if txid_map::lists_before(
                        es@,
                        k as int,
                        t,
                    ) {
                        newer.txids[t]
                    } else {
                        before.txids[t]
                    },
        {
            let txid: Txid = es[k].0;
            let change: Option<I> = chain_index::clone_option(&es[k].1);
            let _ = txids.insert(txid, change);
            assert forall|t: Txid| #[trigger] txid_map::lists_before(es@, k + 1, t)
                <==> txid_map::lists_before(es@, k as int, t) || t == txid by {
                txid_map::lemma_lists_before_next(es@, k as int, t);
            }
        }
        proof {
            txid_map::lemma_lists_before_all(es@, newer.txids);
        }
        assert(txids@ =~= before.txids.union_prefer_right(newer.txids));
        ChangeSet { checkpoints, txids }
    }
}

impl<I> ChangeSet<I> {
    /// The transaction ids stand in order.
    pub open spec fn wf(&self) -> bool {
        self.txids.wf()
    }

    /// The transactions that get a position, in ascending order of id.
    pub fn tx_additions(&self) -> (r: Vec<Txid>)
        requires
            self.wf(),
        ensures
            ordered_set::sorted(r@),
            forall|t: Txid| #[trigger]
                r@.contains(t) <==> self@.txids.contains_key(t) && self@.txids[t] is Some,
    {
        let mut r: Vec<Txid> = Vec::new();
        let es = self.txids.entries();
        for k in 0..es.len()
            invariant
                txid_map::lists(es@, self@.txids),
                ordered_set::sorted(r@),
                forall|t: Txid| #[trigger]
                    r@.contains(t) <==> txid_map::lists_before(es@, k as int, t)
                        && self@.txids[t] is Some,
        {
            let txid: Txid = es[k].0;
            let ghost before = r@;
            assert forall|t: Txid| #[trigger] txid_map::lists_before(es@, k + 1, t)
                <==> txid_map::lists_before(es@, k as int, t) || t == txid by {
                txid_map::lemma_lists_before_next(es@, k as int, t);
            }
            if es[k].1.is_some() {
                assert forall|i: int| 0 <= i < before.len() implies order::lt(
                    #[trigger] before[i],
                    txid,
                ) by {
                    assert(before.contains(before[i]));
                    let j = choose|j: int| 0 <= j < k && (#[trigger] es@[j]).0 == before[i];
                    assert(es@[j].0 == before[i]);
                }
                r.push(txid);
                assert forall|t: Txid| #[trigger] r@.contains(t) <==> before.contains(t) || t
                    == txid by {
                    if before.contains(t) {
                        let i = choose|i: int| 0 <= i < before.len() && before[i] == t;
                        assert(r@[i] == t);
                    }
                    assert(r@[before.len() as int] == txid);
                }
            }
        }
        proof {
            txid_map::lemma_lists_before_all(es@, self@.txids);
        }
        r
    }

    /// Whether there is no change.
    pub fn is_empty(&self) -> (r: bool)
        requires
            self.wf(),
        ensures
            r == (self@ == ChangeSetView::<I>::empty()),
    {
        proof {
            if self.checkpoints@.is_empty() {
                assert(self.checkpoints@ =~= Map::empty());
            }
        }
        self.checkpoints.is_empty() && self.txids.is_empty()
    }
}

} // verus!
