//! The sparse chain itself.

pub use crate::chain_index::ChainIndex;
pub use crate::change_set::ChangeSet;
pub use crate::error::InsertCheckpointErr;
pub use crate::error::InsertTxErr;
pub use crate::error::UpdateFailure;

use crate::chain_data::BlockId;
use crate::chain_data::FullTxOut;
use crate::chain_data::TxHeight;
use crate::chain_index;
use crate::hash_types;
use crate::hash_types::BlockHash;
use crate::hash_types::Txid;
use crate::heights;
use crate::model;
use crate::model::ChainView;
use crate::model::ChangeSetView;
use crate::order;
use crate::ordered_set;
use crate::ordered_set::Bound;
use crate::ordered_set::OrderedSet;
use crate::transaction::OutPoint;
use crate::transaction::TxOut;
use crate::tx_graph::TxGraph;
use crate::txid_map;
use crate::txid_map::TxidMap;
use std::collections::BTreeMap;
use vstd::prelude::*;

verus! {

broadcast use vstd::laws_cmp::group_laws_cmp;

/// This is a non-monotone structure that tracks relevant [`Txid`]s that are ordered by index `I`.
///
/// To "merge" two [`SparseChain`]s, one can calculate the [`ChangeSet`] by calling
/// [`Self::determine_changeset(update)`], and applying the [`ChangeSet`] via
/// [`Self::apply_changeset(changeset)`]. For convenience, one can do the above two steps as one via
/// [`Self::apply_update(update)`].
#[derive(Clone, Debug, PartialEq)]
pub struct SparseChain<I = TxHeight> {
    /// Block height to checkpoint data.
    checkpoints: BTreeMap<u32, BlockHash>,
    /// Txids ordered by the index `I`.
    ordered_txids: OrderedSet<(I, Txid)>,
    /// Confirmation heights of txids.
    txid_to_index: TxidMap<I>,
    /// Limit number of checkpoints.
    checkpoint_limit: Option<usize>,
}

impl<I> View for SparseChain<I> {
    type V = ChainView<I>;

    closed spec fn view(&self) -> ChainView<I> {
        ChainView {
            checkpoints: self.checkpoints@,
            txids: self.txid_to_index@,
            limit: self.checkpoint_limit,
        }
    }
}

/// `entries` holds each transaction of `txids` together with its index, and nothing else.
pub open spec fn indexes<I>(entries: Set<(I, Txid)>, txids: Map<Txid, I>) -> bool {
    forall|e: (I, Txid)| #[trigger]
        entries.contains(e) <==> txids.contains_key(e.1) && txids[e.1] == e.0
}

impl<I: ChainIndex> Default for SparseChain<I> {
    fn default() -> (chain: Self)
        ensures
            chain.wf(),
            chain@ == ChainView::<I>::empty(),
    {
        SparseChain {
            checkpoints: BTreeMap::new(),
            ordered_txids: OrderedSet::new(),
            txid_to_index: TxidMap::new(),
            checkpoint_limit: None,
        }
    }
}

impl<I: ChainIndex> SparseChain<I> {
    /// The two collections of transactions hold the same, each in its order, and there are no more
    /// checkpoints than the limit allows.
    pub closed spec fn wf(&self) -> bool {
        &&& self.txid_to_index.wf()
        &&& self.ordered_txids.wf()
        &&& indexes(self.ordered_txids@, self.txid_to_index@)
        &&& self.checkpoint_limit matches Some(n) ==> self.checkpoints@.len() <= n
    }

    /// A chain never holds more checkpoints than its limit allows.
    pub proof fn lemma_within_limit(&self)
        requires
            self.wf(),
        ensures
            self@.checkpoints.dom().finite(),
            self@.limit matches Some(n) ==> self@.checkpoints.len() <= n,
    {
    }

    /// Creates a new chain from a list of block hashes and heights. The caller must guarantee they are in the same
    /// chain.
    pub fn from_checkpoints(checkpoints: Vec<BlockId>) -> (chain: Self)
        ensures
            chain.wf(),
            chain@ == (ChainView::<I> {
                checkpoints: model::checkpoints_of(checkpoints@),
                ..ChainView::<I>::empty()
            }),
    {
        let mut chain: Self = Default::default();
        for k in 0..checkpoints.len()
            invariant
                chain.wf(),
                chain@ == (ChainView::<I> {
                    checkpoints: model::checkpoints_of(checkpoints@.take(k as int)),
                    ..ChainView::<I>::empty()
                }),
        {
            let block_id: BlockId = checkpoints[k];
            assert(checkpoints@.take(k + 1).drop_last() =~= checkpoints@.take(k as int));
            chain.checkpoints.insert(block_id.height, block_id.hash);
        }
        assert(checkpoints@.take(checkpoints@.len() as int) =~= checkpoints@);
        chain
    }

    /// Get the `BlockId` for the last known tip.
    pub fn latest_checkpoint(&self) -> (r: Option<BlockId>)
        ensures
            match r {
                Some(block_id) => self@.tip() == Some(block_id.height)
                    && self@.checkpoints[block_id.height] == block_id.hash,
                None => self@.tip() is None,
            },
    {
        match heights::last_height(&self.checkpoints) {
            Some(height) => {
                proof {
                    model::lemma_highest_meaning(self.checkpoints@.dom());
                }
                self.checkpoint_at(height)
            },
            None => None,
        }
    }

    /// Get the checkpoint id at the given height if it exists
    pub fn checkpoint_at(&self, height: u32) -> (r: Option<BlockId>)
        ensures
            r == if self@.checkpoints.contains_key(height) {
                Some(BlockId { height, hash: self@.checkpoints[height] })
            } else {
                None
            },
    {
        match self.checkpoints.get(&height) {
            Some(hash) => Some(BlockId { height, hash: *hash }),
            None => None,
        }
    }

    /// Return the associated index of a tx of txid (if any).
    pub fn tx_index(&self, txid: Txid) -> (r: Option<&I>)
        requires
            self.wf(),
        ensures
            match r {
                Some(index) => self@.txids.contains_key(txid) && self@.txids[txid] == *index,
                None => !self@.txids.contains_key(txid),
            },
    {
        self.txid_to_index.get(&txid)
    }

    /// Return all checkpoints, in descending order.
    pub fn checkpoints(&self) -> (r: Vec<BlockId>)
        ensures
            forall|i: int, j: int|
                #![trigger r@[i], r@[j]]
                0 <= i < j < r@.len() ==> r@[i].height > r@[j].height,
            forall|b: BlockId| #[trigger]
                r@.contains(b) <==> self@.checkpoints.contains_key(b.height)
                    && self@.checkpoints[b.height] == b.hash,
    {
        let mut r: Vec<BlockId> = Vec::new();
        let ascending: Vec<BlockId> = self.range_checkpoints(Bound::Unbounded, Bound::Unbounded);
        let n: usize = ascending.len();
        for k in 0..n
            invariant
                n == ascending@.len(),
                r@.len() == k,
                forall|i: int| 0 <= i < k ==> #[trigger] r@[i] == ascending@[n - 1 - i],
        {
            r.push(ascending[n - 1 - k]);
        }
        assert forall|b: BlockId| #[trigger] r@.contains(b) <==> ascending@.contains(b) by {
            if ascending@.contains(b) {
                let i = choose|i: int| 0 <= i < n && ascending@[i] == b;
                assert(r@[n - 1 - i] == b);
            }
        }
        r
    }

    /// Return the checkpoint locations in a height range, in ascending height order.
    pub fn range_checkpoints(&self, start: Bound<u32>, end: Bound<u32>) -> (r: Vec<BlockId>)
        requires
            start.is_range(end),
        ensures
            forall|i: int, j: int|
                #![trigger r@[i], r@[j]]
                0 <= i < j < r@.len() ==> r@[i].height < r@[j].height,
            forall|b: BlockId| #[trigger]
                r@.contains(b) <==> self@.checkpoints.contains_key(b.height)
                    && self@.checkpoints[b.height] == b.hash && start.starts_before(b.height)
                    && end.ends_after(b.height),
    {
        let mut r: Vec<BlockId> = Vec::new();
        let hs: Vec<u32> = heights::heights(&self.checkpoints);
        for k in 0..hs.len()
            invariant
                heights::lists(hs@, self.checkpoints@.dom()),
                forall|i: int, j: int|
                    #![trigger r@[i], r@[j]]
                    0 <= i < j < r@.len() ==> r@[i].height < r@[j].height,
                forall|b: BlockId| #[trigger]
                    r@.contains(b) <==> hs@.take(k as int).contains(b.height)
                        && self.checkpoints@[b.height] == b.hash && start.starts_before(b.height)
                        && end.ends_after(b.height),
        {
            let height: u32 = hs[k];
            let ghost before = r@;
            assert(hs@.contains(height));
            assert forall|x: u32| #[trigger] hs@.take(k + 1).contains(x) <==> hs@.take(
                k as int,
            ).contains(x) || x == height by {
                heights::lemma_take_next(hs@, k as int, x);
            }
            let hash: BlockHash = *self.checkpoints.get(&height).unwrap();
            let started: bool = match &start {
                Bound::Included(b) => *b <= height,
                Bound::Excluded(b) => *b < height,
                Bound::Unbounded => true,
            };
            let ended: bool = match &end {
                Bound::Included(b) => height > *b,
                Bound::Excluded(b) => height >= *b,
                Bound::Unbounded => false,
            };
            if started && !ended {
                assert forall|i: int| 0 <= i < before.len() implies (#[trigger] before[i]).height
                    < height by {
                    assert(before.contains(before[i]));
                    let s = hs@.take(k as int);
                    let j = choose|j: int| 0 <= j < s.len() && s[j] == before[i].height;
                    assert(hs@[j] < hs@[k as int]);
                }
                r.push(BlockId { height, hash });
                assert(r@[before.len() as int] == (BlockId { height, hash }));
                assert forall|b: BlockId| #[trigger] r@.contains(b) <==> before.contains(b) || b
                    == (BlockId { height, hash }) by {
                    if before.contains(b) {
                        let i = choose|i: int| 0 <= i < before.len() && before[i] == b;
                        assert(r@[i] == b);
                    }
                }
            }
        }
        assert(hs@.take(hs@.len() as int) =~= hs@);
        assert forall|b: BlockId| #[trigger] r@.contains(b) implies self@.checkpoints.contains_key(
            b.height,
        ) by {
            assert(hs@.contains(b.height));
        }
        assert forall|b: BlockId|
            self@.checkpoints.contains_key(b.height) && self@.checkpoints[b.height] == b.hash
                && start.starts_before(b.height) && end.ends_after(
                b.height,
            ) implies #[trigger] r@.contains(b) by {
            assert(hs@.contains(b.height));
        }
        r
    }

    /// Derives a [`ChangeSet`] that could be applied to an empty index.
    pub fn initial_change_set(&self) -> (changeset: ChangeSet<I>)
        requires
            self.wf(),
        ensures
            changeset.wf(),
            changeset@ == self@.initial_changes(),
    {
        let mut checkpoints: BTreeMap<u32, Option<BlockHash>> = BTreeMap::new();
        let hs: Vec<u32> = heights::heights(&self.checkpoints);
        for k in 0..hs.len()
            invariant
                heights::lists(hs@, self.checkpoints@.dom()),
                forall|h: u32| #[trigger]
                    checkpoints@.contains_key(h) <==> hs@.take(k as int).contains(h),
                forall|h: u32| #[trigger]
                    checkpoints@.contains_key(h) ==> checkpoints@[h] == Some(self.checkpoints@[h]),
        {
            let height: u32 = hs[k];
            assert(hs@.contains(height));
            assert forall|x: u32| #[trigger] hs@.take(k + 1).contains(x) <==> hs@.take(
                k as int,
            ).contains(x) || x == height by {
                heights::lemma_take_next(hs@, k as int, x);
            }
            checkpoints.insert(height, Some(*self.checkpoints.get(&height).unwrap()));
        }
        assert(hs@.take(hs@.len() as int) =~= hs@);
        assert(checkpoints@ =~= self@.initial_changes().checkpoints) by {
            assert forall|h: u32| #[trigger] checkpoints@.contains_key(
                h,
            ) <==> self.checkpoints@.contains_key(h) by {
                assert(hs@.contains(h) <==> self.checkpoints@.dom().contains(h));
            }
        }
        let mut txids: TxidMap<Option<I>> = TxidMap::new();
        let es = self.ordered_txids.as_slice();
        for k in 0..es.len()
            invariant
                es@.to_set() == self.ordered_txids@,
                indexes(self.ordered_txids@, self.txid_to_index@),
                txids.wf(),
                forall|t: Txid| #[trigger]
                    txids@.contains_key(t) <==> exists|i: int|
                        0 <= i < k && (#[trigger] es@[i]).1 == t,
                forall|t: Txid| #[trigger]
                    txids@.contains_key(t) ==> txids@[t] == Some(self.txid_to_index@[t]),
        {
            assert(es@.to_set().contains(es@[k as int]));
            let txid: Txid = es[k].1;
            let _ = txids.insert(txid, Some(chain_index::clone_index(&es[k].0)));
        }
        assert(txids@ =~= self@.initial_changes().txids) by {
            assert forall|t: Txid| #[trigger] txids@.contains_key(
                t,
            ) <==> self.txid_to_index@.contains_key(t) by {
                if txids@.contains_key(t) {
                    let i = choose|i: int| 0 <= i < es@.len() && (#[trigger] es@[i]).1 == t;
                    assert(es@.to_set().contains(es@[i]));
                }
                if self.txid_to_index@.contains_key(t) {
                    let e = (self.txid_to_index@[t], t);
                    assert(es@.to_set().contains(e));
                    let i = choose|i: int| 0 <= i < es@.len() && es@[i] == e;
                    assert(es@[i].1 == t);
                }
            }
        }
        ChangeSet { checkpoints, txids }
    }

    /// The height of the last checkpoint of `update` that this chain has too.
    fn agreement_point(&self, update: &Self) -> (r: Option<u32>)
        ensures
            r == self@.agreement_point(update@),
    {
        let hs: Vec<u32> = heights::heights(&update.checkpoints);
        let ghost agreed = self@.agreed(update@);
        let mut k: usize = hs.len();
        while k > 0
            invariant
                heights::lists(hs@, update.checkpoints@.dom()),
                agreed == self@.agreed(update@),
                k <= hs@.len(),
                forall|i: int| k <= i < hs@.len() ==> !agreed.contains(#[trigger] hs@[i]),
            decreases k,
        {
            k = k - 1;
            let height: u32 = hs[k];
            assert(hs@.contains(height));
            if let Some(hash) = self.checkpoints.get(&height) {
                if hash_types::same_hash(hash, update.checkpoints.get(&height).unwrap()) {
                    proof {
                        assert forall|h: u32| #[trigger] agreed.contains(h) implies h <= height by {
                            assert(hs@.contains(h));
                            let i = choose|i: int| 0 <= i < hs@.len() && hs@[i] == h;
                            if i < k {
                                assert(hs@[i] < hs@[k as int]);
                            }
                        }
                        model::lemma_highest(agreed, height);
                    }
                    return Some(height);
                }
            }
        }
        proof {
            model::lemma_highest_meaning(agreed);
            if let Some(h) = model::highest(agreed) {
                assert(hs@.contains(h));
            }
        }
        None
    }

    /// The lowest height that `update` may invalidate.
    fn invalid_lower_bound(&self, update: &Self) -> (lb: u32)
        ensures
            lb == self@.invalid_lb(update@),
    {
        let agreement_point: Option<u32> = self.agreement_point(update);
        let last_update_cp: Option<u32> = heights::last_height(&update.checkpoints);
        match last_update_cp {
            // there is nothing in the update that could invalidate
            None => u32::MAX,
            Some(last) => match agreement_point {
                None => 0,
                // the update ends where the chains agree, no invalidation is required
                Some(agreed) => if agreed == last {
                    u32::MAX
                } else {
                    proof {
                        model::lemma_highest_meaning(self@.agreed(update@));
                        model::lemma_highest_meaning(update@.checkpoints.dom());
                        assert(self@.agreed(update@).contains(agreed));
                        assert(update@.checkpoints.dom().contains(agreed));
                    }
                    agreed + 1
                },
            },
        }
    }

    /// A transaction that `update` moves though the invalidation does not reach it, with its
    /// index in this chain and in the update.
    fn find_inconsistent(&self, update: &Self, invalid_lb: u32) -> (r: Option<(Txid, I, I)>)
        requires
            self.wf(),
            update.wf(),
            invalid_lb == self@.invalid_lb(update@),
        ensures
            match r {
                Some((txid, original, updated)) => self@.inconsistent(update@, txid)
                    && self@.txids[txid] == original && update@.txids[txid] == updated,
                None => forall|t: Txid| !#[trigger] self@.inconsistent(update@, t),
            },
    {
        let es = update.txid_to_index.entries();
        for k in 0..es.len()
            invariant
                self.wf(),
                invalid_lb == self@.invalid_lb(update@),
                txid_map::lists(es@, update.txid_to_index@),
                forall|i: int|
                    0 <= i < k ==> !self@.inconsistent(update@, (#[trigger] es@[i]).0),
        {
            let txid: Txid = es[k].0;
            let update_index: &I = &es[k].1;
            assert(update@.txids.contains_key(es@[k as int].0));
            if let Some(original_index) = self.txid_to_index.get(&txid) {
                let below: bool = match original_index.height() {
                    TxHeight::Confirmed(height) => height < invalid_lb,
                    TxHeight::Unconfirmed => false,
                };
                proof {
                    I::lemma_lawful();
                }
                if below && !order::same(original_index, update_index) {
                    return Some(
                        (
                            txid,
                            chain_index::clone_index(original_index),
                            chain_index::clone_index(update_index),
                        ),
                    );
                }
            }
        }
        assert forall|t: Txid| !#[trigger] self@.inconsistent(update@, t) by {
            if update@.txids.contains_key(t) {
                let i = choose|i: int| 0 <= i < es@.len() && (#[trigger] es@[i]).0 == t;
                assert(!self@.inconsistent(update@, es@[i].0));
            }
        }
        None
    }

    /// The changes by which everything from a checkpoint on is invalidated: the checkpoints go,
    /// and the transactions become unconfirmed.
    fn invalidate_from(&self, invalid_from: Option<u32>) -> (changeset: ChangeSet<I>)
        requires
            self.wf(),
        ensures
            changeset.wf(),
            forall|h: u32| #[trigger]
                changeset@.checkpoints.contains_key(h) <==> self@.checkpoints.contains_key(h) && (
                invalid_from matches Some(from) && h >= from),
            forall|h: u32| #[trigger]
                changeset@.checkpoints.contains_key(h) ==> changeset@.checkpoints[h] is None,
            forall|t: Txid| #[trigger]
                changeset@.txids.contains_key(t) <==> self@.txids.contains_key(t) && (
                invalid_from matches Some(from) && !self@.txids[t].height_of().before(
                    TxHeight::Confirmed(from),
                )),
            forall|t: Txid| #[trigger]
                changeset@.txids.contains_key(t) ==> changeset@.txids[t] == Some(
                    I::max_of(TxHeight::Unconfirmed),
                ),
    {
        let from: u32 = match invalid_from {
            Some(from) => from,
            None => {
                return Default::default();
            },
        };
        let mut checkpoints: BTreeMap<u32, Option<BlockHash>> = BTreeMap::new();
        let mut txids: TxidMap<Option<I>> = TxidMap::new();
        let hs: Vec<u32> = heights::heights(&self.checkpoints);
        for k in 0..hs.len()
            invariant
                heights::lists(hs@, self.checkpoints@.dom()),
                forall|h: u32| #[trigger]
                    checkpoints@.contains_key(h) <==> hs@.take(k as int).contains(h) && h
                        >= from,
                forall|h: u32| #[trigger]
                    checkpoints@.contains_key(h) ==> checkpoints@[h] is None,
        {
            let height: u32 = hs[k];
            assert forall|x: u32| #[trigger] hs@.take(k + 1).contains(x) <==> hs@.take(
                k as int,
            ).contains(x) || x == height by {
                heights::lemma_take_next(hs@, k as int, x);
            }
            if height >= from {
                checkpoints.insert(height, None);
            }
        }
        assert(hs@.take(hs@.len() as int) =~= hs@);
        assert forall|h: u32| #[trigger] checkpoints@.contains_key(
            h,
        ) <==> self@.checkpoints.contains_key(h) && h >= from by {
            assert(hs@.contains(h) <==> self.checkpoints@.dom().contains(h));
        }
        let es = self.range_txids_by_height(
            Bound::Included(TxHeight::Confirmed(from)),
            Bound::Unbounded,
        );
        assert forall|i: int| 0 <= i < es@.len() implies self@.txids.contains_key(
            (#[trigger] es@[i]).1,
        ) && !self@.txids[es@[i].1].height_of().before(TxHeight::Confirmed(from)) by {
            assert(es@.contains(es@[i]));
        }
        for k in 0..es.len()
            invariant
                forall|i: int|
                    0 <= i < es@.len() ==> {
                        let e = #[trigger] es@[i];
                        &&& self@.txids.contains_key(e.1)
                        &&& !self@.txids[e.1].height_of().before(TxHeight::Confirmed(from))
                    },
                txids.wf(),
                forall|t: Txid| #[trigger]
                    txids@.contains_key(t) <==> exists|i: int|
                        0 <= i < k && (#[trigger] es@[i]).1 == t,
                forall|t: Txid| #[trigger]
                    txids@.contains_key(t) ==> txids@[t] == Some(
                        I::max_of(TxHeight::Unconfirmed),
                    ),
        {
            let _ = txids.insert(
                es[k].1,
                Some(I::max_ord_of_height(TxHeight::Unconfirmed)),
            );
        }
        assert forall|t: Txid| #[trigger]
            txids@.contains_key(t) <==> self@.txids.contains_key(t)
                && !self@.txids[t].height_of().before(TxHeight::Confirmed(from)) by {
            if self@.txids.contains_key(t) && !self@.txids[t].height_of().before(
                TxHeight::Confirmed(from),
            ) {
                let e = (self@.txids[t], t);
                assert(es@.contains(e));
                let i = choose|i: int| 0 <= i < es@.len() && es@[i] == e;
                assert(es@[i].1 == t);
            }
        }
        ChangeSet { checkpoints, txids }
    }

    /// Determine the changeset when `update` is applied to self. Invalidated checkpoints result in
    /// invalidated transactions becoming "unconfirmed".
    pub fn determine_changeset(&self, update: &Self) -> (r: Result<ChangeSet<I>, UpdateFailure<I>>)
        requires
            self.wf(),
            update.wf(),
        ensures
            match r {
                Err(UpdateFailure::NotConnected(height)) => self@.disconnected_at(update@) == Some(
                    height,
                ),
                Err(
                    UpdateFailure::InconsistentTx {
                        inconsistent_txid,
                        original_index,
                        update_index,
                    },
                ) => self@.disconnected_at(update@) is None && self@.inconsistent(
                    update@,
                    inconsistent_txid,
                ) && original_index == self@.txids[inconsistent_txid] && update_index
                    == update@.txids[inconsistent_txid],
                Ok(changeset) => self@.accepts(update@) && changeset.wf() && changeset@
                    == self@.changes(update@),
            },
    {
        // the lower bound of the invalidation range
        let invalid_lb: u32 = self.invalid_lower_bound(update);

        // the first checkpoint of the sparsechain to invalidate (if any)
        let invalid_from: Option<u32> = heights::first_height_from(&self.checkpoints, invalid_lb);
        assert(invalid_from == self@.invalid_from(update@));

        // the first checkpoint to invalidate (if any) should be represented in the update
        if let Some(first_invalid) = invalid_from {
            if !update.checkpoints.contains_key(&first_invalid) {
                return Err(UpdateFailure::NotConnected(first_invalid));
            }
        }

        // ensure all currently confirmed txs are still at the same height (unless they are
        // within invalidation range, or to be confirmed)
        if let Some((inconsistent_txid, original_index, update_index)) = self.find_inconsistent(
            update,
            invalid_lb,
        ) {
            return Err(
                UpdateFailure::InconsistentTx { inconsistent_txid, original_index, update_index },
            );
        }

        // create initial change-set, based on checkpoints and txids that are to be "invalidated"
        let changeset: ChangeSet<I> = self.invalidate_from(invalid_from);
        let ghost initial = changeset@;
        let mut checkpoints: BTreeMap<u32, Option<BlockHash>> = changeset.checkpoints;
        let mut txids: TxidMap<Option<I>> = changeset.txids;

        let hs: Vec<u32> = heights::heights(&update.checkpoints);
        for k in 0..hs.len()
            invariant
                heights::lists(hs@, update.checkpoints@.dom()),
                forall|h: u32| #[trigger]
                    checkpoints@.contains_key(h) <==> if hs@.take(k as int).contains(h) {
                        self@.checkpoints.get(h) != Some(update@.checkpoints[h])
                    } else {
                        initial.checkpoints.contains_key(h)
                    },
                forall|h: u32| #[trigger]
                    checkpoints@.contains_key(h) ==> checkpoints@[h]
                        == if hs@.take(k as int).contains(h) {
                        Some(update@.checkpoints[h])
                    } else {
                        initial.checkpoints[h]
                    },
        {
            let height: u32 = hs[k];
            assert(hs@.contains(height));
            assert forall|x: u32| #[trigger] hs@.take(k + 1).contains(x) <==> hs@.take(
                k as int,
            ).contains(x) || x == height by {
                heights::lemma_take_next(hs@, k as int, x);
            }
            let new_hash: BlockHash = *update.checkpoints.get(&height).unwrap();
            let unchanged: bool = match self.checkpoints.get(&height) {
                Some(original_hash) => hash_types::same_hash(original_hash, &new_hash),
                None => false,
            };
            if unchanged {
                checkpoints.remove(&height);
            } else {
                checkpoints.insert(height, Some(new_hash));
            }
        }
        assert(hs@.take(hs@.len() as int) =~= hs@);
        assert(checkpoints@ =~= self@.changes(update@).checkpoints) by {
            assert forall|h: u32| #[trigger] hs@.contains(
                h,
            ) <==> update@.checkpoints.contains_key(h) by {
                assert(hs@.contains(h) <==> update.checkpoints@.dom().contains(h));
            }
        }

        let es = update.txid_to_index.entries();
        for k in 0..es.len()
            invariant
                self.wf(),
                txid_map::lists(es@, update.txid_to_index@),
                txids.wf(),
                forall|t: Txid| #[trigger]
                    txids@.contains_key(t) <==> if txid_map::lists_before(
                        es@,
                        k as int,
                        t,
                    ) {
                        self@.txids.get(t) != Some(update@.txids[t])
                    } else {
                        initial.txids.contains_key(t)
                    },
                forall|t: Txid| #[trigger]
                    txids@.contains_key(t) ==> txids@[t]
                        == if txid_map::lists_before(es@, k as int, t) {
                        Some(update@.txids[t])
                    } else {
                        initial.txids[t]
                    },
        {
            let txid: Txid = es[k].0;
            let new_index: &I = &es[k].1;
            assert(update@.txids.contains_key(es@[k as int].0));
            assert forall|t: Txid| #[trigger] txid_map::lists_before(es@, k + 1, t)
                <==> txid_map::lists_before(es@, k as int, t) || t == txid by {
                txid_map::lemma_lists_before_next(es@, k as int, t);
            }
            proof {
                I::lemma_lawful();
            }
            let unchanged: bool = match self.txid_to_index.get(&txid) {
                Some(original_index) => order::same(original_index, new_index),
                None => false,
            };
            if unchanged {
                let _ = txids.remove(&txid);
            } else {
                let _ = txids.insert(txid, Some(chain_index::clone_index(new_index)));
            }
        }
        proof {
            txid_map::lemma_lists_before_all(es@, update.txid_to_index@);
        }
        assert(txids@ =~= self@.changes(update@).txids);
        Ok(ChangeSet { checkpoints, txids })
    }

    /// Tries to update `self` with another chain that connects to it.
    pub fn apply_update(&mut self, update: Self) -> (r: Result<(), UpdateFailure<I>>)
        requires
            old(self).wf(),
            update.wf(),
            old(self)@.accepts(update@) ==> !model::prune_overflows(
                model::overlay(
                    old(self)@.checkpoints,
                    old(self)@.changes(update@).checkpoints,
                ),
                old(self)@.limit,
            ),
        ensures
            final(self).wf(),
            match r {
                Err(UpdateFailure::NotConnected(height)) => old(self)@.disconnected_at(update@)
                    == Some(height) && final(self)@ == old(self)@,
                Err(
                    UpdateFailure::InconsistentTx {
                        inconsistent_txid,
                        original_index,
                        update_index,
                    },
                ) => old(self)@.disconnected_at(update@) is None && old(self)@.inconsistent(
                    update@,
                    inconsistent_txid,
                ) && original_index == old(self)@.txids[inconsistent_txid] && update_index
                    == update@.txids[inconsistent_txid] && final(self)@ == old(self)@,
                Ok(()) => old(self)@.accepts(update@) && final(self)@ == old(self)@.apply(
                    old(self)@.changes(update@),
                ),
            },
    {
        match self.determine_changeset(&update) {
            Ok(changeset) => {
                self.apply_changeset(changeset);
                Ok(())
            },
            Err(failure) => Err(failure),
        }
    }

    /// Makes each change of `changeset`, then drops checkpoints that are past the limit.
    pub fn apply_changeset(&mut self, changeset: ChangeSet<I>)
        requires
            old(self).wf(),
            changeset.wf(),
            !model::prune_overflows(
                model::overlay(old(self)@.checkpoints, changeset@.checkpoints),
                old(self)@.limit,
            ),
        ensures
            final(self).wf(),
            final(self)@ == old(self)@.apply(changeset@),
    {
        let ghost before = self@;
        let hs: Vec<u32> = heights::heights(&changeset.checkpoints);
        for k in 0..hs.len()
            invariant
                heights::lists(hs@, changeset.checkpoints@.dom()),
                self.txid_to_index.wf(),
                self.ordered_txids.wf(),
                indexes(self.ordered_txids@, self.txid_to_index@),
                self@.txids == before.txids,
                self@.limit == before.limit,
                forall|h: u32| #[trigger]
                    self.checkpoints@.contains_key(h) <==> if hs@.take(k as int).contains(h) {
                        changeset@.checkpoints[h] is Some
                    } else {
                        before.checkpoints.contains_key(h)
                    },
                forall|h: u32| #[trigger]
                    self.checkpoints@.contains_key(h) ==> self.checkpoints@[h] == if hs@.take(
                        k as int,
                    ).contains(h) {
                        changeset@.checkpoints[h]->0
                    } else {
                        before.checkpoints[h]
                    },
        {
            let height: u32 = hs[k];
            assert(hs@.contains(height));
            assert forall|x: u32| #[trigger] hs@.take(k + 1).contains(x) <==> hs@.take(
                k as int,
            ).contains(x) || x == height by {
                heights::lemma_take_next(hs@, k as int, x);
            }
            match changeset.checkpoints.get(&height).unwrap() {
                Some(update_hash) => {
                    self.checkpoints.insert(height, *update_hash);
                },
                None => {
                    self.checkpoints.remove(&height);
                },
            }
        }
        assert(hs@.take(hs@.len() as int) =~= hs@);
        assert(self.checkpoints@ =~= model::overlay(before.checkpoints, changeset@.checkpoints))
            by {
            assert forall|h: u32| #[trigger] hs@.contains(
                h,
            ) <==> changeset@.checkpoints.contains_key(h) by {
                assert(hs@.contains(h) <==> changeset.checkpoints@.dom().contains(h));
            }
        }

        let es = changeset.txids.entries();
        for k in 0..es.len()
            invariant
                txid_map::lists(es@, changeset@.txids),
                self.txid_to_index.wf(),
                self.ordered_txids.wf(),
                indexes(self.ordered_txids@, self.txid_to_index@),
                self.checkpoints@ == model::overlay(before.checkpoints, changeset@.checkpoints),
                self@.limit == before.limit,
                forall|t: Txid| #[trigger]
                    self.txid_to_index@.contains_key(t) <==> if txid_map::lists_before(
                        es@,
                        k as int,
                        t,
                    ) {
                        changeset@.txids[t] is Some
                    } else {
                        before.txids.contains_key(t)
                    },
                forall|t: Txid| #[trigger]
                    self.txid_to_index@.contains_key(t) ==> self.txid_to_index@[t]
                        == if txid_map::lists_before(es@, k as int, t) {
                        changeset@.txids[t]->0
                    } else {
                        before.txids[t]
                    },
        {
            let txid: Txid = es[k].0;
            assert forall|t: Txid| #[trigger] txid_map::lists_before(es@, k + 1, t)
                <==> txid_map::lists_before(es@, k as int, t) || t == txid by {
                txid_map::lemma_lists_before_next(es@, k as int, t);
            }
            proof {
                I::lemma_lawful();
                hash_types::lemma_txid_lawful();
                order::lemma_pair_lawful::<I, Txid>();
            }
            let original_index: Option<I> = self.txid_to_index.remove(&txid);
            if let Some(index) = original_index {
                let _ = self.ordered_txids.remove(&(index, txid));
            }
            assert(indexes(self.ordered_txids@, self.txid_to_index@));
            if let Some(index) = &es[k].1 {
                let _ = self.txid_to_index.insert(txid, chain_index::clone_index(index));
                let _ = self.ordered_txids.insert((chain_index::clone_index(index), txid));
            }
        }
        proof {
            txid_map::lemma_lists_before_all(es@, changeset@.txids);
        }
        assert(self.txid_to_index@ =~= model::overlay(before.txids, changeset@.txids));

        let _ = self.prune_checkpoints();
    }

    /// Drops all but the highest checkpoints, as many as the limit allows, and returns those that
    /// went (if any did).
    fn prune_checkpoints(&mut self) -> (r: Option<BTreeMap<u32, BlockHash>>)
        requires
            old(self).txid_to_index.wf(),
            old(self).ordered_txids.wf(),
            indexes(old(self).ordered_txids@, old(self).txid_to_index@),
            !model::prune_overflows(old(self)@.checkpoints, old(self)@.limit),
        ensures
            final(self).wf(),
            final(self)@ == (ChainView {
                checkpoints: model::prune(old(self)@.checkpoints, old(self)@.limit),
                ..old(self)@
            }),
            match r {
                Some(dropped) => old(self)@.limit matches Some(n) && old(self)@.checkpoints.len()
                    > n && dropped@ == old(self)@.checkpoints.remove_keys(
                    final(self)@.checkpoints.dom(),
                ),
                None => final(self)@.checkpoints == old(self)@.checkpoints,
            },
    {
        let ghost before = self.checkpoints@;
        proof {
            model::lemma_prune_len(before, self.checkpoint_limit);
        }
        let limit: usize = match self.checkpoint_limit {
            Some(limit) => limit,
            None => {
                return None;
            },
        };
        let hs: Vec<u32> = heights::heights(&self.checkpoints);
        proof {
            heights::lemma_lists_len(hs@, before.dom());
        }
        if limit >= hs.len() {
            proof {
                model::lemma_prune_within(before, self.checkpoint_limit);
            }
            return None;
        }

        // find last height to be pruned
        let last: usize = hs.len() - 1 - limit;
        let last_height: u32 = hs[last];
        assert(last_height < u32::MAX) by {
            assert(hs@.contains(last_height));
            if limit > 0 {
                assert(hs@[last as int] < hs@[hs@.len() - 1]);
            }
        }
        // first height to be kept
        let keep_height: u32 = last_height + 1;

        let mut dropped: BTreeMap<u32, BlockHash> = BTreeMap::new();
        for k in 0..hs.len()
            invariant
                heights::lists(hs@, before.dom()),
                self@.txids == old(self)@.txids,
                self@.limit == old(self)@.limit,
                self.txid_to_index == old(self).txid_to_index,
                self.ordered_txids == old(self).ordered_txids,
                forall|h: u32| #[trigger]
                    dropped@.contains_key(h) <==> hs@.take(k as int).contains(h) && h < keep_height,
                forall|h: u32| #[trigger]
                    dropped@.contains_key(h) ==> dropped@[h] == before[h],
                forall|h: u32| #[trigger]
                    self.checkpoints@.contains_key(h) <==> before.contains_key(h)
                        && !dropped@.contains_key(h),
                forall|h: u32| #[trigger]
                    self.checkpoints@.contains_key(h) ==> self.checkpoints@[h] == before[h],
        {
            let height: u32 = hs[k];
            assert(hs@.contains(height));
            assert forall|x: u32| #[trigger] hs@.take(k + 1).contains(x) <==> hs@.take(
                k as int,
            ).contains(x) || x == height by {
                heights::lemma_take_next(hs@, k as int, x);
            }
            if height < keep_height {
                if let Some(hash) = self.checkpoints.remove(&height) {
                    dropped.insert(height, hash);
                }
            }
        }
        proof {
            assert(hs@.take(hs@.len() as int) =~= hs@);
            heights::lemma_split(hs@, before, limit, self.checkpoints@, dropped@);
        }
        Some(dropped)
    }

    /// Changes the most checkpoints that are kept, and drops those that are past the new limit.
    pub fn set_checkpoint_limit(&mut self, limit: Option<usize>)
        requires
            old(self).wf(),
            !model::prune_overflows(old(self)@.checkpoints, limit),
        ensures
            final(self).wf(),
            final(self)@ == (ChainView {
                checkpoints: model::prune(old(self)@.checkpoints, limit),
                limit,
                ..old(self)@
            }),
    {
        self.checkpoint_limit = limit;
        let _ = self.prune_checkpoints();
    }

    /// The transactions between two places in the order by index and then by txid, ascending.
    pub fn range_txids(&self, start: Bound<(I, Txid)>, end: Bound<(I, Txid)>) -> (r: &[(I, Txid)])
        requires
            self.wf(),
            start.is_range(end),
        ensures
            ordered_set::sorted(r@),
            forall|e: (I, Txid)| #[trigger]
                r@.contains(e) <==> self@.places(e) && start.starts_before(e) && end.ends_after(e),
    {
        proof {
            I::lemma_lawful();
            hash_types::lemma_txid_lawful();
            order::lemma_pair_lawful::<I, Txid>();
        }
        self.ordered_txids.range(start, end)
    }

    /// The transactions whose index is in a range, in ascending order.
    pub fn range_txids_by_index(&self, start: Bound<I>, end: Bound<I>) -> (r: &[(I, Txid)])
        requires
            self.wf(),
            start.is_range(end),
        ensures
            ordered_set::sorted(r@),
            forall|e: (I, Txid)| #[trigger]
                r@.contains(e) <==> self@.places(e) && start.starts_before(e.0) && end.ends_after(
                    e.0,
                ),
    {
        let min: Txid = hash_types::min_txid();
        let max: Txid = hash_types::max_txid();
        let from: Bound<(I, Txid)> = match &start {
            Bound::Included(index) => Bound::Included((chain_index::clone_index(index), min)),
            Bound::Excluded(index) => Bound::Excluded((chain_index::clone_index(index), max)),
            Bound::Unbounded => Bound::Unbounded,
        };
        let to: Bound<(I, Txid)> = match &end {
            Bound::Included(index) => Bound::Included((chain_index::clone_index(index), max)),
            Bound::Excluded(index) => Bound::Excluded((chain_index::clone_index(index), min)),
            Bound::Unbounded => Bound::Unbounded,
        };
        proof {
            I::lemma_lawful();
            hash_types::lemma_txid_lawful();
            order::lemma_pair_lawful::<I, Txid>();
            lemma_extremes_differ(min, max);
            assert forall|e: (I, Txid)| #[trigger] from.starts_before(e) <==> start.starts_before(
                e.0,
            ) by {
                assert(order::le(min, e.1) && order::le(e.1, max));
                if order::lt(max, e.1) {
                    order::lemma_asymmetric(max, e.1);
                }
            }
            assert forall|e: (I, Txid)| #[trigger] to.ends_after(e) <==> end.ends_after(e.0) by {
                assert(order::le(min, e.1) && order::le(e.1, max));
                if order::lt(e.1, min) {
                    order::lemma_asymmetric(e.1, min);
                }
            }
        }
        self.range_txids(from, to)
    }

    /// The transactions whose height is in a range, in ascending order.
    pub fn range_txids_by_height(&self, start: Bound<TxHeight>, end: Bound<TxHeight>) -> (r: &[(
        I,
        Txid,
    )])
        requires
            self.wf(),
            start.is_range(end),
        ensures
            ordered_set::sorted(r@),
            forall|e: (I, Txid)| #[trigger]
                r@.contains(e) <==> self@.places(e) && start.starts_before(e.0.height_of())
                    && end.ends_after(e.0.height_of()),
    {
        let min: Txid = hash_types::min_txid();
        let max: Txid = hash_types::max_txid();
        let from: Bound<(I, Txid)> = match start {
            Bound::Included(h) => Bound::Included((I::min_ord_of_height(h), min)),
            Bound::Excluded(h) => Bound::Excluded((I::max_ord_of_height(h), max)),
            Bound::Unbounded => Bound::Unbounded,
        };
        let to: Bound<(I, Txid)> = match end {
            Bound::Included(h) => Bound::Included((I::max_ord_of_height(h), max)),
            Bound::Excluded(h) => Bound::Excluded((I::min_ord_of_height(h), min)),
            Bound::Unbounded => Bound::Unbounded,
        };
        proof {
            I::lemma_lawful();
            hash_types::lemma_txid_lawful();
            order::lemma_pair_lawful::<I, Txid>();
            lemma_extremes_differ(min, max);
            assert forall|e: (I, Txid)| #[trigger] from.starts_before(e) <==> start.starts_before(
                e.0.height_of(),
            ) by {
                lemma_height_start(start, min, max, e);
            }
            assert forall|e: (I, Txid)| #[trigger] to.ends_after(e) <==> end.ends_after(
                e.0.height_of(),
            ) by {
                lemma_height_end(end, min, max, e);
            }
            lemma_height_range::<I>(start, end, min, max);
        }
        self.range_txids(from, to)
    }

    /// All transactions with their index, in ascending order.
    pub fn iter_txids(&self) -> (r: &[(I, Txid)])
        requires
            self.wf(),
        ensures
            ordered_set::sorted(r@),
            forall|e: (I, Txid)| #[trigger] r@.contains(e) <==> self@.places(e),
    {
        let r = self.ordered_txids.as_slice();
        assert forall|e: (I, Txid)| #[trigger] r@.contains(e) <==> self@.places(e) by {
            assert(r@.to_set().contains(e) <==> self.ordered_txids@.contains(e));
        }
        r
    }

    /// The changes that remove the transactions which are not confirmed.
    pub fn clear_mempool_changeset(&self) -> (changeset: ChangeSet<I>)
        requires
            self.wf(),
        ensures
            changeset.wf(),
            changeset@ == self@.mempool_changes(),
    {
        let zeros: Txid = hash_types::txid_all_zeros();
        let es = self.range_txids(
            Bound::Included((I::min_ord_of_height(TxHeight::Unconfirmed), zeros)),
            Bound::Unbounded,
        );
        assert forall|e: (I, Txid)| #[trigger] es@.contains(e) <==> self@.places(e) && e.0.height_of()
            is Unconfirmed by {
            I::lemma_lawful();
            hash_types::lemma_txid_lawful();
            order::lemma_pair_lawful::<I, Txid>();
            hash_types::lemma_all_zeros_least(zeros);
            chain_index::lemma_min_of::<I>(TxHeight::Unconfirmed, e.0);
            assert(order::le(zeros, e.1));
        }
        let mut txids: TxidMap<Option<I>> = TxidMap::new();
        for k in 0..es.len()
            invariant
                txids.wf(),
                forall|t: Txid| #[trigger]
                    txids@.contains_key(t) <==> exists|i: int|
                        0 <= i < k && (#[trigger] es@[i]).1 == t,
                forall|t: Txid| #[trigger] txids@.contains_key(t) ==> txids@[t] is None,
        {
            let _ = txids.insert(es[k].1, None);
        }
        assert forall|t: Txid| #[trigger] txids@.contains_key(t) <==> self@.txids.contains_key(t)
            && self@.txids[t].height_of() is Unconfirmed by {
            if txids@.contains_key(t) {
                let i = choose|i: int| 0 <= i < es@.len() && (#[trigger] es@[i]).1 == t;
                assert(es@.contains(es@[i]));
            }
            let e = (self@.txids[t], t);
            if es@.contains(e) {
                let i = choose|i: int| 0 <= i < es@.len() && es@[i] == e;
                assert(es@[i].1 == t);
            }
        }
        let changeset = ChangeSet { txids, ..Default::default() };
        assert(changeset@.txids =~= self@.mempool_changes().txids);
        changeset
    }

    /// Clear the mempool list. Use with caution.
    pub fn clear_mempool(&mut self)
        requires
            old(self).wf(),
        ensures
            final(self).wf(),
            final(self)@.checkpoints == old(self)@.checkpoints,
            final(self)@.limit == old(self)@.limit,
            final(self)@.txids == old(self)@.txids.restrict(
                Set::new(|t: Txid| old(self)@.txids[t].height_of() is Confirmed),
            ),
    {
        let ghost before = self@;
        let changeset: ChangeSet<I> = self.clear_mempool_changeset();
        proof {
            let none = before.mempool_changes().checkpoints;
            assert(model::overlay(before.checkpoints, none) =~= before.checkpoints);
            model::lemma_prune_within(before.checkpoints, before.limit);
            if model::prune_overflows(before.checkpoints, before.limit) {
                assert(before.checkpoints.dom() =~= Set::empty());
            }
        }
        self.apply_changeset(changeset);
        assert(self@.txids =~= before.txids.restrict(
            Set::new(|t: Txid| before.txids[t].height_of() is Confirmed),
        ));
    }

    /// Insert an arbitrary txid. This assumes that we have at least one checkpoint and the tx does
    /// not already exist in [`SparseChain`]. Returns a [`ChangeSet`] on success.
    ///
    /// The changes are those of the insertion: none if the tx does already exist.
    pub fn insert_tx(&mut self, txid: Txid, index: I) -> (r: Result<ChangeSet<I>, InsertTxErr>)
        requires
            old(self).wf(),
        ensures
            final(self).wf(),
            match r {
                Err(e) => old(self)@.insert_tx_outcome(txid, index) == Err::<
                    ChangeSetView<I>,
                    InsertTxErr,
                >(e) && final(self)@ == old(self)@,
                Ok(changeset) => {
                    &&& changeset.wf()
                    &&& old(self)@.insert_tx_outcome(txid, index) == Ok::<
                        ChangeSetView<I>,
                        InsertTxErr,
                    >(changeset@)
                    &&& final(self)@ == (ChainView {
                        txids: model::overlay(old(self)@.txids, changeset@.txids),
                        ..old(self)@
                    })
                },
            },
    {
        if let TxHeight::Confirmed(new_height) = index.height() {
            match heights::last_height(&self.checkpoints) {
                None => {
                    return Err(InsertTxErr::TxTooHigh);
                },
                Some(latest) => {
                    if new_height > latest {
                        return Err(InsertTxErr::TxTooHigh);
                    }
                },
            }
        }
        proof {
            I::lemma_lawful();
            hash_types::lemma_txid_lawful();
            order::lemma_pair_lawful::<I, Txid>();
        }
        if let Some(original_index) = self.txid_to_index.get(&txid) {
            if original_index.height().is_confirmed() && !order::same(original_index, &index) {
                return Err(InsertTxErr::TxMoved);
            }
            let changeset: ChangeSet<I> = Default::default();
            assert(model::overlay(self@.txids, changeset@.txids) =~= self@.txids);
            return Ok(changeset);
        }
        let mut txids: TxidMap<Option<I>> = TxidMap::new();
        let _ = txids.insert(txid, Some(chain_index::clone_index(&index)));
        assert(model::overlay(self@.txids, txids@) =~= self@.txids.insert(txid, index));
        let _ = self.txid_to_index.insert(txid, chain_index::clone_index(&index));
        let _ = self.ordered_txids.insert((index, txid));
        Ok(ChangeSet { txids, ..Default::default() })
    }

    /// Insert a checkpoint, unless there is one of its height. Returns whether it was added.
    pub fn insert_checkpoint(&mut self, block_id: BlockId) -> (r: Result<bool, InsertCheckpointErr>)
        requires
            old(self).wf(),
            !(old(self)@.limit == Some(0usize) && block_id.height == u32::MAX),
        ensures
            final(self).wf(),
            r == old(self)@.insert_checkpoint_outcome(block_id),
            final(self)@ == if r == Ok::<bool, InsertCheckpointErr>(true) {
                ChainView {
                    checkpoints: model::prune(
                        old(self)@.checkpoints.insert(block_id.height, block_id.hash),
                        old(self)@.limit,
                    ),
                    ..old(self)@
                }
            } else {
                old(self)@
            },
    {
        if let Some(old_hash) = self.checkpoints.get(&block_id.height) {
            if !hash_types::same_hash(old_hash, &block_id.hash) {
                return Err(InsertCheckpointErr::HashNotMatching);
            }
            return Ok(false);
        }
        proof {
            if self@.limit == Some(0usize) {
                assert(self@.checkpoints.dom() =~= Set::empty());
            }
        }
        self.checkpoints.insert(block_id.height, block_id.hash);
        let _ = self.prune_checkpoints();
        Ok(true)
    }

    /// Given a transaction graph and a particular outpoint attempts to retrieve a `FullTxOut`. This
    /// function will return `Some(full_txout)` only if the output's transaction is in `self` and
    /// the graph.
    pub fn full_txout(&self, graph: &TxGraph, outpoint: OutPoint) -> (r: Option<FullTxOut<I>>)
        requires
            self.wf(),
            graph.wf(),
        ensures
            r is Some <==> self@.txids.contains_key(outpoint.txid) && graph@.txouts.contains_key(
                outpoint,
            ),
            r matches Some(full) ==> {
                &&& full.outpoint == outpoint
                &&& full.txout@ == graph@.txouts[outpoint]
                &&& full.chain_index == self@.txids[outpoint.txid]
                &&& match full.spent_by {
                    Some((index, txid)) => self@.spends(graph@, outpoint, txid)
                        && self@.txids[txid] == index,
                    None => forall|t: Txid| !#[trigger] self@.spends(graph@, outpoint, t),
                }
                &&& full.spent_by == self@.first_held(graph.spenders(outpoint))
            },
    {
        let chain_index: I = match self.tx_index(outpoint.txid) {
            Some(index) => chain_index::clone_index(index),
            None => {
                return None;
            },
        };
        let txout: TxOut = match graph.txout(outpoint) {
            Some(txout) => txout.clone(),
            None => {
                return None;
            },
        };
        let spent_by: Option<(I, Txid)> = match self.spent_by(graph, outpoint) {
            Some((index, txid)) => Some((chain_index::clone_index(index), txid)),
            None => None,
        };
        Some(FullTxOut { outpoint, txout, chain_index, spent_by })
    }

    /// Finds the transaction in the chain that spends `outpoint` given the input/output
    /// relationships in `graph`. Note that the transaction including `outpoint` does not need to be
    /// in the `graph` or the `chain` for this to return `Some(_)`.
    pub fn spent_by(&self, graph: &TxGraph, outpoint: OutPoint) -> (r: Option<(&I, Txid)>)
        requires
            self.wf(),
        ensures
            match r {
                Some((index, txid)) => self@.spends(graph@, outpoint, txid) && self@.txids[txid]
                    == *index,
                None => forall|t: Txid| !#[trigger] self@.spends(graph@, outpoint, t),
            },
            self@.first_held(graph.spenders(outpoint)) == match r {
                Some((index, txid)) => Some((*index, txid)),
                None => None,
            },
    {
        let outspends: Vec<Txid> = graph.outspends(outpoint);
        assert(outspends@.skip(0) =~= outspends@);
        for k in 0..outspends.len()
            invariant
                self.wf(),
                outspends@ == graph.spenders(outpoint),
                self@.first_held(outspends@) == self@.first_held(outspends@.skip(k as int)),
                forall|t: Txid| #[trigger]
                    outspends@.contains(t) <==> graph@.spends.contains((outpoint, t)),
                forall|i: int|
                    0 <= i < k ==> !self@.txids.contains_key(#[trigger] outspends@[i]),
        {
            let txid: Txid = outspends[k];
            assert(outspends@.contains(txid));
            assert(outspends@.skip(k as int).drop_first() =~= outspends@.skip(k + 1));
            if let Some(index) = self.tx_index(txid) {
                return Some((index, txid));
            }
        }
        assert forall|t: Txid| !#[trigger] self@.spends(graph@, outpoint, t) by {
            if graph@.spends.contains((outpoint, t)) {
                assert(outspends@.contains(t));
                let i = choose|i: int| 0 <= i < outspends@.len() && outspends@[i] == t;
                assert(!self@.txids.contains_key(outspends@[i]));
            }
        }
        None
    }
}

/// The least and the greatest transaction id are not the same.
proof fn lemma_extremes_differ(min: Txid, max: Txid)
    requires
        min@ == Seq::new(32, |i: int| 0x00u8),
        max@ == Seq::new(32, |i: int| 0xffu8),
        forall|t: Txid| #[trigger] order::le(min, t),
    ensures
        order::lt(min, max),
{
    assert(min@[0] != max@[0]);
    assert(order::le(min, max));
}

/// The entry bound for a start by height admits the entries that the height bound admits.
proof fn lemma_height_start<I: ChainIndex>(
    start: Bound<TxHeight>,
    min: Txid,
    max: Txid,
    e: (I, Txid),
)
    requires
        forall|t: Txid| #[trigger] order::le(min, t),
        forall|t: Txid| #[trigger] order::le(t, max),
    ensures
        start.starts_before(e.0.height_of()) <==> match start {
            Bound::Included(h) => order::le((I::min_of(h), min), e),
            Bound::Excluded(h) => order::lt((I::max_of(h), max), e),
            Bound::Unbounded => true,
        },
{
    I::lemma_lawful();
    hash_types::lemma_txid_lawful();
    order::lemma_pair_lawful::<I, Txid>();
    let b = match start {
        Bound::Included(h) => h,
        Bound::Excluded(h) => h,
        Bound::Unbounded => TxHeight::Unconfirmed,
    };
    chain_index::lemma_min_of::<I>(b, e.0);
    chain_index::lemma_max_of::<I>(b, e.0);
    assert(order::le(min, e.1) && order::le(e.1, max));
    if order::lt(max, e.1) {
        order::lemma_asymmetric(max, e.1);
    }
    order::lemma_total(e.0, I::max_of(b));
    if order::lt(I::max_of(b), e.0) {
        order::lemma_asymmetric(I::max_of(b), e.0);
    }
}

/// The entry bound for an end by height admits the entries that the height bound admits.
proof fn lemma_height_end<I: ChainIndex>(
    end: Bound<TxHeight>,
    min: Txid,
    max: Txid,
    e: (I, Txid),
)
    requires
        forall|t: Txid| #[trigger] order::le(min, t),
        forall|t: Txid| #[trigger] order::le(t, max),
    ensures
        end.ends_after(e.0.height_of()) <==> match end {
            Bound::Included(h) => order::le(e, (I::max_of(h), max)),
            Bound::Excluded(h) => order::lt(e, (I::min_of(h), min)),
            Bound::Unbounded => true,
        },
{
    I::lemma_lawful();
    hash_types::lemma_txid_lawful();
    order::lemma_pair_lawful::<I, Txid>();
    let b = match end {
        Bound::Included(h) => h,
        Bound::Excluded(h) => h,
        Bound::Unbounded => TxHeight::Unconfirmed,
    };
    chain_index::lemma_min_of::<I>(b, e.0);
    chain_index::lemma_max_of::<I>(b, e.0);
    assert(order::le(min, e.1) && order::le(e.1, max));
    if order::lt(e.1, min) {
        order::lemma_asymmetric(e.1, min);
    }
    order::lemma_total(e.0, I::min_of(b));
    if order::lt(e.0, I::min_of(b)) {
        order::lemma_asymmetric(e.0, I::min_of(b));
    }
}

/// A range of heights is a range of entries.
proof fn lemma_height_range<I: ChainIndex>(
    start: Bound<TxHeight>,
    end: Bound<TxHeight>,
    min: Txid,
    max: Txid,
)
    requires
        start.is_range(end),
        order::lt(min, max),
    ensures
        ({
            let from: Bound<(I, Txid)> = match start {
                Bound::Included(h) => Bound::Included((I::min_of(h), min)),
                Bound::Excluded(h) => Bound::Excluded((I::max_of(h), max)),
                Bound::Unbounded => Bound::Unbounded,
            };
            let to: Bound<(I, Txid)> = match end {
                Bound::Included(h) => Bound::Included((I::max_of(h), max)),
                Bound::Excluded(h) => Bound::Excluded((I::min_of(h), min)),
                Bound::Unbounded => Bound::Unbounded,
            };
            from.is_range(to)
        }),
{
    I::lemma_lawful();
    hash_types::lemma_txid_lawful();
    order::lemma_pair_lawful::<I, Txid>();
    let a = match start {
        Bound::Included(h) => h,
        Bound::Excluded(h) => h,
        Bound::Unbounded => TxHeight::Unconfirmed,
    };
    let b = match end {
        Bound::Included(h) => h,
        Bound::Excluded(h) => h,
        Bound::Unbounded => TxHeight::Unconfirmed,
    };
    I::lemma_bounds_height(a);
    I::lemma_bounds_height(b);
    if a.before(b) {
        I::lemma_height_first(I::min_of(a), I::max_of(b));
        I::lemma_height_first(I::min_of(a), I::min_of(b));
        I::lemma_height_first(I::max_of(a), I::max_of(b));
        I::lemma_height_first(I::max_of(a), I::min_of(b));
    } else {
        chain_index::lemma_max_of::<I>(b, I::min_of(a));
    }
}

} // verus!
