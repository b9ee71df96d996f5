//! The mathematical model of a chain: which checkpoints and transactions it holds, what an update
//! changes, and what a set of changes does.

use crate::chain_data::BlockId;
use crate::chain_data::TxHeight;
use crate::chain_index::ChainIndex;
use crate::error::InsertCheckpointErr;
use crate::error::InsertTxErr;
use crate::hash_types::BlockHash;
use crate::hash_types::Txid;
use crate::transaction::OutPoint;
use crate::tx_graph::TxGraphView;
use vstd::prelude::*;

verus! {

/// `h` is in `s`, and nothing higher is.
pub open spec fn is_highest(s: Set<u32>, h: u32) -> bool {
    s.contains(h) && forall|k: u32| #[trigger] s.contains(k) ==> k <= h
}

/// `h` is in `s`, and nothing lower is.
pub open spec fn is_lowest(s: Set<u32>, h: u32) -> bool {
    s.contains(h) && forall|k: u32| #[trigger] s.contains(k) ==> h <= k
}

/// The highest member of `s`, if it has members.
pub open spec fn highest(s: Set<u32>) -> Option<u32> {
    if exists|h: u32| is_highest(s, h) {
        Some(choose|h: u32| is_highest(s, h))
    } else {
        None
    }
}

/// The lowest member of `s`, if it has members.
pub open spec fn lowest(s: Set<u32>) -> Option<u32> {
    if exists|h: u32| is_lowest(s, h) {
        Some(choose|h: u32| is_lowest(s, h))
    } else {
        None
    }
}

/// `m` after the changes in `c`: each key of `c` is mapped to its new value, or removed.
pub open spec fn overlay<K, V>(m: Map<K, V>, c: Map<K, Option<V>>) -> Map<K, V> {
    Map::new(
        |k: K|
            if c.contains_key(k) {
                c[k] is Some
            } else {
                m.contains_key(k)
            },
        |k: K|
            if c.contains_key(k) {
                c[k]->0
            } else {
                m[k]
            },
    )
}

/// The heights of `m` above `h`.
pub open spec fn above<V>(m: Map<u32, V>, h: u32) -> Set<u32> {
    m.dom().filter(|k: u32| k > h)
}

/// The entries of `m` at its `limit` highest heights; all of them if there is no limit.
pub open spec fn prune<V>(m: Map<u32, V>, limit: Option<usize>) -> Map<u32, V> {
    match limit {
        None => m,
        Some(n) => m.restrict(Set::new(|h: u32| above(m, h).len() < n)),
    }
}

/// Pruning `m` to `limit` needs a height above `u32::MAX`: nothing may be kept, and that height
/// is taken.
pub open spec fn prune_overflows<V>(m: Map<u32, V>, limit: Option<usize>) -> bool {
    limit == Some(0usize) && m.contains_key(u32::MAX)
}

/// The checkpoints of a list of blocks; where two are of one height, the later one counts.
pub open spec fn checkpoints_of(blocks: Seq<BlockId>) -> Map<u32, BlockHash>
    decreases blocks.len(),
{
    if blocks.len() == 0 {
        Map::empty()
    } else {
        checkpoints_of(blocks.drop_last()).insert(blocks.last().height, blocks.last().hash)
    }
}

/// What a [`SparseChain`](crate::sparse_chain::SparseChain) holds.
pub struct ChainView<I> {
    /// The block hash at each checkpoint height.
    pub checkpoints: Map<u32, BlockHash>,
    /// The position of each transaction.
    pub txids: Map<Txid, I>,
    /// The most checkpoints that are kept.
    pub limit: Option<usize>,
}

/// What a [`ChangeSet`](crate::change_set::ChangeSet) holds.
pub struct ChangeSetView<I> {
    /// The new block hash at each changed height; `None` where the checkpoint goes.
    pub checkpoints: Map<u32, Option<BlockHash>>,
    /// The new position of each changed transaction; `None` where the transaction goes.
    pub txids: Map<Txid, Option<I>>,
}

impl<I> ChangeSetView<I> {
    /// No changes.
    pub open spec fn empty() -> Self {
        ChangeSetView { checkpoints: Map::empty(), txids: Map::empty() }
    }

    /// The changes of `self`, then those of `newer`.
    pub open spec fn merge(self, newer: Self) -> Self {
        ChangeSetView {
            checkpoints: self.checkpoints.union_prefer_right(newer.checkpoints),
            txids: self.txids.union_prefer_right(newer.txids),
        }
    }
}

impl<I> ChainView<I> {
    /// A chain that holds nothing and has no limit.
    pub open spec fn empty() -> Self {
        ChainView { checkpoints: Map::empty(), txids: Map::empty(), limit: None }
    }

    /// The chain holds the transaction of `e`, at the index of `e`.
    pub open spec fn places(self, e: (I, Txid)) -> bool {
        self.txids.contains_key(e.1) && self.txids[e.1] == e.0
    }

    /// The height of the last checkpoint.
    pub open spec fn tip(self) -> Option<u32> {
        highest(self.checkpoints.dom())
    }

    /// The changes that build this chain's content from nothing.
    pub open spec fn initial_changes(self) -> ChangeSetView<I> {
        ChangeSetView {
            checkpoints: self.checkpoints.map_values(|hash: BlockHash| Some(hash)),
            txids: self.txids.map_values(|index: I| Some(index)),
        }
    }

    /// The chain after a set of changes, cut down to the limit.
    pub open spec fn apply(self, c: ChangeSetView<I>) -> Self {
        ChainView {
            checkpoints: prune(overlay(self.checkpoints, c.checkpoints), self.limit),
            txids: overlay(self.txids, c.txids),
            limit: self.limit,
        }
    }

    /// `txid` is in the chain and spends `outpoint`.
    pub open spec fn spends(self, graph: TxGraphView, outpoint: OutPoint, txid: Txid) -> bool {
        graph.spends.contains((outpoint, txid)) && self.txids.contains_key(txid)
    }

    /// The first of a list of transactions that is in the chain, with its index.
    pub open spec fn first_held(self, s: Seq<Txid>) -> Option<(I, Txid)>
        decreases s.len(),
    {
        if s.len() == 0 {
            None
        } else if self.txids.contains_key(s[0]) {
            Some((self.txids[s[0]], s[0]))
        } else {
            self.first_held(s.drop_first())
        }
    }

    /// What comes of inserting a checkpoint. One of another hash at the same height stands in the
    /// way; one of the same hash is there already.
    pub open spec fn insert_checkpoint_outcome(self, block_id: BlockId) -> Result<
        bool,
        InsertCheckpointErr,
    > {
        if !self.checkpoints.contains_key(block_id.height) {
            Ok(true)
        } else if self.checkpoints[block_id.height] != block_id.hash {
            Err(InsertCheckpointErr::HashNotMatching)
        } else {
            Ok(false)
        }
    }

    /// The heights at which both chains have the same checkpoint.
    pub open spec fn agreed(self, update: Self) -> Set<u32> {
        Set::new(
            |h: u32|
                self.checkpoints.contains_key(h) && update.checkpoints.contains_key(h)
                    && self.checkpoints[h] == update.checkpoints[h],
        )
    }

    /// The highest height at which the chains agree.
    pub open spec fn agreement_point(self, update: Self) -> Option<u32> {
        highest(self.agreed(update))
    }

    /// The lowest height that `update` may invalidate: just past the agreement point, or
    /// `u32::MAX` where the update has nothing past the agreement point.
    pub open spec fn invalid_lb(self, update: Self) -> u32 {
        let agreement_point = self.agreement_point(update);
        if update.tip() is None || update.tip() == agreement_point {
            u32::MAX
        } else {
            match agreement_point {
                Some(h) => (h + 1) as u32,
                None => 0,
            }
        }
    }

    /// The heights of the checkpoints at or above `lb`.
    pub open spec fn checkpoints_from(self, lb: u32) -> Set<u32> {
        self.checkpoints.dom().filter(|h: u32| h >= lb)
    }

    /// The first checkpoint that `update` invalidates.
    pub open spec fn invalid_from(self, update: Self) -> Option<u32> {
        lowest(self.checkpoints_from(self.invalid_lb(update)))
    }

    /// The first invalidated checkpoint, where `update` does not say what takes its place.
    pub open spec fn disconnected_at(self, update: Self) -> Option<u32> {
        match self.invalid_from(update) {
            Some(h) if !update.checkpoints.contains_key(h) => Some(h),
            _ => None,
        }
    }
}

impl<I: ChainIndex> ChainView<I> {
    /// `update` moves a transaction that the invalidation does not reach.
    pub open spec fn inconsistent(self, update: Self, txid: Txid) -> bool {
        &&& self.txids.contains_key(txid)
        &&& update.txids.contains_key(txid)
        &&& self.txids[txid].height_of().before(TxHeight::Confirmed(self.invalid_lb(update)))
        &&& self.txids[txid] != update.txids[txid]
    }

    /// Every confirmed transaction is at or below the last checkpoint.
    pub open spec fn tip_covers(self) -> bool {
        forall|t: Txid| #[trigger]
            self.txids.contains_key(t) ==> (self.txids[t].height_of() matches TxHeight::Confirmed(h)
                ==> (self.tip() matches Some(tip) && h <= tip))
    }

    /// The checkpoint at `h` is invalidated by `update`.
    pub open spec fn invalidates_checkpoint(self, update: Self, h: u32) -> bool {
        &&& self.checkpoints.contains_key(h)
        &&& self.invalid_from(update) matches Some(from) && h >= from
    }

    /// The transaction is no lower than the first checkpoint that `update` invalidates.
    pub open spec fn invalidates_tx(self, update: Self, txid: Txid) -> bool {
        &&& self.txids.contains_key(txid)
        &&& self.invalid_from(update) matches Some(from) && !self.txids[txid].height_of().before(
            TxHeight::Confirmed(from),
        )
    }

    /// What `update` changes. At each place of the update: what the update says, if it differs
    /// from what is there. Elsewhere: invalidated checkpoints go, and invalidated transactions
    /// become unconfirmed.
    pub open spec fn changes(self, update: Self) -> ChangeSetView<I> {
        ChangeSetView {
            checkpoints: Map::new(
                |h: u32|
                    if update.checkpoints.contains_key(h) {
                        self.checkpoints.get(h) != Some(update.checkpoints[h])
                    } else {
                        self.invalidates_checkpoint(update, h)
                    },
                |h: u32| update.checkpoints.get(h),
            ),
            txids: Map::new(
                |t: Txid|
                    if update.txids.contains_key(t) {
                        self.txids.get(t) != Some(update.txids[t])
                    } else {
                        self.invalidates_tx(update, t)
                    },
                |t: Txid|
                    if update.txids.contains_key(t) {
                        Some(update.txids[t])
                    } else {
                        Some(I::max_of(TxHeight::Unconfirmed))
                    },
            ),
        }
    }

    /// The changes that remove every unconfirmed transaction.
    pub open spec fn mempool_changes(self) -> ChangeSetView<I> {
        ChangeSetView {
            checkpoints: Map::empty(),
            txids: Map::new(
                |t: Txid| self.txids.contains_key(t) && self.txids[t].height_of() is Unconfirmed,
                |t: Txid| None,
            ),
        }
    }

    /// What comes of inserting a transaction: an error, or the changes of the insertion. One above
    /// the last checkpoint is too high; one that is confirmed elsewhere may not move; one that is
    /// there already is left as it is.
    pub open spec fn insert_tx_outcome(self, txid: Txid, index: I) -> Result<
        ChangeSetView<I>,
        InsertTxErr,
    > {
        if index.height_of() matches TxHeight::Confirmed(h) && !(self.tip() matches Some(tip) && h
            <= tip) {
            Err(InsertTxErr::TxTooHigh)
        } else if !self.txids.contains_key(txid) {
            Ok(
                ChangeSetView {
                    checkpoints: Map::empty(),
                    txids: Map::empty().insert(txid, Some(index)),
                },
            )
        } else if self.txids[txid].height_of() is Confirmed && self.txids[txid] != index {
            Err(InsertTxErr::TxMoved)
        } else {
            Ok(ChangeSetView::empty())
        }
    }

    /// `update` can be applied: it connects to this chain and moves no transaction that it may not.
    pub open spec fn accepts(self, update: Self) -> bool {
        &&& self.disconnected_at(update) is None
        &&& forall|t: Txid| !#[trigger] self.inconsistent(update, t)
    }
}

/// A highest member is the highest member.
pub proof fn lemma_highest(s: Set<u32>, h: u32)
    requires
        is_highest(s, h),
    ensures
        highest(s) == Some(h),
{
    let k = choose|k: u32| is_highest(s, k);
    assert(is_highest(s, k));
    assert(s.contains(k) && s.contains(h));
}

/// A lowest member is the lowest member.
pub proof fn lemma_lowest(s: Set<u32>, h: u32)
    requires
        is_lowest(s, h),
    ensures
        lowest(s) == Some(h),
{
    let k = choose|k: u32| is_lowest(s, k);
    assert(is_lowest(s, k));
    assert(s.contains(k) && s.contains(h));
}

/// A set with a member has a highest one.
pub proof fn lemma_highest_exists(s: Set<u32>, h: u32)
    requires
        s.contains(h),
    ensures
        highest(s) matches Some(k) && is_highest(s, k) && h <= k,
    decreases u32::MAX - h,
{
    if is_highest(s, h) {
        lemma_highest(s, h);
    } else {
        let k = choose|k: u32| #[trigger] s.contains(k) && !(k <= h);
        lemma_highest_exists(s, k);
    }
}

/// A set with a member has a lowest one.
pub proof fn lemma_lowest_exists(s: Set<u32>, h: u32)
    requires
        s.contains(h),
    ensures
        lowest(s) matches Some(k) && is_lowest(s, k) && k <= h,
    decreases h,
{
    if is_lowest(s, h) {
        lemma_lowest(s, h);
    } else {
        let k = choose|k: u32| #[trigger] s.contains(k) && !(h <= k);
        lemma_lowest_exists(s, k);
    }
}

/// What `highest` yields is a highest member; it yields nothing for an empty set only.
pub proof fn lemma_highest_meaning(s: Set<u32>)
    ensures
        match highest(s) {
            Some(h) => is_highest(s, h),
            None => forall|h: u32| !#[trigger] s.contains(h),
        },
{
    if highest(s) is None {
        assert forall|h: u32| !#[trigger] s.contains(h) by {
            if s.contains(h) {
                lemma_highest_exists(s, h);
            }
        }
    }
}

/// What `lowest` yields is a lowest member; it yields nothing for an empty set only.
pub proof fn lemma_lowest_meaning(s: Set<u32>)
    ensures
        match lowest(s) {
            Some(h) => is_lowest(s, h),
            None => forall|h: u32| !#[trigger] s.contains(h),
        },
{
    if lowest(s) is None {
        assert forall|h: u32| !#[trigger] s.contains(h) by {
            if s.contains(h) {
                lemma_lowest_exists(s, h);
            }
        }
    }
}

/// A map within the limit is not pruned.
pub proof fn lemma_prune_within<V>(m: Map<u32, V>, limit: Option<usize>)
    requires
        m.dom().finite(),
        limit matches Some(n) ==> m.len() <= n,
    ensures
        prune(m, limit) == m,
{
    if let Some(n) = limit {
        assert forall|h: u32| m.contains_key(h) implies #[trigger] above(m, h).len() < n by {
            let rest = m.dom().remove(h);
            assert(above(m, h).subset_of(rest));
            vstd::set_lib::lemma_len_subset(above(m, h), rest);
        }
        assert(prune(m, limit) =~= m);
    }
}

/// The highest height survives pruning, unless nothing may be kept.
pub proof fn lemma_prune_highest<V>(m: Map<u32, V>, limit: Option<usize>)
    requires
        limit != Some(0usize),
    ensures
        highest(prune(m, limit).dom()) == highest(m.dom()),
{
    let p = prune(m, limit);
    lemma_highest_meaning(m.dom());
    lemma_highest_meaning(p.dom());
    if let Some(top) = highest(m.dom()) {
        assert(m.dom().contains(top));
        assert forall|h: u32| !#[trigger] above(m, top).contains(h) by {
            assert(m.dom().contains(h) ==> h <= top);
        }
        assert(above(m, top) =~= Set::empty());
        assert(is_highest(p.dom(), top)) by {
            assert forall|h: u32| #[trigger] p.dom().contains(h) implies h <= top by {
                assert(m.dom().contains(h));
            }
        }
        lemma_highest(p.dom(), top);
    } else if let Some(h) = highest(p.dom()) {
        assert(p.dom().contains(h));
        assert(m.dom().contains(h));
    }
}

/// Pruning leaves a map that is within the limit.
pub proof fn lemma_prune_len<V>(m: Map<u32, V>, limit: Option<usize>)
    requires
        m.dom().finite(),
    ensures
        prune(m, limit).dom().finite(),
        limit matches Some(n) ==> prune(m, limit).len() <= n,
{
    let p = prune(m, limit);
    assert(p.dom().subset_of(m.dom()));
    vstd::set_lib::lemma_set_subset_finite(m.dom(), p.dom());
    if let Some(n) = limit {
        lemma_lowest_meaning(p.dom());
        match lowest(p.dom()) {
            None => {
                assert(p.dom() =~= Set::empty());
            },
            Some(h) => {
                let rest = p.dom().remove(h);
                assert(rest.subset_of(above(m, h)));
                vstd::set_lib::lemma_len_subset(rest, above(m, h));
            },
        }
    }
}

} // verus!
