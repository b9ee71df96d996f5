//! What each query yields, as a relation between what it is asked and what it answers.
//!
//! As in [`operations`](crate::operations), a law speaks of a call by `call_ensures`, and otherwise
//! of heights, bytes, indices and characters alone.

use crate::chain_data::BlockId;
use crate::chain_data::ConfirmationTime;
use crate::chain_data::FullTxOut;
use crate::chain_data::TxHeight;
use crate::chain_index::ChainIndex;
use crate::change_set::ChangeSet;
use crate::error;
use crate::error::InsertCheckpointErr;
use crate::error::InsertTxErr;
use crate::error::UpdateFailure;
use crate::hash_types;
use crate::hash_types::BlockHash;
use crate::hash_types::Txid;
use crate::heights;
use crate::laws;
use crate::model;
use crate::order;
use crate::ordered_set::Bound;
use crate::sparse_chain::SparseChain;
use crate::transaction::OutPoint;
use crate::tx_graph::TxGraph;
use crate::txid_map::TxidMap;
use std::collections::BTreeMap;
use vstd::prelude::*;
use vstd::std_specs::cmp::PartialEqSpec;

verus! {

/// `v` is not before a range that starts at `start`, by the order `less`.
pub open spec fn from_start<T>(start: Bound<T>, less: spec_fn(T, T) -> bool, v: T) -> bool {
    match start {
        Bound::Included(s) => !less(v, s),
        Bound::Excluded(s) => less(s, v),
        Bound::Unbounded => true,
    }
}

/// `v` is not past a range that ends at `end`, by the order `less`.
pub open spec fn to_end<T>(end: Bound<T>, less: spec_fn(T, T) -> bool, v: T) -> bool {
    match end {
        Bound::Included(e) => !less(e, v),
        Bound::Excluded(e) => less(v, e),
        Bound::Unbounded => true,
    }
}

/// Heights go by number, and every block comes before what is unconfirmed.
pub open spec fn height_less(a: TxHeight, b: TxHeight) -> bool {
    match (a, b) {
        (TxHeight::Confirmed(x), TxHeight::Confirmed(y)) => x < y,
        (TxHeight::Confirmed(_), TxHeight::Unconfirmed) => true,
        (TxHeight::Unconfirmed, _) => false,
    }
}

/// `a` has the smaller byte at the first place where the two ids differ.
pub open spec fn txid_less(a: Txid, b: Txid) -> bool {
    exists|k: int|
        0 <= k < 32 && #[trigger] a.0[k] < b.0[k] && forall|j: int|
            0 <= j < k ==> #[trigger] a.0[j] == b.0[j]
}

/// Entries go by index, then by id.
pub open spec fn entry_less<I: PartialOrd>(a: (I, Txid), b: (I, Txid)) -> bool {
    order::lt(a.0, b.0) || (a.0 == b.0 && txid_less(a.1, b.1))
}

/// Transaction ids are ordered by their bytes.
pub proof fn law_txid_order(a: Txid, b: Txid)
    ensures
        order::lt(a, b) <==> txid_less(a, b),
{
    if order::lt(a, b) {
        let k = choose|k: int|
            0 <= k < a@.len() && k < b@.len() && #[trigger] a@[k] < #[trigger] b@[k] && a@.take(k)
                == b@.take(k);
        assert(a.0[k] < b.0[k]);
        assert forall|j: int| 0 <= j < k implies #[trigger] a.0[j] == b.0[j] by {
            assert(a@.take(k)[j] == b@.take(k)[j]);
        }
    }
    if txid_less(a, b) {
        let k = choose|k: int|
            0 <= k < 32 && #[trigger] a.0[k] < b.0[k] && forall|j: int|
                0 <= j < k ==> #[trigger] a.0[j] == b.0[j];
        assert(a@[k] < b@[k]);
        assert(a@.take(k) =~= b@.take(k)) by {
            assert forall|j: int| 0 <= j < k implies a@.take(k)[j] == b@.take(k)[j] by {
                assert(a.0[j] == b.0[j]);
            }
        }
        assert(hash_types::bytes_lt(a@, b@));
    }
}

/// Ids, block hashes, heights and confirmation times are equal just if they are the same.
pub proof fn law_equality(
    txids: (Txid, Txid),
    hashes: (BlockHash, BlockHash),
    heights: (TxHeight, TxHeight),
    times: (ConfirmationTime, ConfirmationTime),
)
    ensures
        txids.0.eq_spec(&txids.1) <==> txids.0 == txids.1,
        hashes.0.eq_spec(&hashes.1) <==> hashes.0 == hashes.1,
        heights.0.eq_spec(&heights.1) <==> heights.0 == heights.1,
        times.0.eq_spec(&times.1) <==> times.0 == times.1,
{
    if txids.0.eq_spec(&txids.1) {
        hash_types::lemma_txid_from_bytes(txids.0, txids.1);
    }
    if hashes.0.eq_spec(&hashes.1) {
        hash_types::lemma_block_hash_from_bytes(hashes.0, hashes.1);
    }
}

/// Heights are ordered by number, and every block comes before what is unconfirmed.
pub proof fn law_height_order(a: TxHeight, b: TxHeight)
    ensures
        order::lt(a, b) <==> height_less(a, b),
        a.before(b) <==> height_less(a, b),
{
}

/// Confirmation times are ordered by height, then by time, and every block comes before what is
/// unconfirmed.
pub proof fn law_confirmation_time_order(a: ConfirmationTime, b: ConfirmationTime)
    ensures
        order::lt(a, b) <==> match (a, b) {
            (
                ConfirmationTime::Confirmed { height: h1, time: t1 },
                ConfirmationTime::Confirmed { height: h2, time: t2 },
            ) => h1 < h2 || (h1 == h2 && t1 < t2),
            (ConfirmationTime::Confirmed { .. }, ConfirmationTime::Unconfirmed) => true,
            (ConfirmationTime::Unconfirmed, _) => false,
        },
{
}

/// A height, taken as an index, is its own height, and the only index of it.
pub proof fn law_height_as_index(
    index: TxHeight,
    height: TxHeight,
    max: TxHeight,
    min: TxHeight,
)
    requires
        call_ensures(<TxHeight as ChainIndex>::height, (&index,), height),
        call_ensures(<TxHeight as ChainIndex>::max_ord_of_height, (height,), max),
        call_ensures(<TxHeight as ChainIndex>::min_ord_of_height, (height,), min),
    ensures
        height == index,
        max == index,
        min == index,
{
}

/// The height of a confirmation time is that of its block. The bounds of a block's height are its
/// last and its first possible time.
pub proof fn law_confirmation_time_as_index(
    index: ConfirmationTime,
    height: TxHeight,
    max: ConfirmationTime,
    min: ConfirmationTime,
)
    requires
        call_ensures(<ConfirmationTime as ChainIndex>::height, (&index,), height),
        call_ensures(<ConfirmationTime as ChainIndex>::max_ord_of_height, (height,), max),
        call_ensures(<ConfirmationTime as ChainIndex>::min_ord_of_height, (height,), min),
    ensures
        match index {
            ConfirmationTime::Confirmed { height: h, .. } => {
                &&& height == TxHeight::Confirmed(h)
                &&& max == (ConfirmationTime::Confirmed { height: h, time: u64::MAX })
                &&& min == (ConfirmationTime::Confirmed { height: h, time: 0 })
            },
            ConfirmationTime::Unconfirmed => {
                &&& height == TxHeight::Unconfirmed
                &&& max == ConfirmationTime::Unconfirmed
                &&& min == ConfirmationTime::Unconfirmed
            },
        },
{
}

/// A range of heights yields the checkpoints at those heights, each once, from low to high.
pub proof fn law_range_checkpoints<I: ChainIndex>(
    chain: &SparseChain<I>,
    start: Bound<u32>,
    end: Bound<u32>,
    r: Vec<BlockId>,
)
    requires
        call_ensures(SparseChain::<I>::range_checkpoints, (chain, start, end), r),
    ensures
        forall|b: BlockId| #[trigger]
            r@.contains(b) <==> {
                &&& chain@.checkpoints.contains_key(b.height)
                &&& chain@.checkpoints[b.height] == b.hash
                &&& from_start(start, |x: u32, y: u32| x < y, b.height)
                &&& to_end(end, |x: u32, y: u32| x < y, b.height)
            },
        forall|i: int, j: int|
            #![trigger r@[i], r@[j]]
            0 <= i < j < r@.len() ==> r@[i].height < r@[j].height,
{
}

/// A range of heights may be asked for unless it ends before it starts, or at a start that it
/// excludes on both sides.
pub proof fn law_range_checkpoints_admits<I: ChainIndex>(
    chain: &SparseChain<I>,
    start: Bound<u32>,
    end: Bound<u32>,
)
    requires
        match (start, end) {
            (Bound::Excluded(s), Bound::Excluded(e)) => s < e,
            (Bound::Excluded(s), Bound::Included(e)) => s <= e,
            (Bound::Included(s), Bound::Excluded(e)) => s <= e,
            (Bound::Included(s), Bound::Included(e)) => s <= e,
            _ => true,
        },
    ensures
        call_requires(SparseChain::<I>::range_checkpoints, (chain, start, end)),
{
}

/// The order of entries is that by index and then by id.
proof fn lemma_entry_order<I: ChainIndex>(a: (I, Txid), b: (I, Txid))
    ensures
        order::lt(a, b) <==> entry_less(a, b),
        order::le(a, b) <==> !entry_less(b, a),
{
    I::lemma_lawful();
    hash_types::lemma_txid_lawful();
    order::lemma_pair_lawful::<I, Txid>();
    law_txid_order(a.1, b.1);
    law_txid_order(b.1, a.1);
    order::lemma_total(a, b);
    if order::lt(a, b) {
        order::lemma_asymmetric(a, b);
    }
    if order::lt(b, a) {
        order::lemma_asymmetric(b, a);
    }
}

/// `r` holds the entries of the chain that satisfy `within`, each once, by index and then by id.
pub open spec fn lists_entries<I: PartialOrd>(
    txids: Map<Txid, I>,
    within: spec_fn((I, Txid)) -> bool,
    r: Seq<(I, Txid)>,
) -> bool {
    &&& forall|e: (I, Txid)| #[trigger]
        r.contains(e) <==> txids.contains_key(e.1) && txids[e.1] == e.0 && within(e)
    &&& forall|i: int, j: int|
        #![trigger r[i], r[j]]
        0 <= i < j < r.len() ==> entry_less(r[i], r[j])
}

/// A range of entries yields the transactions within it, by index and then by id.
pub proof fn law_range_txids<I: ChainIndex>(
    chain: &SparseChain<I>,
    start: Bound<(I, Txid)>,
    end: Bound<(I, Txid)>,
    r: &[(I, Txid)],
)
    requires
        chain.wf(),
        call_ensures(SparseChain::<I>::range_txids, (chain, start, end), r),
    ensures
        lists_entries(
            chain@.txids,
            |e: (I, Txid)|
                from_start(start, |a: (I, Txid), b: (I, Txid)| entry_less(a, b), e) && to_end(
                    end,
                    |a: (I, Txid), b: (I, Txid)| entry_less(a, b),
                    e,
                ),
            r@,
        ),
{
    assert forall|e: (I, Txid)| #[trigger] start.starts_before(e) <==> from_start(
        start,
        |a: (I, Txid), b: (I, Txid)| entry_less(a, b),
        e,
    ) by {
        match start {
            Bound::Included(s) => {
                lemma_entry_order(s, e);
            },
            Bound::Excluded(s) => {
                lemma_entry_order(s, e);
            },
            Bound::Unbounded => {},
        }
    }
    assert forall|e: (I, Txid)| #[trigger] end.ends_after(e) <==> to_end(
        end,
        |a: (I, Txid), b: (I, Txid)| entry_less(a, b),
        e,
    ) by {
        match end {
            Bound::Included(s) => {
                lemma_entry_order(e, s);
            },
            Bound::Excluded(s) => {
                lemma_entry_order(e, s);
            },
            Bound::Unbounded => {},
        }
    }
    assert forall|i: int, j: int|
        #![trigger r@[i], r@[j]]
        0 <= i < j < r@.len() implies entry_less(r@[i], r@[j]) by {
        lemma_entry_order(r@[i], r@[j]);
    }
}

/// A range of indices yields the transactions at those indices, by index and then by id.
pub proof fn law_range_txids_by_index<I: ChainIndex>(
    chain: &SparseChain<I>,
    start: Bound<I>,
    end: Bound<I>,
    r: &[(I, Txid)],
)
    requires
        chain.wf(),
        call_ensures(SparseChain::<I>::range_txids_by_index, (chain, start, end), r),
    ensures
        lists_entries(
            chain@.txids,
            |e: (I, Txid)|
                from_start(start, |a: I, b: I| order::lt(a, b), e.0) && to_end(
                    end,
                    |a: I, b: I| order::lt(a, b),
                    e.0,
                ),
            r@,
        ),
{
    I::lemma_lawful();
    assert forall|v: I| #[trigger] start.starts_before(v) <==> from_start(
        start,
        |a: I, b: I| order::lt(a, b),
        v,
    ) by {
        if let Bound::Included(s) = start {
            lemma_not_less(s, v);
        }
    }
    assert forall|v: I| #[trigger] end.ends_after(v) <==> to_end(
        end,
        |a: I, b: I| order::lt(a, b),
        v,
    ) by {
        if let Bound::Included(s) = end {
            lemma_not_less(v, s);
        }
    }
    assert forall|i: int, j: int|
        #![trigger r@[i], r@[j]]
        0 <= i < j < r@.len() implies entry_less(r@[i], r@[j]) by {
        lemma_entry_order(r@[i], r@[j]);
    }
}

/// What is not less is equal or greater.
proof fn lemma_not_less<T: PartialOrd>(a: T, b: T)
    requires
        order::lawful::<T>(),
    ensures
        order::le(a, b) <==> !order::lt(b, a),
{
    order::lemma_total(a, b);
    if order::lt(a, b) {
        order::lemma_asymmetric(a, b);
    }
    if order::lt(b, a) {
        order::lemma_asymmetric(b, a);
    }
}

/// A range of heights yields the transactions at those heights, by index and then by id.
pub proof fn law_range_txids_by_height<I: ChainIndex>(
    chain: &SparseChain<I>,
    start: Bound<TxHeight>,
    end: Bound<TxHeight>,
    r: &[(I, Txid)],
)
    requires
        chain.wf(),
        call_ensures(SparseChain::<I>::range_txids_by_height, (chain, start, end), r),
    ensures
        lists_entries(
            chain@.txids,
            |e: (I, Txid)|
                from_start(
                    start,
                    |a: TxHeight, b: TxHeight| height_less(a, b),
                    e.0.height_of(),
                ) && to_end(
                    end,
                    |a: TxHeight, b: TxHeight| height_less(a, b),
                    e.0.height_of(),
                ),
            r@,
        ),
{
    assert forall|i: int, j: int|
        #![trigger r@[i], r@[j]]
        0 <= i < j < r@.len() implies entry_less(r@[i], r@[j]) by {
        lemma_entry_order(r@[i], r@[j]);
    }
}

/// A range of transaction heights may be asked for unless it ends before it starts, or at a start
/// that it excludes on both sides.
pub proof fn law_range_txids_by_height_admits<I: ChainIndex>(
    chain: &SparseChain<I>,
    start: Bound<TxHeight>,
    end: Bound<TxHeight>,
)
    requires
        chain.wf(),
        match (start, end) {
            (Bound::Excluded(s), Bound::Excluded(e)) => height_less(s, e),
            (Bound::Excluded(s), Bound::Included(e)) => !height_less(e, s),
            (Bound::Included(s), Bound::Excluded(e)) => !height_less(e, s),
            (Bound::Included(s), Bound::Included(e)) => !height_less(e, s),
            _ => true,
        },
    ensures
        call_requires(SparseChain::<I>::range_txids_by_height, (chain, start, end)),
{
}

/// Iterating yields every transaction, by index and then by id: what the range without endpoints
/// yields.
pub proof fn law_iter_txids<I: ChainIndex>(
    chain: &SparseChain<I>,
    r: &[(I, Txid)],
    range: &[(I, Txid)],
)
    requires
        chain.wf(),
        call_ensures(SparseChain::<I>::iter_txids, (chain,), r),
        call_ensures(
            SparseChain::<I>::range_txids,
            (chain, Bound::Unbounded::<(I, Txid)>, Bound::Unbounded::<(I, Txid)>),
            range,
        ),
    ensures
        lists_entries(chain@.txids, |e: (I, Txid)| true, r@),
        r@ == range@,
{
    I::lemma_lawful();
    hash_types::lemma_txid_lawful();
    order::lemma_pair_lawful::<I, Txid>();
    assert forall|i: int, j: int|
        #![trigger r@[i], r@[j]]
        0 <= i < j < r@.len() implies entry_less(r@[i], r@[j]) by {
        lemma_entry_order(r@[i], r@[j]);
    }
    assert forall|e: (I, Txid)| #[trigger] r@.contains(e) <==> range@.contains(e) by {}
    laws::law_sorted_determined(r@, range@);
}

/// The spender of an output is a transaction of the chain that the graph has as one. There is none
/// just if no such transaction is in the chain.
pub proof fn law_spent_by<I: ChainIndex>(
    chain: &SparseChain<I>,
    graph: &TxGraph,
    outpoint: OutPoint,
    r: Option<(&I, Txid)>,
)
    requires
        chain.wf(),
        call_ensures(SparseChain::<I>::spent_by, (chain, graph, outpoint), r),
    ensures
        r is Some <==> exists|t: Txid| #[trigger]
            chain@.txids.contains_key(t) && graph@.spends.contains((outpoint, t)),
        r matches Some((index, t)) ==> {
            &&& graph@.spends.contains((outpoint, t))
            &&& chain@.txids.contains_key(t)
            &&& chain@.txids[t] == *index
        },
{
    if r is None {
        assert forall|t: Txid| !(#[trigger] chain@.txids.contains_key(t) && graph@.spends.contains(
            (outpoint, t),
        )) by {
            assert(!chain@.spends(graph@, outpoint, t));
        }
    }
    if let Some((_, t)) = r {
        assert(chain@.spends(graph@, outpoint, t));
        assert(chain@.txids.contains_key(t));
    }
}

/// The full output is there just if the chain has its transaction and the graph has the output. It
/// is that output, at the index of its transaction, with the spender that is found for it.
pub proof fn law_full_txout<I: ChainIndex>(
    chain: &SparseChain<I>,
    graph: &TxGraph,
    outpoint: OutPoint,
    spent_by: Option<(&I, Txid)>,
    r: Option<FullTxOut<I>>,
)
    requires
        chain.wf(),
        graph.wf(),
        call_ensures(SparseChain::<I>::spent_by, (chain, graph, outpoint), spent_by),
        call_ensures(SparseChain::<I>::full_txout, (chain, graph, outpoint), r),
    ensures
        r is Some <==> chain@.txids.contains_key(outpoint.txid) && graph@.txouts.contains_key(
            outpoint,
        ),
        r matches Some(full) ==> {
            &&& full.outpoint == outpoint
            &&& full.txout.value == graph@.txouts[outpoint].value
            &&& full.txout.script_pubkey@ == graph@.txouts[outpoint].script_pubkey
            &&& full.chain_index == chain@.txids[outpoint.txid]
            &&& match spent_by {
                Some((index, t)) => full.spent_by == Some((*index, t)),
                None => full.spent_by is None,
            }
        },
{
}

/// Merging keeps every change of both; where both change the same thing, the newer change counts.
pub proof fn law_merge<I: ChainIndex>(
    older: ChangeSet<I>,
    newer: ChangeSet<I>,
    merged: ChangeSet<I>,
    h: u32,
    t: Txid,
)
    requires
        older.wf(),
        newer.wf(),
        call_ensures(ChangeSet::<I>::merge, (older, newer), merged),
    ensures
        merged@.checkpoints.contains_key(h) <==> older@.checkpoints.contains_key(h)
            || newer@.checkpoints.contains_key(h),
        newer@.checkpoints.contains_key(h) ==> merged@.checkpoints[h] == newer@.checkpoints[h],
        older@.checkpoints.contains_key(h) && !newer@.checkpoints.contains_key(h)
            ==> merged@.checkpoints[h] == older@.checkpoints[h],
        merged@.txids.contains_key(t) <==> older@.txids.contains_key(t)
            || newer@.txids.contains_key(t),
        newer@.txids.contains_key(t) ==> merged@.txids[t] == newer@.txids[t],
        older@.txids.contains_key(t) && !newer@.txids.contains_key(t) ==> merged@.txids[t]
            == older@.txids[t],
{
}

/// A set of changes is empty just if it changes no checkpoint and no transaction, as the default
/// one does.
pub proof fn law_is_empty<I>(changeset: &ChangeSet<I>, r: bool, none: ChangeSet<I>)
    requires
        changeset.wf(),
        call_ensures(ChangeSet::<I>::is_empty, (changeset,), r),
        call_ensures(<ChangeSet<I> as Default>::default, (), none),
    ensures
        r <==> (forall|h: u32| !#[trigger] changeset@.checkpoints.contains_key(h)) && (forall|
            t: Txid,
        | !#[trigger] changeset@.txids.contains_key(t)),
        forall|h: u32| !#[trigger] none@.checkpoints.contains_key(h),
        forall|t: Txid| !#[trigger] none@.txids.contains_key(t),
{
    if (forall|h: u32| !#[trigger] changeset@.checkpoints.contains_key(h)) && (forall|t: Txid|
        !#[trigger] changeset@.txids.contains_key(t)) {
        assert(changeset@.checkpoints =~= Map::empty());
        assert(changeset@.txids =~= Map::empty());
    }
}

/// The additions of a set of changes are the transactions that it gives an index, each once, in the
/// order of their bytes.
pub proof fn law_tx_additions<I>(changeset: &ChangeSet<I>, r: Vec<Txid>)
    requires
        changeset.wf(),
        call_ensures(ChangeSet::<I>::tx_additions, (changeset,), r),
    ensures
        forall|t: Txid| #[trigger]
            r@.contains(t) <==> changeset@.txids.contains_key(t) && changeset@.txids[t] is Some,
        forall|i: int, j: int|
            #![trigger r@[i], r@[j]]
            0 <= i < j < r@.len() ==> txid_less(r@[i], r@[j]),
{
    assert forall|i: int, j: int| #![trigger r@[i], r@[j]] 0 <= i < j < r@.len() implies txid_less(
        r@[i],
        r@[j],
    ) by {
        law_txid_order(r@[i], r@[j]);
    }
}

/// The entries of a map are each of its entries once, in the order of the ids' bytes.
pub proof fn law_entries<V>(m: &TxidMap<V>, r: &[(Txid, V)])
    requires
        m.wf(),
        call_ensures(TxidMap::<V>::entries, (m,), r),
    ensures
        forall|e: (Txid, V)| #[trigger]
            r@.contains(e) <==> m@.contains_key(e.0) && m@[e.0] == e.1,
        forall|i: int, j: int|
            #![trigger r@[i], r@[j]]
            0 <= i < j < r@.len() ==> txid_less(r@[i].0, r@[j].0),
{
    assert forall|i: int, j: int| #![trigger r@[i], r@[j]] 0 <= i < j < r@.len() implies txid_less(
        r@[i].0,
        r@[j].0,
    ) by {
        law_txid_order(r@[i].0, r@[j].0);
    }
    assert forall|e: (Txid, V)|
        m@.contains_key(e.0) && m@[e.0] == e.1 implies #[trigger] r@.contains(e) by {
        let i = choose|i: int| 0 <= i < r@.len() && (#[trigger] r@[i]).0 == e.0;
        assert(r@[i] == e);
    }
}

/// The heights of a map are listed from low to high. The last one is the greatest, and the first one
/// from a bound is the least that is not below it.
pub proof fn law_heights<V>(
    m: &BTreeMap<u32, V>,
    lb: u32,
    listed: Vec<u32>,
    last: Option<u32>,
    first: Option<u32>,
)
    requires
        call_ensures(heights::heights::<V>, (m,), listed),
        call_ensures(heights::last_height::<V>, (m,), last),
        call_ensures(heights::first_height_from::<V>, (m, lb), first),
    ensures
        forall|k: u32| #[trigger] listed@.contains(k) <==> m@.contains_key(k),
        forall|i: int, j: int|
            #![trigger listed@[i], listed@[j]]
            0 <= i < j < listed@.len() ==> listed@[i] < listed@[j],
        match last {
            Some(h) => m@.contains_key(h) && forall|k: u32| #[trigger] m@.contains_key(k) ==> k <= h,
            None => forall|k: u32| !#[trigger] m@.contains_key(k),
        },
        match first {
            Some(h) => m@.contains_key(h) && lb <= h && forall|k: u32| #[trigger]
                m@.contains_key(k) && lb <= k ==> h <= k,
            None => forall|k: u32| #[trigger] m@.contains_key(k) ==> k < lb,
        },
{
    model::lemma_highest_meaning(m@.dom());
    assert forall|k: u32| #[trigger] m@.contains_key(k) <==> m@.dom().contains(k) by {}
    let from = m@.dom().filter(|h: u32| h >= lb);
    model::lemma_lowest_meaning(from);
    assert forall|k: u32| #[trigger] m@.contains_key(k) && lb <= k <==> from.contains(k) by {}
}

/// The number that decimal digits stand for.
pub open spec fn number_of(digits: Seq<char>) -> int
    decreases digits.len(),
{
    if digits.len() == 0 {
        0
    } else {
        10 * number_of(digits.drop_last()) + (digits.last() as int - '0' as int)
    }
}

/// At least one decimal digit, and no zero in front of others.
pub open spec fn is_numeral(digits: Seq<char>) -> bool {
    &&& digits.len() > 0
    &&& forall|i: int| 0 <= i < digits.len() ==> '0' <= #[trigger] digits[i] <= '9'
    &&& digits[0] == '0' ==> digits.len() == 1
}

/// A numeral that does not start with a zero stands for more than zero.
proof fn lemma_numeral_positive(digits: Seq<char>)
    requires
        is_numeral(digits),
        digits[0] != '0',
    ensures
        number_of(digits) > 0,
    decreases digits.len(),
{
    assert('0' <= digits[digits.len() - 1] <= '9');
    if digits.len() > 1 {
        let shorter = digits.drop_last();
        assert forall|i: int| 0 <= i < shorter.len() implies '0' <= #[trigger] shorter[i]
            <= '9' by {
            assert(shorter[i] == digits[i]);
        }
        lemma_numeral_positive(shorter);
    } else {
        assert(digits.drop_last() =~= Seq::empty());
        assert(number_of(digits.drop_last()) == 0);
    }
}

/// A number has one numeral, and it is the one in the messages.
proof fn lemma_numeral(digits: Seq<char>, n: nat)
    requires
        is_numeral(digits),
        number_of(digits) == n,
    ensures
        digits == error::decimal(n),
    decreases digits.len(),
{
    let last = digits.last();
    assert('0' <= digits[digits.len() - 1] <= '9');
    let shorter = digits.drop_last();
    if digits.len() == 1 {
        assert(shorter =~= Seq::empty());
        assert(number_of(shorter) == 0);
        assert(digits =~= seq![last]);
    } else {
        assert forall|i: int| 0 <= i < shorter.len() implies '0' <= #[trigger] shorter[i]
            <= '9' by {
            assert(shorter[i] == digits[i]);
        }
        lemma_numeral_positive(shorter);
        lemma_numeral(shorter, (n / 10) as nat);
        assert(digits =~= shorter.push(last));
    }
}

/// The message of a failure to connect names the height in decimal.
pub proof fn law_not_connected_message<I: core::fmt::Debug>(
    failure: &UpdateFailure<I>,
    height: u32,
    digits: Seq<char>,
    text: String,
)
    requires
        *failure == UpdateFailure::<I>::NotConnected(height),
        is_numeral(digits),
        number_of(digits) == height,
        call_ensures(UpdateFailure::<I>::to_string, (failure,), text),
    ensures
        text@
            == "the checkpoints in the update could not be connected to the checkpoints in the chain, try include checkpoint of height "@
            + digits + " to connect"@,
{
    lemma_numeral(digits, height as nat);
}

/// The number that a lower-case hexadecimal digit stands for.
pub open spec fn hex_value(c: char) -> int {
    if '0' <= c <= '9' {
        c as int - '0' as int
    } else {
        c as int - 'a' as int + 10
    }
}

/// `hex` holds the bytes of a transaction id in lower-case hexadecimal, the last byte first.
pub open spec fn is_hex_of(hex: Seq<char>, txid: Txid) -> bool {
    &&& hex.len() == 64
    &&& forall|i: int|
        0 <= i < 64 ==> '0' <= #[trigger] hex[i] <= '9' || 'a' <= hex[i] <= 'f'
    &&& forall|i: int|
        0 <= i < 32 ==> 16 * hex_value(hex[2 * i]) + hex_value(hex[2 * i + 1])
            == #[trigger] txid.0[31 - i]
}

/// An id has one hexadecimal form, and it is the one in the messages.
proof fn lemma_hex(hex: Seq<char>, txid: Txid)
    requires
        is_hex_of(hex, txid),
    ensures
        hex == hash_types::reversed_hex(txid@),
{
    let other = hash_types::reversed_hex(txid@);
    assert forall|i: int| 0 <= i < 64 implies hex[i] == other[i] by {
        let k = i / 2;
        let byte = txid.0[31 - k];
        assert(16 * hex_value(hex[2 * k]) + hex_value(hex[2 * k + 1]) == byte);
        assert('0' <= hex[2 * k] <= '9' || 'a' <= hex[2 * k] <= 'f');
        assert('0' <= hex[2 * k + 1] <= '9' || 'a' <= hex[2 * k + 1] <= 'f');
        assert(txid@[32 - 1 - i / 2] == byte);
        assert(hex_value(hex[2 * k]) == byte as int / 16);
        assert(hex_value(hex[2 * k + 1]) == byte as int % 16);
        assert(hash_types::hex_digit(hex_value(hex[i])) == hex[i]);
    }
    assert(hex =~= other);
}

/// The message of an inconsistency names the transaction in hexadecimal, its index in the chain, and
/// then its index in the update, each as the index formats itself.
pub proof fn law_inconsistent_message<I: core::fmt::Debug>(
    failure: &UpdateFailure<I>,
    txid: Txid,
    original_index: I,
    update_index: I,
    hex: Seq<char>,
    text: String,
)
    requires
        *failure == (UpdateFailure::<I>::InconsistentTx {
            inconsistent_txid: txid,
            original_index,
            update_index,
        }),
        is_hex_of(hex, txid),
        call_ensures(UpdateFailure::<I>::to_string, (failure,), text),
    ensures
        exists|original: Seq<char>, update: Seq<char>|
            {
                &&& #[trigger] error::debug_text(original_index, original)
                &&& #[trigger] error::debug_text(update_index, update)
                &&& text@ == "inconsistent update: first inconsistent tx is ("@ + hex
                    + ") which had index ("@ + original + "), but is ("@ + update
                    + ") in the update"@
            },
{
    lemma_hex(hex, txid);
    let (original, update) = choose|original: Seq<char>, update: Seq<char>|
        {
            &&& text@ == #[trigger] error::inconsistent_text(txid, original, update)
            &&& error::debug_text(original_index, original)
            &&& error::debug_text(update_index, update)
        };
    assert(error::debug_text(original_index, original));
    assert(error::debug_text(update_index, update));
}

/// The messages of refused insertions are the names of the refusals.
pub proof fn law_insertion_messages(
    tx: &InsertTxErr,
    checkpoint: &InsertCheckpointErr,
    tx_text: String,
    checkpoint_text: String,
)
    requires
        call_ensures(InsertTxErr::to_string, (tx,), tx_text),
        call_ensures(InsertCheckpointErr::to_string, (checkpoint,), checkpoint_text),
    ensures
        *tx == InsertTxErr::TxTooHigh ==> tx_text@ == "TxTooHigh"@,
        *tx == InsertTxErr::TxMoved ==> tx_text@ == "TxMoved"@,
        *checkpoint == InsertCheckpointErr::HashNotMatching ==> checkpoint_text@
            == "HashNotMatching"@,
{
}

} // verus!
