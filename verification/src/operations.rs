//! What each operation does, as a relation between what it is given and what comes of it.
//!
//! A law here speaks of a call: `call_ensures` holds of a function, the arguments of a call and
//! what the call may return. The rest of each statement is in terms of block heights, hashes,
//! transaction ids and indices alone.

use crate::chain_data::BlockId;
use crate::chain_data::TxHeight;
use crate::chain_index::ChainIndex;
use crate::change_set::ChangeSet;
use crate::error::InsertCheckpointErr;
use crate::error::InsertTxErr;
use crate::error::UpdateFailure;
use crate::hash_types::BlockHash;
use crate::hash_types::Txid;
use crate::laws;
use crate::model;
use crate::sparse_chain::SparseChain;
use vstd::prelude::*;

verus! {

/// Both have the same block at height `h`.
pub open spec fn shared(a: Map<u32, BlockHash>, b: Map<u32, BlockHash>, h: u32) -> bool {
    a.contains_key(h) && b.contains_key(h) && a[h] == b[h]
}

/// `h` is above every block that both have.
pub open spec fn beyond(a: Map<u32, BlockHash>, b: Map<u32, BlockHash>, h: u32) -> bool {
    forall|k: u32| #[trigger] shared(a, b, k) ==> k < h
}

/// `kept` is what a limit leaves of `all`: as many of the highest entries as it allows.
pub open spec fn keeps_highest<V>(
    all: Map<u32, V>,
    limit: Option<usize>,
    kept: Map<u32, V>,
) -> bool {
    match limit {
        None => kept == all,
        Some(n) => {
            &&& forall|h: u32| #[trigger]
                kept.contains_key(h) ==> all.contains_key(h) && kept[h] == all[h]
            &&& forall|h: u32, k: u32| #[trigger]
                kept.contains_key(h) && #[trigger] all.contains_key(k) && !kept.contains_key(k)
                    ==> k < h
            &&& kept.dom().finite() && kept.len() == if all.len() <= n {
                all.len()
            } else {
                n as nat
            }
        },
    }
}

/// `all` is `m` with each of the changes made, be it a new value or a removal.
pub open spec fn changed<K, V>(m: Map<K, V>, changes: Map<K, Option<V>>, all: Map<K, V>) -> bool {
    forall|k: K| #[trigger]
        all.get(k) == if changes.contains_key(k) {
            changes[k]
        } else {
            m.get(k)
        }
}

/// Pruning keeps the highest.
proof fn lemma_prune<V>(m: Map<u32, V>, limit: Option<usize>)
    requires
        m.dom().finite(),
    ensures
        keeps_highest(m, limit, model::prune(m, limit)),
{
    if let Some(n) = limit {
        laws::law_limit_keeps_the_highest(m, n);
        model::lemma_prune_len(m, limit);
    }
}

/// What changes make of a map is determined.
proof fn lemma_changed<K, V>(m: Map<K, V>, changes: Map<K, Option<V>>, all: Map<K, V>)
    requires
        changed(m, changes, all),
    ensures
        all == model::overlay(m, changes),
{
    let other = model::overlay(m, changes);
    assert forall|k: K| #[trigger] all.contains_key(k) <==> other.contains_key(k) by {
        assert(all.get(k) is Some <==> all.contains_key(k));
    }
    assert forall|k: K| #[trigger] all.contains_key(k) implies all[k] == other[k] by {
        assert(all.get(k) == Some(all[k]));
    }
    assert(all =~= other);
}

/// Where an update goes past the shared blocks, its reach begins right above them.
proof fn lemma_past<I: ChainIndex>(chain: SparseChain<I>, update: SparseChain<I>, past: u32)
    requires
        update@.checkpoints.contains_key(past),
        beyond(chain@.checkpoints, update@.checkpoints, past),
    ensures
        forall|h: u32| #[trigger]
            beyond(chain@.checkpoints, update@.checkpoints, h) <==> chain@.invalid_lb(update@) <= h,
        match chain@.invalid_from(update@) {
            Some(from) => model::is_lowest(
                chain@.checkpoints_from(chain@.invalid_lb(update@)),
                from,
            ),
            None => forall|k: u32| #[trigger]
                chain@.checkpoints.contains_key(k) ==> k < chain@.invalid_lb(update@),
        },
{
    let (c, u) = (chain@, update@);
    laws::lemma_agreement(c, u);
    assert(u.checkpoints.dom().contains(past));
    assert forall|k: u32| #[trigger] shared(c.checkpoints, u.checkpoints, k) <==> c.agreed(
        u,
    ).contains(k) by {}
    let top = u.tip()->0;
    assert(u.tip() is Some && past <= top);
    if let Some(a) = c.agreement_point(u) {
        assert(c.agreed(u).contains(a));
        assert(shared(c.checkpoints, u.checkpoints, a));
    }
    assert forall|h: u32| #[trigger] beyond(c.checkpoints, u.checkpoints, h) <==> c.invalid_lb(u)
        <= h by {
        if let Some(a) = c.agreement_point(u) {
            if beyond(c.checkpoints, u.checkpoints, h) {
                assert(a < h);
            }
        }
    }
    if c.invalid_from(u) is None {
        assert forall|k: u32| #[trigger] c.checkpoints.contains_key(k) implies k < c.invalid_lb(
            u,
        ) by {
            assert(!c.checkpoints_from(c.invalid_lb(u)).contains(k));
        }
    }
}

/// Where an update does not go past the shared blocks, it reaches nothing below the greatest height.
proof fn lemma_not_past<I: ChainIndex>(chain: SparseChain<I>, update: SparseChain<I>)
    requires
        forall|k: u32| #[trigger]
            update@.checkpoints.contains_key(k) ==> !beyond(
                chain@.checkpoints,
                update@.checkpoints,
                k,
            ),
    ensures
        chain@.invalid_lb(update@) == u32::MAX,
        chain@.invalid_from(update@) == if chain@.checkpoints.contains_key(u32::MAX) {
            Some(u32::MAX)
        } else {
            None
        },
{
    let (c, u) = (chain@, update@);
    laws::lemma_agreement(c, u);
    assert forall|k: u32| #[trigger] shared(c.checkpoints, u.checkpoints, k) <==> c.agreed(
        u,
    ).contains(k) by {}
    if let Some(top) = u.tip() {
        assert(u.checkpoints.dom().contains(top));
        assert(!beyond(c.checkpoints, u.checkpoints, top));
        let k = choose|k: u32| #[trigger] shared(c.checkpoints, u.checkpoints, k) && !(k < top);
        assert(u.checkpoints.dom().contains(k));
        assert(c.agreed(u).contains(top));
    }
    if c.checkpoints.contains_key(u32::MAX) {
        assert(c.checkpoints_from(u32::MAX).contains(u32::MAX));
    }
}

/// An update that goes past the shared blocks is refused as not connected at height `h` just if `h`
/// is the lowest checkpoint of the chain above the shared blocks, and the update has none there.
pub proof fn law_update_fails_to_connect<I: ChainIndex>(
    chain: &SparseChain<I>,
    update: &SparseChain<I>,
    past: u32,
    h: u32,
    r: Result<ChangeSet<I>, UpdateFailure<I>>,
)
    requires
        chain.wf(),
        update.wf(),
        update@.checkpoints.contains_key(past),
        beyond(chain@.checkpoints, update@.checkpoints, past),
        call_ensures(SparseChain::<I>::determine_changeset, (chain, update), r),
    ensures
        r == Err::<ChangeSet<I>, UpdateFailure<I>>(UpdateFailure::NotConnected(h)) <==> {
            &&& chain@.checkpoints.contains_key(h)
            &&& beyond(chain@.checkpoints, update@.checkpoints, h)
            &&& forall|k: u32| #[trigger]
                chain@.checkpoints.contains_key(k) && k < h ==> !beyond(
                    chain@.checkpoints,
                    update@.checkpoints,
                    k,
                )
            &&& !update@.checkpoints.contains_key(h)
        },
{
    lemma_past(*chain, *update, past);
    let lb = chain@.invalid_lb(update@);
    if let Some(from) = chain@.invalid_from(update@) {
        assert(chain@.checkpoints_from(lb).contains(from));
        if chain@.checkpoints.contains_key(h) && lb <= h {
            assert(chain@.checkpoints_from(lb).contains(h));
            if from < h {
                assert(chain@.checkpoints.contains_key(from));
                assert(beyond(chain@.checkpoints, update@.checkpoints, from));
            }
        }
        assert forall|k: u32| #[trigger] chain@.checkpoints.contains_key(k) && k < from implies !beyond(
            chain@.checkpoints,
            update@.checkpoints,
            k,
        ) by {
            if lb <= k {
                assert(chain@.checkpoints_from(lb).contains(k));
            }
        }
    }
}

/// An update that does not go past the shared blocks connects, but for one case: the chain has a
/// checkpoint at the greatest height there is, and the update has none there.
pub proof fn law_agreeing_update_fails_to_connect<I: ChainIndex>(
    chain: &SparseChain<I>,
    update: &SparseChain<I>,
    h: u32,
    r: Result<ChangeSet<I>, UpdateFailure<I>>,
)
    requires
        chain.wf(),
        update.wf(),
        forall|k: u32| #[trigger]
            update@.checkpoints.contains_key(k) ==> !beyond(
                chain@.checkpoints,
                update@.checkpoints,
                k,
            ),
        call_ensures(SparseChain::<I>::determine_changeset, (chain, update), r),
    ensures
        r == Err::<ChangeSet<I>, UpdateFailure<I>>(UpdateFailure::NotConnected(h)) <==> h
            == u32::MAX && chain@.checkpoints.contains_key(h) && !update@.checkpoints.contains_key(
            h,
        ),
{
    lemma_not_past(*chain, *update);
}

/// The update places a transaction elsewhere than the chain does.
pub open spec fn moves<I>(chain: Map<Txid, I>, update: Map<Txid, I>, t: Txid) -> bool {
    chain.contains_key(t) && update.contains_key(t) && chain[t] != update[t]
}

/// An update that goes past the shared blocks and connects is refused just if it moves a
/// transaction that the chain has confirmed no higher than some shared block. It names such a
/// transaction, with its index in both.
///
/// So it may always confirm an unconfirmed transaction, and move one above the shared blocks.
pub proof fn law_update_is_inconsistent<I: ChainIndex>(
    chain: &SparseChain<I>,
    update: &SparseChain<I>,
    past: u32,
    r: Result<ChangeSet<I>, UpdateFailure<I>>,
)
    requires
        chain.wf(),
        update.wf(),
        update@.checkpoints.contains_key(past),
        beyond(chain@.checkpoints, update@.checkpoints, past),
        call_ensures(SparseChain::<I>::determine_changeset, (chain, update), r),
        !(r matches Err(UpdateFailure::NotConnected(_))),
    ensures
        r is Ok <==> forall|t: Txid| #[trigger]
            moves(chain@.txids, update@.txids, t) ==> match chain@.txids[t].height_of() {
                TxHeight::Confirmed(h) => beyond(chain@.checkpoints, update@.checkpoints, h),
                TxHeight::Unconfirmed => true,
            },
        r matches Err(
            UpdateFailure::InconsistentTx { inconsistent_txid, original_index, update_index },
        ) ==> {
            &&& moves(chain@.txids, update@.txids, inconsistent_txid)
            &&& original_index == chain@.txids[inconsistent_txid]
            &&& update_index == update@.txids[inconsistent_txid]
            &&& original_index.height_of() matches TxHeight::Confirmed(h) && !beyond(
                chain@.checkpoints,
                update@.checkpoints,
                h,
            )
        },
{
    lemma_past(*chain, *update, past);
    assert forall|t: Txid| chain@.inconsistent(update@, t) <==> #[trigger] moves(
        chain@.txids,
        update@.txids,
        t,
    ) && (chain@.txids[t].height_of() matches TxHeight::Confirmed(h) && !beyond(
        chain@.checkpoints,
        update@.checkpoints,
        h,
    )) by {
        if let TxHeight::Confirmed(h) = chain@.txids[t].height_of() {
            assert(beyond(chain@.checkpoints, update@.checkpoints, h) <==> chain@.invalid_lb(
                update@,
            ) <= h);
        }
    }
    if let Err(UpdateFailure::InconsistentTx { inconsistent_txid, .. }) = r {
        assert(chain@.inconsistent(update@, inconsistent_txid));
        assert(moves(chain@.txids, update@.txids, inconsistent_txid));
    } else {
        assert forall|t: Txid| #[trigger] moves(chain@.txids, update@.txids, t) implies (
        match chain@.txids[t].height_of() {
            TxHeight::Confirmed(h) => beyond(chain@.checkpoints, update@.checkpoints, h),
            TxHeight::Unconfirmed => true,
        }) by {
            assert(!chain@.inconsistent(update@, t));
        }
    }
}

/// An update that does not go past the shared blocks and connects is refused just if it moves a
/// transaction that the chain has confirmed (below the greatest height there is). It names such a
/// transaction, with its index in both.
pub proof fn law_agreeing_update_is_inconsistent<I: ChainIndex>(
    chain: &SparseChain<I>,
    update: &SparseChain<I>,
    r: Result<ChangeSet<I>, UpdateFailure<I>>,
)
    requires
        chain.wf(),
        update.wf(),
        forall|k: u32| #[trigger]
            update@.checkpoints.contains_key(k) ==> !beyond(
                chain@.checkpoints,
                update@.checkpoints,
                k,
            ),
        call_ensures(SparseChain::<I>::determine_changeset, (chain, update), r),
        !(r matches Err(UpdateFailure::NotConnected(_))),
    ensures
        r is Ok <==> forall|t: Txid| #[trigger]
            moves(chain@.txids, update@.txids, t) ==> match chain@.txids[t].height_of() {
                TxHeight::Confirmed(h) => h == u32::MAX,
                TxHeight::Unconfirmed => true,
            },
        r matches Err(
            UpdateFailure::InconsistentTx { inconsistent_txid, original_index, update_index },
        ) ==> {
            &&& moves(chain@.txids, update@.txids, inconsistent_txid)
            &&& original_index == chain@.txids[inconsistent_txid]
            &&& update_index == update@.txids[inconsistent_txid]
            &&& original_index.height_of() matches TxHeight::Confirmed(h) && h < u32::MAX
        },
{
    lemma_not_past(*chain, *update);
    if let Err(UpdateFailure::InconsistentTx { inconsistent_txid, .. }) = r {
        assert(chain@.inconsistent(update@, inconsistent_txid));
        assert(moves(chain@.txids, update@.txids, inconsistent_txid));
    } else {
        assert forall|t: Txid| #[trigger] moves(chain@.txids, update@.txids, t) implies (
        match chain@.txids[t].height_of() {
            TxHeight::Confirmed(h) => h == u32::MAX,
            TxHeight::Unconfirmed => true,
        }) by {
            assert(!chain@.inconsistent(update@, t));
        }
    }
}

/// The checkpoint changes of an accepted update. Where the update has a block, it is the change,
/// unless the chain has it too. Elsewhere the checkpoints above the shared blocks go if the update
/// goes past those, and nothing else changes.
pub proof fn law_checkpoint_changes<I: ChainIndex>(
    chain: &SparseChain<I>,
    update: &SparseChain<I>,
    changeset: ChangeSet<I>,
    h: u32,
)
    requires
        chain.wf(),
        update.wf(),
        call_ensures(
            SparseChain::<I>::determine_changeset,
            (chain, update),
            Ok::<ChangeSet<I>, UpdateFailure<I>>(changeset),
        ),
    ensures
        update@.checkpoints.contains_key(h) && shared(chain@.checkpoints, update@.checkpoints, h)
            ==> !changeset@.checkpoints.contains_key(h),
        update@.checkpoints.contains_key(h) && !shared(chain@.checkpoints, update@.checkpoints, h)
            ==> changeset@.checkpoints.contains_key(h) && changeset@.checkpoints[h] == Some(
            update@.checkpoints[h],
        ),
        !update@.checkpoints.contains_key(h) ==> (changeset@.checkpoints.contains_key(h) <==> {
            &&& chain@.checkpoints.contains_key(h)
            &&& beyond(chain@.checkpoints, update@.checkpoints, h)
            &&& exists|past: u32| #[trigger]
                update@.checkpoints.contains_key(past) && beyond(
                    chain@.checkpoints,
                    update@.checkpoints,
                    past,
                )
        }),
        !update@.checkpoints.contains_key(h) && changeset@.checkpoints.contains_key(h)
            ==> changeset@.checkpoints[h] is None,
{
    let (c, u) = (chain@, update@);
    if !u.checkpoints.contains_key(h) {
        if exists|past: u32| #[trigger]
            u.checkpoints.contains_key(past) && beyond(c.checkpoints, u.checkpoints, past) {
            let past = choose|past: u32| #[trigger]
                u.checkpoints.contains_key(past) && beyond(c.checkpoints, u.checkpoints, past);
            lemma_past(*chain, *update, past);
            if c.checkpoints.contains_key(h) && beyond(c.checkpoints, u.checkpoints, h) {
                assert(c.checkpoints_from(c.invalid_lb(u)).contains(h));
            }
            if let Some(from) = c.invalid_from(u) {
                assert(c.checkpoints_from(c.invalid_lb(u)).contains(from));
                assert(h >= from ==> beyond(c.checkpoints, u.checkpoints, h));
            }
        } else {
            lemma_not_past(*chain, *update);
        }
    }
}

/// The transaction changes of an accepted update that goes past the shared blocks. Where the update
/// has the transaction, its index there is the change, unless the chain has the same. Elsewhere a
/// transaction becomes unconfirmed if the chain has a checkpoint above the shared blocks that is
/// not above the transaction, and nothing else changes.
pub proof fn law_tx_changes<I: ChainIndex>(
    chain: &SparseChain<I>,
    update: &SparseChain<I>,
    past: u32,
    changeset: ChangeSet<I>,
    t: Txid,
)
    requires
        chain.wf(),
        update.wf(),
        update@.checkpoints.contains_key(past),
        beyond(chain@.checkpoints, update@.checkpoints, past),
        call_ensures(
            SparseChain::<I>::determine_changeset,
            (chain, update),
            Ok::<ChangeSet<I>, UpdateFailure<I>>(changeset),
        ),
    ensures
        update@.txids.contains_key(t) ==> (changeset@.txids.contains_key(t) <==> !(
        chain@.txids.contains_key(t) && chain@.txids[t] == update@.txids[t])),
        update@.txids.contains_key(t) && changeset@.txids.contains_key(t) ==> changeset@.txids[t]
            == Some(update@.txids[t]),
        !update@.txids.contains_key(t) ==> (changeset@.txids.contains_key(t) <==> {
            &&& chain@.txids.contains_key(t)
            &&& exists|k: u32| #[trigger]
                chain@.checkpoints.contains_key(k) && beyond(
                    chain@.checkpoints,
                    update@.checkpoints,
                    k,
                ) && (chain@.txids[t].height_of() matches TxHeight::Confirmed(h) ==> k <= h)
        }),
        !update@.txids.contains_key(t) && changeset@.txids.contains_key(t)
            ==> changeset@.txids[t] == Some(I::max_of(TxHeight::Unconfirmed)) && I::max_of(
            TxHeight::Unconfirmed,
        ).height_of() is Unconfirmed,
{
    let (c, u) = (chain@, update@);
    I::lemma_bounds_height(TxHeight::Unconfirmed);
    lemma_past(*chain, *update, past);
    let lb = c.invalid_lb(u);
    if !u.txids.contains_key(t) {
        if changeset@.txids.contains_key(t) {
            let from = c.invalid_from(u)->0;
            assert(c.checkpoints_from(lb).contains(from));
            assert(c.checkpoints.contains_key(from));
            assert(beyond(c.checkpoints, u.checkpoints, from));
        }
        if c.txids.contains_key(t) && exists|k: u32| #[trigger]
            c.checkpoints.contains_key(k) && beyond(c.checkpoints, u.checkpoints, k) && (
            c.txids[t].height_of() matches TxHeight::Confirmed(h) ==> k <= h) {
            let k = choose|k: u32| #[trigger]
                c.checkpoints.contains_key(k) && beyond(c.checkpoints, u.checkpoints, k) && (
                c.txids[t].height_of() matches TxHeight::Confirmed(h) ==> k <= h);
            assert(c.checkpoints_from(lb).contains(k));
            assert(c.invalid_from(u)->0 <= k);
        }
    }
}

/// The transaction changes of an accepted update that does not go past the shared blocks. Where the
/// update has the transaction, its index there is the change, unless the chain has the same.
/// Elsewhere nothing changes, but for one case: the chain has a checkpoint at the greatest height
/// there is, and a transaction no lower becomes unconfirmed.
pub proof fn law_agreeing_tx_changes<I: ChainIndex>(
    chain: &SparseChain<I>,
    update: &SparseChain<I>,
    changeset: ChangeSet<I>,
    t: Txid,
)
    requires
        chain.wf(),
        update.wf(),
        forall|k: u32| #[trigger]
            update@.checkpoints.contains_key(k) ==> !beyond(
                chain@.checkpoints,
                update@.checkpoints,
                k,
            ),
        call_ensures(
            SparseChain::<I>::determine_changeset,
            (chain, update),
            Ok::<ChangeSet<I>, UpdateFailure<I>>(changeset),
        ),
    ensures
        update@.txids.contains_key(t) ==> (changeset@.txids.contains_key(t) <==> !(
        chain@.txids.contains_key(t) && chain@.txids[t] == update@.txids[t])),
        update@.txids.contains_key(t) && changeset@.txids.contains_key(t) ==> changeset@.txids[t]
            == Some(update@.txids[t]),
        !update@.txids.contains_key(t) ==> (changeset@.txids.contains_key(t) <==> {
            &&& chain@.txids.contains_key(t)
            &&& chain@.checkpoints.contains_key(u32::MAX)
            &&& chain@.txids[t].height_of() matches TxHeight::Confirmed(h) ==> h == u32::MAX
        }),
        !update@.txids.contains_key(t) && changeset@.txids.contains_key(t)
            ==> changeset@.txids[t] == Some(I::max_of(TxHeight::Unconfirmed)) && I::max_of(
            TxHeight::Unconfirmed,
        ).height_of() is Unconfirmed,
{
    I::lemma_bounds_height(TxHeight::Unconfirmed);
    lemma_not_past(*chain, *update);
}

/// Applying an update does what applying its changeset does: each change is made, and of the
/// checkpoints the limit keeps the highest. A refused update leaves the chain as it was, with the
/// refusal that there is no changeset for it.
pub proof fn law_update_is_its_changeset<I: ChainIndex>(
    chain: &mut SparseChain<I>,
    update: SparseChain<I>,
    determined: Result<ChangeSet<I>, UpdateFailure<I>>,
    r: Result<(), UpdateFailure<I>>,
    all: Map<u32, BlockHash>,
)
    requires
        old(chain).wf(),
        update.wf(),
        call_ensures(SparseChain::<I>::determine_changeset, (&*old(chain), &update), determined),
        call_ensures(SparseChain::<I>::apply_update, (chain, update), r),
        determined matches Ok(changeset) ==> changed(
            old(chain)@.checkpoints,
            changeset@.checkpoints,
            all,
        ),
    ensures
        r is Ok <==> determined is Ok,
        r is Err ==> final(chain)@ == old(chain)@,
        r matches Err(UpdateFailure::NotConnected(h)) ==> determined matches Err(
            UpdateFailure::NotConnected(k),
        ) && h == k,
        determined matches Err(UpdateFailure::NotConnected(h)) ==> r matches Err(
            UpdateFailure::NotConnected(k),
        ) && h == k,
        r matches Err(
            UpdateFailure::InconsistentTx { inconsistent_txid, original_index, update_index },
        ) ==> {
            &&& moves(old(chain)@.txids, update@.txids, inconsistent_txid)
            &&& original_index == old(chain)@.txids[inconsistent_txid]
            &&& update_index == update@.txids[inconsistent_txid]
            &&& original_index.height_of() != TxHeight::Unconfirmed
        },
        determined matches Ok(changeset) ==> {
            &&& changed(old(chain)@.txids, changeset@.txids, final(chain)@.txids)
            &&& keeps_highest(all, old(chain)@.limit, final(chain)@.checkpoints)
            &&& final(chain)@.limit == old(chain)@.limit
        },
{
    if let Ok(changeset) = determined {
        lemma_changed(old(chain)@.checkpoints, changeset@.checkpoints, all);
        lemma_overlay_finite(*old(chain), changeset);
        lemma_prune(all, old(chain)@.limit);
    }
}

/// The checkpoints that changes leave are finitely many.
proof fn lemma_overlay_finite<I: ChainIndex>(chain: SparseChain<I>, changeset: ChangeSet<I>)
    requires
        chain.wf(),
    ensures
        model::overlay(chain@.checkpoints, changeset@.checkpoints).dom().finite(),
{
    let all = model::overlay(chain@.checkpoints, changeset@.checkpoints);
    chain.lemma_within_limit();
    let union = chain@.checkpoints.dom().union(changeset@.checkpoints.dom());
    assert(all.dom().subset_of(union));
    vstd::set_lib::lemma_set_subset_finite(union, all.dom());
}

/// After an accepted update that goes past the shared blocks, a transaction that the update does
/// not mention is unconfirmed, if it was at or above some checkpoint of the chain that is above the
/// shared blocks. If it was below all of those it is where it was.
pub proof fn law_reorganised_become_unconfirmed<I: ChainIndex>(
    chain: &mut SparseChain<I>,
    update: SparseChain<I>,
    past: u32,
    t: Txid,
)
    requires
        old(chain).wf(),
        update.wf(),
        update@.checkpoints.contains_key(past),
        beyond(old(chain)@.checkpoints, update@.checkpoints, past),
        call_ensures(
            SparseChain::<I>::apply_update,
            (chain, update),
            Ok::<(), UpdateFailure<I>>(()),
        ),
        old(chain)@.txids.contains_key(t),
        !update@.txids.contains_key(t),
    ensures
        final(chain)@.txids.contains_key(t),
        forall|k: u32| #[trigger]
            old(chain)@.checkpoints.contains_key(k) && beyond(
                old(chain)@.checkpoints,
                update@.checkpoints,
                k,
            ) && (old(chain)@.txids[t].height_of() matches TxHeight::Confirmed(h) ==> k <= h)
                ==> final(chain)@.txids[t].height_of() is Unconfirmed,
        old(chain)@.txids[t].height_of() matches TxHeight::Confirmed(h) && (forall|k: u32|
            #[trigger]
            old(chain)@.checkpoints.contains_key(k) && beyond(
                old(chain)@.checkpoints,
                update@.checkpoints,
                k,
            ) ==> h < k) ==> final(chain)@.txids[t] == old(chain)@.txids[t],
{
    let (c, u) = (old(chain)@, update@);
    I::lemma_bounds_height(TxHeight::Unconfirmed);
    lemma_past(*old(chain), update, past);
    let lb = c.invalid_lb(u);
    assert forall|k: u32| #[trigger]
        c.checkpoints.contains_key(k) && beyond(c.checkpoints, u.checkpoints, k) && (
        c.txids[t].height_of() matches TxHeight::Confirmed(h) ==> k <= h) implies final(chain)@.txids[t].height_of() is Unconfirmed by {
        assert(c.checkpoints_from(lb).contains(k));
    }
    if let Some(from) = c.invalid_from(u) {
        assert(c.checkpoints_from(lb).contains(from));
        assert(c.checkpoints.contains_key(from));
        assert(beyond(c.checkpoints, u.checkpoints, from));
    }
}

/// After an accepted update, every transaction of the update is where the update has it, the chain
/// holds the transactions that either had, and no others.
pub proof fn law_update_brings_its_transactions<I: ChainIndex>(
    chain: &mut SparseChain<I>,
    update: SparseChain<I>,
    t: Txid,
)
    requires
        old(chain).wf(),
        update.wf(),
        call_ensures(
            SparseChain::<I>::apply_update,
            (chain, update),
            Ok::<(), UpdateFailure<I>>(()),
        ),
    ensures
        update@.txids.contains_key(t) ==> final(chain)@.txids[t] == update@.txids[t],
        final(chain)@.txids.contains_key(t) <==> old(chain)@.txids.contains_key(t)
            || update@.txids.contains_key(t),
{
}

/// After an accepted update to a chain without a limit, every checkpoint of the update is there.
/// Another one of the chain is there as before, unless the update goes past the shared blocks and
/// the checkpoint was above those. There are no others.
pub proof fn law_update_brings_its_checkpoints<I: ChainIndex>(
    chain: &mut SparseChain<I>,
    update: SparseChain<I>,
    h: u32,
)
    requires
        old(chain).wf(),
        update.wf(),
        old(chain)@.limit is None,
        call_ensures(
            SparseChain::<I>::apply_update,
            (chain, update),
            Ok::<(), UpdateFailure<I>>(()),
        ),
    ensures
        update@.checkpoints.contains_key(h) ==> final(chain)@.checkpoints.contains_key(h)
            && final(chain)@.checkpoints[h] == update@.checkpoints[h],
        !update@.checkpoints.contains_key(h) ==> (final(chain)@.checkpoints.contains_key(h) <==> {
            &&& old(chain)@.checkpoints.contains_key(h)
            &&& beyond(old(chain)@.checkpoints, update@.checkpoints, h) ==> forall|past: u32|
                #[trigger]
                update@.checkpoints.contains_key(past) ==> !beyond(
                    old(chain)@.checkpoints,
                    update@.checkpoints,
                    past,
                )
        }),
        !update@.checkpoints.contains_key(h) && final(chain)@.checkpoints.contains_key(h)
            ==> final(chain)@.checkpoints[h] == old(chain)@.checkpoints[h],
{
    let (c, u) = (old(chain)@, update@);
    if !u.checkpoints.contains_key(h) {
        if exists|past: u32| #[trigger]
            u.checkpoints.contains_key(past) && beyond(c.checkpoints, u.checkpoints, past) {
            let past = choose|past: u32| #[trigger]
                u.checkpoints.contains_key(past) && beyond(c.checkpoints, u.checkpoints, past);
            lemma_past(*old(chain), update, past);
            if c.checkpoints.contains_key(h) && beyond(c.checkpoints, u.checkpoints, h) {
                assert(c.checkpoints_from(c.invalid_lb(u)).contains(h));
            }
            if let Some(from) = c.invalid_from(u) {
                assert(c.checkpoints_from(c.invalid_lb(u)).contains(from));
                assert(h >= from ==> beyond(c.checkpoints, u.checkpoints, h));
            }
        } else {
            lemma_not_past(*old(chain), update);
        }
    }
}

/// An update confirms unconfirmed transactions: where it connects, and moves no transaction but
/// unconfirmed ones, it is applied, and each of its transactions is where it says.
pub proof fn law_update_confirms_transactions<I: ChainIndex>(
    chain: &mut SparseChain<I>,
    update: SparseChain<I>,
    r: Result<(), UpdateFailure<I>>,
    t: Txid,
)
    requires
        old(chain).wf(),
        update.wf(),
        call_ensures(SparseChain::<I>::apply_update, (chain, update), r),
        !(r matches Err(UpdateFailure::NotConnected(_))),
        forall|s: Txid| #[trigger]
            moves(old(chain)@.txids, update@.txids, s)
                ==> old(chain)@.txids[s].height_of() is Unconfirmed,
    ensures
        r is Ok,
        update@.txids.contains_key(t) ==> final(chain)@.txids.contains_key(t)
            && final(chain)@.txids[t] == update@.txids[t],
{
    if let Err(UpdateFailure::InconsistentTx { inconsistent_txid, .. }) = r {
        assert(old(chain)@.inconsistent(update@, inconsistent_txid));
        assert(moves(old(chain)@.txids, update@.txids, inconsistent_txid));
    }
}

/// Applying a changeset makes each of its changes, and no others; of the checkpoints the limit then
/// keeps the highest.
pub proof fn law_apply_changeset<I: ChainIndex>(
    chain: &mut SparseChain<I>,
    changeset: ChangeSet<I>,
    all: Map<u32, BlockHash>,
)
    requires
        old(chain).wf(),
        changeset.wf(),
        call_ensures(SparseChain::<I>::apply_changeset, (chain, changeset), ()),
        changed(old(chain)@.checkpoints, changeset@.checkpoints, all),
    ensures
        changed(old(chain)@.txids, changeset@.txids, final(chain)@.txids),
        keeps_highest(all, old(chain)@.limit, final(chain)@.checkpoints),
        final(chain)@.limit == old(chain)@.limit,
{
    lemma_changed(old(chain)@.checkpoints, changeset@.checkpoints, all);
    lemma_overlay_finite(*old(chain), changeset);
    lemma_prune(all, old(chain)@.limit);
}

/// A new limit keeps the highest checkpoints, as many as it allows, and touches nothing else.
pub proof fn law_set_checkpoint_limit<I: ChainIndex>(
    chain: &mut SparseChain<I>,
    limit: Option<usize>,
)
    requires
        old(chain).wf(),
        call_ensures(SparseChain::<I>::set_checkpoint_limit, (chain, limit), ()),
    ensures
        keeps_highest(old(chain)@.checkpoints, limit, final(chain)@.checkpoints),
        final(chain)@.txids == old(chain)@.txids,
        final(chain)@.limit == limit,
{
    old(chain).lemma_within_limit();
    lemma_prune(old(chain)@.checkpoints, limit);
}

/// Inserting a transaction is refused as too high just if its index is confirmed above every
/// checkpoint. It is refused as moved just if it is not too high, and the chain has it confirmed at
/// another index. Otherwise it succeeds. A new transaction then is at the given index, which is the
/// one change; one that was there stays as it is, and there is no change.
pub proof fn law_insert_tx<I: ChainIndex>(
    chain: &mut SparseChain<I>,
    txid: Txid,
    index: I,
    r: Result<ChangeSet<I>, InsertTxErr>,
)
    requires
        old(chain).wf(),
        call_ensures(SparseChain::<I>::insert_tx, (chain, txid, index), r),
    ensures
        ({
            let too_high = index.height_of() matches TxHeight::Confirmed(h) && forall|k: u32|
                #[trigger]
                old(chain)@.checkpoints.contains_key(k) ==> k < h;
            let moved = old(chain)@.txids.contains_key(txid) && old(chain)@.txids[txid] != index
                && old(chain)@.txids[txid].height_of() != TxHeight::Unconfirmed;
            &&& r == Err::<ChangeSet<I>, InsertTxErr>(InsertTxErr::TxTooHigh) <==> too_high
            &&& r == Err::<ChangeSet<I>, InsertTxErr>(InsertTxErr::TxMoved) <==> !too_high && moved
            &&& r is Ok <==> !too_high && !moved
        }),
        r matches Ok(changeset) ==> {
            &&& forall|h: u32| !#[trigger] changeset@.checkpoints.contains_key(h)
            &&& forall|t: Txid| #[trigger]
                changeset@.txids.contains_key(t) <==> t == txid && !old(chain)@.txids.contains_key(
                    txid,
                )
            &&& changeset@.txids.contains_key(txid) ==> changeset@.txids[txid] == Some(index)
        },
        final(chain)@.txids == if r is Ok && !old(chain)@.txids.contains_key(txid) {
            old(chain)@.txids.insert(txid, index)
        } else {
            old(chain)@.txids
        },
        final(chain)@.checkpoints == old(chain)@.checkpoints,
        final(chain)@.limit == old(chain)@.limit,
{
    let c = old(chain)@;
    model::lemma_highest_meaning(c.checkpoints.dom());
    if let TxHeight::Confirmed(h) = index.height_of() {
        match c.tip() {
            Some(tip) => {
                assert(c.checkpoints.dom().contains(tip));
                assert(c.checkpoints.contains_key(tip));
                assert forall|k: u32| tip < h && #[trigger] c.checkpoints.contains_key(
                    k,
                ) implies k < h by {
                    assert(c.checkpoints.dom().contains(k));
                }
            },
            None => {
                assert forall|k: u32| !#[trigger] c.checkpoints.contains_key(k) by {
                    assert(!c.checkpoints.dom().contains(k));
                }
            },
        }
    }
    if r is Ok && !c.txids.contains_key(txid) {
        assert(final(chain)@.txids =~= c.txids.insert(txid, index));
    }
}

/// Inserting a checkpoint is refused just if the chain has another block at its height. It returns
/// `false` and changes nothing just if the chain has that very block there. Otherwise, whatever the
/// height and the limit, it returns `true`: the block is added, and the limit keeps the highest
/// checkpoints.
pub proof fn law_insert_checkpoint<I: ChainIndex>(
    chain: &mut SparseChain<I>,
    block_id: BlockId,
    r: Result<bool, InsertCheckpointErr>,
)
    requires
        old(chain).wf(),
        call_ensures(SparseChain::<I>::insert_checkpoint, (chain, block_id), r),
    ensures
        r == Ok::<bool, InsertCheckpointErr>(true) <==> !old(chain)@.checkpoints.contains_key(
            block_id.height,
        ),
        r == Ok::<bool, InsertCheckpointErr>(false) <==> old(chain)@.checkpoints.contains_key(
            block_id.height,
        ) && old(chain)@.checkpoints[block_id.height] == block_id.hash,
        r == Err::<bool, InsertCheckpointErr>(InsertCheckpointErr::HashNotMatching) <==> old(chain)@.checkpoints.contains_key(block_id.height) && old(chain)@.checkpoints[block_id.height]
            != block_id.hash,
        if old(chain)@.checkpoints.contains_key(block_id.height) {
            final(chain)@.checkpoints == old(chain)@.checkpoints
        } else {
            keeps_highest(
                old(chain)@.checkpoints.insert(block_id.height, block_id.hash),
                old(chain)@.limit,
                final(chain)@.checkpoints,
            )
        },
        final(chain)@.txids == old(chain)@.txids,
        final(chain)@.limit == old(chain)@.limit,
{
    old(chain).lemma_within_limit();
    lemma_prune(
        old(chain)@.checkpoints.insert(block_id.height, block_id.hash),
        old(chain)@.limit,
    );
}

/// The changeset that clears the mempool changes no checkpoint, and removes exactly the unconfirmed
/// transactions.
pub proof fn law_clear_mempool_changeset<I: ChainIndex>(
    chain: &SparseChain<I>,
    changeset: ChangeSet<I>,
)
    requires
        chain.wf(),
        call_ensures(SparseChain::<I>::clear_mempool_changeset, (chain,), changeset),
    ensures
        forall|h: u32| !#[trigger] changeset@.checkpoints.contains_key(h),
        forall|t: Txid| #[trigger]
            changeset@.txids.contains_key(t) <==> chain@.txids.contains_key(t)
                && chain@.txids[t].height_of() == TxHeight::Unconfirmed,
        forall|t: Txid| #[trigger]
            changeset@.txids.contains_key(t) ==> changeset@.txids[t] is None,
{
}

/// Applying the changeset that clears the mempool keeps the checkpoints and exactly the confirmed
/// transactions, each where it was.
pub proof fn law_cleared_by_changeset<I: ChainIndex>(
    chain: &mut SparseChain<I>,
    changeset: ChangeSet<I>,
)
    requires
        old(chain).wf(),
        call_ensures(SparseChain::<I>::clear_mempool_changeset, (&*old(chain),), changeset),
        call_ensures(SparseChain::<I>::apply_changeset, (chain, changeset), ()),
    ensures
        final(chain)@.checkpoints == old(chain)@.checkpoints,
        final(chain)@.limit == old(chain)@.limit,
        forall|t: Txid| #[trigger]
            final(chain)@.txids.contains_key(t) <==> old(chain)@.txids.contains_key(t) && old(chain)@.txids[t].height_of() != TxHeight::Unconfirmed,
        forall|t: Txid| #[trigger]
            final(chain)@.txids.contains_key(t) ==> final(chain)@.txids[t] == old(chain)@.txids[t],
{
    let c = old(chain)@;
    old(chain).lemma_within_limit();
    assert(model::overlay(c.checkpoints, changeset@.checkpoints) =~= c.checkpoints);
    model::lemma_prune_within(c.checkpoints, c.limit);
}

/// Clearing the mempool keeps the checkpoints and exactly the confirmed transactions, each where it
/// was.
pub proof fn law_clear_mempool<I: ChainIndex>(chain: &mut SparseChain<I>)
    requires
        old(chain).wf(),
        call_ensures(SparseChain::<I>::clear_mempool, (chain,), ()),
    ensures
        final(chain)@.checkpoints == old(chain)@.checkpoints,
        final(chain)@.limit == old(chain)@.limit,
        forall|t: Txid| #[trigger]
            final(chain)@.txids.contains_key(t) <==> old(chain)@.txids.contains_key(t) && old(chain)@.txids[t].height_of() != TxHeight::Unconfirmed,
        forall|t: Txid| #[trigger]
            final(chain)@.txids.contains_key(t) ==> final(chain)@.txids[t] == old(chain)@.txids[t],
{
}

/// The initial changeset sets every checkpoint and every transaction of the chain, and nothing else.
pub proof fn law_initial_change_set<I: ChainIndex>(chain: &SparseChain<I>, changeset: ChangeSet<I>)
    requires
        chain.wf(),
        call_ensures(SparseChain::<I>::initial_change_set, (chain,), changeset),
    ensures
        forall|h: u32| #[trigger]
            changeset@.checkpoints.contains_key(h) <==> chain@.checkpoints.contains_key(h),
        forall|h: u32| #[trigger]
            changeset@.checkpoints.contains_key(h) ==> changeset@.checkpoints[h] == Some(
                chain@.checkpoints[h],
            ),
        forall|t: Txid| #[trigger]
            changeset@.txids.contains_key(t) <==> chain@.txids.contains_key(t),
        forall|t: Txid| #[trigger]
            changeset@.txids.contains_key(t) ==> changeset@.txids[t] == Some(chain@.txids[t]),
{
}

/// A default chain has no checkpoint, no transaction and no limit.
pub proof fn law_default_chain<I: ChainIndex>(chain: SparseChain<I>)
    requires
        call_ensures(<SparseChain<I> as Default>::default, (), chain),
    ensures
        chain.wf(),
        forall|h: u32| !#[trigger] chain@.checkpoints.contains_key(h),
        forall|t: Txid| !#[trigger] chain@.txids.contains_key(t),
        chain@.limit is None,
{
}

/// A chain that is made of blocks has the last listed block of each height as its checkpoint there,
/// no other checkpoints, no transactions and no limit.
pub proof fn law_from_checkpoints<I: ChainIndex>(
    blocks: Vec<BlockId>,
    chain: SparseChain<I>,
    h: u32,
)
    requires
        call_ensures(SparseChain::<I>::from_checkpoints, (blocks,), chain),
    ensures
        chain.wf(),
        chain@.checkpoints.contains_key(h) <==> exists|i: int|
            0 <= i < blocks@.len() && (#[trigger] blocks@[i]).height == h,
        forall|i: int|
            0 <= i < blocks@.len() && (#[trigger] blocks@[i]).height == h && (forall|j: int|
                i < j < blocks@.len() ==> (#[trigger] blocks@[j]).height != h)
                ==> chain@.checkpoints[h] == blocks@[i].hash,
        forall|t: Txid| !#[trigger] chain@.txids.contains_key(t),
        chain@.limit is None,
{
    if exists|i: int| 0 <= i < blocks@.len() && (#[trigger] blocks@[i]).height == h {
        let i = choose|i: int| 0 <= i < blocks@.len() && (#[trigger] blocks@[i]).height == h;
        lemma_listed_height(blocks@, i);
    } else {
        lemma_unlisted_height(blocks@, h);
    }
    assert forall|i: int|
        0 <= i < blocks@.len() && (#[trigger] blocks@[i]).height == h && (forall|j: int|
            i < j < blocks@.len() ==> (#[trigger] blocks@[j]).height
                != h) implies chain@.checkpoints[h] == blocks@[i].hash by {
        lemma_last_of_height(blocks@, i);
    }
}

/// The height of each block has a checkpoint.
proof fn lemma_listed_height(blocks: Seq<BlockId>, i: int)
    requires
        0 <= i < blocks.len(),
    ensures
        model::checkpoints_of(blocks).contains_key(blocks[i].height),
    decreases blocks.len(),
{
    if i < blocks.len() - 1 {
        lemma_listed_height(blocks.drop_last(), i);
    }
}

/// A height of no block has no checkpoint.
proof fn lemma_unlisted_height(blocks: Seq<BlockId>, h: u32)
    requires
        forall|i: int| 0 <= i < blocks.len() ==> (#[trigger] blocks[i]).height != h,
    ensures
        !model::checkpoints_of(blocks).contains_key(h),
    decreases blocks.len(),
{
    if blocks.len() > 0 {
        let shorter = blocks.drop_last();
        assert forall|i: int| 0 <= i < shorter.len() implies (#[trigger] shorter[i]).height != h by {
            assert(shorter[i] == blocks[i]);
        }
        lemma_unlisted_height(shorter, h);
        assert(blocks[blocks.len() - 1].height != h);
    }
}

/// The last block of a height is the checkpoint there.
proof fn lemma_last_of_height(blocks: Seq<BlockId>, i: int)
    requires
        0 <= i < blocks.len(),
        forall|j: int| i < j < blocks.len() ==> (#[trigger] blocks[j]).height != blocks[i].height,
    ensures
        model::checkpoints_of(blocks)[blocks[i].height] == blocks[i].hash,
    decreases blocks.len(),
{
    if i < blocks.len() - 1 {
        let shorter = blocks.drop_last();
        assert forall|j: int| i < j < shorter.len() implies (#[trigger] shorter[j]).height
            != shorter[i].height by {
            assert(shorter[j] == blocks[j]);
        }
        lemma_last_of_height(shorter, i);
        assert(blocks[blocks.len() - 1].height != blocks[i].height);
    }
}

/// The latest checkpoint is the highest one; there is none just if there are no checkpoints.
pub proof fn law_latest_checkpoint<I: ChainIndex>(chain: &SparseChain<I>, r: Option<BlockId>)
    requires
        call_ensures(SparseChain::<I>::latest_checkpoint, (chain,), r),
    ensures
        match r {
            Some(b) => {
                &&& chain@.checkpoints.contains_key(b.height)
                &&& chain@.checkpoints[b.height] == b.hash
                &&& forall|h: u32| #[trigger] chain@.checkpoints.contains_key(h) ==> h <= b.height
            },
            None => forall|h: u32| !#[trigger] chain@.checkpoints.contains_key(h),
        },
{
    model::lemma_highest_meaning(chain@.checkpoints.dom());
    assert forall|h: u32| #[trigger] chain@.checkpoints.contains_key(
        h,
    ) <==> chain@.checkpoints.dom().contains(h) by {}
}

/// The list of checkpoints starts with the latest one, holds the one at each height, and is empty
/// just if there is no latest one.
pub proof fn law_checkpoints_agree<I: ChainIndex>(
    chain: &SparseChain<I>,
    listed: Vec<BlockId>,
    latest: Option<BlockId>,
    h: u32,
    at: Option<BlockId>,
)
    requires
        call_ensures(SparseChain::<I>::checkpoints, (chain,), listed),
        call_ensures(SparseChain::<I>::latest_checkpoint, (chain,), latest),
        call_ensures(SparseChain::<I>::checkpoint_at, (chain, h), at),
    ensures
        match latest {
            Some(b) => listed@.len() > 0 && listed@[0] == b,
            None => listed@.len() == 0,
        },
        match at {
            Some(b) => b.height == h && listed@.contains(b),
            None => forall|i: int| 0 <= i < listed@.len() ==> (#[trigger] listed@[i]).height != h,
        },
{
    law_latest_checkpoint(chain, latest);
    assert forall|i: int| 0 <= i < listed@.len() implies chain@.checkpoints.contains_key(
        (#[trigger] listed@[i]).height,
    ) && chain@.checkpoints[listed@[i].height] == listed@[i].hash by {
        assert(listed@.contains(listed@[i]));
    }
    if let Some(b) = latest {
        assert(listed@.contains(b));
        let i = choose|i: int| 0 <= i < listed@.len() && listed@[i] == b;
        if i > 0 {
            assert(listed@[0].height > listed@[i].height);
        }
    } else if listed@.len() > 0 {
        assert(chain@.checkpoints.contains_key(listed@[0].height));
    }
}

/// Every changeset may be applied, unless no checkpoint may be kept and one at the greatest height
/// there is would have to go.
pub proof fn law_apply_changeset_admits<I: ChainIndex>(
    chain: &mut SparseChain<I>,
    changeset: ChangeSet<I>,
    all: Map<u32, BlockHash>,
)
    requires
        old(chain).wf(),
        changeset.wf(),
        changed(old(chain)@.checkpoints, changeset@.checkpoints, all),
        old(chain)@.limit == Some(0usize) ==> !all.contains_key(u32::MAX),
    ensures
        call_requires(SparseChain::<I>::apply_changeset, (chain, changeset)),
{
    lemma_changed(old(chain)@.checkpoints, changeset@.checkpoints, all);
}

/// Every update may be handed in, unless no checkpoint may be kept and the update has one at the
/// greatest height there is.
pub proof fn law_apply_update_admits<I: ChainIndex>(
    chain: &mut SparseChain<I>,
    update: SparseChain<I>,
)
    requires
        old(chain).wf(),
        update.wf(),
        old(chain)@.limit == Some(0usize) ==> !update@.checkpoints.contains_key(u32::MAX),
    ensures
        call_requires(SparseChain::<I>::apply_update, (chain, update)),
{
    old(chain).lemma_within_limit();
    if old(chain)@.limit == Some(0usize) {
        assert(old(chain)@.checkpoints.dom() =~= Set::empty());
        assert(!old(chain)@.checkpoints.dom().contains(u32::MAX));
    }
}

/// Every limit may be set, but for a limit of none where there is a checkpoint at the greatest
/// height.
pub proof fn law_set_checkpoint_limit_admits<I: ChainIndex>(
    chain: &mut SparseChain<I>,
    limit: Option<usize>,
)
    requires
        old(chain).wf(),
        limit == Some(0usize) ==> !old(chain)@.checkpoints.contains_key(u32::MAX),
    ensures
        call_requires(SparseChain::<I>::set_checkpoint_limit, (chain, limit)),
{
}

/// Every checkpoint may be inserted, but for one at the greatest height where none may be kept.
/// Transactions may always be inserted, and the mempool may always be cleared.
pub proof fn law_insertions_admit<I: ChainIndex>(
    chain: &mut SparseChain<I>,
    block_id: BlockId,
    txid: Txid,
    index: I,
)
    requires
        old(chain).wf(),
    ensures
        !(old(chain)@.limit == Some(0usize) && block_id.height == u32::MAX) ==> call_requires(
            SparseChain::<I>::insert_checkpoint,
            (chain, block_id),
        ),
        call_requires(SparseChain::<I>::insert_tx, (chain, txid, index)),
        call_requires(SparseChain::<I>::clear_mempool, (chain,)),
{
}

} // verus!
