//! What holds of chains, updates and sets of changes as a whole.

use crate::chain_data::BlockId;
use crate::chain_data::TxHeight;
use crate::chain_index::ChainIndex;
use crate::error::InsertCheckpointErr;
use crate::error::InsertTxErr;
use crate::hash_types::BlockHash;
use crate::hash_types::Txid;
use crate::model;
use crate::model::ChainView;
use crate::model::ChangeSetView;
use crate::order;
use crate::ordered_set;
use vstd::prelude::*;

verus! {

/// The initial changes of a chain, applied to a chain that holds nothing, give the chain back.
pub proof fn law_initial_changes_rebuild<I>(chain: ChainView<I>)
    requires
        chain.checkpoints.dom().finite(),
        chain.limit matches Some(n) ==> chain.checkpoints.len() <= n,
    ensures
        ChainView::<I>::empty().apply(chain.initial_changes()) == (ChainView { limit: None, ..chain }),
        (ChainView { limit: chain.limit, ..ChainView::<I>::empty() }).apply(chain.initial_changes())
            == chain,
{
    let changes = chain.initial_changes();
    assert(model::overlay(Map::empty(), changes.checkpoints) =~= chain.checkpoints);
    assert(model::overlay(Map::empty(), changes.txids) =~= chain.txids);
    model::lemma_prune_within(chain.checkpoints, chain.limit);
}

/// A chain that holds nothing takes any update, and holds what the update holds afterwards.
pub proof fn law_empty_chain_takes_any_update<I: ChainIndex>(update: ChainView<I>)
    ensures
        ChainView::<I>::empty().accepts(update),
        ChainView::<I>::empty().changes(update) == update.initial_changes(),
        ChainView::<I>::empty().apply(ChainView::<I>::empty().changes(update)) == (ChainView {
            limit: None,
            ..update
        }),
{
    let chain = ChainView::<I>::empty();
    model::lemma_lowest_meaning(chain.checkpoints_from(chain.invalid_lb(update)));
    assert(chain.invalid_from(update) is None);
    let changes = chain.changes(update);
    assert(changes.checkpoints =~= update.initial_changes().checkpoints);
    assert(changes.txids =~= update.initial_changes().txids);
    assert(model::overlay(chain.checkpoints, changes.checkpoints) =~= update.checkpoints);
    assert(model::overlay(chain.txids, changes.txids) =~= update.txids);
}

/// A chain accepts itself as an update, which then changes nothing.
pub proof fn law_own_update_changes_nothing<I: ChainIndex>(chain: ChainView<I>)
    ensures
        chain.accepts(chain),
        chain.changes(chain) == ChangeSetView::<I>::empty(),
{
    model::lemma_lowest_meaning(chain.checkpoints_from(chain.invalid_lb(chain)));
    assert(chain.changes(chain).checkpoints =~= Map::empty());
    assert(chain.changes(chain).txids =~= Map::empty());
}

/// An update that holds nothing is accepted and changes nothing, unless the chain has a checkpoint
/// at the greatest height there is: then it does not connect.
pub proof fn law_empty_update_changes_nothing<I: ChainIndex>(
    chain: ChainView<I>,
    limit: Option<usize>,
)
    requires
        !chain.checkpoints.contains_key(u32::MAX),
    ensures
        ({
            let update = ChainView { limit, ..ChainView::<I>::empty() };
            chain.accepts(update) && chain.changes(update) == ChangeSetView::<I>::empty()
        }),
{
    let update = ChainView { limit, ..ChainView::<I>::empty() };
    model::lemma_highest_meaning(update.checkpoints.dom());
    assert(chain.invalid_lb(update) == u32::MAX);
    model::lemma_lowest_meaning(chain.checkpoints_from(u32::MAX));
    assert(chain.invalid_from(update) is None);
    assert(chain.changes(update).checkpoints =~= Map::empty());
    assert(chain.changes(update).txids =~= Map::empty());
}

/// After an update, every transaction of the update is where the update has it, and every
/// checkpoint of the update is there, unless it was past the limit.
pub proof fn law_update_is_taken_over<I: ChainIndex>(chain: ChainView<I>, update: ChainView<I>)
    ensures
        ({
            let changes = chain.changes(update);
            let all = model::overlay(chain.checkpoints, changes.checkpoints);
            let after = chain.apply(changes);
            &&& forall|t: Txid| #[trigger]
                update.txids.contains_key(t) ==> after.txids.contains_key(t) && after.txids[t]
                    == update.txids[t]
            &&& forall|h: u32| #[trigger]
                update.checkpoints.contains_key(h) ==> all.contains_key(h) && all[h]
                    == update.checkpoints[h]
            &&& forall|h: u32| #[trigger]
                update.checkpoints.contains_key(h) ==> (after.checkpoints.contains_key(h) <==> (
                chain.limit matches Some(n) ==> model::above(all, h).len() < n))
            &&& forall|h: u32|
                update.checkpoints.contains_key(h) && #[trigger] after.checkpoints.contains_key(h)
                    ==> after.checkpoints[h] == update.checkpoints[h]
        }),
{
}

/// After an update, a transaction that the update does not mention has become unconfirmed if the
/// update invalidated it, and is where it was otherwise. No transaction has gone, and none has come
/// that neither side had.
pub proof fn law_invalidated_become_unconfirmed<I: ChainIndex>(
    chain: ChainView<I>,
    update: ChainView<I>,
    txid: Txid,
)
    requires
        !update.txids.contains_key(txid),
    ensures
        ({
            let after = chain.apply(chain.changes(update));
            &&& after.txids.contains_key(txid) <==> chain.txids.contains_key(txid)
            &&& chain.invalidates_tx(update, txid) ==> after.txids[txid] == I::max_of(
                TxHeight::Unconfirmed,
            ) && after.txids[txid].height_of() is Unconfirmed
            &&& chain.txids.contains_key(txid) && !chain.invalidates_tx(update, txid)
                ==> after.txids[txid] == chain.txids[txid]
        }),
{
    I::lemma_bounds_height(TxHeight::Unconfirmed);
}

/// A transaction below the invalidation range is where it was after an accepted update.
pub proof fn law_accepted_update_moves_nothing_below<I: ChainIndex>(
    chain: ChainView<I>,
    update: ChainView<I>,
    txid: Txid,
)
    requires
        chain.accepts(update),
        chain.txids.contains_key(txid),
        chain.txids[txid].height_of().before(TxHeight::Confirmed(chain.invalid_lb(update))),
    ensures
        chain.apply(chain.changes(update)).txids[txid] == chain.txids[txid],
{
    assert(!chain.inconsistent(update, txid));
    model::lemma_lowest_meaning(chain.checkpoints_from(chain.invalid_lb(update)));
}

/// The chains agree nowhere above the agreement point.
pub proof fn lemma_agreement<I>(chain: ChainView<I>, update: ChainView<I>)
    ensures
        match chain.agreement_point(update) {
            Some(h) => model::is_highest(chain.agreed(update), h),
            None => forall|h: u32| !#[trigger] chain.agreed(update).contains(h),
        },
        match update.tip() {
            Some(h) => model::is_highest(update.checkpoints.dom(), h),
            None => forall|h: u32| !#[trigger] update.checkpoints.contains_key(h),
        },
        match chain.invalid_from(update) {
            Some(h) => model::is_lowest(chain.checkpoints_from(chain.invalid_lb(update)), h),
            None => forall|h: u32| !#[trigger] chain.checkpoints_from(
                chain.invalid_lb(update),
            ).contains(h),
        },
        chain.agreement_point(update) matches Some(h) ==> update.tip() matches Some(t) && h <= t,
{
    model::lemma_highest_meaning(chain.agreed(update));
    model::lemma_highest_meaning(update.checkpoints.dom());
    model::lemma_lowest_meaning(chain.checkpoints_from(chain.invalid_lb(update)));
    if update.tip() is None {
        assert forall|h: u32| !#[trigger] update.checkpoints.contains_key(h) by {
            assert(!update.checkpoints.dom().contains(h));
        }
    }
    if let Some(h) = chain.agreement_point(update) {
        assert(chain.agreed(update).contains(h));
        assert(update.checkpoints.dom().contains(h));
    }
}

/// Where an update goes past the agreement point, every checkpoint above that point comes from the
/// update afterwards, and the chain ends where the update ends (unless no checkpoint is kept).
pub proof fn law_update_replaces_the_rest<I: ChainIndex>(
    chain: ChainView<I>,
    update: ChainView<I>,
)
    requires
        update.tip() is Some,
        update.tip() != chain.agreement_point(update),
    ensures
        ({
            let after = chain.apply(chain.changes(update));
            &&& forall|h: u32| #[trigger]
                after.checkpoints.contains_key(h) && (chain.agreement_point(update) matches Some(a)
                    ==> h > a) ==> update.checkpoints.contains_key(h) && update.checkpoints[h]
                    == after.checkpoints[h]
            &&& chain.limit != Some(0usize) ==> after.tip() == update.tip()
        }),
{
    lemma_agreement(chain, update);
    let changes = chain.changes(update);
    let all = model::overlay(chain.checkpoints, changes.checkpoints);
    let after = chain.apply(changes);
    let lb = chain.invalid_lb(update);
    assert forall|h: u32| #[trigger] after.checkpoints.contains_key(h) && (chain.agreement_point(
        update,
    ) matches Some(a) ==> h > a) implies update.checkpoints.contains_key(h)
        && update.checkpoints[h] == after.checkpoints[h] by {
        assert(all.contains_key(h));
        if !update.checkpoints.contains_key(h) {
            assert(chain.checkpoints_from(lb).contains(h));
        }
    }
    let top = update.tip()->0;
    assert(all.contains_key(top)) by {
        assert(update.checkpoints.dom().contains(top));
    }
    assert forall|h: u32| #[trigger] all.contains_key(h) implies h <= top by {
        if update.checkpoints.contains_key(h) {
            assert(update.checkpoints.dom().contains(h));
        } else if h > top {
            assert(chain.checkpoints_from(lb).contains(h));
        }
    }
    if chain.limit != Some(0usize) {
        assert(model::above(all, top) =~= Set::empty());
        assert(after.checkpoints.contains_key(top));
        assert(model::is_highest(after.checkpoints.dom(), top)) by {
            assert forall|h: u32| #[trigger] after.checkpoints.dom().contains(h) implies h
                <= top by {
                assert(all.contains_key(h));
            }
        }
        model::lemma_highest(after.checkpoints.dom(), top);
    }
}

/// Where an accepted update does not go past the agreement point, every checkpoint that it does not
/// mention stays (unless it is past the limit).
pub proof fn law_agreeing_update_keeps_checkpoints<I: ChainIndex>(
    chain: ChainView<I>,
    update: ChainView<I>,
)
    requires
        chain.accepts(update),
        update.tip() is None || update.tip() == chain.agreement_point(update),
    ensures
        ({
            let all = model::overlay(chain.checkpoints, chain.changes(update).checkpoints);
            forall|h: u32| #[trigger]
                chain.checkpoints.contains_key(h) && !update.checkpoints.contains_key(h)
                    ==> all.contains_key(h) && all[h] == chain.checkpoints[h]
        }),
{
    lemma_agreement(chain, update);
}

/// Every checkpoint change of an update changes something, and so does every change of a
/// transaction that the update mentions.
pub proof fn law_changes_are_changes<I: ChainIndex>(chain: ChainView<I>, update: ChainView<I>)
    ensures
        forall|h: u32| #[trigger]
            chain.changes(update).checkpoints.contains_key(h) ==> chain.changes(
                update,
            ).checkpoints[h] != chain.checkpoints.get(h),
        forall|t: Txid|
            update.txids.contains_key(t) && #[trigger] chain.changes(update).txids.contains_key(t)
                ==> chain.changes(update).txids[t] != chain.txids.get(t),
{
}

/// Where an update was applied and none of its checkpoints was past the limit, applying it again
/// changes nothing.
///
/// The exception is an update with a checkpoint at the greatest height there is, where a
/// transaction that it does not mention is at that height or unconfirmed.
pub proof fn law_update_is_idempotent<I: ChainIndex>(chain: ChainView<I>, update: ChainView<I>)
    requires
        chain.accepts(update),
        ({
            let after = chain.apply(chain.changes(update));
            &&& forall|h: u32| #[trigger]
                update.checkpoints.contains_key(h) ==> after.checkpoints.contains_key(h)
            &&& update.checkpoints.contains_key(u32::MAX) ==> forall|t: Txid| #[trigger]
                after.txids.contains_key(t) && !update.txids.contains_key(t)
                    ==> after.txids[t].height_of().before(TxHeight::Confirmed(u32::MAX))
        }),
    ensures
        ({
            let after = chain.apply(chain.changes(update));
            after.accepts(update) && after.changes(update) == ChangeSetView::<I>::empty()
        }),
{
    let after = chain.apply(chain.changes(update));
    lemma_agreement(chain, update);
    lemma_agreement(after, update);
    assert forall|h: u32| #[trigger] update.checkpoints.contains_key(h) implies after.agreed(
        update,
    ).contains(h) by {}
    assert(after.invalid_lb(update) == u32::MAX) by {
        if let Some(top) = update.tip() {
            assert(update.checkpoints.dom().contains(top));
            assert(after.agreed(update).contains(top));
            assert forall|h: u32| #[trigger] after.agreed(update).contains(h) implies h <= top by {
                assert(update.checkpoints.dom().contains(h));
            }
            model::lemma_highest(after.agreed(update), top);
        }
    }
    assert(after.checkpoints.contains_key(u32::MAX) ==> update.checkpoints.contains_key(u32::MAX))
        by {
        if after.checkpoints.contains_key(u32::MAX) && !update.checkpoints.contains_key(u32::MAX) {
            assert(chain.checkpoints.contains_key(u32::MAX));
            assert(chain.checkpoints_from(chain.invalid_lb(update)).contains(u32::MAX));
        }
    }
    assert forall|h: u32| #[trigger] after.checkpoints_from(u32::MAX).contains(h) implies h
        == u32::MAX && after.checkpoints.contains_key(h) by {}
    assert(after.disconnected_at(update) is None);
    assert forall|t: Txid| !#[trigger] after.inconsistent(update, t) by {}
    let again = after.changes(update);
    assert(again.checkpoints =~= Map::empty()) by {
        assert forall|h: u32| !#[trigger] again.checkpoints.contains_key(h) by {
            if update.checkpoints.contains_key(h) {
                assert(after.agreed(update).contains(h));
            } else if after.invalidates_checkpoint(update, h) {
                assert(after.checkpoints_from(u32::MAX).contains(h));
            }
        }
    }
    assert(again.txids =~= Map::empty()) by {
        assert forall|t: Txid| !#[trigger] again.txids.contains_key(t) by {
            if !update.txids.contains_key(t) && after.invalidates_tx(update, t) {
                let from = after.invalid_from(update)->0;
                assert(after.checkpoints_from(u32::MAX).contains(from));
            }
        }
    }
}

/// The height of a failure to connect is that of a checkpoint of the chain. An update that has
/// another block there connects.
///
/// The exception is an update that has nothing past the agreement point, where the chain has
/// another checkpoint past that point.
pub proof fn law_including_another_block_connects<I>(
    chain: ChainView<I>,
    update: ChainView<I>,
    height: u32,
    hash: BlockHash,
)
    requires
        chain.disconnected_at(update) == Some(height),
        hash != chain.checkpoints[height],
        update.tip() is None || update.tip() == chain.agreement_point(update) ==> forall|h: u32| #[trigger]
            chain.checkpoints.contains_key(h) && (chain.agreement_point(update) matches Some(a)
                ==> h > a) ==> h == height,
    ensures
        chain.checkpoints.contains_key(height),
        chain.disconnected_at(
            ChainView { checkpoints: update.checkpoints.insert(height, hash), ..update },
        ) is None,
{
    let more = ChainView { checkpoints: update.checkpoints.insert(height, hash), ..update };
    lemma_agreement(chain, update);
    lemma_agreement(chain, more);
    let lb = chain.invalid_lb(update);
    assert(chain.checkpoints_from(lb).contains(height));
    assert(chain.agreed(more) =~= chain.agreed(update));
    assert(more.checkpoints.dom().contains(height));
    let a = chain.agreement_point(update);
    assert(a matches Some(h) ==> h < height) by {
        if let Some(h) = a {
            assert(chain.agreed(update).contains(h));
            assert(update.checkpoints.contains_key(h));
            if h >= height {
                assert(update.tip() is Some);
                let top = update.tip()->0;
                if Some(top) != a {
                    assert(lb == h + 1);
                }
            }
        }
    }
    assert(more.tip() != a);
    let lb2 = chain.invalid_lb(more);
    assert(chain.checkpoints_from(lb2).contains(height));
    if let Some(from) = chain.invalid_from(more) {
        assert(chain.checkpoints_from(lb2).contains(from));
        if update.tip() is Some && update.tip() != a {
            assert(lb2 == lb);
            assert(chain.checkpoints_from(lb).contains(from));
        }
        assert(from == height);
    }
}

/// An update that has the chain's own block at the height of a failure to connect either connects,
/// or fails to at a greater height.
pub proof fn law_including_the_block_goes_further<I>(
    chain: ChainView<I>,
    update: ChainView<I>,
    height: u32,
)
    requires
        chain.disconnected_at(update) == Some(height),
    ensures
        ({
            let more = ChainView {
                checkpoints: update.checkpoints.insert(height, chain.checkpoints[height]),
                ..update
            };
            chain.disconnected_at(more) matches Some(h) ==> h > height
        }),
{
    let more = ChainView {
        checkpoints: update.checkpoints.insert(height, chain.checkpoints[height]),
        ..update
    };
    lemma_agreement(chain, update);
    lemma_agreement(chain, more);
    assert(chain.checkpoints_from(chain.invalid_lb(update)).contains(height));
    assert(chain.agreed(more).contains(height));
    if let Some(h) = chain.disconnected_at(more) {
        assert(chain.checkpoints_from(chain.invalid_lb(more)).contains(h));
        assert(h != height);
        assert(chain.agreement_point(more)->0 >= height);
    }
}

/// Merged changes do to a map what the older ones and then the newer ones do.
pub proof fn law_merge_is_one_after_the_other<K, V>(
    m: Map<K, V>,
    older: Map<K, Option<V>>,
    newer: Map<K, Option<V>>,
)
    ensures
        model::overlay(model::overlay(m, older), newer) == model::overlay(
            m,
            older.union_prefer_right(newer),
        ),
{
    assert(model::overlay(model::overlay(m, older), newer) =~= model::overlay(
        m,
        older.union_prefer_right(newer),
    ));
}

/// Applying merged changes is the same as applying the older ones and then the newer ones, where
/// no checkpoint that the merged changes leave was past the limit in between.
pub proof fn law_apply_merged<I>(
    chain: ChainView<I>,
    older: ChangeSetView<I>,
    newer: ChangeSetView<I>,
)
    requires
        chain.checkpoints.dom().finite(),
        older.checkpoints.dom().finite(),
        newer.checkpoints.dom().finite(),
        forall|h: u32| #[trigger]
            chain.apply(older.merge(newer)).checkpoints.contains_key(h) ==> chain.apply(
                older,
            ).checkpoints.contains_key(h) || newer.checkpoints.contains_key(h),
    ensures
        chain.apply(older).apply(newer) == chain.apply(older.merge(newer)),
{
    law_merge_is_one_after_the_other(chain.checkpoints, older.checkpoints, newer.checkpoints);
    law_merge_is_one_after_the_other(chain.txids, older.txids, newer.txids);
    let all = model::overlay(chain.checkpoints, older.merge(newer).checkpoints);
    let some = model::overlay(chain.apply(older).checkpoints, newer.checkpoints);
    assert(older.merge(newer).checkpoints.dom() =~= older.checkpoints.dom()
        + newer.checkpoints.dom());
    lemma_overlay_finite(chain.checkpoints, older.merge(newer).checkpoints);
    assert forall|h: u32| #[trigger] some.contains_key(h) implies all.contains_key(h) && all[h]
        == some[h] by {}
    assert forall|h: u32| #[trigger] model::prune(all, chain.limit).contains_key(
        h,
    ) implies some.contains_key(h) by {
        assert(chain.apply(older.merge(newer)).checkpoints.contains_key(h));
        assert(all.contains_key(h));
    }
    lemma_prune_between(all, some, chain.limit);
}

/// Where the newer changes remove no checkpoint, applying merged changes is always the same as
/// applying the older ones and then the newer ones.
pub proof fn law_apply_merged_additions<I>(
    chain: ChainView<I>,
    older: ChangeSetView<I>,
    newer: ChangeSetView<I>,
)
    requires
        chain.checkpoints.dom().finite(),
        older.checkpoints.dom().finite(),
        newer.checkpoints.dom().finite(),
        forall|h: u32| #[trigger]
            newer.checkpoints.contains_key(h) ==> newer.checkpoints[h] is Some,
    ensures
        chain.apply(older).apply(newer) == chain.apply(older.merge(newer)),
{
    let m = model::overlay(chain.checkpoints, older.checkpoints);
    let all = model::overlay(chain.checkpoints, older.merge(newer).checkpoints);
    assert(older.merge(newer).checkpoints.dom() =~= older.checkpoints.dom()
        + newer.checkpoints.dom());
    lemma_overlay_finite(chain.checkpoints, older.merge(newer).checkpoints);
    assert forall|h: u32| #[trigger] chain.apply(older.merge(newer)).checkpoints.contains_key(
        h,
    ) implies chain.apply(older).checkpoints.contains_key(h) || newer.checkpoints.contains_key(
        h,
    ) by {
        assert(model::above(m, h).subset_of(model::above(all, h)));
        vstd::set_lib::lemma_len_subset(model::above(m, h), model::above(all, h));
    }
    law_apply_merged(chain, older, newer);
}

/// Finitely many changes leave a finite map finite.
proof fn lemma_overlay_finite<V>(m: Map<u32, V>, c: Map<u32, Option<V>>)
    requires
        m.dom().finite(),
        c.dom().finite(),
    ensures
        model::overlay(m, c).dom().finite(),
{
    assert(model::overlay(m, c).dom().subset_of(m.dom() + c.dom()));
    vstd::set_lib::lemma_set_subset_finite(m.dom() + c.dom(), model::overlay(m, c).dom());
}

/// Where some height is pruned away, as many are kept as the limit allows.
proof fn lemma_prune_keeps_enough<V>(m: Map<u32, V>, n: usize, h: u32)
    requires
        m.dom().finite(),
        m.contains_key(h),
        model::above(m, h).len() >= n,
    ensures
        model::prune(m, Some(n)).dom().finite(),
        model::prune(m, Some(n)).len() >= n,
{
    let kept = model::prune(m, Some(n)).dom();
    let gone = m.dom().difference(kept);
    vstd::set_lib::lemma_set_subset_finite(m.dom(), kept);
    assert(gone.contains(h));
    model::lemma_highest_exists(gone, h);
    let top = model::highest(gone)->0;
    assert(model::above(m, top).subset_of(kept)) by {
        assert forall|k: u32| model::above(m, top).contains(k) implies kept.contains(k) by {
            if !kept.contains(k) {
                assert(gone.contains(k));
            }
        }
    }
    assert(gone.contains(top));
    vstd::set_lib::lemma_len_subset(model::above(m, top), kept);
}

/// A part of a map that holds all that pruning would keep is pruned to the same.
proof fn lemma_prune_between<V>(all: Map<u32, V>, some: Map<u32, V>, limit: Option<usize>)
    requires
        all.dom().finite(),
        some.submap_of(all),
        model::prune(all, limit).dom().subset_of(some.dom()),
    ensures
        model::prune(some, limit) == model::prune(all, limit),
{
    vstd::set_lib::lemma_set_subset_finite(all.dom(), some.dom());
    let kept = model::prune(all, limit);
    match limit {
        None => {
            assert(some =~= all);
        },
        Some(n) => {
            assert forall|h: u32| #[trigger] kept.contains_key(h) implies model::prune(
                some,
                limit,
            ).contains_key(h) by {
                assert(some.dom().contains(h));
                assert(model::above(some, h).subset_of(model::above(all, h)));
                vstd::set_lib::lemma_len_subset(model::above(some, h), model::above(all, h));
            }
            assert forall|h: u32| #[trigger] model::prune(some, limit).contains_key(
                h,
            ) implies kept.contains_key(h) by {
                assert(all.contains_key(h));
                if model::above(all, h).len() >= n {
                    lemma_prune_keeps_enough(all, n, h);
                    assert(kept.dom().subset_of(model::above(some, h))) by {
                        assert forall|x: u32| kept.dom().contains(x) implies model::above(
                            some,
                            h,
                        ).contains(x) by {
                            assert(some.dom().contains(x));
                            if x <= h {
                                assert(model::above(all, h).subset_of(model::above(all, x)));
                                vstd::set_lib::lemma_len_subset(
                                    model::above(all, h),
                                    model::above(all, x),
                                );
                            }
                        }
                    }
                    vstd::set_lib::lemma_len_subset(kept.dom(), model::above(some, h));
                }
            }
            assert(model::prune(some, limit) =~= kept);
        },
    }
}

/// A limit keeps the highest entries: each that is kept is above each that is not, and as many are
/// kept as the limit allows.
pub proof fn law_limit_keeps_the_highest<V>(m: Map<u32, V>, n: usize)
    requires
        m.dom().finite(),
    ensures
        ({
            let kept = model::prune(m, Some(n));
            &&& kept.submap_of(m)
            &&& forall|h: u32, k: u32| #[trigger]
                kept.contains_key(h) && #[trigger] m.contains_key(k) && !kept.contains_key(k)
                    ==> k < h
            &&& kept.len() == if m.len() <= n {
                m.len()
            } else {
                n as nat
            }
        }),
{
    let kept = model::prune(m, Some(n));
    assert forall|h: u32, k: u32| #[trigger] kept.contains_key(h) && #[trigger] m.contains_key(k)
        && !kept.contains_key(k) implies k < h by {
        if h <= k {
            assert(model::above(m, k).subset_of(model::above(m, h)));
            vstd::set_lib::lemma_len_subset(model::above(m, k), model::above(m, h));
        }
    }
    model::lemma_prune_len(m, Some(n));
    if m.len() <= n {
        model::lemma_prune_within(m, Some(n));
    } else {
        if forall|h: u32| m.contains_key(h) ==> #[trigger] kept.contains_key(h) {
            assert(kept.dom() =~= m.dom());
        } else {
            let h = choose|h: u32| m.contains_key(h) && !#[trigger] kept.contains_key(h);
            lemma_prune_keeps_enough(m, n, h);
        }
    }
}

/// Merging is associative; no changes merge to no difference, and neither do the same changes
/// again.
pub proof fn law_merge_associative<I>(
    a: ChangeSetView<I>,
    b: ChangeSetView<I>,
    c: ChangeSetView<I>,
)
    ensures
        a.merge(b).merge(c) == a.merge(b.merge(c)),
        a.merge(ChangeSetView::<I>::empty()) == a,
        ChangeSetView::<I>::empty().merge(a) == a,
        a.merge(a) == a,
{
    assert(a.merge(b).merge(c).checkpoints =~= a.merge(b.merge(c)).checkpoints);
    assert(a.merge(b).merge(c).txids =~= a.merge(b.merge(c)).txids);
    let none = ChangeSetView::<I>::empty();
    assert(a.merge(none).checkpoints =~= a.checkpoints);
    assert(a.merge(none).txids =~= a.txids);
    assert(none.merge(a).checkpoints =~= a.checkpoints);
    assert(none.merge(a).txids =~= a.txids);
    assert(a.merge(a).checkpoints =~= a.checkpoints);
    assert(a.merge(a).txids =~= a.txids);
}

/// Applying no changes leaves a chain as it is.
pub proof fn law_no_changes<I>(chain: ChainView<I>)
    requires
        chain.checkpoints.dom().finite(),
        chain.limit matches Some(n) ==> chain.checkpoints.len() <= n,
    ensures
        chain.apply(ChangeSetView::<I>::empty()) == chain,
{
    assert(model::overlay(chain.checkpoints, Map::empty()) =~= chain.checkpoints);
    assert(model::overlay(chain.txids, Map::empty()) =~= chain.txids);
    model::lemma_prune_within(chain.checkpoints, chain.limit);
}

/// Applying the same changes twice is the same as applying them once.
pub proof fn law_apply_twice<I>(chain: ChainView<I>, changes: ChangeSetView<I>)
    requires
        chain.checkpoints.dom().finite(),
        changes.checkpoints.dom().finite(),
    ensures
        chain.apply(changes).apply(changes) == chain.apply(changes),
{
    law_merge_associative(changes, changes, changes);
    law_apply_merged(chain, changes, changes);
}

/// A transaction that was inserted is there: inserting it again is no error and changes nothing.
pub proof fn law_inserted_tx_is_there<I: ChainIndex>(
    chain: ChainView<I>,
    txid: Txid,
    index: I,
    changes: ChangeSetView<I>,
)
    requires
        chain.insert_tx_outcome(txid, index) == Ok::<ChangeSetView<I>, InsertTxErr>(changes),
    ensures
        ({
            let after = ChainView { txids: model::overlay(chain.txids, changes.txids), ..chain };
            &&& after.txids.contains_key(txid)
            &&& after.insert_tx_outcome(txid, index) == Ok::<ChangeSetView<I>, InsertTxErr>(
                ChangeSetView::empty(),
            )
        }),
{
}

/// Inserting a transaction does what applying the changes that the insertion returns does, and the
/// changes are none if the transaction is there already.
pub proof fn law_insertion_is_its_changes<I: ChainIndex>(
    chain: ChainView<I>,
    txid: Txid,
    index: I,
    changes: ChangeSetView<I>,
)
    requires
        chain.checkpoints.dom().finite(),
        chain.limit matches Some(n) ==> chain.checkpoints.len() <= n,
        chain.insert_tx_outcome(txid, index) == Ok::<ChangeSetView<I>, InsertTxErr>(changes),
    ensures
        chain.apply(changes) == (ChainView {
            txids: model::overlay(chain.txids, changes.txids),
            ..chain
        }),
        changes == ChangeSetView::<I>::empty() <==> chain.txids.contains_key(txid),
{
    assert(model::overlay(chain.checkpoints, Map::empty()) =~= chain.checkpoints);
    model::lemma_prune_within(chain.checkpoints, chain.limit);
    assert(!chain.txids.contains_key(txid) ==> changes.txids.contains_key(txid));
}

/// A checkpoint that was inserted, and is within the limit, is there: inserting it again is no
/// error and adds nothing; another block of its height is refused.
pub proof fn law_inserted_checkpoint_is_there<I>(
    chain: ChainView<I>,
    block_id: BlockId,
    other: BlockHash,
)
    requires
        chain.insert_checkpoint_outcome(block_id) == Ok::<bool, InsertCheckpointErr>(true),
        chain.limit matches Some(n) ==> model::above(
            chain.checkpoints.insert(block_id.height, block_id.hash),
            block_id.height,
        ).len() < n,
        other != block_id.hash,
    ensures
        ({
            let after = ChainView {
                checkpoints: model::prune(
                    chain.checkpoints.insert(block_id.height, block_id.hash),
                    chain.limit,
                ),
                ..chain
            };
            &&& after.insert_checkpoint_outcome(block_id) == Ok::<bool, InsertCheckpointErr>(false)
            &&& after.insert_checkpoint_outcome(
                BlockId { height: block_id.height, hash: other },
            ) == Err::<bool, InsertCheckpointErr>(InsertCheckpointErr::HashNotMatching)
        }),
{
}

/// Where the last checkpoint of a chain and that of an update are at or above their confirmed
/// transactions, that is so of the chain after the update, unless no checkpoint is kept.
pub proof fn law_tip_covers_after_update<I: ChainIndex>(chain: ChainView<I>, update: ChainView<I>)
    requires
        chain.accepts(update),
        chain.tip_covers(),
        update.tip_covers(),
        chain.limit != Some(0usize),
    ensures
        chain.apply(chain.changes(update)).tip_covers(),
{
    let changes = chain.changes(update);
    let all = model::overlay(chain.checkpoints, changes.checkpoints);
    let after = chain.apply(changes);
    lemma_agreement(chain, update);
    model::lemma_highest_meaning(chain.checkpoints.dom());
    model::lemma_highest_meaning(all.dom());
    model::lemma_prune_highest(all, chain.limit);
    let past = update.tip() is Some && update.tip() != chain.agreement_point(update);
    if past {
        law_update_replaces_the_rest(chain, update);
    } else {
        law_agreeing_update_keeps_checkpoints(chain, update);
    }
    if let Some(top) = chain.tip() {
        assert(chain.checkpoints.dom().contains(top));
        assert(!past ==> all.dom().contains(top));
    }
    if let Some(top) = update.tip() {
        assert(update.checkpoints.dom().contains(top));
        assert(all.dom().contains(top));
    }
    assert forall|t: Txid| #[trigger] after.txids.contains_key(t) implies (
    after.txids[t].height_of() matches TxHeight::Confirmed(h) ==> (after.tip() matches Some(tip)
        && h <= tip)) by {
        if !update.txids.contains_key(t) {
            law_invalidated_become_unconfirmed(chain, update, t);
            assert(chain.txids.contains_key(t));
            if past && !chain.invalidates_tx(update, t) {
                match chain.invalid_from(update) {
                    Some(from) => {
                        assert(update.checkpoints.dom().contains(from));
                    },
                    None => {
                        if let Some(k) = chain.tip() {
                            assert(chain.checkpoints.dom().contains(k));
                            assert(!chain.checkpoints_from(chain.invalid_lb(update)).contains(k));
                        }
                    },
                }
            }
        }
    }
}

/// Where the last checkpoint is at or above every confirmed transaction, that stays so when a
/// transaction is inserted.
pub proof fn law_tip_covers_after_insert_tx<I: ChainIndex>(
    chain: ChainView<I>,
    txid: Txid,
    index: I,
    changes: ChangeSetView<I>,
)
    requires
        chain.tip_covers(),
        chain.insert_tx_outcome(txid, index) == Ok::<ChangeSetView<I>, InsertTxErr>(changes),
    ensures
        (ChainView { txids: model::overlay(chain.txids, changes.txids), ..chain }).tip_covers(),
{
    let after = ChainView { txids: model::overlay(chain.txids, changes.txids), ..chain };
    assert forall|t: Txid| #[trigger] after.txids.contains_key(t) implies (
    after.txids[t].height_of() matches TxHeight::Confirmed(h) ==> (after.tip() matches Some(tip)
        && h <= tip)) by {
        if t != txid {
            assert(chain.txids.contains_key(t));
        }
    }
}

/// Where the last checkpoint is at or above every confirmed transaction, that stays so when a
/// checkpoint is inserted, unless no checkpoint is kept.
pub proof fn law_tip_covers_after_insert_checkpoint<I: ChainIndex>(
    chain: ChainView<I>,
    block_id: BlockId,
)
    requires
        chain.tip_covers(),
        chain.insert_checkpoint_outcome(block_id) == Ok::<bool, InsertCheckpointErr>(true),
        chain.limit != Some(0usize),
    ensures
        (ChainView {
            checkpoints: model::prune(
                chain.checkpoints.insert(block_id.height, block_id.hash),
                chain.limit,
            ),
            ..chain
        }).tip_covers(),
{
    let all = chain.checkpoints.insert(block_id.height, block_id.hash);
    let after = ChainView { checkpoints: model::prune(all, chain.limit), ..chain };
    model::lemma_highest_meaning(chain.checkpoints.dom());
    model::lemma_highest_meaning(all.dom());
    model::lemma_prune_highest(all, chain.limit);
    if let Some(top) = chain.tip() {
        assert(chain.checkpoints.dom().contains(top));
        assert(all.dom().contains(top));
    }
    assert forall|t: Txid| #[trigger] after.txids.contains_key(t) implies (
    after.txids[t].height_of() matches TxHeight::Confirmed(h) ==> (after.tip() matches Some(tip)
        && h <= tip)) by {
        assert(chain.txids.contains_key(t));
    }
}

/// Where the last checkpoint is at or above every confirmed transaction, that stays so when the
/// limit changes, unless no checkpoint is kept, and when unconfirmed transactions are removed.
pub proof fn law_tip_covers_after_removals<I: ChainIndex>(
    chain: ChainView<I>,
    limit: Option<usize>,
)
    requires
        chain.tip_covers(),
    ensures
        limit != Some(0usize) ==> (ChainView {
            checkpoints: model::prune(chain.checkpoints, limit),
            limit,
            ..chain
        }).tip_covers(),
        (ChainView {
            txids: chain.txids.restrict(
                Set::new(|t: Txid| chain.txids[t].height_of() is Confirmed),
            ),
            ..chain
        }).tip_covers(),
{
    if limit != Some(0usize) {
        model::lemma_prune_highest(chain.checkpoints, limit);
    }
}

/// The indices of one height come before those of a greater one, and lie between its bounds.
pub proof fn law_heights_do_not_overlap<I: ChainIndex>(a: I, b: I)
    ensures
        order::le(I::min_of(a.height_of()), I::max_of(a.height_of())),
        order::le(I::min_of(a.height_of()), a),
        order::le(a, I::max_of(a.height_of())),
        a.height_of().before(b.height_of()) ==> order::lt(
            I::max_of(a.height_of()),
            I::min_of(b.height_of()),
        ) && order::lt(a, b),
{
    I::lemma_lawful();
    I::lemma_bounds(a);
    I::lemma_bounds_height(a.height_of());
    I::lemma_bounds_height(b.height_of());
    order::lemma_transitive(I::min_of(a.height_of()), a, I::max_of(a.height_of()));
    if a.height_of().before(b.height_of()) {
        I::lemma_height_first(a, b);
        I::lemma_height_first(I::max_of(a.height_of()), I::min_of(b.height_of()));
    }
}

/// Transactions in ascending order are in order of height.
pub proof fn law_sorted_by_height<I: ChainIndex>(entries: Seq<(I, Txid)>, i: int, j: int)
    requires
        ordered_set::sorted(entries),
        0 <= i < j < entries.len(),
    ensures
        !entries[j].0.height_of().before(entries[i].0.height_of()),
{
    I::lemma_lawful();
    crate::hash_types::lemma_txid_lawful();
    order::lemma_pair_lawful::<I, Txid>();
    if entries[j].0.height_of().before(entries[i].0.height_of()) {
        I::lemma_height_first(entries[j].0, entries[i].0);
        order::lemma_asymmetric(entries[j].0, entries[i].0);
    }
}

/// What is in ascending order is determined by what it holds.
pub proof fn law_sorted_determined<T: PartialOrd>(s: Seq<T>, t: Seq<T>)
    requires
        order::lawful::<T>(),
        ordered_set::sorted(s),
        ordered_set::sorted(t),
        forall|v: T| #[trigger] s.contains(v) <==> t.contains(v),
    ensures
        s == t,
    decreases s.len(),
{
    if s.len() == 0 {
        if t.len() > 0 {
            assert(t.contains(t[0]));
            assert(s.contains(t[0]));
        }
        assert(s =~= t);
    } else {
        let a = s.last();
        assert(s.contains(a));
        let b = t.last();
        assert(t.contains(b));
        assert(s.contains(b));
        let i = choose|i: int| 0 <= i < t.len() && t[i] == a;
        let j = choose|j: int| 0 <= j < s.len() && s[j] == b;
        if a != b {
            assert(order::lt(a, b));
            assert(order::lt(b, a));
            order::lemma_asymmetric(a, b);
        }
        let p = s.drop_last();
        let q = t.drop_last();
        assert forall|v: T| #[trigger] p.contains(v) <==> q.contains(v) by {
            lemma_drop_last_contains(s, v);
            lemma_drop_last_contains(t, v);
        }
        law_sorted_determined(p, q);
        assert(s =~= p.push(a));
        assert(t =~= q.push(b));
    }
}

/// Without its last member, an ascending sequence holds everything but that member.
proof fn lemma_drop_last_contains<T: PartialOrd>(s: Seq<T>, v: T)
    requires
        order::lawful::<T>(),
        ordered_set::sorted(s),
        s.len() > 0,
    ensures
        s.drop_last().contains(v) <==> s.contains(v) && v != s.last(),
{
    let p = s.drop_last();
    if p.contains(v) {
        let i = choose|i: int| 0 <= i < p.len() && p[i] == v;
        assert(s[i] == v);
        order::lemma_asymmetric(s[i], s[s.len() - 1]);
    }
    if s.contains(v) && v != s.last() {
        let i = choose|i: int| 0 <= i < s.len() && s[i] == v;
        assert(p[i] == v);
    }
}

} // verus!
