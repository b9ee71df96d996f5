use bdk_core::chain_index::ChainIndex;
use bdk_core::sparse_chain::{ChangeSet, SparseChain, UpdateFailure};
use bdk_core::{BlockHash, BlockId, Bound, ConfirmationTime, TxHeight, Txid};

fn hash(n: u8) -> BlockHash {
    BlockHash([n; 32])
}

fn txid(n: u8) -> Txid {
    Txid([n; 32])
}

fn chain<I: ChainIndex>(blocks: &[(u32, u8)], txs: &[(u8, I)]) -> SparseChain<I> {
    let mut chain = SparseChain::from_checkpoints(
        blocks.iter().map(|&(height, n)| BlockId { height, hash: hash(n) }).collect(),
    );
    let mut changeset = ChangeSet::default();
    for (n, index) in txs {
        changeset.txids.insert(txid(*n), Some(index.clone()));
    }
    chain.apply_changeset(changeset);
    chain
}

fn sample() -> SparseChain<TxHeight> {
    chain(
        &[(1, 1), (3, 3), (5, 5)],
        &[
            (1, TxHeight::Confirmed(1)),
            (2, TxHeight::Confirmed(3)),
            (3, TxHeight::Confirmed(5)),
            (4, TxHeight::Unconfirmed),
        ],
    )
}

#[test]
fn initial_changes_rebuild_a_chain() {
    let chain1 = sample();
    let mut rebuilt: SparseChain<TxHeight> = Default::default();
    rebuilt.apply_changeset(chain1.initial_change_set());
    assert_eq!(rebuilt, chain1);
    let mut limited = chain1.clone();
    limited.set_checkpoint_limit(Some(2));
    let mut rebuilt: SparseChain<TxHeight> = Default::default();
    rebuilt.set_checkpoint_limit(Some(2));
    rebuilt.apply_changeset(limited.initial_change_set());
    assert_eq!(rebuilt, limited);
}

#[test]
fn empty_chain_takes_any_update() {
    let update = sample();
    let mut chain1: SparseChain<TxHeight> = Default::default();
    assert_eq!(chain1.determine_changeset(&update), Ok(update.initial_change_set()));
    assert_eq!(chain1.apply_update(update.clone()), Ok(()));
    assert_eq!(chain1, update);
}

#[test]
fn own_update_changes_nothing() {
    let chain1 = sample();
    assert_eq!(chain1.determine_changeset(&chain1), Ok(ChangeSet::default()));
}

#[test]
fn empty_update_changes_nothing() {
    let chain1 = sample();
    assert_eq!(chain1.determine_changeset(&Default::default()), Ok(ChangeSet::default()));
}

#[test]
fn update_is_taken_over_and_idempotent() {
    let mut chain1 = sample();
    let update = chain(
        &[(3, 3), (5, 9), (7, 7)],
        &[(3, TxHeight::Confirmed(7)), (5, TxHeight::Confirmed(5))],
    );
    assert_eq!(chain1.apply_update(update.clone()), Ok(()));
    assert_eq!(
        chain1,
        chain(
            &[(1, 1), (3, 3), (5, 9), (7, 7)],
            &[
                (1, TxHeight::Confirmed(1)),
                (2, TxHeight::Confirmed(3)),
                (3, TxHeight::Confirmed(7)),
                (4, TxHeight::Unconfirmed),
                (5, TxHeight::Confirmed(5)),
            ],
        )
    );
    // it ends where the update ends
    assert_eq!(chain1.latest_checkpoint(), update.latest_checkpoint());
    assert_eq!(chain1.determine_changeset(&update), Ok(ChangeSet::default()));
}

#[test]
fn agreeing_update_keeps_checkpoints() {
    let mut chain1 = sample();
    let update: SparseChain<TxHeight> = chain(&[(2, 2), (3, 3)], &[]);
    assert_eq!(chain1.apply_update(update), Ok(()));
    let heights: Vec<u32> = chain1.checkpoints().iter().map(|b| b.height).collect();
    assert_eq!(heights, vec![5, 3, 2, 1]);
}

#[test]
fn update_past_the_limit() {
    let mut chain1 = sample();
    chain1.set_checkpoint_limit(Some(2));
    let update: SparseChain<TxHeight> = chain(&[(1, 1), (3, 3), (5, 5), (6, 6)], &[]);
    assert_eq!(chain1.apply_update(update), Ok(()));
    let heights: Vec<u32> = chain1.checkpoints().iter().map(|b| b.height).collect();
    assert_eq!(heights, vec![6, 5]);
}

#[test]
fn failure_names_the_checkpoint_to_include() {
    let chain1 = sample();
    let update: SparseChain<TxHeight> = chain(&[(1, 1), (9, 9)], &[]);
    assert_eq!(chain1.determine_changeset(&update), Err(UpdateFailure::NotConnected(3)));
    let update: SparseChain<TxHeight> = chain(&[(1, 1), (3, 33), (9, 9)], &[]);
    assert!(chain1.determine_changeset(&update).is_ok());
    let update: SparseChain<TxHeight> = chain(&[(1, 1), (3, 3), (9, 9)], &[]);
    assert_eq!(chain1.determine_changeset(&update), Err(UpdateFailure::NotConnected(5)));
}

fn tip_covers(chain: &SparseChain<TxHeight>) -> bool {
    let tip = chain.latest_checkpoint().map(|block_id| block_id.height);
    chain.iter_txids().iter().all(|(index, _)| match index {
        TxHeight::Confirmed(h) => tip.map_or(false, |tip| *h <= tip),
        TxHeight::Unconfirmed => true,
    })
}

#[test]
fn confirmed_transactions_stay_at_or_below_the_tip() {
    // the chain gets shorter
    let mut chain1 = sample();
    assert!(tip_covers(&chain1));
    let update = chain(&[(1, 1), (3, 9)], &[(2, TxHeight::Confirmed(2))]);
    assert_eq!(chain1.apply_update(update), Ok(()));
    assert_eq!(chain1.latest_checkpoint().unwrap().height, 3);
    assert!(tip_covers(&chain1));
    assert_eq!(chain1.tx_index(txid(3)), Some(&TxHeight::Unconfirmed));
    // the update ends below the tip
    let mut chain1 = sample();
    let update = chain(&[(3, 3)], &[(4, TxHeight::Confirmed(2))]);
    assert_eq!(chain1.apply_update(update), Ok(()));
    assert_eq!(chain1.latest_checkpoint().unwrap().height, 5);
    assert!(tip_covers(&chain1));
    // both end at the greatest height
    let mut chain1 = chain(&[(u32::MAX, 7)], &[(1, TxHeight::Confirmed(u32::MAX))]);
    let update = chain(&[(u32::MAX, 8)], &[(2, TxHeight::Confirmed(u32::MAX))]);
    assert_eq!(chain1.apply_update(update), Ok(()));
    assert!(tip_covers(&chain1));
    // insertions, a limit and a cleared mempool
    let mut chain1 = sample();
    assert_eq!(
        chain1.insert_tx(txid(9), TxHeight::Confirmed(5)),
        Ok(changes(&[], &[(9, Some(TxHeight::Confirmed(5)))]))
    );
    assert!(tip_covers(&chain1));
    assert_eq!(chain1.insert_checkpoint(BlockId { height: 4, hash: hash(4) }), Ok(true));
    assert!(tip_covers(&chain1));
    chain1.set_checkpoint_limit(Some(1));
    assert!(tip_covers(&chain1));
    chain1.clear_mempool();
    assert!(tip_covers(&chain1));
    // with no checkpoint kept there is no tip
    chain1.set_checkpoint_limit(Some(0));
    assert!(!tip_covers(&chain1));
}

fn changes(
    checkpoints: &[(u32, Option<u8>)],
    txids: &[(u8, Option<TxHeight>)],
) -> ChangeSet<TxHeight> {
    let mut changeset = ChangeSet::default();
    for &(h, n) in checkpoints {
        changeset.checkpoints.insert(h, n.map(hash));
    }
    for &(n, index) in txids {
        changeset.txids.insert(txid(n), index);
    }
    changeset
}

#[test]
fn merged_changes_do_the_same() {
    let older = changes(
        &[(1, None), (4, Some(4)), (5, Some(50))],
        &[(1, None), (2, Some(TxHeight::Unconfirmed)), (9, Some(TxHeight::Confirmed(4)))],
    );
    let newer = changes(
        &[(4, None), (5, Some(55)), (6, Some(6))],
        &[(1, Some(TxHeight::Confirmed(5))), (9, None), (8, Some(TxHeight::Unconfirmed))],
    );
    let merged = older.clone().merge(newer.clone());
    assert_eq!(
        merged,
        changes(
            &[(1, None), (4, None), (5, Some(55)), (6, Some(6))],
            &[
                (1, Some(TxHeight::Confirmed(5))),
                (2, Some(TxHeight::Unconfirmed)),
                (8, Some(TxHeight::Unconfirmed)),
                (9, None),
            ],
        )
    );
    assert_eq!(merged.tx_additions(), vec![txid(1), txid(2), txid(8)]);
    let mut step_by_step = sample();
    step_by_step.apply_changeset(older.clone());
    step_by_step.apply_changeset(newer.clone());
    let mut at_once = sample();
    at_once.apply_changeset(merged.clone());
    assert_eq!(step_by_step, at_once);
    // twice is once
    at_once.apply_changeset(merged.clone());
    assert_eq!(step_by_step, at_once);
    // no changes make no difference
    assert_eq!(merged.clone().merge(ChangeSet::default()), merged);
    assert_eq!(ChangeSet::default().merge(merged.clone()), merged);
    assert_eq!(merged.clone().merge(merged.clone()), merged);
    let third = changes(&[(6, None), (7, Some(7))], &[(2, None)]);
    assert_eq!(
        older.clone().merge(newer.clone()).merge(third.clone()),
        older.merge(newer.merge(third))
    );
    at_once.apply_changeset(ChangeSet::default());
    assert_eq!(step_by_step, at_once);
}

#[test]
fn merged_changes_differ_where_the_limit_cuts_in_between() {
    let mut chain1: SparseChain<TxHeight> = chain(&[(5, 5)], &[]);
    chain1.set_checkpoint_limit(Some(1));
    let older = changes(&[(6, Some(6))], &[]);
    let newer = changes(&[(6, None)], &[]);
    let mut step_by_step = chain1.clone();
    step_by_step.apply_changeset(older.clone());
    step_by_step.apply_changeset(newer.clone());
    assert!(step_by_step.checkpoints().is_empty());
    let mut at_once = chain1.clone();
    at_once.apply_changeset(older.clone().merge(newer));
    assert_eq!(at_once.checkpoints().len(), 1);
    // where the newer ones only add, they do not
    let newer = changes(&[(4, Some(4)), (7, Some(7))], &[]);
    let mut step_by_step = chain1.clone();
    step_by_step.apply_changeset(older.clone());
    step_by_step.apply_changeset(newer.clone());
    let mut at_once = chain1;
    at_once.apply_changeset(older.merge(newer));
    assert_eq!(step_by_step, at_once);
}

/// A position of the caller's own: a height, then a place within the block.
#[derive(Clone, Debug, PartialEq, Eq, PartialOrd, Ord, Hash)]
struct Place {
    height: TxHeight,
    place: [u8; 4],
}

impl ChainIndex for Place {
    fn height_of(&self) -> TxHeight {
        self.height
    }

    fn max_of(height: TxHeight) -> Self {
        Self::max_ord_of_height(height)
    }

    fn min_of(height: TxHeight) -> Self {
        Self::min_ord_of_height(height)
    }

    fn lemma_lawful() {}

    fn lemma_clone(_: Self, _: Self) {}

    fn lemma_height_first(_: Self, _: Self) {}

    fn lemma_bounds(_: Self) {}

    fn lemma_bounds_height(_: TxHeight) {}

    fn height(&self) -> TxHeight {
        self.height
    }

    fn max_ord_of_height(height: TxHeight) -> Self {
        Place { height, place: [u8::MAX; 4] }
    }

    fn min_ord_of_height(height: TxHeight) -> Self {
        Place { height, place: [0; 4] }
    }
}

#[test]
fn other_indices() {
    let at = |h: u32, p: u8| Place { height: TxHeight::Confirmed(h), place: [p; 4] };
    let mut chain1 = chain(&[(1, 1), (2, 2)], &[(9, at(1, 3)), (8, at(1, 4)), (7, at(2, 0))]);
    assert_eq!(
        chain1.iter_txids(),
        &[(at(1, 3), txid(9)), (at(1, 4), txid(8)), (at(2, 0), txid(7))][..]
    );
    assert_eq!(
        chain1.range_txids_by_height(
            Bound::Included(TxHeight::Confirmed(1)),
            Bound::Included(TxHeight::Confirmed(1))
        ),
        &[(at(1, 3), txid(9)), (at(1, 4), txid(8))][..]
    );
    assert_eq!(chain1.apply_update(chain(&[(1, 1), (2, 22)], &[])), Ok(()));
    assert_eq!(
        chain1.tx_index(txid(7)),
        Some(&Place { height: TxHeight::Unconfirmed, place: [u8::MAX; 4] })
    );
    let time = |height: u32, time: u64| ConfirmationTime::Confirmed { height, time };
    let timed = chain(&[(1, 1), (2, 2)], &[(3, time(1, 50)), (2, time(1, 40)), (1, time(2, 1))]);
    assert_eq!(
        timed.iter_txids(),
        &[(time(1, 40), txid(2)), (time(1, 50), txid(3)), (time(2, 1), txid(1))][..]
    );
}
