use bdk_core::sparse_chain::{
    ChangeSet, InsertCheckpointErr, InsertTxErr, SparseChain, UpdateFailure,
};
use bdk_core::{BlockHash, BlockId, Bound, OutPoint, TxGraph, TxHeight, TxOut, Txid};

fn hash(n: u8) -> BlockHash {
    BlockHash([n; 32])
}

fn txid(n: u8) -> Txid {
    Txid([n; 32])
}

fn block(height: u32, n: u8) -> BlockId {
    BlockId { height, hash: hash(n) }
}

fn chain(blocks: &[(u32, u8)], txs: &[(u8, TxHeight)]) -> SparseChain<TxHeight> {
    let mut chain =
        SparseChain::from_checkpoints(blocks.iter().map(|&(h, n)| block(h, n)).collect());
    let mut changeset = ChangeSet::default();
    for &(n, index) in txs {
        changeset.txids.insert(txid(n), Some(index));
    }
    chain.apply_changeset(changeset);
    chain
}

fn checkpoint_changes(c: &ChangeSet<TxHeight>) -> Vec<(u32, Option<BlockHash>)> {
    c.checkpoints.iter().map(|(h, x)| (*h, *x)).collect()
}

fn tx_changes(c: &ChangeSet<TxHeight>) -> Vec<(Txid, Option<TxHeight>)> {
    c.txids.entries().to_vec()
}

fn checkpoints_of(c: &SparseChain<TxHeight>) -> Vec<(u32, BlockHash)> {
    let mut ascending: Vec<(u32, BlockHash)> =
        c.checkpoints().iter().map(|b| (b.height, b.hash)).collect();
    ascending.reverse();
    ascending
}

const CONF: fn(u32) -> TxHeight = TxHeight::Confirmed;
const UNCONF: TxHeight = TxHeight::Unconfirmed;

#[test]
fn default_chain_is_empty() {
    let chain: SparseChain<TxHeight> = Default::default();
    assert_eq!(chain.latest_checkpoint(), None);
    assert!(chain.checkpoints().is_empty());
    assert!(chain.iter_txids().is_empty());
    assert!(chain.initial_change_set().is_empty());
    assert_eq!(chain.tx_index(txid(1)), None);
}

#[test]
fn from_checkpoints_keeps_the_later_of_two() {
    let chain: SparseChain<TxHeight> =
        SparseChain::from_checkpoints(vec![block(5, 1), block(3, 2), block(5, 9)]);
    assert_eq!(chain.latest_checkpoint(), Some(block(5, 9)));
    assert_eq!(chain.checkpoint_at(3), Some(block(3, 2)));
    assert_eq!(chain.checkpoint_at(4), None);
    assert_eq!(checkpoints_of(&chain), vec![(3, hash(2)), (5, hash(9))]);
}

#[test]
fn range_checkpoints_respects_bounds() {
    let chain = chain(&[(1, 1), (2, 2), (3, 3), (4, 4)], &[]);
    let range = |start, end| chain.range_checkpoints(start, end);
    assert_eq!(
        range(Bound::Unbounded, Bound::Unbounded),
        vec![block(1, 1), block(2, 2), block(3, 3), block(4, 4)]
    );
    assert_eq!(range(Bound::Included(2), Bound::Excluded(4)), vec![block(2, 2), block(3, 3)]);
    assert_eq!(range(Bound::Excluded(2), Bound::Included(4)), vec![block(3, 3), block(4, 4)]);
    assert_eq!(range(Bound::Included(2), Bound::Excluded(2)), vec![]);
    assert_eq!(range(Bound::Included(5), Bound::Unbounded), vec![]);
    assert_eq!(range(Bound::Unbounded, Bound::Included(1)), vec![block(1, 1)]);
}

#[test]
fn checkpoints_are_in_descending_order() {
    let mut chain = chain(&[(2, 2), (u32::MAX, 9), (1, 1)], &[]);
    assert_eq!(chain.checkpoints(), vec![block(u32::MAX, 9), block(2, 2), block(1, 1)]);
    assert_eq!(chain.insert_checkpoint(block(5, 5)), Ok(true));
    assert_eq!(
        chain.checkpoints(),
        vec![block(u32::MAX, 9), block(5, 5), block(2, 2), block(1, 1)]
    );
}

fn added(n: u8, index: TxHeight) -> ChangeSet<TxHeight> {
    let mut changes = ChangeSet::default();
    changes.txids.insert(txid(n), Some(index));
    changes
}

#[test]
fn insert_tx_outcomes() {
    let mut chain: SparseChain<TxHeight> = Default::default();
    assert_eq!(chain.insert_tx(txid(1), CONF(0)), Err(InsertTxErr::TxTooHigh));
    assert_eq!(chain.insert_tx(txid(1), UNCONF), Ok(added(1, UNCONF)));
    assert_eq!(chain.insert_tx(txid(1), UNCONF), Ok(ChangeSet::default()));
    assert_eq!(chain.insert_checkpoint(block(10, 1)), Ok(true));
    assert_eq!(chain.insert_tx(txid(2), CONF(11)), Err(InsertTxErr::TxTooHigh));
    assert_eq!(chain.tx_index(txid(2)), None);
    let before = chain.clone();
    let changes = chain.insert_tx(txid(2), CONF(10)).unwrap();
    assert!(changes.checkpoints.is_empty());
    assert_eq!(tx_changes(&changes), vec![(txid(2), Some(CONF(10)))]);
    let mut applied = before;
    applied.apply_changeset(changes);
    assert_eq!(applied, chain);
    assert!(chain.insert_tx(txid(2), CONF(10)).unwrap().is_empty());
    assert_eq!(chain.insert_tx(txid(2), CONF(9)), Err(InsertTxErr::TxMoved));
    assert_eq!(chain.insert_tx(txid(2), UNCONF), Err(InsertTxErr::TxMoved));
    // an unconfirmed transaction stays as it is
    assert_eq!(chain.insert_tx(txid(1), CONF(3)), Ok(ChangeSet::default()));
    assert_eq!(chain.tx_index(txid(1)), Some(&UNCONF));
    assert_eq!(chain.tx_index(txid(2)), Some(&CONF(10)));
    assert_eq!(chain.iter_txids(), &[(CONF(10), txid(2)), (UNCONF, txid(1))][..]);
}

#[test]
fn insert_checkpoint_outcomes() {
    let mut chain: SparseChain<TxHeight> = Default::default();
    assert_eq!(chain.insert_checkpoint(block(1, 1)), Ok(true));
    assert_eq!(chain.insert_checkpoint(block(1, 1)), Ok(false));
    assert_eq!(
        chain.insert_checkpoint(block(1, 2)),
        Err(InsertCheckpointErr::HashNotMatching)
    );
    assert_eq!(checkpoints_of(&chain), vec![(1, hash(1))]);
}

#[test]
fn checkpoint_limit_is_respected() {
    let mut chain = chain(&[(1, 1), (2, 2), (3, 3), (4, 4)], &[]);
    chain.set_checkpoint_limit(Some(2));
    assert_eq!(checkpoints_of(&chain), vec![(3, hash(3)), (4, hash(4))]);
    assert_eq!(chain.insert_checkpoint(block(u32::MAX, 9)), Ok(true));
    assert_eq!(checkpoints_of(&chain), vec![(4, hash(4)), (u32::MAX, hash(9))]);
    // too low to be kept: it goes as soon as it comes
    assert_eq!(chain.insert_checkpoint(block(2, 2)), Ok(true));
    assert_eq!(checkpoints_of(&chain), vec![(4, hash(4)), (u32::MAX, hash(9))]);
    chain.set_checkpoint_limit(Some(1));
    assert_eq!(checkpoints_of(&chain), vec![(u32::MAX, hash(9))]);
    chain.set_checkpoint_limit(None);
    assert_eq!(chain.insert_checkpoint(block(2, 2)), Ok(true));
    assert_eq!(checkpoints_of(&chain), vec![(2, hash(2)), (u32::MAX, hash(9))]);
}

#[test]
fn checkpoint_limit_of_zero_keeps_nothing() {
    let mut chain = chain(&[(1, 1), (2, 2)], &[(1, CONF(1))]);
    chain.set_checkpoint_limit(Some(0));
    assert!(chain.checkpoints().is_empty());
    assert_eq!(chain.insert_checkpoint(block(7, 7)), Ok(true));
    assert!(chain.checkpoints().is_empty());
    assert_eq!(chain.tx_index(txid(1)), Some(&CONF(1)));
}

#[test]
fn update_extends_the_chain() {
    let mut chain1 = chain(&[(0, 0)], &[]);
    let update = chain(&[(0, 0), (1, 1)], &[(1, CONF(1)), (2, UNCONF)]);
    let changes = chain1.determine_changeset(&update).unwrap();
    assert_eq!(checkpoint_changes(&changes), vec![(1, Some(hash(1)))]);
    assert_eq!(
        tx_changes(&changes),
        vec![(txid(1), Some(CONF(1))), (txid(2), Some(UNCONF))]
    );
    assert_eq!(changes.tx_additions(), vec![txid(1), txid(2)]);
    assert!(!changes.is_empty());
    assert_eq!(chain1.apply_update(update.clone()), Ok(()));
    assert_eq!(chain1, update);
}

#[test]
fn disjoint_update_does_not_connect() {
    let chain1 = chain(&[(0, 0)], &[]);
    let update = chain(&[(1, 1)], &[]);
    assert_eq!(chain1.determine_changeset(&update), Err(UpdateFailure::NotConnected(0)));
    let mut unchanged = chain1.clone();
    assert_eq!(unchanged.apply_update(update), Err(UpdateFailure::NotConnected(0)));
    assert_eq!(unchanged, chain1);
}

#[test]
fn update_must_say_what_replaces_the_first_invalid_checkpoint() {
    let chain1 = chain(&[(1, 1), (2, 2), (3, 3)], &[]);
    // agrees at 1, goes past it, says nothing of 2
    let update = chain(&[(1, 1), (4, 4)], &[]);
    assert_eq!(chain1.determine_changeset(&update), Err(UpdateFailure::NotConnected(2)));
    // with another block at the height of the failure it connects
    let update = chain(&[(1, 1), (2, 9), (4, 4)], &[]);
    let changes = chain1.determine_changeset(&update).unwrap();
    assert_eq!(
        checkpoint_changes(&changes),
        vec![(2, Some(hash(9))), (3, None), (4, Some(hash(4)))]
    );
    // with the chain's own block there it fails further up
    let update = chain(&[(1, 1), (2, 2), (4, 4)], &[]);
    assert_eq!(chain1.determine_changeset(&update), Err(UpdateFailure::NotConnected(3)));
    let update = chain(&[(1, 1), (2, 2), (3, 3), (4, 4)], &[]);
    let changes = chain1.determine_changeset(&update).unwrap();
    assert_eq!(checkpoint_changes(&changes), vec![(4, Some(hash(4)))]);
}

#[test]
fn invalidated_transactions_become_unconfirmed() {
    let mut chain1 = chain(
        &[(1, 1), (2, 2), (4, 4)],
        &[(1, CONF(1)), (2, CONF(2)), (3, CONF(3)), (4, CONF(4)), (5, UNCONF), (6, CONF(2))],
    );
    let update = chain(&[(1, 1), (2, 9)], &[(6, CONF(2)), (4, CONF(2))]);
    let changes = chain1.determine_changeset(&update).unwrap();
    assert_eq!(checkpoint_changes(&changes), vec![(2, Some(hash(9))), (4, None)]);
    assert_eq!(
        tx_changes(&changes),
        vec![
            (txid(2), Some(UNCONF)),
            (txid(3), Some(UNCONF)),
            (txid(4), Some(CONF(2))),
            (txid(5), Some(UNCONF)),
        ]
    );
    chain1.apply_changeset(changes);
    assert_eq!(chain1.latest_checkpoint(), Some(block(2, 9)));
    assert_eq!(
        chain1.iter_txids(),
        &[
            (CONF(1), txid(1)),
            (CONF(2), txid(4)),
            (CONF(2), txid(6)),
            (UNCONF, txid(2)),
            (UNCONF, txid(3)),
            (UNCONF, txid(5)),
        ][..]
    );
}

#[test]
fn update_may_not_move_a_confirmed_transaction() {
    let chain1 = chain(&[(1, 1), (2, 2)], &[(1, CONF(1)), (2, CONF(2))]);
    let update = chain(&[(1, 1), (2, 9)], &[(1, CONF(2)), (2, UNCONF)]);
    assert_eq!(
        chain1.determine_changeset(&update),
        Err(UpdateFailure::InconsistentTx {
            inconsistent_txid: txid(1),
            original_index: CONF(1),
            update_index: CONF(2),
        })
    );
    // within the invalidated part it may
    let update = chain(&[(1, 1), (2, 9)], &[(2, UNCONF)]);
    let changes = chain1.determine_changeset(&update).unwrap();
    assert_eq!(tx_changes(&changes), vec![(txid(2), Some(UNCONF))]);
    // and an unconfirmed one may be confirmed
    let chain1 = chain(&[(1, 1), (2, 2)], &[(1, UNCONF)]);
    let update = chain(&[(2, 2)], &[(1, CONF(1))]);
    let changes = chain1.determine_changeset(&update).unwrap();
    assert_eq!(tx_changes(&changes), vec![(txid(1), Some(CONF(1)))]);
    assert!(changes.checkpoints.is_empty());
}

#[test]
fn connection_is_checked_before_consistency() {
    let chain1 = chain(&[(1, 1)], &[(1, CONF(0))]);
    let update = chain(&[(2, 2)], &[(1, CONF(2))]);
    assert_eq!(chain1.determine_changeset(&update), Err(UpdateFailure::NotConnected(1)));
}

#[test]
fn update_without_checkpoints() {
    let chain1 = chain(&[(1, 1)], &[(1, CONF(1)), (2, UNCONF)]);
    let update = chain(&[], &[(2, CONF(1)), (3, UNCONF)]);
    let changes = chain1.determine_changeset(&update).unwrap();
    assert!(changes.checkpoints.is_empty());
    assert_eq!(
        tx_changes(&changes),
        vec![(txid(2), Some(CONF(1))), (txid(3), Some(UNCONF))]
    );
    let update = chain(&[], &[(1, UNCONF)]);
    assert_eq!(
        chain1.determine_changeset(&update),
        Err(UpdateFailure::InconsistentTx {
            inconsistent_txid: txid(1),
            original_index: CONF(1),
            update_index: UNCONF,
        })
    );
}

#[test]
fn greatest_height() {
    // an update that ends where the chains agree still has to name a checkpoint at that height
    let chain1 = chain(&[(1, 1), (u32::MAX, 7)], &[(1, CONF(u32::MAX)), (2, CONF(2))]);
    let update = chain(&[(1, 1)], &[]);
    assert_eq!(
        chain1.determine_changeset(&update),
        Err(UpdateFailure::NotConnected(u32::MAX))
    );
    assert_eq!(
        chain1.determine_changeset(&chain(&[], &[])),
        Err(UpdateFailure::NotConnected(u32::MAX))
    );
    let update = chain(&[(u32::MAX, 7)], &[]);
    let changes = chain1.determine_changeset(&update).unwrap();
    assert!(changes.checkpoints.is_empty());
    assert_eq!(tx_changes(&changes), vec![(txid(1), Some(UNCONF))]);
}

#[test]
fn clearing_the_mempool() {
    let mut chain1 = chain(&[(5, 5)], &[(1, UNCONF), (2, CONF(5)), (0, UNCONF), (255, UNCONF)]);
    let changes = chain1.clear_mempool_changeset();
    assert_eq!(
        tx_changes(&changes),
        vec![(txid(0), None), (txid(1), None), (txid(255), None)]
    );
    assert!(changes.checkpoints.is_empty());
    assert!(changes.tx_additions().is_empty());
    chain1.clear_mempool();
    assert_eq!(chain1, chain(&[(5, 5)], &[(2, CONF(5))]));
}

#[test]
fn ranges_of_transactions() {
    let chain1 = chain(
        &[(9, 9)],
        &[(0, CONF(1)), (255, CONF(1)), (0x10, CONF(2)), (0x20, CONF(2)), (0x30, UNCONF)],
    );
    let all = [
        (CONF(1), txid(0)),
        (CONF(1), txid(255)),
        (CONF(2), txid(0x10)),
        (CONF(2), txid(0x20)),
        (UNCONF, txid(0x30)),
    ];
    assert_eq!(chain1.iter_txids(), &all[..]);
    assert_eq!(chain1.range_txids(Bound::Unbounded, Bound::Unbounded), &all[..]);
    assert_eq!(
        chain1.range_txids(
            Bound::Excluded((CONF(1), txid(0))),
            Bound::Included((CONF(2), txid(0x10)))
        ),
        &all[1..3]
    );
    assert_eq!(
        chain1.range_txids(
            Bound::Included((CONF(1), txid(1))),
            Bound::Excluded((CONF(2), txid(0x20)))
        ),
        &all[1..3]
    );
    let by_index = |s, e| chain1.range_txids_by_index(s, e).to_vec();
    let by_height = |s, e| chain1.range_txids_by_height(s, e).to_vec();
    for (start, end, from, to) in [
        (Bound::Included(CONF(1)), Bound::Included(CONF(1)), 0, 2),
        (Bound::Excluded(CONF(1)), Bound::Unbounded, 2, 5),
        (Bound::Excluded(CONF(1)), Bound::Excluded(UNCONF), 2, 4),
        (Bound::Included(CONF(2)), Bound::Excluded(CONF(2)), 2, 2),
        (Bound::Unbounded, Bound::Excluded(CONF(1)), 0, 0),
        (Bound::Excluded(CONF(2)), Bound::Included(UNCONF), 4, 5),
        (Bound::Included(CONF(7)), Bound::Included(CONF(9)), 4, 4),
    ] {
        assert_eq!(by_index(start, end), all[from..to].to_vec());
        assert_eq!(by_height(start, end), all[from..to].to_vec());
    }
}

#[test]
fn full_txout_and_spent_by() {
    let chain1 = chain(&[(5, 5)], &[(1, CONF(1)), (3, CONF(3))]);
    let outpoint = OutPoint { txid: txid(1), vout: 2 };
    let txout = TxOut { value: 1234, script_pubkey: vec![1, 2, 3] };
    let mut graph = TxGraph::new();
    assert_eq!(chain1.full_txout(&graph, outpoint), None);
    graph.insert_txout(outpoint, TxOut { value: 1, script_pubkey: vec![] });
    graph.insert_txout(outpoint, txout.clone());
    let full = chain1.full_txout(&graph, outpoint).unwrap();
    assert_eq!(full.outpoint, outpoint);
    assert_eq!(full.txout, txout);
    assert_eq!(full.chain_index, CONF(1));
    assert_eq!(full.spent_by, None);
    // a spender that is not in the chain does not count
    graph.insert_spend(outpoint, txid(2));
    assert_eq!(chain1.spent_by(&graph, outpoint), None);
    graph.insert_spend(outpoint, txid(3));
    graph.insert_spend(OutPoint { txid: txid(1), vout: 1 }, txid(1));
    assert_eq!(chain1.spent_by(&graph, outpoint), Some((&CONF(3), txid(3))));
    assert_eq!(
        chain1.full_txout(&graph, outpoint).unwrap().spent_by,
        Some((CONF(3), txid(3)))
    );
    // known to the graph, but not in the chain
    let elsewhere = OutPoint { txid: txid(9), vout: 0 };
    graph.insert_txout(elsewhere, txout);
    graph.insert_spend(elsewhere, txid(3));
    assert_eq!(chain1.full_txout(&graph, elsewhere), None);
    assert_eq!(chain1.spent_by(&graph, elsewhere), Some((&CONF(3), txid(3))));
    assert_eq!(graph.outspends(outpoint), vec![txid(2), txid(3)]);
    assert_eq!(graph.txout(OutPoint { txid: txid(1), vout: 0 }), None);
}

#[test]
fn full_txout_names_the_spender_that_spent_by_finds() {
    let chain1 = chain(&[(5, 5)], &[(1, CONF(1)), (3, CONF(3)), (4, CONF(4)), (6, UNCONF)]);
    let outpoint = OutPoint { txid: txid(1), vout: 0 };
    let spenders = [[2, 3, 4], [4, 2, 3], [6, 4, 2], [2, 6, 3], [3, 3, 6]];
    for listed in spenders {
        let mut graph = TxGraph::new();
        graph.insert_txout(outpoint, TxOut { value: 7, script_pubkey: vec![] });
        for n in listed {
            graph.insert_spend(outpoint, txid(n));
        }
        let (index, spender) = chain1.spent_by(&graph, outpoint).unwrap();
        assert!(listed.iter().any(|&n| txid(n) == spender));
        assert_eq!(chain1.tx_index(spender), Some(index));
        let full = chain1.full_txout(&graph, outpoint).unwrap();
        assert_eq!(full.spent_by, Some((*index, spender)));
    }
}

#[test]
fn apply_changeset_moves_and_removes() {
    let mut chain1 = chain(&[(1, 1), (2, 2)], &[(1, CONF(1)), (2, UNCONF)]);
    let mut changes: ChangeSet<TxHeight> = Default::default();
    changes.checkpoints.insert(1, None);
    changes.checkpoints.insert(2, Some(hash(8)));
    changes.checkpoints.insert(3, Some(hash(3)));
    changes.checkpoints.insert(9, None);
    changes.txids.insert(txid(1), None);
    changes.txids.insert(txid(2), Some(CONF(2)));
    changes.txids.insert(txid(3), Some(UNCONF));
    changes.txids.insert(txid(4), None);
    chain1.apply_changeset(changes);
    assert_eq!(chain1, chain(&[(2, 8), (3, 3)], &[(2, CONF(2)), (3, UNCONF)]));
    assert_eq!(chain1.iter_txids(), &[(CONF(2), txid(2)), (UNCONF, txid(3))][..]);
}
