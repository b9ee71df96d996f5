use bdk_core::error::{inconsistent_tx_message, not_connected_message};
use bdk_core::sparse_chain::{InsertCheckpointErr, InsertTxErr, UpdateFailure};
use bdk_core::{BlockHash, TxHeight, Txid, TxidMap};

fn some_bytes() -> Vec<[u8; 32]> {
    let mut counting = [0u8; 32];
    for i in 0..32 {
        counting[i] = i as u8;
    }
    let mut last = [0u8; 32];
    last[31] = 1;
    let mut first = [0u8; 32];
    first[0] = 1;
    vec![[0; 32], last, counting, first, [0x7f; 32], [0xff; 32]]
}

fn outside(bytes: [u8; 32]) -> bitcoin::Txid {
    <bitcoin::Txid as bitcoin::hashes::Hash>::from_inner(bytes)
}

#[test]
fn txids_are_ordered_like_those_of_bitcoin() {
    for a in some_bytes() {
        for b in some_bytes() {
            let ours = (Txid(a), Txid(b));
            let theirs = (outside(a), outside(b));
            assert_eq!(ours.0.partial_cmp(&ours.1), theirs.0.partial_cmp(&theirs.1));
            assert_eq!(ours.0.cmp(&ours.1), theirs.0.cmp(&theirs.1));
            assert_eq!(ours.0 == ours.1, theirs.0 == theirs.1);
            assert_eq!(ours.0 < ours.1, theirs.0 < theirs.1);
            assert_eq!(BlockHash(a) == BlockHash(b), a == b);
        }
    }
}

#[test]
fn failures_say_what_is_wrong() {
    assert_eq!(InsertTxErr::TxTooHigh.to_string(), "TxTooHigh");
    assert_eq!(InsertTxErr::TxMoved.to_string(), "TxMoved");
    assert_eq!(InsertCheckpointErr::HashNotMatching.to_string(), "HashNotMatching");
    for height in [0, 7, 10, 1090, u32::MAX] {
        let expected = format!(
            "the checkpoints in the update could not be connected to the checkpoints in the chain, try include checkpoint of height {} to connect",
            height
        );
        assert_eq!(not_connected_message(height), expected);
        assert_eq!(UpdateFailure::<TxHeight>::NotConnected(height).to_string(), expected);
    }
    let mut bytes = [0u8; 32];
    bytes[0] = 0xab;
    bytes[31] = 0x10;
    let hex = "10000000000000000000000000000000000000000000000000000000000000ab";
    let expected = format!(
        "inconsistent update: first inconsistent tx is ({}) which had index (Confirmed(3)), but is (Unconfirmed) in the update",
        hex
    );
    assert_eq!(
        inconsistent_tx_message(&Txid(bytes), "Confirmed(3)", "Unconfirmed"),
        expected
    );
    assert_eq!(
        UpdateFailure::InconsistentTx {
            inconsistent_txid: Txid(bytes),
            original_index: TxHeight::Confirmed(3),
            update_index: TxHeight::Unconfirmed,
        }
        .to_string(),
        expected
    );
}

#[test]
fn txid_map_is_a_map() {
    let mut map: TxidMap<u32> = TxidMap::new();
    assert!(map.is_empty());
    assert_eq!(map.insert(Txid([3; 32]), 30), None);
    assert_eq!(map.insert(Txid([1; 32]), 10), None);
    assert_eq!(map.insert(Txid([2; 32]), 20), None);
    assert_eq!(map.insert(Txid([2; 32]), 22), Some(20));
    assert_eq!(map.get(&Txid([2; 32])), Some(&22));
    assert_eq!(map.get(&Txid([4; 32])), None);
    assert_eq!(
        map.entries(),
        &[(Txid([1; 32]), 10), (Txid([2; 32]), 22), (Txid([3; 32]), 30)][..]
    );
    assert_eq!(map.remove(&Txid([1; 32])), Some(10));
    assert_eq!(map.remove(&Txid([1; 32])), None);
    assert!(!map.is_empty());
}
