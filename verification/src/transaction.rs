//! The outputs of transactions.

use crate::hash_types;
use crate::hash_types::Txid;
use vstd::prelude::*;

verus! {

/// A reference to a transaction output.
#[derive(Clone, Copy, Debug, PartialEq, Eq, PartialOrd, Ord, Hash)]
pub struct OutPoint {
    /// The referenced transaction's txid.
    pub txid: Txid,
    /// The index of the referenced output in its transaction's vout.
    pub vout: u32,
}

impl OutPoint {
    /// Whether both refer to the same output.
    pub fn same(&self, other: &OutPoint) -> (r: bool)
        ensures
            r == (*self == *other),
    {
        proof {
            if self.txid@ == other.txid@ {
                hash_types::lemma_txid_from_bytes(self.txid, other.txid);
            }
        }
        self.vout == other.vout && self.txid == other.txid
    }
}

/// A transaction output.
#[derive(Debug, PartialEq, Eq, PartialOrd, Ord, Hash)]
pub struct TxOut {
    /// The value of the output, in satoshis.
    pub value: u64,
    /// The script which must be satisfied for the output to be spent.
    pub script_pubkey: Vec<u8>,
}

/// What a [`TxOut`] holds.
pub struct TxOutView {
    pub value: u64,
    pub script_pubkey: Seq<u8>,
}

impl View for TxOut {
    type V = TxOutView;

    open spec fn view(&self) -> TxOutView {
        TxOutView { value: self.value, script_pubkey: self.script_pubkey@ }
    }
}

impl Clone for TxOut {
    fn clone(&self) -> (copy: Self)
        ensures
            copy@ == self@,
    {
        let script_pubkey: Vec<u8> = self.script_pubkey.clone();
        assert(script_pubkey@ =~= self.script_pubkey@);
        TxOut { value: self.value, script_pubkey }
    }
}

} // verus!
