//! Why a chain refuses a change.

use crate::chain_data::TxHeight;
use crate::hash_types;
use crate::hash_types::Txid;
use vstd::prelude::*;
use vstd::string::StringExecFns;

verus! {

/// Why a transaction cannot be inserted.
#[derive(Clone, Debug, PartialEq)]
pub enum InsertTxErr {
    TxTooHigh,
    TxMoved,
}

/// Why a checkpoint cannot be inserted.
#[derive(Clone, Debug, PartialEq)]
pub enum InsertCheckpointErr {
    HashNotMatching,
}

/// Represents an update failure of [`SparseChain`](crate::sparse_chain::SparseChain).
#[derive(Clone, Debug, PartialEq)]
pub enum UpdateFailure<I = TxHeight> {
    /// The update cannot be applied to the chain because the chain suffix it represents did not
    /// connect to the existing chain. This error case contains the checkpoint height to include so
    /// that the chains can connect.
    NotConnected(u32),
    /// The update contains inconsistent tx states (e.g. it changed the transaction's hieght).
    /// This error is usually the inconsistency found.
    InconsistentTx { inconsistent_txid: Txid, original_index: I, update_index: I },
}

impl InsertTxErr {
    /// The name of the error.
    pub fn to_string(&self) -> (text: String)
        ensures
            text@ == match self {
                InsertTxErr::TxTooHigh => "TxTooHigh"@,
                InsertTxErr::TxMoved => "TxMoved"@,
            },
    {
        match self {
            InsertTxErr::TxTooHigh => String::from_str("TxTooHigh"),
            InsertTxErr::TxMoved => String::from_str("TxMoved"),
        }
    }
}

impl InsertCheckpointErr {
    /// The name of the error.
    pub fn to_string(&self) -> (text: String)
        ensures
            text@ == "HashNotMatching"@,
    {
        String::from_str("HashNotMatching")
    }
}

/// The decimal digits of `n`.
pub open spec fn decimal(n: nat) -> Seq<char>
    decreases n,
{
    let digit = ('0' as int + n % 10) as char;
    if n < 10 {
        seq![digit]
    } else {
        decimal(n / 10).push(digit)
    }
}

/// `n` in decimal.
fn decimal_string(n: u32) -> (text: String)
    ensures
        text@ == decimal(n as nat),
    decreases n,
{
    let mut text: String = if n < 10 {
        String::new()
    } else {
        decimal_string(n / 10)
    };
    let digit: &str = match n % 10 {
        0 => "0",
        1 => "1",
        2 => "2",
        3 => "3",
        4 => "4",
        5 => "5",
        6 => "6",
        7 => "7",
        8 => "8",
        _ => "9",
    };
    proof {
        reveal_strlit("0");
        reveal_strlit("1");
        reveal_strlit("2");
        reveal_strlit("3");
        reveal_strlit("4");
        reveal_strlit("5");
        reveal_strlit("6");
        reveal_strlit("7");
        reveal_strlit("8");
        reveal_strlit("9");
    }
    assert(digit@ =~= seq![('0' as int + n % 10) as char]);
    text.append(digit);
    assert(text@ =~= decimal(n as nat));
    text
}

/// What a failure to connect says.
pub open spec fn not_connected_text(height: u32) -> Seq<char> {
    "the checkpoints in the update could not be connected to the checkpoints in the chain, try include checkpoint of height "@
        + decimal(height as nat) + " to connect"@
}

/// What an inconsistency says, given the texts of the two indices.
pub open spec fn inconsistent_text(txid: Txid, original: Seq<char>, update: Seq<char>) -> Seq<
    char,
> {
    "inconsistent update: first inconsistent tx is ("@ + hash_types::reversed_hex(txid@)
        + ") which had index ("@ + original + "), but is ("@ + update + ") in the update"@
}

/// The message for a failure to connect.
pub fn not_connected_message(height: u32) -> (text: String)
    ensures
        text@ == not_connected_text(height),
{
    let mut text: String = String::from_str(
        "the checkpoints in the update could not be connected to the checkpoints in the chain, try include checkpoint of height ",
    );
    text.append(decimal_string(height).as_str());
    text.append(" to connect");
    text
}

/// The message for an inconsistency, given the texts of the two indices.
pub fn inconsistent_tx_message(txid: &Txid, original_index: &str, update_index: &str) -> (text:
    String)
    ensures
        text@ == inconsistent_text(*txid, original_index@, update_index@),
{
    let mut text: String = String::from_str("inconsistent update: first inconsistent tx is (");
    text.append(hash_types::txid_to_string(txid).as_str());
    text.append(") which had index (");
    text.append(original_index);
    text.append("), but is (");
    text.append(update_index);
    text.append(") in the update");
    text
}

/// The text that a value's [`core::fmt::Debug`] makes of it, by way of `format!("{:?}", value)`.
///
/// Nothing is claimed of the text, as each type formats itself in its own way.
#[verifier::external_body]
fn debug_string<T: core::fmt::Debug>(value: &T) -> (text: String) {
    format!("{:?}", value)
}

/// `text` is a text that the value's [`core::fmt::Debug`] may make of it.
pub closed spec fn debug_text<T: core::fmt::Debug>(value: T, text: Seq<char>) -> bool {
    exists|s: String| #[trigger] call_ensures(debug_string::<T>, (&value,), s) && s@ == text
}

impl<I: core::fmt::Debug> UpdateFailure<I> {
    /// The message for a failure.
    ///
    /// What it says of an index is what the index says of itself.
    pub fn to_string(&self) -> (text: String)
        ensures
            match self {
                UpdateFailure::NotConnected(height) => text@ == not_connected_text(*height),
                UpdateFailure::InconsistentTx {
                    inconsistent_txid,
                    original_index,
                    update_index,
                } => exists|original: Seq<char>, update: Seq<char>|
                    {
                        &&& text@ == #[trigger] inconsistent_text(
                            *inconsistent_txid,
                            original,
                            update,
                        )
                        &&& debug_text(*original_index, original)
                        &&& debug_text(*update_index, update)
                    },
            },
    {
        match self {
            UpdateFailure::NotConnected(height) => not_connected_message(*height),
            UpdateFailure::InconsistentTx { inconsistent_txid, original_index, update_index } => {
                let original: String = debug_string(original_index);
                let update: String = debug_string(update_index);
                inconsistent_tx_message(inconsistent_txid, original.as_str(), update.as_str())
            },
        }
    }
}

} // verus!
