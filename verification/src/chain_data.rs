//! Heights, times and places in the chain.

use crate::chain_index::ChainIndex;
use crate::hash_types::BlockHash;
use crate::hash_types::Txid;
use crate::order;
use crate::transaction::OutPoint;
use crate::transaction::TxOut;
use core::cmp::Ordering;
use vstd::prelude::*;

verus! {

/// Represents the height in which a transaction is confirmed at.
///
/// Every confirmed height comes before `Unconfirmed`.
#[derive(Clone, Copy, Debug, Eq, Ord, Hash)]
pub enum TxHeight {
    Confirmed(u32),
    Unconfirmed,
}

impl TxHeight {
    /// Whether the height is that of a block.
    pub fn is_confirmed(&self) -> (r: bool)
        ensures
            r == (self is Confirmed),
    {
        match self {
            TxHeight::Confirmed(_) => true,
            TxHeight::Unconfirmed => false,
        }
    }

    /// `self` comes before `other`.
    pub open spec fn before(self, other: TxHeight) -> bool {
        match (self, other) {
            (TxHeight::Confirmed(a), TxHeight::Confirmed(b)) => a < b,
            (TxHeight::Confirmed(_), TxHeight::Unconfirmed) => true,
            (TxHeight::Unconfirmed, _) => false,
        }
    }
}

impl vstd::std_specs::cmp::PartialEqSpecImpl for TxHeight {
    open spec fn obeys_eq_spec() -> bool {
        true
    }

    open spec fn eq_spec(&self, other: &Self) -> bool {
        *self == *other
    }
}

impl PartialEq for TxHeight {
    fn eq(&self, other: &Self) -> (r: bool) {
        match (*self, *other) {
            (TxHeight::Confirmed(a), TxHeight::Confirmed(b)) => a == b,
            (TxHeight::Unconfirmed, TxHeight::Unconfirmed) => true,
            _ => false,
        }
    }
}

impl vstd::std_specs::cmp::PartialOrdSpecImpl for TxHeight {
    open spec fn obeys_partial_cmp_spec() -> bool {
        true
    }

    open spec fn partial_cmp_spec(&self, other: &Self) -> Option<Ordering> {
        if *self == *other {
            Some(Ordering::Equal)
        } else if self.before(*other) {
            Some(Ordering::Less)
        } else {
            Some(Ordering::Greater)
        }
    }
}

impl PartialOrd for TxHeight {
    fn partial_cmp(&self, other: &Self) -> (r: Option<Ordering>) {
        match (*self, *other) {
            (TxHeight::Confirmed(a), TxHeight::Confirmed(b)) => if a < b {
                Some(Ordering::Less)
            } else if a == b {
                Some(Ordering::Equal)
            } else {
                Some(Ordering::Greater)
            },
            (TxHeight::Confirmed(_), TxHeight::Unconfirmed) => Some(Ordering::Less),
            (TxHeight::Unconfirmed, TxHeight::Confirmed(_)) => Some(Ordering::Greater),
            (TxHeight::Unconfirmed, TxHeight::Unconfirmed) => Some(Ordering::Equal),
        }
    }
}

impl ChainIndex for TxHeight {
    open spec fn height_of(&self) -> TxHeight {
        *self
    }

    open spec fn max_of(height: TxHeight) -> Self {
        height
    }

    open spec fn min_of(height: TxHeight) -> Self {
        height
    }

    proof fn lemma_lawful() {
        reveal(order::lawful);
    }

    proof fn lemma_clone(a: Self, b: Self) {
    }

    proof fn lemma_height_first(a: Self, b: Self) {
    }

    proof fn lemma_bounds(a: Self) {
    }

    proof fn lemma_bounds_height(height: TxHeight) {
    }

    fn height(&self) -> (height: TxHeight) {
        *self
    }

    fn max_ord_of_height(height: TxHeight) -> (index: Self) {
        height
    }

    fn min_ord_of_height(height: TxHeight) -> (index: Self) {
        height
    }
}

/// Block height and timestamp in which a transaction is confirmed in.
#[derive(Clone, Copy, Debug, Eq, Ord, Hash)]
pub enum ConfirmationTime {
    Confirmed { height: u32, time: u64 },
    Unconfirmed,
}

impl ConfirmationTime {
    /// `self` comes before `other`: by height, then by time.
    pub open spec fn before(self, other: ConfirmationTime) -> bool {
        match (self, other) {
            (
                ConfirmationTime::Confirmed { height: h1, time: t1 },
                ConfirmationTime::Confirmed { height: h2, time: t2 },
            ) => h1 < h2 || (h1 == h2 && t1 < t2),
            (ConfirmationTime::Confirmed { .. }, ConfirmationTime::Unconfirmed) => true,
            (ConfirmationTime::Unconfirmed, _) => false,
        }
    }
}

impl vstd::std_specs::cmp::PartialEqSpecImpl for ConfirmationTime {
    open spec fn obeys_eq_spec() -> bool {
        true
    }

    open spec fn eq_spec(&self, other: &Self) -> bool {
        *self == *other
    }
}

impl PartialEq for ConfirmationTime {
    fn eq(&self, other: &Self) -> (r: bool) {
        match (self, other) {
            (
                ConfirmationTime::Confirmed { height: h1, time: t1 },
                ConfirmationTime::Confirmed { height: h2, time: t2 },
            ) => *h1 == *h2 && *t1 == *t2,
            (ConfirmationTime::Unconfirmed, ConfirmationTime::Unconfirmed) => true,
            _ => false,
        }
    }
}

impl vstd::std_specs::cmp::PartialOrdSpecImpl for ConfirmationTime {
    open spec fn obeys_partial_cmp_spec() -> bool {
        true
    }

    open spec fn partial_cmp_spec(&self, other: &Self) -> Option<Ordering> {
        if *self == *other {
            Some(Ordering::Equal)
        } else if self.before(*other) {
            Some(Ordering::Less)
        } else {
            Some(Ordering::Greater)
        }
    }
}

impl PartialOrd for ConfirmationTime {
    fn partial_cmp(&self, other: &Self) -> (r: Option<Ordering>) {
        match (self, other) {
            (
                ConfirmationTime::Confirmed { height: h1, time: t1 },
                ConfirmationTime::Confirmed { height: h2, time: t2 },
            ) => if *h1 < *h2 || (*h1 == *h2 && *t1 < *t2) {
                Some(Ordering::Less)
            } else if *h1 == *h2 && *t1 == *t2 {
                Some(Ordering::Equal)
            } else {
                Some(Ordering::Greater)
            },
            (ConfirmationTime::Confirmed { .. }, ConfirmationTime::Unconfirmed) => Some(
                Ordering::Less,
            ),
            (ConfirmationTime::Unconfirmed, ConfirmationTime::Confirmed { .. }) => Some(
                Ordering::Greater,
            ),
            (ConfirmationTime::Unconfirmed, ConfirmationTime::Unconfirmed) => Some(Ordering::Equal),
        }
    }
}

impl ChainIndex for ConfirmationTime {
    open spec fn height_of(&self) -> TxHeight {
        match self {
            ConfirmationTime::Confirmed { height, .. } => TxHeight::Confirmed(*height),
            ConfirmationTime::Unconfirmed => TxHeight::Unconfirmed,
        }
    }

    open spec fn max_of(height: TxHeight) -> Self {
        match height {
            TxHeight::Confirmed(height) => ConfirmationTime::Confirmed { height, time: u64::MAX },
            TxHeight::Unconfirmed => ConfirmationTime::Unconfirmed,
        }
    }

    open spec fn min_of(height: TxHeight) -> Self {
        match height {
            TxHeight::Confirmed(height) => ConfirmationTime::Confirmed { height, time: u64::MIN },
            TxHeight::Unconfirmed => ConfirmationTime::Unconfirmed,
        }
    }

    proof fn lemma_lawful() {
        reveal(order::lawful);
    }

    proof fn lemma_clone(a: Self, b: Self) {
    }

    proof fn lemma_height_first(a: Self, b: Self) {
    }

    proof fn lemma_bounds(a: Self) {
    }

    proof fn lemma_bounds_height(height: TxHeight) {
    }

    fn height(&self) -> (height: TxHeight) {
        match self {
            ConfirmationTime::Confirmed { height, .. } => TxHeight::Confirmed(*height),
            ConfirmationTime::Unconfirmed => TxHeight::Unconfirmed,
        }
    }

    fn max_ord_of_height(height: TxHeight) -> (index: Self) {
        match height {
            TxHeight::Confirmed(height) => ConfirmationTime::Confirmed { height, time: u64::MAX },
            TxHeight::Unconfirmed => ConfirmationTime::Unconfirmed,
        }
    }

    fn min_ord_of_height(height: TxHeight) -> (index: Self) {
        match height {
            TxHeight::Confirmed(height) => ConfirmationTime::Confirmed { height, time: u64::MIN },
            TxHeight::Unconfirmed => ConfirmationTime::Unconfirmed,
        }
    }
}

/// A reference to a block in the chain.
#[derive(Clone, Copy, Debug, PartialEq, Eq, PartialOrd, Ord, Hash)]
pub struct BlockId {
    /// The height the block was confirmed at.
    pub height: u32,
    /// The hash of the block.
    pub hash: BlockHash,
}

/// A `TxOut` with as much data as we can retrieve about it
#[derive(Clone, Debug, PartialEq)]
pub struct FullTxOut<I> {
    /// The location of the `TxOut`
    pub outpoint: OutPoint,
    /// The `TxOut`
    pub txout: TxOut,
    /// The position of the transaction in `outpoint` in the overall chain.
    pub chain_index: I,
    /// The position in the chain and txid of the transaction (if any) that spends this output.
    pub spent_by: Option<(I, Txid)>,
}

} // verus!
