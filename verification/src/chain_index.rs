//! Positions in the chain by which transactions are ordered.

use crate::chain_data::TxHeight;
use crate::order;
use vstd::prelude::*;

verus! {

/// Represents an index in which transactions are ordered by in
/// [`SparseChain`](crate::sparse_chain::SparseChain).
///
/// [`ChainIndex`] implementations must be [`Ord`] by [`TxHeight`] first.
pub trait ChainIndex: core::fmt::Debug + Clone + Eq + PartialOrd + Ord + core::hash::Hash {
    /// The transaction height of the index.
    spec fn height_of(&self) -> TxHeight;

    /// The greatest index of a height.
    spec fn max_of(height: TxHeight) -> Self;

    /// The least index of a height.
    spec fn min_of(height: TxHeight) -> Self;

    /// `==` decides equality and `<` is a strict total order.
    proof fn lemma_lawful()
        ensures
            order::lawful::<Self>(),
    ;

    /// A clone is equal to what it was cloned from.
    proof fn lemma_clone(a: Self, b: Self)
        requires
            cloned(a, b),
        ensures
            a == b,
    ;

    /// The order goes by height first.
    proof fn lemma_height_first(a: Self, b: Self)
        requires
            a.height_of().before(b.height_of()),
        ensures
            order::lt(a, b),
    ;

    /// `max_of` and `min_of` bound the indices of their height.
    proof fn lemma_bounds(a: Self)
        ensures
            order::le(Self::min_of(a.height_of()), a),
            order::le(a, Self::max_of(a.height_of())),
    ;

    /// The bounds of a height are of that height.
    proof fn lemma_bounds_height(height: TxHeight)
        ensures
            Self::min_of(height).height_of() == height,
            Self::max_of(height).height_of() == height,
    ;

    /// Obtain the transaction height of the index.
    fn height(&self) -> (height: TxHeight)
        ensures
            height == self.height_of(),
    ;

    /// Obtain the index's upper bound of a given height.
    fn max_ord_of_height(height: TxHeight) -> (index: Self)
        ensures
            index == Self::max_of(height),
    ;

    /// Obtain the index's lower bound of a given height.
    fn min_ord_of_height(height: TxHeight) -> (index: Self)
        ensures
            index == Self::min_of(height),
    ;
}

/// A copy of `index`.
pub(crate) fn clone_index<I: ChainIndex>(index: &I) -> (copy: I)
    ensures
        copy == *index,
{
    let copy: I = index.clone();
    proof {
        I::lemma_clone(*index, copy);
    }
    copy
}

/// A copy of `index`, if there is one.
pub(crate) fn clone_option<I: ChainIndex>(index: &Option<I>) -> (copy: Option<I>)
    ensures
        copy == *index,
{
    match index {
        Some(index) => Some(clone_index(index)),
        None => None,
    }
}

/// An index is at or past the least one of a height just if its own height is not lower.
pub proof fn lemma_min_of<I: ChainIndex>(height: TxHeight, a: I)
    ensures
        order::le(I::min_of(height), a) <==> !a.height_of().before(height),
{
    I::lemma_lawful();
    I::lemma_bounds_height(height);
    if a.height_of().before(height) {
        I::lemma_height_first(a, I::min_of(height));
        order::lemma_asymmetric(a, I::min_of(height));
    } else if height.before(a.height_of()) {
        I::lemma_height_first(I::min_of(height), a);
    } else {
        assert(height == a.height_of());
        I::lemma_bounds(a);
    }
}

/// An index is at or before the greatest one of a height just if its own height is not higher.
pub proof fn lemma_max_of<I: ChainIndex>(height: TxHeight, a: I)
    ensures
        order::le(a, I::max_of(height)) <==> !height.before(a.height_of()),
{
    I::lemma_lawful();
    I::lemma_bounds_height(height);
    if height.before(a.height_of()) {
        I::lemma_height_first(I::max_of(height), a);
        order::lemma_asymmetric(I::max_of(height), a);
    } else if a.height_of().before(height) {
        I::lemma_height_first(a, I::max_of(height));
    } else {
        assert(height == a.height_of());
        I::lemma_bounds(a);
    }
}

} // verus!
