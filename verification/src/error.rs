//! Why an auction is refused before any gate is evaluated.

use vstd::prelude::*;

verus! {

/// The bids do not have the shape that the evaluation was asked for.
#[derive(Clone, Copy, Debug, PartialEq, Eq, Structural)]
pub enum InputShapeError {
    /// Fewer than two bidders were announced.
    TooFewBidders,
    /// The number of rows is not the number of bidders announced.
    BidderCountMismatch,
    /// A row has not the announced number of bits; `bidder` is the first
    /// such row.
    BidWidthMismatch { bidder: usize },
}

/// The lengths of the rows, which is all of the bids that their shape
/// depends on.
pub open spec fn row_lengths<T>(bids: Seq<Vec<T>>) -> Seq<nat> {
    Seq::new(bids.len(), |j: int| bids[j]@.len())
}

/// What is wrong with the shape of the bids, if anything: the number of
/// bidders is looked at first, then the number of rows, then the rows in
/// order.
pub open spec fn shape_fault(lengths: Seq<nat>, width: nat, bidders: nat) -> Option<
    InputShapeError,
> {
    if bidders < 2 {
        Some(InputShapeError::TooFewBidders)
    } else if lengths.len() != bidders {
        Some(InputShapeError::BidderCountMismatch)
    } else if exists|j: int| 0 <= j < lengths.len() && lengths[j] != width {
        Some(InputShapeError::BidWidthMismatch { bidder: first_other(lengths, width) as usize })
    } else {
        None
    }
}

/// The index of the first length that is not `width`; the number of lengths
/// where all are.
pub open spec fn first_other(lengths: Seq<nat>, width: nat) -> nat
    decreases lengths.len(),
{
    if lengths.len() == 0 {
        0
    } else if lengths[0] != width {
        0
    } else {
        1 + first_other(lengths.drop_first(), width)
    }
}

/// `first_other` is the one index whose length differs while all before it
/// do not.
pub proof fn lemma_first_other_is(lengths: Seq<nat>, width: nat, k: int)
    requires
        0 <= k <= lengths.len(),
        forall|j: int| 0 <= j < k ==> lengths[j] == width,
        k < lengths.len() ==> lengths[k] != width,
    ensures
        first_other(lengths, width) == k,
    decreases lengths.len(),
{
    if k > 0 {
        let rest = lengths.drop_first();
        assert(lengths[0] == width);
        assert forall|j: int| 0 <= j < k - 1 implies rest[j] == width by {
            assert(rest[j] == lengths[j + 1]);
        }
        lemma_first_other_is(rest, width, k - 1);
    }
}

} // verus!
