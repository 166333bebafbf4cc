//! Bids as mathematics: a bid is a sequence of bits, the most significant
//! first, and stands for the number that those bits write in base two.

use vstd::prelude::*;

verus! {

/// The number that `bits` writes in base two, most significant bit first.
pub open spec fn bid_value(bits: Seq<bool>) -> nat
    decreases bits.len(),
{
    if bits.len() == 0 {
        0
    } else {
        2 * bid_value(bits.drop_last()) + if bits.last() { 1nat } else { 0nat }
    }
}

/// The shape that an auction asks of its bids: at least two bidders, one row
/// for each of them, and every row `width` bits long.
pub open spec fn well_shaped(bids: Seq<Seq<bool>>, width: nat, bidders: nat) -> bool {
    &&& bidders >= 2
    &&& bids.len() == bidders
    &&& forall|j: int| 0 <= j < bids.len() ==> (#[trigger] bids[j]).len() == width
}

/// The greatest value among `bids`; zero where there is no bid.
pub open spec fn highest_bid(bids: Seq<Seq<bool>>) -> nat
    decreases bids.len(),
{
    if bids.len() == 0 {
        0
    } else {
        let rest = highest_bid(bids.drop_last());
        let last = bid_value(bids.last());
        if last >= rest {
            last
        } else {
            rest
        }
    }
}

/// No bid is above `highest_bid`.
pub proof fn lemma_highest_bid_bounds(bids: Seq<Seq<bool>>, j: int)
    requires
        0 <= j < bids.len(),
    ensures
        bid_value(bids[j]) <= highest_bid(bids),
    decreases bids.len(),
{
    if j < bids.len() - 1 {
        lemma_highest_bid_bounds(bids.drop_last(), j);
    }
}

/// Some bid reaches `highest_bid`.
pub proof fn lemma_highest_bid_attained(bids: Seq<Seq<bool>>) -> (j: int)
    requires
        bids.len() > 0,
    ensures
        0 <= j < bids.len(),
        bid_value(bids[j]) == highest_bid(bids),
    decreases bids.len(),
{
    let rest = bids.drop_last();
    if rest.len() == 0 || bid_value(bids.last()) >= highest_bid(rest) {
        bids.len() - 1
    } else {
        lemma_highest_bid_attained(rest)
    }
}

/// A value that some bid has and no bid exceeds is `highest_bid`.
pub proof fn lemma_highest_bid_is(bids: Seq<Seq<bool>>, top: nat)
    requires
        exists|j: int| 0 <= j < bids.len() && bid_value(#[trigger] bids[j]) == top,
        forall|j: int| 0 <= j < bids.len() ==> bid_value(#[trigger] bids[j]) <= top,
    ensures
        highest_bid(bids) == top,
{
    let k = choose|j: int| 0 <= j < bids.len() && bid_value(#[trigger] bids[j]) == top;
    lemma_highest_bid_bounds(bids, k);
    let m = lemma_highest_bid_attained(bids);
    assert(bid_value(bids[m]) <= top);
}

/// Appending a bit doubles the value and adds the bit.
pub proof fn lemma_value_of_push(bits: Seq<bool>, bit: bool)
    ensures
        bid_value(bits.push(bit)) == 2 * bid_value(bits) + if bit { 1nat } else { 0nat },
{
    assert(bits.push(bit).drop_last() =~= bits);
}

/// The first `k + 1` bits are the first `k` bits and the bit at `k`.
pub proof fn lemma_take_next(bits: Seq<bool>, k: int)
    requires
        0 <= k < bits.len(),
    ensures
        bits.take(k + 1) == bits.take(k).push(bits[k]),
{
    assert(bits.take(k + 1) =~= bits.take(k).push(bits[k]));
}

} // verus!
