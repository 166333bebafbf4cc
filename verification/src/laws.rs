//! What the tournament computes: after every round the mask marks the bidders
//! whose leading bits are the greatest, and after the last round it marks the
//! bidders with the highest bid, whose value the amount writes out.

use crate::bids::{
    bid_value, highest_bid, lemma_highest_bid_is, lemma_take_next, lemma_value_of_push, well_shaped,
};
use crate::tournament::{
    all_active, amount_after, any_set, lemma_amount_next, lemma_mask_len, mask_after, next_active,
    round_signals, select,
};
use vstd::prelude::*;

verus! {

/// What holds after `rounds` rounds: the amount so far is the leading bits of
/// every active bidder, some bidder is active, and the leading bits of every
/// other bidder write a smaller number.
pub open spec fn prefix_invariant(bids: Seq<Seq<bool>>, rounds: nat) -> bool {
    let mask = mask_after(bids, rounds);
    let amount = amount_after(bids, rounds);
    &&& mask.len() == bids.len()
    &&& amount.len() == rounds
    &&& exists|j: int| 0 <= j < bids.len() && #[trigger] mask[j]
    &&& forall|j: int|
        0 <= j < bids.len() ==> (#[trigger] mask[j] <==> bids[j].take(rounds as int) == amount)
    &&& forall|j: int|
        0 <= j < bids.len() && !(#[trigger] mask[j]) ==> bid_value(bids[j].take(rounds as int))
            < bid_value(amount)
}

/// Two sequences with a bit appended are equal exactly where the sequences
/// and the bits are.
proof fn lemma_push_equal(a: Seq<bool>, x: bool, b: Seq<bool>, y: bool)
    ensures
        (a.push(x) == b.push(y)) <==> (a == b && x == y),
{
    if a.push(x) == b.push(y) {
        assert(a.push(x).drop_last() =~= a);
        assert(b.push(y).drop_last() =~= b);
        assert(a.push(x).last() == x);
        assert(b.push(y).last() == y);
    }
}

/// The prefix invariant holds after every round: the mask is set exactly for
/// the bidders whose first `rounds` bits are the amount so far, and every
/// other bidder's first `rounds` bits write a strictly smaller number.
pub proof fn lemma_prefix_invariant(bids: Seq<Seq<bool>>, width: nat, rounds: nat)
    requires
        well_shaped(bids, width, bids.len()),
        rounds <= width,
    ensures
        prefix_invariant(bids, rounds),
    decreases rounds,
{
    if rounds == 0 {
        let mask = mask_after(bids, 0);
        let amount = amount_after(bids, 0);
        assert(mask[0]);
        assert forall|j: int| 0 <= j < bids.len() implies (#[trigger] mask[j] <==> bids[j].take(0)
            == amount) by {
            assert(bids[j].take(0) =~= amount);
        }
    } else {
        let r = (rounds - 1) as nat;
        lemma_prefix_invariant(bids, width, r);
        lemma_amount_next(bids, r);
        let old_mask = mask_after(bids, r);
        let old_amount = amount_after(bids, r);
        let signals = round_signals(old_mask, bids, r as int);
        let decision = any_set(signals);
        let mask = mask_after(bids, rounds);
        let amount = amount_after(bids, rounds);
        assert(mask == next_active(old_mask, bids, r as int));
        assert(amount == old_amount.push(decision));
        lemma_value_of_push(old_amount, decision);

        assert forall|j: int| 0 <= j < bids.len() implies {
            &&& (#[trigger] mask[j] <==> bids[j].take(rounds as int) == amount)
            &&& (!mask[j] ==> bid_value(bids[j].take(rounds as int)) < bid_value(amount))
        } by {
            let bit = bids[j][r as int];
            lemma_take_next(bids[j], r as int);
            lemma_push_equal(bids[j].take(r as int), bit, old_amount, decision);
            lemma_value_of_push(bids[j].take(r as int), bit);
            assert(signals[j] == (old_mask[j] && bit));
            assert(mask[j] == select(decision, signals[j], old_mask[j]));
            if old_mask[j] && bit {
                assert(signals[j]);
            }
        }

        if decision {
            let k = choose|k: int| 0 <= k < signals.len() && #[trigger] signals[k];
            assert(mask[k]);
        } else {
            let k = choose|k: int| 0 <= k < bids.len() && #[trigger] old_mask[k];
            assert(mask[k]);
        }
    }
}

/// After the last round: the mask is set for bidder `j` exactly where bid `j`
/// is the amount, and every other bid writes a smaller number than the amount.
pub proof fn lemma_final_mask(bids: Seq<Seq<bool>>, width: nat, j: int)
    requires
        well_shaped(bids, width, bids.len()),
        0 <= j < bids.len(),
    ensures
        mask_after(bids, width)[j] <==> bids[j] == amount_after(bids, width),
        !mask_after(bids, width)[j] ==> bid_value(bids[j]) < bid_value(amount_after(bids, width)),
{
    lemma_prefix_invariant(bids, width, width);
    assert(bids[j].take(width as int) =~= bids[j]);
}

/// After every round some bidder is still active.
pub proof fn lemma_some_bidder_active(bids: Seq<Seq<bool>>, width: nat, rounds: nat) -> (k: int)
    requires
        well_shaped(bids, width, bids.len()),
        rounds <= width,
    ensures
        0 <= k < bids.len(),
        mask_after(bids, rounds)[k],
{
    lemma_prefix_invariant(bids, width, rounds);
    let mask = mask_after(bids, rounds);
    choose|k: int| 0 <= k < bids.len() && #[trigger] mask[k]
}

/// The winning amount is the highest bid: after all rounds the amount writes
/// the greatest value among the bids.
pub proof fn lemma_amount_is_highest_bid(bids: Seq<Seq<bool>>, width: nat)
    requires
        well_shaped(bids, width, bids.len()),
    ensures
        amount_after(bids, width).len() == width,
        bid_value(amount_after(bids, width)) == highest_bid(bids),
{
    let amount = amount_after(bids, width);
    assert forall|j: int| 0 <= j < bids.len() implies bid_value(#[trigger] bids[j]) <= bid_value(
        amount,
    ) by {
        lemma_final_mask(bids, width, j);
    }
    let k = lemma_some_bidder_active(bids, width, width);
    lemma_final_mask(bids, width, k);
    assert(bid_value(bids[k]) == bid_value(amount));
    lemma_highest_bid_is(bids, bid_value(amount));
}

/// The winner mask is the set of the highest bidders: after all rounds the
/// mask is set for bidder `j` exactly where bid `j` has the greatest value,
/// so on a tie it is set for each of the tied bidders.
pub proof fn lemma_mask_is_highest_bidders(bids: Seq<Seq<bool>>, width: nat, j: int)
    requires
        well_shaped(bids, width, bids.len()),
        0 <= j < bids.len(),
    ensures
        mask_after(bids, width).len() == bids.len(),
        mask_after(bids, width)[j] <==> bid_value(bids[j]) == highest_bid(bids),
{
    lemma_mask_len(bids, width);
    lemma_amount_is_highest_bid(bids, width);
    lemma_final_mask(bids, width, j);
}

/// After round `round`, counted from zero, the mask is set exactly for the
/// bidders whose first `round + 1` bits are the first `round + 1` bits of a
/// highest bid, and every other bidder's leading bits write a smaller number
/// than those.
pub proof fn lemma_mask_follows_highest_prefix(
    bids: Seq<Seq<bool>>,
    width: nat,
    round: nat,
    top: int,
    j: int,
)
    requires
        well_shaped(bids, width, bids.len()),
        round < width,
        0 <= top < bids.len(),
        bid_value(bids[top]) == highest_bid(bids),
        0 <= j < bids.len(),
    ensures
        mask_after(bids, round + 1)[j] <==> bids[j].take(round + 1 as int) == bids[top].take(
            round + 1 as int,
        ),
        !mask_after(bids, round + 1)[j] ==> bid_value(bids[j].take(round + 1 as int)) < bid_value(
            bids[top].take(round + 1 as int),
        ),
{
    lemma_prefix_invariant(bids, width, round + 1);
    lemma_highest_stays_active(bids, width, round + 1, top);
    let mask = mask_after(bids, round + 1);
    assert(mask[top]);
    assert(mask[j] || !mask[j]);
}

/// A highest bidder is active after every round.
pub proof fn lemma_highest_stays_active(bids: Seq<Seq<bool>>, width: nat, rounds: nat, top: int)
    requires
        well_shaped(bids, width, bids.len()),
        rounds <= width,
        0 <= top < bids.len(),
        bid_value(bids[top]) == highest_bid(bids),
    ensures
        mask_after(bids, rounds)[top],
    decreases width - rounds,
{
    if rounds == width {
        lemma_mask_is_highest_bidders(bids, width, top);
    } else {
        lemma_highest_stays_active(bids, width, rounds + 1, top);
        lemma_mask_len(bids, rounds);
        let earlier = mask_after(bids, rounds);
        let signals = round_signals(earlier, bids, rounds as int);
        assert(mask_after(bids, rounds + 1) == next_active(earlier, bids, rounds as int));
        assert(mask_after(bids, rounds + 1)[top] == select(
            any_set(signals),
            signals[top],
            earlier[top],
        ));
        assert(signals[top] == (earlier[top] && bids[top][rounds as int]));
    }
}

/// Where all bids are equal, every bidder wins and the amount is the common
/// bid.
pub proof fn lemma_all_equal_all_win(bids: Seq<Seq<bool>>, width: nat)
    requires
        well_shaped(bids, width, bids.len()),
        forall|j: int| 0 <= j < bids.len() ==> #[trigger] bids[j] == bids[0],
    ensures
        mask_after(bids, width) == all_active(bids.len()),
        amount_after(bids, width) == bids[0],
{
    let mask = mask_after(bids, width);
    lemma_mask_len(bids, width);
    let k = lemma_some_bidder_active(bids, width, width);
    lemma_final_mask(bids, width, k);
    assert(bids[k] == bids[0]);
    assert forall|j: int| 0 <= j < bids.len() implies #[trigger] mask[j] by {
        lemma_final_mask(bids, width, j);
        assert(bids[j] == bids[0]);
    }
    assert(mask =~= all_active(bids.len()));
}

/// Two bidders whose bids differ in the last bit only: the one whose last bit
/// is set wins alone, and the amount is that bid.
pub proof fn lemma_two_bidders_last_bit(bids: Seq<Seq<bool>>, width: nat)
    requires
        well_shaped(bids, width, 2),
        width >= 1,
        bids[0].drop_last() == bids[1].drop_last(),
        bids[0].last() != bids[1].last(),
    ensures
        mask_after(bids, width) == seq![bids[0].last(), bids[1].last()],
        amount_after(bids, width) == if bids[0].last() {
            bids[0]
        } else {
            bids[1]
        },
{
    let mask = mask_after(bids, width);
    let shared = bids[0].drop_last();
    lemma_mask_len(bids, width);
    lemma_final_mask(bids, width, 0);
    lemma_final_mask(bids, width, 1);
    assert(bids[0] =~= shared.push(bids[0].last()));
    assert(bids[1] =~= shared.push(bids[1].last()));
    lemma_value_of_push(shared, bids[0].last());
    lemma_value_of_push(shared, bids[1].last());
    let k = lemma_some_bidder_active(bids, width, width);
    assert(k == 0 || k == 1);
    assert(mask[0] == bids[0].last());
    assert(mask[1] == bids[1].last());
    assert(mask =~= seq![bids[0].last(), bids[1].last()]);
}

} // verus!
