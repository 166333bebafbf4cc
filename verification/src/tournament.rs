//! The bit-serial tournament on plain bits: what one round does to the mask
//! of active bidders, and what the mask and the amount are after some rounds.

use vstd::prelude::*;

verus! {

/// The mask before the first round: every bidder is active.
pub open spec fn all_active(bidders: nat) -> Seq<bool> {
    Seq::new(bidders, |j: int| true)
}

/// The signals of one round: bidder `j` is active and has a one at bit
/// `round`.
pub open spec fn round_signals(active: Seq<bool>, bids: Seq<Seq<bool>>, round: int) -> Seq<bool> {
    Seq::new(active.len(), |j: int| active[j] && bids[j][round])
}

/// Whether any flag in `flags` is set.
pub open spec fn any_set(flags: Seq<bool>) -> bool {
    exists|j: int| 0 <= j < flags.len() && #[trigger] flags[j]
}

/// The bit that a round decides: some active bidder has a one at bit `round`.
pub open spec fn decision_bit(active: Seq<bool>, bids: Seq<Seq<bool>>, round: int) -> bool {
    any_set(round_signals(active, bids, round))
}

/// A one-bit multiplexer made of AND, OR and NOT.
pub open spec fn select(choose_first: bool, first: bool, second: bool) -> bool {
    (choose_first && first) || (!choose_first && second)
}

/// The mask after one round: where the decision bit is set, those whose
/// signal is set stay; otherwise the mask is unchanged.
pub open spec fn next_active(active: Seq<bool>, bids: Seq<Seq<bool>>, round: int) -> Seq<bool> {
    let signals = round_signals(active, bids, round);
    let decision = any_set(signals);
    Seq::new(active.len(), |j: int| select(decision, signals[j], active[j]))
}

/// The mask of active bidders after the first `rounds` rounds.
pub open spec fn mask_after(bids: Seq<Seq<bool>>, rounds: nat) -> Seq<bool>
    decreases rounds,
{
    if rounds == 0 {
        all_active(bids.len())
    } else {
        next_active(mask_after(bids, (rounds - 1) as nat), bids, rounds - 1)
    }
}

/// The decision bits of the first `rounds` rounds, in order.
pub open spec fn amount_after(bids: Seq<Seq<bool>>, rounds: nat) -> Seq<bool> {
    Seq::new(rounds, |i: int| decision_bit(mask_after(bids, i as nat), bids, i))
}

/// A multiplexer gives its first input where the selector is set and its
/// second where it is not.
pub proof fn lemma_select_is_conditional(choose_first: bool, first: bool, second: bool)
    ensures
        select(choose_first, first, second) == if choose_first {
            first
        } else {
            second
        },
{
}

/// A round keeps the number of bidders.
pub proof fn lemma_mask_len(bids: Seq<Seq<bool>>, rounds: nat)
    ensures
        mask_after(bids, rounds).len() == bids.len(),
    decreases rounds,
{
    if rounds > 0 {
        lemma_mask_len(bids, (rounds - 1) as nat);
    }
}

/// One more round appends its decision bit to the amount.
pub proof fn lemma_amount_next(bids: Seq<Seq<bool>>, rounds: nat)
    ensures
        amount_after(bids, rounds + 1) == amount_after(bids, rounds).push(
            decision_bit(mask_after(bids, rounds), bids, rounds as int),
        ),
{
    assert(amount_after(bids, rounds + 1) =~= amount_after(bids, rounds).push(
        decision_bit(mask_after(bids, rounds), bids, rounds as int),
    ));
}

/// Looking at one more flag: some flag among the first `k + 1` is set
/// exactly where one among the first `k` is, or flag `k` is.
pub proof fn lemma_any_set_next(flags: Seq<bool>, k: int)
    requires
        0 <= k < flags.len(),
    ensures
        any_set(flags.take(k + 1)) == (any_set(flags.take(k)) || flags[k]),
{
    let shorter = flags.take(k);
    let longer = flags.take(k + 1);
    if any_set(longer) {
        let j = choose|j: int| 0 <= j < longer.len() && #[trigger] longer[j];
        if j < k {
            assert(shorter[j]);
        }
    }
    if any_set(shorter) {
        let j = choose|j: int| 0 <= j < shorter.len() && #[trigger] shorter[j];
        assert(longer[j]);
    }
    if flags[k] {
        assert(longer[k]);
    }
}

} // verus!
