//! The evaluation of the auction on ciphertexts: the shape check, the gates of
//! one round, and the rounds from the most significant bit to the least.

use crate::bids::{bid_value, highest_bid, well_shaped};
use crate::engine::{fits_key, gate_and, gate_not, gate_or, held_bit, trivial_encrypt};
use crate::error::{lemma_first_other_is, row_lengths, shape_fault, InputShapeError};
use crate::laws::{lemma_amount_is_highest_bid, lemma_mask_is_highest_bidders};
use crate::tournament::{
    all_active, amount_after, any_set, decision_bit, lemma_amount_next, lemma_any_set_next,
    mask_after, next_active, round_signals, select,
};
use tfhe::boolean::ciphertext::Ciphertext;
use tfhe::boolean::server_key::ServerKey;
use vstd::prelude::*;

verus! {

/// The bits that a row of ciphertexts holds.
pub open spec fn held_bits(key: ServerKey, row: Seq<Ciphertext>) -> Seq<bool> {
    Seq::new(row.len(), |i: int| held_bit(key, row[i]))
}

/// The bids that a matrix of ciphertexts holds, row by row.
pub open spec fn held_bids(key: ServerKey, bids: Seq<Vec<Ciphertext>>) -> Seq<Seq<bool>> {
    Seq::new(bids.len(), |j: int| held_bits(key, bids[j]@))
}

/// Every ciphertext of the row fits the key.
pub open spec fn all_fit(key: ServerKey, row: Seq<Ciphertext>) -> bool {
    forall|i: int| 0 <= i < row.len() ==> fits_key(key, #[trigger] row[i])
}

/// Every ciphertext of every row fits the key.
pub open spec fn bids_fit(key: ServerKey, bids: Seq<Vec<Ciphertext>>) -> bool {
    forall|j: int| 0 <= j < bids.len() ==> all_fit(key, (#[trigger] bids[j])@)
}

/// `mask` and `amount` hold the outcome of the auction on what `bids` holds:
/// the mask and the amount that the tournament ends with after `bid_bits`
/// rounds.
pub open spec fn holds_outcome(
    key: ServerKey,
    bids: Seq<Vec<Ciphertext>>,
    bid_bits: nat,
    mask: Seq<Ciphertext>,
    amount: Seq<Ciphertext>,
) -> bool {
    &&& held_bits(key, mask) == mask_after(held_bids(key, bids), bid_bits)
    &&& held_bits(key, amount) == amount_after(held_bids(key, bids), bid_bits)
}

/// What an outcome holds depends on what the bids hold and on nothing else:
/// two evaluations on bids that hold the same bits, whatever ciphertexts and
/// keys carry them, end with masks that hold the same bits and amounts that
/// hold the same bits.
pub proof fn lemma_outcome_is_determined(
    bid_bits: nat,
    first_key: ServerKey,
    first_bids: Seq<Vec<Ciphertext>>,
    first_mask: Seq<Ciphertext>,
    first_amount: Seq<Ciphertext>,
    second_key: ServerKey,
    second_bids: Seq<Vec<Ciphertext>>,
    second_mask: Seq<Ciphertext>,
    second_amount: Seq<Ciphertext>,
)
    requires
        holds_outcome(first_key, first_bids, bid_bits, first_mask, first_amount),
        holds_outcome(second_key, second_bids, bid_bits, second_mask, second_amount),
        held_bids(first_key, first_bids) == held_bids(second_key, second_bids),
    ensures
        held_bits(first_key, first_mask) == held_bits(second_key, second_mask),
        held_bits(first_key, first_amount) == held_bits(second_key, second_amount),
{
}

/// Bids without a fault in their shape hold well-shaped bids.
pub proof fn lemma_faultless_is_well_shaped(
    key: ServerKey,
    bids: Seq<Vec<Ciphertext>>,
    width: nat,
    bidders: nat,
)
    ensures
        shape_fault(row_lengths(bids), width, bidders) is None <==> well_shaped(
            held_bids(key, bids),
            width,
            bidders,
        ),
{
    let lengths = row_lengths(bids);
    let plain = held_bids(key, bids);
    if shape_fault(lengths, width, bidders) is None {
        assert forall|j: int| 0 <= j < plain.len() implies (#[trigger] plain[j]).len() == width by {
            assert(lengths[j] == width);
        }
    }
    if well_shaped(plain, width, bidders) {
        assert forall|j: int| 0 <= j < lengths.len() implies lengths[j] == width by {
            assert(plain[j].len() == width);
        }
    }
}

/// Looks at the shape of the bids before any gate is evaluated: at least two
/// bidders, one row for each, `bid_bits` ciphertexts in every row.
pub fn check_shape(bids: &Vec<Vec<Ciphertext>>, bid_bits: usize, bidder_count: usize) -> (checked:
    Result<(), InputShapeError>)
    ensures
        match checked {
            Ok(_) => shape_fault(row_lengths(bids@), bid_bits as nat, bidder_count as nat) is None,
            Err(fault) => shape_fault(row_lengths(bids@), bid_bits as nat, bidder_count as nat)
                == Some(fault),
        },
{
    if bidder_count < 2 {
        return Err(InputShapeError::TooFewBidders);
    }
    if bids.len() != bidder_count {
        return Err(InputShapeError::BidderCountMismatch);
    }
    let ghost lengths = row_lengths(bids@);
    let mut j: usize = 0;
    while j < bidder_count
        invariant
            2 <= bidder_count,
            j <= bidder_count,
            bidder_count == bids.len(),
            lengths == row_lengths(bids@),
            forall|k: int| 0 <= k < j ==> lengths[k] == bid_bits as nat,
        decreases bidder_count - j,
    {
        if bids[j].len() != bid_bits {
            proof {
                assert(lengths[j as int] != bid_bits as nat);
                lemma_first_other_is(lengths, bid_bits as nat, j as int);
            }
            return Err(InputShapeError::BidWidthMismatch { bidder: j });
        }
        j += 1;
    }
    Ok(())
}

/// The mask before the first round: one trivial encryption of `true` for
/// each bidder.
pub fn initial_mask(server_key: &ServerKey, bidder_count: usize) -> (mask: Vec<Ciphertext>)
    ensures
        mask@.len() == bidder_count,
        all_fit(*server_key, mask@),
        held_bits(*server_key, mask@) == all_active(bidder_count as nat),
{
    let mut mask: Vec<Ciphertext> = Vec::new();
    let mut j: usize = 0;
    while j < bidder_count
        invariant
            j <= bidder_count,
            mask@.len() == j,
            all_fit(*server_key, mask@),
            forall|k: int| 0 <= k < j ==> held_bit(*server_key, #[trigger] mask@[k]),
        decreases bidder_count - j,
    {
        let one = trivial_encrypt(server_key, true);
        mask.push(one);
        j += 1;
    }
    assert(held_bits(*server_key, mask@) =~= all_active(bidder_count as nat));
    mask
}

/// The signals of round `round`: for each bidder the AND of its mask bit and
/// its bid bit at `round`.
pub fn active_signals(
    server_key: &ServerKey,
    active: &Vec<Ciphertext>,
    bids: &Vec<Vec<Ciphertext>>,
    round: usize,
) -> (signals: Vec<Ciphertext>)
    requires
        active@.len() == bids@.len(),
        forall|j: int| 0 <= j < bids@.len() ==> round < (#[trigger] bids@[j])@.len(),
        all_fit(*server_key, active@),
        bids_fit(*server_key, bids@),
    ensures
        signals@.len() == active@.len(),
        all_fit(*server_key, signals@),
        held_bits(*server_key, signals@) == round_signals(
            held_bits(*server_key, active@),
            held_bids(*server_key, bids@),
            round as int,
        ),
{
    let bidders = active.len();
    let mut signals: Vec<Ciphertext> = Vec::new();
    let mut j: usize = 0;
    while j < bidders
        invariant
            j <= bidders,
            bidders == active@.len(),
            bidders == bids@.len(),
            forall|k: int| 0 <= k < bids@.len() ==> round < (#[trigger] bids@[k])@.len(),
            all_fit(*server_key, active@),
            bids_fit(*server_key, bids@),
            signals@.len() == j,
            all_fit(*server_key, signals@),
            forall|k: int|
                0 <= k < j ==> held_bit(*server_key, #[trigger] signals@[k]) == (held_bit(
                    *server_key,
                    active@[k],
                ) && held_bit(*server_key, bids@[k]@[round as int])),
        decreases bidders - j,
    {
        assert(all_fit(*server_key, bids@[j as int]@));
        let signal = gate_and(server_key, &active[j], &bids[j][round]);
        signals.push(signal);
        j += 1;
    }
    assert(held_bits(*server_key, signals@) =~= round_signals(
        held_bits(*server_key, active@),
        held_bids(*server_key, bids@),
        round as int,
    ));
    signals
}

/// The OR of all signals, taken from the first to the last with one gate
/// less than there are signals.
pub fn any_signal(server_key: &ServerKey, signals: &Vec<Ciphertext>) -> (decision: Ciphertext)
    requires
        signals@.len() >= 2,
        all_fit(*server_key, signals@),
    ensures
        fits_key(*server_key, decision),
        held_bit(*server_key, decision) == any_set(held_bits(*server_key, signals@)),
{
    let ghost flags = held_bits(*server_key, signals@);
    proof {
        lemma_any_set_next(flags, 0);
        lemma_any_set_next(flags, 1);
        assert(!any_set(flags.take(0)));
    }
    let mut decision = gate_or(server_key, &signals[0], &signals[1]);
    let mut j: usize = 2;
    while j < signals.len()
        invariant
            2 <= j <= signals@.len(),
            all_fit(*server_key, signals@),
            flags == held_bits(*server_key, signals@),
            fits_key(*server_key, decision),
            held_bit(*server_key, decision) == any_set(flags.take(j as int)),
        decreases signals@.len() - j,
    {
        proof {
            lemma_any_set_next(flags, j as int);
        }
        decision = gate_or(server_key, &decision, &signals[j]);
        j += 1;
    }
    assert(flags.take(j as int) =~= flags);
    decision
}

/// A one-bit multiplexer out of two ANDs and one OR. The caller hands in the
/// selector together with its negation, so that one NOT serves a whole round.
pub fn multiplex(
    server_key: &ServerKey,
    selector: &Ciphertext,
    negated_selector: &Ciphertext,
    first: &Ciphertext,
    second: &Ciphertext,
) -> (chosen: Ciphertext)
    requires
        fits_key(*server_key, *selector),
        fits_key(*server_key, *negated_selector),
        fits_key(*server_key, *first),
        fits_key(*server_key, *second),
        held_bit(*server_key, *negated_selector) == !held_bit(*server_key, *selector),
    ensures
        fits_key(*server_key, chosen),
        held_bit(*server_key, chosen) == select(
            held_bit(*server_key, *selector),
            held_bit(*server_key, *first),
            held_bit(*server_key, *second),
        ),
{
    let kept_first = gate_and(server_key, selector, first);
    let kept_second = gate_and(server_key, negated_selector, second);
    gate_or(server_key, &kept_first, &kept_second)
}

/// The mask after a round, out of the round's decision bit, its signals and
/// the mask before: one NOT, and one multiplexer for each bidder.
pub fn surviving_mask(
    server_key: &ServerKey,
    decision: &Ciphertext,
    signals: &Vec<Ciphertext>,
    active: &Vec<Ciphertext>,
) -> (next: Vec<Ciphertext>)
    requires
        signals@.len() == active@.len(),
        fits_key(*server_key, *decision),
        all_fit(*server_key, signals@),
        all_fit(*server_key, active@),
    ensures
        next@.len() == active@.len(),
        all_fit(*server_key, next@),
        forall|j: int|
            0 <= j < active@.len() ==> held_bit(*server_key, #[trigger] next@[j]) == select(
                held_bit(*server_key, *decision),
                held_bit(*server_key, signals@[j]),
                held_bit(*server_key, active@[j]),
            ),
{
    let bidders = active.len();
    let negated = gate_not(server_key, decision);
    let mut next: Vec<Ciphertext> = Vec::new();
    let mut j: usize = 0;
    while j < bidders
        invariant
            j <= bidders,
            bidders == active@.len(),
            bidders == signals@.len(),
            fits_key(*server_key, *decision),
            fits_key(*server_key, negated),
            held_bit(*server_key, negated) == !held_bit(*server_key, *decision),
            all_fit(*server_key, signals@),
            all_fit(*server_key, active@),
            next@.len() == j,
            all_fit(*server_key, next@),
            forall|k: int|
                0 <= k < j ==> held_bit(*server_key, #[trigger] next@[k]) == select(
                    held_bit(*server_key, *decision),
                    held_bit(*server_key, signals@[k]),
                    held_bit(*server_key, active@[k]),
                ),
        decreases bidders - j,
    {
        let chosen = multiplex(server_key, decision, &negated, &signals[j], &active[j]);
        next.push(chosen);
        j += 1;
    }
    next
}

/// One round of the tournament at bit `round`: the signals, their OR, and the
/// mask that the multiplexers leave. Returns the new mask and the decision
/// bit, which is the bit of the winning amount at `round`.
pub fn auction_round(
    server_key: &ServerKey,
    bids: &Vec<Vec<Ciphertext>>,
    active: &Vec<Ciphertext>,
    round: usize,
) -> (step: (Vec<Ciphertext>, Ciphertext))
    requires
        bids@.len() >= 2,
        active@.len() == bids@.len(),
        forall|j: int| 0 <= j < bids@.len() ==> round < (#[trigger] bids@[j])@.len(),
        all_fit(*server_key, active@),
        bids_fit(*server_key, bids@),
    ensures
        step.0@.len() == active@.len(),
        all_fit(*server_key, step.0@),
        fits_key(*server_key, step.1),
        held_bits(*server_key, step.0@) == next_active(
            held_bits(*server_key, active@),
            held_bids(*server_key, bids@),
            round as int,
        ),
        held_bit(*server_key, step.1) == decision_bit(
            held_bits(*server_key, active@),
            held_bids(*server_key, bids@),
            round as int,
        ),
{
    let signals = active_signals(server_key, active, bids, round);
    let decision = any_signal(server_key, &signals);
    let next = surviving_mask(server_key, &decision, &signals, active);
    assert(held_bits(*server_key, next@) =~= next_active(
        held_bits(*server_key, active@),
        held_bids(*server_key, bids@),
        round as int,
    ));
    (next, decision)
}

/// Evaluates the auction. `bids` holds one row for each of `bidder_count`
/// bidders, each row `bid_bits` ciphertexts, the most significant bit first.
///
/// Bids of another shape are refused before any gate is evaluated. Otherwise
/// the result is the winner mask, one ciphertext for each bidder in the order
/// of the rows, and the winning amount, `bid_bits` ciphertexts, the most
/// significant bit first. The amount holds the highest bid, and the mask
/// holds `true` for exactly the bidders who made it, so for several on a
/// tie. The gates of `tfhe` return no error, so none is handed on.
pub fn auction_circuit(
    server_key: &ServerKey,
    bids: &Vec<Vec<Ciphertext>>,
    bid_bits: usize,
    bidder_count: usize,
) -> (outcome: Result<(Vec<Ciphertext>, Vec<Ciphertext>), InputShapeError>)
    requires
        shape_fault(row_lengths(bids@), bid_bits as nat, bidder_count as nat) is None ==> bids_fit(
            *server_key,
            bids@,
        ),
    ensures
        match outcome {
            Ok((mask, amount)) => {
                let plain = held_bids(*server_key, bids@);
                &&& shape_fault(row_lengths(bids@), bid_bits as nat, bidder_count as nat) is None
                &&& mask@.len() == bidder_count
                &&& amount@.len() == bid_bits
                &&& all_fit(*server_key, mask@)
                &&& all_fit(*server_key, amount@)
                &&& holds_outcome(*server_key, bids@, bid_bits as nat, mask@, amount@)
                &&& bid_value(held_bits(*server_key, amount@)) == highest_bid(plain)
                &&& forall|j: int|
                    0 <= j < bidder_count ==> (held_bit(*server_key, #[trigger] mask@[j])
                        <==> bid_value(plain[j]) == highest_bid(plain))
            },
            Err(fault) => shape_fault(row_lengths(bids@), bid_bits as nat, bidder_count as nat)
                == Some(fault),
        },
{
    match check_shape(bids, bid_bits, bidder_count) {
        Err(fault) => {
            return Err(fault);
        },
        Ok(_) => {},
    }
    let ghost plain = held_bids(*server_key, bids@);
    proof {
        lemma_faultless_is_well_shaped(*server_key, bids@, bid_bits as nat, bidder_count as nat);
        assert forall|j: int| 0 <= j < bids@.len() implies (#[trigger] bids@[j])@.len()
            == bid_bits by {
            assert(plain[j].len() == bid_bits);
        }
    }
    let mut active = initial_mask(server_key, bidder_count);
    let mut amount: Vec<Ciphertext> = Vec::new();
    assert(held_bits(*server_key, amount@) =~= amount_after(plain, 0));
    let mut round: usize = 0;
    while round < bid_bits
        invariant
            round <= bid_bits,
            bids@.len() == bidder_count,
            bidder_count >= 2,
            plain == held_bids(*server_key, bids@),
            forall|j: int| 0 <= j < bids@.len() ==> (#[trigger] bids@[j])@.len() == bid_bits,
            bids_fit(*server_key, bids@),
            active@.len() == bidder_count,
            amount@.len() == round,
            all_fit(*server_key, active@),
            all_fit(*server_key, amount@),
            held_bits(*server_key, active@) == mask_after(plain, round as nat),
            held_bits(*server_key, amount@) == amount_after(plain, round as nat),
        decreases bid_bits - round,
    {
        let (next, decision) = auction_round(server_key, bids, &active, round);
        proof {
            lemma_amount_next(plain, round as nat);
            assert(held_bits(*server_key, amount@.push(decision)) =~= held_bits(
                *server_key,
                amount@,
            ).push(held_bit(*server_key, decision)));
        }
        active = next;
        amount.push(decision);
        round += 1;
    }
    proof {
        lemma_amount_is_highest_bid(plain, bid_bits as nat);
        assert forall|j: int| 0 <= j < bidder_count implies (held_bit(
            *server_key,
            #[trigger] active@[j],
        ) <==> bid_value(plain[j]) == highest_bid(plain)) by {
            lemma_mask_is_highest_bidders(plain, bid_bits as nat, j);
            assert(held_bits(*server_key, active@)[j] == held_bit(*server_key, active@[j]));
        }
    }
    Ok((active, amount))
}

} // verus!
