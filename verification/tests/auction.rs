use rand::{thread_rng, Rng};
use sealed_auction::auction::{
    active_signals, any_signal, auction_circuit, auction_round, initial_mask, multiplex,
    surviving_mask,
};
use tfhe::boolean::ciphertext::Ciphertext;
use tfhe::boolean::client_key::ClientKey;
use tfhe::boolean::parameters::{
    BooleanParameters, DecompositionBaseLog, DecompositionLevelCount, DynamicDistribution,
    EncryptionKeyChoice, GlweDimension, LweDimension, PolynomialSize, StandardDev,
};
use tfhe::boolean::server_key::ServerKey;

/// A parameter set far too small to hide anything, with next to no noise: it
/// keeps every gate a real bootstrap and makes it fast.
fn quick_parameters() -> BooleanParameters {
    BooleanParameters {
        lwe_dimension: LweDimension(2),
        glwe_dimension: GlweDimension(1),
        polynomial_size: PolynomialSize(32),
        lwe_noise_distribution: DynamicDistribution::new_gaussian_from_std_dev(StandardDev(
            0.000000000001,
        )),
        glwe_noise_distribution: DynamicDistribution::new_gaussian_from_std_dev(StandardDev(
            0.000000000001,
        )),
        pbs_base_log: DecompositionBaseLog(16),
        pbs_level: DecompositionLevelCount(1),
        ks_base_log: DecompositionBaseLog(8),
        ks_level: DecompositionLevelCount(2),
        encryption_key_choice: EncryptionKeyChoice::Small,
    }
}

fn quick_keys() -> (ClientKey, ServerKey) {
    let client_key = ClientKey::new(&quick_parameters());
    let server_key = ServerKey::new(&client_key);
    (client_key, server_key)
}

/// Encrypts the low `bid_bits` bits of `bid`, the most significant first.
fn encrypt_bid(client_key: &ClientKey, bid: u64, bid_bits: usize) -> Vec<Ciphertext> {
    (0..bid_bits)
        .map(|i| client_key.encrypt((bid >> (bid_bits - 1 - i)) & 1 != 0))
        .collect()
}

fn encrypt_bids(client_key: &ClientKey, bids: &[u64], bid_bits: usize) -> Vec<Vec<Ciphertext>> {
    bids.iter().map(|bid| encrypt_bid(client_key, *bid, bid_bits)).collect()
}

fn encrypt_flags(client_key: &ClientKey, flags: &[bool]) -> Vec<Ciphertext> {
    flags.iter().map(|flag| client_key.encrypt(*flag)).collect()
}

fn decrypt_flags(client_key: &ClientKey, flags: &[Ciphertext]) -> Vec<bool> {
    flags.iter().map(|flag| client_key.decrypt(flag)).collect()
}

fn decrypt_amount(client_key: &ClientKey, amount: &[Ciphertext]) -> u64 {
    let mut value = 0u64;
    for bit in amount {
        value = (value << 1) | u64::from(client_key.decrypt(bit));
    }
    value
}

fn decrypt_winners(client_key: &ClientKey, mask: &[Ciphertext]) -> Vec<usize> {
    let mut winners = vec![];
    for (index, flag) in mask.iter().enumerate() {
        if client_key.decrypt(flag) {
            winners.push(index);
        }
    }
    winners
}

fn highest_bidders(bids: &[u64]) -> (u64, Vec<usize>) {
    let highest = *bids.iter().max().unwrap();
    let mut bidders = vec![];
    for (index, bid) in bids.iter().enumerate() {
        if *bid == highest {
            bidders.push(index);
        }
    }
    (highest, bidders)
}

fn run_auction(bids: &[u64], bid_bits: usize) -> (u64, Vec<usize>) {
    let (client_key, server_key) = quick_keys();
    let encrypted = encrypt_bids(&client_key, bids, bid_bits);
    let (mask, amount) = auction_circuit(&server_key, &encrypted, bid_bits, bids.len()).unwrap();
    assert_eq!(mask.len(), bids.len());
    assert_eq!(amount.len(), bid_bits);
    (decrypt_amount(&client_key, &amount), decrypt_winners(&client_key, &mask))
}

#[test]
fn auction_circuit_works() {
    let bidders = 50;
    let bid_bits = 64;

    let bids = (0..bidders).map(|_| thread_rng().gen::<u64>()).collect::<Vec<u64>>();

    let (client_key, server_key) = quick_keys();
    let encrypted_bids = encrypt_bids(&client_key, &bids, bid_bits);

    let now = std::time::Instant::now();
    let (winner_identity_bit, winning_amount_bits) =
        auction_circuit(&server_key, &encrypted_bids, bid_bits, bidders).unwrap();
    println!("Auction runtime: {}ms", now.elapsed().as_millis());

    let expected_highest_bid_amount = bids.iter().max().unwrap();
    let mut expected_highest_bidder_identity = vec![];
    bids.iter().enumerate().for_each(|(index, bid)| {
        if bid == expected_highest_bid_amount {
            expected_highest_bidder_identity.push(index);
        }
    });

    let mut res_highest_bid_amount = 0u64;
    winning_amount_bits.iter().enumerate().for_each(|(index, ct)| {
        let bit = client_key.decrypt(ct);
        res_highest_bid_amount += u64::from(bit) << (bid_bits - 1 - index);
    });

    let mut res_highest_bidder_identity = vec![];
    winner_identity_bit.iter().enumerate().for_each(|(index, bit_ct)| {
        let bit = client_key.decrypt(bit_ct);
        if bit {
            res_highest_bidder_identity.push(index);
        }
    });

    assert_eq!(*expected_highest_bid_amount, res_highest_bid_amount);
    assert_eq!(expected_highest_bidder_identity, res_highest_bidder_identity);
}

#[test]
fn one_bidder_wins_with_the_highest_bid() {
    let (amount, winners) = run_auction(&[0b101, 0b110, 0b100], 3);
    assert_eq!(amount, 0b110);
    assert_eq!(winners, vec![1]);
}

#[test]
fn tied_bidders_all_win() {
    let (amount, winners) = run_auction(&[5, 5, 3], 3);
    assert_eq!(amount, 5);
    assert_eq!(winners, vec![0, 1]);
}

#[test]
fn equal_bids_make_every_bidder_a_winner() {
    let (amount, winners) = run_auction(&[9, 9, 9, 9], 4);
    assert_eq!(amount, 9);
    assert_eq!(winners, vec![0, 1, 2, 3]);

    let (amount, winners) = run_auction(&[0, 0], 5);
    assert_eq!(amount, 0);
    assert_eq!(winners, vec![0, 1]);
}

#[test]
fn two_bidders_apart_in_the_last_bit() {
    let (amount, winners) = run_auction(&[0b1010, 0b1011], 4);
    assert_eq!(amount, 0b1011);
    assert_eq!(winners, vec![1]);

    let (amount, winners) = run_auction(&[0b0111, 0b0110], 4);
    assert_eq!(amount, 0b0111);
    assert_eq!(winners, vec![0]);

    let (amount, winners) = run_auction(&[1, 0], 1);
    assert_eq!(amount, 1);
    assert_eq!(winners, vec![0]);
}

#[test]
fn amount_is_the_maximum_and_mask_its_bidders() {
    let bid_bits = 8;
    for _ in 0..5 {
        let bids = (0..6).map(|_| thread_rng().gen::<u64>() & 0xff).collect::<Vec<u64>>();
        let (amount, winners) = run_auction(&bids, bid_bits);
        let (highest, bidders) = highest_bidders(&bids);
        assert_eq!(amount, highest);
        assert_eq!(winners, bidders);
    }
}

#[test]
fn fresh_encryptions_of_the_same_bids_give_the_same_outcome() {
    let bids = [13u64, 7, 13, 2, 11];
    let (client_key, server_key) = quick_keys();
    let first = encrypt_bids(&client_key, &bids, 4);
    let second = encrypt_bids(&client_key, &bids, 4);
    let (first_mask, first_amount) = auction_circuit(&server_key, &first, 4, 5).unwrap();
    let (second_mask, second_amount) = auction_circuit(&server_key, &second, 4, 5).unwrap();
    assert_eq!(decrypt_amount(&client_key, &first_amount), 13);
    assert_eq!(decrypt_amount(&client_key, &second_amount), 13);
    assert_eq!(decrypt_winners(&client_key, &first_mask), vec![0, 2]);
    assert_eq!(decrypt_winners(&client_key, &second_mask), vec![0, 2]);

    let (other_amount, other_winners) = run_auction(&bids, 4);
    assert_eq!(other_amount, 13);
    assert_eq!(other_winners, vec![0, 2]);
}

#[test]
fn mask_after_each_round_marks_the_leading_bits_of_the_maximum() {
    let bids = [0b101u64, 0b110, 0b100];
    let (client_key, server_key) = quick_keys();
    let encrypted = encrypt_bids(&client_key, &bids, 3);

    let before = initial_mask(&server_key, 3);
    assert_eq!(decrypt_flags(&client_key, &before), vec![true, true, true]);

    let (after_first, first_bit) = auction_round(&server_key, &encrypted, &before, 0);
    assert!(client_key.decrypt(&first_bit));
    assert_eq!(decrypt_flags(&client_key, &after_first), vec![true, true, true]);

    let (after_second, second_bit) = auction_round(&server_key, &encrypted, &after_first, 1);
    assert!(client_key.decrypt(&second_bit));
    assert_eq!(decrypt_flags(&client_key, &after_second), vec![false, true, false]);

    let (after_third, third_bit) = auction_round(&server_key, &encrypted, &after_second, 2);
    assert!(!client_key.decrypt(&third_bit));
    assert_eq!(decrypt_flags(&client_key, &after_third), vec![false, true, false]);
}

#[test]
fn round_without_a_set_bit_leaves_the_mask() {
    let bids = [0b01u64, 0b00, 0b01];
    let (client_key, server_key) = quick_keys();
    let encrypted = encrypt_bids(&client_key, &bids, 2);
    let active = encrypt_flags(&client_key, &[true, false, true]);
    let (next, bit) = auction_round(&server_key, &encrypted, &active, 0);
    assert!(!client_key.decrypt(&bit));
    assert_eq!(decrypt_flags(&client_key, &next), vec![true, false, true]);
}

#[test]
fn bids_without_bits_all_win_with_an_empty_amount() {
    let (client_key, server_key) = quick_keys();
    let bids: Vec<Vec<Ciphertext>> = vec![vec![], vec![], vec![]];
    let (mask, amount) = auction_circuit(&server_key, &bids, 0, 3).unwrap();
    assert!(amount.is_empty());
    assert_eq!(decrypt_winners(&client_key, &mask), vec![0, 1, 2]);
}

#[test]
fn trivially_encrypted_bids_are_accepted() {
    let (client_key, server_key) = quick_keys();
    let reserve: Vec<Ciphertext> =
        [true, false, false, true].iter().map(|bit| server_key.trivial_encrypt(*bit)).collect();
    let bids = vec![
        encrypt_bid(&client_key, 0b1000, 4),
        reserve,
        encrypt_bid(&client_key, 0b0111, 4),
    ];
    let (mask, amount) = auction_circuit(&server_key, &bids, 4, 3).unwrap();
    assert_eq!(decrypt_amount(&client_key, &amount), 0b1001);
    assert_eq!(decrypt_winners(&client_key, &mask), vec![1]);
}

#[test]
fn initial_mask_holds_true_for_every_bidder() {
    let (client_key, server_key) = quick_keys();
    let mask = initial_mask(&server_key, 4);
    assert_eq!(decrypt_flags(&client_key, &mask), vec![true, true, true, true]);
    assert!(initial_mask(&server_key, 0).is_empty());
}

#[test]
fn signals_are_mask_and_bid_bit() {
    let (client_key, server_key) = quick_keys();
    let bids = encrypt_bids(&client_key, &[0b10, 0b11, 0b01, 0b11], 2);
    let active = encrypt_flags(&client_key, &[true, false, true, true]);
    let first = active_signals(&server_key, &active, &bids, 0);
    assert_eq!(decrypt_flags(&client_key, &first), vec![true, false, false, true]);
    let second = active_signals(&server_key, &active, &bids, 1);
    assert_eq!(decrypt_flags(&client_key, &second), vec![false, false, true, true]);
}

#[test]
fn any_signal_is_the_or_of_all() {
    let (client_key, server_key) = quick_keys();
    let cases: [(&[bool], bool); 6] = [
        (&[false, false], false),
        (&[true, false], true),
        (&[false, true], true),
        (&[false, false, false, false], false),
        (&[false, false, false, true], true),
        (&[true, true, true], true),
    ];
    for (flags, expected) in cases {
        let signals = encrypt_flags(&client_key, flags);
        let decision = any_signal(&server_key, &signals);
        assert_eq!(client_key.decrypt(&decision), expected);
    }
}

#[test]
fn multiplex_selects_by_the_selector() {
    let (client_key, server_key) = quick_keys();
    for selector in [false, true] {
        for first in [false, true] {
            for second in [false, true] {
                let chosen = multiplex(
                    &server_key,
                    &client_key.encrypt(selector),
                    &client_key.encrypt(!selector),
                    &client_key.encrypt(first),
                    &client_key.encrypt(second),
                );
                let expected = if selector { first } else { second };
                assert_eq!(client_key.decrypt(&chosen), expected);
            }
        }
    }
}

#[test]
fn surviving_mask_takes_signals_or_keeps_the_mask() {
    let (client_key, server_key) = quick_keys();
    let signals = encrypt_flags(&client_key, &[true, false, false]);
    let active = encrypt_flags(&client_key, &[true, true, false]);

    let taken = surviving_mask(&server_key, &client_key.encrypt(true), &signals, &active);
    assert_eq!(decrypt_flags(&client_key, &taken), vec![true, false, false]);

    let none = encrypt_flags(&client_key, &[false, false, false]);
    let kept = surviving_mask(&server_key, &client_key.encrypt(false), &none, &active);
    assert_eq!(decrypt_flags(&client_key, &kept), vec![true, true, false]);
}
