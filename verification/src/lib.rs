//! Sealed-bid, highest-price auction over bids that stay encrypted.
//!
//! Every bid reaches the evaluator as a row of ciphertexts, one per bit, the
//! most significant bit first. The evaluator narrows the set of bidders bit by
//! bit with the homomorphic gates AND, OR and NOT of `tfhe`, and hands back an
//! encrypted mask of the winners and the encrypted winning amount. What the
//! outputs hold is stated over the bits that the inputs hold, and proved
//! from the contracts of the three gates.

pub mod auction;
pub mod bids;
pub mod engine;
pub mod error;
pub mod laws;
pub mod tournament;
