//! The boolean ciphertexts of `tfhe` and the gates that its server key
//! evaluates on them. The contracts here are believed, not proved: each says
//! what `tfhe` documents of one call.

use tfhe::boolean::ciphertext::Ciphertext;
use tfhe::boolean::server_key::BinaryBooleanGates;
use tfhe::boolean::server_key::ServerKey;
use vstd::prelude::*;

verus! {

/// `tfhe::boolean::ciphertext::Ciphertext`: one encrypted bit. Nothing of its
/// inside is visible to the proofs.
#[verifier::external_type_specification]
#[verifier::external_body]
pub struct ExCiphertext(Ciphertext);

/// `tfhe::boolean::server_key::ServerKey`: the public key under which gates
/// are evaluated.
#[verifier::external_type_specification]
#[verifier::external_body]
pub struct ExServerKey(ServerKey);

/// Whether `ct` is a ciphertext that the gates of `key` work on: a trivial
/// encryption, an encryption under the client key that `key` belongs to, or
/// what a gate of `key` gave on such ciphertexts. On any other operand a gate
/// may panic or give a meaningless result.
pub uninterp spec fn fits_key(key: ServerKey, ct: Ciphertext) -> bool;

/// The bit that `ct` holds: what decryption under the client key that `key`
/// belongs to gives. It means something only where `fits_key(key, ct)`.
pub uninterp spec fn held_bit(key: ServerKey, ct: Ciphertext) -> bool;

/// `ServerKey::trivial_encrypt`: wraps `bit` in a ciphertext without any key
/// material. Such a ciphertext decrypts to `bit` under every client key and
/// is accepted by every gate.
#[verifier::external_body]
pub(crate) fn trivial_encrypt(key: &ServerKey, bit: bool) -> (out: Ciphertext)
    ensures
        fits_key(*key, out),
        held_bit(*key, out) == bit,
{
    key.trivial_encrypt(bit)
}

/// `BinaryBooleanGates::and` of `ServerKey`: the homomorphic AND. On two
/// ciphertexts that fit the key, the result fits the key and holds the
/// conjunction of the two bits. `tfhe` promises this up to the failure
/// probability of the key's parameter set, which this contract leaves aside.
#[verifier::external_body]
pub(crate) fn gate_and(key: &ServerKey, left: &Ciphertext, right: &Ciphertext) -> (out: Ciphertext)
    requires
        fits_key(*key, *left),
        fits_key(*key, *right),
    ensures
        fits_key(*key, out),
        held_bit(*key, out) == (held_bit(*key, *left) && held_bit(*key, *right)),
{
    key.and(left, right)
}

/// `BinaryBooleanGates::or` of `ServerKey`: the homomorphic OR. On two
/// ciphertexts that fit the key, the result fits the key and holds the
/// disjunction of the two bits, up to the same failure probability.
#[verifier::external_body]
pub(crate) fn gate_or(key: &ServerKey, left: &Ciphertext, right: &Ciphertext) -> (out: Ciphertext)
    requires
        fits_key(*key, *left),
        fits_key(*key, *right),
    ensures
        fits_key(*key, out),
        held_bit(*key, out) == (held_bit(*key, *left) || held_bit(*key, *right)),
{
    key.or(left, right)
}

/// `ServerKey::not`: the homomorphic NOT, which negates the ciphertext
/// without bootstrapping. The result fits the key and holds the negated bit.
#[verifier::external_body]
pub(crate) fn gate_not(key: &ServerKey, ct: &Ciphertext) -> (out: Ciphertext)
    requires
        fits_key(*key, *ct),
    ensures
        fits_key(*key, out),
        held_bit(*key, out) == !held_bit(*key, *ct),
{
    key.not(ct)
}

} // verus!
