//! The two hashes of the commitment: Poseidon over many elements for leaves, and a
//! Pedersen hash of two elements, taken in ascending order, for parents.

use crate::felt::Felt;
use starknet_crypto::{pedersen_hash, poseidon_hash_many, FieldElement};
use vstd::prelude::*;

verus! {

/// What `starknet_crypto::pedersen_hash` returns for two element values.
pub uninterp spec fn pedersen_of(a: nat, b: nat) -> nat;

/// What `starknet_crypto::poseidon_hash_many` returns for a sequence of element values.
pub uninterp spec fn poseidon_of(xs: Seq<nat>) -> nat;

/// The values of a sequence of elements.
pub open spec fn values_of(s: Seq<Felt>) -> Seq<nat> {
    s.map_values(|f: Felt| f.value())
}

/// The parent value of two sibling values: the Pedersen hash of the smaller, then
/// the larger.
pub open spec fn pair_hash(a: nat, b: nat) -> nat {
    if a < b {
        pedersen_of(a, b)
    } else {
        pedersen_of(b, a)
    }
}

/// The pairing hash does not depend on the order of its arguments.
pub proof fn lemma_pair_hash_symmetric(a: nat, b: nat)
    ensures
        pair_hash(a, b) == pair_hash(b, a),
{
}

/// Relies on `starknet_crypto::pedersen_hash`: a canonical element that depends on
/// the two input values alone.
#[verifier::external_body]
fn pedersen(a: &Felt, b: &Felt) -> (r: Felt)
    requires
        a.wf(),
        b.wf(),
    ensures
        r.wf(),
        r.value() == pedersen_of(a.value(), b.value()),
{
    let x = FieldElement::from_bytes_be(&a.bytes).unwrap();
    let y = FieldElement::from_bytes_be(&b.bytes).unwrap();
    Felt { bytes: pedersen_hash(&x, &y).to_bytes_be() }
}

/// Relies on `starknet_crypto::poseidon_hash_many`: a canonical element that depends
/// on the sequence of input values alone.
#[verifier::external_body]
pub(crate) fn poseidon_many(v: &Vec<Felt>) -> (r: Felt)
    requires
        forall|i: int| 0 <= i < v@.len() ==> #[trigger] v@[i].wf(),
    ensures
        r.wf(),
        r.value() == poseidon_of(values_of(v@)),
{
    let mut xs: Vec<FieldElement> = Vec::new();
    for f in v.iter() {
        xs.push(FieldElement::from_bytes_be(&f.bytes).unwrap());
    }
    Felt { bytes: poseidon_hash_many(&xs).to_bytes_be() }
}

/// The pairing hash of two elements: Pedersen of the smaller, then the larger.
pub fn hash(a: &Felt, b: &Felt) -> (r: Felt)
    requires
        a.wf(),
        b.wf(),
    ensures
        r.wf(),
        r.value() == pair_hash(a.value(), b.value()),
{
    if a.lt(b) {
        pedersen(a, b)
    } else {
        pedersen(b, a)
    }
}

} // verus!
