//! The leaf builder: canonical encoding of `(identifier, status)` pairs.

use vstd::prelude::*;

use crate::digest::Digest;
use crate::hash::leaf_digest_of;
use crate::hash::leaf_hash;

verus! {

/// The digest of the leaf for an identifier and a status byte: the leaf
/// domain tag, the identifier bytes and the one-byte status are hashed as
/// one ordered message.
pub open spec fn leaf_digest(identifier: Seq<u8>, status: u8) -> Seq<u8> {
    leaf_digest_of(seq![identifier, seq![status]])
}

/// One record committed to the tree: a 32-byte identifying digest paired
/// with a one-byte status flag.
#[derive(Clone, Copy, Debug)]
pub struct Receipt {
    pub signature: Digest,
    pub status: u8,
}

/// Builds the leaf digest for one `(identifier, status)` pair.  The
/// identifier bytes and the status byte are passed to the leaf hash as two
/// discrete fields, in that order; the encoding is canonical, so equal pairs
/// always yield equal digests.
pub fn hash_leaf(identifier: &Vec<u8>, status: u8) -> (r: Digest)
    ensures
        r@ == leaf_digest(identifier@, status),
{
    let mut fields: Vec<Vec<u8>> = Vec::new();
    let mut ident: Vec<u8> = Vec::new();
    crate::hash::append_bytes(&mut ident, identifier.as_slice());
    let mut status_field: Vec<u8> = Vec::new();
    status_field.push(status);
    fields.push(ident);
    fields.push(status_field);
    proof {
        assert(fields.deep_view() =~~= seq![identifier@, seq![status]]);
    }
    leaf_hash(&fields)
}

/// The leaf digest of a receipt: its signature bytes as the identifier and
/// its status byte as the flag.
pub fn receipt_leaf(receipt: &Receipt) -> (r: Digest)
    ensures
        r@ == leaf_digest(receipt.signature@, receipt.status),
{
    let identifier = receipt.signature.to_vec();
    hash_leaf(&identifier, receipt.status)
}

/// Builds the leaf digest of every `(identifier, status)` pair, in order.
pub fn generate_leaf_nodes(data: &Vec<(Vec<u8>, u8)>) -> (leaves: Vec<Digest>)
    ensures
        leaves@.len() == data@.len(),
        forall|i: int|
            0 <= i < data@.len() ==> (#[trigger] leaves@[i])@ == leaf_digest(data@[i].0@, data@[i].1),
{
    let mut leaves: Vec<Digest> = Vec::new();
    let mut i: usize = 0;
    while i < data.len()
        invariant
            i <= data@.len(),
            leaves@.len() == i,
            forall|k: int|
                0 <= k < i ==> (#[trigger] leaves@[k])@ == leaf_digest(data@[k].0@, data@[k].1),
        decreases data@.len() - i,
    {
        let d = hash_leaf(&data[i].0, data[i].1);
        leaves.push(d);
        i = i + 1;
    }
    leaves
}

} // verus!
