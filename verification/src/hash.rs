//! Domain-separated hashing: leaf hashing and internal-node hashing.
//!
//! Every digest is a SHA-256 hash of a preimage that starts with a one-byte
//! domain tag: [`LEAF_TAG`] for leaves, [`NODE_TAG`] for internal nodes.
//! Since the tags differ, a leaf preimage is never equal to a node preimage,
//! which defeats tree-structure substitution attacks.

use vstd::prelude::*;

use crate::digest::Digest;

verus! {

/// Domain tag prefixed to every leaf preimage.
pub const LEAF_TAG: u8 = 0;

/// Domain tag prefixed to every internal-node preimage.
pub const NODE_TAG: u8 = 1;

/// The SHA-256 digest of a byte sequence, as computed by the outside hashing
/// routine.  The result is a function of the input bytes alone.
pub uninterp spec fn sha256_of(data: Seq<u8>) -> Seq<u8>;

/// Relies on `solana_sdk::hash::hash`: it returns the 32-byte SHA-256 digest
/// of the given bytes, a function of those bytes alone.
#[verifier::external_body]
fn sha256(data: &Vec<u8>) -> (r: Digest)
    ensures
        r@ == sha256_of(data@),
{
    Digest { bytes: solana_sdk::hash::hash(data.as_slice()).to_bytes() }
}

/// The concatenation of a sequence of byte sequences, in order.
pub open spec fn concat_bytes(fields: Seq<Seq<u8>>) -> Seq<u8>
    decreases fields.len(),
{
    if fields.len() == 0 {
        Seq::empty()
    } else {
        fields.first() + concat_bytes(fields.drop_first())
    }
}

/// The bytes hashed for a leaf built from the given fields: the leaf domain
/// tag followed by the fields, concatenated in order.
pub open spec fn leaf_preimage(fields: Seq<Seq<u8>>) -> Seq<u8> {
    seq![LEAF_TAG] + concat_bytes(fields)
}

/// The digest of a leaf built from the given fields.
pub open spec fn leaf_digest_of(fields: Seq<Seq<u8>>) -> Seq<u8> {
    sha256_of(leaf_preimage(fields))
}

/// The bytes hashed for an internal node: the node domain tag, then the left
/// child digest, then the right child digest.
pub open spec fn node_preimage(left: Seq<u8>, right: Seq<u8>) -> Seq<u8> {
    seq![NODE_TAG] + left + right
}

/// The digest of an internal node over the two child digests.
pub open spec fn node_digest(left: Seq<u8>, right: Seq<u8>) -> Seq<u8> {
    sha256_of(node_preimage(left, right))
}

/// Appends all of `src` to `out`.
pub(crate) fn append_bytes(out: &mut Vec<u8>, src: &[u8])
    ensures
        final(out)@ == old(out)@ + src@,
{
    let ghost orig = out@;
    let mut j: usize = 0;
    while j < src.len()
        invariant
            j <= src@.len(),
            out@ == orig + src@.take(j as int),
        decreases src@.len() - j,
    {
        out.push(src[j]);
        proof {
            assert(out@ =~= orig + src@.take(j + 1));
        }
        j = j + 1;
    }
    proof {
        assert(orig + src@.take(src@.len() as int) =~= orig + src@);
    }
}

/// Taking one more field extends the concatenation by that field.
proof fn lemma_concat_bytes_take(fields: Seq<Seq<u8>>, i: int)
    requires
        0 <= i < fields.len(),
    ensures
        concat_bytes(fields.take(i + 1)) == concat_bytes(fields.take(i)) + fields[i],
    decreases i,
{
    let pre = fields.take(i + 1);
    if i == 0 {
        assert(pre.drop_first() =~= Seq::<Seq<u8>>::empty());
        assert(concat_bytes(fields.take(0)) + fields[0] =~= fields[0]);
        assert(pre.first() + concat_bytes(pre.drop_first()) =~= fields[0]);
    } else {
        lemma_concat_bytes_take(fields.drop_first(), i - 1);
        assert(pre.drop_first() =~= fields.drop_first().take(i));
        assert(fields.take(i).drop_first() =~= fields.drop_first().take(i - 1));
        assert(fields.drop_first()[i - 1] == fields[i]);
        assert(concat_bytes(fields.take(i)) == fields[0] + concat_bytes(fields.drop_first().take(i - 1)));
        assert(pre.first() + concat_bytes(pre.drop_first())
            == fields[0] + (concat_bytes(fields.drop_first().take(i - 1)) + fields[i]));
        assert(fields[0] + (concat_bytes(fields.drop_first().take(i - 1)) + fields[i])
            =~= (fields[0] + concat_bytes(fields.drop_first().take(i - 1))) + fields[i]);
    }
}

/// Hashes a leaf assembled from the given ordered fields: the digest of the
/// leaf domain tag followed by the concatenated fields.
pub fn leaf_hash(fields: &Vec<Vec<u8>>) -> (r: Digest)
    ensures
        r@ == leaf_digest_of(fields.deep_view()),
{
    let ghost view_fields = fields.deep_view();
    let mut buf: Vec<u8> = Vec::new();
    buf.push(LEAF_TAG);
    let mut i: usize = 0;
    while i < fields.len()
        invariant
            i <= view_fields.len(),
            view_fields.len() == fields@.len(),
            forall|k: int| 0 <= k < fields@.len() ==> view_fields[k] == fields@[k]@,
            buf@ == seq![LEAF_TAG] + concat_bytes(view_fields.take(i as int)),
        decreases view_fields.len() - i,
    {
        append_bytes(&mut buf, fields[i].as_slice());
        proof {
            lemma_concat_bytes_take(view_fields, i as int);
            assert((seq![LEAF_TAG] + concat_bytes(view_fields.take(i as int))) + view_fields[i as int]
                =~= seq![LEAF_TAG] + concat_bytes(view_fields.take(i + 1)));
        }
        i = i + 1;
    }
    proof {
        assert(view_fields.take(view_fields.len() as int) =~= view_fields);
    }
    sha256(&buf)
}

/// Hashes an internal node over two child digests, left before right.
pub fn node_hash(left: &Digest, right: &Digest) -> (r: Digest)
    ensures
        r@ == node_digest(left@, right@),
{
    let mut buf: Vec<u8> = Vec::new();
    buf.push(NODE_TAG);
    append_bytes(&mut buf, left.bytes.as_slice());
    append_bytes(&mut buf, right.bytes.as_slice());
    proof {
        assert(buf@ =~= node_preimage(left@, right@));
    }
    sha256(&buf)
}

/// Domain separation at the preimage level: the bytes hashed for an internal
/// node are never the bytes hashed for a leaf, whatever the leaf fields and
/// the child digests, because the first byte is the domain tag and the two
/// tags differ.
pub proof fn lemma_domain_separation(fields: Seq<Seq<u8>>, left: Seq<u8>, right: Seq<u8>)
    ensures
        leaf_preimage(fields) != node_preimage(left, right),
{
    assert(leaf_preimage(fields)[0] == LEAF_TAG);
    assert(node_preimage(left, right)[0] == NODE_TAG);
}

} // verus!
