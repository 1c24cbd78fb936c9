//! The 32-byte digest value type.

use vstd::prelude::*;

verus! {

/// A fixed-size 32-byte hash digest.  Equality is byte-wise.
#[derive(Clone, Copy, PartialEq, Eq, Debug)]
pub struct Digest {
    pub bytes: [u8; 32],
}

impl View for Digest {
    type V = Seq<u8>;

    open spec fn view(&self) -> Seq<u8> {
        self.bytes@
    }
}

impl Digest {
    /// Copies the digest bytes into a growable byte vector.
    pub fn to_vec(&self) -> (v: Vec<u8>)
        ensures
            v@ == self@,
    {
        let mut v: Vec<u8> = Vec::new();
        let mut j: usize = 0;
        while j < 32
            invariant
                j <= 32,
                v@ == self@.take(j as int),
            decreases 32 - j,
        {
            v.push(self.bytes[j]);
            proof {
                assert(v@ =~= self@.take(j + 1));
            }
            j = j + 1;
        }
        proof {
            assert(self@.take(32) =~= self@);
        }
        v
    }
}

} // verus!
