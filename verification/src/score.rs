//! The scorer: a candidate's proof digest is installed as the last segment
//! of the 128-byte context buffer, the buffer is hashed, and the digest,
//! read as a 256-bit big-endian number, divides the all-ones constant.

use vstd::prelude::*;
use crate::crypto::{keccak256, keccak256_of};
use crate::u256::{U256, be_val, p256};

verus! {

/// The 128-byte context buffer: chain, contract and receiver identifiers
/// followed by the candidate's proof digest, 32 bytes each.
pub open spec fn mixin_seq(
    chain: Seq<u8>,
    contract: Seq<u8>,
    receiver: Seq<u8>,
    proof_seg: Seq<u8>,
) -> Seq<u8> {
    chain + contract + receiver + proof_seg
}

/// The divisor a proof digest scores against: the Keccak-256 digest of the
/// context buffer, read as a big-endian 256-bit number.
pub open spec fn divisor_of(
    chain: Seq<u8>,
    contract: Seq<u8>,
    receiver: Seq<u8>,
    proof_seg: Seq<u8>,
) -> nat {
    be_val(keccak256_of(mixin_seq(chain, contract, receiver, proof_seg)))
}

/// The value of a proof digest: the all-ones constant divided by the
/// divisor, and zero for the (astronomically unlikely) zero divisor, which
/// a generator never retains and a verifier counts as zero.
pub open spec fn value_of(
    chain: Seq<u8>,
    contract: Seq<u8>,
    receiver: Seq<u8>,
    proof_seg: Seq<u8>,
) -> nat {
    if divisor_of(chain, contract, receiver, proof_seg) == 0 {
        0
    } else {
        (p256() - 1) as nat / divisor_of(chain, contract, receiver, proof_seg)
    }
}

/// Appends all of `src` to `dst`.
pub(crate) fn append_bytes(dst: &mut Vec<u8>, src: &Vec<u8>)
    ensures
        final(dst)@ == old(dst)@ + src@,
{
    let n = src.len();
    let mut i: usize = 0;
    while i < n
        invariant
            i <= n,
            n == src@.len(),
            dst@ == old(dst)@ + src@.subrange(0, i as int),
        decreases n - i,
    {
        dst.push(src[i]);
        proof {
            assert(old(dst)@ + src@.subrange(0, i + 1) =~= (old(dst)@ + src@.subrange(0, i as int)).push(
                src@[i as int],
            ));
        }
        i = i + 1;
    }
    proof {
        assert(src@.subrange(0, n as int) =~= src@);
    }
}

/// Scores one proof digest against a context: returns the divisor, the
/// value, and whether the divisor was nonzero. Deterministic: the result is
/// a function of the four byte segments alone.
pub fn score(chain: &Vec<u8>, contract: &Vec<u8>, receiver: &Vec<u8>, proof_bytes: &Vec<u8>) -> (r:
    (U256, U256, bool))
    requires
        chain@.len() == 32,
        contract@.len() == 32,
        receiver@.len() == 32,
        proof_bytes@.len() == 32,
    ensures
        r.0.as_nat() == divisor_of(chain@, contract@, receiver@, proof_bytes@),
        r.2 == (r.0.as_nat() != 0),
        r.1.as_nat() == value_of(chain@, contract@, receiver@, proof_bytes@),
{
    let mut buf: Vec<u8> = Vec::new();
    append_bytes(&mut buf, chain);
    append_bytes(&mut buf, contract);
    append_bytes(&mut buf, receiver);
    append_bytes(&mut buf, proof_bytes);
    proof {
        assert(buf@ =~= mixin_seq(chain@, contract@, receiver@, proof_bytes@));
    }
    let digest = keccak256(&buf);
    let divisor = U256::from_be_bytes(&digest);
    if divisor.is_zero() {
        (divisor, U256::zero(), false)
    } else {
        let value = U256::div_from_max(&divisor);
        (divisor, value, true)
    }
}

} // verus!
