//! The context ("mixin") that binds the chain, contract and receiver
//! identifiers and the payment target, the generation loop that mines
//! secrets until the target is met, and the two verification modes that
//! recompute a claimed total from revealed secrets or proofs.

use vstd::prelude::*;
use crate::accumulator::{
    Accumulator,
    NetworkSecret,
    lemma_mod_add,
    proofs_of,
    secrets_of,
    sum,
    values_of,
};
use crate::codec::{all_len32, chunks_of, concat_chunks, lemma_chunks_of_concat, read_chunk};
use crate::crypto::{keccak256, keccak256_of, random_secret};
use crate::score::{divisor_of, score, value_of};
use crate::u256::{U256, be_val, p256};

verus! {

/// How an operation fails: a verifier's input is not a positive multiple of
/// 32 bytes, or a generation ran out of its attempt budget before the
/// retained values reached the target.
#[derive(Clone, Copy, Debug, PartialEq, Eq, Structural)]
pub enum NetworkError {
    MalformedLength,
    AttemptsExhausted,
}

/// The session context: three fixed 32-byte identifiers and the target the
/// generation loop must reach.
pub struct NetworkMixin {
    chain: Vec<u8>,
    contract: Vec<u8>,
    receiver: Vec<u8>,
    target: U256,
}

/// A candidate entry is correctly scored against a context: its proof is
/// the digest of its secret, its divisor is nonzero, and its value is the
/// score of its proof.
pub open spec fn entry_scored(m: NetworkMixin, e: NetworkSecret) -> bool {
    &&& e.wf()
    &&& e.proof_bytes@ == keccak256_of(e.secret_bytes@)
    &&& divisor_of(m.chain_seq(), m.contract_seq(), m.receiver_seq(), e.proof_bytes@) != 0
    &&& e.value_u256.as_nat() == value_of(
        m.chain_seq(),
        m.contract_seq(),
        m.receiver_seq(),
        e.proof_bytes@,
    )
}

/// Every entry of the sequence is correctly scored.
pub open spec fn entries_scored(m: NetworkMixin, s: Seq<NetworkSecret>) -> bool {
    forall|i: int| 0 <= i < s.len() ==> entry_scored(m, #[trigger] s[i])
}

/// The values of a sequence of proof chunks under a context.
pub open spec fn proof_chunk_values(m: NetworkMixin, chunks: Seq<Seq<u8>>) -> Seq<nat> {
    Seq::new(
        chunks.len(),
        |i: int| value_of(m.chain_seq(), m.contract_seq(), m.receiver_seq(), chunks[i]),
    )
}

/// What verifying a sequence of proof chunks totals to.
pub open spec fn proofs_total(m: NetworkMixin, chunks: Seq<Seq<u8>>) -> nat {
    sum(proof_chunk_values(m, chunks)) % p256()
}

/// The values of a sequence of secret chunks under a context: each secret
/// is hashed into its proof first.
pub open spec fn secret_chunk_values(m: NetworkMixin, chunks: Seq<Seq<u8>>) -> Seq<nat> {
    Seq::new(
        chunks.len(),
        |i: int|
            value_of(m.chain_seq(), m.contract_seq(), m.receiver_seq(), keccak256_of(chunks[i])),
    )
}

/// What verifying a sequence of secret chunks totals to.
pub open spec fn secrets_total(m: NetworkMixin, chunks: Seq<Seq<u8>>) -> nat {
    sum(secret_chunk_values(m, chunks)) % p256()
}

impl NetworkMixin {
    pub closed spec fn chain_seq(self) -> Seq<u8> {
        self.chain@
    }

    pub closed spec fn contract_seq(self) -> Seq<u8> {
        self.contract@
    }

    pub closed spec fn receiver_seq(self) -> Seq<u8> {
        self.receiver@
    }

    /// The payment target as a number.
    pub closed spec fn target_nat(self) -> nat {
        self.target.as_nat()
    }

    /// The three identifiers are 32 bytes each.
    pub open spec fn wf(self) -> bool {
        self.chain_seq().len() == 32 && self.contract_seq().len() == 32 && self.receiver_seq().len()
            == 32
    }

    /// Builds a context from the three 32-byte identifiers and the 32-byte
    /// big-endian target price.
    pub fn new(chain: Vec<u8>, contract: Vec<u8>, receiver: Vec<u8>, price: Vec<u8>) -> (r:
        NetworkMixin)
        requires
            chain@.len() == 32,
            contract@.len() == 32,
            receiver@.len() == 32,
            price@.len() == 32,
        ensures
            r.wf(),
            r.chain_seq() == chain@,
            r.contract_seq() == contract@,
            r.receiver_seq() == receiver@,
            r.target_nat() == be_val(price@),
    {
        let target = U256::from_be_bytes(&price);
        NetworkMixin { chain, contract, receiver, target }
    }

    /// Mines random secrets until the retained values total at least the
    /// target, checking the attempt budget once per iteration. A zero
    /// divisor is resampled, never retained. On success the accumulator
    /// holds at most ten correctly scored entries whose running total,
    /// which is their value sum modulo 2^256, has reached the target; a
    /// zero target succeeds at once with nothing retained.
    pub fn generate(&self, attempts: u64) -> (r: Result<Accumulator, NetworkError>)
        requires
            self.wf(),
        ensures
            match r {
                Ok(acc) => {
                    &&& acc.wf()
                    &&& acc.total_nat() >= self.target_nat()
                    &&& acc.entries_seq().len() <= 10
                    &&& entries_scored(*self, acc.entries_seq())
                    &&& acc.total_nat() == sum(values_of(acc.entries_seq())) % p256()
                    &&& (self.target_nat() == 0 ==> acc.entries_seq().len() == 0
                        && acc.total_nat() == 0)
                },
                Err(e) => e == NetworkError::AttemptsExhausted && self.target_nat() > 0,
            },
    {
        let mut acc = Accumulator::new();
        let mut tries: u64 = 0;
        while tries < attempts
            invariant
                self.wf(),
                acc.wf(),
                tries <= attempts,
                entries_scored(*self, acc.entries_seq()),
                self.target_nat() == 0 ==> acc.entries_seq().len() == 0 && acc.total_nat() == 0,
            decreases attempts - tries,
        {
            let reached = acc.total();
            if !reached.lt(&self.target) {
                return Ok(acc);
            }
            let secret = random_secret();
            let digest = keccak256(&secret);
            let (_divisor, value, ok) = score(&self.chain, &self.contract, &self.receiver, &digest);
            if ok {
                let cand = NetworkSecret {
                    secret_bytes: secret,
                    proof_bytes: digest,
                    value_u256: value,
                };
                let ghost pre = acc.entries_seq();
                proof {
                    assert(entry_scored(*self, cand));
                }
                let _accepted = acc.offer(cand);
                proof {
                    assert forall|i: int| 0 <= i < acc.entries_seq().len() implies entry_scored(
                        *self,
                        #[trigger] acc.entries_seq()[i],
                    ) by {
                        let e = acc.entries_seq()[i];
                        if e != cand {
                            assert(pre.contains(e));
                            let j = choose|j: int| 0 <= j < pre.len() && pre[j] == e;
                            assert(entry_scored(*self, pre[j]));
                        }
                    }
                }
            }
            tries = tries + 1;
        }
        let reached = acc.total();
        if !reached.lt(&self.target) {
            Ok(acc)
        } else {
            Err(NetworkError::AttemptsExhausted)
        }
    }

    /// Recomputes a total from revealed proofs: each 32-byte chunk is
    /// installed as the proof segment, scored, and its value (zero for a
    /// zero divisor) added to the total modulo 2^256. The input must be a
    /// positive multiple of 32 bytes, else nothing is hashed and the length
    /// error comes back.
    pub fn verify_proofs(&self, data: &Vec<u8>) -> (r: Result<Vec<u8>, NetworkError>)
        requires
            self.wf(),
        ensures
            match r {
                Ok(out) => {
                    &&& data@.len() > 0 && data@.len() % 32 == 0
                    &&& out@.len() == 32
                    &&& be_val(out@) == proofs_total(*self, chunks_of(data@))
                },
                Err(e) => e == NetworkError::MalformedLength && (data@.len() == 0 || data@.len()
                    % 32 != 0),
            },
    {
        let len = data.len();
        if len == 0 || len % 32 != 0 {
            return Err(NetworkError::MalformedLength);
        }
        let n = len / 32;
        let mut total = U256::zero();
        let mut k: usize = 0;
        proof {
            assert(proof_chunk_values(*self, chunks_of(data@).subrange(0, 0)) =~= Seq::<
                nat,
            >::empty());
        }
        while k < n
            invariant
                self.wf(),
                k <= n,
                n == data@.len() / 32,
                data@.len() % 32 == 0,
                total.as_nat() == sum(proof_chunk_values(*self, chunks_of(data@).subrange(0, k as int)))
                    % p256(),
            decreases n - k,
        {
            proof {
                assert(32 * (k + 1) <= data@.len());
            }
            let chunk = read_chunk(data, k);
            let (_divisor, value, _ok) = score(&self.chain, &self.contract, &self.receiver, &chunk);
            let ghost pre_vals = proof_chunk_values(*self, chunks_of(data@).subrange(0, k as int));
            total = total.wrapping_add(&value);
            proof {
                let cur_vals = proof_chunk_values(*self, chunks_of(data@).subrange(0, k + 1));
                assert(cur_vals.drop_last() =~= pre_vals);
                assert(cur_vals.last() == value.as_nat());
                lemma_mod_add(sum(pre_vals), value.as_nat(), p256());
            }
            k = k + 1;
        }
        proof {
            assert(chunks_of(data@).subrange(0, n as int) =~= chunks_of(data@));
        }
        Ok(total.to_be_bytes())
    }

    /// Recomputes a total from revealed secrets: each 32-byte chunk is
    /// hashed into its proof first, then scored exactly as `verify_proofs`
    /// does. The input must be a positive multiple of 32 bytes.
    pub fn verify_secrets(&self, data: &Vec<u8>) -> (r: Result<Vec<u8>, NetworkError>)
        requires
            self.wf(),
        ensures
            match r {
                Ok(out) => {
                    &&& data@.len() > 0 && data@.len() % 32 == 0
                    &&& out@.len() == 32
                    &&& be_val(out@) == secrets_total(*self, chunks_of(data@))
                },
                Err(e) => e == NetworkError::MalformedLength && (data@.len() == 0 || data@.len()
                    % 32 != 0),
            },
    {
        let len = data.len();
        if len == 0 || len % 32 != 0 {
            return Err(NetworkError::MalformedLength);
        }
        let n = len / 32;
        let mut total = U256::zero();
        let mut k: usize = 0;
        proof {
            assert(secret_chunk_values(*self, chunks_of(data@).subrange(0, 0)) =~= Seq::<
                nat,
            >::empty());
        }
        while k < n
            invariant
                self.wf(),
                k <= n,
                n == data@.len() / 32,
                data@.len() % 32 == 0,
                total.as_nat() == sum(secret_chunk_values(*self, chunks_of(data@).subrange(0, k as int)))
                    % p256(),
            decreases n - k,
        {
            proof {
                assert(32 * (k + 1) <= data@.len());
            }
            let chunk = read_chunk(data, k);
            let digest = keccak256(&chunk);
            let (_divisor, value, _ok) = score(
                &self.chain,
                &self.contract,
                &self.receiver,
                &digest,
            );
            let ghost pre_vals = secret_chunk_values(*self, chunks_of(data@).subrange(0, k as int));
            total = total.wrapping_add(&value);
            proof {
                let cur_vals = secret_chunk_values(*self, chunks_of(data@).subrange(0, k + 1));
                assert(cur_vals.drop_last() =~= pre_vals);
                assert(cur_vals.last() == value.as_nat());
                lemma_mod_add(sum(pre_vals), value.as_nat(), p256());
            }
            k = k + 1;
        }
        proof {
            assert(chunks_of(data@).subrange(0, n as int) =~= chunks_of(data@));
        }
        Ok(total.to_be_bytes())
    }
}

/// Generator/verifier agreement over secrets: verifying exactly the secrets
/// of correctly scored entries totals to the sum of their values modulo
/// 2^256 — the generator's running total.
pub proof fn lemma_verify_secrets_agrees(m: NetworkMixin, entries: Seq<NetworkSecret>)
    requires
        entries_scored(m, entries),
    ensures
        secrets_total(m, secrets_of(entries)) == sum(values_of(entries)) % p256(),
{
    assert(secret_chunk_values(m, secrets_of(entries)) =~= values_of(entries));
}

/// Generator/verifier agreement over proofs: verifying exactly the proofs
/// of correctly scored entries totals to the sum of their values modulo
/// 2^256.
pub proof fn lemma_verify_proofs_agrees(m: NetworkMixin, entries: Seq<NetworkSecret>)
    requires
        entries_scored(m, entries),
    ensures
        proofs_total(m, proofs_of(entries)) == sum(values_of(entries)) % p256(),
{
    assert(proof_chunk_values(m, proofs_of(entries)) =~= values_of(entries));
}

/// End-to-end agreement: serializing the retained secrets of a generated
/// result and verifying the serialized bytes reproduces the result's
/// total.
pub proof fn lemma_generate_verify_secrets(m: NetworkMixin, entries: Seq<NetworkSecret>)
    requires
        entries_scored(m, entries),
    ensures
        secrets_total(m, chunks_of(concat_chunks(secrets_of(entries)))) == sum(values_of(entries))
            % p256(),
{
    assert(all_len32(secrets_of(entries)));
    lemma_chunks_of_concat(secrets_of(entries));
    lemma_verify_secrets_agrees(m, entries);
}

/// End-to-end agreement for proofs: serializing the retained proofs and
/// verifying the serialized bytes reproduces the result's total.
pub proof fn lemma_generate_verify_proofs(m: NetworkMixin, entries: Seq<NetworkSecret>)
    requires
        entries_scored(m, entries),
    ensures
        proofs_total(m, chunks_of(concat_chunks(proofs_of(entries)))) == sum(values_of(entries))
            % p256(),
{
    assert(all_len32(proofs_of(entries)));
    lemma_chunks_of_concat(proofs_of(entries));
    lemma_verify_proofs_agrees(m, entries);
}

} // verus!
