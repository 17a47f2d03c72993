//! End-to-end checks of the ticket scheme: scoring, generation, the two
//! verification modes, serialization round-trips, and the accumulator's
//! retention rules.

use crypto_bigint::Encoding;
use network_tickets::accumulator::{Accumulator, NetworkSecret};
use network_tickets::codec::split_chunks;
use network_tickets::mixin::{NetworkError, NetworkMixin};
use network_tickets::score::score;
use network_tickets::u256::U256;
use sha3::Digest;

fn zeros() -> Vec<u8> {
    vec![0u8; 32]
}

fn be32_of(n: u8) -> Vec<u8> {
    let mut v = vec![0u8; 32];
    v[31] = n;
    v
}

fn keccak(data: &[u8]) -> Vec<u8> {
    let mut h = sha3::Keccak256::new();
    h.update(data);
    h.finalize().to_vec()
}

#[test]
fn score_matches_direct_hash_and_reference_division() {
    let chain = zeros();
    let contract = zeros();
    let receiver = zeros();
    let proof = be32_of(7);
    let (divisor, value, ok) = score(&chain, &contract, &receiver, &proof);
    let mut buf = Vec::new();
    buf.extend_from_slice(&chain);
    buf.extend_from_slice(&contract);
    buf.extend_from_slice(&receiver);
    buf.extend_from_slice(&proof);
    let digest = keccak(&buf);
    assert_eq!(divisor.to_be_bytes(), digest);
    assert!(ok);
    let cd = crypto_bigint::U256::from_be_slice(&digest);
    let cv = crypto_bigint::U256::MAX.wrapping_div(&cd);
    assert_eq!(value.to_be_bytes(), cv.to_be_bytes().to_vec());
}

#[test]
fn score_is_deterministic() {
    let chain = be32_of(1);
    let contract = be32_of(2);
    let receiver = be32_of(3);
    let proof = be32_of(4);
    let (d1, v1, ok1) = score(&chain, &contract, &receiver, &proof);
    let (d2, v2, ok2) = score(&chain, &contract, &receiver, &proof);
    assert_eq!(d1.to_be_bytes(), d2.to_be_bytes());
    assert_eq!(v1.to_be_bytes(), v2.to_be_bytes());
    assert_eq!(ok1, ok2);
}

#[test]
fn score_changes_with_each_identifier() {
    let proof = be32_of(9);
    let (base, _, _) = score(&zeros(), &zeros(), &zeros(), &proof);
    let (d_chain, _, _) = score(&be32_of(1), &zeros(), &zeros(), &proof);
    let (d_contract, _, _) = score(&zeros(), &be32_of(1), &zeros(), &proof);
    let (d_receiver, _, _) = score(&zeros(), &zeros(), &be32_of(1), &proof);
    assert_ne!(base.to_be_bytes(), d_chain.to_be_bytes());
    assert_ne!(base.to_be_bytes(), d_contract.to_be_bytes());
    assert_ne!(base.to_be_bytes(), d_receiver.to_be_bytes());
}

#[test]
fn generate_zero_target_returns_empty_at_once() {
    let m = NetworkMixin::new(zeros(), zeros(), zeros(), zeros());
    let acc = m.generate(5).expect("zero target must succeed");
    assert_eq!(acc.count(), 0);
    assert_eq!(acc.encode_total(), zeros());
    assert!(acc.min().is_none());
}

#[test]
fn generate_smallest_positive_target_retains_one() {
    let m = NetworkMixin::new(zeros(), zeros(), zeros(), be32_of(1));
    let acc = m.generate(100).expect("target one must succeed quickly");
    assert_eq!(acc.count(), 1);
    assert_ne!(acc.encode_total(), zeros());
}

#[test]
fn generate_zero_attempts_with_positive_target_exhausts() {
    let m = NetworkMixin::new(zeros(), zeros(), zeros(), be32_of(1));
    let r = m.generate(0);
    assert!(matches!(r, Err(NetworkError::AttemptsExhausted)));
}

#[test]
fn generated_totals_are_reproduced_by_both_verifiers() {
    let m = NetworkMixin::new(be32_of(5), be32_of(6), be32_of(7), be32_of(30));
    let acc = m.generate(200_000).expect("target thirty must succeed");
    assert!(acc.count() <= 10);
    let total = acc.encode_total();
    let from_secrets = m.verify_secrets(&acc.encode_secrets()).expect("well-formed");
    let from_proofs = m.verify_proofs(&acc.encode_proofs()).expect("well-formed");
    assert_eq!(from_secrets, total);
    assert_eq!(from_proofs, total);
}

#[test]
fn changing_an_identifier_changes_the_total() {
    let m = NetworkMixin::new(zeros(), zeros(), zeros(), be32_of(2));
    let acc = m.generate(10_000).expect("small target must succeed");
    let secrets = acc.encode_secrets();
    let total = acc.encode_total();
    let other_chain = NetworkMixin::new(be32_of(1), zeros(), zeros(), be32_of(2));
    let other_contract = NetworkMixin::new(zeros(), be32_of(1), zeros(), be32_of(2));
    let other_receiver = NetworkMixin::new(zeros(), zeros(), be32_of(1), be32_of(2));
    assert_ne!(other_chain.verify_secrets(&secrets).unwrap(), total);
    assert_ne!(other_contract.verify_secrets(&secrets).unwrap(), total);
    assert_ne!(other_receiver.verify_secrets(&secrets).unwrap(), total);
}

#[test]
fn encoded_secrets_reparse_to_the_retained_entries() {
    let m = NetworkMixin::new(be32_of(1), be32_of(2), be32_of(3), be32_of(20));
    let acc = m.generate(200_000).expect("target twenty must succeed");
    let secret_chunks = split_chunks(&acc.encode_secrets());
    let proof_chunks = split_chunks(&acc.encode_proofs());
    let entries = acc.drain_ascending();
    assert_eq!(secret_chunks.len(), entries.len());
    assert_eq!(proof_chunks.len(), entries.len());
    let mut last_value: Option<Vec<u8>> = None;
    for (i, e) in entries.iter().enumerate() {
        assert_eq!(secret_chunks[i], e.to_secret());
        assert_eq!(proof_chunks[i], e.to_proof());
        assert_eq!(e.to_proof(), keccak(&e.to_secret()));
        let v = e.to_value();
        if let Some(prev) = last_value {
            assert!(prev < v, "entries must ascend strictly by value");
        }
        last_value = Some(v);
    }
}

#[test]
fn verifier_rejects_malformed_lengths() {
    let m = NetworkMixin::new(zeros(), zeros(), zeros(), zeros());
    let empty: Vec<u8> = Vec::new();
    assert!(matches!(m.verify_secrets(&empty), Err(NetworkError::MalformedLength)));
    assert!(matches!(m.verify_proofs(&empty), Err(NetworkError::MalformedLength)));
    let short = vec![0u8; 31];
    assert!(matches!(m.verify_secrets(&short), Err(NetworkError::MalformedLength)));
    let ragged = vec![0u8; 65];
    assert!(matches!(m.verify_proofs(&ragged), Err(NetworkError::MalformedLength)));
}

#[test]
fn verify_proofs_of_one_zero_proof_matches_score() {
    let m = NetworkMixin::new(zeros(), zeros(), zeros(), zeros());
    let proof = zeros();
    let out = m.verify_proofs(&proof).expect("one chunk is well-formed");
    let (_d, value, _ok) = score(&zeros(), &zeros(), &zeros(), &proof);
    assert_eq!(out, value.to_be_bytes());
}

#[test]
fn verify_secrets_of_one_secret_hashes_then_scores() {
    let m = NetworkMixin::new(zeros(), zeros(), zeros(), zeros());
    let secret = be32_of(42);
    let out = m.verify_secrets(&secret).expect("one chunk is well-formed");
    let proof = keccak(&secret);
    let (_d, value, _ok) = score(&zeros(), &zeros(), &zeros(), &proof);
    assert_eq!(out, value.to_be_bytes());
}

fn entry_with_value(v: u8) -> NetworkSecret {
    let mut secret = vec![0u8; 32];
    secret[0] = v;
    let mut proof = vec![0u8; 32];
    proof[1] = v;
    NetworkSecret {
        secret_bytes: secret,
        proof_bytes: proof,
        value_u256: U256::from_be_bytes(&{
            let mut b = vec![0u8; 32];
            b[31] = v;
            b
        }),
    }
}

#[test]
fn accumulator_retains_top_ten_and_sums_them() {
    let mut acc = Accumulator::new();
    for v in 1..=11u8 {
        let accepted = acc.offer(entry_with_value(v));
        assert!(accepted, "value {v} must be accepted");
        assert!(acc.count() <= 10);
    }
    assert_eq!(acc.count(), 10);
    // value 1 was evicted: 2 + 3 + ... + 11 == 65
    assert_eq!(acc.encode_total(), {
        let mut b = vec![0u8; 32];
        b[31] = 65;
        b
    });
    let min = acc.min().expect("ten entries retained");
    assert_eq!(min.to_value(), {
        let mut b = vec![0u8; 32];
        b[31] = 2;
        b
    });
}

#[test]
fn accumulator_rejects_duplicates_and_low_values() {
    let mut acc = Accumulator::new();
    for v in 1..=10u8 {
        assert!(acc.offer(entry_with_value(v)));
    }
    // a value equal to a retained one is a duplicate: rejected, untouched
    assert!(!acc.offer(entry_with_value(5)));
    assert_eq!(acc.count(), 10);
    // the accumulator is full and the minimum is 1: nothing below it enters
    let evicted = acc.offer(entry_with_value(12));
    assert!(evicted);
    assert!(!acc.offer(entry_with_value(1)), "below the minimum: rejected");
    assert_eq!(acc.count(), 10);
    // total is 2 + ... + 10 + 12 == 66
    assert_eq!(acc.encode_total(), {
        let mut b = vec![0u8; 32];
        b[31] = 66;
        b
    });
}
