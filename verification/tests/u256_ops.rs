//! Arithmetic and encoding checks for the 256-bit integer type, cross-checked
//! against an independent big-integer implementation.

use crypto_bigint::Encoding;
use network_tickets::u256::U256;

fn be32(fill: &[(usize, u8)]) -> Vec<u8> {
    let mut v = vec![0u8; 32];
    for (i, b) in fill {
        v[*i] = *b;
    }
    v
}

#[test]
fn zero_and_max_encode() {
    let z = U256::zero();
    assert_eq!(z.to_be_bytes(), vec![0u8; 32]);
    assert!(z.is_zero());
    let m = U256::max_value();
    assert_eq!(m.to_be_bytes(), vec![0xffu8; 32]);
    assert!(!m.is_zero());
}

#[test]
fn be_bytes_round_trip() {
    let samples = [
        be32(&[(31, 1)]),
        be32(&[(0, 0xab), (15, 0x77), (31, 0x01)]),
        vec![0x5au8; 32],
        be32(&[(16, 0x80)]),
    ];
    for s in samples {
        let x = U256::from_be_bytes(&s);
        assert_eq!(x.to_be_bytes(), s);
    }
}

#[test]
fn wrapping_add_matches_reference() {
    let a_bytes = be32(&[(0, 0xff), (31, 0xfe)]);
    let b_bytes = vec![0x99u8; 32];
    let a = U256::from_be_bytes(&a_bytes);
    let b = U256::from_be_bytes(&b_bytes);
    let r = a.wrapping_add(&b);
    let ca = crypto_bigint::U256::from_be_slice(&a_bytes);
    let cb = crypto_bigint::U256::from_be_slice(&b_bytes);
    let cr = ca.wrapping_add(&cb);
    assert_eq!(r.to_be_bytes(), cr.to_be_bytes().to_vec());
}

#[test]
fn wrapping_add_overflows_to_zero() {
    let one = U256::from_be_bytes(&be32(&[(31, 1)]));
    let r = U256::max_value().wrapping_add(&one);
    assert!(r.is_zero());
}

#[test]
fn wrapping_sub_matches_reference() {
    let a_bytes = be32(&[(31, 5)]);
    let b_bytes = be32(&[(31, 9)]);
    let a = U256::from_be_bytes(&a_bytes);
    let b = U256::from_be_bytes(&b_bytes);
    let r = a.wrapping_sub(&b);
    let ca = crypto_bigint::U256::from_be_slice(&a_bytes);
    let cb = crypto_bigint::U256::from_be_slice(&b_bytes);
    let cr = ca.wrapping_sub(&cb);
    assert_eq!(r.to_be_bytes(), cr.to_be_bytes().to_vec());
}

#[test]
fn comparison_follows_value() {
    let small = U256::from_be_bytes(&be32(&[(31, 2)]));
    let big = U256::from_be_bytes(&be32(&[(0, 1)]));
    assert!(small.lt(&big));
    assert!(!big.lt(&small));
    assert!(!small.lt(&small));
}

#[test]
fn division_of_all_ones_matches_reference() {
    let divisors = [
        be32(&[(31, 1)]),
        be32(&[(31, 2)]),
        be32(&[(31, 3)]),
        be32(&[(30, 1)]),
        vec![0x11u8; 32],
        be32(&[(0, 0xff)]),
        vec![0xffu8; 32],
    ];
    for d_bytes in divisors {
        let d = U256::from_be_bytes(&d_bytes);
        let q = U256::div_from_max(&d);
        let cd = crypto_bigint::U256::from_be_slice(&d_bytes);
        let cq = crypto_bigint::U256::MAX.wrapping_div(&cd);
        assert_eq!(q.to_be_bytes(), cq.to_be_bytes().to_vec());
    }
}

#[test]
fn division_by_max_is_one() {
    let q = U256::div_from_max(&U256::max_value());
    assert_eq!(q.to_be_bytes(), {
        let mut v = vec![0u8; 32];
        v[31] = 1;
        v
    });
}
