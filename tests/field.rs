use sha3::{Digest, Keccak256};
use zk_protocols::field::Fe;
use zk_protocols::transcript::Transcript;

fn fe(v: u64) -> Fe {
    Fe::from_u64(v)
}

#[test]
fn arithmetic_on_small_values() {
    assert_eq!(fe(7).add(fe(5)), fe(12));
    assert_eq!(fe(7).sub(fe(5)), fe(2));
    assert_eq!(fe(7).mul(fe(5)), fe(35));
    assert_eq!(fe(3).pow(4), fe(81));
    assert_eq!(fe(9).square(), fe(81));
    assert_eq!(fe(9).double(), fe(18));
}

#[test]
fn negation_wraps_around_the_modulus() {
    let minus_one = fe(0).sub(fe(1));
    assert_eq!(minus_one.add(fe(1)), fe(0));
    assert_eq!(fe(1).neg(), minus_one);
    let bytes = minus_one.to_decimal_bytes();
    assert_eq!(
        String::from_utf8(bytes).unwrap(),
        "21888242871839275222246405745257275088548364400416034343698204186575808495616"
    );
}

#[test]
fn inverse_of_nonzero_and_of_zero() {
    let i = fe(7).inverse().unwrap();
    assert_eq!(i.mul(fe(7)), fe(1));
    assert!(fe(0).inverse().is_none());
}

#[test]
fn byte_encodings() {
    let b = fe(258).to_bytes_be();
    assert_eq!(b.len(), 32);
    assert_eq!(b[30], 1);
    assert_eq!(b[31], 2);
    assert_eq!(Fe::from_be_bytes_mod_order(&b), fe(258));
    assert_eq!(fe(1234).to_decimal_bytes(), b"1234".to_vec());
    assert_eq!(fe(0).to_decimal_bytes(), b"0".to_vec());
}

#[test]
fn reduction_modulo_the_prime() {
    let m = fe(0).sub(fe(1)).to_bytes_be();
    let mut one_more = m.clone();
    one_more[31] += 1;
    assert_eq!(Fe::from_be_bytes_mod_order(&one_more), fe(0));
}

#[test]
fn roots_of_unity() {
    let w = Fe::root_of_unity(8).unwrap();
    assert_eq!(w.pow(8), fe(1));
    assert_ne!(w.pow(4), fe(1));
    assert!(Fe::root_of_unity(0).is_none());
}

#[test]
fn low_bits() {
    assert_eq!(fe(99).low_u64(), 99);
    assert!(fe(0).is_zero());
}

#[test]
fn squeezes_differ_and_follow_keccak() {
    let mut t = Transcript::new();
    t.absorb(b"abc");
    let first = t.squeeze();
    assert_eq!(first, Keccak256::digest(b"abc").to_vec());
    let second = t.squeeze();
    assert_ne!(first, second);
    let mut state = b"abc".to_vec();
    state.extend_from_slice(&first);
    assert_eq!(second, Keccak256::digest(&state).to_vec());
}

#[test]
fn challenge_is_the_squeeze_reduced() {
    let mut t = Transcript::new();
    let mut u = Transcript::new();
    let c = t.squeeze_challenge();
    let d = u.squeeze();
    assert_eq!(c, Fe::from_be_bytes_mod_order(&d));
}
