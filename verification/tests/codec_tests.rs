use proof_archive::account::AccountState;
use proof_archive::balance::U256;
use proof_archive::errors::StateError;

fn default_account() -> AccountState {
    AccountState::default()
}

fn account(nonce: u64, hi: u128, lo: u128) -> AccountState {
    let mut a = AccountState::default();
    a.nonce = nonce;
    a.balance = U256::new(hi, lo);
    a
}

#[test]
fn default_account_digests_are_canonical() {
    let a = default_account();
    assert_eq!(
        a.storage_hash,
        alloy_primitives::keccak256([0x80u8]).to_vec(),
        "storage hash is the digest of the canonical empty encoding"
    );
    assert_eq!(a.code_hash, alloy_primitives::keccak256([0u8; 0]).to_vec());
}

#[test]
fn encode_default_account_exact_bytes() {
    let a = default_account();
    let mut expected: Vec<u8> = vec![0xf8, 0x44, 0x80, 0x80, 0xa0];
    expected.extend_from_slice(alloy_primitives::keccak256([0x80u8]).as_slice());
    expected.push(0xa0);
    expected.extend_from_slice(alloy_primitives::keccak256([0u8; 0]).as_slice());
    assert_eq!(a.encode(), expected);
}

#[test]
fn encode_small_values_use_single_bytes() {
    let a = account(1, 0, 0x7f);
    let e = a.encode();
    // payload: nonce 0x01, balance 0x7f, two 33-byte digest fields
    assert_eq!(e[0], 0xf8);
    assert_eq!(e[1], 68);
    assert_eq!(e[2], 0x01);
    assert_eq!(e[3], 0x7f);
    assert_eq!(e[4], 0xa0);
}

#[test]
fn round_trip_all_default() {
    let a = default_account();
    let decoded = AccountState::decode(&a.encode()).unwrap();
    assert_eq!(decoded, a);
}

#[test]
fn round_trip_mixed_values() {
    let cases = vec![
        account(0, 0, 0),
        account(1, 0, 2),
        account(0x80, 0, 0x80),
        account(0xff, 0, 0xff),
        account(256, 0, 100),
        account(u64::MAX, 0, u128::MAX),
        account(7, u128::MAX, u128::MAX),
        account(12345, 1, 0),
        account(0, 0xdeadbeef, 0xcafe),
    ];
    for a in cases {
        let e = a.encode();
        let decoded = AccountState::decode(&e).unwrap();
        assert_eq!(decoded, a, "round trip failed for {:?}", a);
    }
}

#[test]
fn round_trip_distinct_hashes() {
    let mut a = default_account();
    a.storage_hash = (0u8..32).collect();
    a.code_hash = (100u8..132).collect();
    let decoded = AccountState::decode(&a.encode()).unwrap();
    assert_eq!(decoded, a);
}

#[test]
fn decode_rejects_truncated() {
    let e = default_account().encode();
    let cut = e[..e.len() - 1].to_vec();
    assert_eq!(AccountState::decode(&cut), Err(StateError::MalformedAccount));
    assert_eq!(AccountState::decode(&vec![]), Err(StateError::MalformedAccount));
    assert_eq!(AccountState::decode(&vec![0xf8]), Err(StateError::MalformedAccount));
}

#[test]
fn decode_rejects_over_long() {
    let mut e = default_account().encode();
    e.push(0x00);
    assert_eq!(AccountState::decode(&e), Err(StateError::MalformedAccount));
}

#[test]
fn decode_rejects_wrong_header() {
    let mut e = default_account().encode();
    e[0] = 0xf9;
    assert_eq!(AccountState::decode(&e), Err(StateError::MalformedAccount));
}

#[test]
fn decode_rejects_non_minimal_integer() {
    // nonce 1 encoded long-form as [0x81, 0x01] instead of [0x01]
    let good = account(1, 0, 0).encode();
    let mut bad: Vec<u8> = vec![0xf8, good[1] + 1];
    bad.push(0x81);
    bad.push(0x01);
    bad.extend_from_slice(&good[3..]);
    assert_eq!(AccountState::decode(&bad), Err(StateError::MalformedAccount));
}

#[test]
fn decode_rejects_leading_zero_integer() {
    // nonce 256 is [0x82, 0x01, 0x00]; a leading zero form [0x83, 0x00, 0x01, 0x00] is refused
    let good = account(256, 0, 0).encode();
    let mut bad: Vec<u8> = vec![0xf8, good[1] + 1, 0x83, 0x00, 0x01, 0x00];
    bad.extend_from_slice(&good[5..]);
    assert_eq!(AccountState::decode(&bad), Err(StateError::MalformedAccount));
}

#[test]
fn balance_checked_add_exact_and_overflow() {
    let a = U256::new(0, u128::MAX);
    let one = U256::new(0, 1);
    let sum = a.checked_add(one).unwrap();
    assert_eq!(sum.hi, 1);
    assert_eq!(sum.lo, 0);
    let max = U256::new(u128::MAX, u128::MAX);
    assert!(max.checked_add(one).is_none());
    let z = U256::zero().checked_add(U256::new(3, 5)).unwrap();
    assert_eq!((z.hi, z.lo), (3, 5));
}
