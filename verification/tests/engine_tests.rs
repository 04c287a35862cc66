use std::sync::Arc;

use cita_hasher::HasherKeccak;
use cita_trie::{MemoryDB, PatriciaTrie, Trie};
use proof_archive::account::AccountState;
use proof_archive::address::Address;
use proof_archive::balance::U256;
use proof_archive::block::{BlockInfo, BlockReward};
use proof_archive::errors::StateError;
use proof_archive::state::State;

fn addr(n: u128) -> Address {
    Address::new(0, n)
}

fn bal(n: u128) -> U256 {
    U256::new(0, n)
}

fn account_with_balance(b: U256) -> AccountState {
    let mut a = AccountState::default();
    a.balance = b;
    a
}

/// The root a reference Patricia trie computes for the given accounts.
fn reference_root(accounts: &[(Address, U256)]) -> Vec<u8> {
    let mut trie = PatriciaTrie::new(Arc::new(MemoryDB::new(false)), Arc::new(HasherKeccak::new()));
    for (a, b) in accounts {
        let key = alloy_primitives::keccak256(a.to_bytes()).to_vec();
        let value = account_with_balance(*b).encode();
        trie.insert(key, value).unwrap();
    }
    trie.root().unwrap()
}

fn empty_block(number: u64, state_root: Vec<u8>) -> BlockInfo {
    BlockInfo { number, hash: vec![number as u8; 32], state_root, rewards: vec![] }
}

#[test]
fn genesis_empty_allocation_has_canonical_empty_root() {
    let expected = reference_root(&[]);
    assert_eq!(
        expected,
        alloy_primitives::keccak256([0x80u8]).to_vec(),
        "empty trie commits to the digest of the canonical empty encoding"
    );
    let st = State::try_new(&vec![], &expected).unwrap();
    assert_eq!(st.accounts(), vec![]);
    assert_eq!(st.next_block(), 0);
}

#[test]
fn genesis_root_mismatch_is_refused() {
    let alloc = vec![(addr(1), bal(100))];
    let wrong = vec![0u8; 32];
    assert!(matches!(State::try_new(&alloc, &wrong), Err(StateError::GenesisRootMismatch)));
}

#[test]
fn genesis_allocation_order_does_not_change_the_root() {
    let a = (addr(5), bal(7));
    let b = (addr(9), bal(11));
    let c = (addr(200), bal(13));
    let root = reference_root(&[a, b, c]);
    let mut st1 = State::try_new(&vec![a, b, c], &root).unwrap();
    let mut st2 = State::try_new(&vec![c, a, b], &root).unwrap();
    assert_eq!(st1.get_root(), st2.get_root());
    assert_eq!(st1.accounts(), st2.accounts());
    for (x, _) in [a, b, c] {
        let p1 = st1.get_proof(&x);
        let p2 = st2.get_proof(&x);
        assert_eq!(p1.nodes, p2.nodes);
        assert_eq!(p1.state, p2.state);
    }
}

#[test]
fn scenario_block_reward_updates_balance_and_matches_root() {
    let a = addr(0xa11ce);
    let alloc = vec![(a, bal(100))];
    let r0 = reference_root(&alloc);
    let mut st = State::try_new(&alloc, &r0).unwrap();

    // block 0: no rewards, root unchanged
    let touched0 = st.process_block(&empty_block(0, r0.clone())).unwrap();
    assert!(touched0.is_empty());

    // block 1: credit a with 2
    let r1 = reference_root(&[(a, bal(102))]);
    let block1 = BlockInfo {
        number: 1,
        hash: vec![1; 32],
        state_root: r1.clone(),
        rewards: vec![BlockReward { address: a, value: bal(2) }],
    };
    let touched1 = st.process_block(&block1).unwrap();
    assert_eq!(touched1, vec![a]);
    assert_eq!(st.get_root(), r1);
    let got = st.get_account_state(&a);
    assert_eq!((got.balance.hi, got.balance.lo), (0, 102));
    assert_eq!(st.next_block(), 2);

    // the proof returned after the block verifies against the declared root
    let proof = st.get_proof(&a);
    let key = alloy_primitives::keccak256(a.to_bytes());
    let verified =
        cita_trie::verify_proof(&r1, key.as_slice(), proof.nodes.clone(), HasherKeccak::new())
            .unwrap();
    assert_eq!(verified, Some(account_with_balance(bal(102)).encode()));
}

#[test]
fn out_of_order_block_fails_and_leaves_state_unchanged() {
    let a = addr(3);
    let alloc = vec![(a, bal(10))];
    let r0 = reference_root(&alloc);
    let mut st = State::try_new(&alloc, &r0).unwrap();
    let before_root = st.get_root();

    let bad = empty_block(5, r0.clone());
    assert!(matches!(st.process_block(&bad), Err(StateError::OutOfOrderBlock)));
    assert_eq!(st.next_block(), 0, "counter unchanged");
    assert_eq!(st.get_root(), before_root, "trie unchanged");
    assert_eq!(st.accounts(), vec![a]);
}

#[test]
fn state_root_mismatch_is_fatal() {
    let a = addr(3);
    let alloc = vec![(a, bal(10))];
    let r0 = reference_root(&alloc);
    let mut st = State::try_new(&alloc, &r0).unwrap();
    let block = BlockInfo {
        number: 0,
        hash: vec![0; 32],
        state_root: vec![0xab; 32],
        rewards: vec![BlockReward { address: a, value: bal(1) }],
    };
    assert!(matches!(st.process_block(&block), Err(StateError::StateRootMismatch)));
    assert_eq!(st.next_block(), 0, "counter does not advance past a fault");
}

#[test]
fn balance_overflow_is_an_invariant_violation() {
    let a = addr(3);
    let alloc = vec![(a, U256::new(u128::MAX, u128::MAX))];
    let r0 = reference_root(&alloc);
    let mut st = State::try_new(&alloc, &r0).unwrap();
    let block = BlockInfo {
        number: 0,
        hash: vec![0; 32],
        state_root: r0.clone(),
        rewards: vec![BlockReward { address: a, value: bal(1) }],
    };
    assert!(matches!(st.process_block(&block), Err(StateError::InvariantViolation)));
}

#[test]
fn known_accounts_grow_monotonically() {
    let a = addr(1);
    let alloc = vec![(a, bal(5))];
    let r0 = reference_root(&alloc);
    let mut st = State::try_new(&alloc, &r0).unwrap();
    let mut prev = st.accounts().len();
    let mut balances = vec![(a, bal(5))];
    for n in 0..4u64 {
        let b = addr(100 + n as u128);
        balances.push((b, bal(1)));
        let root = reference_root(&balances);
        let block = BlockInfo {
            number: n,
            hash: vec![n as u8; 32],
            state_root: root,
            rewards: vec![BlockReward { address: b, value: bal(1) }],
        };
        st.process_block(&block).unwrap();
        let now = st.accounts().len();
        assert!(now >= prev, "known accounts never shrink");
        prev = now;
    }
    assert_eq!(prev, 5);
}

#[test]
fn first_credit_to_unseen_address_yields_inclusion_proof() {
    let a = addr(1);
    let alloc = vec![(a, bal(50))];
    let r0 = reference_root(&alloc);
    let mut st = State::try_new(&alloc, &r0).unwrap();
    for n in 0..5u64 {
        st.process_block(&empty_block(n, r0.clone())).unwrap();
    }
    // block 5 first credits previously-unseen address b
    let b = addr(0xb0b);
    let r5 = reference_root(&[(a, bal(50)), (b, bal(9))]);
    let block5 = BlockInfo {
        number: 5,
        hash: vec![5; 32],
        state_root: r5.clone(),
        rewards: vec![BlockReward { address: b, value: bal(9) }],
    };
    let touched = st.process_block(&block5).unwrap();
    assert_eq!(touched, vec![b]);
    assert!(st.accounts().contains(&b), "b joins the known accounts");

    let proof = st.get_proof(&b);
    let key = alloy_primitives::keccak256(b.to_bytes());
    let verified =
        cita_trie::verify_proof(&r5, key.as_slice(), proof.nodes.clone(), HasherKeccak::new())
            .unwrap();
    assert_eq!(
        verified,
        Some(account_with_balance(bal(9)).encode()),
        "a real inclusion proof, not an absence result"
    );
}

#[test]
fn unknown_account_reads_as_default() {
    let alloc = vec![];
    let r0 = reference_root(&alloc);
    let st = State::try_new(&alloc, &r0).unwrap();
    let got = st.get_account_state(&addr(77));
    assert_eq!(got, AccountState::default());
}

#[test]
fn get_proofs_follow_input_order() {
    let a = addr(1);
    let b = addr(2);
    let alloc = vec![(a, bal(1)), (b, bal(2))];
    let r0 = reference_root(&alloc);
    let st = State::try_new(&alloc, &r0).unwrap();
    let ps = st.get_proofs(&st.accounts());
    assert_eq!(ps.len(), 2);
    assert_eq!(ps[0].address, a);
    assert_eq!(ps[1].address, b);
}

#[test]
fn proof_for_unknown_address_is_an_exclusion_path() {
    let a = addr(1);
    let alloc = vec![(a, bal(42))];
    let r0 = reference_root(&alloc);
    let st = State::try_new(&alloc, &r0).unwrap();
    let unknown = addr(999);
    let proof = st.get_proof(&unknown);
    assert_eq!(proof.state, AccountState::default(), "paired with the default account state");
    assert!(!proof.nodes.is_empty(), "structurally valid path");
    let key = alloy_primitives::keccak256(unknown.to_bytes());
    let verified =
        cita_trie::verify_proof(&r0, key.as_slice(), proof.nodes.clone(), HasherKeccak::new())
            .unwrap();
    assert_eq!(verified, None, "an absence result for the unknown key");
}

#[test]
fn block_info_accessors_return_the_fields() {
    let b = BlockInfo {
        number: 9,
        hash: vec![7; 32],
        state_root: vec![8; 32],
        rewards: vec![BlockReward { address: addr(4), value: bal(5) }],
    };
    assert_eq!(b.number(), 9);
    assert_eq!(b.hash(), vec![7; 32]);
    assert_eq!(b.state_root(), vec![8; 32]);
    let rs = b.block_rewards();
    assert_eq!(rs.len(), 1);
    assert_eq!(rs[0].address, addr(4));
    assert_eq!((rs[0].value.hi, rs[0].value.lo), (0, 5));
}
