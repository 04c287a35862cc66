use std::sync::Arc;

use cita_hasher::HasherKeccak;
use cita_trie::{MemoryDB, PatriciaTrie, Trie};
use proof_archive::account::AccountState;
use proof_archive::address::Address;
use proof_archive::archive::{update_tree_nodes, NodeArchive, ProofArchiver};
use proof_archive::balance::U256;
use proof_archive::block::{BlockInfo, BlockReward};
use proof_archive::errors::StateError;
use proof_archive::state::{AccountProof, State};

fn archiver_addr(n: u128) -> Address {
    Address::new(0, n)
}

fn archiver_bal(n: u128) -> U256 {
    U256::new(0, n)
}

fn archiver_account(b: U256) -> AccountState {
    let mut a = AccountState::default();
    a.balance = b;
    a
}

fn archiver_reference_root(accounts: &[(Address, U256)]) -> Vec<u8> {
    let mut trie = PatriciaTrie::new(Arc::new(MemoryDB::new(false)), Arc::new(HasherKeccak::new()));
    for (a, b) in accounts {
        let key = alloy_primitives::keccak256(a.to_bytes()).to_vec();
        trie.insert(key, archiver_account(*b).encode()).unwrap();
    }
    trie.root().unwrap()
}

fn fake_proof(nodes: Vec<Vec<u8>>) -> AccountProof {
    AccountProof { address: archiver_addr(0), state: AccountState::default(), nodes }
}

fn archive_is_functional(a: &NodeArchive) {
    for (i, (d, v)) in a.entries.iter().enumerate() {
        assert_eq!(d, &alloy_primitives::keccak256(v).to_vec(), "key is the digest of its value");
        for (j, (d2, _)) in a.entries.iter().enumerate() {
            if i != j {
                assert_ne!(d, d2, "one digest maps to one value");
            }
        }
    }
}

#[test]
fn dedup_skips_digests_already_present() {
    let mut archive = NodeArchive::new();
    let n1: Vec<u8> = vec![1, 2, 3];
    let n2: Vec<u8> = vec![4, 5];
    let proofs = vec![fake_proof(vec![n1.clone(), n2.clone()]), fake_proof(vec![n1.clone()])];
    update_tree_nodes(&mut archive, &proofs);
    assert_eq!(archive.entries.len(), 2, "shared nodes are stored once");
    update_tree_nodes(&mut archive, &proofs);
    assert_eq!(archive.entries.len(), 2);
    archive_is_functional(&archive);
    assert_eq!(archive.entries[0].0, alloy_primitives::keccak256(&n1).to_vec());
    assert_eq!(archive.entries[0].1, n1);
    assert_eq!(archive.entries[1].1, n2);
}

#[test]
fn archiver_replays_blocks_and_archives_every_proof_node() {
    let a = archiver_addr(1);
    let alloc = vec![(a, archiver_bal(100))];
    let r0 = archiver_reference_root(&alloc);
    let st = State::try_new(&alloc, &r0).unwrap();
    let mut archiver = ProofArchiver::new(st, true);

    let b = archiver_addr(2);
    let roots = [
        archiver_reference_root(&[(a, archiver_bal(101))]),
        archiver_reference_root(&[(a, archiver_bal(101)), (b, archiver_bal(7))]),
    ];
    let blocks = [
        BlockInfo {
            number: 0,
            hash: vec![0; 32],
            state_root: roots[0].clone(),
            rewards: vec![BlockReward { address: a, value: archiver_bal(1) }],
        },
        BlockInfo {
            number: 1,
            hash: vec![1; 32],
            state_root: roots[1].clone(),
            rewards: vec![BlockReward { address: b, value: archiver_bal(7) }],
        },
    ];
    for (n, block) in blocks.iter().enumerate() {
        let arts = archiver.process_one_block(block).unwrap();
        let full = arts.full_proof.expect("full proofs are enabled");
        assert_eq!(full.block, n as u64);
        assert_eq!(full.state_root, roots[n]);
        let block_tree = arts.block_tree_nodes.expect("per-block node set is enabled");
        archive_is_functional(&block_tree);
        for p in &full.proofs {
            for node in &p.nodes {
                let d = alloy_primitives::keccak256(node).to_vec();
                assert!(
                    block_tree.entries.iter().any(|(k, v)| k == &d && v == node),
                    "every full-proof node is in the block's node set"
                );
            }
        }
    }

    // collected partial proofs: one per block, touched accounts only
    let partials = archiver.partial_proofs();
    assert_eq!(partials.len(), 2);
    assert_eq!(partials[0].block, 0);
    assert_eq!(partials[0].proofs.len(), 1);
    assert_eq!(partials[0].proofs[0].address, a);
    assert_eq!(partials[1].proofs[0].address, b);

    // run-wide archive: functional, and complete for every emitted proof node
    let archive = archiver.tree_nodes();
    archive_is_functional(archive);
    for bp in partials {
        for p in &bp.proofs {
            for node in &p.nodes {
                let d = alloy_primitives::keccak256(node).to_vec();
                assert!(
                    archive.entries.iter().any(|(k, v)| k == &d && v == node),
                    "every emitted proof node is archived under its digest"
                );
            }
        }
    }
}

#[test]
fn archiver_without_full_proofs_emits_partial_artifacts_only() {
    let a = archiver_addr(1);
    let alloc = vec![(a, archiver_bal(3))];
    let r0 = archiver_reference_root(&alloc);
    let st = State::try_new(&alloc, &r0).unwrap();
    let mut archiver = ProofArchiver::new(st, false);
    let block = BlockInfo { number: 0, hash: vec![0; 32], state_root: r0.clone(), rewards: vec![] };
    let arts = archiver.process_one_block(&block).unwrap();
    assert!(arts.full_proof.is_none());
    assert!(arts.block_tree_nodes.is_none());
    assert!(arts.touched.is_empty());
    assert_eq!(archiver.partial_proofs().len(), 1);
    assert_eq!(archiver.partial_proofs()[0].proofs.len(), 0);
}

#[test]
fn archiver_rejects_out_of_order_blocks() {
    let alloc = vec![];
    let r0 = archiver_reference_root(&alloc);
    let st = State::try_new(&alloc, &r0).unwrap();
    let mut archiver = ProofArchiver::new(st, false);
    let block = BlockInfo { number: 3, hash: vec![0; 32], state_root: r0, rewards: vec![] };
    assert!(matches!(archiver.process_one_block(&block), Err(StateError::OutOfOrderBlock)));
    assert_eq!(archiver.partial_proofs().len(), 0);
}

#[test]
fn toggle_does_not_change_run_wide_archive() {
    let a = archiver_addr(1);
    let b = archiver_addr(2);
    let alloc = vec![(a, archiver_bal(10))];
    let r0 = archiver_reference_root(&alloc);
    let roots = [
        archiver_reference_root(&[(a, archiver_bal(11))]),
        archiver_reference_root(&[(a, archiver_bal(11)), (b, archiver_bal(3))]),
    ];
    let blocks = [
        BlockInfo {
            number: 0,
            hash: vec![0; 32],
            state_root: roots[0].clone(),
            rewards: vec![BlockReward { address: a, value: archiver_bal(1) }],
        },
        BlockInfo {
            number: 1,
            hash: vec![1; 32],
            state_root: roots[1].clone(),
            rewards: vec![BlockReward { address: b, value: archiver_bal(3) }],
        },
    ];
    let mut with_full =
        ProofArchiver::new(State::try_new(&alloc, &r0).unwrap(), true);
    let mut without_full =
        ProofArchiver::new(State::try_new(&alloc, &r0).unwrap(), false);
    for block in &blocks {
        with_full.process_one_block(block).unwrap();
        without_full.process_one_block(block).unwrap();
    }
    assert_eq!(
        with_full.tree_nodes().entries,
        without_full.tree_nodes().entries,
        "the run-wide archive is unaffected by the full-proof toggle"
    );
}
