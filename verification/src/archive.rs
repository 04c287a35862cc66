//! The proof archiver: drives sequential block replay through the engine,
//! collects per-block proofs, and deduplicates every proof node into a
//! run-wide content-addressed archive.

use vstd::prelude::*;
use crate::address::Address;
use crate::block::BlockInfo;
use crate::bytes::{bytes_eq, sub_vec};
use crate::errors::StateError;
use crate::hashing::{keccak, keccak_of};
use crate::state::{
    apply_contents, apply_rewards, is_reward_addr, lookup, trie_key, AccountProof, State,
};
use crate::trie::{proof_nodes_of, root_of};

verus! {

/// A content-addressed node store: digest → raw node bytes, first write
/// wins, so one digest never maps to two different byte strings.
pub struct NodeArchive {
    pub entries: Vec<(Vec<u8>, Vec<u8>)>,
}

impl NodeArchive {
    /// The digests, in insertion order.
    pub open spec fn digests(self) -> Seq<Seq<u8>> {
        Seq::new(self.entries@.len(), |i: int| self.entries@[i].0@)
    }

    /// Digests are pairwise distinct and each one is the digest of the
    /// bytes stored under it.
    pub open spec fn wf(self) -> bool {
        &&& forall|i: int, j: int|
            0 <= i < j < self.entries@.len() ==> self.digests()[i] != self.digests()[j]
        &&& forall|i: int|
            0 <= i < self.entries@.len() ==> (#[trigger] self.entries@[i]).0@ == keccak_of(
                self.entries@[i].1@,
            )
    }

    /// Whether some entry is stored under this digest.
    pub open spec fn has_digest(self, d: Seq<u8>) -> bool {
        exists|i: int| 0 <= i < self.entries@.len() && self.digests()[i] == d
    }

    /// The digest-to-bytes bindings, in insertion order.
    pub open spec fn pairs(self) -> Seq<(Seq<u8>, Seq<u8>)> {
        Seq::new(self.entries@.len(), |i: int| (self.entries@[i].0@, self.entries@[i].1@))
    }

    pub fn new() -> (r: NodeArchive)
        ensures
            r.wf(),
            r.entries@.len() == 0,
    {
        NodeArchive { entries: Vec::new() }
    }
}

/// A well-formed archive never maps one digest to two different byte
/// values: entries under one digest are one entry.
pub proof fn lemma_archive_functional(a: NodeArchive, i: int, j: int)
    requires
        a.wf(),
        0 <= i < a.entries@.len(),
        0 <= j < a.entries@.len(),
        a.entries@[i].0@ == a.entries@[j].0@,
    ensures
        i == j,
        a.entries@[i].1@ == a.entries@[j].1@,
{
    if i < j {
        assert(a.digests()[i] == a.digests()[j]);
    } else if j < i {
        assert(a.digests()[j] == a.digests()[i]);
    }
}

/// Whether `p` binds the digest of some node of `proofs` to that node's
/// own bytes.
pub open spec fn merged_node_pair(proofs: Seq<AccountProof>, p: (Seq<u8>, Seq<u8>)) -> bool {
    exists|i: int, j: int|
        0 <= i < proofs.len() && 0 <= j < proofs[i].nodes@.len() && p == (
            keccak_of(#[trigger] proofs[i].nodes@[j]@),
            proofs[i].nodes@[j]@,
        )
}

/// Stores one node under its digest, unless that digest is already present.
#[verifier::loop_isolation(false)]
pub fn insert_node(archive: &mut NodeArchive, node: &Vec<u8>)
    requires
        old(archive).wf(),
    ensures
        final(archive).wf(),
        final(archive).entries@.len() >= old(archive).entries@.len(),
        forall|i: int|
            0 <= i < old(archive).entries@.len() ==> final(archive).entries@[i] == old(archive).entries@[i],
        final(archive).has_digest(keccak_of(node@)),
        old(archive).has_digest(keccak_of(node@)) ==> final(archive).entries@ == old(archive).entries@,
        !old(archive).has_digest(keccak_of(node@)) ==> final(archive).pairs() == old(archive).pairs().push((keccak_of(node@), node@)),
        forall|d: Seq<u8>|
            #[trigger] final(archive).has_digest(d) ==> (old(archive).has_digest(d) || d
                == keccak_of(node@)),
        forall|d: Seq<u8>|
            #[trigger] old(archive).has_digest(d) ==> final(archive).has_digest(d),
{
    let digest = keccak(node);
    let mut i: usize = 0;
    while i < archive.entries.len()
        invariant
            i <= archive.entries@.len(),
            archive == old(archive),
            forall|j: int| 0 <= j < i ==> archive.digests()[j] != digest@,
        decreases archive.entries@.len() - i,
    {
        if bytes_eq(&archive.entries[i].0, &digest) {
            proof {
                assert(archive.digests()[i as int] == keccak_of(node@));
                assert(archive.has_digest(keccak_of(node@)));
            }
            return ;
        }
        i = i + 1;
    }
    let copied = sub_vec(node, 0, node.len());
    proof {
        assert(copied@ =~= node@);
        assert(!archive.has_digest(digest@));
    }
    archive.entries.push((digest, copied));
    proof {
        let s = old(archive).digests();
        let t = archive.digests();
        assert(t =~= s.push(keccak_of(node@)));
        assert forall|d: Seq<u8>| #[trigger] archive.has_digest(d) implies (old(archive).has_digest(d) || d == keccak_of(node@)) by {
            let k = choose|k: int| 0 <= k < archive.entries@.len() && t[k] == d;
            if k < s.len() {
                assert(s[k] == d);
                assert(old(archive).has_digest(d));
            }
        }
        assert forall|d: Seq<u8>| #[trigger] old(archive).has_digest(d) implies archive
            .has_digest(d) by {
            let k = choose|k: int| 0 <= k < s.len() && s[k] == d;
            assert(t[k] == d);
        }
        assert(t[s.len() as int] == keccak_of(node@));
        assert(archive.has_digest(keccak_of(node@)));
        assert(archive.pairs() =~= old(archive).pairs().push((keccak_of(node@), node@)));
    }
}

/// Merges every node of every proof into the archive, keyed by its digest,
/// skipping digests already present.
#[verifier::loop_isolation(false)]
pub fn update_tree_nodes(tree_nodes: &mut NodeArchive, proofs: &Vec<AccountProof>)
    requires
        old(tree_nodes).wf(),
    ensures
        final(tree_nodes).wf(),
        final(tree_nodes).entries@.len() >= old(tree_nodes).entries@.len(),
        forall|i: int|
            0 <= i < old(tree_nodes).entries@.len() ==> final(tree_nodes).entries@[i] == old(tree_nodes).entries@[i],
        forall|i: int, j: int|
            0 <= i < proofs@.len() && 0 <= j < proofs@[i].nodes@.len() ==> final(tree_nodes).has_digest(#[trigger] keccak_of(proofs@[i].nodes@[j]@)),
        forall|k: int|
            old(tree_nodes).entries@.len() <= k < final(tree_nodes).entries@.len()
                ==> merged_node_pair(proofs@, #[trigger] final(tree_nodes).pairs()[k]),
        forall|d: Seq<u8>|
            #[trigger] old(tree_nodes).has_digest(d) ==> final(tree_nodes).has_digest(d),
{
    let mut i: usize = 0;
    while i < proofs.len()
        invariant
            i <= proofs@.len(),
            tree_nodes.wf(),
            tree_nodes.entries@.len() >= old(tree_nodes).entries@.len(),
            forall|k: int|
                0 <= k < old(tree_nodes).entries@.len() ==> tree_nodes.entries@[k] == old(tree_nodes).entries@[k],
            forall|p: int, j: int|
                0 <= p < i && 0 <= j < proofs@[p].nodes@.len() ==> tree_nodes.has_digest(
                    #[trigger] keccak_of(proofs@[p].nodes@[j]@),
                ),
            forall|k: int|
                old(tree_nodes).entries@.len() <= k < tree_nodes.entries@.len()
                    ==> merged_node_pair(proofs@, #[trigger] tree_nodes.pairs()[k]),
            forall|d: Seq<u8>|
                #[trigger] old(tree_nodes).has_digest(d) ==> tree_nodes.has_digest(d),
        decreases proofs@.len() - i,
    {
        let mut j: usize = 0;
        while j < proofs[i].nodes.len()
            invariant
                i < proofs@.len(),
                j <= proofs@[i as int].nodes@.len(),
                tree_nodes.wf(),
                tree_nodes.entries@.len() >= old(tree_nodes).entries@.len(),
                forall|k: int|
                    0 <= k < old(tree_nodes).entries@.len() ==> tree_nodes.entries@[k] == old(tree_nodes).entries@[k],
                forall|p: int, q: int|
                    0 <= p < i && 0 <= q < proofs@[p].nodes@.len() ==> tree_nodes.has_digest(
                        #[trigger] keccak_of(proofs@[p].nodes@[q]@),
                    ),
                forall|q: int|
                    0 <= q < j ==> tree_nodes.has_digest(
                        keccak_of(#[trigger] proofs@[i as int].nodes@[q]@),
                    ),
                forall|k: int|
                    old(tree_nodes).entries@.len() <= k < tree_nodes.entries@.len()
                        ==> merged_node_pair(proofs@, #[trigger] tree_nodes.pairs()[k]),
                forall|d: Seq<u8>|
                    #[trigger] old(tree_nodes).has_digest(d) ==> tree_nodes.has_digest(d),
            decreases proofs@[i as int].nodes@.len() - j,
        {
            let ghost pre = *tree_nodes;
            insert_node(tree_nodes, &proofs[i].nodes[j]);
            proof {
                let n = proofs@[i as int].nodes@[j as int]@;
                assert forall|k: int|
                    old(tree_nodes).entries@.len() <= k < tree_nodes.entries@.len() implies
                    merged_node_pair(proofs@, #[trigger] tree_nodes.pairs()[k]) by {
                    if k < pre.entries@.len() {
                        assert(tree_nodes.pairs()[k] == pre.pairs()[k]);
                    } else {
                        assert(tree_nodes.entries@.len() > pre.entries@.len());
                        assert(!pre.has_digest(keccak_of(n)));
                        assert(tree_nodes.pairs() == pre.pairs().push((keccak_of(n), n)));
                        assert(k == pre.entries@.len());
                        assert(tree_nodes.pairs()[k] == (keccak_of(n), n));
                        assert(merged_node_pair(proofs@, (keccak_of(n), n)));
                    }
                }
            }
            j = j + 1;
        }
        i = i + 1;
    }
}

/// Whether `p` binds the digest of some node on a known account's proof
/// path to that node's own bytes.
pub open spec fn known_path_pair(
    addrs: Seq<Address>,
    m: Map<Seq<u8>, Seq<u8>>,
    p: (Seq<u8>, Seq<u8>),
) -> bool {
    exists|i: int, j: int|
        0 <= i < addrs.len() && 0 <= j < proof_nodes_of(m, trie_key(addrs[i])).len() && p == (
            keccak_of(#[trigger] proof_nodes_of(m, trie_key(addrs[i]))[j]),
            proof_nodes_of(m, trie_key(addrs[i]))[j],
        )
}

/// One emitted block artifact: the block's number, hash and declared root,
/// and the inclusion proofs it carries.
#[derive(Debug)]
pub struct BlockProof {
    pub block: u64,
    pub block_hash: Vec<u8>,
    pub state_root: Vec<u8>,
    pub proofs: Vec<AccountProof>,
}

impl BlockProof {
    fn new(block: &BlockInfo, proofs: Vec<AccountProof>) -> (r: BlockProof)
        ensures
            r.block == block.number,
            r.block_hash@ == block.hash@,
            r.state_root@ == block.state_root@,
            r.proofs == proofs,
    {
        BlockProof {
            block: block.number(),
            block_hash: block.hash(),
            state_root: block.state_root(),
            proofs,
        }
    }
}

/// What one processed block hands back to be written out: the touched
/// addresses, and — when per-block full proofs are enabled — the full proof
/// and that block's own deduplicated node set.
pub struct BlockArtifacts {
    pub touched: Vec<Address>,
    pub full_proof: Option<BlockProof>,
    pub block_tree_nodes: Option<NodeArchive>,
}

/// Drives sequential replay: one engine, the collected partial block
/// proofs, and the run-wide deduplicated node archive.
pub struct ProofArchiver {
    state: State,
    all_tree_nodes: NodeArchive,
    partial_block_proofs: Vec<BlockProof>,
    full_state_proof_per_block: bool,
}

impl ProofArchiver {
    /// The engine's account map.
    pub closed spec fn model(self) -> Map<Address, crate::account::AccountV> {
        self.state.model()
    }

    /// The engine's trie contents.
    pub closed spec fn contents(self) -> Map<Seq<u8>, Seq<u8>> {
        self.state.contents()
    }

    /// The engine's known addresses.
    pub closed spec fn addrs(self) -> Seq<Address> {
        self.state.addrs()
    }

    /// The next expected block number.
    pub closed spec fn next(self) -> nat {
        self.state.next()
    }

    /// The run-wide node archive.
    pub closed spec fn archive(self) -> NodeArchive {
        self.all_tree_nodes
    }

    /// The partial block proofs collected so far.
    pub closed spec fn partials(self) -> Seq<BlockProof> {
        self.partial_block_proofs@
    }

    /// Whether full per-block proofs are emitted.
    pub closed spec fn full_enabled(self) -> bool {
        self.full_state_proof_per_block
    }

    /// Whether the engine has hit a fatal failure and is terminal.
    pub closed spec fn is_faulted(self) -> bool {
        self.state.is_faulted()
    }

    /// Whether the engine's trie is committed.
    pub closed spec fn clean(self) -> bool {
        self.state.clean()
    }

    pub closed spec fn wf(self) -> bool {
        self.state.wf() && self.all_tree_nodes.wf()
    }

    /// Wraps a ready engine; no artifacts are collected yet.
    pub fn new(state: State, full_state_proof_per_block: bool) -> (r: ProofArchiver)
        requires
            state.wf(),
        ensures
            r.wf(),
            r.model() == state.model(),
            r.contents() == state.contents(),
            r.addrs() == state.addrs(),
            r.next() == state.next(),
            r.archive().entries@.len() == 0,
            r.archive().wf(),
            r.partials().len() == 0,
            r.full_enabled() == full_state_proof_per_block,
            r.is_faulted() == state.is_faulted(),
            r.clean() == state.clean(),
    {
        ProofArchiver {
            state,
            all_tree_nodes: NodeArchive::new(),
            partial_block_proofs: Vec::new(),
            full_state_proof_per_block,
        }
    }

    /// Processes one block: applies it to the engine, emits the partial
    /// proof for the touched accounts, optionally the full proof and the
    /// block's node set, and merges every computed proof node into the
    /// run-wide archive.
    pub fn process_one_block(&mut self, block: &BlockInfo) -> (r: Result<
        BlockArtifacts,
        StateError,
    >)
        requires
            old(self).wf(),
            !old(self).is_faulted(),
            block.wf(),
            old(self).next() < u64::MAX,
        ensures
            final(self).wf(),
            final(self).full_enabled() == old(self).full_enabled(),
            block.number as nat != old(self).next() <==> r == Err::<
                BlockArtifacts,
                StateError,
            >(StateError::OutOfOrderBlock),
            r == Err::<BlockArtifacts, StateError>(StateError::OutOfOrderBlock) ==> {
                &&& final(self).model() == old(self).model()
                &&& final(self).contents() == old(self).contents()
                &&& final(self).addrs() == old(self).addrs()
                &&& final(self).next() == old(self).next()
                &&& final(self).partials() == old(self).partials()
                &&& final(self).archive() == old(self).archive()
            },
            r matches Err(e) ==> (e == StateError::OutOfOrderBlock || e
                == StateError::StateRootMismatch || e == StateError::InvariantViolation)
                && final(self).is_faulted(),
            block.number as nat == old(self).next() ==> (r == Err::<
                BlockArtifacts,
                StateError,
            >(StateError::InvariantViolation) <==> apply_rewards(
                old(self).model(),
                block.rewards_v(),
            ) is None),
            r == Err::<BlockArtifacts, StateError>(StateError::StateRootMismatch) <==> {
                &&& block.number as nat == old(self).next()
                &&& apply_rewards(old(self).model(), block.rewards_v()) is Some
                &&& root_of(
                    apply_contents(old(self).model(), old(self).contents(), block.rewards_v()),
                ) != block.state_root@
            },
            r is Ok <==> {
                &&& block.number as nat == old(self).next()
                &&& apply_rewards(old(self).model(), block.rewards_v()) is Some
                &&& root_of(
                    apply_contents(old(self).model(), old(self).contents(), block.rewards_v()),
                ) == block.state_root@
            },
            final(self).archive().wf(),
            r matches Ok(arts) ==> {
                &&& block.number as nat == old(self).next()
                &&& final(self).next() == old(self).next() + 1
                &&& apply_rewards(old(self).model(), block.rewards_v()) == Some(
                    final(self).model(),
                )
                &&& final(self).contents() == apply_contents(
                    old(self).model(),
                    old(self).contents(),
                    block.rewards_v(),
                )
                &&& root_of(final(self).contents()) == block.state_root@
                &&& final(self).clean()
                &&& !final(self).is_faulted()
                &&& forall|x: Address|
                    #[trigger] arts.touched@.contains(x) ==> is_reward_addr(
                        block.rewards_v(),
                        x,
                    )
                &&& forall|x: Address|
                    #[trigger] is_reward_addr(block.rewards_v(), x) ==> arts.touched@.contains(
                        x,
                    )
                &&& final(self).partials().len() == old(self).partials().len() + 1
                &&& {
                    let bp = final(self).partials().last();
                    &&& bp.block == block.number
                    &&& bp.block_hash@ == block.hash@
                    &&& bp.state_root@ == block.state_root@
                    &&& bp.proofs@.len() == arts.touched@.len()
                    &&& forall|i: int|
                        0 <= i < bp.proofs@.len() ==> {
                            &&& (#[trigger] bp.proofs@[i]).address == arts.touched@[i]
                            &&& bp.proofs@[i].state@ == lookup(
                                final(self).model(),
                                arts.touched@[i],
                            )
                            &&& bp.proofs@[i].nodes.deep_view() == proof_nodes_of(
                                final(self).contents(),
                                trie_key(arts.touched@[i]),
                            )
                        }
                    &&& forall|i: int, j: int|
                        0 <= i < bp.proofs@.len() && 0 <= j < bp.proofs@[i].nodes@.len()
                            ==> final(self).archive().has_digest(
                            #[trigger] keccak_of(bp.proofs@[i].nodes@[j]@),
                        )
                }
                &&& arts.full_proof is Some <==> old(self).full_enabled()
                &&& arts.full_proof matches Some(fp) ==> {
                    &&& fp.block == block.number
                    &&& fp.block_hash@ == block.hash@
                    &&& fp.state_root@ == block.state_root@
                    &&& fp.proofs@.len() == final(self).addrs().len()
                    &&& forall|i: int|
                        0 <= i < fp.proofs@.len() ==> {
                            &&& (#[trigger] fp.proofs@[i]).address == final(self).addrs()[i]
                            &&& fp.proofs@[i].state@ == lookup(
                                final(self).model(),
                                final(self).addrs()[i],
                            )
                            &&& fp.proofs@[i].nodes.deep_view() == proof_nodes_of(
                                final(self).contents(),
                                trie_key(final(self).addrs()[i]),
                            )
                        }
                    &&& forall|i: int, j: int|
                        0 <= i < fp.proofs@.len() && 0 <= j < fp.proofs@[i].nodes@.len()
                            ==> final(self).archive().has_digest(
                            #[trigger] keccak_of(fp.proofs@[i].nodes@[j]@),
                        )
                }
                &&& arts.block_tree_nodes is Some <==> old(self).full_enabled()
                &&& arts.block_tree_nodes matches Some(bt) ==> bt.wf()
                &&& forall|i: int|
                    0 <= i < old(self).archive().entries@.len() ==> final(self).archive().entries@[i] == old(self).archive().entries@[i]
                &&& forall|i: int, j: int|
                    0 <= i < final(self).addrs().len() && 0 <= j < proof_nodes_of(
                        final(self).contents(),
                        trie_key(final(self).addrs()[i]),
                    ).len() ==> final(self).archive().has_digest(
                        #[trigger] keccak_of(
                            proof_nodes_of(
                                final(self).contents(),
                                trie_key(final(self).addrs()[i]),
                            )[j],
                        ),
                    )
                &&& forall|k: int|
                    old(self).archive().entries@.len() <= k < final(self).archive().entries@.len() ==> (merged_node_pair(
                        final(self).partials().last().proofs@,
                        #[trigger] final(self).archive().pairs()[k],
                    ) || known_path_pair(
                        final(self).addrs(),
                        final(self).contents(),
                        final(self).archive().pairs()[k],
                    ))
            },
    {
        let ghost base_len = self.all_tree_nodes.entries@.len();
        let touched = match self.state.process_block(block) {
            Err(e) => {
                return Err(e);
            },
            Ok(t) => t,
        };
        let partial = self.state.get_proofs(&touched);
        let ghost partial_view = partial@;
        update_tree_nodes(&mut self.all_tree_nodes, &partial);
        let ghost mid_len = self.all_tree_nodes.entries@.len();
        let ghost mid_archive = self.all_tree_nodes;
        let partial_bp = BlockProof::new(block, partial);
        self.partial_block_proofs.push(partial_bp);
        let accounts = self.state.accounts();
        // the run-wide archive takes every known account's proof nodes each
        // block, whether or not the full artifact itself is emitted
        let all_proofs = self.state.get_proofs(&accounts);
        update_tree_nodes(&mut self.all_tree_nodes, &all_proofs);
        proof {
            assert forall|i: int, j: int|
                0 <= i < self.state.addrs().len() && 0 <= j < proof_nodes_of(
                    self.state.contents(),
                    trie_key(self.state.addrs()[i]),
                ).len() implies self.all_tree_nodes.has_digest(
                keccak_of(
                    proof_nodes_of(self.state.contents(), trie_key(self.state.addrs()[i]))[j],
                ),
            ) by {
                let nodes = all_proofs@[i].nodes;
                assert(nodes.deep_view() == proof_nodes_of(
                    self.state.contents(),
                    trie_key(self.state.addrs()[i]),
                ));
                assert(nodes.deep_view()[j] == nodes@[j].deep_view());
                assert(nodes@[j].deep_view() =~= nodes@[j]@);
                assert(self.all_tree_nodes.has_digest(keccak_of(all_proofs@[i].nodes@[j]@)));
            }
            assert forall|k: int|
                base_len <= k < self.all_tree_nodes.entries@.len() implies (merged_node_pair(
                self.partial_block_proofs@.last().proofs@,
                self.all_tree_nodes.pairs()[k],
            ) || known_path_pair(
                self.state.addrs(),
                self.state.contents(),
                self.all_tree_nodes.pairs()[k],
            )) by {
                if k < mid_len {
                    assert(self.all_tree_nodes.entries@[k] == mid_archive.entries@[k]);
                    assert(self.all_tree_nodes.pairs()[k] == mid_archive.pairs()[k]);
                    assert(merged_node_pair(partial_view, mid_archive.pairs()[k]));
                    assert(self.partial_block_proofs@.last().proofs@ == partial_view);
                } else {
                    assert(merged_node_pair(all_proofs@, self.all_tree_nodes.pairs()[k]));
                    let (i, j) = choose|i: int, j: int|
                        0 <= i < all_proofs@.len() && 0 <= j < all_proofs@[i].nodes@.len()
                            && self.all_tree_nodes.pairs()[k] == (
                            keccak_of(#[trigger] all_proofs@[i].nodes@[j]@),
                            all_proofs@[i].nodes@[j]@,
                        );
                    let nodes = all_proofs@[i].nodes;
                    assert(nodes.deep_view() == proof_nodes_of(
                        self.state.contents(),
                        trie_key(self.state.addrs()[i]),
                    ));
                    assert(nodes.deep_view()[j] == nodes@[j].deep_view());
                    assert(nodes@[j].deep_view() =~= nodes@[j]@);
                    assert(nodes@[j]@ == proof_nodes_of(
                        self.state.contents(),
                        trie_key(self.state.addrs()[i]),
                    )[j]);
                    assert(known_path_pair(
                        self.state.addrs(),
                        self.state.contents(),
                        self.all_tree_nodes.pairs()[k],
                    ));
                }
            }
        }
        if self.full_state_proof_per_block {
            let mut block_tree = NodeArchive::new();
            update_tree_nodes(&mut block_tree, &all_proofs);
            let full_bp = BlockProof::new(block, all_proofs);
            Ok(
                BlockArtifacts {
                    touched,
                    full_proof: Some(full_bp),
                    block_tree_nodes: Some(block_tree),
                },
            )
        } else {
            Ok(BlockArtifacts { touched, full_proof: None, block_tree_nodes: None })
        }
    }

    /// The current root digest, recomputed on demand.
    pub fn current_root(&mut self) -> (r: Vec<u8>)
        ensures
            final(self).model() == old(self).model(),
            final(self).contents() == old(self).contents(),
            final(self).addrs() == old(self).addrs(),
            final(self).next() == old(self).next(),
            final(self).partials() == old(self).partials(),
            final(self).archive() == old(self).archive(),
            final(self).full_enabled() == old(self).full_enabled(),
            old(self).wf() ==> final(self).wf(),
            r@ == root_of(old(self).contents()),
            r@.len() == 32,
    {
        self.state.get_root()
    }

    /// The partial block proofs collected so far, oldest first.
    pub fn partial_proofs(&self) -> (r: &Vec<BlockProof>)
        ensures
            r@ == self.partials(),
    {
        &self.partial_block_proofs
    }

    /// The run-wide deduplicated node archive.
    pub fn tree_nodes(&self) -> (r: &NodeArchive)
        ensures
            *r == self.archive(),
    {
        &self.all_tree_nodes
    }

    /// The engine, for read-only queries between blocks.
    pub fn state(&self) -> (r: &State)
        ensures
            r.model() == self.model(),
            r.contents() == self.contents(),
            r.addrs() == self.addrs(),
            r.next() == self.next(),
            self.wf() ==> r.wf(),
    {
        &self.state
    }
}

} // verus!
