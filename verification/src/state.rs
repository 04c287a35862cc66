//! The engine: the trie, the known accounts with their states, and the
//! next-expected-block counter. Every mutation is checked against a declared
//! root; the known-account set only ever grows.

use vstd::prelude::*;
use crate::account::{default_account, AccountState, AccountV};
use crate::address::{addr_lt, addr_less, insert_address, sorted_addrs, Address};
use crate::balance::u256_limit;
use crate::block::{BlockInfo, RewardV};
use crate::bytes::bytes_eq;
use crate::codec::spec_encode;
use crate::errors::StateError;
use crate::hashing::{keccak, keccak_of};
use crate::trie::{
    proof_nodes_of, root_of, trie_clean, trie_get_proof, trie_insert, trie_model, trie_new,
    trie_root, AccountTrie,
};

verus! {

/// The trie key of an address: the digest of its 20 bytes.
pub open spec fn trie_key(a: Address) -> Seq<u8> {
    keccak_of(a.bytes())
}

/// One known account and its current state.
pub struct AccountEntry {
    pub address: Address,
    pub state: AccountState,
}

/// The account map a sequence of entries stands for.
pub open spec fn entries_map(s: Seq<AccountEntry>) -> Map<Address, AccountV>
    decreases s.len(),
{
    if s.len() == 0 {
        Map::empty()
    } else {
        entries_map(s.drop_last()).insert(s.last().address, s.last().state@)
    }
}

/// The state an address has in a map: its entry, or the default account.
pub open spec fn lookup(m: Map<Address, AccountV>, a: Address) -> AccountV {
    if m.contains_key(a) {
        m[a]
    } else {
        default_account()
    }
}

/// One credit applied: the recipient's balance grows by the value; a sum
/// past 2^256 fails the whole step.
pub open spec fn apply_reward(m: Map<Address, AccountV>, r: RewardV) -> Option<
    Map<Address, AccountV>,
> {
    let s = lookup(m, r.address);
    if s.balance + r.value < u256_limit() {
        Some(m.insert(r.address, AccountV { balance: (s.balance + r.value) as nat, ..s }))
    } else {
        None
    }
}

/// The credits of a block applied in order.
pub open spec fn apply_rewards(m: Map<Address, AccountV>, rs: Seq<RewardV>) -> Option<
    Map<Address, AccountV>,
>
    decreases rs.len(),
{
    if rs.len() == 0 {
        Some(m)
    } else {
        match apply_reward(m, rs[0]) {
            None => None,
            Some(m2) => apply_rewards(m2, rs.subrange(1, rs.len() as int)),
        }
    }
}

/// The trie contents after the credits of a block, applied in order: each
/// credit re-encodes the recipient's updated state under its trie key.
pub open spec fn apply_contents(
    m: Map<Address, AccountV>,
    c: Map<Seq<u8>, Seq<u8>>,
    rs: Seq<RewardV>,
) -> Map<Seq<u8>, Seq<u8>>
    decreases rs.len(),
{
    if rs.len() == 0 {
        c
    } else {
        let s = lookup(m, rs[0].address);
        let s2 = AccountV { balance: (s.balance + rs[0].value) as nat, ..s };
        apply_contents(
            m.insert(rs[0].address, s2),
            c.insert(trie_key(rs[0].address), spec_encode(s2)),
            rs.subrange(1, rs.len() as int),
        )
    }
}

/// Whether some credit in `rs` goes to `a`.
pub open spec fn is_reward_addr(rs: Seq<RewardV>, a: Address) -> bool {
    exists|i: int| 0 <= i < rs.len() && rs[i].address == a
}

/// The account a genesis allocation entry creates: the default account with
/// the allocated balance.
pub open spec fn alloc_account(balance: nat) -> AccountV {
    AccountV { balance, ..default_account() }
}

/// The account map a genesis allocation builds.
pub open spec fn alloc_map(al: Seq<(Address, crate::balance::U256)>) -> Map<Address, AccountV>
    decreases al.len(),
{
    if al.len() == 0 {
        Map::empty()
    } else {
        alloc_map(al.drop_last()).insert(al.last().0, alloc_account(al.last().1.val()))
    }
}

/// The trie contents a genesis allocation builds.
pub open spec fn alloc_contents(al: Seq<(Address, crate::balance::U256)>) -> Map<
    Seq<u8>,
    Seq<u8>,
>
    decreases al.len(),
{
    if al.len() == 0 {
        Map::empty()
    } else {
        alloc_contents(al.drop_last()).insert(
            trie_key(al.last().0),
            spec_encode(alloc_account(al.last().1.val())),
        )
    }
}

/// Whether some allocation entry names `a`.
pub open spec fn is_alloc_addr(al: Seq<(Address, crate::balance::U256)>, a: Address) -> bool {
    exists|i: int| 0 <= i < al.len() && al[i].0 == a
}

/// An inclusion proof: the address, its decoded state, and the ordered
/// root-to-leaf list of raw trie nodes.
#[derive(Clone, Debug)]
pub struct AccountProof {
    pub address: Address,
    pub state: AccountState,
    pub nodes: Vec<Vec<u8>>,
}

/// The engine's mutable state for one replay run.
pub struct State {
    entries: Vec<AccountEntry>,
    trie: AccountTrie,
    next_block_number: u64,
    faulted: bool,
}

impl State {
    /// The known addresses, in increasing order.
    pub closed spec fn addrs(self) -> Seq<Address> {
        Seq::new(self.entries@.len(), |i: int| self.entries@[i].address)
    }

    /// The account map the engine holds.
    pub closed spec fn model(self) -> Map<Address, AccountV> {
        entries_map(self.entries@)
    }

    /// The trie contents.
    pub closed spec fn contents(self) -> Map<Seq<u8>, Seq<u8>> {
        trie_model(self.trie)
    }

    /// The next expected block number.
    pub closed spec fn next(self) -> nat {
        self.next_block_number as nat
    }

    /// Whether the trie's structure is committed, so that proof queries are
    /// a function of the contents.
    pub closed spec fn clean(self) -> bool {
        trie_clean(self.trie)
    }

    /// Whether a fatal failure has been hit: the engine is then terminal
    /// and accepts no further blocks.
    pub closed spec fn is_faulted(self) -> bool {
        self.faulted
    }

    /// Whether a fatal failure has been hit.
    pub fn faulted(&self) -> (r: bool)
        ensures
            r == self.is_faulted(),
    {
        self.faulted
    }

    /// Entries are strictly sorted by address and every state is well
    /// formed.
    pub closed spec fn wf(self) -> bool {
        &&& sorted_addrs(self.addrs())
        &&& forall|i: int|
            0 <= i < self.entries@.len() ==> (#[trigger] self.entries@[i]).state.wf()
    }

    /// Builds the engine from a genesis allocation and checks the resulting
    /// root against the declared one.
    #[verifier::loop_isolation(false)]
    pub fn try_new(
        alloc: &Vec<(Address, crate::balance::U256)>,
        expected_root: &Vec<u8>,
    ) -> (r: Result<State, StateError>)
        requires
            forall|i: int, j: int|
                0 <= i < j < alloc@.len() ==> (#[trigger] alloc@[i]).0 != (
                #[trigger] alloc@[j]).0,
        ensures
            r matches Ok(s) ==> {
                &&& s.wf()
                &&& s.next() == 0
                &&& s.model() == alloc_map(alloc@)
                &&& s.contents() == alloc_contents(alloc@)
                &&& forall|x: Address|
                    #[trigger] s.addrs().contains(x) ==> is_alloc_addr(alloc@, x)
                &&& forall|x: Address|
                    #[trigger] is_alloc_addr(alloc@, x) ==> s.addrs().contains(x)
                &&& root_of(alloc_contents(alloc@)) == expected_root@
                &&& s.clean()
                &&& !s.is_faulted()
            },
            r is Ok <==> root_of(alloc_contents(alloc@)) == expected_root@,
            r matches Err(e) ==> e == StateError::GenesisRootMismatch,
    {
        let mut st = State {
            entries: Vec::new(),
            trie: trie_new(),
            next_block_number: 0,
            faulted: false,
        };
        proof {
            assert(st.entries@.len() == 0);
            assert(st.model() =~= alloc_map(alloc@.subrange(0, 0)));
            assert(st.contents() =~= alloc_contents(alloc@.subrange(0, 0)));
        }
        let mut i: usize = 0;
        while i < alloc.len()
            invariant
                i <= alloc@.len(),
                forall|p: int, q: int|
                    0 <= p < q < alloc@.len() ==> (#[trigger] alloc@[p]).0 != (
                    #[trigger] alloc@[q]).0,
                st.wf(),
                st.next() == 0,
                !st.is_faulted(),
                st.model() == alloc_map(alloc@.subrange(0, i as int)),
                st.contents() == alloc_contents(alloc@.subrange(0, i as int)),
                forall|x: Address|
                    #[trigger] st.addrs().contains(x) ==> is_alloc_addr(
                        alloc@.subrange(0, i as int),
                        x,
                    ),
                forall|x: Address|
                    #[trigger] is_alloc_addr(alloc@.subrange(0, i as int), x)
                        ==> st.addrs().contains(x),
            decreases alloc@.len() - i,
        {
            let (a, bal) = alloc[i];
            let mut acct = AccountState::default();
            acct.balance = bal;
            proof {
                assert(acct@ == alloc_account(bal.val()));
            }
            let ghost pre_addrs = st.addrs();
            st.put_account(a, acct);
            proof {
                let pre = alloc@.subrange(0, i as int);
                let cur = alloc@.subrange(0, i + 1);
                assert(cur.drop_last() =~= pre);
                assert(cur.last() == alloc@[i as int]);
                assert(st.model() =~= alloc_map(cur));
                assert(st.contents() =~= alloc_contents(cur));
                assert forall|x: Address| st.addrs().contains(x) <==> is_alloc_addr(cur, x) by {
                    if st.addrs().contains(x) {
                        if x == a {
                            assert(cur[i as int].0 == a);
                            assert(is_alloc_addr(cur, x));
                        } else {
                            assert(pre_addrs.contains(x));
                            assert(is_alloc_addr(pre, x));
                            let k = choose|k: int| 0 <= k < pre.len() && pre[k].0 == x;
                            assert(cur[k].0 == x);
                            assert(is_alloc_addr(cur, x));
                        }
                    }
                    if is_alloc_addr(cur, x) {
                        let k = choose|k: int| 0 <= k < cur.len() && cur[k].0 == x;
                        if k < i {
                            assert(pre[k].0 == x);
                            assert(is_alloc_addr(pre, x));
                            assert(pre_addrs.contains(x));
                        } else {
                            assert(cur[k].0 == a);
                        }
                        assert(st.addrs().contains(x));
                    }
                }
            }
            i = i + 1;
        }
        proof {
            assert(alloc@.subrange(0, alloc@.len() as int) =~= alloc@);
        }
        let root = trie_root(&mut st.trie);
        if bytes_eq(&root, expected_root) {
            Ok(st)
        } else {
            Err(StateError::GenesisRootMismatch)
        }
    }

    /// Writes one account: encodes it into the trie under the digest of the
    /// address and records it among the known accounts.
    #[verifier::loop_isolation(false)]
    fn put_account(&mut self, a: Address, acct: AccountState)
        requires
            old(self).wf(),
            acct.wf(),
        ensures
            final(self).wf(),
            final(self).next() == old(self).next(),
            final(self).is_faulted() == old(self).is_faulted(),
            final(self).addrs().len() >= old(self).addrs().len(),
            final(self).model() == old(self).model().insert(a, acct@),
            final(self).contents() == old(self).contents().insert(
                trie_key(a),
                spec_encode(acct@),
            ),
            forall|x: Address|
                #[trigger] final(self).addrs().contains(x) ==> (old(self).addrs().contains(x)
                    || x == a),
            forall|x: Address|
                #[trigger] old(self).addrs().contains(x) ==> final(self).addrs().contains(x),
            final(self).addrs().contains(a),
    {
        let key_bytes = keccak(&a.to_bytes());
        let value = acct.encode();
        proof {
            assert(spec_encode(acct@).len() >= 2);
        }
        trie_insert(&mut self.trie, key_bytes, value);
        let entry = AccountEntry { address: a, state: acct };
        let ghost pre = self.entries@;
        let mut i: usize = 0;
        while i < self.entries.len() && addr_less(self.entries[i].address, a)
            invariant
                i <= self.entries@.len(),
                self.entries@ == pre,
                forall|j: int| 0 <= j < i ==> addr_lt(#[trigger] pre[j].address, a),
            decreases self.entries@.len() - i,
        {
            i = i + 1;
        }
        proof {
            lemma_sorted_entries_distinct(pre, old(self).addrs());
        }
        if i < self.entries.len() && self.entries[i].address == a {
            self.entries[i] = entry;
            proof {
                lemma_entries_map_update(pre, i as int, entry);
                assert(self.addrs() =~= old(self).addrs());
                assert forall|x: Address|
                    self.addrs().contains(x) <==> (old(self).addrs().contains(x) || x == a) by {
                    assert(old(self).addrs()[i as int] == a);
                    assert(old(self).addrs().contains(a));
                }
            }
        } else {
            proof {
                if i < pre.len() {
                    assert(addr_lt(a, pre[i as int].address));
                }
                assert forall|j: int| 0 <= j < pre.len() implies pre[j].address != a by {
                    let oa = old(self).addrs();
                    assert(oa[j] == pre[j].address);
                    if j < i {
                        assert(addr_lt(pre[j].address, a));
                    } else {
                        if i < j {
                            assert(oa[i as int] == pre[i as int].address);
                            assert(addr_lt(oa[i as int], oa[j]));
                            assert(addr_lt(pre[i as int].address, pre[j].address));
                        }
                    }
                }
                lemma_entries_map_insert(pre, i as int, entry);
            }
            self.entries.insert(i, entry);
            proof {
                let s = old(self).addrs();
                assert(self.addrs() =~= s.insert(i as int, a));
                crate::address::lemma_sorted_insert(s, i as int, a);
            }
        }
    }

    /// Processes the next block: applies its reward credits, recomputes the
    /// root, and checks it against the block's declared state root. Returns
    /// the touched addresses in increasing order.
    #[verifier::loop_isolation(false)]
    pub fn process_block(&mut self, block: &BlockInfo) -> (r: Result<Vec<Address>, StateError>)
        requires
            old(self).wf(),
            !old(self).is_faulted(),
            block.wf(),
            old(self).next() < u64::MAX,
        ensures
            final(self).wf(),
            final(self).addrs().len() >= old(self).addrs().len(),
            forall|x: Address|
                old(self).addrs().contains(x) ==> final(self).addrs().contains(x),
            block.number as nat != old(self).next() <==> r == Err::<Vec<Address>, StateError>(
                StateError::OutOfOrderBlock,
            ),
            r == Err::<Vec<Address>, StateError>(StateError::OutOfOrderBlock) ==> {
                &&& final(self).model() == old(self).model()
                &&& final(self).contents() == old(self).contents()
                &&& final(self).addrs() == old(self).addrs()
                &&& (old(self).clean() ==> final(self).clean())
            },
            r matches Err(e) ==> final(self).next() == old(self).next() && final(self).is_faulted() && (e == StateError::OutOfOrderBlock || e
                == StateError::StateRootMismatch || e == StateError::InvariantViolation),
            block.number as nat == old(self).next() ==> (r == Err::<Vec<Address>, StateError>(
                StateError::InvariantViolation,
            ) <==> apply_rewards(old(self).model(), block.rewards_v()) is None),
            r == Err::<Vec<Address>, StateError>(StateError::StateRootMismatch) <==> {
                &&& block.number as nat == old(self).next()
                &&& apply_rewards(old(self).model(), block.rewards_v()) is Some
                &&& root_of(
                    apply_contents(old(self).model(), old(self).contents(), block.rewards_v()),
                ) != block.state_root@
            },
            r is Ok <==> {
                &&& block.number as nat == old(self).next()
                &&& apply_rewards(old(self).model(), block.rewards_v()) is Some
                &&& root_of(
                    apply_contents(old(self).model(), old(self).contents(), block.rewards_v()),
                ) == block.state_root@
            },
            r matches Ok(touched) ==> {
                &&& block.number as nat == old(self).next()
                &&& final(self).next() == old(self).next() + 1
                &&& apply_rewards(old(self).model(), block.rewards_v()) == Some(
                    final(self).model(),
                )
                &&& final(self).contents() == apply_contents(
                    old(self).model(),
                    old(self).contents(),
                    block.rewards_v(),
                )
                &&& root_of(final(self).contents()) == block.state_root@
                &&& final(self).clean()
                &&& !final(self).is_faulted()
                &&& sorted_addrs(touched@)
                &&& forall|x: Address|
                    #[trigger] touched@.contains(x) ==> is_reward_addr(block.rewards_v(), x)
                &&& forall|x: Address|
                    #[trigger] is_reward_addr(block.rewards_v(), x) ==> touched@.contains(x)
                &&& forall|x: Address|
                    #[trigger] final(self).addrs().contains(x) ==> (old(self).addrs().contains(x) || is_reward_addr(
                        block.rewards_v(),
                        x,
                    ))
                &&& forall|x: Address|
                    #[trigger] is_reward_addr(block.rewards_v(), x) ==> final(self).addrs().contains(x)
            },
            r == Err::<Vec<Address>, StateError>(StateError::StateRootMismatch) ==> {
                &&& apply_rewards(old(self).model(), block.rewards_v()) == Some(
                    final(self).model(),
                )
                &&& final(self).contents() == apply_contents(
                    old(self).model(),
                    old(self).contents(),
                    block.rewards_v(),
                )
                &&& root_of(final(self).contents()) != block.state_root@
                &&& final(self).clean()
            },
    {
        if block.number != self.next_block_number {
            self.faulted = true;
            return Err(StateError::OutOfOrderBlock);
        }
        let ghost rv = block.rewards_v();
        let mut touched: Vec<Address> = Vec::new();
        let mut i: usize = 0;
        proof {
            assert(rv.subrange(0, rv.len() as int) =~= rv);
        }
        while i < block.rewards.len()
            invariant
                i <= block.rewards@.len(),
                rv == block.rewards_v(),
                rv.len() == block.rewards@.len(),
                block.wf(),
                self.wf(),
                self.next() == old(self).next(),
                !self.is_faulted(),
                apply_rewards(old(self).model(), rv) == apply_rewards(
                    self.model(),
                    rv.subrange(i as int, rv.len() as int),
                ),
                apply_contents(old(self).model(), old(self).contents(), rv) == apply_contents(
                    self.model(),
                    self.contents(),
                    rv.subrange(i as int, rv.len() as int),
                ),
                sorted_addrs(touched@),
                forall|x: Address|
                    #[trigger] touched@.contains(x) ==> is_reward_addr(
                        rv.subrange(0, i as int),
                        x,
                    ),
                forall|x: Address|
                    #[trigger] is_reward_addr(rv.subrange(0, i as int), x)
                        ==> touched@.contains(x),
                forall|x: Address|
                    #[trigger] self.addrs().contains(x) ==> (old(self).addrs().contains(x)
                        || touched@.contains(x)),
                forall|x: Address|
                    #[trigger] old(self).addrs().contains(x) ==> self.addrs().contains(x),
                forall|x: Address|
                    #[trigger] touched@.contains(x) ==> self.addrs().contains(x),
                self.addrs().len() >= old(self).addrs().len(),
            decreases block.rewards@.len() - i,
        {
            let rw = block.rewards[i];
            let mut acct = self.get_account_state(&rw.address);
            let ghost mid = self.model();
            let ghost cmid = self.contents();
            proof {
                assert(rv[i as int] == block.rewards@[i as int]@);
                assert(acct@ == lookup(mid, rw.address));
            }
            match acct.balance.checked_add(rw.value) {
                None => {
                    proof {
                        assert(apply_reward(mid, rv[i as int]) is None);
                        assert(rv.subrange(i as int, rv.len() as int)[0] == rv[i as int]);
                        assert(apply_rewards(
                            self.model(),
                            rv.subrange(i as int, rv.len() as int),
                        ) is None);
                    }
                    self.faulted = true;
                    return Err(StateError::InvariantViolation);
                },
                Some(nb) => {
                    let ghost oldacct = acct@;
                    acct.balance = nb;
                    proof {
                        assert(acct@ == AccountV {
                            balance: (oldacct.balance + rv[i as int].value) as nat,
                            ..oldacct
                        });
                    }
                    let ghost pre_addrs = self.addrs();
                    self.put_account(rw.address, acct);
                    let ghost pre_touched = touched@;
                    insert_address(&mut touched, rw.address);
                    proof {
                        let tail = rv.subrange(i as int, rv.len() as int);
                        assert(tail[0] == rv[i as int]);
                        assert(apply_reward(mid, rv[i as int]) == Some(self.model()));
                        assert(tail.subrange(1, tail.len() as int) =~= rv.subrange(
                            i + 1,
                            rv.len() as int,
                        ));
                        assert(apply_rewards(mid, tail) == apply_rewards(
                            self.model(),
                            rv.subrange(i + 1, rv.len() as int),
                        ));
                        assert(apply_contents(mid, cmid, tail) == apply_contents(
                            self.model(),
                            self.contents(),
                            rv.subrange(i + 1, rv.len() as int),
                        ));
                        let pre = rv.subrange(0, i as int);
                        let cur = rv.subrange(0, i + 1);
                        assert forall|x: Address|
                            touched@.contains(x) <==> is_reward_addr(cur, x) by {
                            if touched@.contains(x) {
                                if x == rv[i as int].address {
                                    assert(cur[i as int] == rv[i as int]);
                                    assert(is_reward_addr(cur, x));
                                } else {
                                    assert(pre_touched.contains(x));
                                    assert(is_reward_addr(pre, x));
                                    let k = choose|k: int|
                                        0 <= k < pre.len() && pre[k].address == x;
                                    assert(cur[k] == pre[k]);
                                    assert(is_reward_addr(cur, x));
                                }
                            }
                            if is_reward_addr(cur, x) {
                                let k = choose|k: int| 0 <= k < cur.len() && cur[k].address
                                    == x;
                                if k < i {
                                    assert(pre[k] == cur[k]);
                                    assert(is_reward_addr(pre, x));
                                    assert(pre_touched.contains(x));
                                } else {
                                    assert(cur[k] == rv[i as int]);
                                }
                                assert(touched@.contains(x));
                            }
                        }
                        assert forall|x: Address|
                            self.addrs().contains(x) <==> (old(self).addrs().contains(x)
                                || touched@.contains(x)) by {
                            assert(self.addrs().contains(x) <==> (pre_addrs.contains(x) || x
                                == rw.address));
                            assert(touched@.contains(x) <==> (pre_touched.contains(x) || x
                                == rw.address));
                            assert(pre_addrs.contains(x) <==> (old(self).addrs().contains(x)
                                || pre_touched.contains(x)));
                        }
                    }
                },
            }
            i = i + 1;
        }
        let ghost end_addrs = self.addrs();
        proof {
            assert(rv.subrange(0, rv.len() as int) =~= rv);
            assert(rv.subrange(rv.len() as int, rv.len() as int) =~= Seq::<RewardV>::empty());
            assert(apply_rewards(old(self).model(), rv) == Some(self.model()));
            assert(apply_contents(old(self).model(), old(self).contents(), rv)
                == self.contents());
        }
        let root = trie_root(&mut self.trie);
        if !bytes_eq(&root, &block.state_root) {
            self.faulted = true;
            proof {
                assert(self.addrs() =~= end_addrs);
            }
            return Err(StateError::StateRootMismatch);
        }
        self.next_block_number = self.next_block_number + 1;
        proof {
            assert(self.addrs() =~= end_addrs);
        }
        Ok(touched)
    }

    /// The current root digest, recomputed on demand.
    pub fn get_root(&mut self) -> (r: Vec<u8>)
        ensures
            final(self).model() == old(self).model(),
            final(self).contents() == old(self).contents(),
            final(self).addrs() == old(self).addrs(),
            final(self).next() == old(self).next(),
            final(self).is_faulted() == old(self).is_faulted(),
            old(self).wf() ==> final(self).wf(),
            r@ == root_of(old(self).contents()),
            r@.len() == 32,
            final(self).clean(),
    {
        trie_root(&mut self.trie)
    }

    /// The current state of an account: its entry, or the canonical default
    /// if it is unknown — never an error.
    #[verifier::loop_isolation(false)]
    pub fn get_account_state(&self, account: &Address) -> (r: AccountState)
        requires
            self.wf(),
        ensures
            r@ == lookup(self.model(), *account),
            r.wf(),
    {
        proof {
            lemma_sorted_entries_distinct(self.entries@, self.addrs());
        }
        let mut i: usize = 0;
        while i < self.entries.len()
            invariant
                self.wf(),
                i <= self.entries@.len(),
                forall|j: int| 0 <= j < i ==> (#[trigger] self.entries@[j]).address != *account,
            decreases self.entries@.len() - i,
        {
            if self.entries[i].address == *account {
                proof {
                    lemma_entries_map_index(self.entries@, i as int);
                }
                return self.entries[i].state.clone_state();
            }
            i = i + 1;
        }
        proof {
            lemma_entries_map_absent(self.entries@, *account);
        }
        AccountState::default()
    }

    /// The inclusion proof for one address: its current state and the
    /// ordered node path for its trie key.
    pub fn get_proof(&self, account: &Address) -> (r: AccountProof)
        requires
            self.wf(),
            self.clean(),
        ensures
            r.address == *account,
            r.state@ == lookup(self.model(), *account),
            r.state.wf(),
            r.nodes.deep_view() == proof_nodes_of(self.contents(), trie_key(*account)),
    {
        let state = self.get_account_state(account);
        let key_bytes = keccak(&account.to_bytes());
        let nodes = trie_get_proof(&self.trie, &key_bytes);
        AccountProof { address: *account, state, nodes }
    }

    /// Inclusion proofs for the given addresses, one per input, in input
    /// order.
    #[verifier::loop_isolation(false)]
    pub fn get_proofs(&self, accounts: &Vec<Address>) -> (r: Vec<AccountProof>)
        requires
            self.wf(),
            self.clean(),
        ensures
            r@.len() == accounts@.len(),
            forall|i: int|
                0 <= i < r@.len() ==> {
                    &&& (#[trigger] r@[i]).address == accounts@[i]
                    &&& r@[i].state@ == lookup(self.model(), accounts@[i])
                    &&& r@[i].state.wf()
                    &&& r@[i].nodes.deep_view() == proof_nodes_of(
                        self.contents(),
                        trie_key(accounts@[i]),
                    )
                },
    {
        let mut ps: Vec<AccountProof> = Vec::new();
        let mut i: usize = 0;
        while i < accounts.len()
            invariant
                self.wf(),
                self.clean(),
                i <= accounts@.len(),
                ps@.len() == i,
                forall|j: int|
                    0 <= j < i ==> {
                        &&& (#[trigger] ps@[j]).address == accounts@[j]
                        &&& ps@[j].state@ == lookup(self.model(), accounts@[j])
                        &&& ps@[j].state.wf()
                        &&& ps@[j].nodes.deep_view() == proof_nodes_of(
                            self.contents(),
                            trie_key(accounts@[j]),
                        )
                    },
            decreases accounts@.len() - i,
        {
            let a = accounts[i];
            let p = self.get_proof(&a);
            ps.push(p);
            i = i + 1;
        }
        ps
    }

    /// The known addresses, in increasing order.
    #[verifier::loop_isolation(false)]
    pub fn accounts(&self) -> (r: Vec<Address>)
        ensures
            r@ == self.addrs(),
    {
        let mut r: Vec<Address> = Vec::new();
        let mut i: usize = 0;
        while i < self.entries.len()
            invariant
                i <= self.entries@.len(),
                r@.len() == i,
                forall|j: int| 0 <= j < i ==> r@[j] == self.addrs()[j],
            decreases self.entries@.len() - i,
        {
            let a = self.entries[i].address;
            r.push(a);
            i = i + 1;
        }
        proof {
            assert(r@ =~= self.addrs());
        }
        r
    }

    /// The number of the block the engine expects next.
    pub fn next_block(&self) -> (r: u64)
        ensures
            r as nat == self.next(),
    {
        self.next_block_number
    }
}

/// Strictly sorted addresses are pairwise distinct entry addresses.
proof fn lemma_sorted_entries_distinct(s: Seq<AccountEntry>, addrs: Seq<Address>)
    requires
        sorted_addrs(addrs),
        addrs.len() == s.len(),
        forall|i: int| 0 <= i < s.len() ==> addrs[i] == (#[trigger] s[i]).address,
    ensures
        forall|i: int, j: int|
            0 <= i < j < s.len() ==> (#[trigger] s[i]).address != (#[trigger] s[j]).address,
{
    assert forall|i: int, j: int| 0 <= i < j < s.len() implies (#[trigger] s[i]).address != (
    #[trigger] s[j]).address by {
        assert(addr_lt(addrs[i], addrs[j]));
    }
}

/// A present entry decides the map at its address.
proof fn lemma_entries_map_index(s: Seq<AccountEntry>, i: int)
    requires
        0 <= i < s.len(),
        forall|p: int, q: int|
            0 <= p < q < s.len() ==> (#[trigger] s[p]).address != (#[trigger] s[q]).address,
    ensures
        entries_map(s).contains_key(s[i].address),
        entries_map(s)[s[i].address] == s[i].state@,
    decreases s.len(),
{
    if i == s.len() - 1 {
    } else {
        let dl = s.drop_last();
        lemma_entries_map_index(dl, i);
        assert(s[s.len() - 1].address != s[i].address);
    }
}

/// An address no entry carries is not in the map.
proof fn lemma_entries_map_absent(s: Seq<AccountEntry>, a: Address)
    requires
        forall|i: int| 0 <= i < s.len() ==> (#[trigger] s[i]).address != a,
    ensures
        !entries_map(s).contains_key(a),
    decreases s.len(),
{
    if s.len() > 0 {
        lemma_entries_map_absent(s.drop_last(), a);
    }
}

/// Two map inserts at distinct keys commute.
proof fn lemma_map_insert_commute<K, V>(m: Map<K, V>, k1: K, v1: V, k2: K, v2: V)
    requires
        k1 != k2,
    ensures
        m.insert(k1, v1).insert(k2, v2) == m.insert(k2, v2).insert(k1, v1),
{
    assert(m.insert(k1, v1).insert(k2, v2) =~= m.insert(k2, v2).insert(k1, v1));
}

/// Replacing the state behind an existing address updates the map at that
/// address.
proof fn lemma_entries_map_update(s: Seq<AccountEntry>, i: int, e: AccountEntry)
    requires
        0 <= i < s.len(),
        e.address == s[i].address,
        forall|p: int, q: int|
            0 <= p < q < s.len() ==> (#[trigger] s[p]).address != (#[trigger] s[q]).address,
    ensures
        entries_map(s.update(i, e)) == entries_map(s).insert(e.address, e.state@),
    decreases s.len(),
{
    let su = s.update(i, e);
    if i == s.len() - 1 {
        assert(su.drop_last() =~= s.drop_last());
        assert(su.last() == e);
        assert(entries_map(su) =~= entries_map(s).insert(e.address, e.state@));
    } else {
        let dl = s.drop_last();
        assert(su.drop_last() =~= dl.update(i, e));
        assert(su.last() == s.last());
        lemma_entries_map_update(dl, i, e);
        assert(s[s.len() - 1].address != s[i].address);
        lemma_map_insert_commute(
            entries_map(dl),
            e.address,
            e.state@,
            s.last().address,
            s.last().state@,
        );
        assert(entries_map(su) == entries_map(dl).insert(e.address, e.state@).insert(
            s.last().address,
            s.last().state@,
        ));
        assert(entries_map(s).insert(e.address, e.state@) == entries_map(dl).insert(
            s.last().address,
            s.last().state@,
        ).insert(e.address, e.state@));
    }
}

/// Inserting an entry for a new address inserts it into the map.
proof fn lemma_entries_map_insert(s: Seq<AccountEntry>, i: int, e: AccountEntry)
    requires
        0 <= i <= s.len(),
        forall|j: int| 0 <= j < s.len() ==> (#[trigger] s[j]).address != e.address,
    ensures
        entries_map(s.insert(i, e)) == entries_map(s).insert(e.address, e.state@),
    decreases s.len(),
{
    let si = s.insert(i, e);
    if i == s.len() {
        assert(si.drop_last() =~= s);
        assert(si.last() == e);
    } else {
        let dl = s.drop_last();
        assert(si.drop_last() =~= dl.insert(i, e));
        assert(si.last() == s.last());
        lemma_entries_map_insert(dl, i, e);
        assert(s[s.len() - 1].address != e.address);
        lemma_map_insert_commute(
            entries_map(dl),
            e.address,
            e.state@,
            s.last().address,
            s.last().state@,
        );
        assert(entries_map(si) == entries_map(dl).insert(e.address, e.state@).insert(
            s.last().address,
            s.last().state@,
        ));
        assert(entries_map(s).insert(e.address, e.state@) == entries_map(dl).insert(
            s.last().address,
            s.last().state@,
        ).insert(e.address, e.state@));
    }
}


/// No two allocation entries share a trie key.
pub open spec fn alloc_keys_injective(al: Seq<(Address, crate::balance::U256)>) -> bool {
    forall|i: int, j: int|
        0 <= i < j < al.len() ==> trie_key((#[trigger] al[i]).0) != trie_key(
            (#[trigger] al[j]).0,
        )
}

proof fn lemma_alloc_map_index(al: Seq<(Address, crate::balance::U256)>, i: int)
    requires
        0 <= i < al.len(),
        forall|p: int, q: int|
            0 <= p < q < al.len() ==> (#[trigger] al[p]).0 != (#[trigger] al[q]).0,
    ensures
        alloc_map(al).contains_key(al[i].0),
        alloc_map(al)[al[i].0] == alloc_account(al[i].1.val()),
    decreases al.len(),
{
    if i < al.len() - 1 {
        let dl = al.drop_last();
        lemma_alloc_map_index(dl, i);
        assert(al[al.len() - 1].0 != al[i].0);
    }
}

proof fn lemma_alloc_map_domain(al: Seq<(Address, crate::balance::U256)>, a: Address)
    requires
        alloc_map(al).contains_key(a),
    ensures
        exists|i: int| 0 <= i < al.len() && (#[trigger] al[i]).0 == a,
    decreases al.len(),
{
    if al.len() > 0 {
        if al.last().0 == a {
            assert(al[al.len() - 1].0 == a);
        } else {
            lemma_alloc_map_domain(al.drop_last(), a);
            let i = choose|i: int|
                0 <= i < al.drop_last().len() && (#[trigger] al.drop_last()[i]).0 == a;
            assert(al[i].0 == a);
        }
    }
}

proof fn lemma_alloc_contents_index(al: Seq<(Address, crate::balance::U256)>, i: int)
    requires
        0 <= i < al.len(),
        alloc_keys_injective(al),
    ensures
        alloc_contents(al).contains_key(trie_key(al[i].0)),
        alloc_contents(al)[trie_key(al[i].0)] == spec_encode(alloc_account(al[i].1.val())),
    decreases al.len(),
{
    if i < al.len() - 1 {
        let dl = al.drop_last();
        lemma_alloc_contents_index(dl, i);
        assert(trie_key(al[al.len() - 1].0) != trie_key(al[i].0));
    }
}

proof fn lemma_alloc_contents_domain(al: Seq<(Address, crate::balance::U256)>, k: Seq<u8>)
    requires
        alloc_contents(al).contains_key(k),
    ensures
        exists|i: int| 0 <= i < al.len() && trie_key((#[trigger] al[i]).0) == k,
    decreases al.len(),
{
    if al.len() > 0 {
        if trie_key(al.last().0) == k {
            assert(trie_key(al[al.len() - 1].0) == k);
        } else {
            lemma_alloc_contents_domain(al.drop_last(), k);
            let i = choose|i: int|
                0 <= i < al.drop_last().len() && trie_key((#[trigger] al.drop_last()[i]).0)
                    == k;
            assert(trie_key(al[i].0) == k);
        }
    }
}

/// Initialization is deterministic: two allocations that hold one and the
/// same set of address-balance pairs build one and the same account map —
/// and, wherever no two of their trie keys collide, one and the same trie
/// contents, hence one root digest and one proof path for every key.
pub proof fn lemma_initialize_deterministic(
    al1: Seq<(Address, crate::balance::U256)>,
    al2: Seq<(Address, crate::balance::U256)>,
)
    requires
        forall|p: int, q: int|
            0 <= p < q < al1.len() ==> (#[trigger] al1[p]).0 != (#[trigger] al1[q]).0,
        forall|p: int, q: int|
            0 <= p < q < al2.len() ==> (#[trigger] al2[p]).0 != (#[trigger] al2[q]).0,
        forall|p: (Address, crate::balance::U256)| al1.contains(p) <==> al2.contains(p),
    ensures
        alloc_map(al1) == alloc_map(al2),
        alloc_keys_injective(al1) && alloc_keys_injective(al2) ==> alloc_contents(al1)
            == alloc_contents(al2) && root_of(alloc_contents(al1)) == root_of(
            alloc_contents(al2),
        ),
{
    assert forall|a: Address| #[trigger] alloc_map(al1).contains_key(a) implies alloc_map(
        al2,
    ).contains_key(a) && alloc_map(al2)[a] == alloc_map(al1)[a] by {
        lemma_alloc_map_domain(al1, a);
        let i = choose|i: int| 0 <= i < al1.len() && (#[trigger] al1[i]).0 == a;
        lemma_alloc_map_index(al1, i);
        assert(al1.contains(al1[i]));
        assert(al2.contains(al1[i]));
        let j = choose|j: int| 0 <= j < al2.len() && al2[j] == al1[i];
        lemma_alloc_map_index(al2, j);
    }
    assert forall|a: Address| #[trigger] alloc_map(al2).contains_key(a) implies alloc_map(
        al1,
    ).contains_key(a) by {
        lemma_alloc_map_domain(al2, a);
        let i = choose|i: int| 0 <= i < al2.len() && (#[trigger] al2[i]).0 == a;
        lemma_alloc_map_index(al2, i);
        assert(al2.contains(al2[i]));
        assert(al1.contains(al2[i]));
        let j = choose|j: int| 0 <= j < al1.len() && al1[j] == al2[i];
        lemma_alloc_map_index(al1, j);
    }
    assert(alloc_map(al1) =~= alloc_map(al2));
    if alloc_keys_injective(al1) && alloc_keys_injective(al2) {
        assert forall|k: Seq<u8>| #[trigger] alloc_contents(al1).contains_key(k) implies
            alloc_contents(al2).contains_key(k) && alloc_contents(al2)[k] == alloc_contents(
            al1,
        )[k] by {
            lemma_alloc_contents_domain(al1, k);
            let i = choose|i: int| 0 <= i < al1.len() && trie_key((#[trigger] al1[i]).0) == k;
            lemma_alloc_contents_index(al1, i);
            assert(al1.contains(al1[i]));
            assert(al2.contains(al1[i]));
            let j = choose|j: int| 0 <= j < al2.len() && al2[j] == al1[i];
            lemma_alloc_contents_index(al2, j);
        }
        assert forall|k: Seq<u8>| #[trigger] alloc_contents(al2).contains_key(k) implies
            alloc_contents(al1).contains_key(k) by {
            lemma_alloc_contents_domain(al2, k);
            let i = choose|i: int| 0 <= i < al2.len() && trie_key((#[trigger] al2[i]).0) == k;
            lemma_alloc_contents_index(al2, i);
            assert(al2.contains(al2[i]));
            assert(al1.contains(al2[i]));
            let j = choose|j: int| 0 <= j < al1.len() && al1[j] == al2[i];
            lemma_alloc_contents_index(al1, j);
        }
        assert(alloc_contents(al1) =~= alloc_contents(al2));
    }
}


} // verus!
