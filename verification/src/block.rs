//! A block as the engine reads it: the header facts the replay checks, and
//! the reward credits it applies.

use vstd::prelude::*;
use crate::address::Address;
use crate::balance::U256;
use crate::bytes::sub_vec;

verus! {

/// One reward credit: the recipient and the amount.
#[derive(Clone, Copy, Debug, PartialEq, Eq)]
pub struct BlockReward {
    pub address: Address,
    pub value: U256,
}

/// The mathematical content of a reward credit.
pub ghost struct RewardV {
    pub address: Address,
    pub value: nat,
}

impl View for BlockReward {
    type V = RewardV;

    open spec fn view(&self) -> RewardV {
        RewardV { address: self.address, value: self.value.val() }
    }
}

/// A block: its number, hash, declared post-state root, and reward credits.
#[derive(Clone, Debug)]
pub struct BlockInfo {
    pub number: u64,
    pub hash: Vec<u8>,
    pub state_root: Vec<u8>,
    pub rewards: Vec<BlockReward>,
}

impl BlockInfo {
    /// Hash and declared root are 32-byte digests.
    pub open spec fn wf(self) -> bool {
        self.hash@.len() == 32 && self.state_root@.len() == 32
    }

    /// The rewards as ghost records, in block order.
    pub open spec fn rewards_v(self) -> Seq<RewardV> {
        Seq::new(self.rewards@.len(), |i: int| self.rewards@[i]@)
    }

    pub fn number(&self) -> (r: u64)
        ensures
            r == self.number,
    {
        self.number
    }

    pub fn hash(&self) -> (r: Vec<u8>)
        ensures
            r@ == self.hash@,
    {
        let r = sub_vec(&self.hash, 0, self.hash.len());
        proof {
            assert(self.hash@.subrange(0, self.hash@.len() as int) =~= self.hash@);
        }
        r
    }

    pub fn state_root(&self) -> (r: Vec<u8>)
        ensures
            r@ == self.state_root@,
    {
        let r = sub_vec(&self.state_root, 0, self.state_root.len());
        proof {
            assert(self.state_root@.subrange(0, self.state_root@.len() as int)
                =~= self.state_root@);
        }
        r
    }

    /// The reward credits of this block, in order.
    pub fn block_rewards(&self) -> (r: Vec<BlockReward>)
        ensures
            r@ == self.rewards@,
    {
        let mut r: Vec<BlockReward> = Vec::new();
        let mut i: usize = 0;
        while i < self.rewards.len()
            invariant
                i <= self.rewards@.len(),
                r@ =~= self.rewards@.subrange(0, i as int),
            decreases self.rewards@.len() - i,
        {
            let x = self.rewards[i];
            r.push(x);
            proof {
                assert(r@ =~= self.rewards@.subrange(0, i + 1));
            }
            i = i + 1;
        }
        proof {
            assert(r@ =~= self.rewards@);
        }
        r
    }
}

} // verus!
