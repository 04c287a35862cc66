//! One account's state: the canonical, deterministically serializable record
//! the trie stores under the digest of the account's address.

use vstd::prelude::*;
use crate::balance::U256;
use crate::hashing::{keccak, keccak_of};

verus! {

/// The mathematical content of an account record.
pub ghost struct AccountV {
    pub nonce: nat,
    pub balance: nat,
    pub storage_hash: Seq<u8>,
    pub code_hash: Seq<u8>,
}

/// The chain-standard empty account: zero nonce and balance, the digest of
/// the canonical empty encoding as storage hash, the digest of the empty
/// byte string as code hash.
pub open spec fn default_account() -> AccountV {
    AccountV {
        nonce: 0,
        balance: 0,
        storage_hash: keccak_of(seq![0x80u8]),
        code_hash: keccak_of(Seq::<u8>::empty()),
    }
}

/// An account: nonce, balance, and the digests of its own storage trie root
/// and of its code.
#[derive(Clone, Debug, PartialEq, Eq)]
pub struct AccountState {
    pub nonce: u64,
    pub balance: U256,
    pub storage_hash: Vec<u8>,
    pub code_hash: Vec<u8>,
}

impl View for AccountState {
    type V = AccountV;

    open spec fn view(&self) -> AccountV {
        AccountV {
            nonce: self.nonce as nat,
            balance: self.balance.val(),
            storage_hash: self.storage_hash@,
            code_hash: self.code_hash@,
        }
    }
}

impl AccountState {
    /// Both digests are 32 bytes long.
    pub open spec fn wf(self) -> bool {
        self.storage_hash@.len() == 32 && self.code_hash@.len() == 32
    }
}

impl AccountState {
    /// A copy with the same content.
    pub fn clone_state(&self) -> (r: AccountState)
        ensures
            r@ == self@,
            r.wf() == self.wf(),
    {
        let storage_hash = crate::bytes::sub_vec(&self.storage_hash, 0, self.storage_hash.len());
        let code_hash = crate::bytes::sub_vec(&self.code_hash, 0, self.code_hash.len());
        proof {
            assert(self.storage_hash@.subrange(0, self.storage_hash@.len() as int)
                =~= self.storage_hash@);
            assert(self.code_hash@.subrange(0, self.code_hash@.len() as int)
                =~= self.code_hash@);
        }
        AccountState { nonce: self.nonce, balance: self.balance, storage_hash, code_hash }
    }
}

impl Default for AccountState {
    /// The chain-standard empty account.
    fn default() -> (r: AccountState)
        ensures
            r@ == default_account(),
            r.wf(),
    {
        let empty_encoding: Vec<u8> = vec![0x80u8];
        let empty: Vec<u8> = Vec::new();
        let storage_hash = keccak(&empty_encoding);
        let code_hash = keccak(&empty);
        proof {
            assert(empty_encoding@ =~= seq![0x80u8]);
            assert(empty@ =~= Seq::<u8>::empty());
        }
        AccountState { nonce: 0, balance: U256::zero(), storage_hash, code_hash }
    }
}

} // verus!
