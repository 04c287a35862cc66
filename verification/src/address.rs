//! A 20-byte account address as a pair of machine integers, with the strict
//! order the engine keeps its address sets in.

use vstd::prelude::*;
use crate::bytes::{be_bytes_fixed, be_fixed, push_bytes};

verus! {

/// A 160-bit address: the high 32 bits and the low 128 bits of its
/// big-endian 20-byte form.
#[derive(Clone, Copy, Debug, PartialEq, Eq, Hash, Structural)]
pub struct Address {
    pub hi: u32,
    pub lo: u128,
}

impl Address {
    /// The 20-byte big-endian form of this address.
    pub open spec fn bytes(self) -> Seq<u8> {
        be_fixed(self.hi as nat, 4) + be_fixed(self.lo as nat, 16)
    }

    pub fn new(hi: u32, lo: u128) -> (r: Address)
        ensures
            r == (Address { hi, lo }),
    {
        Address { hi, lo }
    }

    /// The 20 bytes, for hashing into a trie key.
    pub fn to_bytes(&self) -> (r: Vec<u8>)
        ensures
            r@ == self.bytes(),
            r@.len() == 20,
    {
        let mut r = be_bytes_fixed(self.hi as u128, 4);
        let lo16 = be_bytes_fixed(self.lo, 16);
        push_bytes(&mut r, &lo16);
        r
    }
}

/// Strict order on addresses: by the numeric value of the 20 bytes.
pub open spec fn addr_lt(a: Address, b: Address) -> bool {
    a.hi < b.hi || (a.hi == b.hi && a.lo < b.lo)
}

pub fn addr_less(a: Address, b: Address) -> (r: bool)
    ensures
        r == addr_lt(a, b),
{
    a.hi < b.hi || (a.hi == b.hi && a.lo < b.lo)
}

/// A strictly increasing address sequence: sorted, with no duplicates.
pub open spec fn sorted_addrs(s: Seq<Address>) -> bool {
    forall|i: int, j: int| 0 <= i < j < s.len() ==> addr_lt(s[i], s[j])
}

/// Membership by linear scan.
pub fn contains_address(v: &Vec<Address>, a: &Address) -> (r: bool)
    ensures
        r == v@.contains(*a),
{
    let mut i: usize = 0;
    while i < v.len()
        invariant
            i <= v@.len(),
            forall|j: int| 0 <= j < i ==> v@[j] != *a,
        decreases v@.len() - i,
    {
        if v[i] == *a {
            return true;
        }
        i = i + 1;
    }
    false
}

/// Inserting `a` at position `i` of a sorted address sequence — everything
/// before `i` below `a`, everything from `i` on above it — keeps the strict
/// order and adds exactly `a` to the members.
pub proof fn lemma_sorted_insert(s: Seq<Address>, i: int, a: Address)
    requires
        sorted_addrs(s),
        0 <= i <= s.len(),
        forall|j: int| 0 <= j < i ==> addr_lt(#[trigger] s[j], a),
        i < s.len() ==> addr_lt(a, s[i]),
    ensures
        sorted_addrs(s.insert(i, a)),
        forall|x: Address| #[trigger] s.insert(i, a).contains(x) ==> (s.contains(x) || x == a),
        forall|x: Address| #[trigger] s.contains(x) ==> s.insert(i, a).contains(x),
        s.insert(i, a).contains(a),
        s.insert(i, a).len() == s.len() + 1,
{
    let t = s.insert(i, a);
    assert forall|p: int, q: int| 0 <= p < q < t.len() implies addr_lt(t[p], t[q]) by {
        if p < i && q == i {
            assert(t[p] == s[p]);
        } else if p == i && q > i {
            assert(t[q] == s[q - 1]);
            if q - 1 > i {
                assert(addr_lt(s[i], s[q - 1]));
            }
        } else if p < i && q > i {
            assert(t[p] == s[p] && t[q] == s[q - 1]);
            if q - 1 == i {
                assert(addr_lt(s[p], a));
            } else {
                assert(addr_lt(s[p], s[q - 1]));
            }
        } else {
            if p > i {
                assert(t[p] == s[p - 1] && t[q] == s[q - 1]);
                assert(addr_lt(s[p - 1], s[q - 1]));
            } else {
                assert(p < i && q < i);
                assert(t[p] == s[p] && t[q] == s[q]);
                assert(addr_lt(s[p], s[q]));
            }
        }
    }
    assert forall|x: Address| #[trigger] t.contains(x) implies (s.contains(x) || x == a) by {
        let k = choose|k: int| 0 <= k < t.len() && t[k] == x;
        if k < i {
            assert(s[k] == x);
            assert(s.contains(x));
        } else if k == i {
            assert(x == a);
        } else {
            assert(s[k - 1] == x);
            assert(s.contains(x));
        }
    }
    assert forall|x: Address| #[trigger] s.contains(x) implies t.contains(x) by {
        let k = choose|k: int| 0 <= k < s.len() && s[k] == x;
        if k < i {
            assert(t[k] == x);
        } else {
            assert(t[k + 1] == x);
        }
        assert(t.contains(x));
    }
    assert(t[i] == a);
    assert(t.contains(a));
}

/// Inserts an address into a sorted vector, keeping order and uniqueness.
pub fn insert_address(v: &mut Vec<Address>, a: Address)
    requires
        sorted_addrs(old(v)@),
    ensures
        sorted_addrs(final(v)@),
        forall|x: Address| final(v)@.contains(x) <==> (old(v)@.contains(x) || x == a),
        old(v)@.contains(a) ==> final(v)@ == old(v)@,
        !old(v)@.contains(a) ==> final(v)@.len() == old(v)@.len() + 1,
{
    let mut i: usize = 0;
    while i < v.len() && addr_less(v[i], a)
        invariant
            i <= v@.len(),
            v@ == old(v)@,
            forall|j: int| 0 <= j < i ==> addr_lt(#[trigger] v@[j], a),
        decreases v@.len() - i,
    {
        i = i + 1;
    }
    if i < v.len() && v[i] == a {
        proof {
            assert(v@.contains(a));
        }
        return ;
    }
    proof {
        if i < v@.len() {
            assert(addr_lt(a, v@[i as int]));
        }
        if v@.contains(a) {
            let j = choose|j: int| 0 <= j < v@.len() && v@[j] == a;
            if j < i {
                assert(addr_lt(v@[j], a));
            } else {
                if i < j {
                    assert(addr_lt(v@[i as int], v@[j]));
                }
            }
            assert(false);
        }
    }
    v.insert(i, a);
    proof {
        let s = old(v)@;
        assert(v@ =~= s.insert(i as int, a));
        lemma_sorted_insert(s, i as int, a);
    }
}

} // verus!
