//! The 256-bit unsigned balance of an account, held as two 128-bit halves.

use vstd::prelude::*;

verus! {

/// One more than the largest 128-bit value: 2^128.
pub open spec fn u128_limit() -> nat {
    (u128::MAX as nat) + 1
}

/// One more than the largest representable balance: 2^256.
pub open spec fn u256_limit() -> nat {
    u128_limit() * u128_limit()
}

/// An unsigned 256-bit integer: `hi * 2^128 + lo`.
#[derive(Clone, Copy, Debug, PartialEq, Eq, Structural)]
pub struct U256 {
    pub hi: u128,
    pub lo: u128,
}

impl U256 {
    /// The mathematical value this pair of halves stands for.
    pub open spec fn val(self) -> nat {
        (self.hi * u128_limit() + self.lo) as nat
    }

    pub fn zero() -> (r: U256)
        ensures
            r.val() == 0,
    {
        U256 { hi: 0, lo: 0 }
    }

    pub fn new(hi: u128, lo: u128) -> (r: U256)
        ensures
            r.hi == hi,
            r.lo == lo,
            r.val() == hi * u128_limit() + lo,
    {
        U256 { hi, lo }
    }

    /// The sum of two balances, or `None` where it passes 2^256.
    pub fn checked_add(self, other: U256) -> (r: Option<U256>)
        ensures
            self.val() + other.val() < u256_limit() ==> (r matches Some(s) && s.val()
                == self.val() + other.val()),
            self.val() + other.val() >= u256_limit() ==> r is None,
    {
        proof {
            assert(u256_limit() == u128_limit() * u128_limit()) by (nonlinear_arith);
            lemma_u256_val_parts(self);
            lemma_u256_val_parts(other);
        }
        let (lo_sum, carry): (u128, bool) = match self.lo.checked_add(other.lo) {
            Some(l) => (l, false),
            None => {
                let l: u128 = self.lo - (u128::MAX - other.lo) - 1;
                (l, true)
            },
        };
        let carry_amt: u128 = if carry {
            1
        } else {
            0
        };
        match self.hi.checked_add(other.hi) {
            None => {
                proof {
                    lemma_u256_add_hi_overflow(self, other);
                }
                None
            },
            Some(h1) => match h1.checked_add(carry_amt) {
                None => {
                    proof {
                        lemma_u256_add_hi_overflow(self, other);
                    }
                    None
                },
                Some(h) => {
                    let r = U256 { hi: h, lo: lo_sum };
                    proof {
                        assert((self.hi + other.hi + carry_amt) * u128_limit() == self.hi
                            * u128_limit() + other.hi * u128_limit() + carry_amt
                            * u128_limit()) by (nonlinear_arith);
                        assert(carry_amt * u128_limit() + lo_sum == self.lo + other.lo);
                        assert(r.val() == self.val() + other.val());
                        lemma_u256_val_parts(r);
                    }
                    Some(r)
                },
            },
        }
    }
}

/// Every balance value lies below 2^256.
pub proof fn lemma_u256_val_bound(x: U256)
    ensures
        x.val() < u256_limit(),
{
    lemma_u256_val_parts(x);
}

proof fn lemma_u256_val_parts(x: U256)
    ensures
        x.val() < u256_limit(),
        x.val() == x.hi * u128_limit() + x.lo,
{
    assert(x.hi * u128_limit() <= (u128_limit() - 1) * u128_limit()) by (nonlinear_arith)
        requires
            x.hi < u128_limit(),
    ;
    assert((u128_limit() - 1) * u128_limit() + u128_limit() == u128_limit() * u128_limit())
        by (nonlinear_arith);
    assert(u256_limit() == u128_limit() * u128_limit()) by (nonlinear_arith);
}

proof fn lemma_u256_add_hi_overflow(a: U256, b: U256)
    requires
        a.hi + b.hi >= u128_limit() - 1,
        !(a.hi + b.hi == u128_limit() - 1 && a.lo + b.lo < u128_limit()),
    ensures
        a.val() + b.val() >= u256_limit(),
{
    assert(u256_limit() == u128_limit() * u128_limit()) by (nonlinear_arith);
    if a.hi + b.hi >= u128_limit() {
        assert((a.hi + b.hi) * u128_limit() >= u128_limit() * u128_limit())
            by (nonlinear_arith)
            requires
                a.hi + b.hi >= u128_limit(),
        ;
        assert(a.val() + b.val() >= (a.hi + b.hi) * u128_limit()) by (nonlinear_arith);
    } else {
        assert(a.hi + b.hi == u128_limit() - 1);
        assert(a.lo + b.lo >= u128_limit());
        assert((a.hi + b.hi) * u128_limit() == u128_limit() * u128_limit() - u128_limit())
            by (nonlinear_arith)
            requires
                a.hi + b.hi == u128_limit() - 1,
        ;
        assert(a.val() + b.val() == (a.hi + b.hi) * u128_limit() + a.lo + b.lo)
            by (nonlinear_arith);
    }
}

} // verus!
