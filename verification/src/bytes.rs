//! Big-endian byte strings: the spec-level reading of byte sequences as
//! unsigned integers, fixed-width and minimal encodings, and the executable
//! helpers the codec is built on.

use vstd::prelude::*;

verus! {

/// 256 raised to `k`: the number of byte strings of length `k`.
pub open spec fn pow256(k: nat) -> nat
    decreases k,
{
    if k == 0 {
        1
    } else {
        256 * pow256((k - 1) as nat)
    }
}

/// The `k`-byte big-endian encoding of `n % 256^k`.
pub open spec fn be_fixed(n: nat, k: nat) -> Seq<u8>
    decreases k,
{
    if k == 0 {
        Seq::empty()
    } else {
        be_fixed(n / 256, (k - 1) as nat).push((n % 256) as u8)
    }
}

/// The unsigned integer a big-endian byte string stands for.
pub open spec fn be_val(s: Seq<u8>) -> nat
    decreases s.len(),
{
    if s.len() == 0 {
        0
    } else {
        (be_val(s.drop_last()) * 256 + s.last()) as nat
    }
}

/// The same byte string without its leading zero bytes.
pub open spec fn strip_zeros(s: Seq<u8>) -> Seq<u8>
    decreases s.len(),
{
    if s.len() > 0 && s[0] == 0 {
        strip_zeros(s.subrange(1, s.len() as int))
    } else {
        s
    }
}

pub proof fn lemma_pow256_pos(k: nat)
    ensures
        pow256(k) >= 1,
    decreases k,
{
    if k > 0 {
        lemma_pow256_pos((k - 1) as nat);
    }
}

pub proof fn lemma_pow256_mono(j: nat, k: nat)
    requires
        j <= k,
    ensures
        pow256(j) <= pow256(k),
    decreases k,
{
    if j < k {
        lemma_pow256_mono(j, (k - 1) as nat);
        lemma_pow256_pos((k - 1) as nat);
    }
}

pub proof fn lemma_be_fixed_len(n: nat, k: nat)
    ensures
        be_fixed(n, k).len() == k,
    decreases k,
{
    if k > 0 {
        lemma_be_fixed_len(n / 256, (k - 1) as nat);
    }
}

pub proof fn lemma_be_val_push(s: Seq<u8>, b: u8)
    ensures
        be_val(s.push(b)) == be_val(s) * 256 + b,
{
    assert(s.push(b).drop_last() =~= s);
    assert(s.push(b).last() == b);
}

pub proof fn lemma_be_val_fixed(n: nat, k: nat)
    requires
        n < pow256(k),
    ensures
        be_val(be_fixed(n, k)) == n,
    decreases k,
{
    if k == 0 {
        assert(n == 0);
    } else {
        let q = n / 256;
        assert(n == 256 * q + n % 256);
        if q >= pow256((k - 1) as nat) {
            assert(256 * q >= 256 * pow256((k - 1) as nat)) by (nonlinear_arith)
                requires
                    q >= pow256((k - 1) as nat),
            ;
            assert(false);
        }
        lemma_be_val_fixed(q, (k - 1) as nat);
        lemma_be_val_push(be_fixed(q, (k - 1) as nat), (n % 256) as u8);
    }
}

pub proof fn lemma_be_val_bound(s: Seq<u8>)
    ensures
        be_val(s) < pow256(s.len()),
    decreases s.len(),
{
    if s.len() > 0 {
        lemma_be_val_bound(s.drop_last());
    }
}

/// Two byte strings of one length with one value are the same string.
pub proof fn lemma_be_val_injective(s1: Seq<u8>, s2: Seq<u8>)
    requires
        s1.len() == s2.len(),
        be_val(s1) == be_val(s2),
    ensures
        s1 == s2,
    decreases s1.len(),
{
    if s1.len() == 0 {
        assert(s1 =~= s2);
    } else {
        let d1 = s1.drop_last();
        let d2 = s2.drop_last();
        vstd::arithmetic::div_mod::lemma_fundamental_div_mod_converse(
            be_val(s1) as int,
            256,
            be_val(d1) as int,
            s1.last() as int,
        );
        vstd::arithmetic::div_mod::lemma_fundamental_div_mod_converse(
            be_val(s2) as int,
            256,
            be_val(d2) as int,
            s2.last() as int,
        );
        lemma_be_val_injective(d1, d2);
        assert(s1 =~= d1.push(s1.last()));
        assert(s2 =~= d2.push(s2.last()));
    }
}

pub proof fn lemma_be_val_concat(a: Seq<u8>, b: Seq<u8>)
    ensures
        be_val(a + b) == be_val(a) * pow256(b.len()) + be_val(b),
    decreases b.len(),
{
    if b.len() == 0 {
        assert(a + b =~= a);
        assert(pow256(b.len()) == 1);
        assert(be_val(b) == 0);
        assert(be_val(a) * 1 == be_val(a)) by (nonlinear_arith);
    } else {
        let db = b.drop_last();
        lemma_be_val_concat(a, db);
        assert((a + b).drop_last() =~= a + db);
        assert((a + b).last() == b.last());
        assert(be_val(a + b) == (be_val(a) * pow256(db.len()) + be_val(db)) * 256 + b.last());
        assert(pow256(b.len()) == 256 * pow256(db.len()));
        assert(be_val(a) * pow256(db.len()) * 256 == be_val(a) * pow256(b.len()))
            by (nonlinear_arith)
            requires
                pow256(b.len()) == 256 * pow256(db.len()),
        ;
        assert((be_val(a) * pow256(db.len()) + be_val(db)) * 256 == be_val(a) * pow256(
            db.len(),
        ) * 256 + be_val(db) * 256) by (nonlinear_arith);
        assert(be_val(b) == be_val(db) * 256 + b.last());
    }
}

/// Stripping leading zeros keeps the value.
pub proof fn lemma_strip_zeros_val(s: Seq<u8>)
    ensures
        be_val(strip_zeros(s)) == be_val(s),
        strip_zeros(s).len() <= s.len(),
        strip_zeros(s).len() > 0 ==> strip_zeros(s)[0] != 0,
    decreases s.len(),
{
    if s.len() > 0 && s[0] == 0 {
        let t = s.subrange(1, s.len() as int);
        lemma_strip_zeros_val(t);
        assert(s =~= seq![0u8] + t);
        lemma_be_val_concat(seq![0u8], t);
        assert(be_val(seq![0u8]) == 0) by {
            assert(seq![0u8].drop_last() =~= Seq::<u8>::empty());
            assert(be_val(Seq::<u8>::empty()) == 0);
            assert(seq![0u8].last() == 0);
        }
    }
}

/// Stripping a string that starts with `i` zero bytes drops exactly those.
pub proof fn lemma_strip_zeros_at(s: Seq<u8>, i: int)
    requires
        0 <= i <= s.len(),
        forall|j: int| 0 <= j < i ==> s[j] == 0,
        i < s.len() ==> s[i] != 0,
    ensures
        strip_zeros(s) == s.subrange(i, s.len() as int),
    decreases i,
{
    if i == 0 {
        if s.len() == 0 {
            assert(strip_zeros(s) =~= s.subrange(0, s.len() as int));
        } else {
            assert(strip_zeros(s) =~= s.subrange(0, s.len() as int));
        }
    } else {
        let t = s.subrange(1, s.len() as int);
        lemma_strip_zeros_at(t, i - 1);
        assert(t.subrange(i - 1, t.len() as int) =~= s.subrange(i, s.len() as int));
    }
}

/// Builds the `k`-byte big-endian form of `x`, the low bytes of `x` if `k`
/// is smaller than `x` needs.
pub fn be_bytes_fixed(x: u128, k: usize) -> (r: Vec<u8>)
    requires
        k <= 16,
    ensures
        r@ == be_fixed(x as nat, k as nat),
        r@.len() == k,
{
    let mut res: Vec<u8> = Vec::new();
    let mut cur: u128 = x;
    let mut j: usize = 0;
    while j < k
        invariant
            j <= k,
            k <= 16,
            be_fixed(x as nat, k as nat) == be_fixed(cur as nat, (k - j) as nat) + res@,
        decreases k - j,
    {
        let b: u8 = (cur % 256) as u8;
        proof {
            let rem = (k - j) as nat;
            assert(be_fixed(cur as nat, rem) == be_fixed(
                (cur as nat) / 256,
                (rem - 1) as nat,
            ).push(((cur as nat) % 256) as u8));
            assert(be_fixed((cur as nat) / 256, (rem - 1) as nat).push(b) + res@ =~= be_fixed(
                (cur as nat) / 256,
                (rem - 1) as nat,
            ) + (seq![b] + res@));
        }
        res.insert(0, b);
        cur = cur / 256;
        j = j + 1;
    }
    proof {
        assert(be_fixed(cur as nat, 0) + res@ =~= res@);
        lemma_be_fixed_len(x as nat, k as nat);
    }
    res
}

/// Copies `v` without its leading zero bytes.
pub fn strip_leading_zeros(v: &Vec<u8>) -> (r: Vec<u8>)
    ensures
        r@ == strip_zeros(v@),
{
    let mut i: usize = 0;
    while i < v.len() && v[i] == 0
        invariant
            i <= v@.len(),
            forall|j: int| 0 <= j < i ==> v@[j] == 0,
        decreases v@.len() - i,
    {
        i = i + 1;
    }
    let mut res: Vec<u8> = Vec::new();
    let mut j: usize = i;
    while j < v.len()
        invariant
            i <= j <= v@.len(),
            res@ =~= v@.subrange(i as int, j as int),
        decreases v@.len() - j,
    {
        let b: u8 = v[j];
        res.push(b);
        proof {
            assert(res@ =~= v@.subrange(i as int, j + 1));
        }
        j = j + 1;
    }
    proof {
        lemma_strip_zeros_at(v@, i as int);
        assert(res@ =~= v@.subrange(i as int, v@.len() as int));
    }
    res
}

/// A string of zero bytes stands for zero.
pub proof fn lemma_be_val_zeros(s: Seq<u8>)
    requires
        forall|j: int| 0 <= j < s.len() ==> s[j] == 0,
    ensures
        be_val(s) == 0,
    decreases s.len(),
{
    if s.len() > 0 {
        lemma_be_val_zeros(s.drop_last());
    }
}

/// Powers add as exponents multiply.
pub proof fn lemma_pow256_add(j: nat, k: nat)
    ensures
        pow256(j + k) == pow256(j) * pow256(k),
    decreases j,
{
    if j == 0 {
        assert(pow256(k) == 1 * pow256(k)) by (nonlinear_arith);
    } else {
        lemma_pow256_add((j - 1) as nat, k);
        assert((j + k - 1) as nat == ((j - 1) + k) as nat);
        assert(256 * (pow256((j - 1) as nat) * pow256(k)) == (256 * pow256((j - 1) as nat))
            * pow256(k)) by (nonlinear_arith);
    }
}

/// The numeric values of the powers the codec works with.
pub proof fn lemma_pow256_vals()
    ensures
        pow256(7) == 0x100000000000000,
        pow256(8) == 0x10000000000000000,
        pow256(15) == 0x1000000000000000000000000000000,
        pow256(16) == (u128::MAX as nat) + 1,
        pow256(32) == ((u128::MAX as nat) + 1) * ((u128::MAX as nat) + 1),
{
    reveal_with_fuel(pow256, 17);
    lemma_pow256_add(16, 16);
}

/// Appends all of `b` to `out`.
pub fn push_bytes(out: &mut Vec<u8>, b: &Vec<u8>)
    ensures
        final(out)@ == old(out)@ + b@,
{
    let mut i: usize = 0;
    while i < b.len()
        invariant
            i <= b@.len(),
            out@ =~= old(out)@ + b@.subrange(0, i as int),
        decreases b@.len() - i,
    {
        let x: u8 = b[i];
        out.push(x);
        proof {
            assert(old(out)@ + b@.subrange(0, i as int) + seq![x] =~= old(out)@ + b@.subrange(
                0,
                i + 1,
            ));
        }
        i = i + 1;
    }
    proof {
        assert(old(out)@ + b@.subrange(0, b@.len() as int) =~= old(out)@ + b@);
    }
}

/// Copies `b[from..to]` out.
pub fn sub_vec(b: &Vec<u8>, from: usize, to: usize) -> (r: Vec<u8>)
    requires
        from <= to,
        to <= b@.len(),
    ensures
        r@ == b@.subrange(from as int, to as int),
{
    let mut res: Vec<u8> = Vec::new();
    let mut j: usize = from;
    while j < to
        invariant
            from <= j <= to,
            to <= b@.len(),
            res@ =~= b@.subrange(from as int, j as int),
        decreases to - j,
    {
        let x: u8 = b[j];
        res.push(x);
        proof {
            assert(res@ =~= b@.subrange(from as int, j + 1));
        }
        j = j + 1;
    }
    res
}

/// Byte-string equality, as equality of the views.
pub fn bytes_eq(a: &Vec<u8>, b: &Vec<u8>) -> (r: bool)
    ensures
        r == (a@ == b@),
{
    if a.len() != b.len() {
        assert(a@ != b@);
        return false;
    }
    let mut i: usize = 0;
    while i < a.len()
        invariant
            i <= a@.len(),
            a@.len() == b@.len(),
            forall|j: int| 0 <= j < i ==> a@[j] == b@[j],
        decreases a@.len() - i,
    {
        if a[i] != b[i] {
            return false;
        }
        i = i + 1;
    }
    proof {
        assert(a@ =~= b@);
    }
    true
}

} // verus!
