//! The canonical byte encoding of an account: a list header, then the four
//! fields in fixed order — nonce and balance as minimal big-endian integer
//! fields, the two digests as 32-byte string fields. Decoding accepts the
//! canonical form alone, so `decode(encode(a)) == a` and the trie can rebuild
//! every stored value byte-exactly.

use vstd::prelude::*;
use crate::account::{AccountState, AccountV};
use crate::balance::{u128_limit, u256_limit, U256};
use crate::bytes::{
    be_bytes_fixed, be_fixed, be_val, bytes_eq, lemma_be_fixed_len, lemma_be_val_bound,
    lemma_be_val_concat, lemma_be_val_fixed, lemma_be_val_injective, lemma_be_val_zeros,
    lemma_pow256_mono, lemma_pow256_vals, pow256, push_bytes, strip_leading_zeros, strip_zeros,
    sub_vec,
};
use crate::errors::StateError;

verus! {

/// An account whose fields a canonical encoding can carry.
pub open spec fn account_v_wf(a: AccountV) -> bool {
    &&& a.nonce < pow256(8)
    &&& a.balance < pow256(32)
    &&& a.storage_hash.len() == 32
    &&& a.code_hash.len() == 32
}

/// The canonical integer field for minimal bytes `m`: the empty-string
/// header for zero, the byte itself below 0x80, a length header plus the
/// bytes otherwise.
pub open spec fn enc_int(m: Seq<u8>) -> Seq<u8> {
    if m.len() == 0 {
        seq![0x80u8]
    } else if m.len() == 1 && m[0] < 0x80 {
        m
    } else {
        seq![(0x80 + m.len()) as u8] + m
    }
}

/// The four encoded fields in fixed order.
pub open spec fn account_payload(a: AccountV) -> Seq<u8> {
    enc_int(strip_zeros(be_fixed(a.nonce, 8))) + enc_int(strip_zeros(be_fixed(a.balance, 32)))
        + seq![0xa0u8] + a.storage_hash + seq![0xa0u8] + a.code_hash
}

/// The canonical encoded account: a long-form list header with one length
/// byte, then the payload.
pub open spec fn spec_encode(a: AccountV) -> Seq<u8> {
    seq![0xf8u8, account_payload(a).len() as u8] + account_payload(a)
}

/// Parses a canonical integer field of at most `max_len` bytes at `i`:
/// its minimal bytes and the position after it, or nothing.
pub open spec fn parse_int(b: Seq<u8>, i: int, max_len: int) -> Option<(Seq<u8>, int)> {
    if !(0 <= i < b.len()) {
        None
    } else {
        let h = b[i];
        if h < 0x80 {
            if h == 0 {
                None
            } else {
                Some((seq![h], i + 1))
            }
        } else if h == 0x80 {
            Some((Seq::empty(), i + 1))
        } else if h <= 0xb7 {
            let l = h - 0x80;
            if i + 1 + l <= b.len() && l <= max_len && b[i + 1] != 0 && !(l == 1 && b[i + 1]
                < 0x80) {
                Some((b.subrange(i + 1, i + 1 + l), i + 1 + l))
            } else {
                None
            }
        } else {
            None
        }
    }
}

/// Parses a 32-byte digest field at `i`.
pub open spec fn parse_hash(b: Seq<u8>, i: int) -> Option<(Seq<u8>, int)> {
    if 0 <= i && i + 33 <= b.len() && b[i] == 0xa0 {
        Some((b.subrange(i + 1, i + 33), i + 33))
    } else {
        None
    }
}

/// What decoding yields: the account whose canonical encoding the input is,
/// or nothing for every other byte string.
pub open spec fn spec_decode(b: Seq<u8>) -> Option<AccountV> {
    if b.len() < 2 || b[0] != 0xf8 || (b[1] as int) < 56 || b.len() != 2 + b[1] {
        None
    } else {
        match parse_int(b, 2, 8) {
            None => None,
            Some((nb, i1)) => match parse_int(b, i1, 32) {
                None => None,
                Some((bb, i2)) => match parse_hash(b, i2) {
                    None => None,
                    Some((sh, i3)) => match parse_hash(b, i3) {
                        None => None,
                        Some((ch, i4)) => if i4 == b.len() {
                            Some(
                                AccountV {
                                    nonce: be_val(nb),
                                    balance: be_val(bb),
                                    storage_hash: sh,
                                    code_hash: ch,
                                },
                            )
                        } else {
                            None
                        },
                    },
                },
            },
        }
    }
}

/// Appends the canonical integer field for minimal bytes `m`.
fn push_int_field(out: &mut Vec<u8>, m: &Vec<u8>)
    requires
        m@.len() <= 32,
    ensures
        final(out)@ == old(out)@ + enc_int(m@),
{
    if m.len() == 0 {
        out.push(0x80);
        proof {
            assert(out@ =~= old(out)@ + seq![0x80u8]);
        }
    } else if m.len() == 1 && m[0] < 0x80 {
        let x: u8 = m[0];
        out.push(x);
        proof {
            assert(m@ =~= seq![x]);
            assert(out@ =~= old(out)@ + m@);
        }
    } else {
        let h: u8 = 0x80 + (m.len() as u8);
        out.push(h);
        push_bytes(out, m);
        proof {
            assert(enc_int(m@) =~= seq![h] + m@);
            assert(old(out)@ + seq![h] + m@ =~= old(out)@ + (seq![h] + m@));
        }
    }
}

/// The 32-byte big-endian form of a balance.
fn balance_be32(v: &U256) -> (r: Vec<u8>)
    ensures
        r@ == be_fixed(v.val(), 32),
{
    let mut r = be_bytes_fixed(v.hi, 16);
    let lo16 = be_bytes_fixed(v.lo, 16);
    push_bytes(&mut r, &lo16);
    proof {
        lemma_pow256_vals();
        lemma_be_val_concat(be_fixed(v.hi as nat, 16), be_fixed(v.lo as nat, 16));
        lemma_be_val_fixed(v.hi as nat, 16);
        lemma_be_val_fixed(v.lo as nat, 16);
        assert(be_val(r@) == v.hi * pow256(16) + v.lo);
        crate::balance::lemma_u256_val_bound(*v);
        lemma_be_val_fixed(v.val(), 32);
        lemma_be_fixed_len(v.val(), 32);
        lemma_be_val_injective(r@, be_fixed(v.val(), 32));
    }
    r
}

impl AccountState {
    /// The canonical byte encoding of this account.
    pub fn encode(&self) -> (r: Vec<u8>)
        requires
            self.wf(),
        ensures
            r@ == spec_encode(self@),
    {
        proof {
            lemma_pow256_vals();
            crate::bytes::lemma_strip_zeros_val(be_fixed(self@.nonce, 8));
            crate::bytes::lemma_strip_zeros_val(be_fixed(self@.balance, 32));
            lemma_be_fixed_len(self@.nonce, 8);
            lemma_be_fixed_len(self@.balance, 32);
        }
        let nonce_full = be_bytes_fixed(self.nonce as u128, 8);
        let nonce_min = strip_leading_zeros(&nonce_full);
        let bal_full = balance_be32(&self.balance);
        let bal_min = strip_leading_zeros(&bal_full);
        let mut payload: Vec<u8> = Vec::new();
        push_int_field(&mut payload, &nonce_min);
        push_int_field(&mut payload, &bal_min);
        payload.push(0xa0);
        push_bytes(&mut payload, &self.storage_hash);
        payload.push(0xa0);
        push_bytes(&mut payload, &self.code_hash);
        proof {
            assert(payload@ =~= account_payload(self@));
            assert(payload@.len() <= 108);
        }
        let mut out: Vec<u8> = Vec::new();
        out.push(0xf8);
        let len_byte: u8 = payload.len() as u8;
        out.push(len_byte);
        push_bytes(&mut out, &payload);
        proof {
            assert(out@ =~= spec_encode(self@));
        }
        out
    }

    /// Decodes a canonical account encoding; every other input is malformed.
    pub fn decode(b: &Vec<u8>) -> (r: Result<AccountState, StateError>)
        ensures
            spec_decode(b@) matches Some(v) ==> (r matches Ok(a) && a@ == v && a.wf()),
            spec_decode(b@) is None ==> (r matches Err(e) && e == StateError::MalformedAccount),
    {
        if b.len() < 2 {
            return Err(StateError::MalformedAccount);
        }
        if b[0] != 0xf8 {
            return Err(StateError::MalformedAccount);
        }
        let pl: usize = b[1] as usize;
        if pl < 56 || b.len() != 2 + pl {
            return Err(StateError::MalformedAccount);
        }
        let (nonce_min, i1) = match parse_int_field(b, 2, 8) {
            None => {
                return Err(StateError::MalformedAccount);
            },
            Some(x) => x,
        };
        let (bal_min, i2) = match parse_int_field(b, i1, 32) {
            None => {
                return Err(StateError::MalformedAccount);
            },
            Some(x) => x,
        };
        let (storage_hash, i3) = match parse_hash_field(b, i2) {
            None => {
                return Err(StateError::MalformedAccount);
            },
            Some(x) => x,
        };
        let (code_hash, i4) = match parse_hash_field(b, i3) {
            None => {
                return Err(StateError::MalformedAccount);
            },
            Some(x) => x,
        };
        if i4 != b.len() {
            return Err(StateError::MalformedAccount);
        }
        let nonce = fold_u64(&nonce_min);
        let balance = fold_balance(&bal_min);
        Ok(AccountState { nonce, balance, storage_hash, code_hash })
    }
}

/// The executable form of `parse_int`.
fn parse_int_field(b: &Vec<u8>, i: usize, max_len: usize) -> (r: Option<(Vec<u8>, usize)>)
    requires
        i <= b@.len(),
        1 <= max_len <= 55,
    ensures
        parse_int(b@, i as int, max_len as int) matches Some((m, j)) ==> (r matches Some(x)
            && x.0@ == m && x.1 == j && m.len() <= max_len && j <= b@.len()),
        parse_int(b@, i as int, max_len as int) is None ==> r is None,
{
    if i >= b.len() {
        return None;
    }
    let h: u8 = b[i];
    if h < 0x80 {
        if h == 0 {
            return None;
        }
        let m: Vec<u8> = vec![h];
        proof {
            assert(m@ =~= seq![h]);
        }
        return Some((m, i + 1));
    }
    if h == 0x80 {
        let m: Vec<u8> = Vec::new();
        proof {
            assert(m@ =~= Seq::<u8>::empty());
        }
        return Some((m, i + 1));
    }
    if h > 0xb7 {
        return None;
    }
    let l: usize = (h - 0x80) as usize;
    let rem: usize = b.len() - i - 1;
    if l > rem || l > max_len || b[i + 1] == 0 || (l == 1 && b[i + 1] < 0x80) {
        return None;
    }
    let m = sub_vec(b, i + 1, i + 1 + l);
    Some((m, i + 1 + l))
}

/// The executable form of `parse_hash`.
fn parse_hash_field(b: &Vec<u8>, i: usize) -> (r: Option<(Vec<u8>, usize)>)
    requires
        i <= b@.len(),
    ensures
        parse_hash(b@, i as int) matches Some((h, j)) ==> (r matches Some(x) && x.0@ == h
            && x.1 == j && h.len() == 32 && j <= b@.len()),
        parse_hash(b@, i as int) is None ==> r is None,
{
    if i >= b.len() {
        return None;
    }
    if b[i] != 0xa0 {
        return None;
    }
    let rem: usize = b.len() - i - 1;
    if rem < 32 {
        return None;
    }
    let h = sub_vec(b, i + 1, i + 33);
    Some((h, i + 33))
}

/// Reads at most eight big-endian bytes as a 64-bit integer.
fn fold_u64(m: &Vec<u8>) -> (r: u64)
    requires
        m@.len() <= 8,
    ensures
        r as nat == be_val(m@),
{
    proof {
        lemma_pow256_vals();
    }
    let mut acc: u64 = 0;
    let mut i: usize = 0;
    while i < m.len()
        invariant
            i <= m@.len() <= 8,
            acc as nat == be_val(m@.subrange(0, i as int)),
            pow256(7) == 0x100000000000000,
            pow256(8) == 0x10000000000000000,
        decreases m@.len() - i,
    {
        proof {
            let pre = m@.subrange(0, i as int);
            let nxt = m@.subrange(0, i + 1);
            assert(nxt.drop_last() =~= pre);
            assert(nxt.last() == m@[i as int]);
            lemma_be_val_bound(pre);
            lemma_pow256_mono(pre.len(), 7);
        }
        acc = acc * 256 + (m[i] as u64);
        i = i + 1;
    }
    proof {
        assert(m@.subrange(0, m@.len() as int) =~= m@);
    }
    acc
}

/// Reads at most sixteen big-endian bytes as a 128-bit integer.
fn fold_u128(m: &Vec<u8>) -> (r: u128)
    requires
        m@.len() <= 16,
    ensures
        r as nat == be_val(m@),
{
    proof {
        lemma_pow256_vals();
    }
    let mut acc: u128 = 0;
    let mut i: usize = 0;
    while i < m.len()
        invariant
            i <= m@.len() <= 16,
            acc as nat == be_val(m@.subrange(0, i as int)),
            pow256(15) == 0x1000000000000000000000000000000,
            pow256(16) == (u128::MAX as nat) + 1,
        decreases m@.len() - i,
    {
        proof {
            let pre = m@.subrange(0, i as int);
            let nxt = m@.subrange(0, i + 1);
            assert(nxt.drop_last() =~= pre);
            assert(nxt.last() == m@[i as int]);
            lemma_be_val_bound(pre);
            lemma_pow256_mono(pre.len(), 15);
        }
        acc = acc * 256 + (m[i] as u128);
        i = i + 1;
    }
    proof {
        assert(m@.subrange(0, m@.len() as int) =~= m@);
    }
    acc
}

/// Reads at most 32 big-endian bytes as a balance.
fn fold_balance(m: &Vec<u8>) -> (r: U256)
    requires
        m@.len() <= 32,
    ensures
        r.val() == be_val(m@),
{
    let pad: usize = 32 - m.len();
    let mut padded: Vec<u8> = Vec::new();
    let mut j: usize = 0;
    while j < pad
        invariant
            j <= pad,
            padded@.len() == j,
            forall|k: int| 0 <= k < j ==> padded@[k] == 0,
        decreases pad - j,
    {
        padded.push(0);
        j = j + 1;
    }
    let ghost zeros = padded@;
    push_bytes(&mut padded, m);
    let head = sub_vec(&padded, 0, 16);
    let tail = sub_vec(&padded, 16, 32);
    let hi = fold_u128(&head);
    let lo = fold_u128(&tail);
    proof {
        lemma_pow256_vals();
        lemma_be_val_zeros(zeros);
        lemma_be_val_concat(zeros, m@);
        assert(be_val(padded@) == be_val(m@));
        assert(head@ + tail@ =~= padded@);
        lemma_be_val_concat(head@, tail@);
    }
    U256::new(hi, lo)
}

/// Decoding an encoding yields the account back: the round trip holds for
/// every well-formed account value.
pub proof fn lemma_decode_encode(a: AccountV)
    requires
        account_v_wf(a),
    ensures
        spec_decode(spec_encode(a)) == Some(a),
{
    lemma_pow256_vals();
    let nm = strip_zeros(be_fixed(a.nonce, 8));
    let bm = strip_zeros(be_fixed(a.balance, 32));
    crate::bytes::lemma_strip_zeros_val(be_fixed(a.nonce, 8));
    crate::bytes::lemma_strip_zeros_val(be_fixed(a.balance, 32));
    lemma_be_fixed_len(a.nonce, 8);
    lemma_be_fixed_len(a.balance, 32);
    lemma_be_val_fixed(a.nonce, 8);
    lemma_be_val_fixed(a.balance, 32);
    let ne = enc_int(nm);
    let be_ = enc_int(bm);
    let p = account_payload(a);
    let b = spec_encode(a);
    assert(p =~= ne + be_ + seq![0xa0u8] + a.storage_hash + seq![0xa0u8] + a.code_hash);
    assert(b.len() == 2 + p.len());
    assert(p.len() >= 68 && p.len() <= 108);
    assert(b[0] == 0xf8);
    assert(b[1] == p.len() as u8);
    assert((b[1] as int) == p.len());
    let i1 = 2 + ne.len() as int;
    let i2 = i1 + be_.len() as int;
    let i3 = i2 + 33;
    let i4 = i3 + 33;
    assert(b.subrange(2, i1) =~= ne);
    assert(b.subrange(i1, i2) =~= be_);
    lemma_parse_int_at(b, 2, nm, 8);
    lemma_parse_int_at(b, i1, bm, 32);
    assert(parse_int(b, 2, 8) == Some((nm, i1)));
    assert(parse_int(b, i1, 32) == Some((bm, i2)));
    assert(b[i2] == 0xa0);
    assert(b.subrange(i2 + 1, i2 + 33) =~= a.storage_hash);
    assert(parse_hash(b, i2) == Some((a.storage_hash, i3)));
    assert(b[i3] == 0xa0);
    assert(b.subrange(i3 + 1, i3 + 33) =~= a.code_hash);
    assert(parse_hash(b, i3) == Some((a.code_hash, i4)));
    assert(i4 == b.len());
    assert(be_val(nm) == a.nonce);
    assert(be_val(bm) == a.balance);
}

/// A canonical integer field standing at `i` in `b` parses to its minimal
/// bytes and the position after the field.
proof fn lemma_parse_int_at(b: Seq<u8>, i: int, m: Seq<u8>, max_len: int)
    requires
        0 <= i,
        i + enc_int(m).len() <= b.len(),
        b.subrange(i, i + enc_int(m).len() as int) == enc_int(m),
        m.len() <= max_len,
        max_len <= 55,
        m.len() > 0 ==> m[0] != 0,
    ensures
        parse_int(b, i, max_len) == Some((m, i + enc_int(m).len())),
{
    let e = enc_int(m);
    if m.len() == 0 {
        assert(b[i] == e[0]);
        assert(b[i] == 0x80);
        assert(parse_int(b, i, max_len) == Some((Seq::<u8>::empty(), i + 1)));
        assert(m =~= Seq::<u8>::empty());
    } else if m.len() == 1 && m[0] < 0x80 {
        assert(b[i] == e[0]);
        assert(b[i] == m[0]);
        assert(b[i] != 0 && b[i] < 0x80);
        assert(seq![b[i]] =~= m);
    } else {
        let l = m.len() as int;
        assert(e.len() == 1 + l);
        assert(b[i] == e[0]);
        assert(e[0] == 0x80 + l);
        assert(b[i] > 0x80 && b[i] <= 0xb7);
        assert(b[i + 1] == e[1]);
        assert(e[1] == m[0]);
        assert(b[i + 1] != 0);
        if l == 1 {
            assert(m[0] >= 0x80);
            assert(b[i + 1] >= 0x80);
        }
        assert(b.subrange(i + 1, i + 1 + l) =~= m) by {
            assert(forall|k: int|
                0 <= k < l ==> b.subrange(i, i + enc_int(m).len() as int)[k + 1] == m[k]);
        }
    }
}


/// A successful `parse_int` read exactly one canonical integer field.
proof fn lemma_parse_int_inv(b: Seq<u8>, i: int, max_len: int)
    requires
        parse_int(b, i, max_len) is Some,
        1 <= max_len <= 55,
    ensures
        ({
            let (m, j) = parse_int(b, i, max_len)->Some_0;
            &&& j == i + enc_int(m).len()
            &&& 0 <= i < j <= b.len()
            &&& b.subrange(i, j) == enc_int(m)
            &&& m.len() <= max_len
            &&& m.len() > 0 ==> m[0] != 0
        }),
{
    let (m, j) = parse_int(b, i, max_len)->Some_0;
    let h = b[i];
    if h < 0x80 {
        assert(m =~= seq![h]);
        assert(enc_int(m) =~= seq![h]);
        assert(b.subrange(i, i + 1) =~= seq![h]);
    } else if h == 0x80 {
        assert(m =~= Seq::<u8>::empty());
        assert(enc_int(m) =~= seq![0x80u8]);
        assert(b.subrange(i, i + 1) =~= seq![h]);
    } else {
        let l = h - 0x80;
        assert(m == b.subrange(i + 1, i + 1 + l));
        assert(m.len() == l);
        if m.len() == 1 && m[0] < 0x80 {
            assert(b[i + 1] < 0x80);
            assert(false);
        }
        assert(enc_int(m) =~= seq![h] + m);
        assert(b.subrange(i, i + 1 + l) =~= seq![h] + m);
    }
}

/// Minimal bytes are recovered from their value: stripping the fixed-width
/// form of `be_val(s)` gives `s` back.
proof fn lemma_min_be_of_val(s: Seq<u8>, k: nat)
    requires
        s.len() <= k,
        s.len() > 0 ==> s[0] != 0,
    ensures
        strip_zeros(be_fixed(be_val(s), k)) == s,
{
    let pad = Seq::new((k - s.len()) as nat, |i: int| 0u8);
    let p = pad + s;
    crate::bytes::lemma_be_val_zeros(pad);
    lemma_be_val_concat(pad, s);
    lemma_pow256_vals();
    lemma_be_val_bound(s);
    lemma_pow256_mono(s.len(), k);
    assert(be_val(p) == be_val(s));
    lemma_be_fixed_len(be_val(s), k);
    lemma_be_val_fixed(be_val(s), k);
    lemma_be_val_injective(be_fixed(be_val(s), k), p);
    crate::bytes::lemma_strip_zeros_at(p, (k - s.len()) as int);
    assert(p.subrange((k - s.len()) as int, p.len() as int) =~= s);
}

/// Decoding accepts the canonical form alone: whatever decodes was the
/// canonical encoding of the account that came out.
pub proof fn lemma_decode_canonical(b: Seq<u8>, v: AccountV)
    requires
        spec_decode(b) == Some(v),
    ensures
        b == spec_encode(v),
        account_v_wf(v),
{
    lemma_pow256_vals();
    let (nb, i1) = parse_int(b, 2, 8)->Some_0;
    let (bb, i2) = parse_int(b, i1, 32)->Some_0;
    let (sh, i3) = parse_hash(b, i2)->Some_0;
    let (ch, i4) = parse_hash(b, i3)->Some_0;
    lemma_parse_int_inv(b, 2, 8);
    lemma_parse_int_inv(b, i1, 32);
    assert(sh == b.subrange(i2 + 1, i2 + 33));
    assert(ch == b.subrange(i3 + 1, i3 + 33));
    assert(v.nonce == be_val(nb) && v.balance == be_val(bb));
    assert(v.storage_hash == sh && v.code_hash == ch);
    lemma_be_val_bound(nb);
    lemma_be_val_bound(bb);
    lemma_pow256_mono(nb.len(), 8);
    lemma_pow256_mono(bb.len(), 32);
    assert(account_v_wf(v));
    lemma_min_be_of_val(nb, 8);
    lemma_min_be_of_val(bb, 32);
    assert(strip_zeros(be_fixed(v.nonce, 8)) == nb);
    assert(strip_zeros(be_fixed(v.balance, 32)) == bb);
    let p = account_payload(v);
    assert(p == enc_int(nb) + enc_int(bb) + seq![0xa0u8] + sh + seq![0xa0u8] + ch);
    assert(b.subrange(2, i1) == enc_int(nb));
    assert(b.subrange(i1, i2) == enc_int(bb));
    assert(i4 == b.len());
    assert(b.len() == 2 + b[1]);
    assert(p.len() == b.len() - 2);
    assert(b[i2] == 0xa0 && b[i3] == 0xa0);
    assert(b =~= seq![0xf8u8, (p.len() as u8)] + p) by {
        assert(b[0] == 0xf8);
        assert(b[1] == p.len());
        assert forall|x: int| 2 <= x < b.len() implies b[x] == p[x - 2] by {
            if x < i1 {
                assert(b.subrange(2, i1)[x - 2] == b[x]);
            } else if x < i2 {
                assert(b.subrange(i1, i2)[x - i1] == b[x]);
            } else if x == i2 {
            } else if x < i3 {
                assert(sh[x - (i2 + 1)] == b[x]);
            } else if x == i3 {
            } else {
                assert(ch[x - (i3 + 1)] == b[x]);
            }
        }
    }
}

} // verus!
