//! 256-bit unsigned integers for proof-of-work targets and chain work.

use vstd::prelude::*;
use vstd::bytes::*;

verus! {

/// 2^128.
pub open spec fn two128() -> nat {
    0x1_0000_0000_0000_0000_0000_0000_0000_0000nat
}

/// 2^256.
pub open spec fn two256() -> nat {
    two128() * two128()
}

/// An unsigned 256-bit integer, `hi * 2^128 + lo`.
///
/// Chain work and proof-of-work targets are both of this width.
#[derive(Debug, Clone, Copy, PartialEq, Eq, Structural)]
pub struct U256 {
    pub hi: u128,
    pub lo: u128,
}

/// Cumulative or per-block proof of work.
pub type Work = U256;

/// A proof-of-work target: a block hash, read as a little-endian number, must not exceed it.
pub type Target = U256;

impl U256 {
    /// The number this value stands for.
    pub open spec fn value(self) -> nat {
        self.hi as nat * two128() + self.lo as nat
    }

    /// The value with the given number, taken modulo 2^256.
    pub open spec fn spec_from_value(n: nat) -> U256 {
        U256 { hi: ((n / two128()) % two128()) as u128, lo: (n % two128()) as u128 }
    }

    /// Sum modulo 2^256.
    pub open spec fn spec_add(self, other: U256) -> U256 {
        U256::spec_from_value(self.value() + other.value())
    }

    pub fn zero() -> (r: U256)
        ensures
            r.value() == 0,
    {
        U256 { hi: 0, lo: 0 }
    }

    /// Strict numeric comparison.
    pub fn lt(&self, other: &U256) -> (r: bool)
        ensures
            r == (self.value() < other.value()),
    {
        proof { lemma_value_order(*self, *other); }
        self.hi < other.hi || (self.hi == other.hi && self.lo < other.lo)
    }

    /// Numeric comparison, at most.
    pub fn le(&self, other: &U256) -> (r: bool)
        ensures
            r == (self.value() <= other.value()),
    {
        proof { lemma_value_order(*self, *other); }
        self.hi < other.hi || (self.hi == other.hi && self.lo <= other.lo)
    }

    /// Sum modulo 2^256, as a release build of the `bitcoin` crate computes it.
    pub fn wrapping_add(&self, other: &U256) -> (r: U256)
        ensures
            r.value() == (self.value() + other.value()) % two256(),
            r == self.spec_add(*other),
    {
        let (lo, carry) = if self.lo <= u128::MAX - other.lo {
            (self.lo + other.lo, 0u128)
        } else {
            (self.lo - (u128::MAX - other.lo) - 1, 1u128)
        };
        let hi_sum = if self.hi <= u128::MAX - other.hi {
            self.hi + other.hi
        } else {
            self.hi - (u128::MAX - other.hi) - 1
        };
        let hi = if hi_sum <= u128::MAX - carry { hi_sum + carry } else { 0u128 };
        let r = U256 { hi, lo };
        proof {
            lemma_wrapping_add(*self, *other, r, carry);
            lemma_from_value(self.value() + other.value(), r);
        }
        r
    }

    /// Big-endian bytes: the high half first.
    pub open spec fn spec_to_be_bytes(self) -> Seq<u8> {
        spec_u128_to_le_bytes(self.hi).reverse() + spec_u128_to_le_bytes(self.lo).reverse()
    }

    pub open spec fn spec_from_be_bytes(b: Seq<u8>) -> U256 {
        U256 {
            hi: spec_u128_from_le_bytes(b.subrange(0, 16).reverse()),
            lo: spec_u128_from_le_bytes(b.subrange(16, 32).reverse()),
        }
    }

    pub fn to_be_bytes(&self) -> (r: Vec<u8>)
        ensures
            r@ == self.spec_to_be_bytes(),
            r@.len() == 32,
    {
        proof { lemma_auto_spec_u128_to_from_le_bytes(); }
        let hi = u128_to_le_bytes(self.hi);
        let lo = u128_to_le_bytes(self.lo);
        let mut out: Vec<u8> = Vec::new();
        let mut i: usize = 16;
        while i > 0
            invariant
                0 <= i <= 16,
                hi@.len() == 16,
                out@ == hi@.subrange(i as int, 16).reverse(),
            decreases i,
        {
            i = i - 1;
            out.push(hi[i]);
            assert(out@ =~= hi@.subrange(i as int, 16).reverse());
        }
        let mut j: usize = 16;
        while j > 0
            invariant
                0 <= j <= 16,
                hi@.len() == 16,
                lo@.len() == 16,
                out@ == hi@.reverse() + lo@.subrange(j as int, 16).reverse(),
            decreases j,
        {
            j = j - 1;
            out.push(lo[j]);
            assert(out@ =~= hi@.reverse() + lo@.subrange(j as int, 16).reverse());
        }
        assert(hi@.subrange(0, 16) =~= hi@);
        assert(lo@.subrange(0, 16) =~= lo@);
        out
    }

    pub fn from_be_bytes(b: &[u8]) -> (r: U256)
        requires
            b@.len() == 32,
        ensures
            r == U256::spec_from_be_bytes(b@),
    {
        let mut hi_le: Vec<u8> = Vec::new();
        let mut lo_le: Vec<u8> = Vec::new();
        let mut i: usize = 16;
        while i > 0
            invariant
                0 <= i <= 16,
                b@.len() == 32,
                hi_le@ == b@.subrange(i as int, 16).reverse(),
                lo_le@ == b@.subrange(16 + i, 32).reverse(),
            decreases i,
        {
            i = i - 1;
            hi_le.push(b[i]);
            lo_le.push(b[16 + i]);
            assert(hi_le@ =~= b@.subrange(i as int, 16).reverse());
            assert(lo_le@ =~= b@.subrange(16 + i, 32).reverse());
        }
        U256 { hi: u128_from_le_bytes(hi_le.as_slice()), lo: u128_from_le_bytes(lo_le.as_slice()) }
    }
}

/// Reading back the big-endian bytes of a value gives the value.
pub proof fn lemma_be_bytes_roundtrip(x: U256)
    ensures
        U256::spec_from_be_bytes(x.spec_to_be_bytes()) == x,
        x.spec_to_be_bytes().len() == 32,
{
    lemma_auto_spec_u128_to_from_le_bytes();
    let b = x.spec_to_be_bytes();
    let h = spec_u128_to_le_bytes(x.hi);
    let l = spec_u128_to_le_bytes(x.lo);
    assert(b.subrange(0, 16) =~= h.reverse());
    assert(b.subrange(16, 32) =~= l.reverse());
    assert(h.reverse().reverse() =~= h);
    assert(l.reverse().reverse() =~= l);
}

/// A value is the one its number, modulo 2^256, names.
/// Any 32 bytes read as a big-endian number write back as themselves.
pub proof fn lemma_be_bytes_decode_encode(b: Seq<u8>)
    requires
        b.len() == 32,
    ensures
        U256::spec_from_be_bytes(b).spec_to_be_bytes() == b,
{
    lemma_auto_spec_u128_to_from_le_bytes();
    let x = U256::spec_from_be_bytes(b);
    assert(b.subrange(0, 16).reverse().reverse() =~= b.subrange(0, 16));
    assert(b.subrange(16, 32).reverse().reverse() =~= b.subrange(16, 32));
    assert(b =~= b.subrange(0, 16) + b.subrange(16, 32));
}

pub proof fn lemma_from_value(n: nat, r: U256)
    requires
        r.value() == n % two256(),
    ensures
        r == U256::spec_from_value(n),
{
    let t = two128();
    let m = n % (t * t);
    let q = (n / t) % t;
    let rem = n % t;
    vstd::arithmetic::div_mod::lemma_mod_breakdown(n as int, t as int, t as int);
    assert(m == t * q + rem);
    assert(m == q * t + rem) by (nonlinear_arith) requires m == t * q + rem;
    assert(rem < t);
    vstd::arithmetic::div_mod::lemma_fundamental_div_mod_converse(m as int, t as int, q as int, rem as int);
    assert(m == r.hi as nat * t + r.lo as nat);
    vstd::arithmetic::div_mod::lemma_fundamental_div_mod_converse(m as int, t as int, r.hi as int, r.lo as int);
}

proof fn lemma_value_order(a: U256, b: U256)
    ensures
        (a.value() < b.value()) == (a.hi < b.hi || (a.hi == b.hi && a.lo < b.lo)),
        (a.value() <= b.value()) == (a.hi < b.hi || (a.hi == b.hi && a.lo <= b.lo)),
{
    let t = two128();
    assert(a.lo < t && b.lo < t);
    if a.hi < b.hi {
        assert(a.hi as nat * t + t <= b.hi as nat * t) by (nonlinear_arith)
            requires a.hi < b.hi;
    } else if a.hi > b.hi {
        assert(b.hi as nat * t + t <= a.hi as nat * t) by (nonlinear_arith)
            requires a.hi > b.hi;
    }
}

proof fn lemma_wrapping_add(a: U256, b: U256, r: U256, carry: u128)
    requires
        carry <= 1,
        r.lo as nat + carry as nat * two128() == a.lo as nat + b.lo as nat,
        (r.hi as nat) == (a.hi as nat + b.hi as nat + carry as nat) % two128(),
    ensures
        r.value() == (a.value() + b.value()) % two256(),
{
    let t = two128();
    let s = a.hi as nat + b.hi as nat + carry as nat;
    let q = s / t;
    vstd::arithmetic::div_mod::lemma_fundamental_div_mod(s as int, t as int);
    assert(a.value() + b.value() == s * t + r.lo as nat) by (nonlinear_arith)
        requires
            r.lo as nat + carry as nat * t == a.lo as nat + b.lo as nat,
            s == a.hi as nat + b.hi as nat + carry as nat,
            a.value() == a.hi as nat * t + a.lo as nat,
            b.value() == b.hi as nat * t + b.lo as nat;
    assert(s * t + r.lo as nat == q * (t * t) + r.value()) by (nonlinear_arith)
        requires
            s == q * t + s % t,
            r.hi as nat == s % t,
            r.value() == r.hi as nat * t + r.lo as nat;
    assert(r.value() < t * t) by (nonlinear_arith)
        requires r.hi < t, r.lo < t, r.value() == r.hi as nat * t + r.lo as nat;
    vstd::arithmetic::div_mod::lemma_fundamental_div_mod_converse(
        (a.value() + b.value()) as int, (t * t) as int, q as int, r.value() as int);
}

} // verus!
