//! Fixed-width identifiers and amounts: addresses, 32-byte words and 256-bit
//! unsigned integers.

use vstd::prelude::*;

verus! {

/// Two to the power 64, the radix of a limb.
pub open spec fn radix64() -> nat {
    0x1_0000_0000_0000_0000nat
}

/// Two to the power 128.
pub open spec fn radix128() -> nat {
    0x1_0000_0000_0000_0000_0000_0000_0000_0000nat
}

/// The number that a sequence of bytes writes in base 256, most significant
/// byte first.
pub open spec fn be_value(bytes: Seq<u8>) -> nat
    decreases bytes.len(),
{
    if bytes.len() == 0 {
        0
    } else {
        be_value(bytes.drop_last()) * 256 + bytes.last() as nat
    }
}

/// 256 to the power `n`.
pub open spec fn pow256(n: nat) -> nat
    decreases n,
{
    if n == 0 {
        1
    } else {
        256 * pow256((n - 1) as nat)
    }
}

/// A big-endian number of `n` bytes is below `256^n`.
pub proof fn lemma_be_value_bound(bytes: Seq<u8>)
    ensures
        be_value(bytes) < pow256(bytes.len()),
    decreases bytes.len(),
{
    if bytes.len() > 0 {
        lemma_be_value_bound(bytes.drop_last());
    }
}

/// `256^16` is two to the power 128.
pub proof fn lemma_pow256_16()
    ensures
        pow256(16) == radix128(),
{
    reveal_with_fuel(pow256, 17);
}

/// A 20-byte account or contract identifier. `hi` holds the first four
/// bytes and `lo` the last sixteen, both read big-endian, so two addresses
/// are equal exactly when their bytes are.
#[derive(Clone, Copy, Debug, PartialEq, Eq, Hash, Structural)]
pub struct Address {
    pub hi: u32,
    pub lo: u128,
}

impl Address {
    /// The address as one number below `2^160`.
    pub open spec fn value(self) -> nat {
        self.hi as nat * radix128() + self.lo as nat
    }

    /// The address whose twenty bytes are all zero.
    pub fn zero() -> (a: Address)
        ensures
            a.value() == 0,
    {
        Address { hi: 0, lo: 0 }
    }

    /// The address that holds `n` in its low eight bytes.
    pub fn from_u64(n: u64) -> (a: Address)
        ensures
            a.value() == n,
            a.hi == 0,
            a.lo == n,
    {
        Address { hi: 0, lo: n as u128 }
    }
}

/// An ordered pair of tokens, base first: the question "how much quote for
/// one base". The pairs `(a, b)` and `(b, a)` are different.
#[derive(Clone, Copy, Debug, PartialEq, Eq, Hash, Structural)]
pub struct Pair(pub Address, pub Address);

impl Pair {
    /// The same two tokens with base and quote exchanged.
    pub fn flip(&self) -> (r: Pair)
        ensures
            r.0 == self.1,
            r.1 == self.0,
    {
        Pair(self.1, self.0)
    }
}

/// A 32-byte word: a transaction hash or an event signature. `hi` holds the
/// first sixteen bytes and `lo` the last sixteen, both read big-endian.
#[derive(Clone, Copy, Debug, PartialEq, Eq, Hash, Structural)]
pub struct B256 {
    pub hi: u128,
    pub lo: u128,
}

impl B256 {
    /// The word as one number below `2^256`.
    pub open spec fn value(self) -> nat {
        self.hi as nat * radix128() + self.lo as nat
    }

    /// The word whose bytes are all zero.
    pub fn zero() -> (w: B256)
        ensures
            w.value() == 0,
    {
        B256 { hi: 0, lo: 0 }
    }
}

/// A 256-bit unsigned integer, the width of every on-chain amount.
#[derive(Clone, Copy, Debug, PartialEq, Eq, Hash, Structural)]
pub struct U256 {
    pub hi: u128,
    pub lo: u128,
}

impl U256 {
    /// The number that the two halves write.
    pub open spec fn value(self) -> nat {
        self.hi as nat * radix128() + self.lo as nat
    }

    /// Zero.
    pub fn zero() -> (n: U256)
        ensures
            n.value() == 0,
    {
        U256 { hi: 0, lo: 0 }
    }

    /// Widens a 64-bit number.
    pub fn from_u64(n: u64) -> (r: U256)
        ensures
            r.value() == n,
    {
        U256 { hi: 0, lo: n as u128 }
    }

    /// Widens a 128-bit number.
    pub fn from_u128(n: u128) -> (r: U256)
        ensures
            r.value() == n,
    {
        U256 { hi: 0, lo: n }
    }

    /// Whether the number is zero.
    pub fn is_zero(&self) -> (z: bool)
        ensures
            z == (self.value() == 0),
    {
        self.hi == 0 && self.lo == 0
    }

    /// The number as a `u128`, where it fits.
    pub fn to_u128(&self) -> (r: Option<u128>)
        ensures
            match r {
                Some(n) => n == self.value(),
                None => self.value() > u128::MAX,
            },
    {
        if self.hi == 0 {
            Some(self.lo)
        } else {
            None
        }
    }

    /// Whether `self` is strictly below `other`.
    pub fn lt(&self, other: &U256) -> (b: bool)
        ensures
            b == (self.value() < other.value()),
    {
        self.hi < other.hi || (self.hi == other.hi && self.lo < other.lo)
    }

    /// The number read as a signed integer in two's complement.
    pub open spec fn signed_value(self) -> int {
        if self.hi >= 0x8000_0000_0000_0000_0000_0000_0000_0000 {
            self.value() - radix128() * radix128()
        } else {
            self.value() as int
        }
    }

    /// Whether the number, read as a signed integer, is below zero.
    pub fn is_negative(&self) -> (b: bool)
        ensures
            b == (self.signed_value() < 0),
    {
        proof {
            assert(self.hi * radix128() + self.lo < radix128() * radix128()) by (nonlinear_arith)
                requires
                    self.hi < radix128(),
                    self.lo < radix128(),
            ;
        }
        self.hi >= 0x8000_0000_0000_0000_0000_0000_0000_0000
    }

    /// The absolute value of the number read as a signed integer, as a
    /// number.
    pub open spec fn absolute(self) -> U256 {
        if self.hi < 0x8000_0000_0000_0000_0000_0000_0000_0000 {
            self
        } else if self.lo == 0 {
            U256 { hi: (u128::MAX - self.hi + 1) as u128, lo: 0 }
        } else {
            U256 { hi: (u128::MAX - self.hi) as u128, lo: (u128::MAX - self.lo + 1) as u128 }
        }
    }

    /// The absolute value of the number read as a signed integer.
    pub fn magnitude(&self) -> (r: U256)
        ensures
            r == self.absolute(),
            r.value() == if self.signed_value() < 0 {
                -self.signed_value()
            } else {
                self.signed_value()
            },
    {
        if !self.is_negative() {
            return *self;
        }
        let r = if self.lo == 0 {
            U256 { hi: (u128::MAX - self.hi) + 1, lo: 0 }
        } else {
            U256 { hi: u128::MAX - self.hi, lo: (u128::MAX - self.lo) + 1 }
        };
        proof {
            let h = self.hi as int;
            let l = self.lo as int;
            let b = radix128() as int;
            assert(b == u128::MAX + 1);
            if self.lo == 0 {
                assert((b - h) * b == b * b - h * b) by (nonlinear_arith);
            } else {
                assert((b - 1 - h) * b + (b - l) == b * b - (h * b + l)) by (nonlinear_arith);
            }
        }
        r
    }

    /// The four 64-bit limbs of the number, least significant first.
    pub fn to_limbs(&self) -> (limbs: Vec<u64>)
        ensures
            limbs@.len() == 4,
            limbs_value(limbs@) == self.value(),
    {
        let l0: u64 = (self.lo % 0x1_0000_0000_0000_0000u128) as u64;
        let l1: u64 = (self.lo / 0x1_0000_0000_0000_0000u128) as u64;
        let l2: u64 = (self.hi % 0x1_0000_0000_0000_0000u128) as u64;
        let l3: u64 = (self.hi / 0x1_0000_0000_0000_0000u128) as u64;
        let mut limbs: Vec<u64> = Vec::new();
        limbs.push(l0);
        limbs.push(l1);
        limbs.push(l2);
        limbs.push(l3);
        proof {
            lemma_limbs_value_four(limbs@);
        }
        limbs
    }
}

/// The number that a sequence of 64-bit limbs writes, least significant limb
/// first.
pub open spec fn limbs_value(limbs: Seq<u64>) -> nat
    decreases limbs.len(),
{
    if limbs.len() == 0 {
        0
    } else {
        limbs[0] as nat + radix64() * limbs_value(limbs.skip(1))
    }
}

/// No limbs write zero.
pub proof fn lemma_limbs_value_empty()
    ensures
        limbs_value(Seq::<u64>::empty()) == 0,
{
}

/// A single limb writes itself.
pub proof fn lemma_limbs_value_one(limbs: Seq<u64>)
    requires
        limbs.len() == 1,
    ensures
        limbs_value(limbs) == limbs[0],
{
    assert(limbs.skip(1).len() == 0);
    assert(limbs_value(limbs.skip(1)) == 0);
}

/// Four limbs write `l0 + 2^64 l1 + 2^128 l2 + 2^192 l3`.
pub proof fn lemma_limbs_value_four(limbs: Seq<u64>)
    requires
        limbs.len() == 4,
    ensures
        limbs_value(limbs) == limbs[0] as nat + radix64() * limbs[1] as nat + radix128() * (
        limbs[2] as nat + radix64() * limbs[3] as nat),
{
    let s1 = limbs.skip(1);
    let s2 = s1.skip(1);
    let s3 = s2.skip(1);
    assert(s3.len() == 1);
    lemma_limbs_value_one(s3);
    assert(s3[0] == limbs[3]);
    assert(limbs_value(s2) == limbs[2] as nat + radix64() * limbs[3] as nat);
    assert(limbs_value(s1) == limbs[1] as nat + radix64() * limbs_value(s2));
    assert(limbs_value(limbs) == limbs[0] as nat + radix64() * limbs_value(s1));
    assert(radix64() * (limbs[1] as nat + radix64() * limbs_value(s2)) == radix64() * limbs[1] as nat
        + radix128() * limbs_value(s2)) by (nonlinear_arith)
        requires
            radix64() * radix64() == radix128(),
    ;
}

} // verus!
