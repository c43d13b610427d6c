//! Reading call data and log data: 32-byte big-endian words, addresses in
//! the low twenty bytes of a word, and the four-byte selector of a call.

use vstd::prelude::*;
use crate::primitives::{
    Address, B256, U256, be_value, lemma_be_value_bound, lemma_pow256_16, pow256,
};

verus! {

/// 256 to the power `n` grows with `n`.
pub proof fn lemma_pow256_grows(a: nat, b: nat)
    requires
        a <= b,
    ensures
        pow256(a) <= pow256(b),
        pow256(a) > 0,
    decreases b,
{
    if b == 0 {
    } else if a < b {
        lemma_pow256_grows(a, (b - 1) as nat);
    } else {
        lemma_pow256_grows((a - 1) as nat, (b - 1) as nat);
    }
}

/// 256 to the power `a + b` is the product of the two powers.
pub proof fn lemma_pow256_adds(a: nat, b: nat)
    ensures
        pow256(a + b) == pow256(a) * pow256(b),
    decreases b,
{
    if b > 0 {
        lemma_pow256_adds(a, (b - 1) as nat);
        assert(pow256(a + b) == 256 * pow256((a + b - 1) as nat));
        assert(256 * (pow256(a) * pow256((b - 1) as nat)) == pow256(a) * (256 * pow256(
            (b - 1) as nat,
        ))) by (nonlinear_arith);
    } else {
        assert(pow256(a) * 1 == pow256(a)) by (nonlinear_arith);
    }
}

/// The number that two runs of bytes write, one after the other, is the
/// number of the first run shifted by the length of the second, plus the
/// number of the second.
pub proof fn lemma_be_value_concat(a: Seq<u8>, b: Seq<u8>)
    ensures
        be_value(a + b) == be_value(a) * pow256(b.len()) + be_value(b),
    decreases b.len(),
{
    if b.len() == 0 {
        assert(a + b =~= a);
        assert(be_value(a) * 1 == be_value(a)) by (nonlinear_arith);
    } else {
        lemma_be_value_concat(a, b.drop_last());
        assert((a + b).drop_last() =~= a + b.drop_last());
        assert((a + b).last() == b.last());
        let x = be_value(a);
        let p = pow256((b.len() - 1) as nat);
        let y = be_value(b.drop_last());
        assert((x * p + y) * 256 == x * (256 * p) + y * 256) by (nonlinear_arith);
    }
}

/// The number that the sixteen bytes from `start` on write.
pub fn be_u128(data: &Vec<u8>, start: usize) -> (r: u128)
    requires
        start + 16 <= data@.len(),
    ensures
        r == be_value(data@.subrange(start as int, start + 16)),
{
    let mut acc: u128 = 0;
    let mut k: usize = 0;
    assert(data.len() <= usize::MAX);
    assert(data@.subrange(start as int, start as int) =~= Seq::<u8>::empty());
    while k < 16
        invariant
            k <= 16,
            start + 16 <= data@.len(),
            data@.len() <= usize::MAX,
            acc == be_value(data@.subrange(start as int, start + k)),
        decreases 16 - k,
    {
        let ghost run = data@.subrange(start as int, start + k + 1);
        proof {
            assert(run.drop_last() =~= data@.subrange(start as int, start + k));
            assert(run.last() == data@[start + k]);
            lemma_be_value_bound(run);
            lemma_pow256_grows((k + 1) as nat, 16);
            lemma_pow256_16();
        }
        acc = acc * 256 + data[start + k] as u128;
        k = k + 1;
    }
    acc
}

/// The number that the four bytes from `start` on write.
pub fn be_u32(data: &Vec<u8>, start: usize) -> (r: u32)
    requires
        start + 4 <= data@.len(),
    ensures
        r == be_value(data@.subrange(start as int, start + 4)),
{
    let mut acc: u32 = 0;
    let mut k: usize = 0;
    assert(data.len() <= usize::MAX);
    assert(data@.subrange(start as int, start as int) =~= Seq::<u8>::empty());
    while k < 4
        invariant
            k <= 4,
            start + 4 <= data@.len(),
            data@.len() <= usize::MAX,
            acc == be_value(data@.subrange(start as int, start + k)),
        decreases 4 - k,
    {
        let ghost run = data@.subrange(start as int, start + k + 1);
        proof {
            assert(run.drop_last() =~= data@.subrange(start as int, start + k));
            assert(run.last() == data@[start + k]);
            lemma_be_value_bound(run);
            lemma_pow256_grows((k + 1) as nat, 4);
            reveal_with_fuel(pow256, 5);
        }
        acc = acc * 256 + data[start + k] as u32;
        k = k + 1;
    }
    acc
}

/// The selector of a call: the number that the first four bytes of its
/// input write, where the input has four bytes.
pub open spec fn selector_of(input: Seq<u8>) -> Option<u32> {
    if input.len() >= 4 {
        Some(be_value(input.subrange(0, 4)) as u32)
    } else {
        None
    }
}

/// The selector of a call.
pub fn selector(input: &Vec<u8>) -> (r: Option<u32>)
    ensures
        r == selector_of(input@),
{
    if input.len() >= 4 {
        Some(be_u32(input, 0))
    } else {
        None
    }
}

/// The 32-byte word that starts at byte `offset`, where the data reaches
/// that far: its first sixteen bytes are the high half.
pub open spec fn word_of(data: Seq<u8>, offset: int) -> Option<U256> {
    if 0 <= offset && offset + 32 <= data.len() {
        Some(
            U256 {
                hi: be_value(data.subrange(offset, offset + 16)) as u128,
                lo: be_value(data.subrange(offset + 16, offset + 32)) as u128,
            },
        )
    } else {
        None
    }
}

/// A word that is read off the data holds the number that its 32 bytes
/// write.
pub proof fn lemma_word_value(data: Seq<u8>, offset: int)
    requires
        0 <= offset,
        offset + 32 <= data.len(),
    ensures
        word_of(data, offset)->0.value() == be_value(data.subrange(offset, offset + 32)),
{
    let hi = data.subrange(offset, offset + 16);
    let lo = data.subrange(offset + 16, offset + 32);
    assert(data.subrange(offset, offset + 32) =~= hi + lo);
    lemma_be_value_concat(hi, lo);
    lemma_be_value_bound(hi);
    lemma_be_value_bound(lo);
    lemma_pow256_16();
}

/// The 32-byte word that starts at byte `offset`.
pub fn word_at(data: &Vec<u8>, offset: usize) -> (r: Option<U256>)
    ensures
        r == word_of(data@, offset as int),
{
    if data.len() < 32 || offset > data.len() - 32 {
        return None;
    }
    proof {
        lemma_be_value_bound(data@.subrange(offset as int, offset + 16));
        lemma_be_value_bound(data@.subrange(offset + 16, offset + 32));
        lemma_pow256_16();
    }
    Some(U256 { hi: be_u128(data, offset), lo: be_u128(data, offset + 16) })
}

/// The address in the low twenty bytes of the word that starts at byte
/// `offset`; the twelve bytes before it are not looked at.
pub open spec fn address_of(data: Seq<u8>, offset: int) -> Option<Address> {
    if 0 <= offset && offset + 32 <= data.len() {
        Some(
            Address {
                hi: be_value(data.subrange(offset + 12, offset + 16)) as u32,
                lo: be_value(data.subrange(offset + 16, offset + 32)) as u128,
            },
        )
    } else {
        None
    }
}

/// The address in the low twenty bytes of the word that starts at byte
/// `offset`.
pub fn address_at(data: &Vec<u8>, offset: usize) -> (r: Option<Address>)
    ensures
        r == address_of(data@, offset as int),
{
    if data.len() < 32 || offset > data.len() - 32 {
        return None;
    }
    proof {
        lemma_be_value_bound(data@.subrange(offset + 12, offset + 16));
        lemma_be_value_bound(data@.subrange(offset + 16, offset + 32));
        lemma_pow256_16();
        reveal_with_fuel(pow256, 5);
    }
    Some(Address { hi: be_u32(data, offset + 12), lo: be_u128(data, offset + 16) })
}

/// The address that a topic holds in its low twenty bytes.
pub fn address_of_topic(topic: &B256) -> (r: Address)
    ensures
        r.hi == topic.hi % 0x1_0000_0000,
        r.lo == topic.lo,
{
    Address { hi: (topic.hi % 0x1_0000_0000) as u32, lo: topic.lo }
}

} // verus!
