use vstd::prelude::*;

verus! {

/// One step of the multiplicative byte hash: `acc * mul + b`, wrapped to 32
/// bits.
pub open spec fn hash_step(acc: u32, mul: u32, b: u8) -> u32 {
    ((acc as int * mul as int + b as int) % 0x1_0000_0000) as u32
}

/// The multiplicative hash of a byte string, folded from the left starting
/// at `seed`.
pub open spec fn mul_hash(bytes: Seq<u8>, seed: u32, mul: u32) -> u32
    decreases bytes.len(),
{
    if bytes.len() == 0 {
        seed
    } else {
        hash_step(mul_hash(bytes.drop_last(), seed, mul), mul, bytes.last())
    }
}

/// Fold `acc = acc.wrapping_mul(mul).wrapping_add(b)` over the bytes,
/// starting at `seed`.
pub fn fold_hash(bytes: &[u8], seed: u32, mul: u32) -> (h: u32)
    ensures
        h == mul_hash(bytes@, seed, mul),
{
    let mut acc: u32 = seed;
    let mut i: usize = 0;
    proof {
        assert(bytes@.subrange(0, 0) =~= Seq::<u8>::empty());
    }
    while i < bytes.len()
        invariant
            i <= bytes@.len(),
            acc == mul_hash(bytes@.subrange(0, i as int), seed, mul),
        decreases bytes@.len() - i,
    {
        let b = bytes[i];
        let next = acc.wrapping_mul(mul).wrapping_add(b as u32);
        proof {
            let m: int = 0x1_0000_0000;
            vstd::arithmetic::div_mod::lemma_add_mod_noop(acc as int * mul as int, b as int, m);
            vstd::arithmetic::div_mod::lemma_small_mod(b as nat, m as nat);
            vstd::arithmetic::div_mod::lemma_mod_twice(acc as int * mul as int, m);
            assert(bytes@.subrange(0, i as int + 1).drop_last() =~= bytes@.subrange(0, i as int));
        }
        acc = next;
        i = i + 1;
    }
    proof {
        assert(bytes@.subrange(0, bytes@.len() as int) =~= bytes@);
    }
    acc
}

} // verus!
