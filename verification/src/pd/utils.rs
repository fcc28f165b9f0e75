use vstd::prelude::*;

verus! {

/// Whether bit `b` of `i` is set.
pub open spec fn bit_is_set(i: usize, b: nat) -> bool {
    b < 64 && ((i as u64) >> (b as u64)) & 1u64 == 1u64
}

/// `bits` lists the positions of the set bits of `i`, each once, in increasing order.
pub open spec fn is_set_bits(i: usize, bits: Seq<usize>) -> bool {
    &&& forall|k: int| 0 <= k < bits.len() ==> bit_is_set(i, #[trigger] bits[k] as nat)
    &&& forall|k: int, l: int| 0 <= k < l < bits.len() ==> bits[k] < bits[l]
    &&& forall|b: nat| #[trigger]
        bit_is_set(i, b) ==> exists|k: int| 0 <= k < bits.len() && #[trigger] bits[k] == b
}

/// The positions of the bits set in `i`, lowest first.
pub fn iter_set_bits(i: usize) -> (bits: Vec<usize>)
    ensures
        is_set_bits(i, bits@),
{
    let w: u64 = i as u64;
    let mut tot: usize = 0;
    let mut bits: Vec<usize> = Vec::new();
    while tot < 64
        invariant
            tot <= 64,
            w == i as u64,
            forall|k: int| 0 <= k < bits.len() ==> bit_is_set(i, #[trigger] bits[k] as nat),
            forall|k: int| 0 <= k < bits.len() ==> (#[trigger] bits[k]) < tot,
            forall|k: int, l: int| 0 <= k < l < bits.len() ==> bits[k] < bits[l],
            forall|b: nat|
                b < tot && #[trigger] bit_is_set(i, b) ==> exists|k: int|
                    0 <= k < bits.len() && #[trigger] bits[k] == b,
        decreases 64 - tot,
    {
        let ghost bits0 = bits@;
        if (w >> (tot as u64)) & 1u64 == 1u64 {
            bits.push(tot);
        }
        tot = tot + 1;
        proof {
            assert forall|b: nat| b < tot && #[trigger] bit_is_set(i, b) implies exists|k: int|
                0 <= k < bits.len() && #[trigger] bits[k] == b by {
                if b < tot - 1 {
                    let k = choose|k: int| 0 <= k < bits0.len() && #[trigger] bits0[k] == b;
                    assert(bits[k] == b);
                } else {
                    assert(bits[bits.len() - 1] == b);
                }
            }
        }
    }
    bits
}

} // verus!
