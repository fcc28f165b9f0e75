//! Vectors indexed by sets of wires, as bit masks: the exchange of two wires.
use vstd::prelude::*;

verus! {

/// The index `idx` with its bits `i` and `j` exchanged.
pub open spec fn swapped(idx: u64, i: u32, j: u32) -> u64 {
    if (idx >> (i as u64)) & 1 == (idx >> (j as u64)) & 1 {
        idx
    } else {
        idx ^ ((1u64 << (i as u64)) | (1u64 << (j as u64)))
    }
}

/// Whether bit `i` of `idx` is set and bit `j` is not.
pub open spec fn leads(idx: u64, i: u32, j: u32) -> bool {
    (idx >> (i as u64)) & 1 == 1 && (idx >> (j as u64)) & 1 == 0
}

/// Of `idx` and the index with the bits exchanged, the one that has bit `i` set.
pub open spec fn leader(idx: u64, i: u32, j: u32) -> u64 {
    if leads(idx, i, j) {
        idx
    } else {
        swapped(idx, i, j)
    }
}

proof fn lemma_swapped(idx: u64, i: u32, j: u32, n: u32)
    by (bit_vector)
    requires
        n < 64,
        i < j,
        j < n,
        idx < (1u64 << (n as u64)),
    ensures
        ({
            let m = (1u64 << (i as u64)) | (1u64 << (j as u64));
            let bi = (idx >> (i as u64)) & 1;
            let bj = (idx >> (j as u64)) & 1;
            let s = if bi == bj {
                idx
            } else {
                idx ^ m
            };
            &&& s < (1u64 << (n as u64))
            &&& (bi == 0 || bi == 1)
            &&& (bj == 0 || bj == 1)
            &&& (s >> (i as u64)) & 1 == bj
            &&& (s >> (j as u64)) & 1 == bi
            &&& bi != bj ==> s != idx
            &&& bi != bj ==> s ^ m == idx
            &&& bi == 1 && bj == 0 ==> s > idx
        }),
{
}

/// Exchanges the wires `i` and `j` of a vector indexed by the sets of `n` wires: the element
/// of each set is afterwards at the set with `i` in the place of `j` and `j` in that of `i`.
pub fn swap_axes<T: Copy>(distr: &mut [T], n: u32, i: u32, j: u32)
    requires
        n < 64,
        i < n,
        j < n,
        old(distr)@.len() == (1u64 << (n as u64)),
    ensures
        final(distr)@.len() == old(distr)@.len(),
        forall|idx: int|
            0 <= idx < old(distr)@.len() ==> #[trigger] final(distr)@[idx] == old(distr)@[swapped(
                idx as u64,
                i,
                j,
            ) as int],
{
    if i == j {
        return ;
    }
    let ghost (i0, j0) = (i, j);
    let (i, j) = if i < j {
        (i, j)
    } else {
        (j, i)
    };
    let ghost orig = distr@;
    let len = distr.len();
    let mask: u64 = (1u64 << (i as u64)) | (1u64 << (j as u64));
    let mut c: usize = 0;
    while c < len
        invariant
            c <= len,
            n < 64,
            i < j,
            j < n,
            len == (1u64 << (n as u64)),
            mask == (1u64 << (i as u64)) | (1u64 << (j as u64)),
            distr@.len() == len,
            orig.len() == len,
            forall|idx: int|
                0 <= idx < len ==> #[trigger] distr@[idx] == if swapped(idx as u64, i, j)
                    != idx as u64 && leader(idx as u64, i, j) < c {
                    orig[swapped(idx as u64, i, j) as int]
                } else {
                    orig[idx]
                },
        decreases len - c,
    {
        let ghost cur = distr@;
        let w = c as u64;
        proof {
            lemma_swapped(w, i, j, n);
        }
        if (w >> (i as u64)) & 1 == 1 && (w >> (j as u64)) & 1 == 0 {
            let other = (w ^ mask) as usize;
            proof {
                lemma_swapped(other as u64, i, j, n);
            }
            let t = distr[c];
            distr[c] = distr[other];
            distr[other] = t;
            proof {
                assert forall|idx: int| 0 <= idx < len implies #[trigger] distr@[idx] == if swapped(
                    idx as u64,
                    i,
                    j,
                ) != idx as u64 && leader(idx as u64, i, j) < c + 1 {
                    orig[swapped(idx as u64, i, j) as int]
                } else {
                    orig[idx]
                } by {
                    lemma_swapped(idx as u64, i, j, n);
                    if idx == c {
                        assert(cur[other as int] == orig[other as int]);
                    } else if idx == other {
                        assert(cur[c as int] == orig[c as int]);
                    } else {
                        assert(distr@[idx] == cur[idx]);
                        lemma_swapped(swapped(idx as u64, i, j), i, j, n);
                    }
                }
            }
        } else {
            proof {
                assert forall|idx: int| 0 <= idx < len implies #[trigger] distr@[idx] == if swapped(
                    idx as u64,
                    i,
                    j,
                ) != idx as u64 && leader(idx as u64, i, j) < c + 1 {
                    orig[swapped(idx as u64, i, j) as int]
                } else {
                    orig[idx]
                } by {
                    lemma_swapped(idx as u64, i, j, n);
                    lemma_swapped(swapped(idx as u64, i, j), i, j, n);
                }
            }
        }
        c = c + 1;
    }
    proof {
        assert forall|idx: int| 0 <= idx < len implies #[trigger] distr@[idx] == orig[swapped(
            idx as u64,
            i,
            j,
        ) as int] by {
            lemma_swapped(idx as u64, i, j, n);
            lemma_swapped(swapped(idx as u64, i, j), i, j, n);
        }
        assert forall|idx: int| 0 <= idx < len implies #[trigger] swapped(idx as u64, i0, j0)
            == swapped(idx as u64, i, j) by {
            let a = 1u64 << (i as u64);
            let b = 1u64 << (j as u64);
            assert(a | b == b | a) by (bit_vector);
        }
    }
}

} // verus!
