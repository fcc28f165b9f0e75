//! Helpers on lists of indices and on names.
use vstd::prelude::*;

verus! {

/// Whether each element of the list is below the next.
pub open spec fn increasing(s: Seq<usize>) -> bool {
    forall|i: int, j: int| 0 <= i < j < s.len() ==> s[i] < s[j]
}

/// Whether no element of the list is above the next.
pub open spec fn sorted(s: Seq<usize>) -> bool {
    forall|i: int, j: int| 0 <= i <= j < s.len() ==> s[i] <= s[j]
}

/// `str::starts_with`: whether the characters of `prefix` begin `s`.
#[verifier::external_body]
pub(crate) fn starts_with(s: &str, prefix: &str) -> (b: bool)
    ensures
        b == prefix@.is_prefix_of(s@),
{
    s.starts_with(prefix)
}

/// `[usize]::sort`: afterwards the list holds the same numbers, each as often as before, and
/// none is above the next.
#[verifier::external_body]
pub(crate) fn sort_indices(v: &mut Vec<usize>)
    ensures
        final(v)@.to_multiset() == old(v)@.to_multiset(),
        sorted(final(v)@),
{
    v.sort()
}

/// The elements of `world` that `base` does not hold, in the order of `world`: `world` is
/// increasing and `base` is sorted.
pub fn it_complement(world: &[usize], base: &[usize]) -> (res: Vec<usize>)
    requires
        increasing(world@),
        sorted(base@),
    ensures
        increasing(res@),
        forall|x: usize| res@.contains(x) <==> (world@.contains(x) && !base@.contains(x)),
{
    let mut res: Vec<usize> = Vec::new();
    let mut i: usize = 0;
    let mut j: usize = 0;
    while i < world.len()
        invariant
            i <= world@.len(),
            j <= base@.len(),
            increasing(world@),
            sorted(base@),
            increasing(res@),
            forall|k: int| 0 <= k < res@.len() && i < world@.len() ==> res@[k] < world@[i as int],
            forall|k: int| 0 <= k < j && i < world@.len() ==> base@[k] < world@[i as int],
            forall|x: usize|
                res@.contains(x) <==> (exists|s: int| 0 <= s < i && world@[s] == x)
                    && !base@.contains(x),
        decreases world@.len() - i,
    {
        let next = world[i];
        let ghost before = res@;
        let ghost j0 = j;
        while j < base.len() && base[j] < next
            invariant
                j0 <= j <= base@.len(),
                sorted(base@),
                forall|k: int| 0 <= k < j ==> base@[k] < next,
            decreases base@.len() - j,
        {
            j = j + 1;
        }
        let found = j < base.len() && base[j] == next;
        if found {
            j = j + 1;
        } else {
            res.push(next);
        }
        i = i + 1;
        proof {
            assert(found == base@.contains(next)) by {
                if base@.contains(next) {
                    let k = choose|k: int| 0 <= k < base@.len() && base@[k] == next;
                    if !found {
                        if k < j {
                        } else {
                            assert(base@[j as int] <= base@[k]);
                        }
                    }
                }
            }
            assert forall|x: usize|
                res@.contains(x) <==> (exists|s: int| 0 <= s < i && world@[s] == x)
                    && !base@.contains(x) by {
                if res@.contains(x) {
                    let k = choose|k: int| 0 <= k < res@.len() && res@[k] == x;
                    if k < before.len() {
                        assert(before[k] == x);
                        assert(before.contains(x));
                        let s = choose|s: int| 0 <= s < i - 1 && world@[s] == x;
                        assert(world@[s] == x);
                    } else {
                        assert(world@[i - 1] == x);
                    }
                }
                if (exists|s: int| 0 <= s < i && world@[s] == x) && !base@.contains(x) {
                    let s = choose|s: int| 0 <= s < i && world@[s] == x;
                    if s < i - 1 {
                        assert(before.contains(x));
                        let k = choose|k: int| 0 <= k < before.len() && before[k] == x;
                        assert(res@[k] == x);
                    } else {
                        assert(res@[res@.len() - 1] == x);
                    }
                }
            }
            if i < world@.len() {
                assert forall|k: int| 0 <= k < j implies base@[k] < world@[i as int] by {
                    if k < j - 1 || !found {
                        assert(base@[k] < next);
                    } else {
                        assert(base@[k] == next);
                    }
                }
            }
        }
    }
    proof {
        assert forall|x: usize| res@.contains(x) <==> (world@.contains(x) && !base@.contains(x)) by {
            if world@.contains(x) {
                let s = choose|s: int| 0 <= s < world@.len() && world@[s] == x;
                assert(world@[s] == x);
            }
        }
    }
    res
}

} // verus!
