//! Sets of variable indices, kept as bit sets.
use vstd::prelude::*;

verus! {

/// The index of a variable of a circuit.
pub type VarIdx = usize;

/// `bit_set::BitSet`: a set of numbers, kept as bits in blocks of type `B`.
#[verifier::external_type_specification]
#[verifier::external_body]
#[verifier::reject_recursive_types(B)]
pub struct ExBitSet<B>(bit_set::BitSet<B>);

/// The numbers that a bit set holds: those that `BitSet::contains` tells and `BitSet::iter`
/// gives.
pub uninterp spec fn set_elements(s: bit_set::BitSet<u64>) -> Set<usize>;

/// `BitSet::default`: a bit set that holds no number.
#[verifier::external_body]
pub(crate) fn empty_set() -> (s: bit_set::BitSet<u64>)
    ensures
        set_elements(s) == Set::<usize>::empty(),
{
    bit_set::BitSet::default()
}

/// `BitSet::insert`: the set holds `value` afterwards, and what it held before. The result
/// tells whether `value` is new to it. The largest `usize` is left out: the bit set grows to
/// `value + 1` bits.
#[verifier::external_body]
pub(crate) fn set_insert(s: &mut bit_set::BitSet<u64>, value: usize) -> (fresh: bool)
    requires
        value < usize::MAX,
    ensures
        set_elements(*final(s)) == set_elements(*old(s)).insert(value),
        fresh == !set_elements(*old(s)).contains(value),
{
    s.insert(value)
}

/// `BitSet::contains`: whether the set holds `value`.
#[verifier::external_body]
pub(crate) fn set_contains(s: &bit_set::BitSet<u64>, value: usize) -> (b: bool)
    ensures
        b == set_elements(*s).contains(value),
{
    s.contains(value)
}

/// `BitSet::union_with`: the set holds afterwards what it or `other` held.
#[verifier::external_body]
pub(crate) fn set_union_with(s: &mut bit_set::BitSet<u64>, other: &bit_set::BitSet<u64>)
    ensures
        set_elements(*final(s)) == set_elements(*old(s)).union(set_elements(*other)),
{
    s.union_with(other)
}

/// `BitSet::is_subset`: whether `other` holds every number that `s` holds.
#[verifier::external_body]
pub(crate) fn set_is_subset(s: &bit_set::BitSet<u64>, other: &bit_set::BitSet<u64>) -> (b: bool)
    ensures
        b == set_elements(*s).subset_of(set_elements(*other)),
{
    s.is_subset(other)
}

/// `BitSet::len`: how many numbers the set holds.
#[verifier::external_body]
pub(crate) fn set_len(s: &bit_set::BitSet<u64>) -> (count: usize)
    ensures
        count == set_elements(*s).len(),
{
    s.len()
}

/// `BitSet::capacity`: a number of bits that the set has room for. Every number that the set
/// holds is below it.
#[verifier::external_body]
pub(crate) fn set_capacity(s: &bit_set::BitSet<u64>) -> (n: usize)
    ensures
        forall|x: usize| set_elements(*s).contains(x) ==> x < n,
{
    s.capacity()
}

/// `BitSet::clone`: a bit set that holds the same numbers.
#[verifier::external_body]
pub(crate) fn set_clone(s: &bit_set::BitSet<u64>) -> (r: bit_set::BitSet<u64>)
    ensures
        set_elements(r) == set_elements(*s),
{
    s.clone()
}

/// `BitSet::eq`: whether two bit sets hold the same numbers.
#[verifier::external_body]
pub(crate) fn set_eq(a: &bit_set::BitSet<u64>, b: &bit_set::BitSet<u64>) -> (r: bool)
    ensures
        r == (set_elements(*a) == set_elements(*b)),
{
    a.eq(b)
}

/// `BitSet::iter`: the numbers that the set holds, each once, in increasing order.
#[verifier::external_body]
pub(crate) fn set_to_vec(s: &bit_set::BitSet<u64>) -> (v: Vec<usize>)
    ensures
        forall|i: int, j: int| 0 <= i < j < v@.len() ==> v@[i] < v@[j],
        forall|x: usize| set_elements(*s).contains(x) <==> v@.contains(x),
{
    s.iter().collect()
}

/// A set of numbers below a bound is finite.
pub proof fn lemma_bounded_finite(s: Set<usize>, n: nat)
    requires
        forall|x: usize| s.contains(x) ==> x < n,
    ensures
        s.finite(),
    decreases n,
{
    if n == 0 {
        assert(s =~= Set::<usize>::empty());
    } else if n - 1 > usize::MAX {
        lemma_bounded_finite(s, (n - 1) as nat);
    } else {
        let top = (n - 1) as usize;
        lemma_bounded_finite(s.remove(top), (n - 1) as nat);
        if s.contains(top) {
            assert(s =~= s.remove(top).insert(top));
        } else {
            assert(s =~= s.remove(top));
        }
    }
}

} // verus!
