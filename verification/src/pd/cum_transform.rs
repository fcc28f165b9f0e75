//! Cumulative transform of a vector indexed by bit masks.
//!
//! A vector `x` of `2^n` elements is indexed by subsets of `n` wires, written as bit masks.
//! Index `i` is a superset of index `j` when `j & !i == 0`. The cumulative transform `y = T(x)`
//! has `y[j]` the sum of the `x[i]` over the supersets `i` of `j`.
//!
//! Splitting `x = (x1, x2)` and `y = (y1, y2)` in halves, `y2 = T(x2)` and `y1 = y2 + T(x1)`:
//! this gives the transform and its inverse in `2^n * n` steps.
//!
//! Two constrained inverses are defined by the same splitting. The positive inverse of `y` is a
//! vector `x` that is nowhere negative with `T(x) >= y`, made as small as possible, highest
//! index first. The minimum positive inverse of `y` is a vector `x` that is nowhere negative
//! with `T(x) <= y`, made as large as possible, highest index first.
use vstd::prelude::*;

verus! {

/// A machine type that stands for a range of the integers under addition.
pub trait Group: Sized + Copy {
    /// The integer that a value stands for.
    spec fn val(self) -> int;

    /// Whether the type holds the integer `v`.
    spec fn fits(v: int) -> bool;

    /// The integers that the type holds form an interval.
    proof fn lemma_fits_between(a: int, v: int, b: int)
        requires
            Self::fits(a),
            Self::fits(b),
            a <= v <= b,
        ensures
            Self::fits(v),
    ;

    /// The type holds the integer of each of its values.
    proof fn lemma_val_fits(self)
        ensures
            Self::fits(self.val()),
    ;

    /// The type holds zero.
    proof fn lemma_zero_fits()
        ensures
            Self::fits(0),
    ;

    /// The neutral element.
    fn zero() -> (z: Self)
        ensures
            z.val() == 0,
    ;

    /// The sum of two values.
    fn plus(self, rhs: Self) -> (r: Self)
        requires
            Self::fits(self.val() + rhs.val()),
        ensures
            r.val() == self.val() + rhs.val(),
    ;

    /// The difference of two values.
    fn minus(self, rhs: Self) -> (r: Self)
        requires
            Self::fits(self.val() - rhs.val()),
        ensures
            r.val() == self.val() - rhs.val(),
    ;

    /// Whether `self` is at most `rhs`.
    fn at_most(self, rhs: Self) -> (b: bool)
        ensures
            b == (self.val() <= rhs.val()),
    ;
}

impl Group for i32 {
    open spec fn val(self) -> int {
        self as int
    }

    open spec fn fits(v: int) -> bool {
        i32::MIN <= v <= i32::MAX
    }

    proof fn lemma_fits_between(a: int, v: int, b: int) {
    }

    proof fn lemma_val_fits(self) {
    }

    proof fn lemma_zero_fits() {
    }

    fn zero() -> (z: Self) {
        0i32
    }

    fn plus(self, rhs: Self) -> (r: Self) {
        self + rhs
    }

    fn minus(self, rhs: Self) -> (r: Self) {
        self - rhs
    }

    fn at_most(self, rhs: Self) -> (b: bool) {
        self <= rhs
    }
}

impl Group for i64 {
    open spec fn val(self) -> int {
        self as int
    }

    open spec fn fits(v: int) -> bool {
        i64::MIN <= v <= i64::MAX
    }

    proof fn lemma_fits_between(a: int, v: int, b: int) {
    }

    proof fn lemma_val_fits(self) {
    }

    proof fn lemma_zero_fits() {
    }

    fn zero() -> (z: Self) {
        0i64
    }

    fn plus(self, rhs: Self) -> (r: Self) {
        self + rhs
    }

    fn minus(self, rhs: Self) -> (r: Self) {
        self - rhs
    }

    fn at_most(self, rhs: Self) -> (b: bool) {
        self <= rhs
    }
}

impl Group for u64 {
    open spec fn val(self) -> int {
        self as int
    }

    open spec fn fits(v: int) -> bool {
        0 <= v <= u64::MAX
    }

    proof fn lemma_fits_between(a: int, v: int, b: int) {
    }

    proof fn lemma_val_fits(self) {
    }

    proof fn lemma_zero_fits() {
    }

    fn zero() -> (z: Self) {
        0u64
    }

    fn plus(self, rhs: Self) -> (r: Self) {
        self + rhs
    }

    fn minus(self, rhs: Self) -> (r: Self) {
        self - rhs
    }

    fn at_most(self, rhs: Self) -> (b: bool) {
        self <= rhs
    }
}

/// The integers that the values of `s` stand for.
pub open spec fn vals<T: Group>(s: Seq<T>) -> Seq<int> {
    Seq::new(s.len(), |i: int| s[i].val())
}

/// Whether `n` is a power of two.
pub open spec fn is_pow2(n: nat) -> bool
    decreases n,
{
    n == 1 || (n >= 2 && n % 2 == 0 && is_pow2(n / 2))
}

/// Whether the bit mask `i` holds every bit of the bit mask `j`.
pub open spec fn is_superset(i: nat, j: nat) -> bool {
    (j as u64) & !(i as u64) == 0
}

/// The sum of the `x[i]` over the indices `i` that are supersets of `j`.
pub open spec fn superset_sum(x: Seq<int>, j: nat) -> int
    decreases x.len(),
{
    if x.len() == 0 {
        0
    } else {
        superset_sum(x.drop_last(), j) + if is_superset((x.len() - 1) as nat, j) {
            x.last()
        } else {
            0
        }
    }
}

/// The cumulative transform `T(x)`.
pub open spec fn transform(x: Seq<int>) -> Seq<int> {
    Seq::new(x.len(), |j: int| superset_sum(x, j as nat))
}

/// The element-wise sum of two vectors of one length.
pub open spec fn seq_add(a: Seq<int>, b: Seq<int>) -> Seq<int> {
    Seq::new(a.len(), |i: int| a[i] + b[i])
}

/// The element-wise difference of two vectors of one length.
pub open spec fn seq_sub(a: Seq<int>, b: Seq<int>) -> Seq<int> {
    Seq::new(a.len(), |i: int| a[i] - b[i])
}

/// The lower half of a vector.
pub open spec fn lower(x: Seq<int>) -> Seq<int> {
    x.subrange(0, x.len() as int / 2)
}

/// The upper half of a vector.
pub open spec fn upper(x: Seq<int>) -> Seq<int> {
    x.subrange(x.len() as int / 2, x.len() as int)
}

/// The inverse of the cumulative transform: the lower half of `y` less its upper half, and
/// the upper half, each inverted in turn.
pub open spec fn inverse(y: Seq<int>) -> Seq<int>
    decreases y.len(),
{
    if y.len() <= 1 {
        y
    } else {
        inverse(seq_sub(lower(y), upper(y))) + inverse(upper(y))
    }
}

/// The sum of the elements of `x` that are above zero.
pub open spec fn pos_sum(x: Seq<int>) -> int
    decreases x.len(),
{
    if x.len() == 0 {
        0
    } else {
        pos_sum(x.drop_last()) + if x.last() > 0 {
            x.last()
        } else {
            0
        }
    }
}

/// The sum of the elements of `x` that are below zero.
pub open spec fn neg_sum(x: Seq<int>) -> int
    decreases x.len(),
{
    if x.len() == 0 {
        0
    } else {
        neg_sum(x.drop_last()) + if x.last() < 0 {
            x.last()
        } else {
            0
        }
    }
}

/// The sum of the absolute values of the elements of `x`.
pub open spec fn abs_sum(x: Seq<int>) -> int {
    pos_sum(x) - neg_sum(x)
}

proof fn lemma_bit_clear_below(h: u64, k: u64)
    by (bit_vector)
    requires
        h & ((h - 1) as u64) == 0,
        0 < h,
        k < h,
    ensures
        k & h == 0,
{
}

proof fn lemma_bit_add_is_or(h: u64, k: u64)
    by (bit_vector)
    requires
        k & h == 0,
        k < 0x8000_0000_0000_0000u64,
        h < 0x8000_0000_0000_0000u64,
    ensures
        (k + h) as u64 == k | h,
{
}

proof fn lemma_bits_superset_or(h: u64, k: u64, j: u64)
    by (bit_vector)
    requires
        h != 0,
        k & h == 0,
        j & h == 0,
    ensures
        (j & !(k | h) == 0) <==> (j & !k == 0),
        ((j | h) & !(k | h) == 0) <==> (j & !k == 0),
        (j | h) & !k != 0,
{
}

proof fn lemma_bits_halves(h: u64, k: u64, j: u64)
    requires
        h & ((h - 1) as u64) == 0,
        0 < h < 0x8000_0000_0000_0000u64,
        k < h,
        j < h,
    ensures
        (j & !((k + h) as u64) == 0) <==> (j & !k == 0),
        (((j + h) as u64) & !((k + h) as u64) == 0) <==> (j & !k == 0),
        ((j + h) as u64) & !k != 0,
{
    lemma_bit_clear_below(h, k);
    lemma_bit_clear_below(h, j);
    lemma_bit_add_is_or(h, k);
    lemma_bit_add_is_or(h, j);
    lemma_bits_superset_or(h, k, j);
}

proof fn lemma_bits_double(m: u64)
    by (bit_vector)
    requires
        0 < m < 0x8000_0000_0000_0000u64,
        m & ((m - 1) as u64) == 0,
    ensures
        ((2 * m) as u64) & ((2 * m - 1) as u64) == 0,
{
}

/// A power of two has one bit.
pub proof fn lemma_pow2_one_bit(n: nat)
    requires
        is_pow2(n),
        n <= u64::MAX,
    ensures
        (n as u64) & ((n - 1) as u64) == 0,
    decreases n,
{
    if n == 1 {
        assert(1u64 & 0u64 == 0) by (bit_vector);
    } else {
        lemma_pow2_one_bit(n / 2);
        lemma_bits_double((n / 2) as u64);
    }
}

proof fn lemma_sum_concat(a: Seq<int>, b: Seq<int>)
    ensures
        pos_sum(a + b) == pos_sum(a) + pos_sum(b),
        neg_sum(a + b) == neg_sum(a) + neg_sum(b),
    decreases b.len(),
{
    if b.len() == 0 {
        assert(a + b =~= a);
    } else {
        assert((a + b).drop_last() =~= a + b.drop_last());
        lemma_sum_concat(a, b.drop_last());
    }
}

proof fn lemma_sum_signs(x: Seq<int>)
    ensures
        neg_sum(x) <= 0 <= pos_sum(x),
    decreases x.len(),
{
    if x.len() > 0 {
        lemma_sum_signs(x.drop_last());
    }
}

proof fn lemma_superset_sum_bounds(x: Seq<int>, j: nat)
    ensures
        neg_sum(x) <= superset_sum(x, j) <= pos_sum(x),
    decreases x.len(),
{
    if x.len() > 0 {
        lemma_superset_sum_bounds(x.drop_last(), j);
    }
}

proof fn lemma_superset_sum_far(lo: Seq<int>, h: nat, j: nat)
    requires
        is_pow2(h),
        lo.len() <= h,
        h <= j < 2 * h,
        2 * h <= u64::MAX,
    ensures
        superset_sum(lo, j) == 0,
    decreases lo.len(),
{
    if lo.len() > 0 {
        lemma_superset_sum_far(lo.drop_last(), h, j);
        lemma_pow2_one_bit(h);
        lemma_bits_halves(h as u64, (lo.len() - 1) as u64, (j - h) as u64);
    }
}

proof fn lemma_superset_sum_concat(lo: Seq<int>, hi: Seq<int>, j: nat)
    requires
        is_pow2(lo.len()),
        hi.len() <= lo.len(),
        j < 2 * lo.len(),
        2 * lo.len() <= u64::MAX,
    ensures
        j < lo.len() ==> superset_sum(lo + hi, j) == superset_sum(lo, j) + superset_sum(hi, j),
        j >= lo.len() ==> superset_sum(lo + hi, j) == superset_sum(hi, (j - lo.len()) as nat),
    decreases hi.len(),
{
    let h = lo.len();
    if hi.len() == 0 {
        assert(lo + hi =~= lo);
        if j >= h {
            lemma_superset_sum_far(lo, h, j);
        }
    } else {
        assert((lo + hi).drop_last() =~= lo + hi.drop_last());
        lemma_superset_sum_concat(lo, hi.drop_last(), j);
        lemma_pow2_one_bit(h);
        let k = (hi.len() - 1) as nat;
        if j < h {
            lemma_bits_halves(h as u64, k as u64, j as u64);
        } else {
            lemma_bits_halves(h as u64, k as u64, (j - h) as u64);
        }
    }
}

/// A vector of one element is its own transform.
pub proof fn lemma_transform_single(x: Seq<int>)
    requires
        x.len() == 1,
    ensures
        transform(x) == x,
{
    assert(is_superset(0, 0)) by {
        assert(0u64 & !0u64 == 0) by (bit_vector);
    }
    assert(x.drop_last().len() == 0);
    assert(superset_sum(x.drop_last(), 0) == 0);
    assert(superset_sum(x, 0) == x[0]);
    assert(transform(x) =~= x);
}

/// The transform of a vector from the transforms of its halves.
pub proof fn lemma_transform_halves(lo: Seq<int>, hi: Seq<int>)
    requires
        is_pow2(lo.len()),
        hi.len() == lo.len(),
        2 * lo.len() <= u64::MAX,
    ensures
        transform(lo + hi) == seq_add(transform(lo), transform(hi)) + transform(hi),
{
    let l = transform(lo + hi);
    let r = seq_add(transform(lo), transform(hi)) + transform(hi);
    assert forall|j: int| 0 <= j < l.len() implies l[j] == r[j] by {
        lemma_superset_sum_concat(lo, hi, j as nat);
    }
    assert(l =~= r);
}

proof fn lemma_vals_split<T: Group>(s: Seq<T>, mid: int)
    requires
        0 <= mid <= s.len(),
    ensures
        vals(s.subrange(0, mid)) == vals(s).subrange(0, mid),
        vals(s.subrange(mid, s.len() as int)) == vals(s).subrange(mid, s.len() as int),
        vals(s) == vals(s).subrange(0, mid) + vals(s).subrange(mid, s.len() as int),
{
    assert(vals(s.subrange(0, mid)) =~= vals(s).subrange(0, mid));
    assert(vals(s.subrange(mid, s.len() as int)) =~= vals(s).subrange(mid, s.len() as int));
    assert(vals(s) =~= vals(s).subrange(0, mid) + vals(s).subrange(mid, s.len() as int));
}

proof fn lemma_vals_concat<T: Group>(a: Seq<T>, b: Seq<T>)
    ensures
        vals(a + b) == vals(a) + vals(b),
{
    assert(vals(a + b) =~= vals(a) + vals(b));
}

/// The halves of a vector whose sums of signed parts the type holds are such vectors too.
proof fn lemma_halves_fit<T: Group>(x: Seq<int>)
    requires
        T::fits(pos_sum(x)),
        T::fits(neg_sum(x)),
    ensures
        T::fits(pos_sum(lower(x))),
        T::fits(neg_sum(lower(x))),
        T::fits(pos_sum(upper(x))),
        T::fits(neg_sum(upper(x))),
        pos_sum(x) == pos_sum(lower(x)) + pos_sum(upper(x)),
        neg_sum(x) == neg_sum(lower(x)) + neg_sum(upper(x)),
{
    assert(x =~= lower(x) + upper(x));
    lemma_sum_concat(lower(x), upper(x));
    lemma_sum_signs(lower(x));
    lemma_sum_signs(upper(x));
    T::lemma_zero_fits();
    T::lemma_fits_between(0, pos_sum(lower(x)), pos_sum(x));
    T::lemma_fits_between(0, pos_sum(upper(x)), pos_sum(x));
    T::lemma_fits_between(neg_sum(x), neg_sum(lower(x)), 0);
    T::lemma_fits_between(neg_sum(x), neg_sum(upper(x)), 0);
}

/// Adds `b` to `a`, element by element.
fn add_slices<T: Group>(a: &mut [T], b: &[T])
    requires
        old(a)@.len() == b@.len(),
        forall|i: int| 0 <= i < b@.len() ==> T::fits(#[trigger] old(a)@[i].val() + b@[i].val()),
    ensures
        vals(final(a)@) == seq_add(vals(old(a)@), vals(b@)),
{
    let n = a.len();
    let mut i: usize = 0;
    while i < n
        invariant
            i <= n,
            n == b@.len(),
            a@.len() == n,
            forall|k: int| 0 <= k < i ==> #[trigger] a@[k].val() == old(a)@[k].val() + b@[k].val(),
            forall|k: int| i <= k < n ==> a@[k] == old(a)@[k],
            forall|k: int| 0 <= k < n ==> T::fits(#[trigger] old(a)@[k].val() + b@[k].val()),
        decreases n - i,
    {
        let v = a[i].plus(b[i]);
        a[i] = v;
        i = i + 1;
    }
    assert(vals(a@) =~= seq_add(vals(old(a)@), vals(b@)));
}

/// Subtracts `b` from `a`, element by element.
fn sub_slices<T: Group>(a: &mut [T], b: &[T])
    requires
        old(a)@.len() == b@.len(),
        forall|i: int| 0 <= i < b@.len() ==> T::fits(#[trigger] old(a)@[i].val() - b@[i].val()),
    ensures
        vals(final(a)@) == seq_sub(vals(old(a)@), vals(b@)),
{
    let n = a.len();
    let mut i: usize = 0;
    while i < n
        invariant
            i <= n,
            n == b@.len(),
            a@.len() == n,
            forall|k: int| 0 <= k < i ==> #[trigger] a@[k].val() == old(a)@[k].val() - b@[k].val(),
            forall|k: int| i <= k < n ==> a@[k] == old(a)@[k],
            forall|k: int| 0 <= k < n ==> T::fits(#[trigger] old(a)@[k].val() - b@[k].val()),
        decreases n - i,
    {
        let v = a[i].minus(b[i]);
        a[i] = v;
        i = i + 1;
    }
    assert(vals(a@) =~= seq_sub(vals(old(a)@), vals(b@)));
}

/// Cumulative transform, by splitting the vector in halves.
pub fn cum_transform_rec<T: Group>(x: &mut [T])
    requires
        is_pow2(old(x)@.len()),
        T::fits(pos_sum(vals(old(x)@))),
        T::fits(neg_sum(vals(old(x)@))),
    ensures
        vals(final(x)@) == transform(vals(old(x)@)),
    decreases old(x)@.len(),
{
    let ghost orig = vals(x@);
    if x.len() != 1 {
        let half = x.len() / 2;
        proof {
            lemma_vals_split(x@, half as int);
            lemma_halves_fit::<T>(orig);
        }
        let (a, b) = x.split_at_mut(half);
        cum_transform_rec(a);
        cum_transform_rec(b);
        proof {
            lemma_transform_halves(lower(orig), upper(orig));
            assert(orig =~= lower(orig) + upper(orig));
            assert forall|i: int| 0 <= i < b@.len() implies T::fits(
                #[trigger] a@[i].val() + b@[i].val(),
            ) by {
                assert(vals(a@)[i] == a@[i].val());
                assert(vals(b@)[i] == b@[i].val());
                assert(transform(orig)[i] == a@[i].val() + b@[i].val());
                lemma_superset_sum_bounds(orig, i as nat);
                T::lemma_fits_between(neg_sum(orig), a@[i].val() + b@[i].val(), pos_sum(orig));
            }
        }
        add_slices(a, b);
        proof {
            lemma_vals_concat(a@, b@);
        }
    } else {
        proof {
            assert(is_superset(0, 0)) by {
                assert(0u64 & !0u64 == 0) by (bit_vector);
            }
            lemma_transform_single(orig);
            assert(vals(x@) =~= transform(orig));
        }
    }
}

/// The sum of the elements of `x`.
pub open spec fn total(x: Seq<int>) -> int {
    pos_sum(x) + neg_sum(x)
}

/// Element 0 of the transform is the sum of all elements.
pub proof fn lemma_transform_first(x: Seq<int>)
    requires
        x.len() > 0,
    ensures
        transform(x)[0] == total(x),
{
    lemma_superset_sum_zero(x);
}

proof fn lemma_superset_sum_zero(x: Seq<int>)
    ensures
        superset_sum(x, 0) == total(x),
    decreases x.len(),
{
    if x.len() > 0 {
        lemma_superset_sum_zero(x.drop_last());
        let i = ((x.len() - 1) as nat) as u64;
        assert(0u64 & !i == 0) by (bit_vector);
    }
}

proof fn lemma_superset_sum_nonneg(x: Seq<int>, j: nat)
    requires
        forall|i: int| 0 <= i < x.len() ==> x[i] >= 0,
    ensures
        superset_sum(x, j) >= 0,
        superset_sum(x, j) == 0 <==> forall|i: int|
            0 <= i < x.len() && is_superset(i as nat, j) ==> x[i] == 0,
    decreases x.len(),
{
    if x.len() > 0 {
        let d = x.drop_last();
        lemma_superset_sum_nonneg(d, j);
        if superset_sum(x, j) == 0 {
            assert forall|i: int| 0 <= i < x.len() && is_superset(i as nat, j) implies x[i]
                == 0 by {
                if i < d.len() {
                    assert(d[i] == x[i]);
                }
            }
        } else {
            if is_superset((x.len() - 1) as nat, j) && x.last() != 0 {
            } else {
                let i = choose|i: int| 0 <= i < d.len() && is_superset(i as nat, j) && d[i] != 0;
                assert(x[i] == d[i]);
            }
        }
    }
}

/// Where no element is negative, an element of the transform is zero exactly when every
/// element at a superset of its index is zero.
pub proof fn lemma_transform_zero(x: Seq<int>, j: nat)
    requires
        j < x.len(),
        forall|i: int| 0 <= i < x.len() ==> x[i] >= 0,
    ensures
        transform(x)[j as int] == 0 <==> forall|i: int|
            0 <= i < x.len() && is_superset(i as nat, j) ==> x[i] == 0,
{
    lemma_superset_sum_nonneg(x, j);
}

/// The inverse undoes the transform.
pub proof fn lemma_inverse_transform(x: Seq<int>)
    requires
        is_pow2(x.len()),
        x.len() <= u64::MAX,
    ensures
        inverse(transform(x)) == x,
    decreases x.len(),
{
    if x.len() == 1 {
        lemma_transform_single(x);
    } else {
        let lo = lower(x);
        let hi = upper(x);
        assert(x =~= lo + hi);
        lemma_transform_halves(lo, hi);
        let t = transform(x);
        assert(lower(t) =~= seq_add(transform(lo), transform(hi)));
        assert(upper(t) =~= transform(hi));
        assert(seq_sub(lower(t), upper(t)) =~= transform(lo));
        lemma_inverse_transform(lo);
        lemma_inverse_transform(hi);
    }
}

/// The transform undoes the inverse.
pub proof fn lemma_transform_inverse(y: Seq<int>)
    requires
        is_pow2(y.len()),
        y.len() <= u64::MAX,
    ensures
        transform(inverse(y)) == y,
        inverse(y).len() == y.len(),
    decreases y.len(),
{
    if y.len() == 1 {
        lemma_transform_single(y);
    } else {
        let lo = lower(y);
        let hi = upper(y);
        let d = seq_sub(lo, hi);
        lemma_transform_inverse(d);
        lemma_transform_inverse(hi);
        lemma_transform_halves(inverse(d), inverse(hi));
        assert(seq_add(d, hi) + hi =~= y);
    }
}

proof fn lemma_elem_bounds(x: Seq<int>, i: int)
    requires
        0 <= i < x.len(),
    ensures
        neg_sum(x) <= x[i] <= pos_sum(x),
        neg_sum(x) <= 0 <= pos_sum(x),
    decreases x.len(),
{
    lemma_sum_signs(x);
    lemma_sum_signs(x.drop_last());
    if i < x.len() - 1 {
        lemma_elem_bounds(x.drop_last(), i);
    }
}

proof fn lemma_abs_sum_sub(a: Seq<int>, b: Seq<int>)
    requires
        a.len() == b.len(),
    ensures
        abs_sum(seq_sub(a, b)) <= abs_sum(a) + abs_sum(b),
    decreases a.len(),
{
    if a.len() > 0 {
        assert(seq_sub(a, b).drop_last() =~= seq_sub(a.drop_last(), b.drop_last()));
        lemma_abs_sum_sub(a.drop_last(), b.drop_last());
    }
}

/// The halves of a vector, and their difference, have no larger a sum of absolute values.
proof fn lemma_halves_abs<T: Group>(x: Seq<int>)
    requires
        x.len() % 2 == 0,
        T::fits(abs_sum(x)),
        T::fits(-abs_sum(x)),
    ensures
        T::fits(abs_sum(upper(x))),
        T::fits(-abs_sum(upper(x))),
        T::fits(abs_sum(seq_sub(lower(x), upper(x)))),
        T::fits(-abs_sum(seq_sub(lower(x), upper(x)))),
        forall|i: int|
            0 <= i < lower(x).len() ==> T::fits(#[trigger] lower(x)[i] - upper(x)[i]),
{
    let lo = lower(x);
    let hi = upper(x);
    let d = seq_sub(lo, hi);
    assert(x =~= lo + hi);
    lemma_sum_concat(lo, hi);
    lemma_sum_signs(lo);
    lemma_sum_signs(hi);
    lemma_sum_signs(d);
    lemma_abs_sum_sub(lo, hi);
    T::lemma_fits_between(-abs_sum(x), abs_sum(hi), abs_sum(x));
    T::lemma_fits_between(-abs_sum(x), -abs_sum(hi), abs_sum(x));
    T::lemma_fits_between(-abs_sum(x), abs_sum(d), abs_sum(x));
    T::lemma_fits_between(-abs_sum(x), -abs_sum(d), abs_sum(x));
    assert forall|i: int| 0 <= i < lo.len() implies T::fits(#[trigger] lo[i] - hi[i]) by {
        lemma_elem_bounds(lo, i);
        lemma_elem_bounds(hi, i);
        T::lemma_fits_between(-abs_sum(x), lo[i] - hi[i], abs_sum(x));
    }
}

/// Inverse cumulative transform, by splitting the vector in halves.
pub fn cum_transform_inv_rec<T: Group>(x: &mut [T])
    requires
        is_pow2(old(x)@.len()),
        T::fits(abs_sum(vals(old(x)@))),
        T::fits(-abs_sum(vals(old(x)@))),
    ensures
        vals(final(x)@) == inverse(vals(old(x)@)),
    decreases old(x)@.len(),
{
    let ghost orig = vals(x@);
    if x.len() != 1 {
        let half = x.len() / 2;
        proof {
            lemma_vals_split(x@, half as int);
            lemma_halves_abs::<T>(orig);
        }
        let (a, b) = x.split_at_mut(half);
        proof {
            assert forall|i: int| 0 <= i < b@.len() implies T::fits(
                #[trigger] a@[i].val() - b@[i].val(),
            ) by {
                assert(lower(orig)[i] == a@[i].val());
                assert(upper(orig)[i] == b@[i].val());
            }
        }
        sub_slices(a, b);
        cum_transform_inv_rec(a);
        cum_transform_inv_rec(b);
        proof {
            lemma_vals_concat(a@, b@);
        }
    }
}

/// Copies a slice into a vector.
fn copy_slice<T: Group>(x: &[T]) -> (v: Vec<T>)
    ensures
        v@ == x@,
{
    let mut v: Vec<T> = Vec::new();
    let mut i: usize = 0;
    while i < x.len()
        invariant
            i <= x@.len(),
            v@ == x@.subrange(0, i as int),
        decreases x@.len() - i,
    {
        v.push(x[i]);
        i = i + 1;
        assert(v@ =~= x@.subrange(0, i as int));
    }
    assert(v@ =~= x@);
    v
}

/// Cumulative transform, each element summed from its definition.
pub fn cum_transform_naive<T: Group>(x: &mut [T])
    requires
        T::fits(pos_sum(vals(old(x)@))),
        T::fits(neg_sum(vals(old(x)@))),
    ensures
        vals(final(x)@) == transform(vals(old(x)@)),
{
    let src = copy_slice(x);
    let n = x.len();
    let ghost orig = vals(src@);
    let mut i: usize = 0;
    while i < n
        invariant
            i <= n,
            n == src@.len(),
            x@.len() == n,
            orig == vals(src@),
            T::fits(pos_sum(orig)),
            T::fits(neg_sum(orig)),
            forall|k: int| 0 <= k < i ==> #[trigger] x@[k].val() == superset_sum(orig, k as nat),
        decreases n - i,
    {
        let mut acc = T::zero();
        let mut ii: usize = 0;
        while ii < n
            invariant
                ii <= n,
                i < n,
                n == src@.len(),
                orig == vals(src@),
                T::fits(pos_sum(orig)),
                T::fits(neg_sum(orig)),
                acc.val() == superset_sum(orig.subrange(0, ii as int), i as nat),
            decreases n - ii,
        {
            proof {
                let pre = orig.subrange(0, ii as int);
                let nxt = orig.subrange(0, ii + 1);
                assert(nxt.drop_last() =~= pre);
                assert(nxt.last() == src@[ii as int].val());
                lemma_superset_sum_bounds(nxt, i as nat);
                assert(orig =~= nxt + orig.subrange(ii + 1, n as int));
                lemma_sum_concat(nxt, orig.subrange(ii + 1, n as int));
                lemma_sum_signs(orig.subrange(ii + 1, n as int));
                T::lemma_fits_between(
                    neg_sum(orig),
                    superset_sum(nxt, i as nat),
                    pos_sum(orig),
                );
            }
            if (i as u64) & !(ii as u64) == 0 {
                acc = acc.plus(src[ii]);
            }
            ii = ii + 1;
        }
        assert(orig.subrange(0, n as int) =~= orig);
        x[i] = acc;
        i = i + 1;
    }
    assert(vals(x@) =~= transform(orig));
}

/// Whether bit `b` (a power of two) is clear in the index `p`.
pub open spec fn bit_clear(p: nat, b: nat) -> bool {
    (p as u64) & (b as u64) == 0
}

/// One pass of the transform: within each block of `2 * b` elements, the upper half is added
/// to the lower half.
pub open spec fn stage_add(y: Seq<int>, b: nat) -> Seq<int> {
    Seq::new(
        y.len(),
        |p: int|
            if bit_clear(p as nat, b) {
                y[p] + y[p + b]
            } else {
                y[p]
            },
    )
}

/// One pass of the inverse: within each block of `2 * b` elements, the upper half is
/// subtracted from the lower half.
pub open spec fn stage_sub(y: Seq<int>, b: nat) -> Seq<int> {
    Seq::new(
        y.len(),
        |p: int|
            if bit_clear(p as nat, b) {
                y[p] - y[p + b]
            } else {
                y[p]
            },
    )
}

/// The vector in which each block of `b` elements of `x` is transformed by itself.
pub open spec fn block_transform(x: Seq<int>, b: nat) -> Seq<int>
    decreases x.len(),
{
    if x.len() <= b || x.len() <= 1 {
        transform(x)
    } else {
        block_transform(lower(x), b) + block_transform(upper(x), b)
    }
}

/// The vector after the passes of the inverse on blocks of `2 * b` elements and more.
pub open spec fn block_inverse(y: Seq<int>, b: nat) -> Seq<int>
    decreases y.len(),
{
    if y.len() < 2 * b || y.len() <= 1 {
        y
    } else {
        block_inverse(seq_sub(lower(y), upper(y)), b) + block_inverse(upper(y), b)
    }
}

proof fn lemma_bits_or_below(h: u64, p: u64, b: u64)
    by (bit_vector)
    requires
        h & ((h - 1) as u64) == 0,
        p < h,
        b < h,
    ensures
        (p | b) < h,
{
}

proof fn lemma_bits_or_mask(h: u64, q: u64, b: u64)
    by (bit_vector)
    requires
        h & b == 0,
    ensures
        ((h | q) & b == 0) <==> (q & b == 0),
{
}

proof fn lemma_bit_set_above(h: u64, q: u64)
    by (bit_vector)
    requires
        q & h == 0,
    ensures
        (q | h) & h == h,
{
}

/// Where bit `b` is clear in `p`, and both are below the power of two `h`, `p + b` is below it.
proof fn lemma_index_pair(h: nat, p: nat, b: nat)
    requires
        is_pow2(h),
        is_pow2(b),
        h <= u64::MAX,
        p < h,
        b < h,
        bit_clear(p, b),
    ensures
        p + b < h,
{
    lemma_pow2_one_bit(h);
    lemma_bits_or_below(h as u64, p as u64, b as u64);
    assert(h < 0x8000_0000_0000_0000u64 || h >= 0x8000_0000_0000_0000u64);
    if h >= 0x8000_0000_0000_0000u64 {
        lemma_pow2_top(h);
    }
    lemma_bit_add_is_or(b as u64, p as u64);
}

proof fn lemma_pow2_top(h: nat)
    requires
        is_pow2(h),
        0x8000_0000_0000_0000u64 <= h <= u64::MAX,
    ensures
        h == 0x8000_0000_0000_0000u64,
{
    lemma_pow2_one_bit(h);
    let v = h as u64;
    assert(v & ((v - 1) as u64) == 0 && v >= 0x8000_0000_0000_0000u64 ==> v
        == 0x8000_0000_0000_0000u64) by (bit_vector);
}

/// Of two powers of two, the smaller is at most half the larger.
proof fn lemma_pow2_gap(a: nat, n: nat)
    requires
        is_pow2(a),
        is_pow2(n),
        a < n,
    ensures
        2 * a <= n,
    decreases n,
{
    if a > 1 {
        lemma_pow2_gap(a / 2, n / 2);
    }
}

/// Bit `b` of an index in the upper half of a vector of `2 * h` elements is that of the index
/// less `h`, where `b < h`; bit `h` tells the halves apart.
proof fn lemma_index_halves(h: nat, q: nat, b: nat)
    requires
        is_pow2(h),
        is_pow2(b),
        2 * h <= u64::MAX,
        q < h,
        b <= h,
    ensures
        b < h ==> (bit_clear(h + q, b) <==> bit_clear(q, b)),
        bit_clear(q, h),
        !bit_clear(h + q, h),
{
    lemma_pow2_one_bit(h);
    lemma_pow2_one_bit(b);
    let hh = h as u64;
    let qq = q as u64;
    let bb = b as u64;
    lemma_bit_clear_below(hh, qq);
    lemma_bit_add_is_or(hh, qq);
    lemma_bit_set_above(hh, qq);
    assert((hh | qq) == (qq | hh)) by (bit_vector);
    if b < h {
        lemma_bit_clear_below(hh, bb);
        assert(hh & bb == bb & hh) by (bit_vector);
        lemma_bits_or_mask(hh, qq, bb);
    }
}

proof fn lemma_stage_add_concat(a: Seq<int>, c: Seq<int>, b: nat)
    requires
        is_pow2(a.len()),
        c.len() == a.len(),
        is_pow2(b),
        b < a.len(),
        2 * a.len() <= u64::MAX,
    ensures
        stage_add(a + c, b) == stage_add(a, b) + stage_add(c, b),
{
    let h = a.len();
    let l = stage_add(a + c, b);
    let r = stage_add(a, b) + stage_add(c, b);
    assert forall|p: int| 0 <= p < l.len() implies l[p] == r[p] by {
        if p < h {
            if bit_clear(p as nat, b) {
                lemma_index_pair(h, p as nat, b);
            }
        } else {
            let q = (p - h) as nat;
            lemma_index_halves(h, q, b);
            if bit_clear(q, b) {
                lemma_index_pair(h, q, b);
            }
        }
    }
    assert(l =~= r);
}

proof fn lemma_stage_sub_concat(a: Seq<int>, c: Seq<int>, b: nat)
    requires
        is_pow2(a.len()),
        c.len() == a.len(),
        is_pow2(b),
        b < a.len(),
        2 * a.len() <= u64::MAX,
    ensures
        stage_sub(a + c, b) == stage_sub(a, b) + stage_sub(c, b),
{
    let h = a.len();
    let l = stage_sub(a + c, b);
    let r = stage_sub(a, b) + stage_sub(c, b);
    assert forall|p: int| 0 <= p < l.len() implies l[p] == r[p] by {
        if p < h {
            if bit_clear(p as nat, b) {
                lemma_index_pair(h, p as nat, b);
            }
        } else {
            let q = (p - h) as nat;
            lemma_index_halves(h, q, b);
            if bit_clear(q, b) {
                lemma_index_pair(h, q, b);
            }
        }
    }
    assert(l =~= r);
}

proof fn lemma_halves_pow2(x: Seq<int>)
    requires
        is_pow2(x.len()),
        x.len() > 1,
    ensures
        is_pow2(lower(x).len()),
        lower(x).len() == upper(x).len(),
        lower(x).len() * 2 == x.len(),
        x == lower(x) + upper(x),
{
    assert(x =~= lower(x) + upper(x));
}

proof fn lemma_block_transform_len(x: Seq<int>, b: nat)
    requires
        is_pow2(x.len()),
    ensures
        block_transform(x, b).len() == x.len(),
    decreases x.len(),
{
    if !(x.len() <= b || x.len() <= 1) {
        lemma_halves_pow2(x);
        lemma_block_transform_len(lower(x), b);
        lemma_block_transform_len(upper(x), b);
    }
}

proof fn lemma_block_transform_one(x: Seq<int>)
    requires
        is_pow2(x.len()),
    ensures
        block_transform(x, 1) == x,
    decreases x.len(),
{
    if x.len() <= 1 {
        lemma_transform_single(x);
    } else {
        lemma_halves_pow2(x);
        lemma_block_transform_one(lower(x));
        lemma_block_transform_one(upper(x));
    }
}

/// A pass on blocks of `2 * b` elements takes the transforms of the blocks of `b` elements to
/// those of the blocks of `2 * b` elements.
proof fn lemma_block_transform_step(x: Seq<int>, b: nat)
    requires
        is_pow2(x.len()),
        is_pow2(b),
        b < x.len(),
        x.len() <= u64::MAX,
    ensures
        stage_add(block_transform(x, b), b) == block_transform(x, 2 * b),
    decreases x.len(),
{
    lemma_halves_pow2(x);
    let lo = lower(x);
    let hi = upper(x);
    let h = lo.len();
    lemma_pow2_gap(b, x.len());
    lemma_block_transform_len(lo, b);
    lemma_block_transform_len(hi, b);
    if b == h {
        lemma_transform_halves(lo, hi);
        let y = transform(lo) + transform(hi);
        let l = stage_add(y, b);
        let r = transform(x);
        assert forall|p: int| 0 <= p < l.len() implies l[p] == r[p] by {
            if p < h {
                lemma_index_halves(h, p as nat, h);
            } else {
                lemma_index_halves(h, (p - h) as nat, h);
            }
        }
        assert(l =~= r);
    } else {
        lemma_pow2_gap(b, h);
        lemma_stage_add_concat(block_transform(lo, b), block_transform(hi, b), b);
        lemma_block_transform_step(lo, b);
        lemma_block_transform_step(hi, b);
    }
}

proof fn lemma_block_transform_bounds(x: Seq<int>, b: nat, i: int)
    requires
        is_pow2(x.len()),
        0 <= i < x.len(),
    ensures
        block_transform(x, b).len() == x.len(),
        neg_sum(x) <= block_transform(x, b)[i] <= pos_sum(x),
    decreases x.len(),
{
    lemma_block_transform_len(x, b);
    if x.len() <= b || x.len() <= 1 {
        lemma_superset_sum_bounds(x, i as nat);
    } else {
        lemma_halves_pow2(x);
        let lo = lower(x);
        let hi = upper(x);
        lemma_block_transform_len(lo, b);
        lemma_block_transform_len(hi, b);
        lemma_sum_concat(lo, hi);
        lemma_sum_signs(lo);
        lemma_sum_signs(hi);
        if i < lo.len() {
            lemma_block_transform_bounds(lo, b, i);
        } else {
            lemma_block_transform_bounds(hi, b, i - lo.len());
        }
    }
}

/// Cumulative transform.
pub fn cum_transform<T: Group>(x: &mut [T])
    requires
        is_pow2(old(x)@.len()),
        T::fits(pos_sum(vals(old(x)@))),
        T::fits(neg_sum(vals(old(x)@))),
    ensures
        vals(final(x)@) == transform(vals(old(x)@)),
{
    let n = x.len();
    let ghost orig = vals(x@);
    let mut half_block_size: usize = 1;
    proof {
        lemma_block_transform_one(orig);
    }
    while half_block_size <= n / 2
        invariant
            x@.len() == n,
            orig.len() == n,
            is_pow2(n as nat),
            is_pow2(half_block_size as nat),
            half_block_size <= n,
            T::fits(pos_sum(orig)),
            T::fits(neg_sum(orig)),
            vals(x@) == block_transform(orig, half_block_size as nat),
        decreases n - half_block_size,
    {
        let ghost cur = vals(x@);
        let b = half_block_size;
        proof {
            lemma_block_transform_step(orig, b as nat);
        }
        let mut p: usize = 0;
        while p < n
            invariant
                p <= n,
                x@.len() == n,
                cur.len() == n,
                orig.len() == n,
                is_pow2(n as nat),
                is_pow2(b as nat),
                b < n,
                T::fits(pos_sum(orig)),
                T::fits(neg_sum(orig)),
                stage_add(cur, b as nat) == block_transform(orig, 2 * b as nat),
                forall|k: int| 0 <= k < p ==> #[trigger] x@[k].val() == stage_add(cur, b as nat)[k],
                forall|k: int| p <= k < n ==> #[trigger] x@[k].val() == cur[k],
            decreases n - p,
        {
            if (p as u64) & (b as u64) == 0 {
                proof {
                    lemma_index_pair(n as nat, p as nat, b as nat);
                    lemma_block_transform_bounds(orig, 2 * b as nat, p as int);
                    assert(stage_add(cur, b as nat)[p as int] == cur[p as int] + cur[p + b]);
                    T::lemma_fits_between(
                        neg_sum(orig),
                        cur[p as int] + cur[p + b],
                        pos_sum(orig),
                    );
                }
                let v = x[p].plus(x[p + b]);
                x[p] = v;
            }
            p = p + 1;
        }
        proof {
            assert(vals(x@) =~= stage_add(cur, b as nat));
            lemma_pow2_gap(b as nat, n as nat);
        }
        half_block_size = half_block_size * 2;
    }
    proof {
        if half_block_size < n {
            lemma_pow2_gap(half_block_size as nat, n as nat);
        }
    }
}

proof fn lemma_block_inverse_len(y: Seq<int>, b: nat)
    requires
        is_pow2(y.len()),
    ensures
        block_inverse(y, b).len() == y.len(),
    decreases y.len(),
{
    if !(y.len() < 2 * b || y.len() <= 1) {
        lemma_halves_pow2(y);
        lemma_block_inverse_len(seq_sub(lower(y), upper(y)), b);
        lemma_block_inverse_len(upper(y), b);
    }
}

proof fn lemma_block_inverse_all(y: Seq<int>)
    requires
        is_pow2(y.len()),
    ensures
        block_inverse(y, 1) == inverse(y),
    decreases y.len(),
{
    if y.len() > 1 {
        lemma_halves_pow2(y);
        lemma_block_inverse_all(seq_sub(lower(y), upper(y)));
        lemma_block_inverse_all(upper(y));
    }
}

/// A pass of the inverse on blocks of `2 * b` elements follows those on larger blocks.
proof fn lemma_block_inverse_step(y: Seq<int>, b: nat)
    requires
        is_pow2(y.len()),
        is_pow2(b),
        b < y.len(),
        y.len() <= u64::MAX,
    ensures
        stage_sub(block_inverse(y, 2 * b), b) == block_inverse(y, b),
    decreases y.len(),
{
    lemma_halves_pow2(y);
    let lo = lower(y);
    let hi = upper(y);
    let d = seq_sub(lo, hi);
    let h = lo.len();
    lemma_pow2_gap(b, y.len());
    if b == h {
        let l = stage_sub(y, b);
        let r = d + hi;
        assert forall|p: int| 0 <= p < l.len() implies l[p] == r[p] by {
            if p < h {
                lemma_index_halves(h, p as nat, h);
            } else {
                lemma_index_halves(h, (p - h) as nat, h);
            }
        }
        assert(l =~= r);
        assert(block_inverse(y, 2 * b) == y);
        assert(block_inverse(d, b) == d);
        assert(block_inverse(hi, b) == hi);
        assert(block_inverse(y, b) == d + hi);
    } else {
        lemma_pow2_gap(b, h);
        lemma_block_inverse_len(d, 2 * b);
        lemma_block_inverse_len(hi, 2 * b);
        lemma_stage_sub_concat(block_inverse(d, 2 * b), block_inverse(hi, 2 * b), b);
        lemma_block_inverse_step(d, b);
        lemma_block_inverse_step(hi, b);
        assert(block_inverse(y, 2 * b) == block_inverse(d, 2 * b) + block_inverse(hi, 2 * b));
        assert(block_inverse(y, b) == block_inverse(d, b) + block_inverse(hi, b));
    }
}

proof fn lemma_block_inverse_bounds(y: Seq<int>, b: nat, i: int)
    requires
        is_pow2(y.len()),
        0 <= i < y.len(),
    ensures
        block_inverse(y, b).len() == y.len(),
        -abs_sum(y) <= block_inverse(y, b)[i] <= abs_sum(y),
    decreases y.len(),
{
    lemma_block_inverse_len(y, b);
    if y.len() < 2 * b || y.len() <= 1 {
        lemma_elem_bounds(y, i);
    } else {
        lemma_halves_pow2(y);
        let lo = lower(y);
        let hi = upper(y);
        let d = seq_sub(lo, hi);
        lemma_block_inverse_len(d, b);
        lemma_block_inverse_len(hi, b);
        lemma_sum_concat(lo, hi);
        lemma_sum_signs(lo);
        lemma_sum_signs(hi);
        lemma_abs_sum_sub(lo, hi);
        if i < lo.len() {
            lemma_block_inverse_bounds(d, b, i);
        } else {
            lemma_block_inverse_bounds(hi, b, i - lo.len());
        }
    }
}

/// Inverse cumulative transform.
pub fn cum_transform_inv<T: Group>(x: &mut [T])
    requires
        is_pow2(old(x)@.len()),
        T::fits(abs_sum(vals(old(x)@))),
        T::fits(-abs_sum(vals(old(x)@))),
    ensures
        vals(final(x)@) == inverse(vals(old(x)@)),
{
    let n = x.len();
    let ghost orig = vals(x@);
    let mut half_block_size: usize = n / 2;
    proof {
        lemma_block_inverse_all(orig);
        if n > 1 {
            lemma_halves_pow2(orig);
        }
    }
    while half_block_size >= 1
        invariant
            x@.len() == n,
            orig.len() == n,
            is_pow2(n as nat),
            half_block_size < n,
            half_block_size >= 1 ==> is_pow2(half_block_size as nat),
            half_block_size == 0 ==> vals(x@) == block_inverse(orig, 1),
            T::fits(abs_sum(orig)),
            T::fits(-abs_sum(orig)),
            half_block_size >= 1 ==> vals(x@) == block_inverse(orig, 2 * half_block_size as nat),
        decreases half_block_size,
    {
        let ghost cur = vals(x@);
        let b = half_block_size;
        proof {
            lemma_block_inverse_step(orig, b as nat);
        }
        let mut p: usize = 0;
        while p < n
            invariant
                p <= n,
                x@.len() == n,
                cur.len() == n,
                orig.len() == n,
                is_pow2(n as nat),
                is_pow2(b as nat),
                b < n,
                T::fits(abs_sum(orig)),
                T::fits(-abs_sum(orig)),
                stage_sub(cur, b as nat) == block_inverse(orig, b as nat),
                forall|k: int| 0 <= k < p ==> #[trigger] x@[k].val() == stage_sub(cur, b as nat)[k],
                forall|k: int| p <= k < n ==> #[trigger] x@[k].val() == cur[k],
            decreases n - p,
        {
            if (p as u64) & (b as u64) == 0 {
                proof {
                    lemma_index_pair(n as nat, p as nat, b as nat);
                    lemma_block_inverse_bounds(orig, b as nat, p as int);
                    assert(stage_sub(cur, b as nat)[p as int] == cur[p as int] - cur[p + b]);
                    T::lemma_fits_between(
                        -abs_sum(orig),
                        cur[p as int] - cur[p + b],
                        abs_sum(orig),
                    );
                }
                let v = x[p].minus(x[p + b]);
                x[p] = v;
            }
            p = p + 1;
        }
        proof {
            assert(vals(x@) =~= stage_sub(cur, b as nat));
        }
        half_block_size = half_block_size / 2;
    }
}

/// The vector `x` with zero in place of its negative elements.
pub open spec fn clamp0(x: Seq<int>) -> Seq<int> {
    Seq::new(
        x.len(),
        |i: int|
            if x[i] > 0 {
                x[i]
            } else {
                0
            },
    )
}

/// The element-wise minimum of two vectors of one length.
pub open spec fn seq_min(a: Seq<int>, b: Seq<int>) -> Seq<int> {
    Seq::new(
        a.len(),
        |i: int|
            if a[i] <= b[i] {
                a[i]
            } else {
                b[i]
            },
    )
}

/// Whether no element of `x` is negative.
pub open spec fn nonneg(x: Seq<int>) -> bool {
    forall|i: int| 0 <= i < x.len() ==> x[i] >= 0
}

/// Whether `a[i] <= b[i]` at every index.
pub open spec fn seq_le(a: Seq<int>, b: Seq<int>) -> bool {
    a.len() == b.len() && forall|i: int| 0 <= i < a.len() ==> a[i] <= b[i]
}

/// The positive inverse of `y`: the positive inverse `x2` of the upper half, then that of the
/// lower half less `T(x2)`, with zero in place of what is negative; of one element, the
/// element, or zero where it is negative.
pub open spec fn positive_inverse(y: Seq<int>) -> Seq<int>
    decreases y.len(),
{
    if y.len() <= 1 {
        clamp0(y)
    } else {
        let zh = positive_inverse(upper(y));
        let zl = positive_inverse(clamp0(seq_sub(lower(y), transform(zh))));
        zl + zh
    }
}

/// The minimum positive inverse of `y`: the minimum positive inverse `x2` of the upper half
/// held down to the lower half, then that of the lower half less `T(x2)`.
pub open spec fn min_positive_inverse(y: Seq<int>) -> Seq<int>
    decreases y.len(),
{
    if y.len() <= 1 {
        y
    } else {
        let zh = min_positive_inverse(seq_min(upper(y), lower(y)));
        let zl = min_positive_inverse(seq_sub(lower(y), transform(zh)));
        zl + zh
    }
}

proof fn lemma_nonneg_sums(x: Seq<int>)
    requires
        nonneg(x),
    ensures
        neg_sum(x) == 0,
        pos_sum(x) == total(x),
        pos_sum(x) >= 0,
    decreases x.len(),
{
    if x.len() > 0 {
        assert(x.last() == x[x.len() - 1]);
        lemma_nonneg_sums(x.drop_last());
    }
}

proof fn lemma_pos_sum_clamp_sub(a: Seq<int>, t: Seq<int>)
    requires
        a.len() == t.len(),
        nonneg(t),
    ensures
        pos_sum(clamp0(seq_sub(a, t))) <= pos_sum(a),
    decreases a.len(),
{
    if a.len() > 0 {
        assert(t.drop_last().len() == a.len() - 1);
        assert(clamp0(seq_sub(a, t)).drop_last() =~= clamp0(
            seq_sub(a.drop_last(), t.drop_last()),
        ));
        assert(t.last() == t[t.len() - 1]);
        lemma_pos_sum_clamp_sub(a.drop_last(), t.drop_last());
    }
}

/// The positive inverse has no negative element, no larger a sum than the vector has above
/// zero, and a transform that is nowhere below the vector.
pub proof fn lemma_positive_inverse(y: Seq<int>)
    requires
        is_pow2(y.len()),
        y.len() <= u64::MAX,
    ensures
        positive_inverse(y).len() == y.len(),
        nonneg(positive_inverse(y)),
        pos_sum(positive_inverse(y)) <= pos_sum(y),
        nonneg(transform(positive_inverse(y))),
        seq_le(y, transform(positive_inverse(y))),
        forall|j: int| 0 <= j < y.len() ==> transform(positive_inverse(y))[j] <= pos_sum(y),
    decreases y.len(),
{
    let z = positive_inverse(y);
    if y.len() == 1 {
        lemma_transform_single(z);
        lemma_sum_signs(y.drop_last());
        assert(y.last() == y[0]);
        assert(z.last() == z[0]);
        assert(pos_sum(z.drop_last()) == 0);
        assert(pos_sum(z) == z[0]);
    } else {
        lemma_halves_pow2(y);
        let lo = lower(y);
        let hi = upper(y);
        lemma_positive_inverse(hi);
        let zh = positive_inverse(hi);
        let t = transform(zh);
        let yl = clamp0(seq_sub(lo, t));
        lemma_positive_inverse(yl);
        let zl = positive_inverse(yl);
        lemma_pos_sum_clamp_sub(lo, t);
        lemma_sum_concat(lo, hi);
        lemma_sum_concat(zl, zh);
        lemma_transform_halves(zl, zh);
        lemma_sum_signs(lo);
        lemma_sum_signs(hi);
        let tz = transform(z);
        assert forall|j: int| 0 <= j < y.len() implies 0 <= #[trigger] tz[j] && y[j] <= tz[j]
            && tz[j] <= pos_sum(y) by {
            if j < lo.len() {
                assert(tz[j] == transform(zl)[j] + t[j]);
                assert(yl[j] >= lo[j] - t[j]);
                assert(y[j] == lo[j]);
            } else {
                assert(tz[j] == t[j - lo.len()]);
                assert(y[j] == hi[j - lo.len()]);
            }
        }
    }
}

/// The minimum positive inverse of a vector without negative elements has no negative
/// element, and a transform between zero and the vector.
pub proof fn lemma_min_positive_inverse(y: Seq<int>)
    requires
        is_pow2(y.len()),
        y.len() <= u64::MAX,
        nonneg(y),
    ensures
        min_positive_inverse(y).len() == y.len(),
        nonneg(min_positive_inverse(y)),
        nonneg(transform(min_positive_inverse(y))),
        seq_le(transform(min_positive_inverse(y)), y),
    decreases y.len(),
{
    let z = min_positive_inverse(y);
    if y.len() == 1 {
        lemma_transform_single(y);
    } else {
        lemma_halves_pow2(y);
        let lo = lower(y);
        let hi = upper(y);
        let yh = seq_min(hi, lo);
        assert forall|i: int| 0 <= i < yh.len() implies yh[i] >= 0 by {
            assert(lo[i] == y[i]);
            assert(hi[i] == y[i + lo.len()]);
        }
        lemma_min_positive_inverse(yh);
        let zh = min_positive_inverse(yh);
        let t = transform(zh);
        let yl = seq_sub(lo, t);
        assert forall|i: int| 0 <= i < yl.len() implies yl[i] >= 0 by {
            assert(t[i] <= yh[i]);
        }
        lemma_min_positive_inverse(yl);
        let zl = min_positive_inverse(yl);
        lemma_transform_halves(zl, zh);
        let tz = transform(z);
        assert forall|j: int| 0 <= j < y.len() implies 0 <= #[trigger] tz[j] && tz[j] <= y[j] by {
            if j < lo.len() {
                assert(tz[j] == transform(zl)[j] + t[j]);
                assert(transform(zl)[j] <= yl[j]);
                assert(y[j] == lo[j]);
            } else {
                assert(tz[j] == t[j - lo.len()]);
                assert(t[j - lo.len()] <= yh[j - lo.len()]);
                assert(y[j] == hi[j - lo.len()]);
            }
        }
    }
}

/// Sets each `a[i]` to `a[i] - b[i]`, or to zero where that is negative.
fn clamp_sub_slices<T: Group>(a: &mut [T], b: &[T])
    requires
        old(a)@.len() == b@.len(),
        forall|i: int| 0 <= i < b@.len() ==> T::fits(#[trigger] old(a)@[i].val() - b@[i].val()),
    ensures
        vals(final(a)@) == clamp0(seq_sub(vals(old(a)@), vals(b@))),
{
    let n = a.len();
    let mut i: usize = 0;
    while i < n
        invariant
            i <= n,
            n == b@.len(),
            a@.len() == n,
            old(a)@.len() == n,
            forall|k: int|
                0 <= k < i ==> #[trigger] a@[k].val() == clamp0(
                    seq_sub(vals(old(a)@), vals(b@)),
                )[k],
            forall|k: int| i <= k < n ==> a@[k] == old(a)@[k],
            forall|k: int| 0 <= k < n ==> T::fits(#[trigger] old(a)@[k].val() - b@[k].val()),
        decreases n - i,
    {
        let d = a[i].minus(b[i]);
        let z = T::zero();
        if d.at_most(z) {
            a[i] = z;
        } else {
            a[i] = d;
        }
        i = i + 1;
    }
    assert(vals(a@) =~= clamp0(seq_sub(vals(old(a)@), vals(b@))));
}

/// Sets each `a[i]` to the smaller of `a[i]` and `b[i]`.
fn min_slices<T: Group>(a: &mut [T], b: &[T])
    requires
        old(a)@.len() == b@.len(),
    ensures
        vals(final(a)@) == seq_min(vals(old(a)@), vals(b@)),
{
    let n = a.len();
    let mut i: usize = 0;
    while i < n
        invariant
            i <= n,
            n == b@.len(),
            a@.len() == n,
            old(a)@.len() == n,
            forall|k: int|
                0 <= k < i ==> #[trigger] a@[k].val() == seq_min(vals(old(a)@), vals(b@))[k],
            forall|k: int| i <= k < n ==> a@[k] == old(a)@[k],
        decreases n - i,
    {
        if !a[i].at_most(b[i]) {
            a[i] = b[i];
        }
        i = i + 1;
    }
    assert(vals(a@) =~= seq_min(vals(old(a)@), vals(b@)));
}

/// What the positive inverse needs of the halves of its argument.
proof fn lemma_positive_halves<T: Group>(y: Seq<int>)
    requires
        is_pow2(y.len()),
        1 < y.len() <= u64::MAX,
        T::fits(abs_sum(y)),
        T::fits(-abs_sum(y)),
    ensures
        T::fits(abs_sum(upper(y))),
        T::fits(-abs_sum(upper(y))),
        ({
            let t = transform(positive_inverse(upper(y)));
            let yl = clamp0(seq_sub(lower(y), t));
            &&& t.len() == lower(y).len()
            &&& positive_inverse(upper(y)).len() == lower(y).len()
            &&& positive_inverse(yl).len() == lower(y).len()
            &&& is_pow2(lower(y).len())
            &&& forall|i: int| 0 <= i < t.len() ==> T::fits(#[trigger] lower(y)[i] - t[i])
            &&& T::fits(abs_sum(yl))
            &&& T::fits(-abs_sum(yl))
            &&& T::fits(pos_sum(positive_inverse(upper(y))))
            &&& T::fits(neg_sum(positive_inverse(upper(y))))
            &&& forall|i: int|
                0 <= i < t.len() ==> T::fits(
                    #[trigger] transform(positive_inverse(yl))[i] + t[i],
                )
        }),
{
    lemma_halves_pow2(y);
    let lo = lower(y);
    let hi = upper(y);
    lemma_sum_concat(lo, hi);
    lemma_sum_signs(lo);
    lemma_sum_signs(hi);
    lemma_sum_signs(y);
    T::lemma_fits_between(-abs_sum(y), abs_sum(hi), abs_sum(y));
    T::lemma_fits_between(-abs_sum(y), -abs_sum(hi), abs_sum(y));
    lemma_positive_inverse(hi);
    let zh = positive_inverse(hi);
    let t = transform(zh);
    let yl = clamp0(seq_sub(lo, t));
    lemma_pos_sum_clamp_sub(lo, t);
    lemma_nonneg_sums(yl);
    lemma_nonneg_sums(zh);
    T::lemma_zero_fits();
    T::lemma_fits_between(-abs_sum(y), abs_sum(yl), abs_sum(y));
    T::lemma_fits_between(-abs_sum(y), -abs_sum(yl), abs_sum(y));
    T::lemma_fits_between(-abs_sum(y), pos_sum(zh), abs_sum(y));
    assert forall|i: int| 0 <= i < t.len() implies T::fits(#[trigger] lo[i] - t[i]) by {
        lemma_elem_bounds(lo, i);
        T::lemma_fits_between(-abs_sum(y), lo[i] - t[i], abs_sum(y));
    }
    lemma_positive_inverse(yl);
    lemma_positive_inverse(y);
    let zl = positive_inverse(yl);
    lemma_transform_halves(zl, zh);
    assert forall|i: int| 0 <= i < t.len() implies T::fits(
        #[trigger] transform(zl)[i] + t[i],
    ) by {
        assert(transform(positive_inverse(y))[i] == transform(zl)[i] + t[i]);
        T::lemma_fits_between(-abs_sum(y), transform(zl)[i] + t[i], abs_sum(y));
    }
}

/// Inverse positive cumulative transform, by splitting the vector in halves.
pub fn cum_transform_inv_rec_positive<T: Group>(x: &mut [T])
    requires
        is_pow2(old(x)@.len()),
        T::fits(abs_sum(vals(old(x)@))),
        T::fits(-abs_sum(vals(old(x)@))),
    ensures
        vals(final(x)@) == positive_inverse(vals(old(x)@)),
    decreases old(x)@.len(),
{
    let ghost orig = vals(x@);
    if x.len() != 1 {
        let half = x.len() / 2;
        proof {
            lemma_vals_split(x@, half as int);
            lemma_positive_halves::<T>(orig);
        }
        let (a, b) = x.split_at_mut(half);
        cum_transform_inv_rec_positive(b);
        let mut yp = copy_slice(b);
        cum_transform_rec(yp.as_mut_slice());
        proof {
            assert forall|i: int| 0 <= i < yp@.len() implies T::fits(
                #[trigger] a@[i].val() - yp@[i].val(),
            ) by {
                assert(lower(orig)[i] == a@[i].val());
                assert(vals(yp@)[i] == yp@[i].val());
            }
        }
        clamp_sub_slices(a, yp.as_slice());
        cum_transform_inv_rec_positive(a);
        proof {
            lemma_vals_concat(a@, b@);
        }
    } else {
        if x[0].at_most(T::zero()) {
            x[0] = T::zero();
        }
        assert(vals(x@) =~= clamp0(orig));
    }
}

/// Writes the positive inverse of `x` to `x`, and the transform of that to `xr`.
fn cum_transform_inv_positive_inner<T: Group>(x: &mut [T], xr: &mut [T])
    requires
        old(xr)@.len() == old(x)@.len(),
        is_pow2(old(x)@.len()),
        T::fits(abs_sum(vals(old(x)@))),
        T::fits(-abs_sum(vals(old(x)@))),
    ensures
        vals(final(x)@) == positive_inverse(vals(old(x)@)),
        vals(final(xr)@) == transform(positive_inverse(vals(old(x)@))),
    decreases old(x)@.len(),
{
    let ghost orig = vals(x@);
    if x.len() == 1 {
        if x[0].at_most(T::zero()) {
            x[0] = T::zero();
        }
        xr[0] = x[0];
        proof {
            assert(vals(x@) =~= clamp0(orig));
            lemma_transform_single(clamp0(orig));
            assert(vals(xr@) =~= clamp0(orig));
        }
    } else {
        let half = x.len() / 2;
        proof {
            lemma_vals_split(x@, half as int);
            lemma_positive_halves::<T>(orig);
        }
        let (a, b) = x.split_at_mut(half);
        let (ar, br) = xr.split_at_mut(half);
        cum_transform_inv_positive_inner(b, br);
        proof {
            assert forall|i: int| 0 <= i < br@.len() implies T::fits(
                #[trigger] a@[i].val() - br@[i].val(),
            ) by {
                assert(lower(orig)[i] == a@[i].val());
                assert(vals(br@)[i] == br@[i].val());
            }
        }
        let ghost t = vals(br@);
        clamp_sub_slices(a, br);
        let ghost yl = vals(a@);
        cum_transform_inv_positive_inner(a, ar);
        proof {
            assert(t == transform(positive_inverse(upper(orig))));
            assert(yl == clamp0(seq_sub(lower(orig), t)));
            assert(vals(ar@) == transform(positive_inverse(yl)));
            assert(vals(ar@).len() == half);
            assert(vals(a@).len() == half);
            assert forall|i: int| 0 <= i < br@.len() implies T::fits(
                #[trigger] ar@[i].val() + br@[i].val(),
            ) by {
                assert(vals(ar@)[i] == ar@[i].val());
                assert(vals(br@)[i] == br@[i].val());
            }
            lemma_transform_halves(vals(a@), vals(b@));
        }
        add_slices(ar, br);
        proof {
            lemma_vals_concat(a@, b@);
            lemma_vals_concat(ar@, br@);
        }
    }
}

/// A vector of `n` zeros.
fn zeros<T: Group>(n: usize) -> (v: Vec<T>)
    ensures
        v@.len() == n,
{
    let mut v: Vec<T> = Vec::new();
    let mut i: usize = 0;
    while i < n
        invariant
            i <= n,
            v@.len() == i,
        decreases n - i,
    {
        v.push(T::zero());
        i = i + 1;
    }
    v
}

/// Inverse positive cumulative transform.
pub fn cum_transform_inv_positive<T: Group>(x: &mut [T])
    requires
        is_pow2(old(x)@.len()),
        T::fits(abs_sum(vals(old(x)@))),
        T::fits(-abs_sum(vals(old(x)@))),
    ensures
        vals(final(x)@) == positive_inverse(vals(old(x)@)),
{
    let mut xr = zeros::<T>(x.len());
    cum_transform_inv_positive_inner(x, xr.as_mut_slice());
}

/// What the minimum positive inverse needs of the halves of its argument.
proof fn lemma_min_positive_halves<T: Group>(y: Seq<int>)
    requires
        is_pow2(y.len()),
        1 < y.len() <= u64::MAX,
        nonneg(y),
        forall|i: int| 0 <= i < y.len() ==> T::fits(#[trigger] y[i]),
    ensures
        nonneg(seq_min(upper(y), lower(y))),
        is_pow2(lower(y).len()),
        ({
            let zh = min_positive_inverse(seq_min(upper(y), lower(y)));
            let t = transform(zh);
            let yl = seq_sub(lower(y), t);
            &&& zh.len() == lower(y).len()
            &&& t.len() == lower(y).len()
            &&& min_positive_inverse(yl).len() == lower(y).len()
            &&& forall|i: int| 0 <= i < t.len() ==> T::fits(#[trigger] lower(y)[i] - t[i])
            &&& seq_le(t, lower(y))
            &&& nonneg(yl)
            &&& clamp0(yl) == yl
            &&& T::fits(pos_sum(zh))
            &&& T::fits(neg_sum(zh))
            &&& forall|i: int|
                0 <= i < t.len() ==> T::fits(
                    #[trigger] transform(min_positive_inverse(yl))[i] + t[i],
                )
        }),
{
    lemma_halves_pow2(y);
    let lo = lower(y);
    let hi = upper(y);
    let yh = seq_min(hi, lo);
    assert forall|i: int| 0 <= i < yh.len() implies yh[i] >= 0 by {
        assert(lo[i] == y[i]);
        assert(hi[i] == y[i + lo.len()]);
    }
    lemma_min_positive_inverse(yh);
    let zh = min_positive_inverse(yh);
    let t = transform(zh);
    let yl = seq_sub(lo, t);
    T::lemma_zero_fits();
    assert forall|i: int| 0 <= i < t.len() implies 0 <= #[trigger] yl[i] && T::fits(
        lo[i] - t[i],
    ) by {
        assert(t[i] <= yh[i]);
        assert(lo[i] == y[i]);
        T::lemma_fits_between(0, lo[i] - t[i], lo[i]);
    }
    assert(clamp0(yl) =~= yl);
    assert forall|i: int| 0 <= i < t.len() implies t[i] <= lo[i] by {
        assert(t[i] <= yh[i]);
    }
    assert(nonneg(yl));
    assert forall|i: int| 0 <= i < t.len() implies T::fits(#[trigger] lo[i] - t[i]) by {
        assert(yl[i] >= 0);
        assert(lo[i] == y[i]);
        T::lemma_fits_between(0, lo[i] - t[i], lo[i]);
    }
    lemma_min_positive_inverse(yl);
    lemma_nonneg_sums(zh);
    lemma_transform_first(zh);
    assert(t[0] <= yh[0]);
    assert(lo[0] == y[0]);
    T::lemma_fits_between(0, pos_sum(zh), lo[0]);
    let zl = min_positive_inverse(yl);
    assert forall|i: int| 0 <= i < t.len() implies T::fits(
        #[trigger] transform(zl)[i] + t[i],
    ) by {
        assert(transform(zl)[i] <= yl[i]);
        assert(lo[i] == y[i]);
        T::lemma_fits_between(0, transform(zl)[i] + t[i], lo[i]);
    }
}

proof fn lemma_vals_fit<T: Group>(s: Seq<T>)
    ensures
        forall|i: int| 0 <= i < s.len() ==> T::fits(#[trigger] vals(s)[i]),
{
    assert forall|i: int| 0 <= i < s.len() implies T::fits(#[trigger] vals(s)[i]) by {
        s[i].lemma_val_fits();
    }
}

/// Inverse minimum positive cumulative transform, by splitting the vector in halves.
pub fn cum_transform_inv_min_rec_positive<T: Group>(x: &mut [T])
    requires
        is_pow2(old(x)@.len()),
        nonneg(vals(old(x)@)),
    ensures
        vals(final(x)@) == min_positive_inverse(vals(old(x)@)),
    decreases old(x)@.len(),
{
    let ghost orig = vals(x@);
    if x.len() != 1 {
        let half = x.len() / 2;
        proof {
            lemma_vals_split(x@, half as int);
            lemma_vals_fit(x@);
            lemma_min_positive_halves::<T>(orig);
        }
        let (a, b) = x.split_at_mut(half);
        min_slices(b, a);
        cum_transform_inv_min_rec_positive(b);
        let mut yp = copy_slice(b);
        cum_transform_rec(yp.as_mut_slice());
        proof {
            assert forall|i: int| 0 <= i < yp@.len() implies T::fits(
                #[trigger] a@[i].val() - yp@[i].val(),
            ) by {
                assert(lower(orig)[i] == a@[i].val());
                assert(vals(yp@)[i] == yp@[i].val());
            }
        }
        sub_slices(a, yp.as_slice());
        cum_transform_inv_min_rec_positive(a);
        proof {
            lemma_vals_concat(a@, b@);
        }
    }
}

/// Writes the minimum positive inverse of `x` to `x`, and the transform of that to `xr`.
fn cum_transform_inv_min_positive_inner<T: Group>(x: &mut [T], xr: &mut [T])
    requires
        old(xr)@.len() == old(x)@.len(),
        is_pow2(old(x)@.len()),
        nonneg(vals(old(x)@)),
    ensures
        vals(final(x)@) == min_positive_inverse(vals(old(x)@)),
        vals(final(xr)@) == transform(min_positive_inverse(vals(old(x)@))),
    decreases old(x)@.len(),
{
    let ghost orig = vals(x@);
    if x.len() == 1 {
        xr[0] = x[0];
        proof {
            lemma_transform_single(orig);
            assert(vals(xr@) =~= orig);
        }
    } else {
        let half = x.len() / 2;
        proof {
            lemma_vals_split(x@, half as int);
            lemma_vals_fit(x@);
            lemma_min_positive_halves::<T>(orig);
        }
        let (a, b) = x.split_at_mut(half);
        let (ar, br) = xr.split_at_mut(half);
        min_slices(b, a);
        cum_transform_inv_min_positive_inner(b, br);
        let ghost t = vals(br@);
        proof {
            assert forall|i: int| 0 <= i < br@.len() implies T::fits(
                #[trigger] a@[i].val() - br@[i].val(),
            ) by {
                assert(lower(orig)[i] == a@[i].val());
                assert(vals(br@)[i] == br@[i].val());
            }
        }
        clamp_sub_slices(a, br);
        let ghost yl = vals(a@);
        cum_transform_inv_min_positive_inner(a, ar);
        proof {
            assert(t == transform(min_positive_inverse(seq_min(upper(orig), lower(orig)))));
            assert(yl == seq_sub(lower(orig), t));
            assert(vals(ar@) == transform(min_positive_inverse(yl)));
            assert(vals(ar@).len() == half);
            assert(vals(a@).len() == half);
            assert forall|i: int| 0 <= i < br@.len() implies T::fits(
                #[trigger] ar@[i].val() + br@[i].val(),
            ) by {
                assert(vals(ar@)[i] == ar@[i].val());
                assert(vals(br@)[i] == br@[i].val());
            }
            lemma_transform_halves(vals(a@), vals(b@));
        }
        add_slices(ar, br);
        proof {
            lemma_vals_concat(a@, b@);
            lemma_vals_concat(ar@, br@);
        }
    }
}

/// Inverse minimum positive cumulative transform.
pub fn cum_transform_inv_min_positive<T: Group>(x: &mut [T])
    requires
        is_pow2(old(x)@.len()),
        nonneg(vals(old(x)@)),
    ensures
        vals(final(x)@) == min_positive_inverse(vals(old(x)@)),
{
    let mut xr = zeros::<T>(x.len());
    cum_transform_inv_min_positive_inner(x, xr.as_mut_slice());
}

/// Whether `a` is `b`, or is above `b` at the highest index at which they differ.
pub open spec fn highest_ge(a: Seq<int>, b: Seq<int>) -> bool {
    a == b || exists|i: int|
        0 <= i < a.len() && #[trigger] b[i] < a[i] && forall|j: int|
            i < j < a.len() ==> a[j] == b[j]
}

proof fn lemma_highest_ge_concat(al: Seq<int>, ah: Seq<int>, bl: Seq<int>, bh: Seq<int>)
    requires
        al.len() == bl.len(),
        ah.len() == bh.len(),
        highest_ge(ah, bh),
        ah == bh ==> highest_ge(al, bl),
    ensures
        highest_ge(al + ah, bl + bh),
{
    let a = al + ah;
    let b = bl + bh;
    if ah == bh {
        if al == bl {
            assert(a =~= b);
        } else {
            let i = choose|i: int|
                0 <= i < al.len() && #[trigger] bl[i] < al[i] && forall|j: int|
                    i < j < al.len() ==> al[j] == bl[j];
            assert(b[i] < a[i]);
            assert forall|j: int| i < j < a.len() implies a[j] == b[j] by {
                if j < al.len() {
                    assert(al[j] == bl[j]);
                }
            }
        }
    } else {
        let i = choose|i: int|
            0 <= i < ah.len() && #[trigger] bh[i] < ah[i] && forall|j: int|
                i < j < ah.len() ==> ah[j] == bh[j];
        let k = al.len() + i;
        assert(b[k] < a[k]);
        assert forall|j: int| k < j < a.len() implies a[j] == b[j] by {
            assert(ah[j - al.len()] == bh[j - al.len()]);
        }
    }
}

/// The positive inverse is the least vector without negative elements whose transform is
/// nowhere below `y`, highest index first: any other such vector is above it at the highest
/// index at which they differ.
pub proof fn lemma_positive_inverse_least(y: Seq<int>, x: Seq<int>)
    requires
        is_pow2(y.len()),
        y.len() <= u64::MAX,
        x.len() == y.len(),
        nonneg(x),
        seq_le(y, transform(x)),
    ensures
        highest_ge(x, positive_inverse(y)),
    decreases y.len(),
{
    let z = positive_inverse(y);
    if y.len() == 1 {
        lemma_transform_single(x);
        assert(y[0] <= transform(x)[0]);
        assert(z.len() == 1);
        assert(z[0] == if y[0] > 0 {
            y[0]
        } else {
            0
        });
        assert(x[0] >= 0);
        if x[0] == z[0] {
            assert(x =~= z);
        } else {
            assert(z[0] < x[0]);
        }
    } else {
        lemma_halves_pow2(y);
        lemma_halves_pow2(x);
        let yl = lower(y);
        let yh = upper(y);
        let xl = lower(x);
        let xh = upper(x);
        lemma_transform_halves(xl, xh);
        let tx = transform(x);
        assert forall|j: int| 0 <= j < yh.len() implies yh[j] <= transform(xh)[j] by {
            assert(y[j + yl.len()] <= tx[j + yl.len()]);
        }
        lemma_positive_inverse_least(yh, xh);
        let zh = positive_inverse(yh);
        let t = transform(zh);
        let yl2 = clamp0(seq_sub(yl, t));
        lemma_positive_inverse(yh);
        lemma_positive_inverse(yl2);
        if xh == zh {
            assert forall|j: int| 0 <= j < yl2.len() implies yl2[j] <= transform(xl)[j] by {
                assert(y[j] <= tx[j]);
                assert(tx[j] == transform(xl)[j] + transform(xh)[j]);
                lemma_superset_sum_nonneg(xl, j as nat);
            }
            lemma_positive_inverse_least(yl2, xl);
        }
        lemma_highest_ge_concat(xl, xh, positive_inverse(yl2), zh);
    }
}

/// The minimum positive inverse is the greatest vector without negative elements whose
/// transform is nowhere above `y`, highest index first: it is above any other such vector at
/// the highest index at which they differ.
pub proof fn lemma_min_positive_inverse_greatest(y: Seq<int>, x: Seq<int>)
    requires
        is_pow2(y.len()),
        y.len() <= u64::MAX,
        nonneg(y),
        x.len() == y.len(),
        nonneg(x),
        seq_le(transform(x), y),
    ensures
        highest_ge(min_positive_inverse(y), x),
    decreases y.len(),
{
    let z = min_positive_inverse(y);
    if y.len() == 1 {
        lemma_transform_single(x);
        assert(transform(x)[0] <= y[0]);
        if x[0] == y[0] {
            assert(x =~= z);
        } else {
            assert(x[0] < z[0]);
        }
    } else {
        lemma_halves_pow2(y);
        lemma_halves_pow2(x);
        let yl = lower(y);
        let yh = upper(y);
        let xl = lower(x);
        let xh = upper(x);
        lemma_transform_halves(xl, xh);
        let tx = transform(x);
        let yh2 = seq_min(yh, yl);
        assert forall|j: int| 0 <= j < yh2.len() implies 0 <= yh2[j] && transform(xh)[j]
            <= yh2[j] by {
            assert(tx[j + yl.len()] <= y[j + yl.len()]);
            assert(tx[j] <= y[j]);
            assert(tx[j] == transform(xl)[j] + transform(xh)[j]);
            lemma_superset_sum_nonneg(xl, j as nat);
            assert(yl[j] == y[j]);
            assert(yh[j] == y[j + yl.len()]);
        }
        lemma_min_positive_inverse_greatest(yh2, xh);
        let zh = min_positive_inverse(yh2);
        let t = transform(zh);
        let yl2 = seq_sub(yl, t);
        lemma_min_positive_inverse(yh2);
        if xh == zh {
            assert forall|j: int| 0 <= j < yl2.len() implies 0 <= yl2[j] && transform(xl)[j]
                <= yl2[j] by {
                assert(tx[j] <= y[j]);
                assert(tx[j] == transform(xl)[j] + transform(xh)[j]);
                assert(t[j] <= yh2[j]);
                assert(yl[j] == y[j]);
            }
            lemma_min_positive_inverse(yl2);
            lemma_min_positive_inverse_greatest(yl2, xl);
        } else {
            assert forall|j: int| 0 <= j < yl2.len() implies 0 <= yl2[j] by {
                assert(t[j] <= yh2[j]);
            }
            lemma_min_positive_inverse(yl2);
        }
        lemma_highest_ge_concat(min_positive_inverse(yl2), zh, xl, xh);
    }
}

} // verus!
