//! Combinations of weighted elements, and counts of selections from a multiset.
use std::ops::Range;
use vstd::prelude::*;

verus! {

/// The number of ways to choose `k` of `n` things.
pub open spec fn binomial(n: nat, k: nat) -> nat
    decreases n,
{
    if k == 0 {
        1
    } else if n == 0 {
        0
    } else {
        binomial((n - 1) as nat, (k - 1) as nat) + binomial((n - 1) as nat, k)
    }
}

/// `v`, or the largest `u64` where `v` is above it.
pub open spec fn saturate(v: nat) -> u64 {
    if v >= u64::MAX {
        u64::MAX
    } else {
        v as u64
    }
}

/// The number of ways to select `i` items in all from the elements of a multiset, at least one
/// of each: element `j` occurs `use_counts[j]` times, and its occurrences are told apart.
pub open spec fn selections(use_counts: Seq<usize>, i: nat) -> nat
    decreases use_counts.len(), 0nat,
{
    if use_counts.len() == 0 {
        if i == 0 {
            1
        } else {
            0
        }
    } else {
        selections_of_last(
            use_counts.drop_last(),
            use_counts.last() as nat,
            i,
            use_counts.last() as nat,
        )
    }
}

/// The number of ways to select `i` items in all, between 1 and `m` of them among the `u`
/// occurrences of one element and at least one of each element of `rest`.
pub open spec fn selections_of_last(rest: Seq<usize>, u: nat, i: nat, m: nat) -> nat
    decreases rest.len(), m + 1,
{
    if m == 0 {
        0
    } else {
        selections_of_last(rest, u, i, (m - 1) as nat) + if m <= i {
            binomial(u, m) * selections(rest, (i - m) as nat)
        } else {
            0
        }
    }
}

proof fn lemma_saturate_mul(a: nat, b: nat)
    ensures
        saturate((saturate(a) as nat) * (saturate(b) as nat)) == saturate(a * b),
{
    let sa = saturate(a) as nat;
    let sb = saturate(b) as nat;
    if a >= u64::MAX && b >= 1 {
        assert(a * b >= u64::MAX) by (nonlinear_arith)
            requires
                a >= u64::MAX,
                b >= 1,
        ;
        assert(sa * sb >= u64::MAX) by (nonlinear_arith)
            requires
                sa >= u64::MAX,
                sb >= 1,
        ;
    } else if b >= u64::MAX && a >= 1 {
        assert(a * b >= u64::MAX) by (nonlinear_arith)
            requires
                b >= u64::MAX,
                a >= 1,
        ;
        assert(sa * sb >= u64::MAX) by (nonlinear_arith)
            requires
                sb >= u64::MAX,
                sa >= 1,
        ;
    } else if a == 0 || b == 0 {
        assert(a * b == 0) by (nonlinear_arith)
            requires
                a == 0 || b == 0,
        ;
        assert(sa * sb == 0) by (nonlinear_arith)
            requires
                sa == 0 || sb == 0,
        ;
    }
}

/// The product of two counts, or the largest `u64` where it is above that.
fn saturating_product(a: u64, b: u64) -> (r: u64)
    ensures
        r == saturate((a as nat) * (b as nat)),
{
    match a.checked_mul(b) {
        Some(v) => v,
        None => u64::MAX,
    }
}

/// A vector of `n` zeros.
pub(crate) fn zero_counts(n: usize) -> (v: Vec<u64>)
    ensures
        v@.len() == n,
        forall|i: int| 0 <= i < n ==> v@[i] == 0,
{
    let mut v: Vec<u64> = Vec::new();
    let mut i: usize = 0;
    while i < n
        invariant
            i <= n,
            v@.len() == i,
            forall|k: int| 0 <= k < i ==> v@[k] == 0,
        decreases n - i,
    {
        v.push(0);
        i = i + 1;
    }
    v
}

/// The first `len` binomial coefficients of `n`, each held down to the largest `u64`.
pub(crate) fn binomial_row(n: usize, len: usize) -> (row: Vec<u64>)
    ensures
        row@.len() == len,
        forall|k: int| 0 <= k < len ==> row@[k] == saturate(binomial(n as nat, k as nat)),
{
    let mut row = zero_counts(len);
    if len == 0 {
        return row;
    }
    row[0] = 1;
    let mut r: usize = 0;
    while r < n
        invariant
            r <= n,
            len > 0,
            row@.len() == len,
            forall|k: int| 0 <= k < len ==> row@[k] == saturate(binomial(r as nat, k as nat)),
        decreases n - r,
    {
        let mut k: usize = len - 1;
        while k > 0
            invariant
                k < len,
                row@.len() == len,
                forall|j: int| 0 <= j <= k ==> row@[j] == saturate(binomial(r as nat, j as nat)),
                forall|j: int|
                    k < j < len ==> row@[j] == saturate(binomial((r + 1) as nat, j as nat)),
            decreases k,
        {
            let v = row[k].saturating_add(row[k - 1]);
            row[k] = v;
            k = k - 1;
        }
        r = r + 1;
    }
    row
}

/// From some count of the last element on, no further way of selecting `i` items is added.
proof fn lemma_selections_of_last_beyond(rest: Seq<usize>, u: nat, i: nat, m: nat)
    requires
        m >= i,
    ensures
        selections_of_last(rest, u, i, m) == selections_of_last(rest, u, i, i),
    decreases m,
{
    if m > i {
        lemma_selections_of_last_beyond(rest, u, i, (m - 1) as nat);
    }
}

proof fn lemma_selections_of_last_zero(rest: Seq<usize>, u: nat, i: nat, m: nat)
    requires
        forall|x: nat| selections(rest, x) == 0,
    ensures
        selections_of_last(rest, u, i, m) == 0,
    decreases m,
{
    if m > 0 {
        lemma_selections_of_last_zero(rest, u, i, (m - 1) as nat);
        if m <= i {
            assert(binomial(u, m) * selections(rest, (i - m) as nat) == 0) by (nonlinear_arith)
                requires
                    selections(rest, (i - m) as nat) == 0,
            ;
        }
    }
}

/// Where an element occurs no times, nothing can be selected.
pub proof fn lemma_selections_zero_count(use_counts: Seq<usize>, j: int, i: nat)
    requires
        0 <= j < use_counts.len(),
        use_counts[j] == 0,
    ensures
        selections(use_counts, i) == 0,
    decreases use_counts.len(),
{
    if j < use_counts.len() - 1 {
        let rest = use_counts.drop_last();
        assert forall|x: nat| selections(rest, x) == 0 by {
            lemma_selections_zero_count(rest, j, x);
        }
        lemma_selections_of_last_zero(rest, use_counts.last() as nat, i, use_counts.last() as nat);
    }
}

/// The vector `res` with `res[i - start]`, for each `i` in the range, the number of ways to
/// select `i` items in all from the elements of a multiset, at least one of each: element `j`
/// occurs `use_counts[j]` times. A count above the largest `u64` is given as that.
pub fn count_selections(range_selected: Range<usize>, use_counts: &[usize]) -> (res: Vec<u64>)
    ensures
        range_selected.start <= range_selected.end ==> res@.len() == range_selected.end
            - range_selected.start,
        range_selected.start > range_selected.end ==> res@.len() == 0,
        forall|i: int|
            0 <= i < res@.len() ==> res@[i] == saturate(
                selections(use_counts@, (range_selected.start + i) as nat),
            ),
{
    let start = range_selected.start;
    let end = range_selected.end;
    if start >= end {
        return Vec::new();
    }
    let mut scratch_space = zero_counts(end);
    scratch_space[0] = 1;
    let n = use_counts.len();
    let mut j: usize = 0;
    while j < n
        invariant
            j <= n,
            n == use_counts@.len(),
            start < end,
            start == range_selected.start,
            end == range_selected.end,
            scratch_space@.len() == end,
            forall|x: int|
                0 <= x < end ==> scratch_space@[x] == saturate(
                    selections(use_counts@.subrange(0, j as int), x as nat),
                ),
        decreases n - j,
    {
        let count = use_counts[j];
        let ghost rest = use_counts@.subrange(0, j as int);
        let ghost upto = use_counts@.subrange(0, j + 1);
        proof {
            assert(upto.drop_last() =~= rest);
            assert(upto.last() == count);
        }
        if count == 0 {
            let res = zero_counts(end - start);
            proof {
                assert forall|i: int| 0 <= i < res@.len() implies res@[i] == saturate(
                    selections(use_counts@, (start + i) as nat),
                ) by {
                    lemma_selections_zero_count(use_counts@, j as int, (start + i) as nat);
                }
            }
            return res;
        }
        let max_taken = if count < end - 1 {
            count
        } else {
            end - 1
        };
        let row = binomial_row(count, max_taken + 1);
        let mut tmp_scratch_space = zero_counts(end);
        let mut m: usize = 1;
        while m <= max_taken
            invariant
                1 <= m <= max_taken + 1,
                max_taken <= count,
                max_taken < end,
                scratch_space@.len() == end,
                tmp_scratch_space@.len() == end,
                row@.len() == max_taken + 1,
                forall|k: int|
                    0 <= k <= max_taken ==> row@[k] == saturate(binomial(count as nat, k as nat)),
                forall|x: int|
                    0 <= x < end ==> scratch_space@[x] == saturate(selections(rest, x as nat)),
                forall|x: int|
                    0 <= x < end ==> tmp_scratch_space@[x] == saturate(
                        selections_of_last(rest, count as nat, x as nat, (m - 1) as nat),
                    ),
            decreases max_taken + 1 - m,
        {
            let alpha = row[m];
            let mut x: usize = m;
            while x < end
                invariant
                    1 <= m <= x <= end,
                    m <= max_taken,
                    scratch_space@.len() == end,
                    tmp_scratch_space@.len() == end,
                    alpha == saturate(binomial(count as nat, m as nat)),
                    forall|y: int|
                        0 <= y < end ==> scratch_space@[y] == saturate(
                            selections(rest, y as nat),
                        ),
                    forall|y: int|
                        0 <= y < x ==> tmp_scratch_space@[y] == saturate(
                            selections_of_last(rest, count as nat, y as nat, m as nat),
                        ),
                    forall|y: int|
                        x <= y < end ==> tmp_scratch_space@[y] == saturate(
                            selections_of_last(rest, count as nat, y as nat, (m - 1) as nat),
                        ),
                decreases end - x,
            {
                proof {
                    lemma_saturate_mul(
                        binomial(count as nat, m as nat),
                        selections(rest, (x - m) as nat),
                    );
                }
                let term = saturating_product(alpha, scratch_space[x - m]);
                let v = tmp_scratch_space[x].saturating_add(term);
                tmp_scratch_space[x] = v;
                x = x + 1;
            }
            m = m + 1;
        }
        proof {
            assert forall|x: int| 0 <= x < end implies tmp_scratch_space@[x] == saturate(
                selections(upto, x as nat),
            ) by {
                if max_taken != count {
                    lemma_selections_of_last_beyond(
                        rest,
                        count as nat,
                        x as nat,
                        max_taken as nat,
                    );
                    lemma_selections_of_last_beyond(rest, count as nat, x as nat, count as nat);
                }
            }
        }
        scratch_space = tmp_scratch_space;
        j = j + 1;
    }
    assert(use_counts@.subrange(0, n as int) =~= use_counts@);
    let mut res: Vec<u64> = Vec::new();
    let mut i: usize = start;
    while i < end
        invariant
            start <= i <= end,
            scratch_space@.len() == end,
            res@.len() == i - start,
            forall|k: int| 0 <= k < res@.len() ==> res@[k] == scratch_space@[start + k],
        decreases end - i,
    {
        res.push(scratch_space[i]);
        i = i + 1;
    }
    res
}

/// Whether the weights are in decreasing order.
pub open spec fn sorted_desc(w: Seq<u32>) -> bool {
    forall|i: int, j: int| 0 <= i <= j < w.len() ==> w[i] >= w[j]
}

/// Whether `c` lists elements of `{0, .., n - 1}` in increasing order, each once.
pub open spec fn is_combination(c: Seq<usize>, n: nat) -> bool {
    &&& forall|i: int| 0 <= i < c.len() ==> c[i] < n
    &&& forall|i: int, j: int| 0 <= i < j < c.len() ==> c[i] < c[j]
}

/// The sum of the weights of the elements that `c` lists.
pub open spec fn weight_sum(w: Seq<u32>, c: Seq<usize>) -> int
    decreases c.len(),
{
    if c.len() == 0 {
        0
    } else {
        weight_sum(w, c.drop_last()) + w[c.last() as int]
    }
}

/// Whether `c` is a combination of `k` elements whose weights sum to `min_weight` at least.
pub open spec fn admissible(w: Seq<u32>, k: nat, min_weight: u32, c: Seq<usize>) -> bool {
    c.len() == k && is_combination(c, w.len()) && weight_sum(w, c) >= min_weight
}

/// Whether `a` comes before `b` in lexicographic order, both of one length.
pub open spec fn lex_lt(a: Seq<usize>, b: Seq<usize>) -> bool {
    a.len() == b.len() && exists|p: int|
        0 <= p < a.len() && a[p] < b[p] && forall|q: int| 0 <= q < p ==> a[q] == b[q]
}

/// The combination `0, 1, .., k - 1`.
pub open spec fn start_combination(k: nat) -> Seq<usize> {
    Seq::new(k, |i: int| i as usize)
}

/// The combination `c` with the element at `p` moved up by one and those behind it set next
/// to it.
pub open spec fn advanced(c: Seq<usize>, p: int) -> Seq<usize> {
    Seq::new(
        c.len(),
        |q: int|
            if q < p {
                c[q]
            } else {
                (c[p] + 1 + (q - p)) as usize
            },
    )
}

/// Whether `advanced(c, p)` is within the `w.len()` elements.
pub open spec fn fits_advanced(w: Seq<u32>, c: Seq<usize>, p: int) -> bool {
    c[p] + (c.len() - p) < w.len()
}

/// Whether `advanced(c, p)` is within the elements and weighs `min_weight` at least.
pub open spec fn can_advance(w: Seq<u32>, min_weight: u32, c: Seq<usize>, p: int) -> bool {
    fits_advanced(w, c, p) && weight_sum(w, advanced(c, p)) >= min_weight
}

proof fn lemma_weight_dominated(w: Seq<u32>, a: Seq<usize>, b: Seq<usize>)
    requires
        sorted_desc(w),
        a.len() == b.len(),
        forall|q: int| 0 <= q < a.len() ==> #[trigger] a[q] <= b[q] && b[q] < w.len(),
    ensures
        weight_sum(w, b) <= weight_sum(w, a),
    decreases a.len(),
{
    if a.len() > 0 {
        assert(a.last() == a[a.len() - 1]);
        assert(b.last() == b[b.len() - 1]);
        lemma_weight_dominated(w, a.drop_last(), b.drop_last());
    }
}

proof fn lemma_combination_gap(d: Seq<usize>, n: nat, p: int, q: int)
    requires
        is_combination(d, n),
        0 <= p <= q < d.len(),
    ensures
        d[q] >= d[p] + (q - p),
    decreases q - p,
{
    if p < q {
        lemma_combination_gap(d, n, p, q - 1);
    }
}

proof fn lemma_first_difference(a: Seq<usize>, b: Seq<usize>, i: int)
    requires
        a.len() == b.len(),
        0 <= i <= a.len(),
        forall|q: int| 0 <= q < i ==> a[q] == b[q],
        forall|q: int| 0 <= q < a.len() ==> a[q] <= b[q],
    ensures
        a == b || lex_lt(a, b),
    decreases a.len() - i,
{
    if i == a.len() {
        assert(a =~= b);
    } else if a[i] < b[i] {
    } else {
        lemma_first_difference(a, b, i + 1);
    }
}

proof fn lemma_advanced_is_combination(w: Seq<u32>, c: Seq<usize>, p: int)
    requires
        is_combination(c, w.len()),
        0 <= p < c.len(),
        fits_advanced(w, c, p),
        w.len() <= usize::MAX,
    ensures
        is_combination(advanced(c, p), w.len()),
        lex_lt(c, advanced(c, p)),
{
    let a = advanced(c, p);
    assert(a[p] == c[p] + 1);
}

/// A combination that comes after `c` and weighs enough shows a place where `c` can advance.
proof fn lemma_successor(w: Seq<u32>, min_weight: u32, c: Seq<usize>, d: Seq<usize>) -> (p: int)
    requires
        sorted_desc(w),
        is_combination(c, w.len()),
        is_combination(d, w.len()),
        weight_sum(w, d) >= min_weight,
        lex_lt(c, d),
    ensures
        0 <= p < c.len(),
        can_advance(w, min_weight, c, p),
        c[p] < d[p],
        forall|q: int| 0 <= q < p ==> c[q] == d[q],
        advanced(c, p) == d || lex_lt(advanced(c, p), d),
{
    let p = choose|p: int|
        0 <= p < c.len() && c[p] < d[p] && forall|q: int| 0 <= q < p ==> c[q] == d[q];
    let k = c.len() as int;
    let a = advanced(c, p);
    lemma_combination_gap(d, w.len(), p, k - 1);
    assert forall|q: int| 0 <= q < k implies #[trigger] a[q] <= d[q] && d[q] < w.len() by {
        if q >= p {
            lemma_combination_gap(d, w.len(), p, q);
        }
    }
    lemma_weight_dominated(w, a, d);
    lemma_first_difference(a, d, 0);
    p
}

/// The weights of the elements that `c` lists, summed.
pub(crate) fn weight_of(w: &[u32], c: &[usize]) -> (r: u128)
    requires
        forall|q: int| 0 <= q < c@.len() ==> c@[q] < w@.len(),
    ensures
        r == weight_sum(w@, c@),
{
    let mut acc: u128 = 0;
    let mut i: usize = 0;
    while i < c.len()
        invariant
            i <= c@.len(),
            forall|q: int| 0 <= q < c@.len() ==> c@[q] < w@.len(),
            acc == weight_sum(w@, c@.subrange(0, i as int)),
            acc <= i * 0xFFFF_FFFF,
        decreases c@.len() - i,
    {
        proof {
            assert(c@.subrange(0, i + 1).drop_last() =~= c@.subrange(0, i as int));
        }
        acc = acc + w[c[i]] as u128;
        i = i + 1;
    }
    assert(c@.subrange(0, c@.len() as int) =~= c@);
    acc
}

/// The combination `0, 1, .., k - 1`.
fn first_indices(k: usize) -> (v: Vec<usize>)
    ensures
        v@ == start_combination(k as nat),
{
    let mut v: Vec<usize> = Vec::new();
    let mut i: usize = 0;
    while i < k
        invariant
            i <= k,
            v@.len() == i,
            forall|q: int| 0 <= q < i ==> v@[q] == q,
        decreases k - i,
    {
        v.push(i);
        i = i + 1;
    }
    assert(v@ =~= start_combination(k as nat));
    v
}

/// A copy of a list of indices.
fn copy_indices(c: &Vec<usize>) -> (v: Vec<usize>)
    ensures
        v@ == c@,
{
    let mut v: Vec<usize> = Vec::new();
    let mut i: usize = 0;
    while i < c.len()
        invariant
            i <= c@.len(),
            v@.len() == i,
            forall|q: int| 0 <= q < i ==> v@[q] == c@[q],
        decreases c@.len() - i,
    {
        v.push(c[i]);
        i = i + 1;
    }
    assert(v@ =~= c@);
    v
}

/// The combination `advanced(c, p)`.
fn advance(c: &[usize], p: usize) -> (v: Vec<usize>)
    requires
        p < c@.len(),
        c@[p as int] + (c@.len() - p) <= usize::MAX,
    ensures
        v@ == advanced(c@, p as int),
{
    let k = c.len();
    let moved = c[p] + 1;
    let mut v: Vec<usize> = Vec::new();
    let mut q: usize = 0;
    while q < k
        invariant
            q <= k,
            k == c@.len(),
            p < k,
            moved == c@[p as int] + 1,
            c@[p as int] + (k - p) <= usize::MAX,
            v@.len() == q,
            forall|t: int| 0 <= t < q ==> v@[t] == advanced(c@, p as int)[t],
        decreases k - q,
    {
        if q < p {
            v.push(c[q]);
        } else {
            v.push(moved + (q - p));
        }
        q = q + 1;
    }
    assert(v@ =~= advanced(c@, p as int));
    v
}

/// The combinations of `k` of the elements `{0, .., n - 1}` whose weights sum to `min_weight`
/// at least, one after another in lexicographic order. The weight of element `i` is
/// `weights_sorted[i]`.
pub struct MWCombinations<'a> {
    weights_sorted: &'a [u32],
    min_weight: u32,
    first: bool,
    indices: Vec<usize>,
    indices_final: Vec<usize>,
}

impl<'a> MWCombinations<'a> {
    /// The weights of the elements.
    pub closed spec fn weights(&self) -> Seq<u32> {
        self.weights_sorted@
    }

    /// The number of elements in a combination.
    pub closed spec fn size(&self) -> nat {
        self.indices@.len()
    }

    /// The weight that a combination has at least.
    pub closed spec fn min_weight(&self) -> u32 {
        self.min_weight
    }

    /// Whether a combination was given out.
    pub closed spec fn started(&self) -> bool {
        !self.first
    }

    /// The combination that was given out last.
    pub closed spec fn current(&self) -> Seq<usize> {
        self.indices@
    }

    /// The weights are in decreasing order; before the first combination is given out the
    /// state holds `0, .., k - 1`, afterwards a combination that weighs enough.
    pub open spec fn wf(&self) -> bool {
        &&& sorted_desc(self.weights())
        &&& self.current().len() == self.size()
        &&& !self.started() ==> self.current() == start_combination(self.size())
        &&& self.started() ==> admissible(
            self.weights(),
            self.size(),
            self.min_weight(),
            self.current(),
        )
    }

    /// Whether `d` is a combination that is still to come.
    pub open spec fn pending(&self, d: Seq<usize>) -> bool {
        admissible(self.weights(), self.size(), self.min_weight(), d) && (self.started()
            ==> lex_lt(self.current(), d))
    }

    /// The combinations of `k` elements that weigh `min_weight` at least, none given out yet.
    pub fn new(weights_sorted: &'a [u32], k: usize, min_weight: u32) -> (r: Self)
        requires
            sorted_desc(weights_sorted@),
        ensures
            r.wf(),
            r.weights() == weights_sorted@,
            r.size() == k,
            r.min_weight() == min_weight,
            !r.started(),
    {
        Self {
            weights_sorted,
            min_weight,
            first: true,
            indices: first_indices(k),
            indices_final: last_combination(k, weights_sorted, min_weight),
        }
    }

    /// The next combination in lexicographic order, or `None` after the last one.
    pub fn next(&mut self) -> (r: Option<Vec<usize>>)
        requires
            old(self).wf(),
        ensures
            final(self).wf(),
            final(self).weights() == old(self).weights(),
            final(self).size() == old(self).size(),
            final(self).min_weight() == old(self).min_weight(),
            match r {
                Some(c) => {
                    &&& final(self).started()
                    &&& final(self).current() == c@
                    &&& old(self).pending(c@)
                    &&& forall|d: Seq<usize>| #[trigger]
                        old(self).pending(d) ==> d == c@ || lex_lt(c@, d)
                },
                None => {
                    &&& final(self).started() == old(self).started()
                    &&& final(self).current() == old(self).current()
                    &&& forall|d: Seq<usize>| !#[trigger] old(self).pending(d)
                },
            },
    {
        let k = self.indices.len();
        let n = self.weights_sorted.len();
        let ghost w = self.weights_sorted@;
        let ghost c = self.indices@;
        let ghost min_weight = self.min_weight;
        if self.first {
            if k > n {
                proof {
                    assert forall|d: Seq<usize>| !#[trigger] old(self).pending(d) by {
                        if admissible(w, k as nat, min_weight, d) {
                            lemma_combination_gap(d, n as nat, 0, k - 1);
                        }
                    }
                }
                return None;
            }
            let weight = weight_of(self.weights_sorted, self.indices.as_slice());
            proof {
                assert forall|d: Seq<usize>| #[trigger]
                    admissible(w, k as nat, min_weight, d) implies weight_sum(w, d) <= weight && (d
                    == c || lex_lt(c, d)) by {
                    assert forall|q: int| 0 <= q < k implies #[trigger] c[q] <= d[q] && d[q] < w.len() by {
                        lemma_combination_gap(d, n as nat, 0, q);
                    }
                    lemma_weight_dominated(w, c, d);
                    lemma_first_difference(c, d, 0);
                }
            }
            if weight < self.min_weight as u128 {
                return None;
            }
            self.first = false;
            let res = copy_indices(&self.indices);
            return Some(res);
        } else if k == 0 {
            return None;
        } else {
            proof {
                lemma_combination_gap(c, n as nat, 0, k - 1);
            }
            let mut i: usize = k - 1;
            loop
                invariant
                    i < k,
                    k <= n,
                    k == self.indices@.len(),
                    n == self.weights_sorted@.len(),
                    w == self.weights_sorted@,
                    c == self.indices@,
                    min_weight == self.min_weight,
                    *self == *old(self),
                    old(self).wf(),
                    old(self).started(),
                    old(self).weights() == w,
                    old(self).current() == c,
                    old(self).size() == k,
                    old(self).min_weight() == min_weight,
                    forall|q: int| i < q < k ==> !can_advance(w, min_weight, c, q),
                decreases i,
            {
                if self.indices[i] < i + (n - k) {
                    let cand = advance(self.indices.as_slice(), i);
                    proof {
                        lemma_advanced_is_combination(w, c, i as int);
                    }
                    let weight = weight_of(self.weights_sorted, cand.as_slice());
                    if weight >= self.min_weight as u128 {
                        proof {
                            assert forall|d: Seq<usize>| #[trigger]
                                old(self).pending(d) implies d == cand@ || lex_lt(cand@, d) by {
                                let p = lemma_successor(w, min_weight, c, d);
                                if p < i {
                                    assert(cand@[p] == c[p]);
                                    assert(forall|q: int| 0 <= q < p ==> cand@[q] == d[q]);
                                }
                            }
                        }
                        let res = copy_indices(&cand);
                        self.indices = cand;
                        return Some(res);
                    }
                }
                if i == 0 {
                    proof {
                        assert forall|d: Seq<usize>| !#[trigger] old(self).pending(d) by {
                            if old(self).pending(d) {
                                let p = lemma_successor(w, min_weight, c, d);
                            }
                        }
                    }
                    return None;
                }
                i = i - 1;
            }
        }
    }
}

/// Whether the search for an element of `c` to move forward ends at `p` without one: the
/// element at `p` does not fit, or `p` is past the last, and no element before `p`, moved,
/// leaves a combination that weighs enough.
pub open spec fn stuck_at(w: Seq<u32>, min_weight: u32, c: Seq<usize>, p: int) -> bool {
    &&& 0 <= p <= c.len()
    &&& p < c.len() ==> !fits_advanced(w, c, p)
    &&& forall|q: int|
        0 <= q < p ==> fits_advanced(w, c, q) && !can_advance(w, min_weight, c, q)
}

/// Whether no element of `c` can be moved forward.
pub open spec fn is_stuck(w: Seq<u32>, min_weight: u32, c: Seq<usize>) -> bool {
    exists|p: int| stuck_at(w, min_weight, c, p)
}

/// Moves forward the first element of `indices` that can be: it goes up by one, those behind
/// it are set next to it, and what results weighs `min_weight` at least. Gives its place, or
/// an error where the search meets an element that does not fit first, or none that can be
/// moved.
pub fn move_fw_combination(indices: &mut [usize], weights_sorted: &[u32], min_weight: u32) -> (r:
    Result<usize, ()>)
    ensures
        match r {
            Ok(p) => {
                &&& p < old(indices)@.len()
                &&& can_advance(weights_sorted@, min_weight, old(indices)@, p as int)
                &&& forall|q: int|
                    0 <= q < p ==> fits_advanced(weights_sorted@, old(indices)@, q)
                        && !can_advance(weights_sorted@, min_weight, old(indices)@, q)
                &&& final(indices)@ == advanced(old(indices)@, p as int)
            },
            Err(_) => {
                &&& final(indices)@ == old(indices)@
                &&& is_stuck(weights_sorted@, min_weight, old(indices)@)
            },
        },
{
    let k = indices.len();
    let n = weights_sorted.len();
    let ghost w = weights_sorted@;
    let ghost c = indices@;
    let mut idx_to_move: usize = 0;
    while idx_to_move < k
        invariant
            idx_to_move <= k,
            k == indices@.len(),
            n == weights_sorted@.len(),
            w == weights_sorted@,
            c == indices@,
            c == old(indices)@,
            forall|q: int|
                0 <= q < idx_to_move ==> fits_advanced(w, c, q) && !can_advance(
                    w,
                    min_weight,
                    c,
                    q,
                ),
        decreases k - idx_to_move,
    {
        let cur = indices[idx_to_move];
        if cur >= n || k - idx_to_move >= n - cur {
            proof {
                assert(!fits_advanced(w, c, idx_to_move as int));
                assert(stuck_at(w, min_weight, c, idx_to_move as int));
            }
            return Err(());
        }
        let cand = advance(indices, idx_to_move);
        proof {
            assert forall|q: int| 0 <= q < k implies cand@[q] < n by {
                if q < idx_to_move {
                    assert(fits_advanced(w, c, q));
                }
            }
        }
        let weight = weight_of(weights_sorted, cand.as_slice());
        if weight >= min_weight as u128 {
            let mut q: usize = idx_to_move;
            while q < k
                invariant
                    idx_to_move <= q <= k,
                    k == indices@.len(),
                    cand@ == advanced(c, idx_to_move as int),
                    c.len() == k,
                    forall|t: int| 0 <= t < q ==> indices@[t] == cand@[t],
                    forall|t: int| q <= t < k ==> indices@[t] == c[t],
                decreases k - q,
            {
                indices[q] = cand[q];
                q = q + 1;
            }
            assert(indices@ =~= cand@);
            return Ok(idx_to_move);
        }
        idx_to_move = idx_to_move + 1;
    }
    proof {
        assert(stuck_at(w, min_weight, c, k as int));
    }
    Err(())
}

/// The number that the digits `c` write in base `base`.
pub open spec fn rank(c: Seq<usize>, base: nat) -> nat
    decreases c.len(),
{
    if c.len() == 0 {
        0
    } else {
        rank(c.drop_last(), base) * base + c.last() as nat
    }
}

/// `base` to the power `k`.
pub open spec fn power(base: nat, k: nat) -> nat
    decreases k,
{
    if k == 0 {
        1
    } else {
        power(base, (k - 1) as nat) * base
    }
}

/// Digits below the base write a number below the base to the power of their count.
pub proof fn lemma_rank_bound(c: Seq<usize>, base: nat)
    requires
        forall|q: int| 0 <= q < c.len() ==> c[q] < base,
    ensures
        rank(c, base) < power(base, c.len()),
    decreases c.len(),
{
    if c.len() > 0 {
        lemma_rank_bound(c.drop_last(), base);
        let r = rank(c.drop_last(), base);
        let pw = power(base, (c.len() - 1) as nat);
        let l = c.last() as nat;
        assert(l == c[c.len() - 1]);
        assert(r * base + l < pw * base) by (nonlinear_arith)
            requires
                r < pw,
                l < base,
        ;
    }
}

/// Of two lists of digits below the base, the one that comes first writes the smaller number.
pub proof fn lemma_rank_lex(a: Seq<usize>, b: Seq<usize>, base: nat)
    requires
        forall|q: int| 0 <= q < a.len() ==> a[q] < base,
        forall|q: int| 0 <= q < b.len() ==> b[q] < base,
        lex_lt(a, b),
    ensures
        rank(a, base) < rank(b, base),
    decreases a.len(),
{
    let p = choose|p: int|
        0 <= p < a.len() && a[p] < b[p] && forall|q: int| 0 <= q < p ==> a[q] == b[q];
    let ra = rank(a.drop_last(), base);
    let rb = rank(b.drop_last(), base);
    let la = a.last() as nat;
    let lb = b.last() as nat;
    assert(la == a[a.len() - 1]);
    assert(lb == b[b.len() - 1]);
    if p == a.len() - 1 {
        assert(a.drop_last() =~= b.drop_last());
    } else {
        assert(a.drop_last()[p] < b.drop_last()[p]);
        lemma_rank_lex(a.drop_last(), b.drop_last(), base);
        assert(ra * base + la < rb * base + lb) by (nonlinear_arith)
            requires
                ra < rb,
                la < base,
        ;
    }
}

/// Whether `d` is `c` with its first element that can be moved forward.
pub open spec fn move_step(w: Seq<u32>, min_weight: u32, c: Seq<usize>, d: Seq<usize>) -> bool {
    exists|p: int|
        0 <= p < c.len() && #[trigger] can_advance(w, min_weight, c, p) && d == advanced(c, p)
            && forall|q: int|
            0 <= q < p ==> fits_advanced(w, c, q) && !can_advance(w, min_weight, c, q)
}

/// Whether the combination at `t + 1` is that at `t` after one move.
pub open spec fn move_at(w: Seq<u32>, min_weight: u32, path: Seq<Seq<usize>>, t: int) -> bool {
    move_step(w, min_weight, path[t], path[t + 1])
}

/// Whether moves forward, one after another, take `c` to `d`.
pub open spec fn moves_to(w: Seq<u32>, min_weight: u32, c: Seq<usize>, d: Seq<usize>) -> bool {
    exists|path: Seq<Seq<usize>>|
        #![trigger path.len()]
        path.len() >= 1 && path[0] == c && path[path.len() - 1] == d && forall|t: int|
            0 <= t < path.len() - 1 ==> #[trigger] move_at(w, min_weight, path, t)
}

/// The combination that moving elements forward ends in, from `0, .., k - 1`.
pub fn last_combination(k: usize, weights_sorted: &[u32], min_weight: u32) -> (res: Vec<usize>)
    ensures
        res@.len() == k,
        moves_to(weights_sorted@, min_weight, start_combination(k as nat), res@),
        is_stuck(weights_sorted@, min_weight, res@),
        res@ == start_combination(k as nat) || lex_lt(start_combination(k as nat), res@),
        k <= weights_sorted@.len() ==> is_combination(res@, weights_sorted@.len()),
{
    let mut res = first_indices(k);
    let n = weights_sorted.len();
    let ghost w = weights_sorted@;
    let ghost base = (n + 1) as nat;
    let ghost mut path: Seq<Seq<usize>> = seq![res@];
    loop
        invariant
            path.len() >= 1,
            path[0] == start_combination(k as nat),
            path[path.len() - 1] == res@,
            forall|t: int| 0 <= t < path.len() - 1 ==> #[trigger] move_at(w, min_weight, path, t),
            res@.len() == k,
            n == weights_sorted@.len(),
            w == weights_sorted@,
            base == n + 1,
            res@ == start_combination(k as nat) || lex_lt(start_combination(k as nat), res@),
            res@ == start_combination(k as nat) || is_combination(res@, n as nat),
        ensures
            path.len() >= 1,
            path[0] == start_combination(k as nat),
            path[path.len() - 1] == res@,
            forall|t: int| 0 <= t < path.len() - 1 ==> #[trigger] move_at(w, min_weight, path, t),
            res@.len() == k,
            is_stuck(w, min_weight, res@),
            res@ == start_combination(k as nat) || lex_lt(start_combination(k as nat), res@),
            res@ == start_combination(k as nat) || is_combination(res@, n as nat),
        decreases
            if res@ == start_combination(k as nat) {
                power(base, k as nat) as int
            } else {
                power(base, k as nat) - rank(res@, base) - 1
            },
    {
        let ghost before = res@;
        match move_fw_combination(res.as_mut_slice(), weights_sorted, min_weight) {
            Ok(p) => {
                proof {
                    let walked = path;
                    path = walked.push(res@);
                    assert(can_advance(w, min_weight, before, p as int));
                    assert(move_step(w, min_weight, before, res@));
                    assert forall|t: int| 0 <= t < path.len() - 1 implies #[trigger] move_at(
                        w,
                        min_weight,
                        path,
                        t,
                    ) by {
                        if t < walked.len() - 1 {
                            assert(move_at(w, min_weight, walked, t));
                            assert(path[t] == walked[t] && path[t + 1] == walked[t + 1]);
                        } else {
                            assert(path[t] == before);
                        }
                    }
                    lemma_advanced_is_combination_from(w, before, p as int);
                    lemma_rank_bound(res@, base);
                    if before == start_combination(k as nat) {
                    } else {
                        lemma_rank_lex(before, res@, base);
                        let s = start_combination(k as nat);
                        let at = choose|at: int|
                            0 <= at < s.len() && s[at] < before[at] && forall|q: int|
                                0 <= q < at ==> s[q] == before[q];
                        if at < p {
                            assert(res@[at] == before[at]);
                        } else {
                            assert(res@[p as int] > s[p as int]);
                        }
                    }
                }
            },
            Err(_) => {
                break ;
            },
        }
    }
    proof {
        if k <= n && res@ == start_combination(k as nat) {
            assert(is_combination(res@, n as nat));
        }
    }
    res
}

/// Moving the element at `p` forward, where it fits, leaves increasing elements within the
/// weights, as far as those before `p` were.
proof fn lemma_advanced_is_combination_from(w: Seq<u32>, c: Seq<usize>, p: int)
    requires
        0 <= p < c.len(),
        fits_advanced(w, c, p),
        w.len() <= usize::MAX,
        c.len() <= usize::MAX,
        c == start_combination(c.len()) || is_combination(c, w.len()),
    ensures
        is_combination(advanced(c, p), w.len()),
        lex_lt(c, advanced(c, p)),
{
    let a = advanced(c, p);
    assert(a[p] == c[p] + 1);
    if c == start_combination(c.len()) {
        assert forall|q: int| 0 <= q < c.len() implies c[q] == q by {}
        assert(c[p] == p);
        assert(c.len() < w.len());
    }
    assert forall|i: int, j: int| 0 <= i < j < a.len() implies a[i] < a[j] by {
        if c == start_combination(c.len()) {
            assert(c[i] == i);
            assert(c[j] == j);
        }
    }
}

} // verus!
