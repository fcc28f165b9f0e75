//! Multivariate polynomials over GF(2).
use super::var_set::{
    empty_set, lemma_bounded_finite, set_capacity, set_clone, set_contains, set_elements, set_eq, set_insert,
    set_is_subset, set_len, set_to_vec, set_union_with,
};
use std::cmp::Ordering;
use vstd::prelude::*;

verus! {

/// Whether monomials `a` and `b` hold the same variables above `i`.
pub open spec fn agree_above(a: Set<usize>, b: Set<usize>, i: int) -> bool {
    forall|j: usize| i < j ==> (a.contains(j) <==> b.contains(j))
}

/// Whether `a` comes before `b` by the highest variable that one of them holds alone.
pub open spec fn highest_lt(a: Set<usize>, b: Set<usize>) -> bool {
    exists|i: usize| b.contains(i) && !a.contains(i) && #[trigger] agree_above(a, b, i as int)
}

/// Whether monomial `a` comes before monomial `b`: by degree first; among monomials of one
/// degree, by the highest variable that one of them holds alone.
pub open spec fn mono_lt(a: Set<usize>, b: Set<usize>) -> bool {
    a.len() < b.len() || (a.len() == b.len() && highest_lt(a, b))
}

proof fn lemma_highest_total_below(a: Set<usize>, b: Set<usize>, n: int)
    requires
        0 <= n,
        agree_above(a, b, n - 1),
    ensures
        a == b || highest_lt(a, b) || highest_lt(b, a),
    decreases n,
{
    if n == 0 {
        assert(a =~= b);
    } else {
        let i = (n - 1) as usize;
        if n - 1 > usize::MAX {
            assert(agree_above(a, b, n - 2));
            lemma_highest_total_below(a, b, n - 1);
        } else if a.contains(i) != b.contains(i) {
            assert(agree_above(a, b, i as int));
            assert(agree_above(b, a, i as int));
        } else {
            assert(agree_above(a, b, n - 2));
            lemma_highest_total_below(a, b, n - 1);
        }
    }
}

/// Of two monomials that differ, one comes before the other.
pub proof fn lemma_mono_total(a: Set<usize>, b: Set<usize>)
    ensures
        a == b || mono_lt(a, b) || mono_lt(b, a),
{
    assert(agree_above(a, b, usize::MAX as int));
    lemma_highest_total_below(a, b, usize::MAX + 1);
}

/// No monomial comes before itself, and none both before and after another.
pub proof fn lemma_mono_asymmetric(a: Set<usize>, b: Set<usize>)
    requires
        mono_lt(a, b),
    ensures
        !mono_lt(b, a),
        a != b,
{
    if highest_lt(a, b) && highest_lt(b, a) {
        let i = choose|i: usize|
            b.contains(i) && !a.contains(i) && #[trigger] agree_above(a, b, i as int);
        let k = choose|k: usize|
            a.contains(k) && !b.contains(k) && #[trigger] agree_above(b, a, k as int);
        if i < k {
            assert(a.contains(k) <==> b.contains(k));
        } else if k < i {
            assert(b.contains(i) <==> a.contains(i));
        }
    }
}

/// The order of monomials is transitive.
pub proof fn lemma_mono_transitive(a: Set<usize>, b: Set<usize>, c: Set<usize>)
    requires
        mono_lt(a, b),
        mono_lt(b, c),
    ensures
        mono_lt(a, c),
{
    if a.len() == b.len() && b.len() == c.len() {
        let i = choose|i: usize|
            b.contains(i) && !a.contains(i) && #[trigger] agree_above(a, b, i as int);
        let k = choose|k: usize|
            c.contains(k) && !b.contains(k) && #[trigger] agree_above(b, c, k as int);
        if i >= k {
            assert(i != k);
            assert(b.contains(i) <==> c.contains(i));
            assert(agree_above(a, c, i as int));
        } else {
            assert(a.contains(k) <==> b.contains(k));
            assert(agree_above(a, c, k as int));
        }
    }
}

/// How one monomial stands to another in the order of monomials.
#[derive(Clone, Copy, PartialEq, Eq, Debug, Structural)]
pub enum MonomialOrder {
    Less,
    Equal,
    Greater,
}

/// A monomial over GF(2): a product of variables, each at most once. The product of no
/// variable is the constant 1.
#[derive(Debug)]
pub struct Monomial {
    vars: bit_set::BitSet<u64>,
}

impl View for Monomial {
    type V = Set<usize>;

    /// The variables of the monomial.
    closed spec fn view(&self) -> Set<usize> {
        set_elements(self.vars)
    }
}

impl Clone for Monomial {
    fn clone(&self) -> (r: Self)
        ensures
            r@ == self@,
    {
        Monomial { vars: set_clone(&self.vars) }
    }
}

impl PartialEq for Monomial {
    fn eq(&self, other: &Self) -> (r: bool) {
        set_eq(&self.vars, &other.vars)
    }
}

impl vstd::std_specs::cmp::PartialEqSpecImpl for Monomial {
    open spec fn obeys_eq_spec() -> bool {
        true
    }

    open spec fn eq_spec(&self, other: &Self) -> bool {
        self@ == other@
    }
}

impl Monomial {
    /// The constant 1.
    pub fn one() -> (r: Self)
        ensures
            r@ == Set::<usize>::empty(),
    {
        Monomial { vars: empty_set() }
    }

    /// The monomial of the variable `var` alone.
    pub fn from_var(var: usize) -> (r: Self)
        requires
            var < usize::MAX,
        ensures
            r@ == set![var],
    {
        let mut vars = empty_set();
        set_insert(&mut vars, var);
        assert(set_elements(vars) =~= set![var]);
        Monomial { vars }
    }

    /// Whether the monomial divides `div`: whether `div` holds each of its variables.
    pub fn divides(&self, div: &Self) -> (b: bool)
        ensures
            b == self@.subset_of(div@),
    {
        set_is_subset(&self.vars, &div.vars)
    }

    /// The variables of the monomial, in increasing order.
    pub fn variables(&self) -> (v: Vec<usize>)
        ensures
            forall|i: int, j: int| 0 <= i < j < v@.len() ==> v@[i] < v@[j],
            forall|x: usize| self@.contains(x) <==> v@.contains(x),
    {
        set_to_vec(&self.vars)
    }

    /// The variables of the monomial, as a bit set.
    pub fn variable_set(&self) -> (s: &bit_set::BitSet<u64>)
        ensures
            set_elements(*s) == self@,
    {
        &self.vars
    }

    /// The number of variables of the monomial.
    pub fn degree(&self) -> (d: usize)
        ensures
            self@.finite(),
            d == self@.len(),
    {
        let bound = set_capacity(&self.vars);
        proof {
            lemma_bounded_finite(self@, bound as nat);
        }
        set_len(&self.vars)
    }

    /// Whether the two monomials are the same.
    pub fn equals(&self, other: &Self) -> (b: bool)
        ensures
            b == (self@ == other@),
    {
        set_eq(&self.vars, &other.vars)
    }

    /// Multiplies the monomial by `other`: in GF(2) a variable times itself is itself, so the
    /// product holds the variables of both.
    pub fn mul_assign(&mut self, other: &Monomial)
        ensures
            final(self)@ == old(self)@.union(other@),
    {
        set_union_with(&mut self.vars, &other.vars);
    }

    /// The product of two monomials.
    pub fn mul(&self, other: &Monomial) -> (r: Monomial)
        ensures
            r@ == self@.union(other@),
    {
        let mut res = self.clone();
        res.mul_assign(other);
        res
    }

    /// How the monomial stands to `other` in the order of monomials.
    pub fn compare(&self, other: &Self) -> (o: MonomialOrder)
        ensures
            o == MonomialOrder::Less <==> mono_lt(self@, other@),
            o == MonomialOrder::Equal <==> self@ == other@,
            o == MonomialOrder::Greater <==> mono_lt(other@, self@),
    {
        let d1 = set_len(&self.vars);
        let d2 = set_len(&other.vars);
        proof {
            lemma_mono_total(self@, other@);
            if mono_lt(self@, other@) {
                lemma_mono_asymmetric(self@, other@);
            }
            if mono_lt(other@, self@) {
                lemma_mono_asymmetric(other@, self@);
            }
        }
        if d1 < d2 {
            MonomialOrder::Less
        } else if d1 > d2 {
            MonomialOrder::Greater
        } else {
            let c1 = set_capacity(&self.vars);
            let c2 = set_capacity(&other.vars);
            let bound = if c1 < c2 {
                c2
            } else {
                c1
            };
            let mut i: usize = bound;
            while i > 0
                invariant
                    i <= bound,
                    self@.len() == other@.len(),
                    agree_above(self@, other@, i - 1),
                decreases i,
            {
                i = i - 1;
                let in1 = set_contains(&self.vars, i);
                let in2 = set_contains(&other.vars, i);
                if in1 && !in2 {
                    proof {
                        assert(agree_above(other@, self@, i as int));
                        lemma_mono_asymmetric(other@, self@);
                    }
                    return MonomialOrder::Greater;
                }
                if !in1 && in2 {
                    proof {
                        assert(agree_above(self@, other@, i as int));
                        lemma_mono_asymmetric(self@, other@);
                    }
                    return MonomialOrder::Less;
                }
            }
            assert(self@ =~= other@);
            MonomialOrder::Equal
        }
    }
}

/// The monomials of a list, each as the set of its variables.
pub open spec fn views(ms: Seq<Monomial>) -> Seq<Set<usize>> {
    Seq::new(ms.len(), |i: int| ms[i]@)
}

/// Whether each monomial of the list comes after those behind it.
pub open spec fn strictly_decreasing(t: Seq<Set<usize>>) -> bool {
    forall|i: int, j: int| 0 <= i < j < t.len() ==> mono_lt(t[j], t[i])
}

/// Whether no monomial of the list comes before one behind it.
pub open spec fn decreasing(t: Seq<Set<usize>>) -> bool {
    forall|i: int, j: int| 0 <= i < j < t.len() ==> !mono_lt(t[i], t[j])
}

/// Whether the monomial `m` occurs an odd number of times in the list.
pub open spec fn occurs_odd(t: Seq<Set<usize>>, m: Set<usize>) -> bool
    decreases t.len(),
{
    if t.len() == 0 {
        false
    } else {
        occurs_odd(t.drop_last(), m) != (t.last() == m)
    }
}

/// The sum over GF(2) of the monomials of a list: those that occur an odd number of times.
pub open spec fn odd_set(t: Seq<Set<usize>>) -> Set<Set<usize>> {
    Set::new(|m: Set<usize>| occurs_odd(t, m))
}

/// The sum over GF(2) of two sets of monomials: those that one of them holds alone.
pub open spec fn sym_diff(a: Set<Set<usize>>, b: Set<Set<usize>>) -> Set<Set<usize>> {
    Set::new(|m: Set<usize>| a.contains(m) != b.contains(m))
}

/// The products of the monomial `a` with each monomial of `q`.
pub open spec fn row_products(a: Set<usize>, q: Seq<Set<usize>>) -> Seq<Set<usize>> {
    Seq::new(q.len(), |j: int| a.union(q[j]))
}

/// The products of each monomial of `p` with each monomial of `q`.
pub open spec fn products(p: Seq<Set<usize>>, q: Seq<Set<usize>>) -> Seq<Set<usize>>
    decreases p.len(),
{
    if p.len() == 0 {
        Seq::empty()
    } else {
        products(p.drop_last(), q) + row_products(p.last(), q)
    }
}

/// Whether the variables of `m` count: all do, or those of monomials of degree two or more.
pub open spec fn counts(m: Set<usize>, products_only: bool) -> bool {
    !products_only || m.len() > 1
}

/// The variables of the monomials of `t`: of all, or of those of degree two or more.
pub open spec fn variables_of(t: Seq<Set<usize>>, products_only: bool) -> Set<usize> {
    Set::new(
        |x: usize|
            exists|i: int|
                0 <= i < t.len() && counts(t[i], products_only) && #[trigger] t[i].contains(x),
    )
}

/// The variables that occur in a monomial of degree two or more.
pub open spec fn product_variables(t: Seq<Set<usize>>) -> Set<usize> {
    variables_of(t, true)
}

/// Whether `m` is a variable alone that occurs in no monomial of `t` of degree two or more.
pub open spec fn is_primitive(t: Seq<Set<usize>>, m: Set<usize>) -> bool {
    m.len() == 1 && !m.subset_of(product_variables(t))
}

/// The monomials of `t` of degree one, in the order of `t`.
pub open spec fn first_order(t: Seq<Set<usize>>) -> Seq<Set<usize>>
    decreases t.len(),
{
    if t.len() == 0 {
        Seq::empty()
    } else if t.last().len() == 1 {
        first_order(t.drop_last()).push(t.last())
    } else {
        first_order(t.drop_last())
    }
}

/// The monomials of `t` that are a variable alone which occurs in no monomial of `all` of
/// degree two or more, in the order of `t`.
pub open spec fn primitives(t: Seq<Set<usize>>, all: Seq<Set<usize>>) -> Seq<Set<usize>>
    decreases t.len(),
{
    if t.len() == 0 {
        Seq::empty()
    } else if is_primitive(all, t.last()) {
        primitives(t.drop_last(), all).push(t.last())
    } else {
        primitives(t.drop_last(), all)
    }
}

proof fn lemma_contains_push(s: Seq<Set<usize>>, x: Set<usize>, m: Set<usize>)
    ensures
        s.push(x).contains(m) <==> (s.contains(m) || x == m),
{
    let p = s.push(x);
    if s.contains(m) {
        let i = choose|i: int| 0 <= i < s.len() && s[i] == m;
        assert(p[i] == m);
    }
    if x == m {
        assert(p[s.len() as int] == m);
    }
    if p.contains(m) {
        let i = choose|i: int| 0 <= i < p.len() && p[i] == m;
        if i < s.len() {
            assert(s[i] == m);
        }
    }
}

/// Whether `m` is among the first `i` monomials of `a`.
pub open spec fn in_prefix(a: Seq<Set<usize>>, i: int, m: Set<usize>) -> bool {
    exists|s: int| 0 <= s < i && s < a.len() && #[trigger] a[s] == m
}

proof fn lemma_in_prefix_step(a: Seq<Set<usize>>, i: int, m: Set<usize>)
    requires
        0 <= i < a.len(),
    ensures
        in_prefix(a, i + 1, m) <==> (in_prefix(a, i, m) || a[i] == m),
{
    if in_prefix(a, i, m) {
        let s = choose|s: int| 0 <= s < i && s < a.len() && #[trigger] a[s] == m;
        assert(a[s] == m);
    }
    if a[i] == m {
        assert(a[i] == m && i < i + 1);
    }
    if in_prefix(a, i + 1, m) {
        let s = choose|s: int| 0 <= s < i + 1 && s < a.len() && #[trigger] a[s] == m;
        if s < i {
            assert(a[s] == m);
        }
    }
}

proof fn lemma_variables_of_step(t: Seq<Set<usize>>, i: int, products_only: bool)
    requires
        0 <= i < t.len(),
    ensures
        variables_of(t.subrange(0, i + 1), products_only) == if counts(t[i], products_only) {
            variables_of(t.subrange(0, i), products_only).union(t[i])
        } else {
            variables_of(t.subrange(0, i), products_only)
        },
{
    let head0 = t.subrange(0, i);
    let head1 = t.subrange(0, i + 1);
    let l = variables_of(head1, products_only);
    let r = if counts(t[i], products_only) {
        variables_of(head0, products_only).union(t[i])
    } else {
        variables_of(head0, products_only)
    };
    assert forall|x: usize| l.contains(x) <==> r.contains(x) by {
        if l.contains(x) {
            let k = choose|k: int|
                0 <= k < head1.len() && counts(head1[k], products_only) && #[trigger] head1[k].contains(x);
            if k < i {
                assert(head0[k].contains(x));
            }
        }
        if variables_of(head0, products_only).contains(x) {
            let k = choose|k: int|
                0 <= k < head0.len() && counts(head0[k], products_only) && #[trigger] head0[k].contains(x);
            assert(head1[k].contains(x));
        }
        if counts(t[i], products_only) && t[i].contains(x) {
            assert(head1[i].contains(x));
        }
    }
    assert(l =~= r);
}

/// Whether a monomial occurs an odd number of times in two lists, one after the other, from
/// whether it does in each.
pub proof fn lemma_occurs_odd_split(a: Seq<Set<usize>>, b: Seq<Set<usize>>, m: Set<usize>)
    ensures
        occurs_odd(a + b, m) == (occurs_odd(a, m) != occurs_odd(b, m)),
    decreases b.len(),
{
    if b.len() == 0 {
        assert(a + b =~= a);
    } else {
        assert((a + b).drop_last() =~= a + b.drop_last());
        lemma_occurs_odd_split(a, b.drop_last(), m);
    }
}

/// A monomial that occurs an odd number of times in a list occurs in it.
pub proof fn lemma_occurs_odd_present(t: Seq<Set<usize>>, m: Set<usize>)
    requires
        occurs_odd(t, m),
    ensures
        t.contains(m),
{
    if !t.contains(m) {
        lemma_occurs_odd_absent(t, m);
    }
}

proof fn lemma_occurs_odd_absent(t: Seq<Set<usize>>, m: Set<usize>)
    requires
        !t.contains(m),
    ensures
        !occurs_odd(t, m),
    decreases t.len(),
{
    if t.len() > 0 {
        assert(t.last() == t[t.len() - 1]);
        assert forall|i: int| 0 <= i < t.len() - 1 implies t.drop_last()[i] != m by {
            assert(t[i] == t.drop_last()[i]);
        }
        lemma_occurs_odd_absent(t.drop_last(), m);
    }
}

proof fn lemma_strictly_decreasing_distinct(t: Seq<Set<usize>>)
    requires
        strictly_decreasing(t),
    ensures
        t.no_duplicates(),
{
    assert forall|i: int, j: int| 0 <= i < t.len() && 0 <= j < t.len() && i != j implies t[i]
        != t[j] by {
        if i < j {
            lemma_mono_asymmetric(t[j], t[i]);
        } else {
            lemma_mono_asymmetric(t[i], t[j]);
        }
    }
}

/// In a list without repetition a monomial occurs an odd number of times when it occurs.
proof fn lemma_occurs_odd_distinct(t: Seq<Set<usize>>, m: Set<usize>)
    requires
        t.no_duplicates(),
    ensures
        occurs_odd(t, m) == t.contains(m),
    decreases t.len(),
{
    if t.len() > 0 {
        let d = t.drop_last();
        assert(t.last() == t[t.len() - 1]);
        assert forall|i: int, j: int| 0 <= i < d.len() && 0 <= j < d.len() && i != j implies d[i]
            != d[j] by {
            assert(d[i] == t[i] && d[j] == t[j]);
        }
        lemma_occurs_odd_distinct(d, m);
        if t.last() == m {
            if d.contains(m) {
                let i = choose|i: int| 0 <= i < d.len() && d[i] == m;
                assert(t[i] == m);
            }
        } else {
            if t.contains(m) {
                let i = choose|i: int| 0 <= i < t.len() && t[i] == m;
                assert(d[i] == m);
            }
            if d.contains(m) {
                let i = choose|i: int| 0 <= i < d.len() && d[i] == m;
                assert(t[i] == m);
            }
        }
    }
}

/// The monomials that occur an odd number of times in a list in decreasing order are those
/// of the list: its sum over GF(2) is the set of its monomials.
pub proof fn lemma_odd_set_of_terms(t: Seq<Set<usize>>)
    requires
        strictly_decreasing(t),
    ensures
        odd_set(t) == t.to_set(),
{
    lemma_strictly_decreasing_distinct(t);
    assert forall|m: Set<usize>| odd_set(t).contains(m) == t.to_set().contains(m) by {
        lemma_occurs_odd_distinct(t, m);
    }
    assert(odd_set(t) =~= t.to_set());
}

proof fn lemma_occurs_odd_count(t: Seq<Set<usize>>, m: Set<usize>)
    ensures
        occurs_odd(t, m) == (t.to_multiset().count(m) % 2 == 1),
    decreases t.len(),
{
    broadcast use vstd::seq_lib::group_to_multiset_ensures;

    if t.len() == 0 {
    } else {
        lemma_occurs_odd_count(t.drop_last(), m);
        assert(t =~= t.drop_last().push(t.last()));
    }
}

/// The order of monomials that sorts a list with the greatest first.
pub fn descending(x: &Monomial, y: &Monomial) -> (o: Ordering)
    ensures
        o == Ordering::Less <==> mono_lt(y@, x@),
        o == Ordering::Equal <==> x@ == y@,
        o == Ordering::Greater <==> mono_lt(x@, y@),
{
    match y.compare(x) {
        MonomialOrder::Less => Ordering::Less,
        MonomialOrder::Equal => Ordering::Equal,
        MonomialOrder::Greater => Ordering::Greater,
    }
}

/// `[T]::sort_unstable_by` with the order `descending`: afterwards the list holds the same
/// monomials, each as often as before, and none comes before one behind it.
#[verifier::external_body]
fn sort_descending(mons: &mut Vec<Monomial>)
    ensures
        views(final(mons)@).to_multiset() == views(old(mons)@).to_multiset(),
        decreasing(views(final(mons)@)),
{
    mons.sort_unstable_by(|x, y| descending(x, y))
}

/// The list without its pairs of equal monomials next to one another: of a run of equal
/// monomials one is left where the run is odd, and none where it is even.
pub fn remove_pairs(mons: Vec<Monomial>) -> (res: Vec<Monomial>)
    requires
        decreasing(views(mons@)),
    ensures
        strictly_decreasing(views(res@)),
        views(res@).to_set() == odd_set(views(mons@)),
{
    let ghost t = views(mons@);
    let n = mons.len();
    let mut res: Vec<Monomial> = Vec::new();
    let mut i: usize = 0;
    while i < n
        invariant
            i <= n,
            n == mons@.len(),
            t == views(mons@),
            decreasing(t),
            strictly_decreasing(views(res@)),
            forall|r: int, k: int|
                #![trigger t[k], views(res@)[r]]
                0 <= r < res@.len() && i <= k < n ==> mono_lt(t[k], views(res@)[r]),
            forall|m: Set<usize>|
                views(res@).contains(m) <==> occurs_odd(t.subrange(0, i as int), m),
        decreases n - i,
    {
        let ghost before = views(res@);
        let ghost v = t[i as int];
        if i + 1 < n && mons[i].equals(&mons[i + 1]) {
            proof {
                let head0 = t.subrange(0, i as int);
                let head2 = t.subrange(0, i + 2);
                assert(head2.drop_last() =~= head0.push(v));
                assert(head2.drop_last().drop_last() =~= head0);
                assert(head2.last() == v);
                assert(head2.drop_last().last() == v);
                assert forall|m: Set<usize>| occurs_odd(head2, m) == occurs_odd(head0, m) by {
                    let head1 = head2.drop_last();
                    assert(occurs_odd(head1, m) == (occurs_odd(head1.drop_last(), m) != (head1.last()
                        == m)));
                    assert(occurs_odd(head2, m) == (occurs_odd(head1, m) != (head2.last() == m)));
                }
            }
            i = i + 2;
        } else {
            res.push(mons[i].clone());
            proof {
                let head0 = t.subrange(0, i as int);
                let head1 = t.subrange(0, i + 1);
                let after = views(res@);
                assert(head1.drop_last() =~= head0);
                assert(head1.last() == v);
                assert(after =~= before.push(v));
                assert(!before.contains(v)) by {
                    if before.contains(v) {
                        let r = choose|r: int| 0 <= r < before.len() && before[r] == v;
                        assert(mono_lt(t[i as int], before[r]));
                        lemma_mono_asymmetric(v, before[r]);
                    }
                }
                assert forall|m: Set<usize>| after.contains(m) <==> occurs_odd(head1, m) by {
                    if after.contains(m) {
                        let r = choose|r: int| 0 <= r < after.len() && after[r] == m;
                        if r < before.len() {
                            assert(before[r] == m);
                        }
                    }
                    if before.contains(m) {
                        let r = choose|r: int| 0 <= r < before.len() && before[r] == m;
                        assert(after[r] == m);
                    }
                    assert(after[after.len() - 1] == v);
                }
                assert forall|r: int, k: int|
                    #![trigger t[k], after[r]]
                    0 <= r < after.len() && i + 1 <= k < n implies mono_lt(t[k], after[r]) by {
                    if r < before.len() {
                        assert(after[r] == before[r]);
                    } else {
                        assert(!mono_lt(t[i as int], t[k]));
                        assert(!mono_lt(t[i as int], t[i + 1]));
                        lemma_mono_total(t[i + 1], v);
                        if k > i + 1 {
                            lemma_mono_total(t[k], t[i + 1]);
                            assert(!mono_lt(t[i + 1], t[k]));
                            if t[k] != t[i + 1] {
                                lemma_mono_transitive(t[k], t[i + 1], v);
                            }
                        }
                    }
                }
                assert forall|a: int, b: int| 0 <= a < b < after.len() implies mono_lt(
                    after[b],
                    after[a],
                ) by {
                    if b < before.len() {
                        assert(after[a] == before[a] && after[b] == before[b]);
                    } else {
                        assert(after[a] == before[a]);
                        assert(mono_lt(t[i as int], before[a]));
                    }
                }
            }
            i = i + 1;
        }
    }
    proof {
        assert(t.subrange(0, n as int) =~= t);
        assert(views(res@).to_set() =~= odd_set(t));
    }
    res
}

/// A polynomial over GF(2): a sum of monomials that differ, kept in decreasing order.
#[derive(Debug)]
pub struct Polynomial {
    terms: Vec<Monomial>,
}

impl View for Polynomial {
    type V = Seq<Set<usize>>;

    /// The monomials of the polynomial, in the order in which it keeps them.
    closed spec fn view(&self) -> Seq<Set<usize>> {
        views(self.terms@)
    }
}

impl Polynomial {
    /// The monomials are in decreasing order, so that none occurs twice.
    pub open spec fn wf(&self) -> bool {
        strictly_decreasing(self@)
    }

    /// The monomials of the polynomial, as a set.
    pub open spec fn term_set(&self) -> Set<Set<usize>> {
        self@.to_set()
    }

    /// The polynomial 0.
    pub fn zero() -> (r: Self)
        ensures
            r.wf(),
            r@ == Seq::<Set<usize>>::empty(),
    {
        let r = Polynomial { terms: Vec::new() };
        assert(r@ =~= Seq::<Set<usize>>::empty());
        r
    }

    /// The polynomial of one monomial.
    pub fn monomial(mon: Monomial) -> (r: Self)
        ensures
            r.wf(),
            r@ == seq![mon@],
    {
        let mut terms: Vec<Monomial> = Vec::new();
        terms.push(mon);
        let r = Polynomial { terms };
        assert(r@ =~= seq![mon@]);
        r
    }

    /// The polynomial 1.
    pub fn one() -> (r: Self)
        ensures
            r.wf(),
            r@ == seq![Set::<usize>::empty()],
    {
        Self::monomial(Monomial::one())
    }

    /// The polynomial of the variable `var` alone.
    pub fn from_var(var: usize) -> (r: Self)
        requires
            var < usize::MAX,
        ensures
            r.wf(),
            r@ == seq![set![var]],
    {
        Self::monomial(Monomial::from_var(var))
    }

    /// The monomials of the polynomial, greatest first.
    pub fn terms(&self) -> (t: &Vec<Monomial>)
        ensures
            views(t@) == self@,
    {
        &self.terms
    }

    /// The sum over GF(2) of the monomials of a list.
    pub fn from_mon_vec(mons: Vec<Monomial>) -> (r: Self)
        ensures
            r.wf(),
            r.term_set() == odd_set(views(mons@)),
    {
        let mut mons = mons;
        let ghost given = views(mons@);
        sort_descending(&mut mons);
        let ghost sorted = views(mons@);
        let terms = remove_pairs(mons);
        proof {
            assert forall|m: Set<usize>| occurs_odd(sorted, m) == occurs_odd(given, m) by {
                lemma_occurs_odd_count(sorted, m);
                lemma_occurs_odd_count(given, m);
            }
            assert(odd_set(sorted) =~= odd_set(given));
        }
        Polynomial { terms }
    }
}

impl Clone for Polynomial {
    fn clone(&self) -> (r: Self)
        ensures
            r@ == self@,
    {
        let mut terms: Vec<Monomial> = Vec::new();
        let mut i: usize = 0;
        while i < self.terms.len()
            invariant
                i <= self.terms@.len(),
                terms@.len() == i,
                forall|k: int| 0 <= k < i ==> terms@[k]@ == self.terms@[k]@,
            decreases self.terms@.len() - i,
        {
            terms.push(self.terms[i].clone());
            i = i + 1;
        }
        let r = Polynomial { terms };
        assert(r@ =~= self@);
        r
    }
}

impl PartialEq for Polynomial {
    fn eq(&self, other: &Self) -> (r: bool) {
        if self.terms.len() != other.terms.len() {
            assert(self@.len() != other@.len());
            return false;
        }
        let mut i: usize = 0;
        while i < self.terms.len()
            invariant
                i <= self.terms@.len(),
                self.terms@.len() == other.terms@.len(),
                forall|k: int| 0 <= k < i ==> self@[k] == other@[k],
            decreases self.terms@.len() - i,
        {
            if !self.terms[i].equals(&other.terms[i]) {
                assert(self@[i as int] != other@[i as int]);
                return false;
            }
            i = i + 1;
        }
        assert(self@ =~= other@);
        true
    }
}

impl vstd::std_specs::cmp::PartialEqSpecImpl for Polynomial {
    open spec fn obeys_eq_spec() -> bool {
        true
    }

    open spec fn eq_spec(&self, other: &Self) -> bool {
        self@ == other@
    }
}

impl Polynomial {
    /// The sum of two polynomials: the monomials that one of them holds alone.
    pub fn add(&self, other: &Polynomial) -> (r: Polynomial)
        requires
            self.wf(),
            other.wf(),
        ensures
            r.wf(),
            r.term_set() == sym_diff(self.term_set(), other.term_set()),
    {
        let ghost a = self@;
        let ghost b = other@;
        let n1 = self.terms.len();
        let n2 = other.terms.len();
        let mut res: Vec<Monomial> = Vec::new();
        let mut i: usize = 0;
        let mut j: usize = 0;
        while i < n1 || j < n2
            invariant
                i <= n1,
                j <= n2,
                n1 == self.terms@.len(),
                n2 == other.terms@.len(),
                a == views(self.terms@),
                b == views(other.terms@),
                strictly_decreasing(a),
                strictly_decreasing(b),
                strictly_decreasing(views(res@)),
                i < n1 ==> forall|k: int|
                    0 <= k < res@.len() ==> mono_lt(a[i as int], #[trigger] views(res@)[k]),
                j < n2 ==> forall|k: int|
                    0 <= k < res@.len() ==> mono_lt(b[j as int], #[trigger] views(res@)[k]),
                i < n1 ==> forall|t: int| 0 <= t < j ==> mono_lt(a[i as int], #[trigger] b[t]),
                j < n2 ==> forall|s: int| 0 <= s < i ==> mono_lt(b[j as int], #[trigger] a[s]),
                forall|m: Set<usize>|
                    views(res@).contains(m) <==> (in_prefix(a, i as int, m) != in_prefix(
                        b,
                        j as int,
                        m,
                    )),
            decreases (n1 - i) + (n2 - j),
        {
            let ghost before = views(res@);
            let ghost i0 = i as int;
            let ghost j0 = j as int;
            let order = if i == n1 {
                MonomialOrder::Less
            } else if j == n2 {
                MonomialOrder::Greater
            } else {
                self.terms[i].compare(&other.terms[j])
            };
            match order {
                MonomialOrder::Greater => {
                    res.push(self.terms[i].clone());
                    i = i + 1;
                },
                MonomialOrder::Less => {
                    res.push(other.terms[j].clone());
                    j = j + 1;
                },
                MonomialOrder::Equal => {
                    i = i + 1;
                    j = j + 1;
                },
            }
            proof {
                let after = views(res@);
                let took_a = i > i0;
                let took_b = j > j0;
                let x = if took_a {
                    a[i0]
                } else {
                    b[j0]
                };
                if took_a && took_b {
                    assert(after =~= before);
                } else {
                    assert(after =~= before.push(x));
                }
                // the monomial taken is new on every side
                assert(!before.contains(x)) by {
                    if before.contains(x) {
                        let k = choose|k: int| 0 <= k < before.len() && before[k] == x;
                        if took_a {
                            lemma_mono_asymmetric(a[i0], before[k]);
                        } else {
                            lemma_mono_asymmetric(b[j0], before[k]);
                        }
                    }
                }
                if took_a {
                    assert(!in_prefix(a, i0, x)) by {
                        if in_prefix(a, i0, x) {
                            let s = choose|s: int| 0 <= s < i0 && s < a.len() && #[trigger] a[s] == x;
                            lemma_mono_asymmetric(a[i0], a[s]);
                        }
                    }
                    if !took_b {
                        assert(!in_prefix(b, j0, x)) by {
                            if in_prefix(b, j0, x) {
                                let t = choose|t: int|
                                    0 <= t < j0 && t < b.len() && #[trigger] b[t] == x;
                                lemma_mono_asymmetric(a[i0], b[t]);
                            }
                        }
                    }
                }
                if took_b {
                    assert(!in_prefix(b, j0, x)) by {
                        if in_prefix(b, j0, x) {
                            let t = choose|t: int| 0 <= t < j0 && t < b.len() && #[trigger] b[t] == x;
                            lemma_mono_asymmetric(b[j0], b[t]);
                        }
                    }
                    if !took_a {
                        assert(!in_prefix(a, i0, x)) by {
                            if in_prefix(a, i0, x) {
                                let s = choose|s: int|
                                    0 <= s < i0 && s < a.len() && #[trigger] a[s] == x;
                                lemma_mono_asymmetric(b[j0], a[s]);
                            }
                        }
                    }
                }
                assert forall|m: Set<usize>|
                    after.contains(m) <==> (in_prefix(a, i as int, m) != in_prefix(
                        b,
                        j as int,
                        m,
                    )) by {
                    if took_a {
                        lemma_in_prefix_step(a, i0, m);
                    }
                    if took_b {
                        lemma_in_prefix_step(b, j0, m);
                    }
                    if !(took_a && took_b) {
                        lemma_contains_push(before, x, m);
                    }
                }
                // what was taken comes before all that was given out, and after the heads
                assert forall|p: int, q: int| 0 <= p < q < after.len() implies mono_lt(
                    after[q],
                    after[p],
                ) by {
                    if q < before.len() {
                        assert(after[p] == before[p] && after[q] == before[q]);
                    } else {
                        assert(after[p] == before[p]);
                    }
                }
                if i < n1 {
                    assert forall|k: int| 0 <= k < after.len() implies mono_lt(
                        a[i as int],
                        #[trigger] after[k],
                    ) by {
                        if k < before.len() {
                            assert(after[k] == before[k]);
                            if took_a {
                                lemma_mono_transitive(a[i as int], a[i0], before[k]);
                            }
                        } else {
                            assert(after[k] == x);
                        }
                    }
                    assert forall|t: int| 0 <= t < j implies mono_lt(
                        a[i as int],
                        #[trigger] b[t],
                    ) by {
                        if took_a {
                            if t < j0 {
                                lemma_mono_transitive(a[i as int], a[i0], b[t]);
                            }
                        }
                    }
                }
                if j < n2 {
                    assert forall|k: int| 0 <= k < after.len() implies mono_lt(
                        b[j as int],
                        #[trigger] after[k],
                    ) by {
                        if k < before.len() {
                            assert(after[k] == before[k]);
                            if took_b {
                                lemma_mono_transitive(b[j as int], b[j0], before[k]);
                            }
                        } else {
                            assert(after[k] == x);
                        }
                    }
                    assert forall|s: int| 0 <= s < i implies mono_lt(
                        b[j as int],
                        #[trigger] a[s],
                    ) by {
                        if took_b {
                            if s < i0 {
                                lemma_mono_transitive(b[j as int], b[j0], a[s]);
                            }
                        }
                    }
                }
            }
        }
        let r = Polynomial { terms: res };
        proof {
            assert forall|m: Set<usize>|
                r.term_set().contains(m) <==> sym_diff(self.term_set(), other.term_set()).contains(
                    m,
                ) by {
                if in_prefix(a, n1 as int, m) {
                    let s = choose|s: int| 0 <= s < n1 && s < a.len() && #[trigger] a[s] == m;
                    assert(a[s] == m);
                }
                if a.contains(m) {
                    let s = choose|s: int| 0 <= s < a.len() && a[s] == m;
                    assert(a[s] == m);
                }
                if in_prefix(b, n2 as int, m) {
                    let t = choose|t: int| 0 <= t < n2 && t < b.len() && #[trigger] b[t] == m;
                    assert(b[t] == m);
                }
                if b.contains(m) {
                    let t = choose|t: int| 0 <= t < b.len() && b[t] == m;
                    assert(b[t] == m);
                }
            }
            assert(r.term_set() =~= sym_diff(self.term_set(), other.term_set()));
        }
        r
    }

    /// Adds the monomial `mon` to the polynomial: it joins the monomials, or leaves them where
    /// it was among them.
    pub fn add_monomial(&mut self, mon: Monomial)
        requires
            old(self).wf(),
        ensures
            final(self).wf(),
            final(self).term_set() == sym_diff(old(self).term_set(), set![mon@]),
    {
        let other = Self::monomial(mon);
        assert(other.term_set() =~= set![mon@]) by {
            assert(other@[0] == mon@);
        }
        let sum = self.add(&other);
        *self = sum;
    }

    /// Adds the polynomial `other` to the polynomial.
    pub fn add_assign(&mut self, other: &Polynomial)
        requires
            old(self).wf(),
            other.wf(),
        ensures
            final(self).wf(),
            final(self).term_set() == sym_diff(old(self).term_set(), other.term_set()),
    {
        let sum = self.add(other);
        *self = sum;
    }

    /// The polynomial plus 1.
    pub fn not(&self) -> (r: Polynomial)
        requires
            self.wf(),
        ensures
            r.wf(),
            r.term_set() == sym_diff(self.term_set(), set![Set::<usize>::empty()]),
    {
        let one = Self::one();
        let r = self.add(&one);
        assert(one.term_set() =~= set![Set::<usize>::empty()]) by {
            assert(one@[0] == Set::<usize>::empty());
        }
        r
    }

    /// The product of two polynomials: the sum over GF(2) of the products of each monomial of
    /// one with each monomial of the other.
    pub fn mul(&self, other: &Polynomial) -> (r: Polynomial)
        ensures
            r.wf(),
            r.term_set() == odd_set(products(self@, other@)),
    {
        let ghost a = self@;
        let ghost b = other@;
        let n1 = self.terms.len();
        let n2 = other.terms.len();
        let mut sum: Vec<Monomial> = Vec::new();
        let mut i: usize = 0;
        while i < n1
            invariant
                i <= n1,
                n1 == self.terms@.len(),
                n2 == other.terms@.len(),
                a == views(self.terms@),
                b == views(other.terms@),
                views(sum@) == products(a.subrange(0, i as int), b),
            decreases n1 - i,
        {
            let ghost row_start = views(sum@);
            let mut j: usize = 0;
            while j < n2
                invariant
                    i < n1,
                    j <= n2,
                    n1 == self.terms@.len(),
                    n2 == other.terms@.len(),
                    a == views(self.terms@),
                    b == views(other.terms@),
                    views(sum@) == row_start + row_products(a[i as int], b).subrange(0, j as int),
                decreases n2 - j,
            {
                let ghost before = views(sum@);
                sum.push(self.terms[i].mul(&other.terms[j]));
                proof {
                    assert(views(sum@) =~= before.push(a[i as int].union(b[j as int])));
                    assert(views(sum@) =~= row_start + row_products(a[i as int], b).subrange(
                        0,
                        j + 1,
                    ));
                }
                j = j + 1;
            }
            proof {
                let head1 = a.subrange(0, i + 1);
                assert(head1.drop_last() =~= a.subrange(0, i as int));
                assert(head1.last() == a[i as int]);
                assert(row_products(a[i as int], b).subrange(0, n2 as int) =~= row_products(
                    a[i as int],
                    b,
                ));
            }
            i = i + 1;
        }
        assert(a.subrange(0, n1 as int) =~= a);
        Self::from_mon_vec(sum)
    }

    /// The variables of the monomials of the polynomial: of all, or of those of degree two or
    /// more.
    fn collect_variables(&self, products_only: bool) -> (res: Monomial)
        ensures
            res@ == variables_of(self@, products_only),
    {
        let ghost t = self@;
        let mut res = Monomial::one();
        let mut i: usize = 0;
        assert(res@ =~= variables_of(t.subrange(0, 0), products_only));
        while i < self.terms.len()
            invariant
                i <= self.terms@.len(),
                t == views(self.terms@),
                res@ == variables_of(t.subrange(0, i as int), products_only),
            decreases self.terms@.len() - i,
        {
            proof {
                lemma_variables_of_step(t, i as int, products_only);
            }
            if !products_only || self.terms[i].degree() > 1 {
                res.mul_assign(&self.terms[i]);
            }
            i = i + 1;
        }
        assert(t.subrange(0, self.terms@.len() as int) =~= t);
        res
    }

    /// The product of the monomials of degree two or more.
    pub fn product_terms(&self) -> (res: Monomial)
        ensures
            res@ == product_variables(self@),
    {
        self.collect_variables(true)
    }

    /// The variables of the polynomial, as a bit set.
    pub fn variables_set(&self) -> (res: bit_set::BitSet<u64>)
        ensures
            set_elements(res) == variables_of(self@, false),
    {
        let m = self.collect_variables(false);
        set_clone(m.variable_set())
    }

    /// The variables of the polynomial, in increasing order.
    pub fn variables(&self) -> (v: Vec<usize>)
        ensures
            forall|i: int, j: int| 0 <= i < j < v@.len() ==> v@[i] < v@[j],
            forall|x: usize| variables_of(self@, false).contains(x) <==> v@.contains(x),
    {
        self.collect_variables(false).variables()
    }

    /// The monomials of degree one, greatest first.
    pub fn first_order_monomials(&self) -> (res: Vec<Monomial>)
        ensures
            views(res@) == first_order(self@),
    {
        let ghost t = self@;
        let mut res: Vec<Monomial> = Vec::new();
        let mut i: usize = 0;
        assert(views(res@) =~= first_order(t.subrange(0, 0)));
        while i < self.terms.len()
            invariant
                i <= self.terms@.len(),
                t == views(self.terms@),
                views(res@) == first_order(t.subrange(0, i as int)),
            decreases self.terms@.len() - i,
        {
            let ghost before = views(res@);
            proof {
                let head1 = t.subrange(0, i + 1);
                assert(head1.drop_last() =~= t.subrange(0, i as int));
                assert(head1.last() == t[i as int]);
            }
            if self.terms[i].degree() == 1 {
                res.push(self.terms[i].clone());
                assert(views(res@) =~= before.push(t[i as int]));
            }
            i = i + 1;
        }
        assert(t.subrange(0, self.terms@.len() as int) =~= t);
        res
    }

    /// The primitive monomials, greatest first: each a variable alone that occurs in no
    /// monomial of degree two or more.
    pub fn primitive_monomials(&self) -> (res: Vec<Monomial>)
        ensures
            views(res@) == primitives(self@, self@),
    {
        let ghost t = self@;
        let pt = self.product_terms();
        let mut res: Vec<Monomial> = Vec::new();
        let mut i: usize = 0;
        assert(views(res@) =~= primitives(t.subrange(0, 0), t));
        while i < self.terms.len()
            invariant
                i <= self.terms@.len(),
                t == views(self.terms@),
                pt@ == product_variables(t),
                views(res@) == primitives(t.subrange(0, i as int), t),
            decreases self.terms@.len() - i,
        {
            let ghost before = views(res@);
            proof {
                let head1 = t.subrange(0, i + 1);
                assert(head1.drop_last() =~= t.subrange(0, i as int));
                assert(head1.last() == t[i as int]);
            }
            if self.terms[i].degree() == 1 && !self.terms[i].divides(&pt) {
                res.push(self.terms[i].clone());
                assert(views(res@) =~= before.push(t[i as int]));
            }
            i = i + 1;
        }
        assert(t.subrange(0, self.terms@.len() as int) =~= t);
        res
    }
}

/// Whether the products of the monomial `a` with the monomials of `t` hold `m` an odd number
/// of times.
pub open spec fn row_odd(a: Set<usize>, t: Seq<Set<usize>>, m: Set<usize>) -> bool
    decreases t.len(),
{
    if t.len() == 0 {
        false
    } else {
        row_odd(a, t.drop_last(), m) != (a.union(t.last()) == m)
    }
}

proof fn lemma_row_odd(a: Set<usize>, t: Seq<Set<usize>>, m: Set<usize>)
    ensures
        occurs_odd(row_products(a, t), m) == row_odd(a, t, m),
    decreases t.len(),
{
    if t.len() > 0 {
        assert(row_products(a, t).drop_last() =~= row_products(a, t.drop_last()));
        lemma_row_odd(a, t.drop_last(), m);
    }
}

proof fn lemma_products_push(p: Seq<Set<usize>>, a: Set<usize>, q: Seq<Set<usize>>, m: Set<usize>)
    ensures
        occurs_odd(products(p.push(a), q), m) == (occurs_odd(products(p, q), m) != row_odd(
            a,
            q,
            m,
        )),
{
    assert(p.push(a).drop_last() =~= p);
    lemma_occurs_odd_split(products(p, q), row_products(a, q), m);
    lemma_row_odd(a, q, m);
}

proof fn lemma_products_column(
    p: Seq<Set<usize>>,
    q: Seq<Set<usize>>,
    b: Set<usize>,
    m: Set<usize>,
)
    ensures
        occurs_odd(products(p, q.push(b)), m) == (occurs_odd(products(p, q), m) != row_odd(
            b,
            p,
            m,
        )),
    decreases p.len(),
{
    if p.len() > 0 {
        let d = p.drop_last();
        let a = p.last();
        assert(p =~= d.push(a));
        lemma_products_column(d, q, b, m);
        lemma_products_push(d, a, q.push(b), m);
        lemma_products_push(d, a, q, m);
        assert(q.push(b).drop_last() =~= q);
        assert(a.union(b) =~= b.union(a));
    }
}

proof fn lemma_products_none(q: Seq<Set<usize>>, m: Set<usize>)
    ensures
        !occurs_odd(products(q, Seq::empty()), m),
    decreases q.len(),
{
    if q.len() > 0 {
        lemma_products_none(q.drop_last(), m);
        lemma_occurs_odd_split(
            products(q.drop_last(), Seq::empty()),
            row_products(q.last(), Seq::empty()),
            m,
        );
    }
}

proof fn lemma_products_swap(p: Seq<Set<usize>>, q: Seq<Set<usize>>, m: Set<usize>)
    ensures
        occurs_odd(products(p, q), m) == occurs_odd(products(q, p), m),
    decreases p.len(),
{
    if p.len() == 0 {
        assert(p =~= Seq::empty());
        lemma_products_none(q, m);
    } else {
        let d = p.drop_last();
        let a = p.last();
        assert(p =~= d.push(a));
        lemma_products_swap(d, q, m);
        lemma_products_push(d, a, q, m);
        lemma_products_column(q, d, a, m);
    }
}

proof fn lemma_row_odd_remove(a: Set<usize>, t: Seq<Set<usize>>, k: int, m: Set<usize>)
    requires
        0 <= k < t.len(),
    ensures
        row_odd(a, t, m) == (row_odd(a, t.remove(k), m) != (a.union(t[k]) == m)),
    decreases t.len(),
{
    if k == t.len() - 1 {
        assert(t.remove(k) =~= t.drop_last());
    } else {
        assert(t.remove(k).drop_last() =~= t.drop_last().remove(k));
        assert(t.remove(k).last() == t.last());
        lemma_row_odd_remove(a, t.drop_last(), k, m);
    }
}

proof fn lemma_remove_distinct(t: Seq<Set<usize>>, k: int)
    requires
        t.no_duplicates(),
        0 <= k < t.len(),
    ensures
        t.remove(k).no_duplicates(),
        forall|m: Set<usize>| t.remove(k).contains(m) <==> (t.contains(m) && m != t[k]),
{
    let r = t.remove(k);
    assert forall|i: int, j: int| 0 <= i < r.len() && 0 <= j < r.len() && i != j implies r[i]
        != r[j] by {
        let i2 = if i < k {
            i
        } else {
            i + 1
        };
        let j2 = if j < k {
            j
        } else {
            j + 1
        };
        assert(r[i] == t[i2] && r[j] == t[j2]);
    }
    assert forall|m: Set<usize>| r.contains(m) <==> (t.contains(m) && m != t[k]) by {
        if r.contains(m) {
            let i = choose|i: int| 0 <= i < r.len() && r[i] == m;
            let i2 = if i < k {
                i
            } else {
                i + 1
            };
            assert(t[i2] == m);
        }
        if t.contains(m) && m != t[k] {
            let i = choose|i: int| 0 <= i < t.len() && t[i] == m;
            let i2 = if i < k {
                i
            } else {
                i - 1
            };
            assert(r[i2] == m);
        }
    }
}

proof fn lemma_row_odd_sym_diff(
    a: Set<usize>,
    q: Seq<Set<usize>>,
    r: Seq<Set<usize>>,
    s: Seq<Set<usize>>,
    m: Set<usize>,
)
    requires
        q.no_duplicates(),
        r.no_duplicates(),
        s.no_duplicates(),
        forall|x: Set<usize>| s.contains(x) <==> (q.contains(x) != r.contains(x)),
    ensures
        row_odd(a, s, m) == (row_odd(a, q, m) != row_odd(a, r, m)),
    decreases q.len() + r.len(),
{
    if q.len() > 0 {
        let x = q.last();
        let k = q.len() - 1;
        assert(q[k] == x);
        assert(q.contains(x));
        lemma_remove_distinct(q, k);
        lemma_row_odd_remove(a, q, k, m);
        if r.contains(x) {
            let kr = choose|kr: int| 0 <= kr < r.len() && r[kr] == x;
            lemma_remove_distinct(r, kr);
            lemma_row_odd_remove(a, r, kr, m);
            lemma_row_odd_sym_diff(a, q.remove(k), r.remove(kr), s, m);
        } else {
            let ks = choose|ks: int| 0 <= ks < s.len() && s[ks] == x;
            lemma_remove_distinct(s, ks);
            lemma_row_odd_remove(a, s, ks, m);
            lemma_row_odd_sym_diff(a, q.remove(k), r, s.remove(ks), m);
        }
    } else if r.len() > 0 {
        let x = r.last();
        let k = r.len() - 1;
        assert(r[k] == x);
        assert(r.contains(x));
        assert(!q.contains(x));
        lemma_remove_distinct(r, k);
        lemma_row_odd_remove(a, r, k, m);
        let ks = choose|ks: int| 0 <= ks < s.len() && s[ks] == x;
        lemma_remove_distinct(s, ks);
        lemma_row_odd_remove(a, s, ks, m);
        lemma_row_odd_sym_diff(a, q, r.remove(k), s.remove(ks), m);
    } else {
        if s.len() > 0 {
            assert(s.contains(s[0]));
        }
    }
}

proof fn lemma_products_sym_diff(
    p: Seq<Set<usize>>,
    q: Seq<Set<usize>>,
    r: Seq<Set<usize>>,
    s: Seq<Set<usize>>,
    m: Set<usize>,
)
    requires
        q.no_duplicates(),
        r.no_duplicates(),
        s.no_duplicates(),
        forall|x: Set<usize>| s.contains(x) <==> (q.contains(x) != r.contains(x)),
    ensures
        occurs_odd(products(p, s), m) == (occurs_odd(products(p, q), m) != occurs_odd(
            products(p, r),
            m,
        )),
    decreases p.len(),
{
    if p.len() > 0 {
        let d = p.drop_last();
        let a = p.last();
        assert(p =~= d.push(a));
        lemma_products_sym_diff(d, q, r, s, m);
        lemma_products_push(d, a, q, m);
        lemma_products_push(d, a, r, m);
        lemma_products_push(d, a, s, m);
        lemma_row_odd_sym_diff(a, q, r, s, m);
    }
}

/// A polynomial is given by the set of its monomials: two lists in decreasing order that
/// hold the same monomials are the same list.
pub proof fn lemma_terms_unique(a: Seq<Set<usize>>, b: Seq<Set<usize>>)
    requires
        strictly_decreasing(a),
        strictly_decreasing(b),
        a.to_set() == b.to_set(),
    ensures
        a == b,
    decreases a.len(),
{
    if a.len() == 0 {
        if b.len() > 0 {
            assert(b.contains(b[0]));
            assert(b.to_set().contains(b[0]));
            assert(a.to_set().contains(b[0]));
        }
        assert(a =~= b);
    } else {
        let x = a.last();
        let ka = a.len() - 1;
        assert(a[ka] == x);
        assert(a.contains(x));
        assert(a.to_set().contains(x));
        assert(b.to_set().contains(x));
        assert(b.contains(x));
        let y = b.last();
        let kb = b.len() - 1;
        assert(b[kb] == y);
        assert(b.contains(y));
        assert(b.to_set().contains(y));
        assert(a.to_set().contains(y));
        assert(a.contains(y));
        let ia = choose|ia: int| 0 <= ia < a.len() && a[ia] == y;
        let ib = choose|ib: int| 0 <= ib < b.len() && b[ib] == x;
        if x != y {
            assert(ia < ka);
            assert(ib < kb);
            assert(mono_lt(x, y));
            assert(mono_lt(y, x));
            lemma_mono_asymmetric(x, y);
        }
        lemma_strictly_decreasing_distinct(a);
        lemma_strictly_decreasing_distinct(b);
        lemma_remove_distinct(a, ka);
        lemma_remove_distinct(b, kb);
        assert(a.remove(ka) =~= a.drop_last());
        assert(b.remove(kb) =~= b.drop_last());
        assert(a.drop_last().to_set() =~= b.drop_last().to_set()) by {
            assert forall|m: Set<usize>|
                a.drop_last().to_set().contains(m) <==> b.drop_last().to_set().contains(m) by {
                assert(a.to_set().contains(m) == b.to_set().contains(m));
                assert(a.to_set().contains(m) == a.contains(m));
                assert(b.to_set().contains(m) == b.contains(m));
                assert(a.remove(ka).contains(m) <==> (a.contains(m) && m != a[ka]));
                assert(b.remove(kb).contains(m) <==> (b.contains(m) && m != b[kb]));
                assert(a.drop_last().to_set().contains(m) == a.drop_last().contains(m));
                assert(b.drop_last().to_set().contains(m) == b.drop_last().contains(m));
            }
        }
        assert(strictly_decreasing(a.drop_last())) by {
            assert forall|i: int, j: int| 0 <= i < j < a.drop_last().len() implies mono_lt(
                a.drop_last()[j],
                a.drop_last()[i],
            ) by {
                assert(a.drop_last()[i] == a[i] && a.drop_last()[j] == a[j]);
            }
        }
        assert(strictly_decreasing(b.drop_last())) by {
            assert forall|i: int, j: int| 0 <= i < j < b.drop_last().len() implies mono_lt(
                b.drop_last()[j],
                b.drop_last()[i],
            ) by {
                assert(b.drop_last()[i] == b[i] && b.drop_last()[j] == b[j]);
            }
        }
        lemma_terms_unique(a.drop_last(), b.drop_last());
        assert(a =~= a.drop_last().push(x));
        assert(b =~= b.drop_last().push(y));
    }
}

/// A polynomial plus itself is 0.
pub proof fn lemma_add_self(p: Polynomial)
    ensures
        sym_diff(p.term_set(), p.term_set()) == Set::<Set<usize>>::empty(),
{
    assert(sym_diff(p.term_set(), p.term_set()) =~= Set::<Set<usize>>::empty());
}

/// The sum of two polynomials does not depend on their order.
pub proof fn lemma_add_commutes(p: Polynomial, q: Polynomial)
    ensures
        sym_diff(p.term_set(), q.term_set()) == sym_diff(q.term_set(), p.term_set()),
{
    assert(sym_diff(p.term_set(), q.term_set()) =~= sym_diff(q.term_set(), p.term_set()));
}

/// The product of two polynomials does not depend on their order.
pub proof fn lemma_mul_commutes(p: Polynomial, q: Polynomial)
    ensures
        odd_set(products(p@, q@)) == odd_set(products(q@, p@)),
{
    assert forall|m: Set<usize>|
        odd_set(products(p@, q@)).contains(m) == odd_set(products(q@, p@)).contains(m) by {
        lemma_products_swap(p@, q@, m);
    }
    assert(odd_set(products(p@, q@)) =~= odd_set(products(q@, p@)));
}

/// The product distributes over the sum: where `s` is the sum of `q` and `r`, the product of
/// `p` and `s` is the sum of the products of `p` with `q` and of `p` with `r`.
pub proof fn lemma_mul_distributes(p: Polynomial, q: Polynomial, r: Polynomial, s: Polynomial)
    requires
        q.wf(),
        r.wf(),
        s.wf(),
        s.term_set() == sym_diff(q.term_set(), r.term_set()),
    ensures
        odd_set(products(p@, s@)) == sym_diff(
            odd_set(products(p@, q@)),
            odd_set(products(p@, r@)),
        ),
{
    lemma_strictly_decreasing_distinct(q@);
    lemma_strictly_decreasing_distinct(r@);
    lemma_strictly_decreasing_distinct(s@);
    assert forall|x: Set<usize>| s@.contains(x) <==> (q@.contains(x) != r@.contains(x)) by {
        assert(s.term_set().contains(x) == sym_diff(q.term_set(), r.term_set()).contains(x));
        assert(s@.to_set().contains(x) == s@.contains(x));
        assert(q@.to_set().contains(x) == q@.contains(x));
        assert(r@.to_set().contains(x) == r@.contains(x));
    }
    let l = odd_set(products(p@, s@));
    let rr = sym_diff(odd_set(products(p@, q@)), odd_set(products(p@, r@)));
    assert forall|m: Set<usize>| l.contains(m) == rr.contains(m) by {
        lemma_products_sym_diff(p@, q@, r@, s@, m);
    }
    assert(l =~= rr);
}

/// Two polynomials with the same monomials are the same.
pub proof fn lemma_polynomial_unique(p: Polynomial, q: Polynomial)
    requires
        p.wf(),
        q.wf(),
        p.term_set() == q.term_set(),
    ensures
        p@ == q@,
{
    lemma_terms_unique(p@, q@);
}

/// Whether `x` is a variable of one of the polynomials.
pub open spec fn is_listed_variable(polys: Seq<Polynomial>, x: usize) -> bool {
    exists|k: int| 0 <= k < polys.len() && #[trigger] variables_of(polys[k]@, false).contains(x)
}

/// The variables of a list of polynomials, as a bit set.
pub fn poly_list_vars(polys: &[Polynomial]) -> (res: bit_set::BitSet<u64>)
    ensures
        forall|x: usize| set_elements(res).contains(x) <==> is_listed_variable(polys@, x),
{
    let mut res = empty_set();
    let mut k: usize = 0;
    while k < polys.len()
        invariant
            k <= polys@.len(),
            forall|x: usize|
                set_elements(res).contains(x) <==> is_listed_variable(polys@.subrange(0, k as int), x),
        decreases polys@.len() - k,
    {
        let vars = polys[k].variables_set();
        let ghost before = set_elements(res);
        set_union_with(&mut res, &vars);
        proof {
            let pre = polys@.subrange(0, k as int);
            let nxt = polys@.subrange(0, k + 1);
            assert forall|x: usize|
                set_elements(res).contains(x) <==> is_listed_variable(nxt, x) by {
                if is_listed_variable(pre, x) {
                    let t = choose|t: int|
                        0 <= t < pre.len() && #[trigger] variables_of(pre[t]@, false).contains(x);
                    assert(nxt[t] == pre[t]);
                    assert(variables_of(nxt[t]@, false).contains(x));
                }
                if set_elements(vars).contains(x) {
                    assert(variables_of(nxt[k as int]@, false).contains(x));
                }
                if is_listed_variable(nxt, x) {
                    let t = choose|t: int|
                        0 <= t < nxt.len() && #[trigger] variables_of(nxt[t]@, false).contains(x);
                    if t < k {
                        assert(pre[t] == nxt[t]);
                        assert(variables_of(pre[t]@, false).contains(x));
                    }
                }
            }
        }
        k = k + 1;
    }
    assert(polys@.subrange(0, polys@.len() as int) =~= polys@);
    res
}

} // verus!
