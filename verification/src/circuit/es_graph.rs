//! The working graph of a circuit under a set of probes, and its simplification.
//!
//! The graph holds, for each variable, where it comes from, whether it is probed, and the
//! variables that use it. A variable that is neither probed nor used is dead: it is taken out
//! of the lists of its operands.
use super::poly::{
    occurs_odd, primitives, products, row_products, variables_of, views, Monomial, Polynomial,
};
use super::sl_sc::{anf_of, lemma_terms_of, terms_of, topological, SlSharedCircuit, VarSrc};
use super::utils::{increasing, it_complement, sort_indices, sorted};
use super::var_set::VarIdx;
use vstd::prelude::*;

verus! {

/// How often `x` occurs in the list.
pub open spec fn occurrences(s: Seq<usize>, x: usize) -> nat
    decreases s.len(),
{
    if s.len() == 0 {
        0
    } else {
        occurrences(s.drop_last(), x) + if s.last() == x {
            1nat
        } else {
            0nat
        }
    }
}

proof fn lemma_occurrences_remove(s: Seq<usize>, i: int, x: usize)
    requires
        0 <= i < s.len(),
    ensures
        occurrences(s, x) == occurrences(s.remove(i), x) + if s[i] == x {
            1nat
        } else {
            0nat
        },
    decreases s.len(),
{
    if i == s.len() - 1 {
        assert(s.remove(i) =~= s.drop_last());
    } else {
        assert(s.remove(i).drop_last() =~= s.drop_last().remove(i));
        assert(s.remove(i).last() == s.last());
        lemma_occurrences_remove(s.drop_last(), i, x);
    }
}

proof fn lemma_occurrences_push(s: Seq<usize>, y: usize, x: usize)
    ensures
        occurrences(s.push(y), x) == occurrences(s, x) + if y == x {
            1nat
        } else {
            0nat
        },
{
    assert(s.push(y).drop_last() =~= s);
}

proof fn lemma_occurrences_contains(s: Seq<usize>, x: usize)
    ensures
        occurrences(s, x) > 0 <==> s.contains(x),
    decreases s.len(),
{
    if s.len() > 0 {
        lemma_occurrences_contains(s.drop_last(), x);
        if s.drop_last().contains(x) {
            let i = choose|i: int| 0 <= i < s.drop_last().len() && s.drop_last()[i] == x;
            assert(s[i] == x);
        }
        if s.contains(x) {
            let i = choose|i: int| 0 <= i < s.len() && s[i] == x;
            if i < s.len() - 1 {
                assert(s.drop_last()[i] == x);
            }
        }
    }
}

proof fn lemma_occurrences_first(s: Seq<usize>, x: usize)
    requires
        s.len() > 0,
    ensures
        occurrences(s, x) == occurrences(s.subrange(1, s.len() as int), x) + if s[0] == x {
            1nat
        } else {
            0nat
        },
{
    lemma_occurrences_remove(s, 0, x);
    assert(s.remove(0) =~= s.subrange(1, s.len() as int));
}

/// A graph as the contracts see it.
pub struct GraphView {
    /// Where each variable comes from.
    pub srcs: Seq<VarSrc>,
    /// Whether each variable is probed.
    pub probed: Seq<bool>,
    /// The variables that use each variable, one entry for each use.
    pub succs: Seq<Seq<usize>>,
}

impl GraphView {
    /// The number of variables.
    pub open spec fn len(self) -> nat {
        self.srcs.len()
    }

    /// The lists are of one length, the variables in topological order, and each variable is
    /// used by later ones only.
    pub open spec fn bounds(self) -> bool {
        &&& self.srcs.len() <= usize::MAX
        &&& self.probed.len() == self.srcs.len()
        &&& self.succs.len() == self.srcs.len()
        &&& topological(self.srcs)
        &&& forall|v: int, k: int|
            0 <= v < self.succs.len() && 0 <= k < self.succs[v].len() ==> v < (
            #[trigger] self.succs[v][k]) < self.srcs.len()
    }

    /// Whether each operand of `s` lists `s` among its users, once for each use.
    pub open spec fn linked(self, s: int) -> bool {
        forall|v: int|
            0 <= v < self.succs.len() ==> occurrences(#[trigger] self.succs[v], s as usize)
                == occurrences(self.srcs[s].operands_spec(), v as usize)
    }

    /// Whether no variable lists `s` among its users.
    pub open spec fn unlinked(self, s: int) -> bool {
        forall|v: int|
            0 <= v < self.succs.len() ==> occurrences(#[trigger] self.succs[v], s as usize) == 0
    }

    /// Whether `v` is probed or used.
    pub open spec fn alive(self, v: int) -> bool {
        self.probed[v] || self.succs[v].len() > 0
    }

    /// A variable that is alive is linked, a dead one is not.
    pub open spec fn consistent(self, s: int) -> bool {
        if self.alive(s) {
            self.linked(s)
        } else {
            self.unlinked(s)
        }
    }

    /// The graph is within its bounds and every variable is consistent.
    pub open spec fn wf(self) -> bool {
        &&& self.bounds()
        &&& forall|s: int| 0 <= s < self.srcs.len() ==> #[trigger] self.consistent(s)
    }

    /// Whether `v` is a random bit that is not probed.
    pub open spec fn indep_random(self, v: int) -> bool {
        0 <= v < self.srcs.len() && !self.probed[v] && self.srcs[v] == VarSrc::Random
    }
}

/// Whether a variable is an input or a random bit.
pub open spec fn is_leaf(src: VarSrc) -> bool {
    src is Input || src is Random
}

/// Whether the variable `x` occurs in a monomial of the polynomial.
pub open spec fn variable_in(p: Set<Set<usize>>, x: usize) -> bool {
    exists|m: Set<usize>| p.contains(m) && #[trigger] m.contains(x)
}

/// Whether `x` is an input that one of the first `p` variables, probed, depends on.
pub open spec fn needed_before(g: GraphView, x: int, p: int) -> bool {
    g.srcs[x] is Input && exists|q: int|
        0 <= q < p && g.probed[q] && #[trigger] variable_in(anf_of(g.srcs, q as nat), x as usize)
}

proof fn lemma_needed_step(g: GraphView, x: int, p: int)
    requires
        0 <= p,
    ensures
        needed_before(g, x, p + 1) <==> (needed_before(g, x, p) || (g.srcs[x] is Input
            && g.probed[p] && variable_in(anf_of(g.srcs, p as nat), x as usize))),
{
    if needed_before(g, x, p) {
        let q = choose|q: int|
            0 <= q < p && g.probed[q] && #[trigger] variable_in(
                anf_of(g.srcs, q as nat),
                x as usize,
            );
        assert(variable_in(anf_of(g.srcs, q as nat), x as usize));
    }
    if needed_before(g, x, p + 1) {
        let q = choose|q: int|
            0 <= q < p + 1 && g.probed[q] && #[trigger] variable_in(
                anf_of(g.srcs, q as nat),
                x as usize,
            );
        if q < p {
            assert(variable_in(anf_of(g.srcs, q as nat), x as usize));
        }
    }
    if g.srcs[x] is Input && g.probed[p] && variable_in(anf_of(g.srcs, p as nat), x as usize) {
        assert(variable_in(anf_of(g.srcs, p as nat), x as usize));
    }
}

/// Whether `x` is an input that a probed variable depends on: it occurs in the algebraic
/// normal form of one.
pub open spec fn is_remaining_input(g: GraphView, x: usize) -> bool {
    x < g.srcs.len() && needed_before(g, x as int, g.srcs.len() as int)
}

struct WorkVar {
    src: VarSrc,
    probed: bool,
}

impl WorkVar {
    /// Whether the variable is a random bit that is not probed.
    fn is_indep_random(&self) -> (b: bool)
        ensures
            b == (!self.probed && self.src == VarSrc::Random),
    {
        !self.probed && self.src.is_random()
    }
}

/// The working graph of a circuit under a set of probes.
pub struct CompGraphWork {
    n_input_ports: usize,
    vars: Vec<WorkVar>,
    successors: Vec<Vec<VarIdx>>,
}

impl View for CompGraphWork {
    type V = GraphView;

    closed spec fn view(&self) -> GraphView {
        GraphView {
            srcs: Seq::new(self.vars@.len(), |i: int| self.vars@[i].src),
            probed: Seq::new(self.vars@.len(), |i: int| self.vars@[i].probed),
            succs: Seq::new(self.successors@.len(), |i: int| self.successors@[i]@),
        }
    }
}

impl CompGraphWork {
    /// The number of input ports of the circuit.
    pub closed spec fn input_ports(&self) -> usize {
        self.n_input_ports
    }

    /// Takes `var` out of the lists of its operands, an operand that is dead afterwards out of
    /// the lists of its own, and so on. Each operand that is still used, not probed and a
    /// random bit is added to `erased`.
    fn remove_succ_links_to(&mut self, var: VarIdx, erased: &mut Vec<VarIdx>)
        requires
            old(self)@.bounds(),
            var < old(self)@.len(),
            old(self)@.linked(var as int),
            forall|s: int| 0 <= s < var ==> #[trigger] old(self)@.consistent(s),
        ensures
            final(self)@.bounds(),
            final(self)@.srcs == old(self)@.srcs,
            final(self)@.probed == old(self)@.probed,
            final(self).input_ports() == old(self).input_ports(),
            final(self)@.unlinked(var as int),
            forall|s: int| 0 <= s < var ==> #[trigger] final(self)@.consistent(s),
            forall|v: int| var <= v < old(self)@.len() ==> final(self)@.succs[v] == old(self)@.succs[v],
            forall|v: int, s: usize|
                0 <= v < old(self)@.len() && s > var ==> #[trigger] occurrences(
                    final(self)@.succs[v],
                    s,
                ) == occurrences(old(self)@.succs[v], s),
            old(erased)@.is_prefix_of(final(erased)@),
            forall|k: int|
                old(erased)@.len() <= k < final(erased)@.len() ==> final(self)@.indep_random(
                    #[trigger] final(erased)@[k] as int,
                ),
        decreases var,
    {
        let src = self.vars[var].src;
        let ops = src.operands();
        let ghost g0 = self@;
        let ghost n = g0.len();
        assert(g0.srcs[var as int] == src);
        assert(ops@.subrange(0, ops@.len() as int) =~= ops@);
        let mut k: usize = 0;
        while k < ops.len()
            invariant
                k <= ops@.len(),
                var < n,
                n == g0.len(),
                ops@ == g0.srcs[var as int].operands_spec(),
                g0.bounds(),
                self@.bounds(),
                self@.srcs == g0.srcs,
                self@.probed == g0.probed,
                self.input_ports() == old(self).input_ports(),
                forall|v: int|
                    0 <= v < n ==> occurrences(#[trigger] self@.succs[v], var) == occurrences(
                        ops@.subrange(k as int, ops@.len() as int),
                        v as usize,
                    ),
                forall|s: int| 0 <= s < var ==> #[trigger] self@.consistent(s),
                forall|v: int| var <= v < n ==> self@.succs[v] == g0.succs[v],
                forall|v: int, s: usize|
                    0 <= v < n && s > var ==> #[trigger] occurrences(self@.succs[v], s)
                        == occurrences(g0.succs[v], s),
                old(erased)@.is_prefix_of(erased@),
                forall|j: int|
                    old(erased)@.len() <= j < erased@.len() ==> self@.indep_random(
                        #[trigger] erased@[j] as int,
                    ),
            decreases ops@.len() - k,
        {
            let op = ops[k];
            let ghost g1 = self@;
            let ghost rest = ops@.subrange(k as int, ops@.len() as int);
            proof {
                assert(g0.srcs[var as int].operands_spec()[k as int] < var);
                assert(rest[0] == op);
                lemma_occurrences_first(rest, op);
                assert(rest.subrange(1, rest.len() as int) =~= ops@.subrange(
                    k + 1,
                    ops@.len() as int,
                ));
                assert(occurrences(g1.succs[op as int], var) > 0);
                lemma_occurrences_contains(g1.succs[op as int], var);
            }
            // the place of `var` among the users of `op`
            let n_users = self.successors[op].len();
            let mut i: usize = 0;
            while self.successors[op][i] != var
                invariant
                    n_users == g1.succs[op as int].len(),
                    op < n,
                    self@ == g1,
                    g1.succs.len() == n,
                    g1.succs[op as int].contains(var),
                    i < g1.succs[op as int].len(),
                    g1.succs[op as int].len() == self.successors@[op as int]@.len(),
                    forall|j: int| 0 <= j < i ==> g1.succs[op as int][j] != var,
                decreases g1.succs[op as int].len() - i,
            {
                proof {
                    let w = choose|w: int|
                        0 <= w < g1.succs[op as int].len() && g1.succs[op as int][w] == var;
                    assert(w > i);
                }
                i = i + 1;
            }
            self.successors[op].remove(i);
            let ghost g2 = self@;
            proof {
                assert(g2.srcs =~= g1.srcs);
                assert(g2.probed =~= g1.probed);
                assert(g2.succs[op as int] == g1.succs[op as int].remove(i as int));
                assert forall|v: int| 0 <= v < n && v != op implies g2.succs[v]
                    == g1.succs[v] by {}
                assert forall|s: usize|
                    occurrences(g1.succs[op as int], s) == occurrences(g2.succs[op as int], s)
                        + if s == var {
                        1nat
                    } else {
                        0nat
                    } by {
                    lemma_occurrences_remove(g1.succs[op as int], i as int, s);
                }
                assert forall|v: int, j: int|
                    0 <= v < g2.succs.len() && 0 <= j < g2.succs[v].len() implies v < (
                #[trigger] g2.succs[v][j]) < g2.srcs.len() by {
                    if v == op {
                        if j < i {
                            assert(g2.succs[v][j] == g1.succs[v][j]);
                        } else {
                            assert(g2.succs[v][j] == g1.succs[v][j + 1]);
                        }
                    } else {
                        assert(g2.succs[v][j] == g1.succs[v][j]);
                    }
                }
                assert forall|v: int| 0 <= v < n implies occurrences(
                    #[trigger] g2.succs[v],
                    var,
                ) == occurrences(ops@.subrange(k + 1, ops@.len() as int), v as usize) by {
                    lemma_occurrences_first(rest, v as usize);
                    assert(occurrences(g1.succs[v], var) == occurrences(rest, v as usize));
                }
                // every variable but `op` is as before; `op` is still linked
                assert(g1.consistent(op as int));
                assert(g1.alive(op as int));
                assert(g2.linked(op as int)) by {
                    assert forall|v: int| 0 <= v < g2.succs.len() implies occurrences(
                        #[trigger] g2.succs[v],
                        op,
                    ) == occurrences(g2.srcs[op as int].operands_spec(), v as usize) by {
                        assert(occurrences(g1.succs[v], op) == occurrences(
                            g1.srcs[op as int].operands_spec(),
                            v as usize,
                        ));
                    }
                }
                assert forall|s: int| 0 <= s < var && s != op implies #[trigger] g2.consistent(
                    s,
                ) by {
                    assert(g1.consistent(s));
                    assert(g2.succs[s] == g1.succs[s]);
                    if g1.alive(s) {
                        assert forall|v: int| 0 <= v < g2.succs.len() implies occurrences(
                            #[trigger] g2.succs[v],
                            s as usize,
                        ) == occurrences(g2.srcs[s].operands_spec(), v as usize) by {
                            assert(occurrences(g1.succs[v], s as usize) == occurrences(
                                g1.srcs[s].operands_spec(),
                                v as usize,
                            ));
                        }
                    } else {
                        assert forall|v: int| 0 <= v < g2.succs.len() implies occurrences(
                            #[trigger] g2.succs[v],
                            s as usize,
                        ) == 0 by {
                            assert(occurrences(g1.succs[v], s as usize) == 0);
                        }
                    }
                }
                assert forall|v: int, s: usize| 0 <= v < n && s > var implies #[trigger] occurrences(
                    g2.succs[v],
                    s,
                ) == occurrences(g0.succs[v], s) by {
                    assert(occurrences(g1.succs[v], s) == occurrences(g0.succs[v], s));
                }
                assert forall|j: int|
                    old(erased)@.len() <= j < erased@.len() implies g2.indep_random(
                    #[trigger] erased@[j] as int,
                ) by {
                    assert(g1.indep_random(erased@[j] as int));
                }
            }
            let ghost e1 = erased@;
            if !self.vars[op].probed {
                if self.successors[op].len() == 0 {
                    self.remove_succ_links_to(op, erased);
                    proof {
                        let g3 = self@;
                        assert forall|j: int|
                            old(erased)@.len() <= j < erased@.len() implies g3.indep_random(
                            #[trigger] erased@[j] as int,
                        ) by {
                            if j < e1.len() {
                                assert(erased@[j] == e1[j]);
                                assert(g2.indep_random(e1[j] as int));
                            }
                        }
                        assert forall|s: int| 0 <= s < var implies #[trigger] g3.consistent(
                            s,
                        ) by {
                            if s > op {
                                assert(g2.consistent(s));
                                assert(g3.succs[s] == g2.succs[s]);
                                if g2.alive(s) {
                                    assert forall|v: int|
                                        0 <= v < g3.succs.len() implies occurrences(
                                        #[trigger] g3.succs[v],
                                        s as usize,
                                    ) == occurrences(
                                        g3.srcs[s].operands_spec(),
                                        v as usize,
                                    ) by {
                                        assert(occurrences(g2.succs[v], s as usize)
                                            == occurrences(
                                            g2.srcs[s].operands_spec(),
                                            v as usize,
                                        ));
                                    }
                                } else {
                                    assert forall|v: int|
                                        0 <= v < g3.succs.len() implies occurrences(
                                        #[trigger] g3.succs[v],
                                        s as usize,
                                    ) == 0 by {
                                        assert(occurrences(g2.succs[v], s as usize) == 0);
                                    }
                                }
                            } else if s == op {
                                assert(g3.succs[op as int] == g2.succs[op as int]);
                            }
                        }
                        assert forall|v: int| 0 <= v < n implies occurrences(
                            #[trigger] g3.succs[v],
                            var,
                        ) == occurrences(
                            ops@.subrange(k + 1, ops@.len() as int),
                            v as usize,
                        ) by {
                            assert(occurrences(g3.succs[v], var) == occurrences(
                                g2.succs[v],
                                var,
                            ));
                        }
                        assert forall|v: int, s: usize|
                            0 <= v < n && s > var implies #[trigger] occurrences(
                            g3.succs[v],
                            s,
                        ) == occurrences(g0.succs[v], s) by {
                            assert(occurrences(g3.succs[v], s) == occurrences(g2.succs[v], s));
                        }
                    }
                } else if self.vars[op].src.is_random() {
                    erased.push(op);
                    proof {
                        assert forall|j: int|
                            old(erased)@.len() <= j < erased@.len() implies g2.indep_random(
                            #[trigger] erased@[j] as int,
                        ) by {
                            if j < e1.len() {
                                assert(erased@[j] == e1[j]);
                                assert(g2.indep_random(e1[j] as int));
                            }
                        }
                    }
                }
            }
            k = k + 1;
        }
        proof {
            assert(ops@.subrange(ops@.len() as int, ops@.len() as int) =~= Seq::<usize>::empty());
        }
    }
}

/// What stays of a graph when the lists of the variables below `var` change, and of the
/// entries no greater than `var`: the variables above `var` are as consistent as before.
proof fn lemma_consistent_above(g1: GraphView, g2: GraphView, var: int)
    requires
        g1.bounds(),
        g2.bounds(),
        g2.srcs == g1.srcs,
        g2.probed == g1.probed,
        0 <= var < g1.len(),
        forall|v: int| var <= v < g1.len() ==> g2.succs[v] == g1.succs[v],
        forall|v: int, s: usize|
            0 <= v < g1.len() && s > var ==> #[trigger] occurrences(g2.succs[v], s) == occurrences(
                g1.succs[v],
                s,
            ),
    ensures
        forall|s: int| var < s < g1.len() && g1.consistent(s) ==> #[trigger] g2.consistent(s),
{
    assert forall|s: int| var < s < g1.len() && g1.consistent(s) implies #[trigger] g2.consistent(
        s,
    ) by {
        assert(g2.succs[s] == g1.succs[s]);
        assert forall|v: int| 0 <= v < g2.succs.len() implies occurrences(
            #[trigger] g2.succs[v],
            s as usize,
        ) == occurrences(g1.succs[v], s as usize) by {}
        if g1.alive(s) {
            assert forall|v: int| 0 <= v < g2.succs.len() implies occurrences(
                #[trigger] g2.succs[v],
                s as usize,
            ) == occurrences(g2.srcs[s].operands_spec(), v as usize) by {
                assert(occurrences(g1.succs[v], s as usize) == occurrences(
                    g1.srcs[s].operands_spec(),
                    v as usize,
                ));
            }
        } else {
            assert forall|v: int| 0 <= v < g2.succs.len() implies occurrences(
                #[trigger] g2.succs[v],
                s as usize,
            ) == 0 by {
                assert(occurrences(g1.succs[v], s as usize) == 0);
            }
        }
    }
}

/// A monomial of a product of polynomials is the product of a monomial of each.
proof fn lemma_product_term(p: Seq<Set<usize>>, q: Seq<Set<usize>>, m: Set<usize>)
    requires
        occurs_odd(products(p, q), m),
    ensures
        exists|i: int, j: int| 0 <= i < p.len() && 0 <= j < q.len() && m == p[i].union(q[j]),
    decreases p.len(),
{
    if p.len() > 0 {
        let d = p.drop_last();
        let row = row_products(p.last(), q);
        super::poly::lemma_occurs_odd_split(products(d, q), row, m);
        if occurs_odd(products(d, q), m) {
            lemma_product_term(d, q, m);
            let (i, j) = choose|i: int, j: int|
                0 <= i < d.len() && 0 <= j < q.len() && m == d[i].union(q[j]);
            assert(p[i] == d[i]);
        } else {
            super::poly::lemma_occurs_odd_present(row, m);
            let j = choose|j: int| 0 <= j < row.len() && row[j] == m;
            assert(m == p[p.len() - 1].union(q[j]));
        }
    }
}

impl CompGraphWork {
    /// Takes the probe off `var`; where nothing uses it, takes it out of the graph.
    fn remove_expr(&mut self, var: VarIdx)
        requires
            old(self)@.wf(),
            var < old(self)@.len(),
            old(self)@.probed[var as int],
        ensures
            final(self)@.wf(),
            final(self)@.srcs == old(self)@.srcs,
            final(self)@.probed == old(self)@.probed.update(var as int, false),
            final(self).input_ports() == old(self).input_ports(),
    {
        let ghost g0 = self@;
        assert(g0.consistent(var as int));
        self.vars[var].probed = false;
        let ghost g1 = self@;
        proof {
            assert(g1.srcs =~= g0.srcs);
            assert(g1.probed =~= g0.probed.update(var as int, false));
            assert(g1.succs =~= g0.succs);
            assert(g1.linked(var as int));
            assert forall|s: int| 0 <= s < g1.len() && s != var implies #[trigger] g1.consistent(
                s,
            ) by {
                assert(g0.consistent(s));
            }
        }
        if self.successors[var].len() == 0 {
            let mut erased: Vec<VarIdx> = Vec::new();
            self.remove_succ_links_to(var, &mut erased);
            proof {
                lemma_consistent_above(g1, self@, var as int);
                assert(self@.succs[var as int] == g1.succs[var as int]);
                assert forall|s: int| 0 <= s < self@.len() implies #[trigger] self@.consistent(
                    s,
                ) by {
                    if s > var {
                        assert(g1.consistent(s));
                    }
                }
            }
        }
    }

    /// The graph of a circuit in which the variables of `probes` are probed, and `probes` in
    /// increasing order.
    pub fn from_circ_probes(circ: &SlSharedCircuit, probes: &[VarIdx]) -> (r: (Self, Vec<VarIdx>))
        requires
            circ.wf(),
            forall|k: int| 0 <= k < probes@.len() ==> probes@[k] < circ.vars@.len(),
        ensures
            r.0@.wf(),
            r.0@.srcs == circ.srcs(),
            forall|i: int|
                0 <= i < circ.vars@.len() ==> #[trigger] r.0@.probed[i] == probes@.contains(
                    i as usize,
                ),
            r.0.input_ports() == circ.n_input_ports,
            sorted(r.1@),
            r.1@.to_multiset() == probes@.to_multiset(),
    {
        let mut sorted_probes: Vec<VarIdx> = Vec::new();
        let mut k: usize = 0;
        while k < probes.len()
            invariant
                k <= probes@.len(),
                sorted_probes@ == probes@.subrange(0, k as int),
            decreases probes@.len() - k,
        {
            sorted_probes.push(probes[k]);
            k = k + 1;
            assert(sorted_probes@ =~= probes@.subrange(0, k as int));
        }
        assert(sorted_probes@ =~= probes@);
        sort_indices(&mut sorted_probes);
        proof {
            broadcast use vstd::seq_lib::group_to_multiset_ensures;

            assert forall|x: usize| sorted_probes@.contains(x) <==> probes@.contains(x) by {
                assert(sorted_probes@.to_multiset().count(x) == probes@.to_multiset().count(x));
            }
        }
        let n = circ.vars.len();
        let ghost srcs = circ.srcs();
        let mut vars: Vec<WorkVar> = Vec::new();
        let mut successors: Vec<Vec<VarIdx>> = Vec::new();
        let mut world: Vec<VarIdx> = Vec::new();
        let mut i: usize = 0;
        while i < n
            invariant
                i <= n,
                n == circ.vars@.len(),
                srcs == circ.srcs(),
                vars@.len() == i,
                successors@.len() == i,
                world@.len() == i,
                forall|j: int| 0 <= j < i ==> (#[trigger] vars@[j]).src == srcs[j] && vars@[j].probed,
                forall|j: int| 0 <= j < i ==> (#[trigger] successors@[j])@.len() == 0,
                forall|j: int| 0 <= j < i ==> #[trigger] world@[j] == j,
            decreases n - i,
        {
            vars.push(WorkVar { src: circ.vars[i].src, probed: true });
            successors.push(Vec::new());
            world.push(i);
            i = i + 1;
        }
        let mut res = CompGraphWork { vars, successors, n_input_ports: circ.n_input_ports };
        proof {
            assert(res@.srcs =~= srcs);
        }
        let mut i: usize = 0;
        while i < n
            invariant
                i <= n,
                n == circ.vars@.len(),
                srcs == circ.srcs(),
                topological(srcs),
                res@.srcs == srcs,
                res@.bounds(),
                res.input_ports() == circ.n_input_ports,
                forall|j: int| 0 <= j < n ==> #[trigger] res@.probed[j],
                forall|s: int| 0 <= s < i ==> #[trigger] res@.linked(s),
                forall|s: int| i <= s < n ==> #[trigger] res@.unlinked(s),
            decreases n - i,
        {
            let src = res.vars[i].src;
            let ops = src.operands();
            assert(srcs[i as int] == src);
            let ghost g0 = res@;
            let mut k: usize = 0;
            proof {
                assert(g0.unlinked(i as int));
                assert(ops@.subrange(0, 0) =~= Seq::<usize>::empty());
            }
            while k < ops.len()
                invariant
                    k <= ops@.len(),
                    i < n,
                    n == srcs.len(),
                    topological(srcs),
                    ops@ == srcs[i as int].operands_spec(),
                    res@.srcs == srcs,
                    res@.probed == g0.probed,
                    res@.bounds(),
                    res.input_ports() == circ.n_input_ports,
                    forall|v: int, s: usize|
                        0 <= v < n && s != i ==> #[trigger] occurrences(res@.succs[v], s)
                            == occurrences(g0.succs[v], s),
                    forall|v: int|
                        0 <= v < n ==> occurrences(#[trigger] res@.succs[v], i) == occurrences(
                            ops@.subrange(0, k as int),
                            v as usize,
                        ),
                decreases ops@.len() - k,
            {
                let op = ops[k];
                let ghost g1 = res@;
                assert(srcs[i as int].operands_spec()[k as int] < i);
                res.successors[op].push(i);
                proof {
                    let g2 = res@;
                    assert(g2.srcs =~= g1.srcs);
                    assert(g2.probed =~= g1.probed);
                    assert(g2.succs[op as int] == g1.succs[op as int].push(i));
                    assert forall|v: int| 0 <= v < n && v != op implies g2.succs[v]
                        == g1.succs[v] by {}
                    assert forall|v: int, j: int|
                        0 <= v < g2.succs.len() && 0 <= j < g2.succs[v].len() implies v < (
                    #[trigger] g2.succs[v][j]) < g2.srcs.len() by {
                        if v == op && j == g1.succs[v].len() {
                        } else {
                            assert(g2.succs[v][j] == g1.succs[v][j]);
                        }
                    }
                    let pre = ops@.subrange(0, k as int);
                    let nxt = ops@.subrange(0, k + 1);
                    assert(nxt =~= pre.push(op));
                    assert forall|v: int, s: usize| 0 <= v < n implies occurrences(
                        g2.succs[v],
                        s,
                    ) == occurrences(g1.succs[v], s) + if v == op && s == i {
                        1nat
                    } else {
                        0nat
                    } by {
                        if v == op {
                            lemma_occurrences_push(g1.succs[op as int], i, s);
                        }
                    }
                    assert forall|v: int| 0 <= v < n implies occurrences(
                        #[trigger] g2.succs[v],
                        i,
                    ) == occurrences(nxt, v as usize) by {
                        lemma_occurrences_push(pre, op, v as usize);
                        assert(occurrences(g1.succs[v], i) == occurrences(pre, v as usize));
                    }
                    assert forall|v: int, s: usize|
                        0 <= v < n && s != i implies #[trigger] occurrences(g2.succs[v], s)
                        == occurrences(g0.succs[v], s) by {
                        assert(occurrences(g1.succs[v], s) == occurrences(g0.succs[v], s));
                    }
                }
                k = k + 1;
            }
            proof {
                let g3 = res@;
                assert(ops@.subrange(0, ops@.len() as int) =~= ops@);
                assert forall|s: int| 0 <= s < i + 1 implies #[trigger] g3.linked(s) by {
                    if s < i {
                        assert(g0.linked(s));
                        assert forall|v: int| 0 <= v < g3.succs.len() implies occurrences(
                            #[trigger] g3.succs[v],
                            s as usize,
                        ) == occurrences(g3.srcs[s].operands_spec(), v as usize) by {
                            assert(occurrences(g3.succs[v], s as usize) == occurrences(
                                g0.succs[v],
                                s as usize,
                            ));
                        }
                    }
                }
                assert forall|s: int| i + 1 <= s < n implies #[trigger] g3.unlinked(s) by {
                    assert(g0.unlinked(s));
                    assert forall|v: int| 0 <= v < g3.succs.len() implies occurrences(
                        #[trigger] g3.succs[v],
                        s as usize,
                    ) == 0 by {
                        assert(occurrences(g3.succs[v], s as usize) == occurrences(
                            g0.succs[v],
                            s as usize,
                        ));
                    }
                }
            }
            i = i + 1;
        }
        let to_remove = it_complement(world.as_slice(), sorted_probes.as_slice());
        proof {
            assert forall|j: int| 0 <= j < to_remove@.len() implies to_remove@[j] < n by {
                assert(to_remove@.contains(to_remove@[j]));
                let x = to_remove@[j];
                let t = choose|t: int| 0 <= t < world@.len() && world@[t] == x;
                assert(world@[t] == t);
            }
            assert forall|s: int| 0 <= s < n implies #[trigger] res@.consistent(s) by {
                assert(res@.probed[s]);
                assert(res@.linked(s));
            }
        }
        let mut k: usize = 0;
        while k < to_remove.len()
            invariant
                k <= to_remove@.len(),
                n == srcs.len(),
                increasing(to_remove@),
                forall|j: int| 0 <= j < to_remove@.len() ==> to_remove@[j] < n,
                res@.wf(),
                res@.srcs == srcs,
                res.input_ports() == circ.n_input_ports,
                forall|j: int|
                    0 <= j < n ==> #[trigger] res@.probed[j] == !to_remove@.subrange(
                        0,
                        k as int,
                    ).contains(j as usize),
            decreases to_remove@.len() - k,
        {
            let p = to_remove[k];
            proof {
                if to_remove@.subrange(0, k as int).contains(p) {
                    let j = choose|j: int| 0 <= j < k && to_remove@.subrange(0, k as int)[j] == p;
                    assert(to_remove@[j] == p);
                }
            }
            res.remove_expr(p);
            proof {
                let pre = to_remove@.subrange(0, k as int);
                let nxt = to_remove@.subrange(0, k + 1);
                assert(nxt =~= pre.push(p));
                assert forall|j: int| 0 <= j < n implies #[trigger] res@.probed[j]
                    == !nxt.contains(j as usize) by {
                    if pre.contains(j as usize) {
                        let t = choose|t: int| 0 <= t < pre.len() && pre[t] == j as usize;
                        assert(nxt[t] == j as usize);
                    }
                    if nxt.contains(j as usize) {
                        let t = choose|t: int| 0 <= t < nxt.len() && nxt[t] == j as usize;
                        if t < pre.len() {
                            assert(pre[t] == j as usize);
                        }
                    }
                    if j == p {
                        assert(nxt[k as int] == p);
                    }
                }
            }
            k = k + 1;
        }
        proof {
            assert(to_remove@.subrange(0, to_remove@.len() as int) =~= to_remove@);
            assert forall|i: int| 0 <= i < circ.vars@.len() implies #[trigger] res@.probed[i]
                == probes@.contains(i as usize) by {
                assert(world@[i] == i);
                assert(world@.contains(i as usize));
            }
        }
        (res, sorted_probes)
    }

    /// The algebraic normal form of `var` in the graph as it is: over the inputs and the
    /// random bits, those that took the place of erased variables among them.
    fn build_anf_erased(&self, var: VarIdx) -> (r: Polynomial)
        requires
            self@.bounds(),
            var < self@.len(),
        ensures
            r.wf(),
            r.term_set() == anf_of(self@.srcs, var as nat),
            forall|x: usize|
                variables_of(r@, false).contains(x) ==> x <= var && is_leaf(self@.srcs[x as int]),
        decreases var,
    {
        let ghost srcs = self@.srcs;
        assert(srcs[var as int] == self.vars@[var as int].src);
        match self.vars[var].src {
            VarSrc::Input(_, _) => {
                let p = Polynomial::from_var(var);
                assert(p.term_set() =~= set![set![var]]) by {
                    assert(p@[0] == set![var]);
                }
                p
            },
            VarSrc::Random => {
                let p = Polynomial::from_var(var);
                assert(p.term_set() =~= set![set![var]]) by {
                    assert(p@[0] == set![var]);
                }
                p
            },
            VarSrc::Not(it) => {
                assert(srcs[var as int].operands_spec()[0] == it[0]);
                let a = self.build_anf_erased(it[0]);
                let r = a.not();
                proof {
                    assert forall|x: usize| variables_of(r@, false).contains(x) implies x <= var
                        && is_leaf(srcs[x as int]) by {
                        let i = choose|i: int| 0 <= i < r@.len() && #[trigger] r@[i].contains(x);
                        assert(r@.contains(r@[i]));
                        assert(r.term_set().contains(r@[i]));
                        assert(a.term_set().contains(r@[i]));
                        let k = choose|k: int| 0 <= k < a@.len() && a@[k] == r@[i];
                        assert(a@[k].contains(x));
                        assert(variables_of(a@, false).contains(x));
                    }
                }
                r
            },
            VarSrc::Sum(it) => {
                assert(srcs[var as int].operands_spec()[0] == it[0]);
                assert(srcs[var as int].operands_spec()[1] == it[1]);
                let a = self.build_anf_erased(it[0]);
                let b = self.build_anf_erased(it[1]);
                let r = a.add(&b);
                proof {
                    assert forall|x: usize| variables_of(r@, false).contains(x) implies x <= var
                        && is_leaf(srcs[x as int]) by {
                        let i = choose|i: int| 0 <= i < r@.len() && #[trigger] r@[i].contains(x);
                        assert(r@.contains(r@[i]));
                        assert(r.term_set().contains(r@[i]));
                        if a.term_set().contains(r@[i]) {
                            let k = choose|k: int| 0 <= k < a@.len() && a@[k] == r@[i];
                            assert(a@[k].contains(x));
                            assert(variables_of(a@, false).contains(x));
                        } else {
                            assert(b.term_set().contains(r@[i]));
                            let k = choose|k: int| 0 <= k < b@.len() && b@[k] == r@[i];
                            assert(b@[k].contains(x));
                            assert(variables_of(b@, false).contains(x));
                        }
                    }
                }
                r
            },
            VarSrc::Product(it) => {
                assert(srcs[var as int].operands_spec()[0] == it[0]);
                assert(srcs[var as int].operands_spec()[1] == it[1]);
                let a = self.build_anf_erased(it[0]);
                let b = self.build_anf_erased(it[1]);
                let r = a.mul(&b);
                proof {
                    lemma_terms_of(a);
                    lemma_terms_of(b);
                    assert forall|x: usize| variables_of(r@, false).contains(x) implies x <= var
                        && is_leaf(srcs[x as int]) by {
                        let i = choose|i: int| 0 <= i < r@.len() && #[trigger] r@[i].contains(x);
                        assert(r@.contains(r@[i]));
                        assert(r.term_set().contains(r@[i]));
                        lemma_product_term(a@, b@, r@[i]);
                        let (ia, ib) = choose|ia: int, ib: int|
                            0 <= ia < a@.len() && 0 <= ib < b@.len() && r@[i] == a@[ia].union(
                                b@[ib],
                            );
                        if a@[ia].contains(x) {
                            assert(variables_of(a@, false).contains(x));
                        } else {
                            assert(b@[ib].contains(x));
                            assert(variables_of(b@, false).contains(x));
                        }
                    }
                }
                r
            },
        }
    }

    /// The inputs that the probed variables depend on, in increasing order.
    pub fn remaining_inputs(&self) -> (r: Vec<VarIdx>)
        requires
            self@.wf(),
        ensures
            increasing(r@),
            forall|x: usize| r@.contains(x) <==> is_remaining_input(self@, x),
    {
        let n = self.vars.len();
        let ghost g = self@;
        let mut required: Vec<bool> = Vec::new();
        let mut i: usize = 0;
        while i < n
            invariant
                i <= n,
                required@.len() == i,
                forall|j: int| 0 <= j < i ==> !required@[j],
            decreases n - i,
        {
            required.push(false);
            i = i + 1;
        }
        assert forall|x: int| 0 <= x < n implies (#[trigger] required@[x] <==> needed_before(
            g,
            x,
            0,
        )) by {}
        let mut p: usize = 0;
        while p < n
            invariant
                p <= n,
                n == g.len(),
                g == self@,
                g.wf(),
                required@.len() == n,
                forall|x: int| 0 <= x < n ==> (#[trigger] required@[x] <==> needed_before(g, x, p as int)),
            decreases n - p,
        {
            let ghost req0 = required@;
            if self.vars[p].probed {
                let anf = self.build_anf_erased(p);
                let vs = anf.variables();
                let mut t: usize = 0;
                while t < vs.len()
                    invariant
                        t <= vs@.len(),
                        p < n,
                        n == g.len(),
                        g == self@,
                        required@.len() == n,
                        forall|x: usize| vs@.contains(x) ==> x < n && is_leaf(g.srcs[x as int]),
                        forall|x: int|
                            0 <= x < n ==> (#[trigger] required@[x] <==> req0[x] || (g.srcs[x]
                                is Input && vs@.subrange(0, t as int).contains(x as usize))),
                    decreases vs@.len() - t,
                {
                    let x = vs[t];
                    assert(vs@.contains(x));
                    match self.vars[x].src {
                        VarSrc::Input(_, _) => {
                            required[x] = true;
                        },
                        _ => {},
                    }
                    proof {
                        assert(g.srcs[x as int] == self.vars@[x as int].src);
                        let pre = vs@.subrange(0, t as int);
                        let nxt = vs@.subrange(0, t + 1);
                        assert(nxt =~= pre.push(x));
                        assert forall|y: int| 0 <= y < n implies (#[trigger] required@[y]
                            <==> req0[y] || (g.srcs[y] is Input && nxt.contains(y as usize))) by {
                            if pre.contains(y as usize) {
                                let j = choose|j: int| 0 <= j < pre.len() && pre[j] == y as usize;
                                assert(nxt[j] == y as usize);
                            }
                            if nxt.contains(y as usize) {
                                let j = choose|j: int| 0 <= j < nxt.len() && nxt[j] == y as usize;
                                if j < pre.len() {
                                    assert(pre[j] == y as usize);
                                }
                            }
                            if y == x {
                                assert(nxt[t as int] == x);
                            }
                        }
                    }
                    t = t + 1;
                }
                proof {
                    assert(vs@.subrange(0, vs@.len() as int) =~= vs@);
                    assert forall|x: int| 0 <= x < n implies (#[trigger] required@[x]
                        <==> needed_before(g, x, p + 1)) by {
                        lemma_needed_step(g, x, p as int);
                        let here = variable_in(anf_of(g.srcs, p as nat), x as usize);
                        assert(here <==> vs@.contains(x as usize)) by {
                            if here {
                                let m = choose|m: Set<usize>|
                                    anf.term_set().contains(m) && #[trigger] m.contains(
                                        x as usize,
                                    );
                                let k = choose|k: int| 0 <= k < anf@.len() && anf@[k] == m;
                                assert(anf@[k].contains(x as usize));
                                assert(variables_of(anf@, false).contains(x as usize));
                            }
                            if vs@.contains(x as usize) {
                                assert(variables_of(anf@, false).contains(x as usize));
                                let k = choose|k: int|
                                    0 <= k < anf@.len() && #[trigger] anf@[k].contains(x as usize);
                                assert(anf@.contains(anf@[k]));
                                assert(anf.term_set().contains(anf@[k]));
                            }
                        }
                        assert(req0[x] <==> needed_before(g, x, p as int));
                    }
                }
            } else {
                proof {
                    assert forall|x: int| 0 <= x < n implies (#[trigger] required@[x]
                        <==> needed_before(g, x, p + 1)) by {
                        lemma_needed_step(g, x, p as int);
                    }
                }
            }
            p = p + 1;
        }
        let mut res: Vec<VarIdx> = Vec::new();
        let mut x: usize = 0;
        while x < n
            invariant
                x <= n,
                required@.len() == n,
                increasing(res@),
                forall|k: int| 0 <= k < res@.len() ==> res@[k] < x,
                forall|y: usize| res@.contains(y) <==> (y < x && required@[y as int]),
            decreases n - x,
        {
            let ghost before = res@;
            if required[x] {
                res.push(x);
            }
            proof {
                assert forall|y: usize| res@.contains(y) <==> (y < x + 1 && required@[y as int]) by {
                    if res@.contains(y) {
                        let k = choose|k: int| 0 <= k < res@.len() && res@[k] == y;
                        if k < before.len() {
                            assert(before[k] == y);
                            assert(before.contains(y));
                        }
                    }
                    if before.contains(y) {
                        let k = choose|k: int| 0 <= k < before.len() && before[k] == y;
                        assert(res@[k] == y);
                    }
                    if y == x && required@[x as int] {
                        assert(res@[res@.len() - 1] == y);
                    }
                }
            }
            x = x + 1;
        }
        proof {
            assert forall|y: usize| res@.contains(y) <==> is_remaining_input(g, y) by {}
        }
        res
    }

    /// The inputs that the probed variables depend on, in increasing order.
    pub fn inputs(&self) -> (r: Vec<u32>)
        requires
            self@.wf(),
        ensures
            exists|v: Seq<usize>|
                increasing(v) && (forall|x: usize| v.contains(x) <==> is_remaining_input(self@, x))
                    && r@ == Seq::new(v.len(), |i: int| v[i] as u32),
    {
        let v = self.remaining_inputs();
        let mut r: Vec<u32> = Vec::new();
        let mut i: usize = 0;
        while i < v.len()
            invariant
                i <= v@.len(),
                r@.len() == i,
                forall|k: int| 0 <= k < i ==> r@[k] == v@[k] as u32,
            decreases v@.len() - i,
        {
            r.push(v[i] as u32);
            i = i + 1;
        }
        assert(r@ =~= Seq::new(v@.len(), |i: int| v@[i] as u32));
        r
    }
}

/// Whether `u` is a variable from `var` on and below `m` that `v` uses.
pub open spec fn used_below(g: GraphView, var: nat, m: nat, u: nat, v: nat) -> bool {
    var <= u < v && u < m && g.succs[u as int].contains(v as usize)
}

/// Whether `v` is reached from `var` along the lists of users, through variables below `m`.
pub open spec fn reaches(g: GraphView, var: nat, m: nat, v: nat) -> bool
    decreases v,
{
    v == var || exists|u: nat| #[trigger] used_below(g, var, m, u, v) && reaches(g, var, m, u)
}

/// Whether `(u, j)` is a use that leaves the variables below `m` past `m`: `u` is reached from
/// `var` below `m`, and its user `j` is above `m`.
pub open spec fn leaves_past(g: GraphView, var: nat, m: nat, u: nat, j: int) -> bool {
    var <= u < m && reaches(g, var, m, u) && 0 <= j < g.succs[u as int].len()
        && g.succs[u as int][j] > m
}

/// Whether no variable reached from `var` below `m` has a user above `m`.
pub open spec fn closed_at(g: GraphView, var: nat, m: nat) -> bool {
    forall|u: nat, j: int| !#[trigger] leaves_past(g, var, m, u, j)
}

/// Whether `(u, j)` is a use by a probed variable below `d`, of a variable reached from `var`
/// below `d`.
pub open spec fn probed_use(g: GraphView, var: nat, d: nat, u: nat, j: int) -> bool {
    var <= u < d && reaches(g, var, d, u) && 0 <= j < g.succs[u as int].len()
        && g.succs[u as int][j] < d && g.probed[g.succs[u as int][j] as int]
}

/// Whether `d` is the immediate post-dominator of `var`: the least variable above `var` such
/// that the variables reached from `var` below it have no user above it, and no probed user
/// below it.
pub open spec fn is_impdom(g: GraphView, var: nat, d: nat) -> bool {
    &&& var < d < g.srcs.len()
    &&& g.succs[var as int].len() > 0
    &&& closed_at(g, var, d)
    &&& forall|m: nat| var < m < d ==> !#[trigger] closed_at(g, var, m)
    &&& forall|u: nat, j: int| !#[trigger] probed_use(g, var, d, u, j)
}

/// What the search for the immediate post-dominator gives: the one there is, or nothing where
/// there is none.
pub open spec fn impdom_result(g: GraphView, var: nat, r: Option<usize>) -> bool {
    match r {
        Some(d) => is_impdom(g, var, d as nat),
        None => forall|d: nat| !#[trigger] is_impdom(g, var, d),
    }
}

proof fn lemma_reaches_mono(g: GraphView, var: nat, m1: nat, m2: nat, v: nat)
    requires
        m1 <= m2,
        reaches(g, var, m1, v),
    ensures
        reaches(g, var, m2, v),
    decreases v,
{
    if v != var {
        let u = choose|u: nat| #[trigger] used_below(g, var, m1, u, v) && reaches(g, var, m1, u);
        lemma_reaches_mono(g, var, m1, m2, u);
        assert(used_below(g, var, m2, u, v));
    }
}

proof fn lemma_reaches_step(g: GraphView, var: nat, m: nat, u: nat, j: int)
    requires
        g.bounds(),
        var <= u < m,
        u < g.srcs.len(),
        reaches(g, var, m, u),
        0 <= j < g.succs[u as int].len(),
    ensures
        reaches(g, var, m, g.succs[u as int][j] as nat),
{
    let v = g.succs[u as int][j];
    assert(g.succs[u as int].contains(v));
    assert(used_below(g, var, m, u, v as nat));
}

/// How many elements of the list are false.
pub open spec fn count_false(s: Seq<bool>) -> nat
    decreases s.len(),
{
    if s.len() == 0 {
        0
    } else {
        count_false(s.drop_last()) + if s.last() {
            0nat
        } else {
            1nat
        }
    }
}

proof fn lemma_count_false_push(s: Seq<bool>, b: bool)
    ensures
        count_false(s.push(b)) == count_false(s) + if b {
            0nat
        } else {
            1nat
        },
{
    assert(s.push(b).drop_last() =~= s);
}

proof fn lemma_count_false_set(s: Seq<bool>, i: int)
    requires
        0 <= i < s.len(),
        !s[i],
    ensures
        count_false(s.update(i, true)) + 1 == count_false(s),
    decreases s.len(),
{
    if i == s.len() - 1 {
        assert(s.update(i, true).drop_last() =~= s.drop_last());
    } else {
        assert(s.update(i, true).drop_last() =~= s.drop_last().update(i, true));
        lemma_count_false_set(s.drop_last(), i);
    }
}

/// The state of the search for the immediate post-dominator.
pub ghost struct Search {
    /// The greatest variable found.
    pub maxn: nat,
    /// The least probed user found, or the number of variables.
    pub bound: nat,
    /// The variables whose users were looked at.
    pub done: Set<nat>,
    /// The variables whose users are still to look at.
    pub stack: Seq<usize>,
    /// Which variables below `maxn` were found.
    pub seen: Seq<bool>,
    /// The variable whose users are being looked at, and how many of them were.
    pub cur: int,
    pub k: int,
}

/// Whether the user `j` of `u` was looked at.
pub open spec fn looked_at(st: Search, u: nat, j: int) -> bool {
    st.done.contains(u) && (u != st.cur || j < st.k)
}

/// What holds of the search at every step.
pub open spec fn searching(g: GraphView, var: nat, st: Search) -> bool {
    let n = g.srcs.len();
    &&& g.bounds()
    &&& var <= st.maxn < n
    &&& st.maxn <= st.bound <= n
    &&& st.seen.len() == st.maxn
    &&& reaches(g, var, st.maxn, st.maxn)
    &&& st.maxn > var ==> g.succs[var as int].len() > 0
    &&& st.done.contains(var) || st.stack.contains(var as usize)
    &&& st.cur >= 0 ==> st.done.contains(st.cur as nat) && 0 <= st.k
    &&& forall|u: nat| #[trigger]
        st.done.contains(u) ==> var <= u && (u < st.maxn || u == var) && reaches(
            g,
            var,
            st.maxn,
            u,
        )
    &&& forall|i: int|
        0 <= i < st.stack.len() ==> var <= (#[trigger] st.stack[i]) && (st.stack[i] < st.maxn || (
        st.stack[i] == var && st.maxn == var)) && reaches(g, var, st.maxn, st.stack[i] as nat)
    &&& forall|u: nat, j: int|
        #[trigger] looked_at(st, u, j) && 0 <= j < g.succs[u as int].len() ==> {
            let s = g.succs[u as int][j];
            &&& s <= st.maxn
            &&& s < st.maxn ==> st.done.contains(s as nat) || st.stack.contains(s)
            &&& g.probed[s as int] ==> s >= st.bound
        }
    &&& forall|i: int|
        0 <= i < st.maxn && #[trigger] st.seen[i] ==> st.done.contains(i as nat)
            || st.stack.contains(i as usize)
    &&& forall|m: nat| var < m < st.maxn ==> !#[trigger] closed_at(g, var, m)
    &&& st.bound < n ==> exists|u: nat, j: int|
        #[trigger] looked_at(st, u, j) && 0 <= j < g.succs[u as int].len()
            && g.succs[u as int][j] == st.bound && g.probed[st.bound as int]
}

/// The size of what the search has still to do.
pub open spec fn search_left(n: nat, st: Search) -> nat {
    (st.stack.len() + (n - st.seen.len()) + count_false(st.seen)) as nat
}

proof fn lemma_search_pop(g: GraphView, var: nat, st: Search) -> (st2: Search)
    requires
        searching(g, var, st),
        st.stack.len() > 0,
        st.cur == -1,
        !st.done.contains(st.stack.last() as nat),
    ensures
        st2 == (Search {
            done: st.done.insert(st.stack.last() as nat),
            stack: st.stack.drop_last(),
            cur: st.stack.last() as int,
            k: 0,
            ..st
        }),
        searching(g, var, st2),
{
    let v = st.stack.last();
    let st2 = Search {
        done: st.done.insert(v as nat),
        stack: st.stack.drop_last(),
        cur: v as int,
        k: 0,
        ..st
    };
    assert(st.stack[st.stack.len() - 1] == v);
    assert forall|x: usize| st.stack.contains(x) implies st2.stack.contains(x) || x == v by {
        let i = choose|i: int| 0 <= i < st.stack.len() && st.stack[i] == x;
        if i < st.stack.len() - 1 {
            assert(st2.stack[i] == x);
        }
    }
    assert forall|i: int| 0 <= i < st2.stack.len() implies var <= (#[trigger] st2.stack[i]) && (
    st2.stack[i] < st2.maxn || (st2.stack[i] == var && st2.maxn == var)) && reaches(
        g,
        var,
        st2.maxn,
        st2.stack[i] as nat,
    ) by {
        assert(st2.stack[i] == st.stack[i]);
    }
    assert forall|u: nat, j: int|
        #[trigger] looked_at(st2, u, j) && 0 <= j < g.succs[u as int].len() implies {
        let s = g.succs[u as int][j];
        &&& s <= st2.maxn
        &&& s < st2.maxn ==> st2.done.contains(s as nat) || st2.stack.contains(s)
        &&& g.probed[s as int] ==> s >= st2.bound
    } by {
        assert(u != v);
        assert(looked_at(st, u, j));
    }
    if st.bound < g.srcs.len() {
        let (u, j) = choose|u: nat, j: int|
            #[trigger] looked_at(st, u, j) && 0 <= j < g.succs[u as int].len()
                && g.succs[u as int][j] == st.bound && g.probed[st.bound as int];
        assert(looked_at(st2, u, j));
    }
    st2
}

proof fn lemma_search_repop(g: GraphView, var: nat, st: Search) -> (st2: Search)
    requires
        searching(g, var, st),
        st.stack.len() > 0,
        st.cur == -1,
        st.done.contains(st.stack.last() as nat),
    ensures
        st2 == (Search { stack: st.stack.drop_last(), ..st }),
        searching(g, var, st2),
{
    let v = st.stack.last();
    let st2 = Search { stack: st.stack.drop_last(), ..st };
    assert(st.stack[st.stack.len() - 1] == v);
    assert forall|x: usize| st.stack.contains(x) implies st2.stack.contains(x) || x == v by {
        let i = choose|i: int| 0 <= i < st.stack.len() && st.stack[i] == x;
        if i < st.stack.len() - 1 {
            assert(st2.stack[i] == x);
        }
    }
    assert forall|i: int| 0 <= i < st2.stack.len() implies var <= (#[trigger] st2.stack[i]) && (
    st2.stack[i] < st2.maxn || (st2.stack[i] == var && st2.maxn == var)) && reaches(
        g,
        var,
        st2.maxn,
        st2.stack[i] as nat,
    ) by {
        assert(st2.stack[i] == st.stack[i]);
    }
    assert forall|u: nat, j: int|
        #[trigger] looked_at(st2, u, j) && 0 <= j < g.succs[u as int].len() implies {
        let s = g.succs[u as int][j];
        &&& s <= st2.maxn
        &&& s < st2.maxn ==> st2.done.contains(s as nat) || st2.stack.contains(s)
        &&& g.probed[s as int] ==> s >= st2.bound
    } by {
        assert(looked_at(st, u, j));
    }
    if st.bound < g.srcs.len() {
        let (u, j) = choose|u: nat, j: int|
            #[trigger] looked_at(st, u, j) && 0 <= j < g.succs[u as int].len()
                && g.succs[u as int][j] == st.bound && g.probed[st.bound as int];
        assert(looked_at(st2, u, j));
    }
    st2
}

/// The bound after a look at the user `s`.
pub open spec fn bound_after(g: GraphView, st: Search, s: usize) -> nat {
    if g.probed[s as int] && s < st.bound {
        s as nat
    } else {
        st.bound
    }
}

/// A look at a user of `v` that is the greatest variable found, or is below it.
proof fn lemma_search_look(
    g: GraphView,
    var: nat,
    st: Search,
    v: nat,
    k: int,
    pushed: bool,
) -> (st2: Search)
    requires
        searching(g, var, st),
        st.done.contains(v),
        st.cur == v && st.k == k || st.cur == -1,
        0 <= k < g.succs[v as int].len(),
        g.succs[v as int][k] <= st.maxn,
        bound_after(g, st, g.succs[v as int][k]) >= st.maxn,
        pushed ==> g.succs[v as int][k] < st.maxn && !st.seen[g.succs[v as int][k] as int],
        !pushed && g.succs[v as int][k] < st.maxn ==> st.seen[g.succs[v as int][k] as int],
    ensures
        st2 == (Search {
            bound: bound_after(g, st, g.succs[v as int][k]),
            stack: if pushed {
                st.stack.push(g.succs[v as int][k])
            } else {
                st.stack
            },
            seen: if pushed {
                st.seen.update(g.succs[v as int][k] as int, true)
            } else {
                st.seen
            },
            k: if st.cur == -1 {
                st.k
            } else {
                k + 1
            },
            ..st
        }),
        searching(g, var, st2),
        search_left(g.srcs.len(), st2) == search_left(g.srcs.len(), st),
{
    let s = g.succs[v as int][k];
    let st2 = Search {
        bound: bound_after(g, st, s),
        stack: if pushed {
            st.stack.push(s)
        } else {
            st.stack
        },
        seen: if pushed {
            st.seen.update(s as int, true)
        } else {
            st.seen
        },
        k: if st.cur == -1 {
            st.k
        } else {
            k + 1
        },
        ..st
    };
    let fresh = st.cur == v;
    if !fresh {
        assert(looked_at(st, v, k));
    }
    assert(v < g.srcs.len());
    assert(v < s) by {
        assert(g.succs[v as int][k] == s);
    }
    if pushed {
        lemma_count_false_set(st.seen, s as int);
        lemma_reaches_step(g, var, st.maxn, v, k);
        assert(st2.stack[st.stack.len() as int] == s);
    }
    assert forall|x: usize| st.stack.contains(x) implies st2.stack.contains(x) by {
        let i = choose|i: int| 0 <= i < st.stack.len() && st.stack[i] == x;
        assert(st2.stack[i] == x);
    }
    assert forall|i: int| 0 <= i < st2.stack.len() implies var <= (#[trigger] st2.stack[i]) && (
    st2.stack[i] < st2.maxn || (st2.stack[i] == var && st2.maxn == var)) && reaches(
        g,
        var,
        st2.maxn,
        st2.stack[i] as nat,
    ) by {
        if i < st.stack.len() {
            assert(st2.stack[i] == st.stack[i]);
        }
    }
    assert forall|u: nat, j: int|
        #[trigger] looked_at(st2, u, j) && 0 <= j < g.succs[u as int].len() implies {
        let t = g.succs[u as int][j];
        &&& t <= st2.maxn
        &&& t < st2.maxn ==> st2.done.contains(t as nat) || st2.stack.contains(t)
        &&& g.probed[t as int] ==> t >= st2.bound
    } by {
        if u == v && j == k && fresh {
            if s < st.maxn {
                if !pushed {
                    assert(st.seen[s as int]);
                }
            }
        } else {
            assert(looked_at(st, u, j));
        }
    }
    assert forall|i: int| 0 <= i < st2.maxn && #[trigger] st2.seen[i] implies st2.done.contains(
        i as nat,
    ) || st2.stack.contains(i as usize) by {
        if pushed && i == s {
        } else {
            assert(st.seen[i]);
        }
    }
    if st2.bound < g.srcs.len() {
        if st2.bound == st.bound {
            let (u, j) = choose|u: nat, j: int|
                #[trigger] looked_at(st, u, j) && 0 <= j < g.succs[u as int].len()
                    && g.succs[u as int][j] == st.bound && g.probed[st.bound as int];
            assert(looked_at(st2, u, j));
        } else {
            assert(fresh);
            assert(looked_at(st2, v, k));
        }
    }
    st2
}

/// A look at a user of `v` that is above the greatest variable found so far.
proof fn lemma_search_grow(g: GraphView, var: nat, st: Search, v: nat, k: int, seen2: Seq<bool>) -> (st2:
    Search)
    requires
        searching(g, var, st),
        st.done.contains(v),
        st.cur == v && st.k == k || st.cur == -1,
        0 <= k < g.succs[v as int].len(),
        g.succs[v as int][k] > st.maxn,
        bound_after(g, st, g.succs[v as int][k]) >= g.succs[v as int][k],
        seen2.len() == g.succs[v as int][k],
        forall|i: int| 0 <= i < st.maxn ==> seen2[i] == st.seen[i],
        seen2[st.maxn as int],
        forall|i: int| st.maxn < i < seen2.len() ==> !seen2[i],
        count_false(seen2) + 1 == count_false(st.seen) + (seen2.len() - st.maxn),
    ensures
        st.cur == v,
        st2 == (Search {
            maxn: g.succs[v as int][k] as nat,
            bound: bound_after(g, st, g.succs[v as int][k]),
            stack: st.stack.push(st.maxn as usize),
            seen: seen2,
            k: k + 1,
            ..st
        }),
        searching(g, var, st2),
        search_left(g.srcs.len(), st2) == search_left(g.srcs.len(), st),
{
    let s = g.succs[v as int][k];
    if st.cur != v {
        assert(looked_at(st, v, k));
    }
    let st2 = Search {
        maxn: s as nat,
        bound: bound_after(g, st, s),
        stack: st.stack.push(st.maxn as usize),
        seen: seen2,
        k: k + 1,
        ..st
    };
    let old = st.maxn;
    assert(v < g.srcs.len());
    assert(g.succs[v as int][k] == s);
    // what was reached below the old greatest variable is reached below the new one
    assert forall|u: nat| #[trigger] st2.done.contains(u) implies var <= u && (u < st2.maxn || u
        == var) && reaches(g, var, st2.maxn, u) by {
        lemma_reaches_mono(g, var, old, s as nat, u);
    }
    lemma_reaches_mono(g, var, old, s as nat, old);
    lemma_reaches_mono(g, var, old, s as nat, v);
    lemma_reaches_step(g, var, s as nat, v, k);
    assert(st2.stack[st.stack.len() as int] == old);
    assert forall|x: usize| st.stack.contains(x) implies st2.stack.contains(x) by {
        let i = choose|i: int| 0 <= i < st.stack.len() && st.stack[i] == x;
        assert(st2.stack[i] == x);
    }
    assert forall|i: int| 0 <= i < st2.stack.len() implies var <= (#[trigger] st2.stack[i]) && (
    st2.stack[i] < st2.maxn || (st2.stack[i] == var && st2.maxn == var)) && reaches(
        g,
        var,
        st2.maxn,
        st2.stack[i] as nat,
    ) by {
        if i < st.stack.len() {
            assert(st2.stack[i] == st.stack[i]);
            lemma_reaches_mono(g, var, old, s as nat, st.stack[i] as nat);
        }
    }
    assert forall|u: nat, j: int|
        #[trigger] looked_at(st2, u, j) && 0 <= j < g.succs[u as int].len() implies {
        let t = g.succs[u as int][j];
        &&& t <= st2.maxn
        &&& t < st2.maxn ==> st2.done.contains(t as nat) || st2.stack.contains(t)
        &&& g.probed[t as int] ==> t >= st2.bound
    } by {
        if u == v && j == k {
        } else {
            assert(looked_at(st, u, j));
        }
    }
    assert forall|i: int| 0 <= i < st2.maxn && #[trigger] st2.seen[i] implies st2.done.contains(
        i as nat,
    ) || st2.stack.contains(i as usize) by {
        if i < old {
            assert(st.seen[i]);
        }
    }
    assert forall|m: nat| var < m < st2.maxn implies !#[trigger] closed_at(g, var, m) by {
        if m >= old {
            lemma_reaches_mono(g, var, old, m, v);
            assert(leaves_past(g, var, m, v, k));
        }
    }
    if old == var {
        assert(v == var);
    }
    if st2.bound < g.srcs.len() {
        if st2.bound == st.bound {
            let (u, j) = choose|u: nat, j: int|
                #[trigger] looked_at(st, u, j) && 0 <= j < g.succs[u as int].len()
                    && g.succs[u as int][j] == st.bound && g.probed[st.bound as int];
            assert(looked_at(st2, u, j));
        } else {
            assert(looked_at(st2, v, k));
        }
    }
    st2
}

/// All users of `v` were looked at.
proof fn lemma_search_looked(g: GraphView, var: nat, st: Search, v: nat) -> (st2: Search)
    requires
        searching(g, var, st),
        st.cur == v && st.k == g.succs[v as int].len() || st.cur == -1,
    ensures
        st2 == (Search { cur: -1, ..st }),
        searching(g, var, st2),
        search_left(g.srcs.len(), st2) == search_left(g.srcs.len(), st),
{
    let st2 = Search { cur: -1, ..st };
    assert forall|u: nat, j: int|
        #[trigger] looked_at(st2, u, j) && 0 <= j < g.succs[u as int].len() implies {
        let t = g.succs[u as int][j];
        &&& t <= st2.maxn
        &&& t < st2.maxn ==> st2.done.contains(t as nat) || st2.stack.contains(t)
        &&& g.probed[t as int] ==> t >= st2.bound
    } by {
        assert(looked_at(st, u, j));
    }
    if st.bound < g.srcs.len() {
        let (u, j) = choose|u: nat, j: int|
            #[trigger] looked_at(st, u, j) && 0 <= j < g.succs[u as int].len()
                && g.succs[u as int][j] == st.bound && g.probed[st.bound as int];
        assert(looked_at(st2, u, j));
    }
    st2
}

/// The search found a probed user below a variable that every post-dominator is at or above:
/// there is no immediate post-dominator.
proof fn lemma_search_fails(g: GraphView, var: nat, st: Search, u: nat, j: int, top: nat)
    requires
        searching(g, var, st),
        st.done.contains(u),
        0 <= j < g.succs[u as int].len(),
        g.probed[g.succs[u as int][j] as int],
        g.succs[u as int][j] < top,
        st.maxn <= top,
        forall|m: nat| var < m < top ==> !#[trigger] closed_at(g, var, m),
    ensures
        impdom_result(g, var, None),
{
    assert forall|d: nat| !#[trigger] is_impdom(g, var, d) by {
        if is_impdom(g, var, d) {
            assert(d >= top);
            lemma_reaches_mono(g, var, st.maxn, d, u);
            assert(probed_use(g, var, d, u, j));
        }
    }
}

proof fn lemma_reached_done(g: GraphView, var: nat, st: Search, u: nat)
    requires
        searching(g, var, st),
        st.stack.len() == 0,
        st.cur == -1,
        reaches(g, var, st.maxn, u),
        u < st.maxn || u == var,
    ensures
        st.done.contains(u),
    decreases u,
{
    if u != var {
        let w = choose|w: nat| #[trigger] used_below(g, var, st.maxn, w, u) && reaches(
            g,
            var,
            st.maxn,
            w,
        );
        lemma_reached_done(g, var, st, w);
        let j = choose|j: int| 0 <= j < g.succs[w as int].len() && g.succs[w as int][j] == u;
        assert(looked_at(st, w, j));
    }
}

/// The search ended: the greatest variable found is the immediate post-dominator, or `var` is
/// not used.
proof fn lemma_search_ends(g: GraphView, var: nat, st: Search)
    requires
        searching(g, var, st),
        st.stack.len() == 0,
        st.cur == -1,
    ensures
        st.maxn > var ==> is_impdom(g, var, st.maxn),
        st.maxn == var ==> impdom_result(g, var, None),
{
    if st.maxn > var {
        assert forall|u: nat, j: int| !#[trigger] leaves_past(g, var, st.maxn, u, j) by {
            if leaves_past(g, var, st.maxn, u, j) {
                lemma_reached_done(g, var, st, u);
                assert(looked_at(st, u, j));
            }
        }
        assert forall|u: nat, j: int| !#[trigger] probed_use(g, var, st.maxn, u, j) by {
            if probed_use(g, var, st.maxn, u, j) {
                lemma_reached_done(g, var, st, u);
                assert(looked_at(st, u, j));
            }
        }
    } else {
        if g.succs[var as int].len() > 0 {
            assert(looked_at(st, var, 0));
            assert(g.succs[var as int][0] > var);
        }
    }
}

impl CompGraphWork {
    /// The immediate post-dominator of `var`: the first variable that every path from `var`
    /// along the users goes through, with no probed variable before it.
    fn impdom(&self, var: VarIdx) -> (r: Option<VarIdx>)
        requires
            self@.bounds(),
            var < self@.len(),
        ensures
            impdom_result(self@, var as nat, r),
    {
        let n = self.vars.len();
        let ghost g = self@;
        let mut stack: Vec<VarIdx> = Vec::new();
        stack.push(var);
        let mut maxn = var;
        let mut seen: Vec<bool> = Vec::new();
        while seen.len() < maxn
            invariant
                seen@.len() <= maxn,
                forall|i: int| 0 <= i < seen@.len() ==> !seen@[i],
            decreases maxn - seen@.len(),
        {
            seen.push(false);
        }
        let mut bound = n;
        let ghost mut st = Search {
            maxn: var as nat,
            bound: n as nat,
            done: Set::empty(),
            stack: stack@,
            seen: seen@,
            cur: -1,
            k: 0,
        };
        proof {
            assert(stack@[0] == var);
            assert(st.stack.contains(var));
            assert(reaches(g, var as nat, var as nat, var as nat));
            assert(g.probed.len() == n);
            assert(searching(g, var as nat, st));
        }
        loop
            invariant
                g == self@,
                n == g.srcs.len(),
                var < n,
                searching(g, var as nat, st),
                st.cur == -1,
                st.maxn == maxn,
                st.bound == bound,
                st.stack == stack@,
                st.seen == seen@,
            ensures
                st.stack.len() == 0,
            decreases search_left(n as nat, st),
        {
            let v = match stack.pop() {
                Some(v) => v,
                None => {
                    break ;
                },
            };
            let ghost left = search_left(n as nat, st);
            proof {
                assert(st.stack[st.stack.len() - 1] == v);
                if st.done.contains(v as nat) {
                    st = lemma_search_repop(g, var as nat, st);
                } else {
                    st = lemma_search_pop(g, var as nat, st);
                }
            }
            let n_users = self.successors[v].len();
            let mut k: usize = 0;
            while k < n_users
                invariant
                    k <= n_users,
                    g == self@,
                    n == g.srcs.len(),
                    var < n,
                    v < n,
                    n_users == g.succs[v as int].len(),
                    searching(g, var as nat, st),
                    st.done.contains(v as nat),
                    st.cur == v && st.k == k || st.cur == -1,
                    st.maxn == maxn,
                    st.bound == bound,
                    st.stack == stack@,
                    st.seen == seen@,
                    search_left(n as nat, st) + 1 == left,
                decreases n_users - k,
            {
                let succ = self.successors[v][k];
                proof {
                    assert(g.succs[v as int][k as int] == succ);
                    assert(v < succ < n);
                    assert(g.probed[succ as int] == self.vars@[succ as int].probed);
                    if st.cur == -1 {
                        assert(looked_at(st, v as nat, k as int));
                    }
                }
                if self.vars[succ].probed && succ < bound {
                    bound = succ;
                    if maxn > bound {
                        proof {
                            lemma_search_fails(
                                g,
                                var as nat,
                                st,
                                v as nat,
                                k as int,
                                maxn as nat,
                            );
                        }
                        return None;
                    }
                }
                if succ == maxn {
                    proof {
                        st = lemma_search_look(g, var as nat, st, v as nat, k as int, false);
                    }
                } else if succ > maxn {
                    if succ > bound {
                        proof {
                            let (u, j) = choose|u: nat, j: int|
                                #[trigger] looked_at(st, u, j) && 0 <= j < g.succs[u as int].len()
                                    && g.succs[u as int][j] == st.bound
                                    && g.probed[st.bound as int];
                            assert forall|m: nat| var < m < succ implies !#[trigger] closed_at(
                                g,
                                var as nat,
                                m,
                            ) by {
                                if m >= maxn {
                                    lemma_reaches_mono(g, var as nat, maxn as nat, m, v as nat);
                                    assert(leaves_past(g, var as nat, m, v as nat, k as int));
                                }
                            }
                            lemma_search_fails(g, var as nat, st, u, j, succ as nat);
                        }
                        return None;
                    }
                    let ghost seen0 = seen@;
                    while seen.len() < succ
                        invariant
                            maxn < succ,
                            seen0.len() == maxn,
                            maxn <= seen@.len() <= succ,
                            forall|i: int| 0 <= i < maxn ==> seen@[i] == seen0[i],
                            forall|i: int| maxn <= i < seen@.len() ==> !seen@[i],
                            count_false(seen@) == count_false(seen0) + (seen@.len() - maxn),
                        decreases succ - seen@.len(),
                    {
                        proof {
                            lemma_count_false_push(seen@, false);
                        }
                        seen.push(false);
                    }
                    proof {
                        lemma_count_false_set(seen@, maxn as int);
                    }
                    seen[maxn] = true;
                    stack.push(maxn);
                    maxn = succ;
                    proof {
                        st = lemma_search_grow(g, var as nat, st, v as nat, k as int, seen@);
                    }
                } else {
                    if !seen[succ] {
                        stack.push(succ);
                        seen[succ] = true;
                        proof {
                            st = lemma_search_look(g, var as nat, st, v as nat, k as int, true);
                        }
                    } else {
                        proof {
                            st = lemma_search_look(g, var as nat, st, v as nat, k as int, false);
                        }
                    }
                }
                k = k + 1;
            }
            proof {
                st = lemma_search_looked(g, var as nat, st, v as nat);
            }
        }
        proof {
            lemma_search_ends(g, var as nat, st);
        }
        if maxn == var {
            return None;
        }
        Some(maxn)
    }
}

/// Whether the variable `var` alone is a primitive monomial of the algebraic normal form of
/// `d`: it occurs there, and in no monomial of degree two or more.
pub open spec fn primitive_at(g: GraphView, d: nat, var: nat) -> bool {
    let t = terms_of(anf_of(g.srcs, d));
    primitives(t, t).contains(set![var as usize])
}

/// Whether `d` can take the place of the random bit `var`: it is the immediate post-dominator
/// of `var`, and `var` alone is a primitive monomial of its algebraic normal form.
pub open spec fn is_invertible_succ(g: GraphView, var: nat, d: nat) -> bool {
    is_impdom(g, var, d) && primitive_at(g, d, var)
}

/// What the search for such a variable gives: the one there is, or nothing.
pub open spec fn invertible_succ_result(g: GraphView, var: nat, r: Option<usize>) -> bool {
    match r {
        Some(d) => is_invertible_succ(g, var, d as nat),
        None => forall|d: nat| !#[trigger] is_invertible_succ(g, var, d),
    }
}

/// A variable has one immediate post-dominator at most.
proof fn lemma_impdom_unique(g: GraphView, var: nat, d1: nat, d2: nat)
    requires
        is_impdom(g, var, d1),
        is_impdom(g, var, d2),
    ensures
        d1 == d2,
{
    if d1 < d2 {
        assert(!closed_at(g, var, d1));
    } else if d2 < d1 {
        assert(!closed_at(g, var, d2));
    }
}

/// The immediate post-dominator of a variable is used.
proof fn lemma_impdom_used(g: GraphView, var: nat, d: nat) -> (u: nat)
    requires
        g.bounds(),
        var < g.srcs.len(),
        is_impdom(g, var, d),
    ensures
        u < g.srcs.len(),
        g.succs[u as int].contains(d as usize),
{
    if d == var + 1 {
        let s = g.succs[var as int][0];
        if s > d {
            assert(leaves_past(g, var, d, var, 0));
        }
        assert(g.succs[var as int][0] == d);
        var
    } else {
        let m = (d - 1) as nat;
        assert(!closed_at(g, var, m));
        let (u, j) = choose|u: nat, j: int| #[trigger] leaves_past(g, var, m, u, j);
        lemma_reaches_mono(g, var, m, d, u);
        if g.succs[u as int][j] > d {
            assert(leaves_past(g, var, d, u, j));
        }
        assert(g.succs[u as int][j] == d);
        u
    }
}

/// How many variables are not random bits.
pub open spec fn count_not_random(srcs: Seq<VarSrc>) -> nat
    decreases srcs.len(),
{
    if srcs.len() == 0 {
        0
    } else {
        count_not_random(srcs.drop_last()) + if srcs.last() == VarSrc::Random {
            0nat
        } else {
            1nat
        }
    }
}

proof fn lemma_count_not_random_erase(srcs: Seq<VarSrc>, i: int)
    requires
        0 <= i < srcs.len(),
        srcs[i] != VarSrc::Random,
    ensures
        count_not_random(srcs.update(i, VarSrc::Random)) + 1 == count_not_random(srcs),
    decreases srcs.len(),
{
    if i == srcs.len() - 1 {
        assert(srcs.update(i, VarSrc::Random).drop_last() =~= srcs.drop_last());
    } else {
        assert(srcs.update(i, VarSrc::Random).drop_last() =~= srcs.drop_last().update(
            i,
            VarSrc::Random,
        ));
        lemma_count_not_random_erase(srcs.drop_last(), i);
    }
}

/// Whether each variable of `after` comes from where it did in `before`, or is a random bit.
pub open spec fn erased_from(before: Seq<VarSrc>, after: Seq<VarSrc>) -> bool {
    after.len() == before.len() && forall|i: int|
        0 <= i < before.len() ==> #[trigger] after[i] == before[i] || after[i] == VarSrc::Random
}

/// Whether `h` is `g` after one step of the simplification: a variable that can take the
/// place of a random bit that is not probed has a fresh random bit in its place.
pub open spec fn erase_step(g: GraphView, h: GraphView) -> bool {
    &&& g.wf()
    &&& h.wf()
    &&& exists|r: nat, w: nat|
        #[trigger] is_invertible_succ(g, r, w) && g.indep_random(r as int) && h.srcs
            == g.srcs.update(w as int, VarSrc::Random) && h.probed == g.probed
}

/// Whether the graph at `t + 1` is that at `t` after one step.
pub open spec fn step_at(path: Seq<GraphView>, t: int) -> bool {
    erase_step(path[t], path[t + 1])
}

/// Whether `h` is `g` after some steps of the simplification, one after another.
pub open spec fn simplifies(g: GraphView, h: GraphView) -> bool {
    exists|path: Seq<GraphView>|
        #![trigger path.len()]
        path.len() >= 1 && path[0] == g && path[path.len() - 1] == h && forall|t: int|
            0 <= t < path.len() - 1 ==> #[trigger] step_at(path, t)
}

/// Whether no random bit that is not probed has a variable that can take its place.
pub open spec fn is_simplified(g: GraphView) -> bool {
    forall|r: nat| #[trigger] g.indep_random(r as int) ==> invertible_succ_result(g, r, None)
}

impl CompGraphWork {
    /// The variable that can take the place of the random bit `var`, where there is one.
    fn invertible_succ(&self, var: VarIdx) -> (r: Option<VarIdx>)
        requires
            self@.bounds(),
            var < self@.len(),
        ensures
            invertible_succ_result(self@, var as nat, r),
    {
        let ghost g = self@;
        match self.impdom(var) {
            None => None,
            Some(d) => {
                let anf = self.build_anf_erased(d);
                let prims = anf.primitive_monomials();
                let target = Monomial::from_var(var);
                let mut found = false;
                let mut i: usize = 0;
                while i < prims.len()
                    invariant
                        i <= prims@.len(),
                        target@ == set![var],
                        found <==> views(prims@).subrange(0, i as int).contains(set![var]),
                    decreases prims@.len() - i,
                {
                    let ghost pre = views(prims@).subrange(0, i as int);
                    if prims[i].equals(&target) {
                        found = true;
                    }
                    proof {
                        let nxt = views(prims@).subrange(0, i + 1);
                        assert(nxt =~= pre.push(prims@[i as int]@));
                        if pre.contains(set![var]) {
                            let k = choose|k: int| 0 <= k < pre.len() && pre[k] == set![var];
                            assert(nxt[k] == set![var]);
                        }
                        if nxt.contains(set![var]) {
                            let k = choose|k: int| 0 <= k < nxt.len() && nxt[k] == set![var];
                            if k < i {
                                assert(pre[k] == set![var]);
                            }
                        }
                        if prims@[i as int]@ == set![var] {
                            assert(nxt[i as int] == set![var]);
                        }
                    }
                    i = i + 1;
                }
                proof {
                    assert(views(prims@).subrange(0, prims@.len() as int) =~= views(prims@));
                    lemma_terms_of(anf);
                    assert(found == primitive_at(g, d as nat, var as nat));
                    if !found {
                        assert forall|d2: nat| !#[trigger] is_invertible_succ(
                            g,
                            var as nat,
                            d2,
                        ) by {
                            if is_invertible_succ(g, var as nat, d2) {
                                lemma_impdom_unique(g, var as nat, d as nat, d2);
                            }
                        }
                    }
                }
                if found {
                    Some(d)
                } else {
                    None
                }
            },
        }
    }

    /// Puts a fresh random bit in the place of `var`: its operands no longer have it as a
    /// user. `var`, where it is not probed, and each operand left as a random bit that is
    /// still used and not probed are added to `stack`.
    fn erase_var(&mut self, var: VarIdx, stack: &mut Vec<VarIdx>)
        requires
            old(self)@.wf(),
            var < old(self)@.len(),
            old(self)@.linked(var as int),
            forall|k: int|
                0 <= k < old(stack)@.len() ==> old(self)@.indep_random(
                    #[trigger] old(stack)@[k] as int,
                ),
        ensures
            final(self)@.wf(),
            final(self)@.srcs == old(self)@.srcs.update(var as int, VarSrc::Random),
            final(self)@.probed == old(self)@.probed,
            final(self).input_ports() == old(self).input_ports(),
            forall|k: int|
                0 <= k < final(stack)@.len() ==> final(self)@.indep_random(
                    #[trigger] final(stack)@[k] as int,
                ),
            forall|x: usize| old(stack)@.contains(x) ==> final(stack)@.contains(x),
    {
        let ghost g0 = self@;
        let ghost s0 = stack@;
        if !self.vars[var].probed {
            stack.push(var);
        }
        let ghost s1 = stack@;
        self.remove_succ_links_to(var, stack);
        let ghost g1 = self@;
        let ghost s2 = stack@;
        self.vars[var].src = VarSrc::Random;
        proof {
            let g2 = self@;
            assert(g2.srcs =~= g0.srcs.update(var as int, VarSrc::Random));
            assert(g2.probed =~= g0.probed);
            assert(g2.succs =~= g1.succs);
            lemma_consistent_above(g0, g1, var as int);
            assert forall|i: int, k: int|
                0 <= i < g2.srcs.len() && 0 <= k < g2.srcs[i].operands_spec().len() implies (
            #[trigger] g2.srcs[i].operands_spec()[k]) < i by {
                if i != var {
                    assert(g0.srcs[i].operands_spec()[k] < i);
                }
            }
            assert forall|s: int| 0 <= s < g2.srcs.len() implies #[trigger] g2.consistent(
                s,
            ) by {
                if s == var {
                    assert(g1.unlinked(var as int));
                    assert forall|v: int| 0 <= v < g2.succs.len() implies occurrences(
                        #[trigger] g2.succs[v],
                        s as usize,
                    ) == occurrences(g2.srcs[s].operands_spec(), v as usize) by {
                        assert(occurrences(g1.succs[v], s as usize) == 0);
                    }
                } else {
                    if s > var {
                        assert(g0.consistent(s));
                    }
                    assert(g1.consistent(s));
                    assert(g2.srcs[s] == g1.srcs[s]);
                    if g1.alive(s) {
                        assert forall|v: int| 0 <= v < g2.succs.len() implies occurrences(
                            #[trigger] g2.succs[v],
                            s as usize,
                        ) == occurrences(g2.srcs[s].operands_spec(), v as usize) by {
                            assert(occurrences(g1.succs[v], s as usize) == occurrences(
                                g1.srcs[s].operands_spec(),
                                v as usize,
                            ));
                        }
                    }
                }
            }
            assert forall|k: int| 0 <= k < s2.len() implies g2.indep_random(
                #[trigger] s2[k] as int,
            ) by {
                if k < s1.len() {
                    assert(s2[k] == s1[k]);
                    if k < s0.len() {
                        assert(s1[k] == s0[k]);
                        assert(g0.indep_random(s0[k] as int));
                    }
                } else {
                    assert(g1.indep_random(s2[k] as int));
                }
            }
            assert forall|x: usize| s0.contains(x) implies s2.contains(x) by {
                let k = choose|k: int| 0 <= k < s0.len() && s0[k] == x;
                assert(s1[k] == x);
                assert(s2[k] == s1[k]);
            }
        }
    }

    /// Simplifies the graph: as long as a random bit that is not probed has a variable that can
    /// take its place, a fresh random bit is put there.
    pub fn simplify(&mut self)
        requires
            old(self)@.wf(),
        ensures
            final(self)@.wf(),
            final(self)@.probed == old(self)@.probed,
            erased_from(old(self)@.srcs, final(self)@.srcs),
            final(self).input_ports() == old(self).input_ports(),
            simplifies(old(self)@, final(self)@),
            is_simplified(final(self)@),
    {
        let n = self.vars.len();
        let mut simplified = true;
        let ghost mut path: Seq<GraphView> = seq![self@];
        while simplified
            invariant
                n == self@.len(),
                path.len() >= 1,
                path[0] == old(self)@,
                path[path.len() - 1] == self@,
                forall|t: int| 0 <= t < path.len() - 1 ==> #[trigger] step_at(path, t),
                self@.wf(),
                self@.probed == old(self)@.probed,
                erased_from(old(self)@.srcs, self@.srcs),
                self.input_ports() == old(self).input_ports(),
                !simplified ==> is_simplified(self@),
            decreases
                count_not_random(self@.srcs) + if simplified {
                    1nat
                } else {
                    0nat
                },
        {
            simplified = false;
            let ghost g_pass = self@;
            let mut stack: Vec<VarIdx> = Vec::new();
            let mut i: usize = 0;
            while i < n
                invariant
                    i <= n,
                    n == self@.len(),
                    self@ == g_pass,
                    forall|k: int|
                        0 <= k < stack@.len() ==> g_pass.indep_random(#[trigger] stack@[k] as int),
                    forall|r: nat| r < i && #[trigger] g_pass.indep_random(r as int) ==> stack@.contains(
                        r as usize,
                    ),
                decreases n - i,
            {
                let ghost before = stack@;
                assert(g_pass.srcs[i as int] == self.vars@[i as int].src);
                assert(g_pass.probed[i as int] == self.vars@[i as int].probed);
                if self.vars[i].is_indep_random() {
                    stack.push(i);
                }
                proof {
                    assert forall|k: int| 0 <= k < stack@.len() implies g_pass.indep_random(
                        #[trigger] stack@[k] as int,
                    ) by {
                        if k < before.len() {
                            assert(stack@[k] == before[k]);
                        }
                    }
                    assert forall|r: nat|
                        r < i + 1 && #[trigger] g_pass.indep_random(
                            r as int,
                        ) implies stack@.contains(r as usize) by {
                        if r < i {
                            let k = choose|k: int| 0 <= k < before.len() && before[k] == r as usize;
                            assert(stack@[k] == r as usize);
                        } else {
                            assert(stack@[stack@.len() - 1] == i);
                        }
                    }
                }
                i = i + 1;
            }
            loop
                invariant
                    n == self@.len(),
                    path.len() >= 1,
                    path[0] == old(self)@,
                    path[path.len() - 1] == self@,
                    forall|t: int| 0 <= t < path.len() - 1 ==> #[trigger] step_at(path, t),
                    self@.wf(),
                    self@.probed == old(self)@.probed,
                    erased_from(old(self)@.srcs, self@.srcs),
                    self.input_ports() == old(self).input_ports(),
                    forall|k: int|
                        0 <= k < stack@.len() ==> self@.indep_random(#[trigger] stack@[k] as int),
                    simplified ==> count_not_random(self@.srcs) < count_not_random(g_pass.srcs),
                    !simplified ==> self@ == g_pass,
                    !simplified ==> forall|r: nat| #[trigger]
                        g_pass.indep_random(r as int) ==> stack@.contains(r as usize)
                            || invertible_succ_result(g_pass, r, None),
                ensures
                    stack@.len() == 0,
                decreases count_not_random(self@.srcs), stack@.len(),
            {
                let ghost before = stack@;
                let i = match stack.pop() {
                    Some(i) => i,
                    None => {
                        break ;
                    },
                };
                let ghost g1 = self@;
                let succ = self.invertible_succ(i);
                match succ {
                    Some(succ) => {
                        proof {
                            let u = lemma_impdom_used(g1, i as nat, succ as nat);
                            lemma_occurrences_contains(g1.succs[u as int], succ);
                            assert(g1.consistent(succ as int));
                            assert(!g1.unlinked(succ as int));
                            // a leaf has itself alone as its algebraic normal form
                            assert(g1.srcs[succ as int] != VarSrc::Random) by {
                                if g1.srcs[succ as int] == VarSrc::Random {
                                    lemma_leaf_not_invertible(g1, i as nat, succ as nat);
                                }
                            }
                            lemma_count_not_random_erase(g1.srcs, succ as int);
                        }
                        proof {
                            assert forall|k: int| 0 <= k < stack@.len() implies g1.indep_random(
                                #[trigger] stack@[k] as int,
                            ) by {
                                assert(stack@[k] == before[k]);
                            }
                            assert(g1.indep_random(i as int)) by {
                                assert(before[before.len() - 1] == i);
                            }
                        }
                        self.erase_var(succ, &mut stack);
                        simplified = true;
                        proof {
                            let walked = path;
                            path = walked.push(self@);
                            assert(is_invertible_succ(g1, i as nat, succ as nat));
                            assert(erase_step(g1, self@));
                            assert forall|t: int| 0 <= t < path.len() - 1 implies #[trigger] step_at(
                                path,
                                t,
                            ) by {
                                if t < walked.len() - 1 {
                                    assert(step_at(walked, t));
                                    assert(path[t] == walked[t] && path[t + 1] == walked[t + 1]);
                                } else {
                                    assert(path[t] == g1);
                                }
                            }
                            assert(erased_from(old(self)@.srcs, self@.srcs)) by {
                                assert forall|k: int|
                                    0 <= k < old(self)@.srcs.len() implies #[trigger] self@.srcs[k]
                                    == old(self)@.srcs[k] || self@.srcs[k] == VarSrc::Random by {
                                    assert(g1.srcs[k] == old(self)@.srcs[k] || g1.srcs[k]
                                        == VarSrc::Random);
                                }
                            }
                        }
                    },
                    None => {
                        proof {
                            if !simplified {
                                assert forall|r: nat| #[trigger]
                                    g_pass.indep_random(r as int) implies stack@.contains(
                                    r as usize,
                                ) || invertible_succ_result(g_pass, r, None) by {
                                    if r != i {
                                        if before.contains(r as usize) {
                                            let k = choose|k: int|
                                                0 <= k < before.len() && before[k] == r as usize;
                                            assert(before[before.len() - 1] == i);
                                            assert(stack@[k] == r as usize);
                                        }
                                    }
                                }
                            }
                        }
                    },
                }
            }
        }
    }
}

/// A random bit is its own algebraic normal form: no variable below it is a primitive
/// monomial of that.
proof fn lemma_leaf_not_invertible(g: GraphView, var: nat, d: nat)
    requires
        g.bounds(),
        var < d < g.srcs.len(),
        is_leaf(g.srcs[d as int]),
    ensures
        !primitive_at(g, d, var),
{
    let p = anf_of(g.srcs, d);
    assert(p == set![set![d as usize]]);
    let t = terms_of(p);
    let one = seq![set![d as usize]];
    assert(super::poly::strictly_decreasing(one));
    assert(one.to_set() =~= p) by {
        assert(one[0] == set![d as usize]);
    }
    super::poly::lemma_terms_unique(t, one);
    if primitives(t, t).contains(set![var as usize]) {
        lemma_primitives_within(t, t, set![var as usize]);
        assert(t[0] == set![d as usize]);
        assert(set![d as usize].contains(d as usize));
        assert(set![var as usize].contains(d as usize));
    }
}

/// A primitive monomial of a list is a monomial of it.
proof fn lemma_primitives_within(t: Seq<Set<usize>>, all: Seq<Set<usize>>, m: Set<usize>)
    requires
        primitives(t, all).contains(m),
    ensures
        t.contains(m),
    decreases t.len(),
{
    if t.len() > 0 {
        let d = t.drop_last();
        let i = choose|i: int| 0 <= i < primitives(t, all).len() && primitives(t, all)[i] == m;
        if super::poly::is_primitive(all, t.last()) && i == primitives(d, all).len() {
            assert(t[t.len() - 1] == m);
        } else {
            assert(primitives(d, all)[i] == m);
            lemma_primitives_within(d, all, m);
            let k = choose|k: int| 0 <= k < d.len() && d[k] == m;
            assert(t[k] == m);
        }
    }
}

} // verus!
