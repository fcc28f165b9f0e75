//! Circuits on shared values: variables in topological order, and where each comes from.
use super::poly::{
    lemma_terms_unique, odd_set, products, strictly_decreasing, sym_diff, Polynomial,
};
use super::var_set::VarIdx;
use vstd::prelude::*;

verus! {

/// Where the value of a variable comes from.
#[derive(Debug, Eq, PartialEq, Clone, Copy)]
pub enum VarSrc {
    /// A share of an input: the port, and the share's place in the sharing.
    Input(usize, usize),
    /// A fresh random bit.
    Random,
    /// The sum of two variables.
    Sum([VarIdx; 2]),
    /// The product of two variables.
    Product([VarIdx; 2]),
    /// The negation of a variable.
    Not([VarIdx; 1]),
}

impl VarSrc {
    /// The variables that the value is computed from.
    pub open spec fn operands_spec(&self) -> Seq<VarIdx> {
        match self {
            VarSrc::Sum(ops) | VarSrc::Product(ops) => ops@,
            VarSrc::Not(ops) => ops@,
            VarSrc::Input(_, _) | VarSrc::Random => Seq::empty(),
        }
    }

    /// The variables that the value is computed from.
    pub fn operands(&self) -> (ops: &[VarIdx])
        ensures
            ops@ == self.operands_spec(),
    {
        match self {
            VarSrc::Sum(ops) => ops.as_slice(),
            VarSrc::Product(ops) => ops.as_slice(),
            VarSrc::Not(ops) => ops.as_slice(),
            VarSrc::Input(_, _) => {
                let e: &[VarIdx; 0] = &[];
                e.as_slice()
            },
            VarSrc::Random => {
                let e: &[VarIdx; 0] = &[];
                e.as_slice()
            },
        }
    }

    /// Whether the value is a fresh random bit.
    pub fn is_random(&self) -> (b: bool)
        ensures
            b == (*self == VarSrc::Random),
    {
        match self {
            VarSrc::Random => true,
            _ => false,
        }
    }
}

/// A variable of a circuit.
#[derive(Debug, Clone, PartialEq, Eq)]
pub struct Var {
    /// Where the value comes from.
    pub src: VarSrc,
    /// The output port and the share's place in its sharing, where the variable is an output.
    pub output_port: Option<(usize, usize)>,
    /// The name, which no other variable has.
    pub name: String,
}

/// Where each variable of a list comes from.
pub open spec fn sources(vars: Seq<Var>) -> Seq<VarSrc> {
    Seq::new(vars.len(), |i: int| vars[i].src)
}

/// Whether every operand of a variable comes before it.
pub open spec fn topological(srcs: Seq<VarSrc>) -> bool {
    forall|i: int, k: int|
        0 <= i < srcs.len() && 0 <= k < srcs[i].operands_spec().len() ==> (
        #[trigger] srcs[i].operands_spec()[k]) < i
}

/// The monomials of a polynomial, greatest first.
pub open spec fn terms_of(p: Set<Set<usize>>) -> Seq<Set<usize>> {
    choose|t: Seq<Set<usize>>| strictly_decreasing(t) && t.to_set() == p
}

/// The product of two polynomials, each given by the set of its monomials.
pub open spec fn poly_mul(p: Set<Set<usize>>, q: Set<Set<usize>>) -> Set<Set<usize>> {
    odd_set(products(terms_of(p), terms_of(q)))
}

/// The algebraic normal form of variable `i`: the polynomial over GF(2) that gives its value
/// from the inputs and the random bits, as the set of its monomials. An input or a random bit
/// is the variable `i` alone.
pub open spec fn anf_of(srcs: Seq<VarSrc>, i: nat) -> Set<Set<usize>>
    decreases i,
{
    if i >= srcs.len() {
        Set::empty()
    } else {
        match srcs[i as int] {
            VarSrc::Input(_, _) | VarSrc::Random => set![set![i as usize]],
            VarSrc::Not(ops) => if ops[0] < i {
                sym_diff(anf_of(srcs, ops[0] as nat), set![Set::<usize>::empty()])
            } else {
                Set::empty()
            },
            VarSrc::Sum(ops) => if ops[0] < i && ops[1] < i {
                sym_diff(anf_of(srcs, ops[0] as nat), anf_of(srcs, ops[1] as nat))
            } else {
                Set::empty()
            },
            VarSrc::Product(ops) => if ops[0] < i && ops[1] < i {
                poly_mul(anf_of(srcs, ops[0] as nat), anf_of(srcs, ops[1] as nat))
            } else {
                Set::empty()
            },
        }
    }
}

/// The set of monomials of a polynomial gives back its list of monomials.
pub proof fn lemma_terms_of(p: Polynomial)
    requires
        p.wf(),
    ensures
        terms_of(p.term_set()) == p@,
{
    let t = terms_of(p.term_set());
    assert(strictly_decreasing(p@) && p@.to_set() == p.term_set());
    lemma_terms_unique(t, p@);
}

/// A circuit on shared values. The variables are in topological order; `n_shares` shares make
/// a sharing, of which the circuit takes `n_input_ports` and gives `n_output_ports`.
#[derive(Debug, Clone, PartialEq)]
pub struct SlSharedCircuit {
    /// The variables, each after its operands.
    pub vars: Vec<Var>,
    /// The number of shares of a sharing.
    pub n_shares: usize,
    /// The number of sharings that the circuit takes.
    pub n_input_ports: usize,
    /// The number of sharings that the circuit gives.
    pub n_output_ports: usize,
    /// The algebraic normal form of each variable.
    pub anfs: Vec<Polynomial>,
}

impl SlSharedCircuit {
    /// Where each variable comes from.
    pub open spec fn srcs(&self) -> Seq<VarSrc> {
        sources(self.vars@)
    }

    /// The variables are in topological order, and the circuit keeps the algebraic normal
    /// form of each.
    pub open spec fn wf(&self) -> bool {
        &&& topological(self.srcs())
        &&& self.anfs@.len() == self.vars@.len()
        &&& forall|i: int|
            0 <= i < self.vars@.len() ==> (#[trigger] self.anfs@[i]).wf()
                && self.anfs@[i].term_set() == anf_of(self.srcs(), i as nat)
    }

    /// The circuit of the variables `vars`, with the algebraic normal form of each.
    pub fn new(vars: Vec<Var>, n_shares: usize, n_input_ports: usize, n_output_ports: usize) -> (r:
        Self)
        requires
            topological(sources(vars@)),
        ensures
            r.wf(),
            r.vars == vars,
            r.n_shares == n_shares,
            r.n_input_ports == n_input_ports,
            r.n_output_ports == n_output_ports,
    {
        let anfs = build_anfs(&vars);
        Self { vars, n_shares, n_input_ports, n_output_ports, anfs }
    }
}

/// The algebraic normal form of each variable.
pub fn build_anfs(vars: &Vec<Var>) -> (res: Vec<Polynomial>)
    requires
        topological(sources(vars@)),
    ensures
        res@.len() == vars@.len(),
        forall|i: int|
            0 <= i < vars@.len() ==> (#[trigger] res@[i]).wf() && res@[i].term_set() == anf_of(
                sources(vars@),
                i as nat,
            ),
{
    let ghost srcs = sources(vars@);
    let mut res: Vec<Polynomial> = Vec::new();
    let mut i: usize = 0;
    while i < vars.len()
        invariant
            i <= vars@.len(),
            srcs == sources(vars@),
            topological(srcs),
            res@.len() == i,
            forall|k: int|
                0 <= k < i ==> (#[trigger] res@[k]).wf() && res@[k].term_set() == anf_of(
                    srcs,
                    k as nat,
                ),
        decreases vars@.len() - i,
    {
        assert(srcs[i as int] == vars@[i as int].src);
        let p = match vars[i].src {
            VarSrc::Input(_, _) => {
                let p = Polynomial::from_var(i);
                assert(p.term_set() =~= set![set![i]]) by {
                    assert(p@[0] == set![i]);
                }
                p
            },
            VarSrc::Random => {
                let p = Polynomial::from_var(i);
                assert(p.term_set() =~= set![set![i]]) by {
                    assert(p@[0] == set![i]);
                }
                p
            },
            VarSrc::Not(it) => {
                assert(srcs[i as int].operands_spec()[0] == it[0]);
                res[it[0]].not()
            },
            VarSrc::Sum(it) => {
                assert(srcs[i as int].operands_spec()[0] == it[0]);
                assert(srcs[i as int].operands_spec()[1] == it[1]);
                res[it[0]].add(&res[it[1]])
            },
            VarSrc::Product(it) => {
                assert(srcs[i as int].operands_spec()[0] == it[0]);
                assert(srcs[i as int].operands_spec()[1] == it[1]);
                proof {
                    lemma_terms_of(res@[it[0] as int]);
                    lemma_terms_of(res@[it[1] as int]);
                }
                res[it[0]].mul(&res[it[1]])
            },
        };
        res.push(p);
        i = i + 1;
    }
    res
}

} // verus!
