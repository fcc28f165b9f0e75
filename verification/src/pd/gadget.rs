//! A circuit as a gadget: its physical probes and its outputs.
use crate::circuit::es_graph::{occurrences, GraphView};
use crate::circuit::import_sl_sc::{share_tag, tags_in_range, ShareKind};
use crate::circuit::ni::{is_input_list, is_sim_graph, sim_set};
use crate::circuit::sl_sc::{SlSharedCircuit, VarSrc};
use crate::circuit::utils::increasing;
use crate::pd::combinatorics::sorted_desc;
use vstd::prelude::*;

verus! {

/// How often the variables use `v`.
pub open spec fn uses(srcs: Seq<VarSrc>, v: usize) -> nat
    decreases srcs.len(),
{
    if srcs.len() == 0 {
        0
    } else {
        uses(srcs.drop_last(), v) + occurrences(srcs.last().operands_spec(), v)
    }
}

/// Whether `a` comes before `b`: by port, then by share, then by variable.
pub open spec fn output_lt(a: ((usize, usize), usize), b: ((usize, usize), usize)) -> bool {
    a.0.0 < b.0.0 || (a.0.0 == b.0.0 && (a.0.1 < b.0.1 || (a.0.1 == b.0.1 && a.1 < b.1)))
}

/// `[T]::sort_unstable_by` by the use count, greatest first: afterwards the list holds the
/// same pairs, each as often as before, and no use count is below one behind it. The order of
/// pairs with one use count is not told.
#[verifier::external_body]
fn sort_by_use_count(v: &mut Vec<(usize, u32)>)
    ensures
        final(v)@.to_multiset() == old(v)@.to_multiset(),
        forall|i: int, j: int| 0 <= i < j < final(v)@.len() ==> final(v)@[i].1 >= final(v)@[j].1,
{
    v.sort_unstable_by(|a, b| b.1.cmp(&a.1))
}

/// `[T]::sort_unstable` on tuples of integers: afterwards the list holds the same tuples,
/// each as often as before, and none comes before one that stands before it.
#[verifier::external_body]
fn sort_outputs(v: &mut Vec<((usize, usize), usize)>)
    ensures
        final(v)@.to_multiset() == old(v)@.to_multiset(),
        forall|i: int, j: int| 0 <= i < j < final(v)@.len() ==> !output_lt(final(v)@[j], final(v)@[i]),
{
    v.sort_unstable()
}

proof fn lemma_uses_step(srcs: Seq<VarSrc>, i: int, v: usize)
    requires
        0 <= i < srcs.len(),
    ensures
        uses(srcs.subrange(0, i + 1), v) == uses(srcs.subrange(0, i), v) + occurrences(
            srcs[i].operands_spec(),
            v,
        ),
{
    assert(srcs.subrange(0, i + 1).drop_last() =~= srcs.subrange(0, i));
}

proof fn lemma_uses_bound(srcs: Seq<VarSrc>, v: usize)
    ensures
        uses(srcs, v) <= 2 * srcs.len(),
    decreases srcs.len(),
{
    if srcs.len() > 0 {
        lemma_uses_bound(srcs.drop_last(), v);
        let ops = srcs.last().operands_spec();
        assert(ops.len() <= 2);
        lemma_occurrences_bound(ops, v);
    }
}

proof fn lemma_occurrences_bound(s: Seq<usize>, v: usize)
    ensures
        occurrences(s, v) <= s.len(),
    decreases s.len(),
{
    if s.len() > 0 {
        lemma_occurrences_bound(s.drop_last(), v);
    }
}

proof fn lemma_occurrences_pair(a: usize, b: usize, v: usize)
    ensures
        occurrences(seq![a, b], v) == (if a == v {
            1nat
        } else {
            0nat
        }) + (if b == v {
            1nat
        } else {
            0nat
        }),
        occurrences(seq![a], v) == (if a == v {
            1nat
        } else {
            0nat
        }),
        occurrences(Seq::<usize>::empty(), v) == 0,
{
    let s0 = Seq::<usize>::empty();
    let s1 = seq![a];
    let s2 = seq![a, b];
    assert(s1.drop_last() =~= s0);
    assert(s2.drop_last() =~= s1);
    assert(s1.last() == a);
    assert(s2.last() == b);
    assert(occurrences(s0, v) == 0);
    assert(occurrences(s1, v) == occurrences(s0, v) + if a == v {
        1nat
    } else {
        0nat
    });
    assert(occurrences(s2, v) == occurrences(s1, v) + if b == v {
        1nat
    } else {
        0nat
    });
}

/// A circuit with its physical probes: each variable that is used, with the number of probes
/// that it stands for, greatest first; and with its outputs in the order of their shares.
pub struct SimGadget {
    circuit: SlSharedCircuit,
    max_probes: Vec<u32>,
    probes2vars: Vec<usize>,
    output_vars: Vec<usize>,
}

impl SimGadget {
    /// The circuit.
    pub closed spec fn circuit(&self) -> SlSharedCircuit {
        self.circuit
    }

    /// The number of probes that each physical probe stands for.
    pub closed spec fn max_probes(&self) -> Seq<u32> {
        self.max_probes@
    }

    /// The variable of each physical probe.
    pub closed spec fn probe_vars(&self) -> Seq<usize> {
        self.probes2vars@
    }

    /// The variable of each output share.
    pub closed spec fn output_vars(&self) -> Seq<usize> {
        self.output_vars@
    }

    /// The circuit is well formed, with its inputs in range and few enough variables to
    /// number them in 32 bits; the physical probes and the outputs are variables of it; the
    /// numbers of probes are in decreasing order.
    pub open spec fn wf(&self) -> bool {
        &&& self.circuit().wf()
        &&& self.circuit().vars@.len() <= u32::MAX
        &&& tags_in_range(
            self.circuit().vars@,
            self.circuit().n_shares,
            self.circuit().n_input_ports,
            ShareKind::Input,
        )
        &&& self.circuit().n_input_ports * self.circuit().n_shares <= usize::MAX
        &&& self.circuit().n_output_ports * self.circuit().n_shares <= usize::MAX
        &&& self.max_probes().len() == self.probe_vars().len()
        &&& sorted_desc(self.max_probes())
        &&& forall|i: int|
            0 <= i < self.probe_vars().len() ==> (#[trigger] self.probe_vars()[i])
                < self.circuit().vars@.len()
        &&& forall|i: int|
            0 <= i < self.output_vars().len() ==> (#[trigger] self.output_vars()[i])
                < self.circuit().vars@.len()
    }

    /// The gadget of a circuit, where a variable with `u` uses stands for `uc2maxp(u)` probes.
    pub fn new<F: Fn(u32) -> u32>(circuit: SlSharedCircuit, uc2maxp: F) -> (r: Self)
        requires
            circuit.wf(),
            2 * circuit.vars@.len() <= u32::MAX,
            tags_in_range(circuit.vars@, circuit.n_shares, circuit.n_input_ports, ShareKind::Input),
            circuit.n_input_ports * circuit.n_shares <= usize::MAX,
            circuit.n_output_ports * circuit.n_shares <= usize::MAX,
            forall|u: u32| uc2maxp.requires((u,)),
            forall|a: u32, b: u32, ra: u32, rb: u32|
                a <= b && uc2maxp.ensures((a,), ra) && uc2maxp.ensures((b,), rb) ==> ra <= rb,
        ensures
            r.wf(),
            r.circuit() == circuit,
            r.probe_vars().no_duplicates(),
            forall|v: usize|
                r.probe_vars().contains(v) <==> v < circuit.vars@.len() && uses(circuit.srcs(), v)
                    > 0,
            forall|i: int, j: int|
                0 <= i < j < r.probe_vars().len() ==> uses(circuit.srcs(), r.probe_vars()[i])
                    >= uses(circuit.srcs(), r.probe_vars()[j]),
            forall|i: int|
                0 <= i < r.probe_vars().len() ==> uc2maxp.ensures(
                    (uses(circuit.srcs(), r.probe_vars()[i]) as u32,),
                    #[trigger] r.max_probes()[i],
                ),
            forall|v: usize|
                r.output_vars().contains(v) <==> v < circuit.vars@.len()
                    && circuit.vars@[v as int].output_port is Some,
            r.output_vars().no_duplicates(),
            forall|i: int, j: int|
                0 <= i < j < r.output_vars().len() ==> !output_lt(
                    (circuit.vars@[r.output_vars()[j] as int].output_port->0, r.output_vars()[j]),
                    (circuit.vars@[r.output_vars()[i] as int].output_port->0, r.output_vars()[i]),
                ),
    {
        let n = circuit.vars.len();
        let ghost srcs = circuit.srcs();
        let mut var_use_count: Vec<u32> = Vec::new();
        let mut i: usize = 0;
        while i < n
            invariant
                i <= n,
                var_use_count@.len() == i,
                forall|v: int| 0 <= v < i ==> var_use_count@[v] == 0,
            decreases n - i,
        {
            var_use_count.push(0);
            i = i + 1;
        }
        assert(srcs.subrange(0, 0) =~= Seq::<VarSrc>::empty());
        let mut i: usize = 0;
        while i < n
            invariant
                i <= n,
                n == circuit.vars@.len(),
                2 * n <= u32::MAX,
                srcs == circuit.srcs(),
                circuit.wf(),
                var_use_count@.len() == n,
                forall|v: int|
                    0 <= v < n ==> #[trigger] var_use_count@[v] == uses(
                        srcs.subrange(0, i as int),
                        v as usize,
                    ),
            decreases n - i,
        {
            let ghost before = var_use_count@;
            assert(srcs[i as int] == circuit.vars@[i as int].src);
            proof {
                assert forall|v: usize| #![trigger uses(srcs.subrange(0, i + 1), v)]
                    uses(srcs.subrange(0, i + 1), v) <= 2 * (i + 1) by {
                    lemma_uses_bound(srcs.subrange(0, i + 1), v);
                }
                assert forall|v: usize|
                    uses(srcs.subrange(0, i + 1), v) == #[trigger] uses(
                        srcs.subrange(0, i as int),
                        v,
                    ) + occurrences(srcs[i as int].operands_spec(), v) by {
                    lemma_uses_step(srcs, i as int, v);
                }
            }
            match circuit.vars[i].src {
                VarSrc::Sum(ops) => {
                    let v1 = ops[0];
                    let v2 = ops[1];
                    proof {
                        assert(srcs[i as int].operands_spec()[0] == v1);
                        assert(srcs[i as int].operands_spec()[1] == v2);
                        assert(srcs[i as int].operands_spec() =~= seq![v1, v2]);
                        assert forall|v: usize|
                            occurrences(seq![v1, v2], v) == (if v1 == v {
                                1nat
                            } else {
                                0nat
                            }) + (if v2 == v {
                                1nat
                            } else {
                                0nat
                            }) by {
                            lemma_occurrences_pair(v1, v2, v);
                        }
                        assert(uses(srcs.subrange(0, i + 1), v1) <= 2 * (i + 1));
                        assert(uses(srcs.subrange(0, i + 1), v2) <= 2 * (i + 1));
                    }
                    var_use_count[v1] = var_use_count[v1] + 1;
                    var_use_count[v2] = var_use_count[v2] + 1;
                },
                VarSrc::Product(ops) => {
                    let v1 = ops[0];
                    let v2 = ops[1];
                    proof {
                        assert(srcs[i as int].operands_spec()[0] == v1);
                        assert(srcs[i as int].operands_spec()[1] == v2);
                        assert(srcs[i as int].operands_spec() =~= seq![v1, v2]);
                        assert forall|v: usize|
                            occurrences(seq![v1, v2], v) == (if v1 == v {
                                1nat
                            } else {
                                0nat
                            }) + (if v2 == v {
                                1nat
                            } else {
                                0nat
                            }) by {
                            lemma_occurrences_pair(v1, v2, v);
                        }
                        assert(uses(srcs.subrange(0, i + 1), v1) <= 2 * (i + 1));
                        assert(uses(srcs.subrange(0, i + 1), v2) <= 2 * (i + 1));
                    }
                    var_use_count[v1] = var_use_count[v1] + 1;
                    var_use_count[v2] = var_use_count[v2] + 1;
                },
                VarSrc::Not(ops) => {
                    let v = ops[0];
                    proof {
                        assert(srcs[i as int].operands_spec()[0] == v);
                        assert(srcs[i as int].operands_spec() =~= seq![v]);
                        assert forall|w: usize|
                            occurrences(seq![v], w) == (if v == w {
                                1nat
                            } else {
                                0nat
                            }) by {
                            lemma_occurrences_pair(v, v, w);
                        }
                        assert(uses(srcs.subrange(0, i + 1), v) <= 2 * (i + 1));
                    }
                    var_use_count[v] = var_use_count[v] + 1;
                },
                VarSrc::Input(_, _) => {
                    proof {
                        assert forall|w: usize|
                            occurrences(srcs[i as int].operands_spec(), w) == 0 by {
                            lemma_occurrences_pair(0, 0, w);
                        }
                    }
                },
                VarSrc::Random => {
                    proof {
                        assert forall|w: usize|
                            occurrences(srcs[i as int].operands_spec(), w) == 0 by {
                            lemma_occurrences_pair(0, 0, w);
                        }
                    }
                },
            }
            i = i + 1;
        }
        assert(srcs.subrange(0, n as int) =~= srcs);
        let mut sorted_probe_vars: Vec<(usize, u32)> = Vec::new();
        let mut v: usize = 0;
        while v < n
            invariant
                v <= n,
                var_use_count@.len() == n,
                forall|k: int| 0 <= k < sorted_probe_vars@.len() ==> (
                #[trigger] sorted_probe_vars@[k]).0 < v && sorted_probe_vars@[k].1
                    == var_use_count@[sorted_probe_vars@[k].0 as int] && sorted_probe_vars@[k].1
                    != 0,
                forall|a: int, b: int|
                    0 <= a < b < sorted_probe_vars@.len() ==> sorted_probe_vars@[a].0
                        < sorted_probe_vars@[b].0,
                forall|w: int|
                    0 <= w < v && var_use_count@[w] != 0 ==> sorted_probe_vars@.contains(
                        (w as usize, #[trigger] var_use_count@[w]),
                    ),
            decreases n - v,
        {
            let ghost before = sorted_probe_vars@;
            if var_use_count[v] != 0 {
                sorted_probe_vars.push((v, var_use_count[v]));
            }
            proof {
                assert forall|w: int|
                    0 <= w < v + 1 && var_use_count@[w] != 0 implies sorted_probe_vars@.contains(
                    (w as usize, #[trigger] var_use_count@[w]),
                ) by {
                    if w < v {
                        let k = choose|k: int|
                            0 <= k < before.len() && before[k] == (w as usize, var_use_count@[w]);
                        assert(sorted_probe_vars@[k] == before[k]);
                    } else {
                        assert(sorted_probe_vars@[sorted_probe_vars@.len() - 1] == (
                            v,
                            var_use_count@[v as int],
                        ));
                    }
                }
            }
            v = v + 1;
        }
        let ghost unsorted = sorted_probe_vars@;
        sort_by_use_count(&mut sorted_probe_vars);
        proof {
            broadcast use vstd::seq_lib::group_to_multiset_ensures;

            assert forall|x: (usize, u32)| sorted_probe_vars@.contains(x) <==> unsorted.contains(
                x,
            ) by {
                assert(sorted_probe_vars@.to_multiset().count(x) == unsorted.to_multiset().count(
                    x,
                ));
            }
            assert(unsorted.no_duplicates());
            unsorted.lemma_multiset_has_no_duplicates();
            assert(sorted_probe_vars@.no_duplicates()) by {
                sorted_probe_vars@.lemma_multiset_has_no_duplicates_conv();
            }
            assert(sorted_probe_vars@.len() == unsorted.len()) by {
                assert(sorted_probe_vars@.to_multiset().len() == unsorted.to_multiset().len());
            }
            let sp = sorted_probe_vars@;
            assert forall|j: int| 0 <= j < sp.len() implies (#[trigger] sp[j]).0 < n && sp[j].1
                == var_use_count@[sp[j].0 as int] && sp[j].1 != 0 by {
                assert(sp.contains(sp[j]));
                assert(unsorted.contains(sp[j]));
                let t = choose|t: int| 0 <= t < unsorted.len() && unsorted[t] == sp[j];
                assert(unsorted[t].0 < n);
            }
        }
        let np = sorted_probe_vars.len();
        let mut probes2vars: Vec<usize> = Vec::new();
        let mut max_probes: Vec<u32> = Vec::new();
        let mut k: usize = 0;
        while k < np
            invariant
                k <= np,
                np == sorted_probe_vars@.len(),
                probes2vars@.len() == k,
                max_probes@.len() == k,
                forall|u: u32| uc2maxp.requires((u,)),
                forall|j: int| 0 <= j < k ==> #[trigger] probes2vars@[j] == sorted_probe_vars@[j].0,
                forall|j: int|
                    0 <= j < k ==> uc2maxp.ensures(
                        (sorted_probe_vars@[j].1,),
                        #[trigger] max_probes@[j],
                    ),
            decreases np - k,
        {
            let (var, uc) = sorted_probe_vars[k];
            probes2vars.push(var);
            max_probes.push(uc2maxp(uc));
            k = k + 1;
        }
        let mut outputs: Vec<((usize, usize), usize)> = Vec::new();
        let mut v: usize = 0;
        while v < n
            invariant
                v <= n,
                n == circuit.vars@.len(),
                forall|k: int| 0 <= k < outputs@.len() ==> (#[trigger] outputs@[k]).1 < v
                    && circuit.vars@[outputs@[k].1 as int].output_port == Some(outputs@[k].0),
                forall|a: int, b: int|
                    0 <= a < b < outputs@.len() ==> outputs@[a].1 < outputs@[b].1,
                forall|w: int|
                    0 <= w < v && circuit.vars@[w].output_port is Some ==> outputs@.contains(
                        (#[trigger] circuit.vars@[w].output_port->0, w as usize),
                    ),
            decreases n - v,
        {
            let ghost before = outputs@;
            match circuit.vars[v].output_port {
                Some(port) => {
                    outputs.push((port, v));
                },
                None => {},
            }
            proof {
                assert forall|w: int|
                    0 <= w < v + 1 && circuit.vars@[w].output_port is Some implies outputs@.contains(
                    (#[trigger] circuit.vars@[w].output_port->0, w as usize),
                ) by {
                    if w < v {
                        let k = choose|k: int|
                            0 <= k < before.len() && before[k] == (
                                circuit.vars@[w].output_port->0,
                                w as usize,
                            );
                        assert(outputs@[k] == before[k]);
                    } else {
                        assert(outputs@[outputs@.len() - 1] == (
                            circuit.vars@[v as int].output_port->0,
                            v,
                        ));
                    }
                }
            }
            v = v + 1;
        }
        let ghost unsorted_out = outputs@;
        sort_outputs(&mut outputs);
        proof {
            broadcast use vstd::seq_lib::group_to_multiset_ensures;

            assert forall|x: ((usize, usize), usize)|
                outputs@.contains(x) <==> unsorted_out.contains(x) by {
                assert(outputs@.to_multiset().count(x) == unsorted_out.to_multiset().count(x));
            }
            assert(unsorted_out.no_duplicates());
            unsorted_out.lemma_multiset_has_no_duplicates();
            assert(outputs@.no_duplicates()) by {
                outputs@.lemma_multiset_has_no_duplicates_conv();
            }
            let so = outputs@;
            assert forall|j: int| 0 <= j < so.len() implies (#[trigger] so[j]).1 < n
                && circuit.vars@[so[j].1 as int].output_port == Some(so[j].0) by {
                assert(so.contains(so[j]));
                assert(unsorted_out.contains(so[j]));
                let t = choose|t: int| 0 <= t < unsorted_out.len() && unsorted_out[t] == so[j];
                assert(unsorted_out[t].1 < n);
            }
        }
        let no = outputs.len();
        let mut output_vars: Vec<usize> = Vec::new();
        let mut k: usize = 0;
        while k < no
            invariant
                k <= no,
                no == outputs@.len(),
                output_vars@.len() == k,
                forall|j: int| 0 <= j < k ==> #[trigger] output_vars@[j] == outputs@[j].1,
            decreases no - k,
        {
            output_vars.push(outputs[k].1);
            k = k + 1;
        }
        let r = Self { circuit, max_probes, probes2vars, output_vars };
        proof {
            let pv = r.probe_vars();
            let sp = sorted_probe_vars@;
            assert forall|a: int, b: int| 0 <= a < pv.len() && 0 <= b < pv.len() && a != b implies pv[a]
                != pv[b] by {
                assert(pv[a] == sp[a].0 && pv[b] == sp[b].0);
                assert(sp[a].1 == var_use_count@[sp[a].0 as int]);
                assert(sp[b].1 == var_use_count@[sp[b].0 as int]);
                assert(sp[a] != sp[b]);
            }
            assert forall|v: usize| pv.contains(v) <==> v < n && uses(srcs, v) > 0 by {
                if pv.contains(v) {
                    let j = choose|j: int| 0 <= j < pv.len() && pv[j] == v;
                    assert(sp[j].0 == v);
                }
                if v < n && uses(srcs, v) > 0 {
                    assert(var_use_count@[v as int] != 0);
                    assert(unsorted.contains((v, var_use_count@[v as int])));
                    let j = choose|j: int|
                        0 <= j < sp.len() && sp[j] == (v, var_use_count@[v as int]);
                    assert(pv[j] == v);
                }
            }
            assert forall|a: int, b: int| 0 <= a < b < pv.len() implies uses(srcs, pv[a]) >= uses(
                srcs,
                pv[b],
            ) by {
                assert(pv[a] == sp[a].0 && pv[b] == sp[b].0);
                assert(sp[a].1 >= sp[b].1);
            }
            assert forall|j: int| 0 <= j < pv.len() implies uc2maxp.ensures(
                (uses(srcs, pv[j]) as u32,),
                #[trigger] r.max_probes()[j],
            ) by {
                assert(pv[j] == sp[j].0);
                assert(uc2maxp.ensures((sp[j].1,), max_probes@[j]));
            }
            assert forall|a: int, b: int| 0 <= a <= b < r.max_probes().len() implies r.max_probes()[a]
                >= r.max_probes()[b] by {
                if a < b {
                    assert(sp[a].1 >= sp[b].1);
                    assert(uc2maxp.ensures((sp[a].1,), max_probes@[a]));
                    assert(uc2maxp.ensures((sp[b].1,), max_probes@[b]));
                }
            }
            let ov = r.output_vars();
            let so = outputs@;
            assert forall|a: int, b: int| 0 <= a < ov.len() && 0 <= b < ov.len() && a != b implies ov[a]
                != ov[b] by {
                assert(ov[a] == so[a].1 && ov[b] == so[b].1);
                assert(so[a] != so[b]);
            }
            assert forall|v: usize|
                ov.contains(v) <==> v < n && circuit.vars@[v as int].output_port is Some by {
                if ov.contains(v) {
                    let j = choose|j: int| 0 <= j < ov.len() && ov[j] == v;
                    assert(so[j].1 == v);
                }
                if v < n && circuit.vars@[v as int].output_port is Some {
                    let x = (circuit.vars@[v as int].output_port->0, v);
                    assert(unsorted_out.contains(x));
                    let j = choose|j: int| 0 <= j < so.len() && so[j] == x;
                    assert(ov[j] == v);
                }
            }
            assert forall|a: int, b: int| 0 <= a < b < ov.len() implies !output_lt(
                (circuit.vars@[ov[b] as int].output_port->0, ov[b]),
                (circuit.vars@[ov[a] as int].output_port->0, ov[a]),
            ) by {
                assert(ov[a] == so[a].1 && ov[b] == so[b].1);
                assert(!output_lt(so[b], so[a]));
            }
            assert forall|j: int| 0 <= j < pv.len() implies (#[trigger] pv[j]) < n by {
                assert(pv[j] == sp[j].0);
            }
            assert forall|j: int| 0 <= j < ov.len() implies (#[trigger] ov[j]) < n by {
                assert(ov[j] == so[j].1);
            }
        }
        r
    }
}

/// The sum of the numbers of a list.
pub open spec fn total(s: Seq<u32>) -> nat
    decreases s.len(),
{
    if s.len() == 0 {
        0
    } else {
        total(s.drop_last()) + s.last() as nat
    }
}

/// Whether `pv` lists the variables that are probed, in increasing order: the variables of
/// the output shares `outputs` and those of the physical probes `probes`.
pub open spec fn is_probed_list(
    output_vars: Seq<usize>,
    probe_vars: Seq<usize>,
    outputs: Seq<usize>,
    probes: Seq<usize>,
    pv: Seq<u32>,
) -> bool {
    &&& forall|i: int, j: int| 0 <= i < j < pv.len() ==> pv[i] < pv[j]
    &&& forall|x: u32|
        pv.contains(x) <==> (exists|k: int|
            0 <= k < outputs.len() && #[trigger] output_vars[outputs[k] as int] == x)
            || (exists|k: int| 0 <= k < probes.len() && #[trigger] probe_vars[probes[k] as int] == x)
}

/// The place of an input share among all input shares: the sharings one after another.
pub open spec fn offset_of(src: VarSrc, n_shares: usize) -> int {
    match src {
        VarSrc::Input(port, share) => port * n_shares + share,
        _ => 0,
    }
}

impl SimGadget {
    /// The number of output shares.
    pub fn n_outputs(&self) -> (n: usize)
        requires
            self.wf(),
        ensures
            n == self.circuit().n_output_ports * self.circuit().n_shares,
    {
        self.n_output_sharings() * self.n_shares()
    }

    /// The number of input shares.
    pub fn n_inputs(&self) -> (n: usize)
        requires
            self.wf(),
        ensures
            n == self.circuit().n_input_ports * self.circuit().n_shares,
    {
        self.n_input_sharings() * self.n_shares()
    }

    /// The number of probes in all.
    pub fn max_n_probes(&self) -> (n: u32)
        requires
            total(self.max_probes()) <= u32::MAX,
        ensures
            n == total(self.max_probes()),
    {
        let mut sum: u32 = 0;
        let mut i: usize = 0;
        while i < self.max_probes.len()
            invariant
                i <= self.max_probes@.len(),
                sum == total(self.max_probes@.subrange(0, i as int)),
                total(self.max_probes@) <= u32::MAX,
            decreases self.max_probes@.len() - i,
        {
            proof {
                assert(self.max_probes@.subrange(0, i + 1).drop_last() =~= self.max_probes@.subrange(
                    0,
                    i as int,
                ));
                lemma_total_prefix(self.max_probes@, i + 1);
            }
            sum = sum + self.max_probes[i];
            i = i + 1;
        }
        assert(self.max_probes@.subrange(0, self.max_probes@.len() as int) =~= self.max_probes@);
        sum
    }

    /// The number of shares of a sharing.
    pub fn n_shares(&self) -> (n: usize)
        ensures
            n == self.circuit().n_shares,
    {
        self.circuit.n_shares
    }

    /// The number of input sharings.
    pub fn n_input_sharings(&self) -> (n: usize)
        ensures
            n == self.circuit().n_input_ports,
    {
        self.circuit.n_input_ports
    }

    /// The number of output sharings.
    pub fn n_output_sharings(&self) -> (n: usize)
        ensures
            n == self.circuit().n_output_ports,
    {
        self.circuit.n_output_ports
    }

    /// The number of variables that are an output share.
    pub fn n_output_vars(&self) -> (n: usize)
        ensures
            n == self.output_vars().len(),
    {
        self.output_vars.len()
    }

    /// The number of physical probes.
    pub fn n_pp(&self) -> (n: usize)
        ensures
            n == self.max_probes().len(),
    {
        self.max_probes.len()
    }

    /// The number of probes that each physical probe stands for, in decreasing order.
    pub fn pp_maxp(&self) -> (p: &[u32])
        ensures
            p@ == self.max_probes(),
    {
        self.max_probes.as_slice()
    }

    /// Whether `r` lists the input shares that the output shares `outputs` and the physical
    /// probes `probes` need, each as its place among all input shares: the inputs that the
    /// probed variables depend on in a simplified graph of the circuit, in the order of their
    /// variables.
    pub open spec fn needs(&self, outputs: Seq<usize>, probes: Seq<usize>, r: Seq<usize>) -> bool {
        exists|pv: Seq<u32>, g: GraphView, ins: Seq<u32>|
            #![trigger is_sim_graph(self.circuit().srcs(), pv, g), is_input_list(g, ins)]
            {
                &&& is_probed_list(self.output_vars(), self.probe_vars(), outputs, probes, pv)
                &&& is_sim_graph(self.circuit().srcs(), pv, g)
                &&& is_input_list(g, ins)
                &&& r.len() == ins.len()
                &&& forall|k: int|
                    0 <= k < ins.len() ==> self.circuit().srcs()[ins[k] as int] is Input
                        && #[trigger] r[k] == offset_of(
                        self.circuit().srcs()[ins[k] as int],
                        self.circuit().n_shares,
                    )
            }
    }

    /// The input shares that are needed to simulate the output shares `outputs` and the
    /// physical probes `probes`, each as its place among all input shares, in the order of
    /// their variables.
    pub fn sim_probes(&self, outputs: &[usize], probes: &[usize]) -> (r: Vec<usize>)
        requires
            self.wf(),
            forall|k: int| 0 <= k < outputs@.len() ==> outputs@[k] < self.output_vars().len(),
            forall|k: int| 0 <= k < probes@.len() ==> probes@[k] < self.probe_vars().len(),
        ensures
            self.needs(outputs@, probes@, r@),
            forall|k: int|
                0 <= k < r@.len() ==> #[trigger] r@[k] < self.circuit().n_input_ports
                    * self.circuit().n_shares,
    {
        let n = self.circuit.vars.len();
        let mut var_mask: Vec<bool> = Vec::new();
        let mut i: usize = 0;
        while i < n
            invariant
                i <= n,
                var_mask@.len() == i,
                forall|j: int| 0 <= j < i ==> !var_mask@[j],
            decreases n - i,
        {
            var_mask.push(false);
            i = i + 1;
        }
        let mut k: usize = 0;
        while k < outputs.len()
            invariant
                k <= outputs@.len(),
                self.wf(),
                n == self.circuit().vars@.len(),
                var_mask@.len() == n,
                forall|j: int| 0 <= j < outputs@.len() ==> outputs@[j] < self.output_vars().len(),
                forall|x: int|
                    0 <= x < n ==> (#[trigger] var_mask@[x] <==> exists|j: int|
                        0 <= j < k && #[trigger] self.output_vars()[outputs@[j] as int] == x),
            decreases outputs@.len() - k,
        {
            let v = self.output_vars[outputs[k]];
            let ghost before = var_mask@;
            var_mask[v] = true;
            proof {
                assert forall|x: int| 0 <= x < n implies (#[trigger] var_mask@[x] <==> exists|j: int|
                    0 <= j < k + 1 && #[trigger] self.output_vars()[outputs@[j] as int] == x) by {
                    if before[x] {
                        let j = choose|j: int|
                            0 <= j < k && #[trigger] self.output_vars()[outputs@[j] as int] == x;
                        assert(self.output_vars()[outputs@[j] as int] == x);
                    }
                    if x == v {
                        assert(self.output_vars()[outputs@[k as int] as int] == x);
                    }
                    if exists|j: int|
                        0 <= j < k + 1 && #[trigger] self.output_vars()[outputs@[j] as int] == x {
                        let j = choose|j: int|
                            0 <= j < k + 1 && #[trigger] self.output_vars()[outputs@[j] as int]
                                == x;
                        if j < k {
                            assert(self.output_vars()[outputs@[j] as int] == x);
                            assert(before[x]);
                        }
                    }
                }
            }
            k = k + 1;
        }
        let ghost mask_out = var_mask@;
        let mut k: usize = 0;
        while k < probes.len()
            invariant
                k <= probes@.len(),
                self.wf(),
                n == self.circuit().vars@.len(),
                var_mask@.len() == n,
                mask_out.len() == n,
                forall|j: int| 0 <= j < probes@.len() ==> probes@[j] < self.probe_vars().len(),
                forall|x: int|
                    0 <= x < n ==> (#[trigger] var_mask@[x] <==> mask_out[x] || exists|j: int|
                        0 <= j < k && #[trigger] self.probe_vars()[probes@[j] as int] == x),
            decreases probes@.len() - k,
        {
            let v = self.probes2vars[probes[k]];
            let ghost before = var_mask@;
            var_mask[v] = true;
            proof {
                assert forall|x: int| 0 <= x < n implies (#[trigger] var_mask@[x] <==> mask_out[x]
                    || exists|j: int|
                    0 <= j < k + 1 && #[trigger] self.probe_vars()[probes@[j] as int] == x) by {
                    if before[x] && !mask_out[x] {
                        let j = choose|j: int|
                            0 <= j < k && #[trigger] self.probe_vars()[probes@[j] as int] == x;
                        assert(self.probe_vars()[probes@[j] as int] == x);
                    }
                    if x == v {
                        assert(self.probe_vars()[probes@[k as int] as int] == x);
                    }
                    if exists|j: int|
                        0 <= j < k + 1 && #[trigger] self.probe_vars()[probes@[j] as int] == x {
                        let j = choose|j: int|
                            0 <= j < k + 1 && #[trigger] self.probe_vars()[probes@[j] as int] == x;
                        if j < k {
                            assert(self.probe_vars()[probes@[j] as int] == x);
                        }
                    }
                }
            }
            k = k + 1;
        }
        let mut probed_vars: Vec<u32> = Vec::new();
        let mut x: usize = 0;
        while x < n
            invariant
                x <= n,
                n <= u32::MAX,
                var_mask@.len() == n,
                forall|i: int, j: int| 0 <= i < j < probed_vars@.len() ==> probed_vars@[i] < probed_vars@[j],
                forall|i: int| 0 <= i < probed_vars@.len() ==> probed_vars@[i] < x,
                forall|y: u32| probed_vars@.contains(y) <==> (y < x && var_mask@[y as int]),
            decreases n - x,
        {
            let ghost before = probed_vars@;
            if var_mask[x] {
                probed_vars.push(x as u32);
            }
            proof {
                assert forall|y: u32|
                    probed_vars@.contains(y) <==> (y < x + 1 && var_mask@[y as int]) by {
                    if probed_vars@.contains(y) {
                        let i = choose|i: int| 0 <= i < probed_vars@.len() && probed_vars@[i] == y;
                        if i < before.len() {
                            assert(before[i] == y);
                            assert(before.contains(y));
                        }
                    }
                    if before.contains(y) {
                        let i = choose|i: int| 0 <= i < before.len() && before[i] == y;
                        assert(probed_vars@[i] == y);
                    }
                    if y == x && var_mask@[x as int] {
                        assert(probed_vars@[probed_vars@.len() - 1] == y);
                    }
                }
            }
            x = x + 1;
        }
        let ghost pv = probed_vars@;
        proof {
            assert forall|y: u32|
                pv.contains(y) <==> (exists|j: int|
                    0 <= j < outputs@.len() && #[trigger] self.output_vars()[outputs@[j] as int]
                        == y) || (exists|j: int|
                    0 <= j < probes@.len() && #[trigger] self.probe_vars()[probes@[j] as int]
                        == y) by {
                if exists|j: int|
                    0 <= j < outputs@.len() && #[trigger] self.output_vars()[outputs@[j] as int]
                        == y {
                    let j = choose|j: int|
                        0 <= j < outputs@.len() && #[trigger] self.output_vars()[outputs@[j] as int]
                            == y;
                    assert(self.output_vars()[outputs@[j] as int] == y as int);
                    assert(mask_out[y as int]);
                }
                if exists|j: int|
                    0 <= j < probes@.len() && #[trigger] self.probe_vars()[probes@[j] as int] == y {
                    let j = choose|j: int|
                        0 <= j < probes@.len() && #[trigger] self.probe_vars()[probes@[j] as int]
                            == y;
                    assert(self.probe_vars()[probes@[j] as int] == y as int);
                    assert(var_mask@[y as int]);
                }
                if pv.contains(y) {
                    if mask_out[y as int] {
                        let j = choose|j: int|
                            0 <= j < outputs@.len() && #[trigger] self.output_vars()[outputs@[j] as int]
                                == y as int;
                        assert(self.output_vars()[outputs@[j] as int] == y);
                    } else {
                        let j = choose|j: int|
                            0 <= j < probes@.len() && #[trigger] self.probe_vars()[probes@[j] as int]
                                == y as int;
                        assert(self.probe_vars()[probes@[j] as int] == y);
                    }
                }
            }
            assert(is_probed_list(self.output_vars(), self.probe_vars(), outputs@, probes@, pv));
            assert forall|j: int| 0 <= j < pv.len() implies pv[j] < n by {
                assert(pv.contains(pv[j]));
            }
        }
        let req_inputs = sim_set(&self.circuit, probed_vars.as_slice());
        let ghost srcs = self.circuit().srcs();
        let ghost g = choose|g: GraphView| #[trigger]
            is_sim_graph(srcs, pv, g) && is_input_list(g, req_inputs@);
        let ghost wide = choose|v: Seq<usize>|
            increasing(v) && (forall|x: usize|
                v.contains(x) <==> crate::circuit::es_graph::is_remaining_input(g, x))
                && req_inputs@ == Seq::new(v.len(), |i: int| v[i] as u32);
        proof {
            assert forall|j: int| 0 <= j < wide.len() implies req_inputs@[j] == wide[j] as u32
                && wide[j] < n && srcs[wide[j] as int] is Input by {
                assert(wide.contains(wide[j]));
                assert(crate::circuit::es_graph::is_remaining_input(g, wide[j]));
                assert(g.srcs[wide[j] as int] == srcs[wide[j] as int] || g.srcs[wide[j] as int]
                    == VarSrc::Random);
            }
        }
        let mut input_offset: Vec<usize> = Vec::new();
        let mut k: usize = 0;
        while k < req_inputs.len()
            invariant
                k <= req_inputs@.len(),
                self.wf(),
                n == self.circuit().vars@.len(),
                srcs == self.circuit().srcs(),
                input_offset@.len() == k,
                req_inputs@.len() == wide.len(),
                forall|j: int|
                    0 <= j < wide.len() ==> req_inputs@[j] == wide[j] as u32 && wide[j] < n
                        && srcs[wide[j] as int] is Input,
                forall|j: int|
                    0 <= j < k ==> #[trigger] input_offset@[j] == offset_of(
                        srcs[req_inputs@[j] as int],
                        self.circuit().n_shares,
                    ) && input_offset@[j] < self.circuit().n_input_ports * self.circuit().n_shares,
            decreases req_inputs@.len() - k,
        {
            let i = req_inputs[k] as usize;
            assert(i == wide[k as int]);
            assert(srcs[i as int] == self.circuit.vars@[i as int].src);
            match self.circuit.vars[i].src {
                VarSrc::Input(port, share) => {
                    proof {
                        assert(share_tag(self.circuit().vars@[i as int], ShareKind::Input) == Some(
                            (port, share),
                        ));
                        let np = self.circuit().n_input_ports;
                        let ns = self.circuit().n_shares;
                        assert(port * ns + share < np * ns) by (nonlinear_arith)
                            requires
                                port < np,
                                share < ns,
                        ;
                    }
                    input_offset.push(port * self.n_shares() + share);
                },
                _ => {
                    assert(false);
                },
            }
            k = k + 1;
        }
        proof {
            assert(is_sim_graph(self.circuit().srcs(), pv, g) && is_input_list(g, req_inputs@));
        }
        input_offset
    }
}

proof fn lemma_total_prefix(s: Seq<u32>, i: int)
    requires
        0 <= i <= s.len(),
    ensures
        total(s.subrange(0, i)) <= total(s),
    decreases s.len() - i,
{
    if i < s.len() {
        assert(s.subrange(0, i + 1).drop_last() =~= s.subrange(0, i));
        lemma_total_prefix(s, i + 1);
    } else {
        assert(s.subrange(0, i) =~= s);
    }
}

} // verus!
