//! The inputs that a set of probes depends on.
use super::es_graph::{
    erased_from, is_remaining_input, is_simplified, simplifies, CompGraphWork, GraphView,
};
use super::sl_sc::{SlSharedCircuit, VarSrc};
use super::utils::increasing;
use vstd::prelude::*;

verus! {

/// Whether `g` is the graph of the circuit under the probes: its variables come from where
/// they do in the circuit, and the probed variables are those of `probes`.
pub open spec fn is_probed_graph(srcs: Seq<VarSrc>, probes: Seq<u32>, g: GraphView) -> bool {
    &&& g.wf()
    &&& g.srcs == srcs
    &&& forall|i: int| 0 <= i < srcs.len() ==> #[trigger] g.probed[i] == probes.contains(i as u32)
}

/// Whether `g` is a simplified graph of the circuit under the probes: the graph of the
/// circuit under the probes after steps of the simplification, one after another, until no
/// random bit that is not probed has a variable that can take its place.
pub open spec fn is_sim_graph(srcs: Seq<VarSrc>, probes: Seq<u32>, g: GraphView) -> bool {
    &&& g.wf()
    &&& erased_from(srcs, g.srcs)
    &&& forall|i: int| 0 <= i < srcs.len() ==> #[trigger] g.probed[i] == probes.contains(i as u32)
    &&& exists|g0: GraphView| #[trigger] is_probed_graph(srcs, probes, g0) && simplifies(g0, g)
    &&& is_simplified(g)
}

/// Whether `r` lists the inputs that the probed variables of `g` depend on, in increasing
/// order.
pub open spec fn is_input_list(g: GraphView, r: Seq<u32>) -> bool {
    exists|v: Seq<usize>|
        increasing(v) && (forall|x: usize| v.contains(x) <==> is_remaining_input(g, x)) && r
            == Seq::new(v.len(), |i: int| v[i] as u32)
}

/// The inputs that are needed to simulate a set of probes: those that the probed variables
/// depend on once the graph of the circuit is simplified.
pub fn sim_set(circ: &SlSharedCircuit, probes: &[u32]) -> (r: Vec<u32>)
    requires
        circ.wf(),
        circ.vars@.len() <= u32::MAX,
        forall|k: int| 0 <= k < probes@.len() ==> probes@[k] < circ.vars@.len(),
    ensures
        exists|g: GraphView| #[trigger] is_sim_graph(circ.srcs(), probes@, g) && is_input_list(g, r@),
{
    let mut wide: Vec<usize> = Vec::new();
    let mut k: usize = 0;
    while k < probes.len()
        invariant
            k <= probes@.len(),
            wide@.len() == k,
            forall|j: int| 0 <= j < k ==> wide@[j] == probes@[j] as usize,
            forall|j: int| 0 <= j < probes@.len() ==> probes@[j] < circ.vars@.len(),
        decreases probes@.len() - k,
    {
        wide.push(probes[k] as usize);
        k = k + 1;
    }
    let (mut c, _) = CompGraphWork::from_circ_probes(circ, wide.as_slice());
    proof {
        assert(erased_from(circ.srcs(), c@.srcs));
        assert forall|i: int| 0 <= i < circ.srcs().len() implies #[trigger] c@.probed[i]
            == probes@.contains(i as u32) by {
            if wide@.contains(i as usize) {
                let j = choose|j: int| 0 <= j < wide@.len() && wide@[j] == i as usize;
                assert(probes@[j] == i as u32);
            }
            if probes@.contains(i as u32) {
                let j = choose|j: int| 0 <= j < probes@.len() && probes@[j] == i as u32;
                assert(wide@[j] == i as usize);
            }
        }
    }
    let ghost g0 = c@;
    c.simplify();
    proof {
        assert forall|i: int| 0 <= i < circ.srcs().len() implies #[trigger] c@.srcs[i]
            == circ.srcs()[i] || c@.srcs[i] == VarSrc::Random by {
            assert(c@.srcs[i] == g0.srcs[i] || c@.srcs[i] == VarSrc::Random);
        }
    }
    let inputs = c.inputs();
    assert(is_probed_graph(circ.srcs(), probes@, g0));
    assert(is_sim_graph(circ.srcs(), probes@, c@));
    inputs
}

} // verus!
