//! Counts of the input shares that sets of probes need, by exhaustion and by sampling.
use crate::pd::combinatorics::{
    admissible, binomial, binomial_row, count_selections, lemma_rank_bound, lemma_rank_lex,
    lex_lt, power, rank, saturate, selections, weight_of, weight_sum, zero_counts,
    MWCombinations,
};
use crate::pd::gadget::{total, SimGadget};
use crate::pd::utils::{bit_is_set, is_set_bits, iter_set_bits};
use std::ops::Range;
use vstd::prelude::*;

verus! {

/// 2 to the power `n`.
pub open spec fn two_pow(n: nat) -> nat
    decreases n,
{
    if n == 0 {
        1
    } else {
        2 * two_pow((n - 1) as nat)
    }
}

/// The number that has the bits of `flags` set: bit `i` where `flags[i]` holds.
pub open spec fn mask_of(flags: Seq<bool>) -> nat
    decreases flags.len(),
{
    if flags.len() == 0 {
        0
    } else {
        mask_of(flags.drop_last()) + if flags.last() {
            two_pow((flags.len() - 1) as nat)
        } else {
            0
        }
    }
}

/// Whether `id` is the set of the `n` shares, at most, that `inputs` lists, as a bit mask: bit
/// `i` is set where `inputs` holds `i`.
pub open spec fn is_mask(n: nat, inputs: Seq<usize>, id: usize) -> bool {
    exists|flags: Seq<bool>|
        flags.len() == n && id == mask_of(flags) && forall|i: int|
            0 <= i < flags.len() ==> (#[trigger] flags[i] <==> inputs.contains(i as usize))
}

/// The physical probes of the probes that are chosen, in order.
pub open spec fn chosen(sel_map: Seq<usize>, probe_sel: Seq<bool>) -> Seq<usize>
    decreases probe_sel.len(),
{
    if probe_sel.len() == 0 {
        Seq::empty()
    } else if probe_sel.last() {
        chosen(sel_map, probe_sel.drop_last()).push(sel_map[probe_sel.len() - 1])
    } else {
        chosen(sel_map, probe_sel.drop_last())
    }
}

/// How many elements of the list hold.
pub open spec fn count_true(s: Seq<bool>) -> nat
    decreases s.len(),
{
    if s.len() == 0 {
        0
    } else {
        count_true(s.drop_last()) + if s.last() {
            1nat
        } else {
            0nat
        }
    }
}

/// The list with `i + 1`, for each `i`, as often as `maxp[i]` tells, after a 0: at place `k`
/// the least number of physical probes that `k` probes touch.
pub open spec fn min_pp_list(maxp: Seq<u32>) -> Seq<usize>
    decreases maxp.len(),
{
    if maxp.len() == 0 {
        seq![0usize]
    } else {
        min_pp_list(maxp.drop_last()) + Seq::new(
            maxp.last() as nat,
            |j: int| maxp.len() as usize,
        )
    }
}

/// The list with `i`, for each `i`, as often as `maxp[i]` tells: the physical probe of each
/// probe.
pub open spec fn sel_map(maxp: Seq<u32>) -> Seq<usize>
    decreases maxp.len(),
{
    if maxp.len() == 0 {
        Seq::empty()
    } else {
        sel_map(maxp.drop_last()) + Seq::new(
            maxp.last() as nat,
            |j: int| (maxp.len() - 1) as usize,
        )
    }
}

proof fn lemma_two_pow_positive(n: nat)
    ensures
        two_pow(n) > 0,
    decreases n,
{
    if n > 0 {
        lemma_two_pow_positive((n - 1) as nat);
    }
}

proof fn lemma_two_pow_monotone(a: nat, b: nat)
    requires
        a <= b,
    ensures
        two_pow(a) <= two_pow(b),
    decreases b,
{
    if a < b {
        lemma_two_pow_monotone(a, (b - 1) as nat);
    }
}

proof fn lemma_mask_bound(flags: Seq<bool>)
    ensures
        mask_of(flags) < two_pow(flags.len()),
    decreases flags.len(),
{
    if flags.len() > 0 {
        lemma_mask_bound(flags.drop_last());
    }
}

proof fn lemma_list_lengths(maxp: Seq<u32>)
    ensures
        min_pp_list(maxp).len() == total(maxp) + 1,
        sel_map(maxp).len() == total(maxp),
        forall|k: int| 0 <= k < sel_map(maxp).len() ==> sel_map(maxp)[k] < maxp.len(),
        forall|k: int| 0 <= k < min_pp_list(maxp).len() ==> min_pp_list(maxp)[k] <= maxp.len(),
    decreases maxp.len(),
{
    if maxp.len() > 0 {
        lemma_list_lengths(maxp.drop_last());
    }
}

proof fn lemma_count_true_set(s: Seq<bool>, i: int)
    requires
        0 <= i < s.len(),
        !s[i],
    ensures
        count_true(s.update(i, true)) == count_true(s) + 1,
    decreases s.len(),
{
    if i == s.len() - 1 {
        assert(s.update(i, true).drop_last() =~= s.drop_last());
    } else {
        assert(s.update(i, true).drop_last() =~= s.drop_last().update(i, true));
        lemma_count_true_set(s.drop_last(), i);
    }
}

proof fn lemma_count_true_all_false(s: Seq<bool>)
    requires
        forall|i: int| 0 <= i < s.len() ==> !s[i],
    ensures
        count_true(s) == 0,
    decreases s.len(),
{
    if s.len() > 0 {
        lemma_count_true_all_false(s.drop_last());
    }
}

proof fn lemma_count_true_flip(s: Seq<bool>, t: Seq<bool>)
    requires
        s.len() == t.len(),
        forall|i: int| 0 <= i < s.len() ==> t[i] == !s[i],
    ensures
        count_true(t) + count_true(s) == s.len(),
    decreases s.len(),
{
    if s.len() > 0 {
        lemma_count_true_flip(s.drop_last(), t.drop_last());
    }
}

/// `Rng::gen_range` on `rand::thread_rng()`, from 0: a number that is below `bound`.
#[verifier::external_body]
fn random_below(bound: usize) -> (r: usize)
    requires
        bound > 0,
    ensures
        r < bound,
{
    rand::Rng::gen_range(&mut rand::thread_rng(), 0, bound)
}

/// 2 to the power `n`.
fn pow2_usize(n: u32) -> (r: usize)
    requires
        two_pow(n as nat) <= usize::MAX,
    ensures
        r == two_pow(n as nat),
{
    let mut r: usize = 1;
    let mut i: u32 = 0;
    while i < n
        invariant
            i <= n,
            r == two_pow(i as nat),
            two_pow(n as nat) <= usize::MAX,
        decreases n - i,
    {
        proof {
            lemma_two_pow_monotone((i + 1) as nat, n as nat);
        }
        r = r * 2;
        i = i + 1;
    }
    r
}

/// A vector of `n` flags, none set.
fn no_flags(n: usize) -> (v: Vec<bool>)
    ensures
        v@.len() == n,
        forall|i: int| 0 <= i < n ==> !v@[i],
{
    let mut v: Vec<bool> = Vec::new();
    let mut i: usize = 0;
    while i < n
        invariant
            i <= n,
            v@.len() == i,
            forall|k: int| 0 <= k < i ==> !v@[k],
        decreases n - i,
    {
        v.push(false);
        i = i + 1;
    }
    v
}

/// The counts of one cell of the table: for a number of probes and a set of output shares,
/// how many sets of probes need each set of input shares.
#[derive(Debug, Clone, PartialEq, Eq)]
pub struct SampleRes {
    /// The number of probes.
    pub n_probes: usize,
    /// The set of output shares, as a bit mask.
    pub output_index: usize,
    /// For each set of input shares, as a bit mask, the number of sets of probes that need it.
    pub counts: Vec<u64>,
    /// Whether every set of probes was counted, each once; else sets were drawn at random.
    pub exhaustive: bool,
}

/// A gadget with what the counting of its sets of probes needs.
pub struct CntSim {
    gadget: SimGadget,
    max_nb_probes: u32,
    n_inputs: u32,
    n_outputs: u32,
    pp_sel_map: Vec<usize>,
    n_probes_n_min_pp: Vec<usize>,
}

impl CntSim {
    /// The gadget.
    pub closed spec fn gadget(&self) -> SimGadget {
        self.gadget
    }

    /// The number of probes in all.
    pub closed spec fn max_nb_probes(&self) -> nat {
        self.max_nb_probes as nat
    }

    /// The number of input shares.
    pub closed spec fn n_inputs(&self) -> nat {
        self.n_inputs as nat
    }

    /// The number of output shares.
    pub closed spec fn n_outputs(&self) -> nat {
        self.n_outputs as nat
    }

    /// The physical probe of each probe.
    pub closed spec fn pp_sel_map(&self) -> Seq<usize> {
        self.pp_sel_map@
    }

    /// For each number of probes, the least number of physical probes that they touch.
    pub closed spec fn n_probes_n_min_pp(&self) -> Seq<usize> {
        self.n_probes_n_min_pp@
    }

    /// Whether a gadget can be counted: it is well formed, each physical probe stands for a
    /// probe at least, an output share is a variable, and the numbers of probes and of sets of
    /// shares fit the machine.
    pub open spec fn countable(gadget: SimGadget) -> bool {
        &&& gadget.wf()
        &&& forall|i: int| 0 <= i < gadget.max_probes().len() ==> #[trigger] gadget.max_probes()[i] >= 1
        &&& total(gadget.max_probes()) < u32::MAX
        &&& total(gadget.max_probes()) < usize::MAX
        &&& gadget.circuit().n_input_ports * gadget.circuit().n_shares <= u32::MAX
        &&& gadget.circuit().n_output_ports * gadget.circuit().n_shares <= u32::MAX
        &&& gadget.output_vars().len() == gadget.circuit().n_output_ports
            * gadget.circuit().n_shares
        &&& two_pow((gadget.circuit().n_input_ports * gadget.circuit().n_shares) as nat)
            <= usize::MAX
        &&& two_pow((gadget.circuit().n_output_ports * gadget.circuit().n_shares) as nat)
            <= usize::MAX
        &&& gadget.circuit().n_output_ports * gadget.circuit().n_shares <= 64
    }

    /// The gadget can be counted, and the lists made from its physical probes are as they are
    /// defined.
    pub open spec fn wf(&self) -> bool {
        &&& Self::countable(self.gadget())
        &&& self.max_nb_probes() == total(self.gadget().max_probes())
        &&& self.n_inputs() == self.gadget().circuit().n_input_ports
            * self.gadget().circuit().n_shares
        &&& self.n_outputs() == self.gadget().circuit().n_output_ports
            * self.gadget().circuit().n_shares
        &&& self.pp_sel_map() == sel_map(self.gadget().max_probes())
        &&& self.n_probes_n_min_pp() == min_pp_list(self.gadget().max_probes())
    }

    /// The gadget with the lists that the counting needs.
    pub fn new(gadget: SimGadget) -> (r: Self)
        requires
            Self::countable(gadget),
        ensures
            r.wf(),
            r.gadget() == gadget,
    {
        let max_nb_probes = gadget.max_n_probes();
        let n_inputs = gadget.n_inputs() as u32;
        let n_outputs = gadget.n_outputs() as u32;
        let maxp = gadget.pp_maxp();
        let mut n_probes_n_min_pp: Vec<usize> = Vec::new();
        n_probes_n_min_pp.push(0);
        let mut pp_sel_map: Vec<usize> = Vec::new();
        let mut i: usize = 0;
        proof {
            assert(maxp@.subrange(0, 0) =~= Seq::<u32>::empty());
            assert(n_probes_n_min_pp@ =~= min_pp_list(maxp@.subrange(0, 0)));
            assert(pp_sel_map@ =~= sel_map(maxp@.subrange(0, 0)));
        }
        while i < maxp.len()
            invariant
                i <= maxp@.len(),
                n_probes_n_min_pp@ == min_pp_list(maxp@.subrange(0, i as int)),
                pp_sel_map@ == sel_map(maxp@.subrange(0, i as int)),
            decreases maxp@.len() - i,
        {
            let use_count = maxp[i];
            let ghost pre = maxp@.subrange(0, i as int);
            let ghost nxt = maxp@.subrange(0, i + 1);
            let ghost l0 = n_probes_n_min_pp@;
            let ghost s0 = pp_sel_map@;
            proof {
                assert(nxt.drop_last() =~= pre);
                assert(nxt.last() == use_count);
            }
            let mut j: u32 = 0;
            while j < use_count
                invariant
                    j <= use_count,
                    i < usize::MAX,
                    n_probes_n_min_pp@ == l0 + Seq::new(j as nat, |t: int| (i + 1) as usize),
                    pp_sel_map@ == s0 + Seq::new(j as nat, |t: int| i),
                decreases use_count - j,
            {
                n_probes_n_min_pp.push(i + 1);
                pp_sel_map.push(i);
                j = j + 1;
                proof {
                    assert(n_probes_n_min_pp@ =~= l0 + Seq::new(j as nat, |t: int| (i + 1) as usize));
                    assert(pp_sel_map@ =~= s0 + Seq::new(j as nat, |t: int| i));
                }
            }
            proof {
                assert(n_probes_n_min_pp@ =~= min_pp_list(nxt));
                assert(pp_sel_map@ =~= sel_map(nxt));
            }
            i = i + 1;
        }
        proof {
            assert(maxp@.subrange(0, maxp@.len() as int) =~= maxp@);
        }
        Self { gadget, max_nb_probes, n_inputs, n_outputs, pp_sel_map, n_probes_n_min_pp }
    }

    /// The number of physical probes.
    pub fn n_used_vars(&self) -> (n: usize)
        ensures
            n == self.gadget().max_probes().len(),
    {
        self.gadget.n_pp()
    }

    /// The number of numbers of probes: from none to all.
    pub fn n_nprobe_cases(&self) -> (n: usize)
        requires
            self.wf(),
        ensures
            n == self.max_nb_probes() + 1,
    {
        self.max_nb_probes as usize + 1
    }

    /// The number of sets of input shares.
    pub fn n_input_cases(&self) -> (n: usize)
        requires
            self.wf(),
        ensures
            n == two_pow(self.n_inputs()),
    {
        pow2_usize(self.n_inputs)
    }

    /// The number of sets of output shares.
    pub fn n_output_cases(&self) -> (n: usize)
        requires
            self.wf(),
        ensures
            n == two_pow(self.n_outputs()),
    {
        pow2_usize(self.n_outputs)
    }

    /// The set of the input shares `inputs` as a bit mask.
    pub fn inputs2id(&self, inputs: &[usize]) -> (id: usize)
        requires
            self.wf(),
            forall|k: int| 0 <= k < inputs@.len() ==> inputs@[k] < self.n_inputs(),
        ensures
            id < two_pow(self.n_inputs()),
            is_mask(self.n_inputs(), inputs@, id),
    {
        let n = self.n_inputs as usize;
        let mut flags = no_flags(n);
        let mut k: usize = 0;
        while k < inputs.len()
            invariant
                k <= inputs@.len(),
                flags@.len() == n,
                forall|j: int| 0 <= j < inputs@.len() ==> inputs@[j] < n,
                forall|i: int|
                    0 <= i < n ==> (#[trigger] flags@[i] <==> inputs@.subrange(0, k as int).contains(
                        i as usize,
                    )),
            decreases inputs@.len() - k,
        {
            flags[inputs[k]] = true;
            proof {
                let pre = inputs@.subrange(0, k as int);
                let nxt = inputs@.subrange(0, k + 1);
                assert(nxt =~= pre.push(inputs@[k as int]));
                assert forall|i: int| 0 <= i < n implies (#[trigger] flags@[i] <==> nxt.contains(
                    i as usize,
                )) by {
                    if pre.contains(i as usize) {
                        let t = choose|t: int| 0 <= t < pre.len() && pre[t] == i as usize;
                        assert(nxt[t] == i as usize);
                    }
                    if nxt.contains(i as usize) {
                        let t = choose|t: int| 0 <= t < nxt.len() && nxt[t] == i as usize;
                        if t < pre.len() {
                            assert(pre[t] == i as usize);
                        }
                    }
                    if i == inputs@[k as int] {
                        assert(nxt[k as int] == i as usize);
                    }
                }
            }
            k = k + 1;
        }
        assert(inputs@.subrange(0, inputs@.len() as int) =~= inputs@);
        let mut id: usize = 0;
        let mut bit: usize = 1;
        let mut i: usize = 0;
        assert(flags@.subrange(0, 0) =~= Seq::<bool>::empty());
        while i < n
            invariant
                i <= n,
                n == self.n_inputs(),
                flags@.len() == n,
                two_pow(n as nat) <= usize::MAX,
                id == mask_of(flags@.subrange(0, i as int)),
                bit == two_pow(i as nat),
            decreases n - i,
        {
            proof {
                let pre = flags@.subrange(0, i as int);
                let nxt = flags@.subrange(0, i + 1);
                assert(nxt.drop_last() =~= pre);
                lemma_mask_bound(pre);
                lemma_mask_bound(nxt);
                lemma_two_pow_monotone((i + 1) as nat, n as nat);
            }
            if flags[i] {
                id = id + bit;
            }
            bit = bit * 2;
            i = i + 1;
        }
        proof {
            assert(flags@.subrange(0, n as int) =~= flags@);
            lemma_mask_bound(flags@);
        }
        id
    }
}

/// Whether `l` lists the combinations of `size` elements that weigh `min_weight` at least,
/// each once, in lexicographic order.
pub open spec fn is_enumeration(w: Seq<u32>, size: nat, min_weight: u32, l: Seq<Seq<usize>>) -> bool {
    &&& forall|i: int, j: int| 0 <= i < j < l.len() ==> lex_lt(l[i], l[j])
    &&& forall|i: int| 0 <= i < l.len() ==> admissible(w, size, min_weight, #[trigger] l[i])
    &&& forall|d: Seq<usize>| #[trigger] admissible(w, size, min_weight, d) ==> l.contains(d)
}

/// The combinations of a list, each as the sequence of its elements.
pub open spec fn combos(v: Seq<Vec<usize>>) -> Seq<Seq<usize>> {
    Seq::new(v.len(), |i: int| v[i]@)
}

/// How many combinations of the list weigh `weight` exactly.
pub open spec fn count_weighing(w: Seq<u32>, l: Seq<Seq<usize>>, weight: int) -> nat
    decreases l.len(),
{
    if l.len() == 0 {
        0
    } else {
        count_weighing(w, l.drop_last(), weight) + if weight_sum(w, l.last()) == weight {
            1nat
        } else {
            0nat
        }
    }
}

/// The cost of counting the sets of `k` probes from the sets of variables of `k` elements
/// at most, above that for `k - 1`: the number of sets of `k` of the `n_used` variables.
pub open spec fn grow_cost(n_used: nat, k: nat) -> nat {
    if k <= n_used {
        binomial(n_used, k)
    } else {
        0
    }
}

proof fn lemma_lex_lt_transitive(a: Seq<usize>, b: Seq<usize>, c: Seq<usize>)
    requires
        lex_lt(a, b),
        lex_lt(b, c),
    ensures
        lex_lt(a, c),
{
    let p = choose|p: int|
        0 <= p < a.len() && a[p] < b[p] && forall|q: int| 0 <= q < p ==> a[q] == b[q];
    let r = choose|r: int|
        0 <= r < b.len() && b[r] < c[r] && forall|q: int| 0 <= q < r ==> b[q] == c[q];
    if p <= r {
        assert(a[p] < c[p]);
        assert(forall|q: int| 0 <= q < p ==> a[q] == c[q]);
    } else {
        assert(a[r] < c[r]);
        assert(forall|q: int| 0 <= q < r ==> a[q] == c[q]);
    }
}

proof fn lemma_bit_below(x: usize, b: nat, n: nat)
    requires
        bit_is_set(x, b),
        x < two_pow(n),
    ensures
        b < n,
    decreases n,
{
    let v = x as u64;
    let s = b as u64;
    assert((v >> s) & 1u64 == 1u64 ==> v != 0) by (bit_vector);
    if n == 0 {
    } else if b == 0 {
    } else {
        // the bit below, of half the number
        let h = (x / 2) as usize;
        let hv = h as u64;
        let s1 = (b - 1) as u64;
        assert(s < 64 && s >= 1 && (v >> s) & 1u64 == 1u64 ==> ((v / 2) >> ((s - 1) as u64))
            & 1u64 == 1u64) by (bit_vector);
        assert(hv == v / 2);
        assert(bit_is_set(h, (b - 1) as nat));
        lemma_bit_below(h, (b - 1) as nat, (n - 1) as nat);
    }
}

impl CntSim {
    /// A choice of `n_probes` of the probes, each choice as likely as any other: a flag for
    /// each probe.
    pub fn gen_sel(&self, n_probes: usize) -> (res: Vec<bool>)
        requires
            n_probes <= self.pp_sel_map().len(),
        ensures
            res@.len() == self.pp_sel_map().len(),
            count_true(res@) == n_probes,
        decreases n_probes,
    {
        let n = self.pp_sel_map.len();
        if n_probes > n / 2 {
            let mut res = self.gen_sel(n - n_probes);
            let ghost chosen = res@;
            let mut i: usize = 0;
            while i < n
                invariant
                    i <= n,
                    res@.len() == n,
                    chosen.len() == n,
                    forall|k: int| 0 <= k < i ==> res@[k] == !chosen[k],
                    forall|k: int| i <= k < n ==> res@[k] == chosen[k],
                decreases n - i,
            {
                res[i] = !res[i];
                i = i + 1;
            }
            proof {
                lemma_count_true_flip(chosen, res@);
            }
            res
        } else {
            let mut res = no_flags(n);
            proof {
                lemma_count_true_all_false(res@);
            }
            let mut j: usize = n - n_probes;
            while j < n
                invariant
                    n - n_probes <= j <= n,
                    res@.len() == n,
                    count_true(res@) == j - (n - n_probes),
                    forall|k: int| j <= k < n ==> !res@[k],
                decreases n - j,
            {
                let r = random_below(j + 1);
                proof {
                    if res@[r as int] {
                        lemma_count_true_set(res@, j as int);
                    } else {
                        lemma_count_true_set(res@, r as int);
                    }
                }
                if res[r] {
                    res[j] = true;
                } else {
                    res[r] = true;
                }
                j = j + 1;
            }
            res
        }
    }

    /// Whether `id` is the set of input shares, as a bit mask, that the output shares of the
    /// mask `output_id` and the physical probes `pp` need.
    pub open spec fn is_needed_mask(&self, output_id: usize, pp: Seq<usize>, id: usize) -> bool {
        exists|outputs: Seq<usize>, inputs: Seq<usize>|
            #![trigger self.gadget().needs(outputs, pp, inputs)]
            is_set_bits(output_id, outputs) && self.gadget().needs(
                outputs,
                pp,
                inputs,
            ) && is_mask(self.n_inputs(), inputs, id)
    }

    /// The set of input shares, as a bit mask, that the output shares of the mask `output_id`
    /// and the physical probes `pp` need.
    pub fn probe_set_pp(&self, output_id: usize, pp: &[usize]) -> (id: usize)
        requires
            self.wf(),
            output_id < two_pow(self.n_outputs()),
            forall|k: int| 0 <= k < pp@.len() ==> pp@[k] < self.gadget().max_probes().len(),
        ensures
            id < two_pow(self.n_inputs()),
            self.is_needed_mask(output_id, pp@, id),
    {
        let outputs = iter_set_bits(output_id);
        proof {
            assert forall|k: int| 0 <= k < outputs@.len() implies outputs@[k]
                < self.gadget().output_vars().len() by {
                lemma_bit_below(output_id, outputs@[k] as nat, self.n_outputs());
            }
        }
        let inputs = self.gadget.sim_probes(outputs.as_slice(), pp);
        let id = self.inputs2id(inputs.as_slice());
        assert(self.gadget().needs(outputs@, pp@, inputs@));
        id
    }

    /// The set of input shares, as a bit mask, that the output shares of the mask `output_id`
    /// and the probes chosen by `probe_sel` need.
    pub fn probe_set_pmask(&self, output_id: usize, probe_sel: &[bool]) -> (id: usize)
        requires
            self.wf(),
            output_id < two_pow(self.n_outputs()),
            probe_sel@.len() == self.pp_sel_map().len(),
        ensures
            id < two_pow(self.n_inputs()),
            self.is_needed_mask(output_id, chosen(self.pp_sel_map(), probe_sel@), id),
    {
        let mut pp: Vec<usize> = Vec::new();
        let mut i: usize = 0;
        proof {
            lemma_list_lengths(self.gadget().max_probes());
            assert(probe_sel@.subrange(0, 0) =~= Seq::<bool>::empty());
        }
        while i < probe_sel.len()
            invariant
                i <= probe_sel@.len(),
                probe_sel@.len() == self.pp_sel_map().len(),
                pp@ == chosen(self.pp_sel_map(), probe_sel@.subrange(0, i as int)),
                self.wf(),
                forall|k: int|
                    0 <= k < self.pp_sel_map().len() ==> self.pp_sel_map()[k]
                        < self.gadget().max_probes().len(),
                forall|k: int| 0 <= k < pp@.len() ==> pp@[k] < self.gadget().max_probes().len(),
            decreases probe_sel@.len() - i,
        {
            proof {
                assert(probe_sel@.subrange(0, i + 1).drop_last() =~= probe_sel@.subrange(
                    0,
                    i as int,
                ));
            }
            if probe_sel[i] {
                pp.push(self.pp_sel_map[i]);
            }
            i = i + 1;
        }
        assert(probe_sel@.subrange(0, probe_sel@.len() as int) =~= probe_sel@);
        self.probe_set_pp(output_id, pp.as_slice())
    }

    /// The sets of `k` physical probes that stand for `min_weight` probes at least, in
    /// lexicographic order.
    pub fn iter_probe_set_min_weight(&self, k: usize, min_weight: u32) -> (res: Vec<Vec<usize>>)
        requires
            self.wf(),
        ensures
            is_enumeration(self.gadget().max_probes(), k as nat, min_weight, combos(res@)),
    {
        let ghost w = self.gadget().max_probes();
        let mut it = MWCombinations::new(self.gadget.pp_maxp(), k, min_weight);
        let mut res: Vec<Vec<usize>> = Vec::new();
        loop
            invariant
                it.wf(),
                it.weights() == w,
                it.size() == k,
                it.min_weight() == min_weight,
                it.started() ==> res@.len() > 0 && it.current() == res@[res@.len() - 1]@,
                !it.started() ==> res@.len() == 0,
                forall|i: int, j: int|
                    0 <= i < j < res@.len() ==> lex_lt(combos(res@)[i], combos(res@)[j]),
                forall|i: int|
                    0 <= i < res@.len() ==> admissible(w, k as nat, min_weight, #[trigger] combos(res@)[i]),
                forall|d: Seq<usize>| #[trigger]
                    admissible(w, k as nat, min_weight, d) ==> combos(res@).contains(d) || it.pending(
                        d,
                    ),
            ensures
                forall|i: int, j: int|
                    0 <= i < j < res@.len() ==> lex_lt(combos(res@)[i], combos(res@)[j]),
                forall|i: int|
                    0 <= i < res@.len() ==> admissible(w, k as nat, min_weight, #[trigger] combos(res@)[i]),
                forall|d: Seq<usize>| #[trigger]
                    admissible(w, k as nat, min_weight, d) ==> combos(res@).contains(d),
            decreases
                if it.started() {
                    power((w.len() + 1) as nat, k as nat) - rank(it.current(), (w.len() + 1) as nat)
                } else {
                    (power((w.len() + 1) as nat, k as nat) + 1) as int
                },
        {
            let ghost before = combos(res@);
            let ghost it0 = it;
            match it.next() {
                None => {
                    break ;
                },
                Some(c) => {
                    res.push(c);
                    proof {
                        let base = (w.len() + 1) as nat;
                        assert(it0.pending(c@));
                        lemma_rank_bound(c@, base);
                        if it0.started() {
                            lemma_rank_lex(it0.current(), c@, base);
                        }
                        let after = combos(res@);
                        assert(after =~= before.push(c@));
                        assert forall|i: int, j: int| 0 <= i < j < after.len() implies lex_lt(
                            after[i],
                            after[j],
                        ) by {
                            if j < before.len() {
                                assert(after[i] == before[i] && after[j] == before[j]);
                            } else {
                                assert(after[i] == before[i]);
                                let last = before[before.len() - 1];
                                assert(lex_lt(last, c@));
                                if i < before.len() - 1 {
                                    lemma_lex_lt_transitive(before[i], last, c@);
                                }
                            }
                        }
                        assert forall|i: int| 0 <= i < after.len() implies admissible(
                            w,
                            k as nat,
                            min_weight,
                            #[trigger] after[i],
                        ) by {
                            if i < before.len() {
                                assert(after[i] == before[i]);
                            }
                        }
                        assert forall|d: Seq<usize>| #[trigger]
                            admissible(w, k as nat, min_weight, d) implies after.contains(d)
                            || it.pending(d) by {
                            if before.contains(d) {
                                let i = choose|i: int| 0 <= i < before.len() && before[i] == d;
                                assert(after[i] == d);
                            } else {
                                assert(it0.pending(d));
                                if d == c@ {
                                    assert(after[after.len() - 1] == d);
                                }
                            }
                        }
                    }
                },
            }
        }
        res
    }
}

/// How many combinations of the lists weigh `weight` exactly.
pub open spec fn sum_weighing(w: Seq<u32>, lists: Seq<Seq<Seq<usize>>>, weight: int) -> nat
    decreases lists.len(),
{
    if lists.len() == 0 {
        0
    } else {
        sum_weighing(w, lists.drop_last(), weight) + count_weighing(w, lists.last(), weight)
    }
}

/// Whether `lists` holds, for each number of physical probes from `lo` to `hi`, the sets of
/// so many physical probes that stand for `min_weight` probes at least.
pub open spec fn is_enumeration_range(
    w: Seq<u32>,
    lo: nat,
    hi: nat,
    min_weight: u32,
    lists: Seq<Seq<Seq<usize>>>,
) -> bool {
    &&& lists.len() == if lo <= hi {
        hi - lo + 1
    } else {
        0
    }
    &&& forall|t: int|
        0 <= t < lists.len() ==> is_enumeration(w, (lo + t) as nat, min_weight, #[trigger] lists[t])
}

/// The combinations of `size` elements that weigh `min_weight` at least, in lexicographic
/// order.
pub open spec fn enumeration(w: Seq<u32>, size: nat, min_weight: u32) -> Seq<Seq<usize>> {
    choose|l: Seq<Seq<usize>>| is_enumeration(w, size, min_weight, l)
}

/// For each number of physical probes from `lo` to `hi`, the sets of so many physical probes
/// that stand for `min_weight` probes at least.
pub open spec fn enumerations(w: Seq<u32>, lo: nat, hi: nat, min_weight: u32) -> Seq<
    Seq<Seq<usize>>,
> {
    Seq::new(
        if lo <= hi {
            (hi - lo + 1) as nat
        } else {
            0
        },
        |t: int| enumeration(w, (lo + t) as nat, min_weight),
    )
}

/// The cost of counting the sets of `k` probes from the sets of physical probes that can
/// hold them, above that of `k + 1` probes: the number of sets of physical probes that stand
/// for `k` probes exactly.
pub open spec fn shrink_cost(w: Seq<u32>, k: nat) -> nat {
    sum_weighing(
        w,
        enumerations(w, min_pp_list(w)[k as int] as nat, w.len(), k as u32),
        k as int,
    )
}

proof fn lemma_lex_lt_asymmetric(a: Seq<usize>, b: Seq<usize>)
    requires
        lex_lt(a, b),
    ensures
        !lex_lt(b, a),
        a != b,
{
    if lex_lt(b, a) {
        let p = choose|p: int|
            0 <= p < a.len() && a[p] < b[p] && forall|q: int| 0 <= q < p ==> a[q] == b[q];
        let r = choose|r: int|
            0 <= r < b.len() && b[r] < a[r] && forall|q: int| 0 <= q < r ==> b[q] == a[q];
        if p < r {
            assert(b[p] == a[p]);
        } else if r < p {
            assert(a[r] == b[r]);
        }
    }
}

/// Two lists in lexicographic order that hold the same combinations are the same.
proof fn lemma_sorted_lists_equal(a: Seq<Seq<usize>>, b: Seq<Seq<usize>>)
    requires
        forall|i: int, j: int| 0 <= i < j < a.len() ==> lex_lt(a[i], a[j]),
        forall|i: int, j: int| 0 <= i < j < b.len() ==> lex_lt(b[i], b[j]),
        forall|x: Seq<usize>| a.contains(x) <==> b.contains(x),
    ensures
        a == b,
    decreases a.len(),
{
    if a.len() == 0 {
        if b.len() > 0 {
            assert(b.contains(b[0]));
        }
        assert(a =~= b);
    } else {
        let x = a[a.len() - 1];
        assert(a.contains(x));
        if b.len() == 0 {
            assert(b.contains(x));
        }
        let y = b[b.len() - 1];
        assert(b.contains(y));
        assert(b.contains(x));
        assert(a.contains(y));
        let ia = choose|ia: int| 0 <= ia < a.len() && a[ia] == y;
        let ib = choose|ib: int| 0 <= ib < b.len() && b[ib] == x;
        if x != y {
            assert(lex_lt(y, x));
            assert(lex_lt(x, y));
            lemma_lex_lt_asymmetric(x, y);
        }
        let a2 = a.drop_last();
        let b2 = b.drop_last();
        assert forall|z: Seq<usize>| a2.contains(z) <==> b2.contains(z) by {
            if a2.contains(z) {
                let i = choose|i: int| 0 <= i < a2.len() && a2[i] == z;
                assert(a[i] == z);
                assert(lex_lt(z, x));
                lemma_lex_lt_asymmetric(z, x);
                assert(a.contains(z));
                assert(b.contains(z));
                let k = choose|k: int| 0 <= k < b.len() && b[k] == z;
                assert(b2[k] == z);
            }
            if b2.contains(z) {
                let i = choose|i: int| 0 <= i < b2.len() && b2[i] == z;
                assert(b[i] == z);
                assert(lex_lt(z, y));
                lemma_lex_lt_asymmetric(z, y);
                assert(b.contains(z));
                assert(a.contains(z));
                let k = choose|k: int| 0 <= k < a.len() && a[k] == z;
                assert(a2[k] == z);
            }
        }
        assert forall|i: int, j: int| 0 <= i < j < a2.len() implies lex_lt(a2[i], a2[j]) by {
            assert(a2[i] == a[i] && a2[j] == a[j]);
        }
        assert forall|i: int, j: int| 0 <= i < j < b2.len() implies lex_lt(b2[i], b2[j]) by {
            assert(b2[i] == b[i] && b2[j] == b[j]);
        }
        lemma_sorted_lists_equal(a2, b2);
        assert(a =~= a2.push(x));
        assert(b =~= b2.push(y));
    }
}

/// There is one list of the combinations that weigh enough.
proof fn lemma_enumeration_unique(w: Seq<u32>, size: nat, min_weight: u32, l: Seq<Seq<usize>>)
    requires
        is_enumeration(w, size, min_weight, l),
    ensures
        l == enumeration(w, size, min_weight),
{
    let e = enumeration(w, size, min_weight);
    assert(is_enumeration(w, size, min_weight, e));
    assert forall|x: Seq<usize>| l.contains(x) <==> e.contains(x) by {
        if l.contains(x) {
            let i = choose|i: int| 0 <= i < l.len() && l[i] == x;
            assert(admissible(w, size, min_weight, l[i]));
        }
        if e.contains(x) {
            let i = choose|i: int| 0 <= i < e.len() && e[i] == x;
            assert(admissible(w, size, min_weight, e[i]));
        }
    }
    lemma_sorted_lists_equal(l, e);
}

proof fn lemma_enumerations_unique(
    w: Seq<u32>,
    lo: nat,
    hi: nat,
    min_weight: u32,
    lists: Seq<Seq<Seq<usize>>>,
)
    requires
        is_enumeration_range(w, lo, hi, min_weight, lists),
    ensures
        lists == enumerations(w, lo, hi, min_weight),
{
    let e = enumerations(w, lo, hi, min_weight);
    assert forall|t: int| 0 <= t < lists.len() implies lists[t] == e[t] by {
        lemma_enumeration_unique(w, (lo + t) as nat, min_weight, lists[t]);
    }
    assert(lists =~= e);
}

/// Whether the sets of physical probes that stand for `j` probes exactly are few enough to
/// count at the cost of `suff_thresh`, for every number `j` of probes from `k` on.
pub open spec fn cheap_above(w: Seq<u32>, suff_thresh: u32, k: nat) -> bool {
    forall|j: nat| k <= j <= total(w) ==> #[trigger] shrink_cost(w, j) <= suff_thresh
}

/// The number of probes that each physical probe of a set stands for.
pub open spec fn use_counts(w: Seq<u32>, c: Seq<usize>) -> Seq<usize> {
    Seq::new(c.len(), |i: int| w[c[i] as int] as usize)
}

/// The number of sets of `i` probes on the sets of physical probes of a list: for each set of
/// physical probes, the sets of probes that touch each of them.
pub open spec fn selections_on(w: Seq<u32>, l: Seq<Seq<usize>>, i: nat) -> nat
    decreases l.len(),
{
    if l.len() == 0 {
        0
    } else {
        selections_on(w, l.drop_last(), i) + selections(use_counts(w, l.last()), i)
    }
}

/// The number of sets of `i` probes on the sets of physical probes of the lists.
pub open spec fn selections_in(w: Seq<u32>, lists: Seq<Seq<Seq<usize>>>, i: nat) -> nat
    decreases lists.len(),
{
    if lists.len() == 0 {
        0
    } else {
        selections_in(w, lists.drop_last(), i) + selections_on(w, lists.last(), i)
    }
}

/// The number of sets of `i` probes on those sets of physical probes of a list that need the
/// input shares `s`, where `masks` tells of each set of physical probes the input shares
/// that it needs.
pub open spec fn selections_for(
    w: Seq<u32>,
    l: Seq<Seq<usize>>,
    masks: Seq<usize>,
    s: int,
    i: nat,
) -> nat
    decreases l.len(),
{
    if l.len() == 0 {
        0
    } else {
        selections_for(w, l.drop_last(), masks.drop_last(), s, i) + if masks.last() == s {
            selections(use_counts(w, l.last()), i)
        } else {
            0
        }
    }
}

/// The number of sets of `i` probes on those sets of physical probes of the lists that need
/// the input shares `s`.
pub open spec fn selections_for_in(
    w: Seq<u32>,
    lists: Seq<Seq<Seq<usize>>>,
    masks: Seq<Seq<usize>>,
    s: int,
    i: nat,
) -> nat
    decreases lists.len(),
{
    if lists.len() == 0 {
        0
    } else {
        selections_for_in(w, lists.drop_last(), masks.drop_last(), s, i) + selections_for(
            w,
            lists.last(),
            masks.last(),
            s,
            i,
        )
    }
}

/// The sum of column `j` of a table.
pub open spec fn column_sum(e: Seq<Seq<nat>>, j: int) -> nat
    decreases e.len(),
{
    if e.len() == 0 {
        0
    } else {
        column_sum(e.drop_last(), j) + e.last()[j]
    }
}

/// The sum of the counts of a list.
pub open spec fn sum_counts(c: Seq<u64>) -> nat
    decreases c.len(),
{
    if c.len() == 0 {
        0
    } else {
        sum_counts(c.drop_last()) + c.last() as nat
    }
}

/// Whether the table `res` holds the counts of an exhaustion for the output shares
/// `output_id` and the numbers of probes from `start` on: row `s` holds, for each number of
/// probes, how many sets of probes need the input shares `s`, a count above the largest `u64`
/// given as that; the counts of a column are in all the number of sets of so many probes, on
/// the sets of physical probes that can hold them.
pub open spec fn is_exhaustion(
    sim: CntSim,
    output_id: usize,
    start: nat,
    len: nat,
    res: Seq<Seq<u64>>,
) -> bool {
    exists|exact: Seq<Seq<nat>>, masks: Seq<Seq<usize>>| #[trigger]
        is_exhaustion_of(sim, output_id, start, len, res, exact, masks)
}

/// The sets of physical probes that an exhaustion for the numbers of probes from `start` to
/// `start + len - 1` goes through: those of as many physical probes as `start` probes touch
/// at least and `start + len - 1` probes at most, that stand for `start` probes at least.
pub open spec fn exhausted(w: Seq<u32>, start: nat, len: nat) -> Seq<Seq<Seq<usize>>> {
    enumerations(
        w,
        min_pp_list(w)[start as int] as nat,
        if start + len - 1 <= w.len() {
            (start + len - 1) as nat
        } else {
            w.len()
        },
        start as u32,
    )
}

/// Whether `masks` tells of each set of physical probes of the lists the input shares that it
/// needs with the output shares `output_id`.
pub open spec fn are_needed_masks(
    sim: CntSim,
    output_id: usize,
    lists: Seq<Seq<Seq<usize>>>,
    masks: Seq<Seq<usize>>,
) -> bool {
    &&& masks.len() == lists.len()
    &&& forall|t: int| 0 <= t < lists.len() ==> (#[trigger] masks[t]).len() == lists[t].len()
    &&& forall|t: int, q: int|
        0 <= t < lists.len() && 0 <= q < lists[t].len() ==> sim.is_needed_mask(
            output_id,
            #[trigger] lists[t][q],
            masks[t][q],
        )
}

/// Whether `res` holds the counts `exact`, each held down to the largest `u64`: the count of
/// row `s` for a number of probes is the number of sets of so many probes on the sets of
/// physical probes that need the input shares `s`, as `masks` tells; so the counts of each
/// column are in all the number of sets of so many probes.
pub open spec fn is_exhaustion_of(
    sim: CntSim,
    output_id: usize,
    start: nat,
    len: nat,
    res: Seq<Seq<u64>>,
    exact: Seq<Seq<nat>>,
    masks: Seq<Seq<usize>>,
) -> bool {
    let w = sim.gadget().max_probes();
    let n_rows = two_pow(sim.n_inputs());
    let lists = exhausted(w, start, len);
    &&& start + len <= u32::MAX
    &&& exact.len() == n_rows
    &&& res.len() == n_rows
    &&& forall|s: int|
        0 <= s < n_rows ==> (#[trigger] res[s]).len() == len && exact[s].len() == len
    &&& forall|s: int, j: int|
        0 <= s < n_rows && 0 <= j < len ==> #[trigger] res[s][j] == saturate(exact[s][j])
    &&& are_needed_masks(sim, output_id, lists, masks)
    &&& forall|s: int, j: int|
        0 <= s < n_rows && 0 <= j < len ==> #[trigger] exact[s][j] == selections_for_in(
            w,
            lists,
            masks,
            s,
            (start + j) as nat,
        )
    &&& forall|j: int|
        0 <= j < len ==> #[trigger] column_sum(exact, j) == selections_in(
            w,
            lists,
            (start + j) as nat,
        )
}

proof fn lemma_column_counts(exact: Seq<Seq<nat>>, res: Seq<Seq<u64>>, j: int)
    requires
        exact.len() == res.len(),
        0 <= j,
        forall|s: int|
            0 <= s < exact.len() ==> j < (#[trigger] exact[s]).len() && j < res[s].len()
                && res[s][j] == exact[s][j],
    ensures
        sum_counts(Seq::new(res.len(), |s: int| res[s][j])) == column_sum(exact, j),
    decreases exact.len(),
{
    if exact.len() > 0 {
        let e0 = exact.drop_last();
        let r0 = res.drop_last();
        assert forall|s: int| 0 <= s < e0.len() implies j < (#[trigger] e0[s]).len() && j
            < r0[s].len() && r0[s][j] == e0[s][j] by {
            assert(e0[s] == exact[s]);
            assert(r0[s] == res[s]);
        }
        lemma_column_counts(e0, r0, j);
        let c = Seq::new(res.len(), |s: int| res[s][j]);
        assert(c.drop_last() =~= Seq::new(r0.len(), |s: int| r0[s][j]));
        assert(exact[exact.len() - 1] == exact.last());
    }
}

/// The counts of an exhaustion for one number of probes, where none is above the largest
/// `u64`, are in all the number of sets of so many probes.
pub proof fn lemma_exhaustion_total(
    sim: CntSim,
    output_id: usize,
    start: nat,
    len: nat,
    res: Seq<Seq<u64>>,
    j: int,
)
    requires
        is_exhaustion(sim, output_id, start, len, res),
        0 <= j < len,
        forall|s: int| 0 <= s < res.len() ==> (#[trigger] res[s])[j] < u64::MAX,
    ensures
        sum_counts(Seq::new(res.len(), |s: int| res[s][j])) == selections_in(
            sim.gadget().max_probes(),
            exhausted(sim.gadget().max_probes(), start, len),
            (start + j) as nat,
        ),
{
    let (exact, masks) = choose|exact: Seq<Seq<nat>>, masks: Seq<Seq<usize>>| #[trigger]
        is_exhaustion_of(sim, output_id, start, len, res, exact, masks);
    assert forall|s: int| 0 <= s < exact.len() implies j < (#[trigger] exact[s]).len() && j
        < res[s].len() && res[s][j] == exact[s][j] by {
        assert(res[s].len() == len);
        assert(res[s][j] == saturate(exact[s][j]));
    }
    lemma_column_counts(exact, res, j);
    assert(column_sum(exact, j) == selections_in(
        sim.gadget().max_probes(),
        exhausted(sim.gadget().max_probes(), start, len),
        (start + j) as nat,
    ));
}

proof fn lemma_column_sum_add(e: Seq<Seq<nat>>, s: int, j: int, d: nat, c: int)
    requires
        0 <= s < e.len(),
        0 <= j < e[s].len(),
        0 <= c < e[s].len(),
    ensures
        column_sum(e.update(s, e[s].update(j, e[s][j] + d)), c) == column_sum(e, c) + if c == j {
            d
        } else {
            0
        },
    decreases e.len(),
{
    let e2 = e.update(s, e[s].update(j, e[s][j] + d));
    if s == e.len() - 1 {
        assert(e2.drop_last() =~= e.drop_last());
        assert(e2.last() == e[s].update(j, e[s][j] + d));
        assert(e.last() == e[s]);
    } else {
        assert(e2.drop_last() =~= e.drop_last().update(s, e[s].update(j, e[s][j] + d)));
        assert(e.drop_last()[s] == e[s]);
        assert(e2.last() == e.last());
        lemma_column_sum_add(e.drop_last(), s, j, d, c);
    }
}

proof fn lemma_total_at_least(maxp: Seq<u32>)
    requires
        forall|i: int| 0 <= i < maxp.len() ==> #[trigger] maxp[i] >= 1,
    ensures
        maxp.len() <= total(maxp),
    decreases maxp.len(),
{
    if maxp.len() > 0 {
        assert(maxp.last() == maxp[maxp.len() - 1]);
        assert forall|i: int| 0 <= i < maxp.drop_last().len() implies #[trigger] maxp.drop_last()[i]
            >= 1 by {
            assert(maxp.drop_last()[i] == maxp[i]);
        }
        lemma_total_at_least(maxp.drop_last());
    }
}

proof fn lemma_column_sum_zero(e: Seq<Seq<nat>>, j: int)
    requires
        forall|s: int| 0 <= s < e.len() ==> (#[trigger] e[s])[j] == 0,
    ensures
        column_sum(e, j) == 0,
    decreases e.len(),
{
    if e.len() > 0 {
        assert(e.last() == e[e.len() - 1]);
        assert forall|s: int| 0 <= s < e.drop_last().len() implies (#[trigger] e.drop_last()[s])[j]
            == 0 by {
            assert(e.drop_last()[s] == e[s]);
        }
        lemma_column_sum_zero(e.drop_last(), j);
    }
}

impl CntSim {
    /// For each number of probes, the cost of counting its sets from the sets of variables,
    /// above that of the number before: the number of sets of so many of the physical probes.
    /// A cost above the largest `u64` is given as that.
    pub fn costs_n_probes_grow(&self) -> (r: Vec<u64>)
        requires
            self.wf(),
        ensures
            r@.len() == self.max_nb_probes() + 1,
            forall|k: int|
                0 <= k < r@.len() ==> #[trigger] r@[k] == saturate(
                    grow_cost(self.gadget().max_probes().len(), k as nat),
                ),
    {
        let n_used = self.n_used_vars();
        let n_cases = self.n_nprobe_cases();
        let row_len = if n_used < n_cases - 1 {
            n_used + 1
        } else {
            n_cases
        };
        let row = binomial_row(n_used, row_len);
        let mut r: Vec<u64> = Vec::new();
        let mut k: usize = 0;
        while k < n_cases
            invariant
                k <= n_cases,
                r@.len() == k,
                row@.len() == row_len,
                row_len == if n_used < n_cases - 1 {
                    n_used + 1
                } else {
                    n_cases as int
                },
                forall|j: int|
                    0 <= j < row_len ==> row@[j] == saturate(binomial(n_used as nat, j as nat)),
                forall|j: int|
                    0 <= j < k ==> #[trigger] r@[j] == saturate(grow_cost(n_used as nat, j as nat)),
            decreases n_cases - k,
        {
            if k < row_len {
                r.push(row[k]);
            } else {
                r.push(0);
            }
            k = k + 1;
        }
        r
    }

    /// The cost of counting the sets of `n_probes` probes from the sets of physical probes
    /// that can hold them, above that of the number after: the number of sets of physical
    /// probes that stand for `n_probes` probes exactly. A cost above the largest `u64` is
    /// given as that.
    pub fn cost_n_probes_shrink(&self, n_probes: usize) -> (r: u64)
        requires
            self.wf(),
            n_probes <= self.max_nb_probes(),
        ensures
            r == saturate(shrink_cost(self.gadget().max_probes(), n_probes as nat)),
    {
        let ghost w = self.gadget().max_probes();
        proof {
            lemma_list_lengths(w);
            lemma_total_at_least(w);
        }
        let n_used = self.n_used_vars();
        let lo = self.n_probes_n_min_pp[n_probes];
        let mut total: u64 = 0;
        let ghost mut lists: Seq<Seq<Seq<usize>>> = Seq::empty();
        let mut n_pp: usize = lo;
        while n_pp <= n_used
            invariant
                lo <= n_pp <= n_used + 1,
                n_used < usize::MAX,
                self.wf(),
                w == self.gadget().max_probes(),
                n_used == w.len(),
                n_probes <= self.max_nb_probes(),
                lists.len() == n_pp - lo,
                forall|t: int|
                    0 <= t < lists.len() ==> is_enumeration(
                        w,
                        (lo + t) as nat,
                        n_probes as u32,
                        #[trigger] lists[t],
                    ),
                total == saturate(sum_weighing(w, lists, n_probes as int)),
            decreases n_used + 1 - n_pp,
        {
            let pp_sets = self.iter_probe_set_min_weight(n_pp, n_probes as u32);
            let ghost l = combos(pp_sets@);
            let mut count: u64 = 0;
            let mut i: usize = 0;
            assert(l.subrange(0, 0) =~= Seq::<Seq<usize>>::empty());
            while i < pp_sets.len()
                invariant
                    i <= pp_sets@.len(),
                    self.wf(),
                    w == self.gadget().max_probes(),
                    l == combos(pp_sets@),
                    forall|t: int|
                        0 <= t < l.len() ==> admissible(
                            w,
                            n_pp as nat,
                            n_probes as u32,
                            #[trigger] l[t],
                        ),
                    count == saturate(count_weighing(w, l.subrange(0, i as int), n_probes as int)),
                decreases pp_sets@.len() - i,
            {
                proof {
                    assert(l.subrange(0, i + 1).drop_last() =~= l.subrange(0, i as int));
                    assert(l.subrange(0, i + 1).last() == l[i as int]);
                    assert(admissible(w, n_pp as nat, n_probes as u32, l[i as int]));
                    assert(l[i as int] == pp_sets@[i as int]@);
                }
                let weight = weight_of(self.gadget.pp_maxp(), pp_sets[i].as_slice());
                if weight == n_probes as u128 {
                    count = count.saturating_add(1);
                }
                i = i + 1;
            }
            proof {
                assert(l.subrange(0, l.len() as int) =~= l);
                let nxt = lists.push(l);
                assert(nxt.drop_last() =~= lists);
                assert forall|t: int| 0 <= t < nxt.len() implies is_enumeration(
                    w,
                    (lo + t) as nat,
                    n_probes as u32,
                    #[trigger] nxt[t],
                ) by {
                    if t < lists.len() {
                        assert(nxt[t] == lists[t]);
                    }
                }
                lists = nxt;
            }
            total = total.saturating_add(count);
            n_pp = n_pp + 1;
        }
        proof {
            lemma_enumerations_unique(w, lo as nat, n_used as nat, n_probes as u32, lists);
        }
        total
    }

    /// The counts of the sets of probes by the input shares that they need with the output
    /// shares `output_id`, for each number of probes of the range: row `s` holds the counts
    /// for the input shares of the mask `s`.
    pub fn probe_all_nprobes(&self, output_id: usize, n_probes: Range<usize>) -> (res: Vec<Vec<u64>>)
        requires
            self.wf(),
            output_id < two_pow(self.n_outputs()),
            n_probes.start <= n_probes.end,
            n_probes.end <= self.max_nb_probes() + 1,
        ensures
            res@.len() == two_pow(self.n_inputs()),
            forall|s: int|
                0 <= s < res@.len() ==> (#[trigger] res@[s])@.len() == n_probes.end - n_probes.start,
            n_probes.start < n_probes.end ==> is_exhaustion(
                *self,
                output_id,
                n_probes.start as nat,
                (n_probes.end - n_probes.start) as nat,
                Seq::new(res@.len(), |s: int| res@[s]@),
            ),
    {
        let ghost w = self.gadget().max_probes();
        let start = n_probes.start;
        let end = n_probes.end;
        let len = end - start;
        let n_rows = self.n_input_cases();
        let mut res: Vec<Vec<u64>> = Vec::new();
        let mut s: usize = 0;
        while s < n_rows
            invariant
                s <= n_rows,
                res@.len() == s,
                forall|t: int| 0 <= t < s ==> (#[trigger] res@[t])@.len() == len,
                forall|t: int, j: int| 0 <= t < s && 0 <= j < len ==> #[trigger] res@[t]@[j] == 0,
            decreases n_rows - s,
        {
            res.push(zero_counts(len));
            s = s + 1;
        }
        if start >= end {
            return res;
        }
        proof {
            lemma_list_lengths(w);
            lemma_total_at_least(w);
        }
        let n_used = self.n_used_vars();
        let n_pp_min = self.n_probes_n_min_pp[start];
        let n_pp_max = if end - 1 < n_used {
            end - 1
        } else {
            n_used
        };
        let ghost mut lists: Seq<Seq<Seq<usize>>> = Seq::empty();
        let ghost mut masks: Seq<Seq<usize>> = Seq::empty();
        let ghost mut exact: Seq<Seq<nat>> = Seq::new(n_rows as nat, |s: int| Seq::new(len as nat, |j: int| 0nat));
        proof {
            assert forall|j: int| 0 <= j < len implies #[trigger] column_sum(exact, j) == 0 by {
                lemma_column_sum_zero(exact, j);
            }
        }
        let mut n_pp: usize = n_pp_min;
        while n_pp <= n_pp_max
            invariant
                n_pp_min <= n_pp,
                n_pp <= n_pp_max + 1 || n_pp_min > n_pp_max,
                n_pp_min > n_pp_max ==> n_pp == n_pp_min,
                n_pp_max <= n_used,
                n_used < usize::MAX,
                self.wf(),
                output_id < two_pow(self.n_outputs()),
                w == self.gadget().max_probes(),
                n_used == w.len(),
                start < end,
                end <= self.max_nb_probes() + 1,
                len == end - start,
                n_probes.start == start,
                n_probes.end == end,
                n_rows == two_pow(self.n_inputs()),
                lists.len() == n_pp - n_pp_min,
                forall|t: int|
                    0 <= t < lists.len() ==> is_enumeration(
                        w,
                        (n_pp_min + t) as nat,
                        start as u32,
                        #[trigger] lists[t],
                    ),
                exact.len() == n_rows,
                res@.len() == n_rows,
                forall|s: int|
                    0 <= s < n_rows ==> (#[trigger] res@[s])@.len() == len && exact[s].len() == len,
                forall|s: int, j: int|
                    0 <= s < n_rows && 0 <= j < len ==> #[trigger] res@[s]@[j] == saturate(
                        exact[s][j],
                    ),
                forall|j: int|
                    0 <= j < len ==> #[trigger] column_sum(exact, j) == selections_in(
                        w,
                        lists,
                        (start + j) as nat,
                    ),
                are_needed_masks(*self, output_id, lists, masks),
                forall|s: int, j: int|
                    0 <= s < n_rows && 0 <= j < len ==> #[trigger] exact[s][j]
                        == selections_for_in(w, lists, masks, s, (start + j) as nat),
            decreases n_pp_max + 1 - n_pp,
        {
            let pp_sets = self.iter_probe_set_min_weight(n_pp, start as u32);
            let ghost l = combos(pp_sets@);
            let ghost exact0 = exact;
            let ghost mut m: Seq<usize> = Seq::empty();
            let mut i: usize = 0;
            assert forall|s: int| 0 <= s < n_rows implies (#[trigger] exact0[s]).len() == len by {
                assert(res@[s]@.len() == len);
            }
            assert(l.subrange(0, 0) =~= Seq::<Seq<usize>>::empty());
            while i < pp_sets.len()
                invariant
                    i <= pp_sets@.len(),
                    self.wf(),
                    output_id < two_pow(self.n_outputs()),
                    w == self.gadget().max_probes(),
                    start < end,
                    len == end - start,
                    n_probes.start == start,
                    n_probes.end == end,
                    n_rows == two_pow(self.n_inputs()),
                    l == combos(pp_sets@),
                    forall|t: int|
                        0 <= t < l.len() ==> admissible(w, n_pp as nat, start as u32, #[trigger] l[t]),
                    exact.len() == n_rows,
                    exact0.len() == n_rows,
                    res@.len() == n_rows,
                    forall|s: int|
                        0 <= s < n_rows ==> (#[trigger] res@[s])@.len() == len && exact[s].len()
                            == len,
                    forall|s: int, j: int|
                        0 <= s < n_rows && 0 <= j < len ==> #[trigger] res@[s]@[j] == saturate(
                            exact[s][j],
                        ),
                    forall|j: int|
                        0 <= j < len ==> #[trigger] column_sum(exact, j) == column_sum(exact0, j)
                            + selections_on(w, l.subrange(0, i as int), (start + j) as nat),
                    m.len() == i,
                    forall|q: int|
                        0 <= q < i ==> self.is_needed_mask(output_id, l[q], #[trigger] m[q]),
                    forall|s: int| 0 <= s < n_rows ==> (#[trigger] exact0[s]).len() == len,
                    forall|s: int, j: int|
                        0 <= s < n_rows && 0 <= j < len ==> #[trigger] exact[s][j] == exact0[s][j]
                            + selections_for(w, l.subrange(0, i as int), m, s, (start + j) as nat),
                decreases pp_sets@.len() - i,
            {
                let pp_set = &pp_sets[i];
                proof {
                    assert(l.subrange(0, i + 1).drop_last() =~= l.subrange(0, i as int));
                    assert(l.subrange(0, i + 1).last() == l[i as int]);
                    assert(admissible(w, n_pp as nat, start as u32, l[i as int]));
                    assert(l[i as int] == pp_set@);
                }
                let input_offset = self.probe_set_pp(output_id, pp_set.as_slice());
                let maxp = self.gadget.pp_maxp();
                let mut ucs: Vec<usize> = Vec::new();
                let mut t: usize = 0;
                while t < pp_set.len()
                    invariant
                        t <= pp_set@.len(),
                        maxp@ == w,
                        ucs@.len() == t,
                        forall|q: int| 0 <= q < pp_set@.len() ==> pp_set@[q] < w.len(),
                        forall|q: int| 0 <= q < t ==> ucs@[q] == w[pp_set@[q] as int] as usize,
                    decreases pp_set@.len() - t,
                {
                    ucs.push(maxp[pp_set[t]] as usize);
                    t = t + 1;
                }
                assert(ucs@ =~= use_counts(w, pp_set@));
                let nb_sels = count_selections(start..end, ucs.as_slice());
                let ghost exact1 = exact;
                let mut j: usize = 0;
                while j < len
                    invariant
                        j <= len,
                        input_offset < n_rows,
                        len == end - start,
                        exact.len() == n_rows,
                        exact1.len() == n_rows,
                        res@.len() == n_rows,
                        nb_sels@.len() == len,
                        forall|q: int|
                            0 <= q < len ==> nb_sels@[q] == saturate(
                                selections(ucs@, (start + q) as nat),
                            ),
                        forall|s: int|
                            0 <= s < n_rows ==> (#[trigger] res@[s])@.len() == len
                                && exact[s].len() == len && exact1[s].len() == len,
                        forall|s: int, q: int|
                            0 <= s < n_rows && 0 <= q < len ==> #[trigger] res@[s]@[q] == saturate(
                                exact[s][q],
                            ),
                        forall|q: int|
                            0 <= q < len ==> #[trigger] column_sum(exact, q) == column_sum(exact1, q)
                                + if q < j {
                                selections(ucs@, (start + q) as nat)
                            } else {
                                0
                            },
                        forall|s: int, q: int|
                            0 <= s < n_rows && 0 <= q < len ==> #[trigger] exact[s][q]
                                == exact1[s][q] + if s == input_offset && q < j {
                                selections(ucs@, (start + q) as nat)
                            } else {
                                0
                            },
                    decreases len - j,
                {
                    let ghost d = selections(ucs@, (start + j) as nat);
                    let ghost e0 = exact;
                    let ghost r0 = res@;
                    assert(r0[input_offset as int]@[j as int] == saturate(
                        e0[input_offset as int][j as int],
                    ));
                    let v = res[input_offset][j].saturating_add(nb_sels[j]);
                    res[input_offset][j] = v;
                    proof {
                        exact = e0.update(
                            input_offset as int,
                            e0[input_offset as int].update(
                                j as int,
                                e0[input_offset as int][j as int] + d,
                            ),
                        );
                        assert forall|s: int| 0 <= s < n_rows implies (#[trigger] res@[s])@.len()
                            == len && exact[s].len() == len && exact1[s].len() == len by {
                            assert(r0[s]@.len() == len);
                        }
                        assert forall|s: int, q: int|
                            0 <= s < n_rows && 0 <= q < len implies #[trigger] res@[s]@[q]
                            == saturate(exact[s][q]) by {
                            assert(r0[s]@[q] == saturate(e0[s][q]));
                        }
                        assert forall|q: int| 0 <= q < len implies #[trigger] column_sum(exact, q)
                            == column_sum(exact1, q) + if q < j + 1 {
                            selections(ucs@, (start + q) as nat)
                        } else {
                            0
                        } by {
                            lemma_column_sum_add(e0, input_offset as int, j as int, d, q);
                        }
                    }
                    j = j + 1;
                }
                proof {
                    assert forall|s: int| 0 <= s < n_rows implies (#[trigger] res@[s])@.len() == len
                        && exact[s].len() == len by {}
                    let m0 = m;
                    m = m0.push(input_offset);
                    assert(m.drop_last() =~= m0);
                    assert forall|q: int| 0 <= q < i + 1 implies self.is_needed_mask(
                        output_id,
                        l[q],
                        #[trigger] m[q],
                    ) by {
                        if q < i {
                            assert(m[q] == m0[q]);
                        }
                    }
                    assert forall|s: int, j: int|
                        0 <= s < n_rows && 0 <= j < len implies #[trigger] exact[s][j]
                        == exact0[s][j] + selections_for(
                        w,
                        l.subrange(0, i + 1),
                        m,
                        s,
                        (start + j) as nat,
                    ) by {
                        assert(exact1[s][j] == exact0[s][j] + selections_for(
                            w,
                            l.subrange(0, i as int),
                            m0,
                            s,
                            (start + j) as nat,
                        ));
                    }
                }
                i = i + 1;
            }
            proof {
                assert(l.subrange(0, l.len() as int) =~= l);
                let nxt = lists.push(l);
                assert(nxt.drop_last() =~= lists);
                let masks0 = masks;
                masks = masks0.push(m);
                assert(masks.drop_last() =~= masks0);
                assert forall|t: int| 0 <= t < nxt.len() implies (#[trigger] masks[t]).len()
                    == nxt[t].len() by {
                    if t < lists.len() {
                        assert(masks[t] == masks0[t]);
                    }
                }
                assert forall|t: int, q: int|
                    0 <= t < nxt.len() && 0 <= q < nxt[t].len() implies self.is_needed_mask(
                    output_id,
                    #[trigger] nxt[t][q],
                    masks[t][q],
                ) by {
                    if t < lists.len() {
                        assert(masks[t] == masks0[t]);
                        assert(nxt[t] == lists[t]);
                    }
                }
                assert forall|s: int, j: int|
                    0 <= s < n_rows && 0 <= j < len implies #[trigger] exact[s][j]
                    == selections_for_in(w, nxt, masks, s, (start + j) as nat) by {
                    assert(exact0[s][j] == selections_for_in(
                        w,
                        lists,
                        masks0,
                        s,
                        (start + j) as nat,
                    ));
                }
                assert forall|t: int| 0 <= t < nxt.len() implies is_enumeration(
                    w,
                    (n_pp_min + t) as nat,
                    start as u32,
                    #[trigger] nxt[t],
                ) by {
                    if t < lists.len() {
                        assert(nxt[t] == lists[t]);
                    }
                }
                lists = nxt;
            }
            n_pp = n_pp + 1;
        }
        proof {
            let view = Seq::new(res@.len(), |s: int| res@[s]@);
            lemma_enumerations_unique(
                w,
                n_pp_min as nat,
                n_pp_max as nat,
                start as u32,
                lists,
            );
            assert(lists == exhausted(w, start as nat, len as nat));
            assert(is_exhaustion_of(
                *self,
                output_id,
                start as nat,
                len as nat,
                view,
                exact,
                masks,
            ));
        }
        res
    }
}

proof fn lemma_sum_counts_add(c: Seq<u64>, i: int)
    requires
        0 <= i < c.len(),
        c[i] < u64::MAX,
    ensures
        sum_counts(c.update(i, (c[i] + 1) as u64)) == sum_counts(c) + 1,
        c[i] <= sum_counts(c),
    decreases c.len(),
{
    if i == c.len() - 1 {
        assert(c.update(i, (c[i] + 1) as u64).drop_last() =~= c.drop_last());
    } else {
        assert(c.update(i, (c[i] + 1) as u64).drop_last() =~= c.drop_last().update(
            i,
            (c[i] + 1) as u64,
        ));
        lemma_sum_counts_add(c.drop_last(), i);
    }
}

proof fn lemma_sum_counts_bound(c: Seq<u64>, i: int)
    requires
        0 <= i < c.len(),
    ensures
        c[i] <= sum_counts(c),
    decreases c.len(),
{
    if i < c.len() - 1 {
        lemma_sum_counts_bound(c.drop_last(), i);
    }
}

proof fn lemma_sum_counts_zero(c: Seq<u64>)
    requires
        forall|i: int| 0 <= i < c.len() ==> c[i] == 0,
    ensures
        sum_counts(c) == 0,
    decreases c.len(),
{
    if c.len() > 0 {
        lemma_sum_counts_zero(c.drop_last());
    }
}

/// The larger of two numbers.
pub open spec fn max_of(a: int, b: int) -> int {
    if a >= b {
        a
    } else {
        b
    }
}

/// The smaller of two numbers.
pub open spec fn min_of(a: int, b: int) -> int {
    if a <= b {
        a
    } else {
        b
    }
}

/// Whether `counts` is a column of the counts of an exhaustion for the output shares
/// `output_id`: that of `k` probes.
pub open spec fn is_exhaustive_cell(sim: CntSim, output_id: usize, k: nat, counts: Seq<u64>) -> bool {
    exists|start: nat, len: nat, table: Seq<Seq<u64>>|
        #![trigger is_exhaustion(sim, output_id, start, len, table)]
        is_exhaustion(sim, output_id, start, len, table) && start <= k < start + len
            && counts.len() == two_pow(sim.n_inputs()) && forall|s: int|
            0 <= s < counts.len() ==> counts[s] == table[s][k - start]
}

/// How many elements of the list are `s`.
pub open spec fn count_of(masks: Seq<usize>, s: int) -> nat
    decreases masks.len(),
{
    if masks.len() == 0 {
        0
    } else {
        count_of(masks.drop_last(), s) + if masks.last() == s {
            1nat
        } else {
            0nat
        }
    }
}

/// Whether `sel` chooses `n_probes` probes that need the input shares `mask` with the output
/// shares `output_id`.
pub open spec fn is_draw(
    sim: CntSim,
    output_id: usize,
    n_probes: nat,
    sel: Seq<bool>,
    mask: usize,
) -> bool {
    &&& sel.len() == sim.pp_sel_map().len()
    &&& count_true(sel) == n_probes
    &&& sim.is_needed_mask(output_id, chosen(sim.pp_sel_map(), sel), mask)
}

/// Whether `counts` tells of the sets of probes `draws`, for each set of input shares, how
/// many of them need it, as `masks` tells.
pub open spec fn is_sampling_of(
    sim: CntSim,
    output_id: usize,
    n_probes: nat,
    counts: Seq<u64>,
    draws: Seq<Seq<bool>>,
    masks: Seq<usize>,
) -> bool {
    &&& masks.len() == draws.len()
    &&& forall|q: int|
        0 <= q < draws.len() ==> is_draw(sim, output_id, n_probes, #[trigger] draws[q], masks[q])
    &&& forall|s: int| 0 <= s < counts.len() ==> #[trigger] counts[s] == count_of(masks, s)
}

/// Whether `counts` tells of `n` sets of `n_probes` probes, for each set of input shares, how
/// many of them need it with the output shares `output_id`.
pub open spec fn is_sampling(
    sim: CntSim,
    output_id: usize,
    n_probes: nat,
    counts: Seq<u64>,
    n: nat,
) -> bool {
    exists|draws: Seq<Seq<bool>>, masks: Seq<usize>|
        draws.len() == n && #[trigger] is_sampling_of(
            sim,
            output_id,
            n_probes,
            counts,
            draws,
            masks,
        )
}

impl CntSim {
    /// Counts, for sets of `n_probes` probes drawn at random, the input shares that they
    /// need with the output shares `output_id`. As many sets are drawn as `suff_thresh`
    /// tells, then as many again, and so on up to the smaller of `n_sets` and `n_s_max`, until
    /// `suff_thresh` of them need all input shares. Gives the counts and the number of sets
    /// drawn.
    pub fn probe_samples(
        &self,
        n_s_max: u32,
        suff_thresh: u32,
        n_sets: u64,
        output_id: usize,
        n_probes: usize,
    ) -> (r: (Vec<u64>, u64))
        requires
            self.wf(),
            output_id < two_pow(self.n_outputs()),
            n_probes <= self.max_nb_probes(),
        ensures
            r.0@.len() == two_pow(self.n_inputs()),
            is_sampling(*self, output_id, n_probes as nat, r.0@, r.1 as nat),
            sum_counts(r.0@) == r.1,
            suff_thresh <= r.1 <= max_of(suff_thresh as int, min_of(n_sets as int, n_s_max as int)),
            r.0@[r.0@.len() - 1] >= suff_thresh || r.1 >= min_of(n_sets as int, n_s_max as int),
    {
        proof {
            lemma_list_lengths(self.gadget().max_probes());
            lemma_two_pow_positive(self.n_inputs());
        }
        let n_rows = self.n_input_cases();
        let mut res = zero_counts(n_rows);
        proof {
            lemma_sum_counts_zero(res@);
        }
        let mut n_probings: u64 = 0;
        let end: u64 = if n_sets < n_s_max as u64 {
            n_sets
        } else {
            n_s_max as u64
        };
        let top: u64 = if end < suff_thresh as u64 {
            suff_thresh as u64
        } else {
            end
        };
        let mut start: u64 = 0;
        let mut stop: u64 = suff_thresh as u64;
        let ghost mut draws: Seq<Seq<bool>> = Seq::empty();
        let ghost mut masks: Seq<usize> = Seq::empty();
        while start < stop
            invariant_except_break
                n_probings == start,
            invariant
                draws.len() == n_probings,
                is_sampling_of(*self, output_id, n_probes as nat, res@, draws, masks),
                self.wf(),
                output_id < two_pow(self.n_outputs()),
                n_probes <= self.pp_sel_map().len(),
                n_rows == two_pow(self.n_inputs()),
                n_rows > 0,
                res@.len() == n_rows,
                sum_counts(res@) == n_probings,
                start <= top,
                stop <= top,
                top <= u32::MAX,
                end <= top,
                suff_thresh <= top,
                start == 0 ==> stop == suff_thresh,
                start > 0 ==> start >= suff_thresh,
                start > 0 ==> stop <= 2 * start && (stop == end || stop == 2 * start),
            ensures
                draws.len() == n_probings,
                is_sampling_of(*self, output_id, n_probes as nat, res@, draws, masks),
                sum_counts(res@) == n_probings,
                res@.len() == n_rows,
                suff_thresh <= n_probings <= top,
                res@[n_rows - 1] >= suff_thresh || n_probings >= end,
            decreases top - start,
        {
            let mut i: u64 = start;
            while i < stop
                invariant
                    start <= i <= stop,
                    stop <= top,
                    top <= u32::MAX,
                    self.wf(),
                    output_id < two_pow(self.n_outputs()),
                    n_probes <= self.pp_sel_map().len(),
                    n_rows == two_pow(self.n_inputs()),
                    res@.len() == n_rows,
                    sum_counts(res@) == i,
                    draws.len() == i,
                    is_sampling_of(*self, output_id, n_probes as nat, res@, draws, masks),
                decreases stop - i,
            {
                let probe_sel = self.gen_sel(n_probes);
                let input_offset = self.probe_set_pmask(output_id, probe_sel.as_slice());
                proof {
                    lemma_sum_counts_bound(res@, input_offset as int);
                    lemma_sum_counts_add(res@, input_offset as int);
                }
                let ghost before = res@;
                res[input_offset] = res[input_offset] + 1;
                proof {
                    let draws0 = draws;
                    let masks0 = masks;
                    draws = draws0.push(probe_sel@);
                    masks = masks0.push(input_offset);
                    assert(masks.drop_last() =~= masks0);
                    assert forall|q: int| 0 <= q < draws.len() implies is_draw(
                        *self,
                        output_id,
                        n_probes as nat,
                        #[trigger] draws[q],
                        masks[q],
                    ) by {
                        if q < draws0.len() {
                            assert(draws[q] == draws0[q]);
                            assert(masks[q] == masks0[q]);
                        }
                    }
                    assert forall|s: int| 0 <= s < res@.len() implies #[trigger] res@[s]
                        == count_of(masks, s) by {
                        assert(before[s] == count_of(masks0, s));
                    }
                }
                i = i + 1;
            }
            n_probings = stop;
            if res[n_rows - 1] >= suff_thresh as u64 {
                break ;
            }
            start = stop;
            stop = if 2 * stop < end {
                2 * stop
            } else {
                end
            };
        }
        (res, n_probings)
    }

    /// Counts by sampling, as `probe_samples` does. Gives no counts where as many sets were
    /// drawn as `n_sets` tells: there counting all sets costs no more. Where fewer were drawn
    /// than `n_s_max`, the counts are those of a second sampling. Gives the number of sets
    /// drawn in all as well.
    pub fn probe_auto_samples_inner(
        &self,
        n_s_max: u32,
        suff_thresh: u32,
        n_sets: u64,
        output_id: usize,
        n_probes: usize,
    ) -> (r: (Option<SampleRes>, u64))
        requires
            self.wf(),
            output_id < two_pow(self.n_outputs()),
            n_probes <= self.max_nb_probes(),
        ensures
            match r.0 {
                Some(sr) => {
                    &&& sr.n_probes == n_probes
                    &&& sr.output_index == output_id
                    &&& !sr.exhaustive
                    &&& sr.counts@.len() == two_pow(self.n_inputs())
                    &&& is_sampling(
                        *self,
                        output_id,
                        n_probes as nat,
                        sr.counts@,
                        sum_counts(sr.counts@),
                    )
                    &&& suff_thresh <= sum_counts(sr.counts@) <= max_of(
                        suff_thresh as int,
                        min_of(n_sets as int, n_s_max as int),
                    )
                    &&& r.1 == sum_counts(sr.counts@) || suff_thresh + sum_counts(sr.counts@)
                        <= r.1 <= max_of(suff_thresh as int, min_of(n_sets as int, n_s_max as int))
                        + sum_counts(sr.counts@)
                },
                None => r.1 == n_sets && suff_thresh <= n_sets <= max_of(
                    suff_thresh as int,
                    n_s_max as int,
                ),
            },
    {
        let (counts, cost1) = self.probe_samples(n_s_max, suff_thresh, n_sets, output_id, n_probes);
        let tot_samples = cost1;
        if tot_samples == n_sets {
            (None, cost1)
        } else if tot_samples == n_s_max as u64 {
            (Some(SampleRes { n_probes, output_index: output_id, counts, exhaustive: false }), cost1)
        } else {
            let (counts, cost2) = self.probe_samples(
                n_s_max,
                suff_thresh,
                n_sets,
                output_id,
                n_probes,
            );
            (
                Some(SampleRes { n_probes, output_index: output_id, counts, exhaustive: false }),
                cost1 + cost2,
            )
        }
    }

    /// The cells of column `j` of a table of counts, as the counts of `n_probes` probes.
    fn column_cell(
        &self,
        table: &Vec<Vec<u64>>,
        j: usize,
        n_probes: usize,
        output_id: usize,
        Ghost(start): Ghost<nat>,
        Ghost(len): Ghost<nat>,
    ) -> (sr: SampleRes)
        requires
            j < len,
            n_probes == start + j,
            is_exhaustion(
                *self,
                output_id,
                start,
                len,
                Seq::new(table@.len(), |s: int| table@[s]@),
            ),
            table@.len() == two_pow(self.n_inputs()),
            forall|s: int| 0 <= s < table@.len() ==> (#[trigger] table@[s])@.len() == len,
        ensures
            sr.n_probes == n_probes,
            sr.output_index == output_id,
            sr.exhaustive,
            is_exhaustive_cell(*self, output_id, n_probes as nat, sr.counts@),
    {
        let mut counts: Vec<u64> = Vec::new();
        let mut s: usize = 0;
        while s < table.len()
            invariant
                s <= table@.len(),
                j < len,
                counts@.len() == s,
                forall|t: int| 0 <= t < table@.len() ==> (#[trigger] table@[t])@.len() == len,
                forall|t: int| 0 <= t < s ==> counts@[t] == table@[t]@[j as int],
            decreases table@.len() - s,
        {
            counts.push(table[s][j]);
            s = s + 1;
        }
        proof {
            let view = Seq::new(table@.len(), |s: int| table@[s]@);
            assert(is_exhaustion(*self, output_id, start, len, view));
            assert forall|s: int| 0 <= s < two_pow(self.n_inputs()) implies counts@[s]
                == view[s][n_probes - start] by {}
        }
        SampleRes { n_probes, output_index: output_id, counts, exhaustive: true }
    }
}

/// Whether `sr` is the cell of `k` probes and the output shares `output_id`: counts for each
/// set of input shares, those of an exhaustion, or those of as many sets drawn at random as
/// `suff_thresh` at least and `n_s_max` at most.
pub open spec fn is_cell(
    sim: CntSim,
    output_id: usize,
    n_s_max: u32,
    suff_thresh: u32,
    k: nat,
    sr: SampleRes,
) -> bool {
    &&& sr.n_probes == k
    &&& sr.output_index == output_id
    &&& sr.counts@.len() == two_pow(sim.n_inputs())
    &&& sr.exhaustive ==> is_exhaustive_cell(sim, output_id, k, sr.counts@)
    &&& !sr.exhaustive ==> suff_thresh <= sum_counts(sr.counts@) <= n_s_max && is_sampling(
        sim,
        output_id,
        k,
        sr.counts@,
        sum_counts(sr.counts@),
    )
}

/// Whether the cells below `a` and from `b` on are counted by exhaustion, and no other.
pub open spec fn is_partition(cells: Seq<SampleRes>, a: int, b: int) -> bool {
    0 <= a <= b <= cells.len() && forall|k: int|
        0 <= k < cells.len() ==> ((#[trigger] cells[k]).exhaustive <==> k < a || k >= b)
}

/// Whether the sets of every number of probes up to `k` are few enough to count at the cost
/// of `suff_thresh` each.
pub open spec fn cheap_below(n_used: nat, suff_thresh: u32, k: nat) -> bool {
    forall|j: nat| j <= k ==> #[trigger] grow_cost(n_used, j) <= suff_thresh
}

impl CntSim {
    /// The cells of the output shares `output_id`, one for each number of probes, in order.
    /// The numbers of probes up to a first bound and from a second bound on are counted by
    /// exhaustion, those between by sampling. A number of probes is below the first bound
    /// where the sets of so many probes, and of fewer, are few enough; the bounds move
    /// further where sampling draws as many sets as an exhaustion counts.
    pub fn probe_output(&self, output_id: usize, n_s_max: u32, suff_thresh: u32) -> (r: Vec<SampleRes>)
        requires
            self.wf(),
            output_id < two_pow(self.n_outputs()),
            suff_thresh <= n_s_max,
            n_s_max < u32::MAX,
        ensures
            r@.len() == self.max_nb_probes() + 1,
            forall|k: int|
                0 <= k < r@.len() ==> is_cell(
                    *self,
                    output_id,
                    n_s_max,
                    suff_thresh,
                    k as nat,
                    #[trigger] r@[k],
                ),
            exists|a: int, b: int| #[trigger] is_partition(r@, a, b),
            forall|k: int|
                0 <= k < r@.len() && cheap_below(
                    self.gadget().max_probes().len(),
                    suff_thresh,
                    k as nat,
                ) ==> (#[trigger] r@[k]).exhaustive,
            forall|k: int|
                0 <= k < r@.len() && cheap_above(self.gadget().max_probes(), suff_thresh, k as nat)
                    ==> (#[trigger] r@[k]).exhaustive,
    {
        let ghost w = self.gadget().max_probes();
        let ghost n_rows = two_pow(self.n_inputs());
        let n_cases = self.n_nprobe_cases();
        let inc_costs_grow = self.costs_n_probes_grow();
        // the numbers of probes below `exh_low_ub` are cheap to count from below
        let mut exh_low_ub: usize = 0;
        while exh_low_ub < n_cases && inc_costs_grow[exh_low_ub] <= suff_thresh as u64
            invariant
                exh_low_ub <= n_cases,
                inc_costs_grow@.len() == n_cases,
                forall|j: int| 0 <= j < exh_low_ub ==> inc_costs_grow@[j] <= suff_thresh,
            decreases n_cases - exh_low_ub,
        {
            exh_low_ub = exh_low_ub + 1;
        }
        let ghost static_low = exh_low_ub;
        // those from `exhaust_high_min_n_probes` on are cheap to count from above
        let mut exhaust_high_min_n_probes: usize = n_cases;
        let ghost mut stopped = false;
        while exhaust_high_min_n_probes > exh_low_ub
            invariant_except_break
                !stopped,
            invariant
                exh_low_ub <= exhaust_high_min_n_probes <= n_cases,
                self.wf(),
                n_cases == self.max_nb_probes() + 1,
                w == self.gadget().max_probes(),
            ensures
                exh_low_ub <= exhaust_high_min_n_probes <= n_cases,
                stopped ==> exhaust_high_min_n_probes > exh_low_ub && shrink_cost(
                    w,
                    (exhaust_high_min_n_probes - 1) as nat,
                ) > suff_thresh,
                !stopped ==> exhaust_high_min_n_probes == exh_low_ub,
            decreases exhaust_high_min_n_probes,
        {
            let cost = self.cost_n_probes_shrink(exhaust_high_min_n_probes - 1);
            if cost > suff_thresh as u64 {
                proof {
                    stopped = true;
                }
                break ;
            }
            exhaust_high_min_n_probes = exhaust_high_min_n_probes - 1;
        }
        let ghost static_high = exhaust_high_min_n_probes;
        // sampling tells where an exhaustion is cheaper than it seemed
        let mut n_probes: usize = exh_low_ub;
        while n_probes < exhaust_high_min_n_probes
            invariant
                static_low <= exh_low_ub <= exhaust_high_min_n_probes <= n_cases,
                exhaust_high_min_n_probes == static_high,
                exh_low_ub <= n_probes <= exhaust_high_min_n_probes,
                inc_costs_grow@.len() == n_cases,
                self.wf(),
                output_id < two_pow(self.n_outputs()),
                n_cases == self.max_nb_probes() + 1,
            decreases exhaust_high_min_n_probes - n_probes,
        {
            let (counts, _) = self.probe_auto_samples_inner(
                n_s_max,
                suff_thresh,
                inc_costs_grow[n_probes],
                output_id,
                n_probes,
            );
            if counts.is_some() {
                break ;
            }
            n_probes = n_probes + 1;
            exh_low_ub = n_probes;
        }
        let mut n_probes: usize = exhaust_high_min_n_probes;
        while n_probes > exh_low_ub
            invariant
                static_low <= exh_low_ub <= exhaust_high_min_n_probes <= n_cases,
                exhaust_high_min_n_probes <= static_high,
                exh_low_ub <= n_probes <= exhaust_high_min_n_probes,
                self.wf(),
                output_id < two_pow(self.n_outputs()),
                n_cases == self.max_nb_probes() + 1,
            decreases n_probes,
        {
            let cost = self.cost_n_probes_shrink(n_probes - 1);
            let (counts, _) = self.probe_auto_samples_inner(
                n_s_max,
                suff_thresh,
                cost,
                output_id,
                n_probes - 1,
            );
            if counts.is_some() {
                break ;
            }
            n_probes = n_probes - 1;
            exhaust_high_min_n_probes = n_probes;
        }
        if exh_low_ub == exhaust_high_min_n_probes {
            // one exhaustion counts all
            exh_low_ub = n_cases;
            exhaust_high_min_n_probes = n_cases;
        }
        let ghost all_exhaustive = exh_low_ub == n_cases;
        let low = self.probe_all_nprobes(output_id, 0..exh_low_ub);
        let high = self.probe_all_nprobes(output_id, exhaust_high_min_n_probes..n_cases);
        let mut res: Vec<SampleRes> = Vec::new();
        let mut k: usize = 0;
        while k < n_cases
            invariant
                k <= n_cases,
                static_low <= exh_low_ub <= exhaust_high_min_n_probes <= n_cases,
                all_exhaustive || exhaust_high_min_n_probes <= static_high,
                all_exhaustive ==> exh_low_ub == n_cases,
                self.wf(),
                output_id < two_pow(self.n_outputs()),
                suff_thresh <= n_s_max,
                n_s_max < u32::MAX,
                n_cases == self.max_nb_probes() + 1,
                w == self.gadget().max_probes(),
                n_rows == two_pow(self.n_inputs()),
                low@.len() == n_rows,
                forall|s: int| 0 <= s < low@.len() ==> (#[trigger] low@[s])@.len() == exh_low_ub,
                0 < exh_low_ub ==> is_exhaustion(
                    *self,
                    output_id,
                    0,
                    exh_low_ub as nat,
                    Seq::new(low@.len(), |s: int| low@[s]@),
                ),
                high@.len() == n_rows,
                forall|s: int|
                    0 <= s < high@.len() ==> (#[trigger] high@[s])@.len() == n_cases
                        - exhaust_high_min_n_probes,
                exhaust_high_min_n_probes < n_cases ==> is_exhaustion(
                    *self,
                    output_id,
                    exhaust_high_min_n_probes as nat,
                    (n_cases - exhaust_high_min_n_probes) as nat,
                    Seq::new(high@.len(), |s: int| high@[s]@),
                ),
                res@.len() == k,
                forall|j: int|
                    0 <= j < k ==> is_cell(
                        *self,
                        output_id,
                        n_s_max,
                        suff_thresh,
                        j as nat,
                        #[trigger] res@[j],
                    ),
                forall|j: int|
                    0 <= j < k ==> ((#[trigger] res@[j]).exhaustive <==> j < exh_low_ub || j
                        >= exhaust_high_min_n_probes),
            decreases n_cases - k,
        {
            let ghost before = res@;
            if k < exh_low_ub {
                let sr = self.column_cell(&low, k, k, output_id, Ghost(0), Ghost(exh_low_ub as nat));
                res.push(sr);
            } else if k >= exhaust_high_min_n_probes {
                let sr = self.column_cell(
                    &high,
                    k - exhaust_high_min_n_probes,
                    k,
                    output_id,
                    Ghost(exhaust_high_min_n_probes as nat),
                    Ghost((n_cases - exhaust_high_min_n_probes) as nat),
                );
                res.push(sr);
            } else {
                let (counts, _) = self.probe_auto_samples_inner(
                    n_s_max,
                    suff_thresh,
                    n_s_max as u64 + 1,
                    output_id,
                    k,
                );
                match counts {
                    Some(sr) => {
                        res.push(sr);
                    },
                    None => {
                        proof {
                            assert(false);
                        }
                    },
                }
            }
            proof {
                assert forall|j: int| 0 <= j < k + 1 implies is_cell(
                    *self,
                    output_id,
                    n_s_max,
                    suff_thresh,
                    j as nat,
                    #[trigger] res@[j],
                ) by {
                    if j < k {
                        assert(res@[j] == before[j]);
                    }
                }
                assert forall|j: int| 0 <= j < k + 1 implies ((#[trigger] res@[j]).exhaustive
                    <==> j < exh_low_ub || j >= exhaust_high_min_n_probes) by {
                    if j < k {
                        assert(res@[j] == before[j]);
                    }
                }
            }
            k = k + 1;
        }
        proof {
            let a = exh_low_ub as int;
            let b = exhaust_high_min_n_probes as int;
            assert(is_partition(res@, a, b));
            assert forall|k: int|
                0 <= k < res@.len() && cheap_above(w, suff_thresh, k as nat) implies (
            #[trigger] res@[k]).exhaustive by {
                if !all_exhaustive && k < static_high {
                    if stopped {
                        let j = (static_high - 1) as nat;
                        assert(k <= j <= total(w));
                        assert(shrink_cost(w, j) <= suff_thresh);
                    }
                }
            }
            assert forall|k: int|
                0 <= k < res@.len() && cheap_below(w.len(), suff_thresh, k as nat) implies (
            #[trigger] res@[k]).exhaustive by {
                if k >= static_low {
                    assert(grow_cost(w.len(), static_low as nat) <= suff_thresh);
                    assert(inc_costs_grow@[static_low as int] == saturate(
                        grow_cost(w.len(), static_low as nat),
                    ));
                }
            }
        }
        res
    }
}

/// The counts of all cells: for each number of probes, each set of input shares and each set
/// of output shares; and whether each cell was counted by exhaustion.
#[derive(Debug, Clone, PartialEq, Eq)]
pub struct CntSimSt {
    /// `cnt[k][s][t]`: the count for `k` probes, the input shares `s`, the output shares `t`.
    pub cnt: Vec<Vec<Vec<u64>>>,
    /// `exhaustive[k][t]`: whether the cell of `k` probes and the output shares `t` was
    /// counted by exhaustion.
    pub exhaustive: Vec<Vec<bool>>,
}

impl CntSimSt {
    /// The lists are of the lengths that the numbers of cases tell.
    pub open spec fn has_shape(&self, n_nprobes_cases: nat, n_input_cases: nat, n_output_cases: nat) -> bool {
        &&& self.cnt@.len() == n_nprobes_cases
        &&& self.exhaustive@.len() == n_nprobes_cases
        &&& forall|k: int|
            0 <= k < n_nprobes_cases ==> (#[trigger] self.cnt@[k])@.len() == n_input_cases
        &&& forall|k: int, s: int|
            0 <= k < n_nprobes_cases && 0 <= s < n_input_cases ==> (#[trigger] self.cnt@[k]@[s])@.len()
                == n_output_cases
        &&& forall|k: int|
            0 <= k < n_nprobes_cases ==> (#[trigger] self.exhaustive@[k])@.len() == n_output_cases
    }

    /// Whether the cell of `k` probes and the output shares `t` holds the counts of `sr`.
    pub open spec fn holds(&self, k: int, t: int, sr: SampleRes) -> bool {
        &&& self.exhaustive@[k]@[t] == sr.exhaustive
        &&& forall|s: int| 0 <= s < sr.counts@.len() ==> self.cnt@[k]@[s]@[t] == #[trigger] sr.counts@[s]
    }

    /// Counts of the given shape, all zero, no cell counted by exhaustion.
    pub fn new(n_nprobes_cases: usize, n_input_cases: usize, n_output_cases: usize) -> (r: Self)
        ensures
            r.has_shape(n_nprobes_cases as nat, n_input_cases as nat, n_output_cases as nat),
            forall|k: int, s: int, t: int|
                0 <= k < n_nprobes_cases && 0 <= s < n_input_cases && 0 <= t < n_output_cases
                    ==> #[trigger] r.cnt@[k]@[s]@[t] == 0,
            forall|k: int, t: int|
                0 <= k < n_nprobes_cases && 0 <= t < n_output_cases ==> !#[trigger] r.exhaustive@[k]@[t],
    {
        let mut cnt: Vec<Vec<Vec<u64>>> = Vec::new();
        let mut exhaustive: Vec<Vec<bool>> = Vec::new();
        let mut k: usize = 0;
        while k < n_nprobes_cases
            invariant
                k <= n_nprobes_cases,
                cnt@.len() == k,
                exhaustive@.len() == k,
                forall|i: int| 0 <= i < k ==> (#[trigger] cnt@[i])@.len() == n_input_cases,
                forall|i: int, s: int|
                    0 <= i < k && 0 <= s < n_input_cases ==> (#[trigger] cnt@[i]@[s])@.len()
                        == n_output_cases,
                forall|i: int, s: int, t: int|
                    0 <= i < k && 0 <= s < n_input_cases && 0 <= t < n_output_cases
                        ==> #[trigger] cnt@[i]@[s]@[t] == 0,
                forall|i: int| 0 <= i < k ==> (#[trigger] exhaustive@[i])@.len() == n_output_cases,
                forall|i: int, t: int|
                    0 <= i < k && 0 <= t < n_output_cases ==> !#[trigger] exhaustive@[i]@[t],
            decreases n_nprobes_cases - k,
        {
            let mut plane: Vec<Vec<u64>> = Vec::new();
            let mut s: usize = 0;
            while s < n_input_cases
                invariant
                    s <= n_input_cases,
                    plane@.len() == s,
                    forall|i: int| 0 <= i < s ==> (#[trigger] plane@[i])@.len() == n_output_cases,
                    forall|i: int, t: int|
                        0 <= i < s && 0 <= t < n_output_cases ==> #[trigger] plane@[i]@[t] == 0,
                decreases n_input_cases - s,
            {
                plane.push(zero_counts(n_output_cases));
                s = s + 1;
            }
            cnt.push(plane);
            exhaustive.push(no_flags(n_output_cases));
            k = k + 1;
        }
        Self { cnt, exhaustive }
    }

    /// The number of numbers of probes.
    pub fn n_nprobes_cases(&self) -> (n: usize)
        ensures
            n == self.cnt@.len(),
    {
        self.cnt.len()
    }

    /// The number of sets of input shares.
    pub fn n_input_cases(&self) -> (n: usize)
        ensures
            self.cnt@.len() > 0 ==> n == self.cnt@[0]@.len(),
            self.cnt@.len() == 0 ==> n == 0,
    {
        if self.cnt.len() == 0 {
            0
        } else {
            self.cnt[0].len()
        }
    }

    /// The number of sets of output shares.
    pub fn n_output_cases(&self) -> (n: usize)
        ensures
            self.exhaustive@.len() > 0 ==> n == self.exhaustive@[0]@.len(),
            self.exhaustive@.len() == 0 ==> n == 0,
    {
        if self.exhaustive.len() == 0 {
            0
        } else {
            self.exhaustive[0].len()
        }
    }

    /// The counts of the cell of `k` probes and the output shares `t`, one for each set of
    /// input shares.
    pub open spec fn cell_counts(&self, k: int, t: int) -> Seq<u64> {
        Seq::new(self.cnt@[k]@.len(), |s: int| self.cnt@[k]@[s]@[t])
    }

    /// The number of sets of probes counted in each cell: for `k` probes and the output
    /// shares `t`, the sum of the counts for all sets of input shares, a sum above the
    /// largest `u64` given as that.
    pub fn n_samples(&self) -> (r: Vec<Vec<u64>>)
        requires
            exists|a: nat, b: nat, c: nat| self.has_shape(a, b, c),
        ensures
            r@.len() == self.cnt@.len(),
            forall|k: int|
                0 <= k < r@.len() ==> (#[trigger] r@[k])@.len() == self.exhaustive@[k]@.len(),
            forall|k: int, t: int|
                0 <= k < r@.len() && 0 <= t < r@[k]@.len() ==> #[trigger] r@[k]@[t] == saturate(
                    sum_counts(self.cell_counts(k, t)),
                ),
    {
        let ghost (a, b, c) = choose|a: nat, b: nat, c: nat| self.has_shape(a, b, c);
        let n_k = self.cnt.len();
        let mut res: Vec<Vec<u64>> = Vec::new();
        let mut k: usize = 0;
        while k < n_k
            invariant
                k <= n_k,
                n_k == a,
                self.has_shape(a, b, c),
                res@.len() == k,
                forall|i: int| 0 <= i < k ==> (#[trigger] res@[i])@.len() == c,
                forall|i: int, t: int|
                    0 <= i < k && 0 <= t < c ==> #[trigger] res@[i]@[t] == saturate(
                        sum_counts(self.cell_counts(i, t)),
                    ),
            decreases n_k - k,
        {
            let n_t = self.exhaustive[k].len();
            let n_s = self.cnt[k].len();
            let mut row: Vec<u64> = Vec::new();
            let mut t: usize = 0;
            while t < n_t
                invariant
                    t <= n_t,
                    k < n_k,
                    n_k == a,
                    n_s == b,
                    n_t == c,
                    self.has_shape(a, b, c),
                    row@.len() == t,
                    forall|i: int|
                        0 <= i < t ==> #[trigger] row@[i] == saturate(
                            sum_counts(self.cell_counts(k as int, i)),
                        ),
                decreases n_t - t,
            {
                let ghost cell = self.cell_counts(k as int, t as int);
                let mut acc: u64 = 0;
                let mut s: usize = 0;
                assert(cell.subrange(0, 0) =~= Seq::<u64>::empty());
                while s < n_s
                    invariant
                        s <= n_s,
                        k < n_k,
                        t < n_t,
                        n_k == a,
                        n_s == b,
                        n_t == c,
                        self.has_shape(a, b, c),
                        cell == self.cell_counts(k as int, t as int),
                        acc == saturate(sum_counts(cell.subrange(0, s as int))),
                    decreases n_s - s,
                {
                    proof {
                        assert(self.cnt@[k as int]@[s as int]@.len() == c);
                        assert(cell.subrange(0, s + 1).drop_last() =~= cell.subrange(0, s as int));
                        assert(cell.subrange(0, s + 1).last() == self.cnt@[k as int]@[s as int]@[t as int]);
                    }
                    acc = acc.saturating_add(self.cnt[k][s][t]);
                    s = s + 1;
                }
                assert(cell.subrange(0, n_s as int) =~= cell);
                row.push(acc);
                t = t + 1;
            }
            res.push(row);
            k = k + 1;
        }
        res
    }
}

/// Whether the cell of `k` probes and the output shares `t` holds the counts of a cell as
/// `probe_output` gives it.
pub open spec fn holds_cell(
    st: CntSimSt,
    sim: CntSim,
    n_s_max: u32,
    suff_thresh: u32,
    k: nat,
    t: nat,
) -> bool {
    exists|sr: SampleRes| #[trigger]
        st.holds(k as int, t as int, sr) && is_cell(
            sim,
            t as usize,
            n_s_max,
            suff_thresh,
            k,
            sr,
        )
}

/// Whether the cells are in range and no two are for one number of probes and one set of
/// output shares.
pub open spec fn cells_differ(
    cells: Seq<SampleRes>,
    n_nprobes_cases: nat,
    n_input_cases: nat,
    n_output_cases: nat,
) -> bool {
    &&& forall|i: int|
        0 <= i < cells.len() ==> (#[trigger] cells[i]).n_probes < n_nprobes_cases
            && cells[i].output_index < n_output_cases && cells[i].counts@.len() == n_input_cases
    &&& forall|i: int, j: int|
        0 <= i < j < cells.len() ==> (#[trigger] cells[i]).n_probes != (#[trigger] cells[j]).n_probes
            || cells[i].output_index != cells[j].output_index
}

/// Whether there is a cell for `k` probes and the output shares `t`.
pub open spec fn has_cell(cells: Seq<SampleRes>, k: nat, t: nat) -> bool {
    exists|i: int|
        0 <= i < cells.len() && (#[trigger] cells[i]).n_probes == k && cells[i].output_index == t
}

/// Whether there is a cell for each number of probes and each set of output shares.
pub open spec fn cells_complete(cells: Seq<SampleRes>, n_nprobes_cases: nat, n_output_cases: nat) -> bool {
    forall|k: nat, t: nat|
        k < n_nprobes_cases && t < n_output_cases ==> #[trigger] has_cell(cells, k, t)
}

impl CntSim {
    /// The counts of all cells, from the cells one by one.
    pub fn collect_pdtcols(&self, pdtcols: Vec<SampleRes>) -> (res: CntSimSt)
        requires
            self.wf(),
            cells_differ(
                pdtcols@,
                self.max_nb_probes() + 1,
                two_pow(self.n_inputs()),
                two_pow(self.n_outputs()),
            ),
            cells_complete(pdtcols@, self.max_nb_probes() + 1, two_pow(self.n_outputs())),
        ensures
            res.has_shape(
                self.max_nb_probes() + 1,
                two_pow(self.n_inputs()),
                two_pow(self.n_outputs()),
            ),
            forall|i: int|
                0 <= i < pdtcols@.len() ==> res.holds(
                    pdtcols@[i].n_probes as int,
                    pdtcols@[i].output_index as int,
                    #[trigger] pdtcols@[i],
                ),
    {
        let n_nprobes_cases = self.n_nprobe_cases();
        let n_input_cases = self.n_input_cases();
        let n_output_cases = self.n_output_cases();
        let mut res = CntSimSt::new(n_nprobes_cases, n_input_cases, n_output_cases);
        let mut c: usize = 0;
        while c < pdtcols.len()
            invariant
                c <= pdtcols@.len(),
                res.has_shape(n_nprobes_cases as nat, n_input_cases as nat, n_output_cases as nat),
                cells_differ(
                    pdtcols@,
                    n_nprobes_cases as nat,
                    n_input_cases as nat,
                    n_output_cases as nat,
                ),
                forall|i: int|
                    0 <= i < c ==> res.holds(
                        pdtcols@[i].n_probes as int,
                        pdtcols@[i].output_index as int,
                        #[trigger] pdtcols@[i],
                    ),
            decreases pdtcols@.len() - c,
        {
            let pdtcol = &pdtcols[c];
            let k = pdtcol.n_probes;
            let t = pdtcol.output_index;
            let ghost res0 = res;
            let mut i: usize = 0;
            while i < n_input_cases
                invariant
                    i <= n_input_cases,
                    k < n_nprobes_cases,
                    t < n_output_cases,
                    pdtcol.counts@.len() == n_input_cases,
                    res.has_shape(n_nprobes_cases as nat, n_input_cases as nat, n_output_cases as nat),
                    res0.has_shape(n_nprobes_cases as nat, n_input_cases as nat, n_output_cases as nat),
                    res.exhaustive == res0.exhaustive,
                    forall|s: int| 0 <= s < i ==> res.cnt@[k as int]@[s]@[t as int] == pdtcol.counts@[s],
                    forall|k2: int, s: int, t2: int|
                        0 <= k2 < n_nprobes_cases && 0 <= s < n_input_cases && 0 <= t2
                            < n_output_cases && (k2 != k || t2 != t) ==> #[trigger] res.cnt@[k2]@[s]@[t2]
                            == res0.cnt@[k2]@[s]@[t2],
                decreases n_input_cases - i,
            {
                res.cnt[k][i][t] = pdtcol.counts[i];
                i = i + 1;
            }
            res.exhaustive[k][t] = pdtcol.exhaustive;
            proof {
                assert forall|j: int| 0 <= j < c + 1 implies res.holds(
                    pdtcols@[j].n_probes as int,
                    pdtcols@[j].output_index as int,
                    #[trigger] pdtcols@[j],
                ) by {
                    if j < c {
                        assert(res0.holds(
                            pdtcols@[j].n_probes as int,
                            pdtcols@[j].output_index as int,
                            pdtcols@[j],
                        ));
                        assert(pdtcols@[j].n_probes != k || pdtcols@[j].output_index != t);
                    }
                }
            }
            c = c + 1;
        }
        res
    }

    /// The counts of all cells of the gadget: for each set of output shares, the cells that
    /// `probe_output` gives.
    pub fn run_sampling(&self, n_s_max: u32, suff_thresh: u32) -> (res: CntSimSt)
        requires
            self.wf(),
            suff_thresh <= n_s_max,
            n_s_max < u32::MAX,
        ensures
            res.has_shape(
                self.max_nb_probes() + 1,
                two_pow(self.n_inputs()),
                two_pow(self.n_outputs()),
            ),
            forall|k: nat, t: nat|
                k <= self.max_nb_probes() && t < two_pow(self.n_outputs()) ==> #[trigger] holds_cell(
                    res,
                    *self,
                    n_s_max,
                    suff_thresh,
                    k,
                    t,
                ),
    {
        let ghost w = self.gadget().max_probes();
        let ghost n_rows = two_pow(self.n_inputs());
        let n_output_cases = self.n_output_cases();
        let n_cases = self.n_nprobe_cases();
        let mut all: Vec<SampleRes> = Vec::new();
        let mut output_id: usize = 0;
        while output_id < n_output_cases
            invariant
                output_id <= n_output_cases,
                self.wf(),
                suff_thresh <= n_s_max,
                n_s_max < u32::MAX,
                n_output_cases == two_pow(self.n_outputs()),
                n_cases == self.max_nb_probes() + 1,
                w == self.gadget().max_probes(),
                n_rows == two_pow(self.n_inputs()),
                forall|i: int|
                    0 <= i < all@.len() ==> (#[trigger] all@[i]).output_index < output_id && is_cell(
                        *self,
                        all@[i].output_index,
                        n_s_max,
                        suff_thresh,
                        all@[i].n_probes as nat,
                        all@[i],
                    ) && all@[i].n_probes < n_cases,
                forall|i: int, j: int|
                    0 <= i < j < all@.len() ==> (#[trigger] all@[i]).n_probes != (
                    #[trigger] all@[j]).n_probes || all@[i].output_index != all@[j].output_index,
                forall|k: nat, t: nat|
                    k < n_cases && t < output_id ==> #[trigger] has_cell(all@, k, t),
            decreases n_output_cases - output_id,
        {
            let mut cells = self.probe_output(output_id, n_s_max, suff_thresh);
            let ghost before = all@;
            let ghost added = cells@;
            all.append(&mut cells);
            proof {
                assert(all@ =~= before + added);
                assert forall|i: int| 0 <= i < all@.len() implies (#[trigger] all@[i]).output_index
                    < output_id + 1 && is_cell(
                    *self,
                    all@[i].output_index,
                    n_s_max,
                    suff_thresh,
                    all@[i].n_probes as nat,
                    all@[i],
                ) && all@[i].n_probes < n_cases by {
                    if i < before.len() {
                        assert(all@[i] == before[i]);
                    } else {
                        assert(all@[i] == added[i - before.len()]);
                    }
                }
                assert forall|i: int, j: int| 0 <= i < j < all@.len() implies (
                #[trigger] all@[i]).n_probes != (#[trigger] all@[j]).n_probes
                    || all@[i].output_index != all@[j].output_index by {
                    if j < before.len() {
                        assert(all@[i] == before[i] && all@[j] == before[j]);
                    } else if i < before.len() {
                        assert(all@[i] == before[i]);
                        assert(all@[j] == added[j - before.len()]);
                    } else {
                        assert(all@[i] == added[i - before.len()]);
                        assert(all@[j] == added[j - before.len()]);
                    }
                }
                assert forall|k: nat, t: nat|
                    k < n_cases && t < output_id + 1 implies #[trigger] has_cell(all@, k, t) by {
                    if t < output_id {
                        assert(has_cell(before, k, t));
                        let i = choose|i: int|
                            0 <= i < before.len() && (#[trigger] before[i]).n_probes == k
                                && before[i].output_index == t;
                        assert(all@[i] == before[i]);
                    } else {
                        let i = (before.len() + k) as int;
                        assert(all@[i] == added[k as int]);
                    }
                }
            }
            output_id = output_id + 1;
        }
        let ghost cells = all@;
        let res = self.collect_pdtcols(all);
        proof {
            assert forall|k: nat, t: nat|
                k <= self.max_nb_probes() && t < two_pow(self.n_outputs()) implies #[trigger] holds_cell(
                res,
                *self,
                n_s_max,
                suff_thresh,
                k,
                t,
            ) by {
                assert(has_cell(cells, k, t));
                let i = choose|i: int|
                    0 <= i < cells.len() && (#[trigger] cells[i]).n_probes == k
                        && cells[i].output_index == t;
                assert(res.holds(k as int, t as int, cells[i]));
            }
        }
        res
    }
}

} // verus!
