use straps::circuit::build_isw;
use straps::pd::{CntSim, CntSimSt, SampleRes, SimGadget};

fn isw_sim(n: usize, use_copy: bool) -> CntSim {
    let circuit = build_isw(n);
    if use_copy {
        CntSim::new(SimGadget::new(circuit, |u| 2 * u - 1))
    } else {
        CntSim::new(SimGadget::new(circuit, |u| u))
    }
}

fn binomial(n: u64, k: u64) -> u64 {
    (0..k).fold(1, |acc, i| acc * (n - i) / (i + 1))
}

#[test]
fn cases_of_isw_with_two_shares() {
    let sim = isw_sim(2, false);
    assert_eq!(sim.n_used_vars(), 11);
    assert_eq!(sim.n_nprobe_cases(), 17);
    assert_eq!(sim.n_input_cases(), 16);
    assert_eq!(sim.n_output_cases(), 4);
    assert_eq!(sim.inputs2id(&[]), 0);
    assert_eq!(sim.inputs2id(&[0]), 1);
    assert_eq!(sim.inputs2id(&[3, 1]), 0b1010);
    assert_eq!(sim.inputs2id(&[0, 1, 2, 3]), 15);
}

#[test]
fn a_random_selection_has_the_number_of_probes_asked_for() {
    let sim = isw_sim(2, false);
    for n_probes in 0..=16 {
        for _ in 0..20 {
            let sel = sim.gen_sel(n_probes);
            assert_eq!(sel.len(), 16);
            assert_eq!(sel.iter().filter(|x| **x).count(), n_probes);
        }
    }
}

#[test]
fn sets_of_physical_probes_in_order() {
    let sim = isw_sim(2, false);
    // eleven physical probes, five of them for two probes each
    assert_eq!(sim.iter_probe_set_min_weight(0, 0), vec![Vec::<usize>::new()]);
    assert_eq!(sim.iter_probe_set_min_weight(1, 2).len(), 5);
    assert_eq!(sim.iter_probe_set_min_weight(1, 1).len(), 11);
    assert_eq!(sim.iter_probe_set_min_weight(11, 16), vec![(0..11).collect::<Vec<_>>()]);
    assert_eq!(sim.iter_probe_set_min_weight(11, 17), Vec::<Vec<usize>>::new());
    assert_eq!(sim.iter_probe_set_min_weight(2, 4).len(), 10);
    assert_eq!(sim.iter_probe_set_min_weight(2, 3).len(), 10 + 5 * 6);
}

#[test]
fn costs_of_counting() {
    let sim = isw_sim(2, false);
    let grow = sim.costs_n_probes_grow();
    assert_eq!(grow.len(), 17);
    for k in 0..=11 {
        assert_eq!(grow[k], binomial(11, k as u64));
    }
    for k in 12..17 {
        assert_eq!(grow[k], 0);
    }
    // all probes: the one set of all physical probes
    assert_eq!(sim.cost_n_probes_shrink(16), 1);
    // one probe less: one of the five physical probes of two probes is probed once;
    // that is the same set of physical probes
    assert_eq!(sim.cost_n_probes_shrink(15), 6);
    assert_eq!(sim.cost_n_probes_shrink(0), 1);
    assert_eq!(sim.cost_n_probes_shrink(1), 6);
}

#[test]
fn an_exhaustion_counts_every_set_of_probes() {
    let sim = isw_sim(2, false);
    for output_id in 0..4 {
        let table = sim.probe_all_nprobes(output_id, 0..17);
        assert_eq!(table.len(), 16);
        for k in 0..17 {
            let total: u64 = table.iter().map(|row| row[k]).sum();
            assert_eq!(total, binomial(16, k as u64), "k: {}", k);
        }
        // with all probes, all input shares are needed
        assert_eq!(table[15][16], 1);
        let part = sim.probe_all_nprobes(output_id, 3..6);
        for s in 0..16 {
            assert_eq!(part[s], &table[s][3..6]);
        }
    }
    // without a probe, both output shares need all input shares, and none needs none
    let table = sim.probe_all_nprobes(0b11, 0..1);
    assert_eq!(table[15][0], 1);
    assert_eq!(table[0][0], 0);
    let table = sim.probe_all_nprobes(0, 0..1);
    assert_eq!(table[0][0], 1);
    assert_eq!(sim.probe_all_nprobes(1, 4..4), vec![Vec::<u64>::new(); 16]);
}

#[test]
fn sampling_counts_the_sets_that_it_draws() {
    let sim = isw_sim(2, false);
    let (counts, n) = sim.probe_samples(1000, 100, 10_000, 0, 5);
    assert_eq!(counts.len(), 16);
    assert_eq!(counts.iter().sum::<u64>(), n);
    assert!(100 <= n && n <= 1000);
    // the first sets are drawn whatever the bound
    let (counts, n) = sim.probe_samples(1000, 100, 10, 0, 5);
    assert_eq!(n, 100);
    assert_eq!(counts.iter().sum::<u64>(), 100);
    // with all probes every set needs all input shares
    let (counts, n) = sim.probe_samples(1000, 100, 10_000, 0, 16);
    assert_eq!(n, 100);
    assert_eq!(counts[15], 100);
    let (res, drawn) = sim.probe_auto_samples_inner(1000, 100, 100, 0, 16);
    assert_eq!(res, None);
    assert_eq!(drawn, 100);
    // fewer sets than the bound were drawn: they are drawn again
    let (res, drawn) = sim.probe_auto_samples_inner(1000, 100, 1001, 0, 16);
    let res = res.unwrap();
    assert_eq!(res.counts[15], 100);
    assert_eq!(drawn, 200);
    assert_eq!((res.n_probes, res.output_index, res.exhaustive), (16, 0, false));
}

fn check_cells(cells: &[SampleRes], output_id: usize, n_s_max: u64, suff_thresh: u64) {
    assert_eq!(cells.len(), 17);
    for (k, cell) in cells.iter().enumerate() {
        assert_eq!(cell.n_probes, k);
        assert_eq!(cell.output_index, output_id);
        assert_eq!(cell.counts.len(), 16);
        let total: u64 = cell.counts.iter().sum();
        if cell.exhaustive {
            assert_eq!(total, binomial(16, k as u64));
        } else {
            assert!(suff_thresh <= total && total <= n_s_max);
        }
    }
}

#[test]
fn cells_of_one_set_of_output_shares() {
    let sim = isw_sim(2, false);
    let cells = sim.probe_output(0b11, 1000, 100);
    check_cells(&cells, 0b11, 1000, 100);
    // few sets of few probes, and of nearly all
    for k in [0, 1, 2, 15, 16] {
        assert!(cells[k].exhaustive, "k: {}", k);
    }
    assert!(!cells[8].exhaustive);
    assert_eq!(cells[0].counts[15], 1);
    assert_eq!(cells[16].counts[15], 1);
    // a bound above every cost: one exhaustion
    let cells = sim.probe_output(0, 100_000, 100_000);
    check_cells(&cells, 0, 100_000, 100_000);
    assert!(cells.iter().all(|c| c.exhaustive));
    assert_eq!(cells[0].counts[0], 1);
}

#[test]
fn all_cells_of_isw_with_two_shares() {
    let sim = isw_sim(2, false);
    let st: CntSimSt = sim.run_sampling(500, 50);
    assert_eq!(st.n_nprobes_cases(), 17);
    assert_eq!(st.n_input_cases(), 16);
    assert_eq!(st.n_output_cases(), 4);
    for k in 0..17 {
        for t in 0..4 {
            let total: u64 = (0..16).map(|s| st.cnt[k][s][t]).sum();
            if st.exhaustive[k][t] {
                assert_eq!(total, binomial(16, k as u64));
            } else {
                assert!(50 <= total && total <= 500);
            }
        }
    }
    assert_eq!(st.cnt[0][0][0], 1);
    assert_eq!(st.cnt[0][15][0b11], 1);
    assert_eq!(st.cnt[16][15][0b11], 1);
    assert!(st.exhaustive[0][0] && st.exhaustive[16][3]);
}

#[test]
fn counts_with_copies() {
    let sim = isw_sim(2, true);
    // a variable with two uses stands for three probes
    assert_eq!(sim.n_nprobe_cases(), 22);
    let table = sim.probe_all_nprobes(0, 0..22);
    for k in 0..22 {
        let total: u64 = table.iter().map(|row| row[k]).sum();
        assert_eq!(total, binomial(21, k as u64), "k: {}", k);
    }
}

#[test]
fn collected_cells_are_where_they_belong() {
    let sim = isw_sim(1, false);
    // one product: two physical probes, of one probe each
    assert_eq!(sim.n_nprobe_cases(), 3);
    let mut cells = vec![];
    for t in 0..2 {
        for k in 0..3 {
            cells.push(SampleRes {
                n_probes: k,
                output_index: t,
                counts: vec![(10 * k + t) as u64, 1, 2, 3],
                exhaustive: k == 1,
            });
        }
    }
    let st = sim.collect_pdtcols(cells);
    assert_eq!(st.cnt[2][0][1], 21);
    assert_eq!(st.cnt[1][3][0], 3);
    assert_eq!(st.cnt[0][2][1], 2);
    assert!(st.exhaustive[1][0] && st.exhaustive[1][1]);
    assert!(!st.exhaustive[0][0] && !st.exhaustive[2][1]);
    assert_eq!(
        CntSimSt::new(2, 3, 1).cnt,
        vec![vec![vec![0u64]; 3]; 2]
    );
}

#[test]
fn sets_counted_in_each_cell() {
    let mut st = CntSimSt::new(2, 3, 2);
    st.cnt[0][0][0] = 4;
    st.cnt[0][1][0] = 5;
    st.cnt[0][2][0] = 6;
    st.cnt[0][1][1] = 7;
    st.cnt[1][0][1] = u64::MAX - 1;
    st.cnt[1][2][1] = 3;
    // a sum above the largest number is given as the largest number
    assert_eq!(st.n_samples(), vec![vec![15, 7], vec![0, u64::MAX]]);
    let sim = isw_sim(2, false);
    let st = sim.run_sampling(300, 40);
    let totals = st.n_samples();
    for k in 0..17 {
        for t in 0..4 {
            if st.exhaustive[k][t] {
                assert_eq!(totals[k][t], binomial(16, k as u64));
            } else {
                assert!(40 <= totals[k][t] && totals[k][t] <= 300);
            }
        }
    }
}
