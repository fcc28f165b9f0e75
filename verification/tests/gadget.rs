use straps::circuit::build_isw;
use straps::pd::SimGadget;

#[test]
fn gadget_of_isw_with_two_shares() {
    let g = SimGadget::new(build_isw(2), |u| u);
    assert_eq!(g.n_shares(), 2);
    assert_eq!(g.n_input_sharings(), 2);
    assert_eq!(g.n_output_sharings(), 1);
    assert_eq!(g.n_inputs(), 4);
    assert_eq!(g.n_outputs(), 2);
    // each input share is used twice, a random bit by two sums, the others once
    assert_eq!(g.pp_maxp(), &[2, 2, 2, 2, 2, 1, 1, 1, 1, 1, 1]);
    assert_eq!(g.n_pp(), 11);
    assert_eq!(g.max_n_probes(), 16);
    let g = SimGadget::new(build_isw(2), |u| 2 * u - 1);
    assert_eq!(g.pp_maxp(), &[3, 3, 3, 3, 3, 1, 1, 1, 1, 1, 1]);
    assert_eq!(g.max_n_probes(), 21);
}

#[test]
fn sim_probes_gives_the_places_of_the_input_shares() {
    let g = SimGadget::new(build_isw(2), |u| u);
    assert_eq!(g.sim_probes(&[], &[]), Vec::<usize>::new());
    assert_eq!(g.sim_probes(&[0, 1], &[]), vec![0, 1, 2, 3]);
    assert_eq!(g.sim_probes(&[0], &[]), Vec::<usize>::new());
    let mut needed = vec![];
    for p in 0..g.n_pp() {
        let r = g.sim_probes(&[], &[p]);
        assert!(r.len() <= 2);
        needed.push(r);
    }
    // the four input shares are among the first five physical probes
    let mut singles: Vec<usize> = needed[..5].iter().flatten().copied().collect();
    singles.sort();
    assert_eq!(singles, vec![0, 1, 2, 3]);
}

#[test]
fn outputs_are_in_the_order_of_their_shares() {
    use_outputs_out_of_order();
}

fn use_outputs_out_of_order() {
    let var = |src, output_port, name: &str| straps::circuit::Var {
        src,
        output_port,
        name: name.to_owned(),
    };
    let circuit = straps::circuit::new_sl_sc(
        vec![
            var(straps::circuit::VarSrc::Input(0, 0), None, "a0"),
            var(straps::circuit::VarSrc::Input(0, 1), None, "a1"),
            var(straps::circuit::VarSrc::Not([1]), Some((0, 1)), "n1"),
            var(straps::circuit::VarSrc::Not([0]), Some((0, 0)), "n0"),
        ],
        2,
        1,
        1,
    )
    .unwrap();
    let g = SimGadget::new(circuit, |u| u);
    assert_eq!(g.n_output_vars(), 2);
    // the first output share is the negation of the first input share
    assert_eq!(g.sim_probes(&[0], &[]), vec![0]);
    assert_eq!(g.sim_probes(&[1], &[]), vec![1]);
    assert_eq!(g.pp_maxp(), &[1, 1]);
}
