use straps::circuit::es_graph::CompGraphWork;
use straps::circuit::import_sl_sc::{
    check_completeness_sharings, check_no_io, is_unique, vecs2graph, CircuitError, GraphError,
    ShareKind,
};
use straps::circuit::utils::it_complement;
use straps::circuit::{build_isw, new_sl_sc, sim_set, SlSharedCircuit, Var, VarSrc};

fn var(src: VarSrc, output_port: Option<(usize, usize)>, name: &str) -> Var {
    Var {
        src,
        output_port,
        name: name.to_owned(),
    }
}

/// o = (a + r) + b, with one share
fn small_vars() -> Vec<Var> {
    vec![
        var(VarSrc::Input(0, 0), None, "a"),
        var(VarSrc::Input(1, 0), None, "b"),
        var(VarSrc::Random, None, "r"),
        var(VarSrc::Sum([0, 2]), None, "t"),
        var(VarSrc::Sum([3, 1]), Some((0, 0)), "o"),
    ]
}

#[test]
fn operands_of_each_kind() {
    assert_eq!(VarSrc::Input(1, 2).operands(), &[] as &[usize]);
    assert_eq!(VarSrc::Random.operands(), &[] as &[usize]);
    assert_eq!(VarSrc::Sum([3, 4]).operands(), &[3, 4]);
    assert_eq!(VarSrc::Product([5, 1]).operands(), &[5, 1]);
    assert_eq!(VarSrc::Not([7]).operands(), &[7]);
}

#[test]
fn a_valid_list_is_a_circuit() {
    let c = new_sl_sc(small_vars(), 1, 2, 1).unwrap();
    assert_eq!(c.vars, small_vars());
    assert_eq!(c.n_shares, 1);
    assert_eq!(c.n_input_ports, 2);
    assert_eq!(c.n_output_ports, 1);
    assert_eq!(c.anfs.len(), 5);
    assert_eq!(c.anfs[4].variables(), vec![0, 1, 2]);
    assert_eq!(c.anfs[4].terms().len(), 3);
}

#[test]
fn names_must_differ() {
    let mut vars = small_vars();
    vars[2].name = "a".to_owned();
    assert_eq!(
        new_sl_sc(vars.clone(), 1, 2, 1),
        Err(CircuitError::NonUniqueNames)
    );
    assert!(!is_unique(&vars));
    assert!(is_unique(&small_vars()));
}

#[test]
fn names_must_not_be_reserved() {
    let mut vars = small_vars();
    vars[3].name = "output_3".to_owned();
    vars[4].name = "input".to_owned();
    assert_eq!(
        new_sl_sc(vars.clone(), 1, 2, 1),
        Err(CircuitError::ReservedName("output_3".to_owned()))
    );
    assert_eq!(check_no_io(&vars), Err("output_3".to_owned()));
    assert_eq!(check_no_io(&small_vars()), Ok(()));
    vars[3].name = "outpu".to_owned();
    assert_eq!(
        new_sl_sc(vars, 1, 2, 1),
        Err(CircuitError::ReservedName("input".to_owned()))
    );
}

#[test]
fn operands_must_come_first() {
    let mut vars = small_vars();
    vars[3].src = VarSrc::Sum([0, 4]);
    assert_eq!(
        new_sl_sc(vars, 1, 2, 1),
        Err(CircuitError::InvalidOpSorting { var: 3, op: 4 })
    );
    let mut vars = small_vars();
    vars[3].src = VarSrc::Not([3]);
    assert_eq!(
        new_sl_sc(vars, 1, 2, 1),
        Err(CircuitError::InvalidOpSorting { var: 3, op: 3 })
    );
}

#[test]
fn shares_must_be_complete() {
    let mut vars = small_vars();
    vars[1].src = VarSrc::Input(0, 0);
    assert_eq!(
        new_sl_sc(vars, 1, 2, 1),
        Err(CircuitError::DuplicateShare {
            kind: ShareKind::Input,
            port: 0,
            share: 0
        })
    );
    let mut vars = small_vars();
    vars[1].src = VarSrc::Random;
    assert_eq!(
        new_sl_sc(vars, 1, 2, 1),
        Err(CircuitError::MissingShares {
            kind: ShareKind::Input,
            shares: vec![(1, 0)]
        })
    );
    let mut vars = small_vars();
    vars[3].output_port = Some((0, 0));
    assert_eq!(
        new_sl_sc(vars, 1, 2, 1),
        Err(CircuitError::DuplicateShare {
            kind: ShareKind::Output,
            port: 0,
            share: 0
        })
    );
    assert_eq!(
        new_sl_sc(small_vars(), 2, 2, 2),
        Err(CircuitError::MissingShares {
            kind: ShareKind::Input,
            shares: vec![(0, 1), (1, 1)]
        })
    );
    assert_eq!(
        check_completeness_sharings(&small_vars(), 2, 2, ShareKind::Output),
        Err(CircuitError::MissingShares {
            kind: ShareKind::Output,
            shares: vec![(0, 1), (1, 0), (1, 1)]
        })
    );
    assert_eq!(
        check_completeness_sharings(&small_vars(), 1, 1, ShareKind::Output),
        Ok(())
    );
}

#[test]
fn complement_of_sorted_lists() {
    assert_eq!(it_complement(&[0, 1, 2, 3, 4], &[1, 3]), vec![0, 2, 4]);
    assert_eq!(it_complement(&[0, 1, 2, 3, 4], &[2, 2, 4, 4]), vec![0, 1, 3]);
    assert_eq!(it_complement(&[0, 1, 2], &[]), vec![0, 1, 2]);
    assert_eq!(it_complement(&[], &[1]), Vec::<usize>::new());
    assert_eq!(it_complement(&[5, 7], &[1, 5, 6, 9]), vec![7]);
}

#[test]
fn a_masked_sum_needs_no_input_alone() {
    let c = new_sl_sc(small_vars(), 1, 2, 1).unwrap();
    // t = a + r is as good as a fresh random bit
    assert_eq!(sim_set(&c, &[3]), Vec::<u32>::new());
    // o = t + b as well
    assert_eq!(sim_set(&c, &[4]), Vec::<u32>::new());
    // together with r, t gives a away
    assert_eq!(sim_set(&c, &[2, 3]), vec![0]);
    assert_eq!(sim_set(&c, &[3, 4]), vec![1]);
    assert_eq!(sim_set(&c, &[2, 3, 4]), vec![0, 1]);
    assert_eq!(sim_set(&c, &[0]), vec![0]);
    assert_eq!(sim_set(&c, &[]), Vec::<u32>::new());
    assert_eq!(sim_set(&c, &[4, 4, 2, 2]), vec![0, 1]);
}

#[test]
fn the_working_graph_keeps_the_probes_sorted() {
    let c = new_sl_sc(small_vars(), 1, 2, 1).unwrap();
    let (mut g, probes) = CompGraphWork::from_circ_probes(&c, &[4, 2, 3]);
    assert_eq!(probes, vec![2, 3, 4]);
    assert_eq!(g.remaining_inputs(), vec![0, 1]);
    g.simplify();
    assert_eq!(g.remaining_inputs(), vec![0, 1]);
    assert_eq!(g.inputs(), vec![0, 1]);
    let (mut g, _) = CompGraphWork::from_circ_probes(&c, &[4]);
    assert_eq!(g.remaining_inputs(), vec![0, 1]);
    g.simplify();
    assert_eq!(g.remaining_inputs(), Vec::<usize>::new());
}

fn isw(n: usize) -> SlSharedCircuit {
    build_isw(n)
}

#[test]
fn isw_has_the_variables_of_the_multiplication() {
    let c = isw(1);
    assert_eq!(c.vars.len(), 4);
    assert_eq!(c.vars[3].src, VarSrc::Product([0, 1]));
    assert_eq!(c.vars[3].output_port, Some((0, 0)));
    assert_eq!(c.vars[3].name, "o_0");
    let c = isw(2);
    // 2 + 2 inputs, 4 random bits, 4 products, 2 refreshed products, 2 sums
    assert_eq!(c.vars.len(), 16);
    assert_eq!(c.vars[0].name, "x_0");
    assert_eq!(c.vars[3].name, "y_1");
    assert_eq!(c.vars[5].name, "r_0_1");
    assert_eq!(c.vars[9].src, VarSrc::Product([0, 3]));
    assert_eq!(c.vars[12].src, VarSrc::Sum([9, 6]));
    assert_eq!(c.vars[13].src, VarSrc::Sum([10, 6]));
    assert_eq!(c.vars[14].src, VarSrc::Sum([8, 12]));
    assert_eq!(c.vars[14].output_port, Some((0, 0)));
    assert_eq!(c.vars[15].src, VarSrc::Sum([13, 11]));
    assert_eq!(c.vars[15].output_port, Some((0, 1)));
    assert_eq!((c.n_shares, c.n_input_ports, c.n_output_ports), (2, 2, 1));
    assert_eq!(isw(3).vars.len(), 6 + 9 + 9 + 6 + 6);
    assert_eq!(isw(0).vars.len(), 0);
}

fn shares_of(c: &SlSharedCircuit, inputs: &[u32]) -> (usize, usize) {
    let mut x = 0;
    let mut y = 0;
    for i in inputs {
        match c.vars[*i as usize].src {
            VarSrc::Input(0, _) => x += 1,
            VarSrc::Input(1, _) => y += 1,
            _ => panic!("not an input"),
        }
    }
    (x, y)
}

#[test]
fn isw_few_probes_need_few_shares() {
    for n in 2..4usize {
        let c = isw(n);
        let n_vars = c.vars.len() as u32;
        for a in 0..n_vars {
            let (x, y) = shares_of(&c, &sim_set(&c, &[a]));
            assert!(x <= n - 1 && y <= n - 1, "n: {}, probe: {}", n, a);
            if n == 3 {
                for b in (a + 1)..n_vars {
                    let (x, y) = shares_of(&c, &sim_set(&c, &[a, b]));
                    assert!(x <= n - 1 && y <= n - 1, "n: {}, probes: {} {}", n, a, b);
                }
            }
        }
    }
}

#[test]
fn isw_all_outputs_need_all_shares() {
    for n in 1..5usize {
        let c = isw(n);
        let outputs: Vec<u32> = (0..c.vars.len())
            .filter(|i| c.vars[*i].output_port.is_some())
            .map(|i| i as u32)
            .collect();
        assert_eq!(outputs.len(), n);
        let inputs = sim_set(&c, &outputs);
        assert_eq!(shares_of(&c, &inputs), (n, n));
        assert_eq!(inputs, (0..(2 * n) as u32).collect::<Vec<_>>());
    }
}

#[test]
fn descriptions_give_variables() {
    let descr = |kind: u32, ops: Vec<usize>, name: &str| (kind, ops, name.to_owned());
    let vars = vecs2graph(
        vec![
            descr(0, vec![], "a"),
            descr(1, vec![7], "r"),
            descr(2, vec![1, 0], "s"),
            descr(3, vec![0, 2], "p"),
            descr(4, vec![3], "n"),
        ],
        vec![Some((0, 0)), None, None, None, None],
        vec![None, None, None, None, Some((0, 0)), None],
    )
    .unwrap();
    assert_eq!(
        vars,
        vec![
            var(VarSrc::Input(0, 0), None, "a"),
            var(VarSrc::Random, None, "r"),
            var(VarSrc::Sum([0, 1]), None, "s"),
            var(VarSrc::Product([0, 2]), None, "p"),
            var(VarSrc::Not([3]), Some((0, 0)), "n"),
        ]
    );
    assert_eq!(
        vecs2graph(vec![descr(0, vec![], "a")], vec![None], vec![None]),
        Err(GraphError::InputHasNoPort)
    );
    assert_eq!(
        vecs2graph(vec![descr(2, vec![0], "a")], vec![None], vec![None]),
        Err(GraphError::WrongOpsCount)
    );
    assert_eq!(
        vecs2graph(vec![descr(4, vec![0, 1], "a")], vec![None], vec![None]),
        Err(GraphError::WrongOpsCount)
    );
    assert_eq!(
        vecs2graph(vec![descr(5, vec![], "a")], vec![None], vec![None]),
        Err(GraphError::InvalidKindOrPort {
            kind: 5,
            port: None
        })
    );
    assert_eq!(
        vecs2graph(
            vec![descr(1, vec![], "a"), descr(0, vec![], "b")],
            vec![Some((0, 1)), None],
            vec![None, None]
        ),
        Err(GraphError::InvalidKindOrPort {
            kind: 1,
            port: Some((0, 1))
        })
    );
    // read as far as the shortest list goes
    assert_eq!(
        vecs2graph(vec![descr(1, vec![], "a"), descr(9, vec![], "b")], vec![None], vec![None, None]),
        Ok(vec![var(VarSrc::Random, None, "a")])
    );
}

#[test]
fn isw_names_are_letters_and_numbers() {
    let c = isw(12);
    let names: Vec<&str> = c.vars.iter().map(|v| v.name.as_str()).collect();
    assert_eq!(names[11], "x_11");
    assert_eq!(names[12], "y_0");
    assert_eq!(names[24 + 12 * 10 + 11], "r_10_11");
    assert!(names.contains(&"p_11_10"));
    assert!(names.contains(&"t_0_11"));
    assert!(names.contains(&"c_11_11"));
    assert!(!names.contains(&"t_3_3"));
    let mut sorted = names.clone();
    sorted.sort();
    sorted.dedup();
    assert_eq!(sorted.len(), names.len());
}
