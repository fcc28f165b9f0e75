use straps::pd::combinatorics::{
    count_selections, last_combination, move_fw_combination, MWCombinations,
};

#[test]
fn test_count_selections() {
    let cases: Vec<(usize, Vec<usize>, Vec<u64>)> = vec![
        (2, vec![0, 1], vec![0, 0]),
        (2, vec![], vec![1, 0]),
        (3, vec![1], vec![0, 1, 0]),
        (4, vec![2], vec![0, 2, 1, 0]),
        (4, vec![1, 1], vec![0, 0, 1, 0]),
        (6, vec![1, 2], vec![0, 0, 2, 1, 0, 0]),
        (6, vec![1, 3], vec![0, 0, 3, 3, 1, 0]),
        (7, vec![1, 1, 3], vec![0, 0, 0, 3, 3, 1, 0]),
        (8, vec![2, 1, 3], vec![0, 0, 0, 6, 2 * 3 + 3, 2 + 3, 1, 0]),
        (5, vec![2, 1, 3], vec![0, 0, 0, 6, 2 * 3 + 3]),
        (7, vec![5], vec![0, 5, 10, 10, 5, 1, 0]),
        (1, vec![5], vec![0]),
        (0, vec![5], vec![]),
    ];
    for (res_len, problem, solution) in cases {
        assert_eq!(
            count_selections(0..res_len, &problem),
            solution,
            "res_len: {}, problem: {:?}",
            res_len,
            problem
        );
        for i in 0..res_len {
            for j in i..res_len {
                assert_eq!(
                    count_selections(i..j, &problem),
                    &solution[i..j],
                    "i: {}, j: {}, problem: {:?}, solution: {:?}",
                    i,
                    j,
                    problem,
                    solution
                );
            }
        }
    }
}

#[test]
fn count_selections_with_a_zero_count_later() {
    assert_eq!(count_selections(3..3, &[1, 0, 0, 0]), Vec::<u64>::new());
    assert_eq!(count_selections(0..4, &[1, 0, 0, 0]), vec![0, 0, 0, 0]);
    assert_eq!(count_selections(2..5, &[3, 2, 0]), vec![0, 0, 0]);
}

#[test]
fn count_selections_saturates() {
    // 70 choose 35 is above the largest u64.
    let res = count_selections(0..40, &[70]);
    assert_eq!(res[0], 0);
    assert_eq!(res[1], 70);
    assert_eq!(res[2], 2415);
    assert_eq!(res[35], u64::MAX);
    assert_eq!(res[30], 55_347_740_058_143_507_128u128.min(u64::MAX as u128) as u64);
    assert_eq!(res[20], 161_884_603_662_657_876);
}

fn all_combinations(weights: &[u32], k: usize, min_weight: u32) -> Vec<Vec<usize>> {
    let mut it = MWCombinations::new(weights, k, min_weight);
    let mut res = vec![];
    while let Some(c) = it.next() {
        res.push(c);
    }
    assert_eq!(it.next(), None);
    res
}

#[test]
fn combinations_without_a_weight_bound() {
    assert_eq!(
        all_combinations(&[1, 1, 1, 1], 2, 0),
        vec![
            vec![0, 1],
            vec![0, 2],
            vec![0, 3],
            vec![1, 2],
            vec![1, 3],
            vec![2, 3]
        ]
    );
    assert_eq!(all_combinations(&[1, 1, 1], 0, 0), vec![Vec::<usize>::new()]);
    assert_eq!(all_combinations(&[1, 1, 1], 0, 1), Vec::<Vec<usize>>::new());
    assert_eq!(all_combinations(&[1, 1, 1], 4, 0), Vec::<Vec<usize>>::new());
    assert_eq!(all_combinations(&[], 0, 0), vec![Vec::<usize>::new()]);
}

#[test]
fn combinations_with_a_weight_bound() {
    assert_eq!(
        all_combinations(&[5, 3, 2, 1], 2, 6),
        vec![vec![0, 1], vec![0, 2], vec![0, 3]]
    );
    assert_eq!(
        all_combinations(&[5, 3, 2, 1], 2, 5),
        vec![vec![0, 1], vec![0, 2], vec![0, 3], vec![1, 2]]
    );
    assert_eq!(all_combinations(&[5, 3, 2, 1], 2, 9), Vec::<Vec<usize>>::new());
    assert_eq!(all_combinations(&[5, 3, 2, 1], 4, 11), vec![vec![0, 1, 2, 3]]);
    assert_eq!(all_combinations(&[5, 3, 2, 1], 4, 12), Vec::<Vec<usize>>::new());
    assert_eq!(
        all_combinations(&[2, 2, 1, 1], 3, 5),
        vec![vec![0, 1, 2], vec![0, 1, 3]]
    );
}

#[test]
fn move_forward_takes_the_first_element_that_can_move() {
    let weights = [5, 3, 2, 1];
    let mut c = vec![0, 1];
    assert_eq!(move_fw_combination(&mut c, &weights, 3), Ok(0));
    assert_eq!(c, vec![1, 2]);
    assert_eq!(move_fw_combination(&mut c, &weights, 3), Ok(0));
    assert_eq!(c, vec![2, 3]);
    assert_eq!(move_fw_combination(&mut c, &weights, 3), Err(()));
    assert_eq!(c, vec![2, 3]);
    let mut c = vec![0, 1];
    assert_eq!(move_fw_combination(&mut c, &weights, 6), Ok(1));
    assert_eq!(c, vec![0, 2]);
    assert_eq!(move_fw_combination(&mut c, &weights, 6), Ok(1));
    assert_eq!(c, vec![0, 3]);
    assert_eq!(move_fw_combination(&mut c, &weights, 6), Err(()));
}

#[test]
fn last_combination_is_where_moving_forward_ends() {
    assert_eq!(last_combination(2, &[5, 3, 2, 1], 3), vec![2, 3]);
    assert_eq!(last_combination(2, &[5, 3, 2, 1], 6), vec![0, 3]);
    assert_eq!(last_combination(2, &[5, 3, 2, 1], 100), vec![0, 1]);
    assert_eq!(last_combination(5, &[5, 3, 2, 1], 0), vec![0, 1, 2, 3, 4]);
    assert_eq!(last_combination(0, &[5, 3, 2, 1], 0), Vec::<usize>::new());
}
