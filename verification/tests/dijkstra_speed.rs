use std::collections::VecDeque;

use min_turns::dijkstra_speed::{NodeIter, Solver1};
use min_turns::{DimType, NodeAdr, Solver};
use rand::Rng;

fn solver_from(arr: &[Vec<u8>]) -> Solver1 {
    let mut solv = Solver1::new_rc(arr.len() as DimType, arr[0].len() as DimType).unwrap();
    for (r, row) in arr.iter().enumerate() {
        for (c, v) in row.iter().enumerate() {
            if *v == 1 {
                solv.set_passage(r as DimType, c as DimType);
            }
        }
    }
    solv
}

fn collect(mut it: NodeIter<'_>) -> Vec<NodeAdr> {
    let mut all = Vec::new();
    while let Some(node) = it.next() {
        all.push(node);
    }
    all
}

fn random_array(rng: &mut impl Rng, rows: usize, cols: usize) -> Vec<Vec<u32>> {
    (0..rows).map(|_| (0..cols).map(|_| rng.gen_range(0, 101)).collect()).collect()
}

fn init_from_rand_array(solv: &mut impl Solver, arr: &[Vec<u32>], frac: u32) {
    let dim = [arr.len(), arr[0].len()];
    for (r, row) in arr.iter().enumerate() {
        for (c, v) in row.iter().enumerate() {
            if *v <= frac {
                solv.set_passage(r as DimType, c as DimType);
            }
        }
    }
    solv.set_passage(1, 0);
    solv.set_passage(dim[0] as DimType - 2, dim[1] as DimType - 1);
    assert!(solv.is_valid());
}

fn slice(arr: &[Vec<u32>], rows: std::ops::Range<usize>, cols: std::ops::Range<usize>) -> Vec<Vec<u32>> {
    arr[rows].iter().map(|row| row[cols.clone()].to_vec()).collect()
}

fn book() -> Vec<Vec<u8>> {
    vec![
        vec![0, 0, 0, 0, 0, 0, 0, 0, 0u8],
        vec![1, 1, 1, 1, 0, 1, 1, 1, 0u8],
        vec![0, 1, 0, 1, 0, 1, 0, 1, 0u8],
        vec![0, 1, 0, 1, 1, 1, 0, 1, 0u8],
        vec![0, 1, 0, 0, 0, 0, 0, 1, 0u8],
        vec![0, 1, 1, 1, 1, 0, 0, 1, 0u8],
        vec![0, 1, 0, 0, 1, 1, 1, 1, 1u8],
        vec![0, 0, 0, 0, 0, 0, 0, 0, 0u8],
    ]
}

#[test]
fn coordinates_conversion() {
    let solv = Solver1::new_rc(4, 5).unwrap();
    assert_eq!(solv.rc(solv.idx(0, 3)), (0, 3));
    assert_eq!(solv.rc(solv.idx(2, 0)), (2, 0));
    assert_eq!(solv.rc(solv.idx(2, 3)), (2, 3));
    assert_eq!(solv.rc(solv.idx(3, 4)), (3, 4));
}

#[test]
fn passage() {
    let mut solv = Solver1::new_rc(4, 5).unwrap();
    solv.set_passage(2, 3);
    assert_eq!(solv.is_passage(2, 3), true);
    assert_eq!(solv.is_passage(1, 3), false);
}

#[test]
fn neighbors() {
    let arr = vec![
        vec![0, 0, 1, 0, 0u8],
        vec![1, 1, 1, 1, 0u8],
        vec![0, 1, 1, 0, 0u8],
        vec![0, 0, 0, 1, 1u8],
    ];
    let adim = [arr.len(), arr[0].len()];
    assert_eq!(adim, [4, 5]);
    let solv = solver_from(&arr);
    assert_eq!(collect(solv.neighbors((1, 1))), vec![(1, 2), (2, 1), (1, 0)]);
    assert_eq!(collect(solv.neighbors((1, 2))), vec![(0, 2), (1, 3), (2, 2), (1, 1)]);
    assert_eq!(collect(solv.neighbors((0, 2))), vec![(1, 2)]);
    assert_eq!(collect(solv.neighbors((3, 3))), vec![(3, 4)]);
    assert_eq!(collect(solv.neighbors((3, 0))), vec![]);
}

#[test]
fn solve_book() {
    let arr = book();
    let adim = [arr.len(), arr[0].len()];
    assert_eq!(adim, [8, 9]);
    let solv = solver_from(&arr);
    assert_eq!(solv.is_valid(), true);
    assert_eq!(
        format!("{:?}", solv.solve(true).unwrap()),
        format!(
            "{:?}",
            (
                4,
                vec![
                    (1, 0),
                    (1, 1),
                    (2, 1),
                    (3, 1),
                    (4, 1),
                    (5, 1),
                    (5, 2),
                    (5, 3),
                    (5, 4),
                    (6, 4),
                    (6, 5),
                    (6, 6),
                    (6, 7),
                    (6, 8)
                ]
            )
        )
    );
}

#[test]
fn solve_cycle() {
    let arr = vec![
        vec![0, 0, 0, 0, 0, 0, 0, 0, 0u8],
        vec![1, 1, 1, 1, 0, 1, 1, 1, 0u8],
        vec![0, 1, 0, 1, 0, 1, 0, 1, 0u8],
        vec![0, 1, 0, 1, 1, 1, 0, 1, 0u8],
        vec![0, 1, 0, 1, 0, 0, 0, 1, 0u8],
        vec![0, 1, 1, 1, 1, 0, 0, 1, 0u8],
        vec![0, 1, 0, 0, 1, 1, 1, 1, 1u8],
        vec![0, 0, 0, 0, 0, 0, 0, 0, 0u8],
    ];
    let adim = [arr.len(), arr[0].len()];
    assert_eq!(adim, [8, 9]);
    let solv = solver_from(&arr);
    assert_eq!(solv.is_valid(), true);
    assert_eq!(solv.solve(false), Some((4, VecDeque::new())));
}

#[test]
fn solve_no_solution() {
    let arr = vec![
        vec![0, 0, 0, 0, 0, 0, 0, 0, 0u8],
        vec![1, 1, 1, 1, 0, 1, 1, 1, 0u8],
        vec![0, 1, 0, 1, 0, 1, 0, 1, 0u8],
        vec![0, 1, 0, 1, 1, 1, 0, 1, 0u8],
        vec![0, 1, 0, 1, 0, 0, 0, 0, 0u8],
        vec![0, 1, 1, 1, 0, 0, 0, 1, 0u8],
        vec![0, 1, 0, 0, 1, 1, 1, 1, 1u8],
        vec![0, 0, 0, 0, 0, 0, 0, 0, 0u8],
    ];
    let adim = [arr.len(), arr[0].len()];
    assert_eq!(adim, [8, 9]);
    let solv = solver_from(&arr);
    assert_eq!(solv.is_valid(), true);
    assert_eq!(solv.solve(false), None);
}

#[test]
fn rand_check() {
    let mut rng = rand::thread_rng();
    let r_dim: DimType = rng.gen_range(20, 40);
    let c_dim: DimType = rng.gen_range(20, 40);
    let r_dim_u = r_dim as usize;
    let c_dim_u = c_dim as usize;
    for _ in 1..10 {
        let arr = random_array(&mut rng, r_dim_u, c_dim_u);
        let mut solv = Solver1::new_rc(r_dim, c_dim).unwrap();
        init_from_rand_array(&mut solv, &arr, 80);
        if let Some(solution) = solv.solve(true) {
            let mut test_done = false;
            for _ in 0..10 {
                let r_test: DimType = rng.gen_range(5, r_dim - 5);
                let c_test: DimType = rng.gen_range(5, c_dim - 5);
                let r_test_u = r_test as usize;
                let c_test_u = c_test as usize;
                if !solv.is_passage(r_test - 1, c_test - 1) {
                    continue;
                }
                if solution.1.contains(&(r_test - 1, c_test - 1)) {
                    continue;
                }

                let mut solv1 = Solver1::new_rc(r_test + 1, c_test).unwrap();
                init_from_rand_array(&mut solv1, &slice(&arr, 0..r_test_u + 1, 0..c_test_u), 80);
                let solution1 = solv1.solve(true);
                if solution1.is_none() {
                    continue;
                }
                let mut solution1 = solution1.unwrap();
                let node1b = solution1.1.pop_back().unwrap();
                let node1bb = solution1.1.pop_back().unwrap();

                let mut solv2 = Solver1::new_rc(r_dim - r_test + 2, c_dim - c_test + 1).unwrap();
                init_from_rand_array(
                    &mut solv2,
                    &slice(&arr, r_test_u - 2..r_dim_u, c_test_u - 1..c_dim_u),
                    80,
                );
                let solution2 = solv2.solve(true);
                if solution2.is_none() {
                    continue;
                }
                let mut solution2 = solution2.unwrap();
                let node2f = solution2.1.pop_front().unwrap();
                let node2ff = solution2.1.pop_front().unwrap();

                assert_eq!(node1b, (r_test - 1, c_test - 1));

                let turn_at_test = if node1b.0 == node1bb.0 && node2f.0 == node2ff.0 {
                    0
                } else if node1b.1 == node1bb.1 && node2f.1 == node2ff.1 {
                    0
                } else {
                    1
                };

                // The route found has no more turns than the one through the chosen cell.
                assert!(solution.0 <= solution1.0 + solution2.0 + turn_at_test);
                test_done = true;
                break;
            }
            if test_done {
                break;
            }
        }
    }
}
