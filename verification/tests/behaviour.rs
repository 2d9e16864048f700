use std::collections::VecDeque;

use min_turns::dijkstra_speed::Solver1;
use min_turns::{solver_factory, DimType, NodeAdr, RankType, Solver};
use rand::Rng;

fn maze(arr: &[&[u8]]) -> Solver1 {
    let mut solv = Solver1::new_rc(arr.len() as DimType, arr[0].len() as DimType).unwrap();
    for (r, row) in arr.iter().enumerate() {
        for (c, v) in row.iter().enumerate() {
            if *v == 1 {
                solv.set_passage(r as DimType, c as DimType);
            }
        }
    }
    solv
}

fn count_turns(path: &VecDeque<NodeAdr>) -> RankType {
    let mut turns = 0;
    for i in 2..path.len() {
        let (a, b, c) = (path[i - 2], path[i - 1], path[i]);
        let straight = (a.0 == b.0 && b.0 == c.0) || (a.1 == b.1 && b.1 == c.1);
        if !straight {
            turns += 1;
        }
    }
    turns
}

const BOOK: [&[u8]; 8] = [
    &[0, 0, 0, 0, 0, 0, 0, 0, 0],
    &[1, 1, 1, 1, 0, 1, 1, 1, 0],
    &[0, 1, 0, 1, 0, 1, 0, 1, 0],
    &[0, 1, 0, 1, 1, 1, 0, 1, 0],
    &[0, 1, 0, 0, 0, 0, 0, 1, 0],
    &[0, 1, 1, 1, 1, 0, 0, 1, 0],
    &[0, 1, 0, 0, 1, 1, 1, 1, 1],
    &[0, 0, 0, 0, 0, 0, 0, 0, 0],
];

#[test]
fn too_small_dimensions_are_refused() {
    assert_eq!(Solver1::new_rc(1, 5).err(), Some("Too small dimensions"));
    assert_eq!(Solver1::new_rc(5, 0).err(), Some("Too small dimensions"));
    assert_eq!(Solver1::new_rc(0, 0).err(), Some("Too small dimensions"));
    assert!(solver_factory(1, 1).is_err());
    assert!(Solver1::new_rc(2, 2).is_ok());
}

#[test]
fn largest_dimensions_are_accepted() {
    // the half sum of two coordinates always fits a number of turns
    assert!((DimType::MAX as u64 + DimType::MAX as u64) / 2 <= RankType::MAX as u64);
    assert!(Solver1::new_rc(DimType::MAX, 2).is_ok());
    assert!(Solver1::new_rc(2, DimType::MAX).is_ok());
}

#[test]
fn new_maze_is_blocked_everywhere() {
    let solv = Solver1::new_rc(3, 4).unwrap();
    for r in 0..3 {
        for c in 0..4 {
            assert!(!solv.is_passage(r, c));
        }
    }
    assert!(!solv.is_valid());
}

#[test]
fn set_passage_opens_one_cell_and_keeps_the_others() {
    let mut solv = Solver1::new_rc(3, 4).unwrap();
    solv.set_passage(2, 3);
    solv.set_passage(0, 0);
    solv.set_passage(2, 3);
    for r in 0..3 {
        for c in 0..4 {
            assert_eq!(solv.is_passage(r, c), (r, c) == (2, 3) || (r, c) == (0, 0));
        }
    }
}

#[test]
fn idx_is_row_major() {
    let solv = Solver1::new_rc(4, 5).unwrap();
    assert_eq!(solv.idx(0, 0), 0);
    assert_eq!(solv.idx(0, 4), 4);
    assert_eq!(solv.idx(1, 0), 5);
    assert_eq!(solv.idx(3, 4), 19);
    let wide = Solver1::new_rc(2, DimType::MAX).unwrap();
    assert_eq!(wide.idx(1, 65534), 65535 + 65534);
}

#[test]
fn rc_past_the_last_cell() {
    let solv = Solver1::new_rc(4, 5).unwrap();
    assert_eq!(solv.rc(19), (3, 4));
    assert_eq!(solv.rc(23), (4, 3));
    let small = Solver1::new_rc(2, 2).unwrap();
    // row 32768 * 2 + 1 = 65537 is cut down to a coordinate
    assert_eq!(small.rc(2 * 65537 + 1), (1, 1));
}

#[test]
fn validity_needs_both_ends() {
    let mut solv = Solver1::new_rc(4, 5).unwrap();
    assert!(!solv.is_valid());
    solv.set_passage(1, 0);
    assert!(!solv.is_valid());
    assert_eq!(solv.solve(true), None);
    assert_eq!(solv.solve(false), None);
    solv.set_passage(2, 4);
    assert!(solv.is_valid());

    let mut only_end = Solver1::new_rc(4, 5).unwrap();
    only_end.set_passage(2, 4);
    only_end.set_passage(1, 1);
    assert!(!only_end.is_valid());
    assert_eq!(only_end.solve(true), None);
    assert_eq!(only_end.solve(false), None);
}

#[test]
fn blocked_entrance_in_a_connected_maze() {
    // all cells passable except the entrance
    let mut solv = Solver1::new_rc(3, 3).unwrap();
    for r in 0..3 {
        for c in 0..3 {
            if (r, c) != (1, 0) {
                solv.set_passage(r, c);
            }
        }
    }
    assert!(!solv.is_valid());
    assert_eq!(solv.solve(true), None);
}

#[test]
fn smallest_maze() {
    // entrance (1, 0), exit (0, 1)
    let solv = maze(&[&[0, 1], &[1, 1]]);
    assert_eq!(solv.solve(true), Some((1, VecDeque::from(vec![(1, 0), (1, 1), (0, 1)]))));
    let other = maze(&[&[1, 1], &[1, 0]]);
    assert_eq!(other.solve(true), Some((1, VecDeque::from(vec![(1, 0), (0, 0), (0, 1)]))));
    let none = maze(&[&[0, 1], &[1, 0]]);
    assert!(none.is_valid());
    assert_eq!(none.solve(true), None);
}

#[test]
fn straight_corridor_has_no_turn() {
    let solv = maze(&[&[0, 0, 0, 0], &[1, 1, 1, 1], &[0, 0, 0, 0]]);
    assert_eq!(
        solv.solve(true),
        Some((0, VecDeque::from(vec![(1, 0), (1, 1), (1, 2), (1, 3)])))
    );
}

#[test]
fn first_move_is_free_in_every_direction() {
    // entrance (1, 0), exit (2, 1): down, then right
    let solv = maze(&[&[0, 0], &[1, 0], &[1, 1], &[0, 0]]);
    assert_eq!(solv.solve(true), Some((1, VecDeque::from(vec![(1, 0), (2, 0), (2, 1)]))));
}

#[test]
fn solve_is_repeatable() {
    let solv = maze(&BOOK);
    let first = solv.solve(true);
    let second = solv.solve(true);
    assert_eq!(first, second);
    let rank_only = solv.solve(false);
    assert_eq!(rank_only.map(|s| s.0), first.map(|s| s.0));
}

#[test]
fn rank_only_answer_has_no_route() {
    let solv = maze(&BOOK);
    assert_eq!(solv.solve(false), Some((4, VecDeque::new())));
}

#[test]
fn reported_route_has_the_reported_turns() {
    let solv = maze(&BOOK);
    let (rank, path) = solv.solve(true).unwrap();
    assert_eq!(count_turns(&path), rank);
    assert_eq!(path.front(), Some(&(1, 0)));
    assert_eq!(path.back(), Some(&(6, 8)));
    for i in 1..path.len() {
        let (a, b) = (path[i - 1], path[i]);
        let step = (a.0 as i32 - b.0 as i32).abs() + (a.1 as i32 - b.1 as i32).abs();
        assert_eq!(step, 1);
        assert!(solv.is_passage(b.0, b.1));
    }
}

#[test]
fn solve_and_drop_answers_like_solve() {
    let solv = maze(&BOOK);
    let expected = solv.solve(true);
    assert_eq!(solv.solve_and_drop(true), expected);
    assert_eq!(maze(&BOOK).solve_and_drop(false), Some((4, VecDeque::new())));
}

#[test]
fn factory_solver_answers_like_solver1() {
    let mut a = Solver1::new_rc(8, 9).unwrap();
    let mut b = solver_factory(8, 9).unwrap();
    for (r, row) in BOOK.iter().enumerate() {
        for (c, v) in row.iter().enumerate() {
            if *v == 1 {
                a.set_passage(r as DimType, c as DimType);
                b.set_passage(r as DimType, c as DimType);
            }
        }
    }
    assert_eq!(a.is_valid(), b.is_valid());
    assert_eq!(a.solve(true), b.solve(true));
    assert_eq!(a.solve(false), b.solve(false));
}

#[test]
fn disconnected_regions_give_no_answer() {
    let solv = maze(&[
        &[0, 0, 0, 0, 0],
        &[1, 1, 0, 1, 1],
        &[1, 1, 0, 1, 1],
        &[0, 0, 0, 0, 0],
    ]);
    assert!(solv.is_valid());
    assert_eq!(solv.solve(true), None);
    assert_eq!(solv.solve(false), None);
}

#[test]
fn one_of_two_routes_with_equally_few_turns() {
    // two routes with one turn each: along row 1 then down, or down then
    // along row 2; the exit is settled first as entered along its row
    let solv = maze(&[&[0, 0, 0], &[1, 1, 1], &[1, 1, 1], &[0, 0, 0]]);
    assert_eq!(
        solv.solve(true),
        Some((1, VecDeque::from(vec![(1, 0), (2, 0), (2, 1), (2, 2)])))
    );
}

#[test]
fn fewest_turns_where_two_lines_meet() {
    // (2, 2) is reached with one turn both from above and along row 2;
    // only along row 2 does the way to the exit go on without a turn
    let solv = maze(&[&[0, 0, 0, 0], &[1, 1, 1, 0], &[1, 1, 1, 1], &[0, 0, 0, 0]]);
    assert_eq!(
        solv.solve(true),
        Some((1, VecDeque::from(vec![(1, 0), (2, 0), (2, 1), (2, 2), (2, 3)])))
    );
    assert_eq!(solv.solve(false), Some((1, VecDeque::new())));
}

#[test]
fn fewest_turns_behind_a_corner() {
    let solv = maze(&[&[0, 0, 0], &[1, 1, 0], &[1, 1, 1], &[0, 0, 0]]);
    assert_eq!(solv.solve(false), Some((1, VecDeque::new())));
    assert_eq!(
        solv.solve(true),
        Some((1, VecDeque::from(vec![(1, 0), (2, 0), (2, 1), (2, 2)])))
    );
}

#[test]
fn route_through_a_cell_has_no_fewer_turns() {
    // the maze is cut at the cell (5, 4): one maze ends there, one starts there
    let whole = maze(&BOOK).solve(true).unwrap();
    let upper: Vec<&[u8]> = BOOK[0..7].iter().map(|row| &row[0..5]).collect();
    let lower: Vec<&[u8]> = BOOK[4..8].iter().map(|row| &row[4..9]).collect();
    let first = maze(&upper).solve(true).unwrap();
    let second = maze(&lower).solve(true).unwrap();
    assert_eq!(first.0, 2);
    assert_eq!(second.0, 1);
    assert_eq!(first.1.back(), Some(&(5, 4)));
    assert_eq!(second.1.front(), Some(&(1, 0)));
    // the first part arrives along row 5, the second leaves along column 0
    let before = first.1[first.1.len() - 2];
    let after = second.1[1];
    assert_eq!(before, (5, 3));
    assert_eq!(after, (2, 0));
    assert_eq!(whole.0, first.0 + second.0 + 1);
}

#[test]
fn many_turns_on_a_staircase() {
    // a staircase from (1, 0) down to the exit turns at every cell but the ends
    let n: DimType = 40;
    let mut solv = Solver1::new_rc(n + 1, n).unwrap();
    for i in 0..n {
        solv.set_passage(i + 1, i);
        if i + 1 < n {
            solv.set_passage(i + 1, i + 1);
        }
    }
    // exit is (n - 1, n - 1); the stairs reach (n, n - 1) from (n - 1, n - 1)
    assert!(solv.is_valid());
    let (rank, path) = solv.solve(true).unwrap();
    assert_eq!(path.len(), 2 * (n as usize - 1));
    assert_eq!(rank as usize, path.len() - 2);
    assert_eq!(count_turns(&path), rank);
}

/// The least number of turns by a search of its own: over cells and the four
/// directions of arrival, level by level.
fn fewest_by_levels(arr: &[Vec<u8>]) -> Option<RankType> {
    let rows = arr.len() as i32;
    let cols = arr[0].len() as i32;
    let start = (1i32, 0i32);
    let end = (rows - 2, cols - 1);
    if arr[1][0] != 1 || arr[end.0 as usize][end.1 as usize] != 1 {
        return None;
    }
    let dirs = [(-1i32, 0i32), (0, 1), (1, 0), (0, -1)];
    let open = |r: i32, c: i32| r >= 0 && c >= 0 && r < rows && c < cols && arr[r as usize][c as usize] == 1;
    let mut best = vec![vec![[RankType::MAX; 4]; cols as usize]; rows as usize];
    let mut level: Vec<(i32, i32, usize)> = Vec::new();
    for (d, (dr, dc)) in dirs.iter().enumerate() {
        if open(start.0 + dr, start.1 + dc) {
            best[(start.0 + dr) as usize][(start.1 + dc) as usize][d] = 0;
            level.push((start.0 + dr, start.1 + dc, d));
        }
    }
    let mut turns: RankType = 0;
    while !level.is_empty() {
        // close the level under moves that keep the direction
        let mut i = 0;
        while i < level.len() {
            let (r, c, d) = level[i];
            let (nr, nc) = (r + dirs[d].0, c + dirs[d].1);
            if open(nr, nc) && best[nr as usize][nc as usize][d] > turns {
                best[nr as usize][nc as usize][d] = turns;
                level.push((nr, nc, d));
            }
            i += 1;
        }
        if level.iter().any(|(r, c, _)| (*r, *c) == end) {
            return Some(turns);
        }
        let mut next = Vec::new();
        for (r, c, d) in level.iter() {
            for (e, (dr, dc)) in dirs.iter().enumerate() {
                // a turn leaves the line; going back on it is no turn
                if e % 2 == d % 2 {
                    if e != *d {
                        let (nr, nc) = (r + dr, c + dc);
                        if open(nr, nc) && best[nr as usize][nc as usize][e] > turns {
                            best[nr as usize][nc as usize][e] = turns;
                        }
                    }
                    continue;
                }
                let (nr, nc) = (r + dr, c + dc);
                if open(nr, nc) && best[nr as usize][nc as usize][e] > turns + 1 {
                    best[nr as usize][nc as usize][e] = turns + 1;
                    next.push((nr, nc, e));
                }
            }
        }
        level = next;
        turns += 1;
    }
    None
}

#[test]
fn answer_is_the_fewest_turns_on_random_mazes() {
    let mut rng = rand::thread_rng();
    for round in 0..400 {
        let rows: usize = rng.gen_range(2, 14);
        let cols: usize = rng.gen_range(2, 14);
        let fill: u32 = if round % 2 == 0 { 60 } else { 80 };
        let mut arr: Vec<Vec<u8>> = (0..rows)
            .map(|_| (0..cols).map(|_| if rng.gen_range(0, 101) <= fill { 1 } else { 0 }).collect())
            .collect();
        arr[1][0] = 1;
        arr[rows - 2][cols - 1] = 1;
        let rows_ref: Vec<&[u8]> = arr.iter().map(|row| row.as_slice()).collect();
        let solv = maze(&rows_ref);
        let answer = solv.solve(true);
        assert_eq!(answer.as_ref().map(|a| a.0), fewest_by_levels(&arr), "maze {:?}", arr);
        if let Some((rank, path)) = answer {
            assert_eq!(count_turns(&path), rank, "maze {:?}", arr);
            assert_eq!(path.front(), Some(&(1, 0)));
            assert_eq!(path.back(), Some(&(rows as DimType - 2, cols as DimType - 1)));
            for i in 0..path.len() {
                assert!(solv.is_passage(path[i].0, path[i].1));
                for j in 0..i {
                    assert_ne!(path[i], path[j], "maze {:?}", arr);
                }
            }
        }
    }
}
