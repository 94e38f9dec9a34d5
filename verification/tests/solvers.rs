use str8ts_solver::backtrack::{count_solutions, solve_simple};
use str8ts_solver::board::SimpleStr8ts;
use str8ts_solver::hopcroft_karp::{has_perfect_matching, hopcroft_karp_size};
use str8ts_solver::sat::{puzzle_status_sat, solve_sat, SatPuzzleStatus};

const SMALL_TEST_PUZZLE: &str = "##2..#9..#....h6.#52..f...#..........#a5..##.........6#...e..3.h..i....#...#.2.d#";

/// Checks the rules of Str8ts on a filled board.
fn is_solution(s: &SimpleStr8ts, puzzle: &SimpleStr8ts) -> bool {
    for r in 0..9 {
        for c in 0..9 {
            if puzzle.numbers[r][c] != 0 && s.numbers[r][c] != puzzle.numbers[r][c] {
                return false;
            }
            if !s.is_black[r][c] && !(1..=9).contains(&s.numbers[r][c]) {
                return false;
            }
        }
    }
    for i in 0..9 {
        for j in 0..9 {
            for k in 0..9 {
                if j != k {
                    if s.numbers[i][j] != 0 && s.numbers[i][j] == s.numbers[i][k] {
                        return false;
                    }
                    if s.numbers[j][i] != 0 && s.numbers[j][i] == s.numbers[k][i] {
                        return false;
                    }
                }
            }
        }
    }
    // every compartment is a straight
    for horizontal in [true, false] {
        for line in 0..9 {
            let mut k = 0;
            while k < 9 {
                let cell = |p: usize| if horizontal { (line, p) } else { (p, line) };
                let (r, c) = cell(k);
                if s.is_black[r][c] {
                    k += 1;
                    continue;
                }
                let mut vals = Vec::new();
                while k < 9 {
                    let (r, c) = cell(k);
                    if s.is_black[r][c] {
                        break;
                    }
                    vals.push(s.numbers[r][c]);
                    k += 1;
                }
                let lo = *vals.iter().min().unwrap();
                let hi = *vals.iter().max().unwrap();
                if (hi - lo) as usize != vals.len() - 1 {
                    return false;
                }
            }
        }
    }
    true
}

#[test]
fn backtracking_solves_the_sample_puzzle() {
    let puzzle = SimpleStr8ts::from_str(SMALL_TEST_PUZZLE).unwrap();
    let mut s = puzzle.clone();
    assert!(solve_simple(&mut s));
    assert!(is_solution(&s, &puzzle));
}

#[test]
fn sat_solves_the_sample_puzzle() {
    let puzzle = SimpleStr8ts::from_str(SMALL_TEST_PUZZLE).unwrap();
    let mut s = puzzle.clone();
    assert!(solve_sat(&mut s));
    assert!(is_solution(&s, &puzzle));
}

#[test]
fn both_solvers_agree_on_a_unique_puzzle() {
    let puzzle = SimpleStr8ts::from_str(SMALL_TEST_PUZZLE).unwrap();
    let mut a = puzzle.clone();
    let mut b = puzzle.clone();
    assert!(solve_simple(&mut a));
    assert!(solve_sat(&mut b));
    assert_eq!(a.numbers, b.numbers);
    assert_eq!(a.solution_string(), b.solution_string());
}

#[test]
fn sample_puzzle_is_unique() {
    let puzzle = SimpleStr8ts::from_str(SMALL_TEST_PUZZLE).unwrap();
    assert_eq!(puzzle_status_sat(&puzzle), SatPuzzleStatus::Unique);
    let mut s = puzzle.clone();
    assert_eq!(count_solutions(&mut s, 2), 1);
    assert_eq!(s.numbers, puzzle.numbers);
}

#[test]
fn contradictory_givens_have_no_solution() {
    // two 5s in the first row
    let mut board = String::from(SMALL_TEST_PUZZLE);
    board.replace_range(3..5, "55");
    let puzzle = SimpleStr8ts::from_str(&board).unwrap();
    assert_eq!(puzzle_status_sat(&puzzle), SatPuzzleStatus::Invalid);
    let mut s = puzzle.clone();
    assert!(!solve_sat(&mut s));
    assert_eq!(s.numbers, puzzle.numbers);
    // the backtracking solver checks only the digits it places: it fills the
    // board around the clashing givens and keeps them
    let mut t = puzzle.clone();
    assert!(solve_simple(&mut t));
    assert_eq!(t.numbers[0][3], 5);
    assert_eq!(t.numbers[0][4], 5);
    assert!(t.numbers.iter().flatten().zip(t.is_black.iter().flatten()).all(|(&n, &b)| b || n != 0));
}

#[test]
fn an_empty_board_has_many_solutions() {
    let puzzle = SimpleStr8ts::from_str(&".".repeat(81)).unwrap();
    assert_eq!(puzzle_status_sat(&puzzle), SatPuzzleStatus::NonUnique);
}

#[test]
fn an_all_black_board_is_solved_as_it_is() {
    let puzzle = SimpleStr8ts::from_str(&"#".repeat(81)).unwrap();
    assert_eq!(puzzle_status_sat(&puzzle), SatPuzzleStatus::Unique);
    let mut s = puzzle.clone();
    assert!(solve_simple(&mut s));
    assert!(solve_sat(&mut s));
    assert_eq!(s.numbers, puzzle.numbers);
}

#[test]
fn count_solutions_stops_at_the_limit() {
    // one white compartment of two cells per row would have many solutions;
    // a nearly empty board: limit is respected
    let mut s = SimpleStr8ts::from_str(&".".repeat(81)).unwrap();
    let n = count_solutions(&mut s, 3);
    assert_eq!(n, 3);
    assert_eq!(s.numbers, [[0u8; 9]; 9]);
}

#[test]
fn matching_sizes() {
    let adj = vec![vec![0usize, 1], vec![0], vec![1, 2]];
    assert_eq!(hopcroft_karp_size(&adj, 3), 3);
    assert!(has_perfect_matching(&adj, 3));
    let adj = vec![vec![0usize], vec![0], vec![0, 1]];
    assert_eq!(hopcroft_karp_size(&adj, 2), 2);
    assert!(!has_perfect_matching(&adj, 2));
    let empty: Vec<Vec<usize>> = Vec::new();
    assert_eq!(hopcroft_karp_size(&empty, 0), 0);
    assert!(has_perfect_matching(&empty, 0));
    let lonely = vec![Vec::<usize>::new()];
    assert_eq!(hopcroft_karp_size(&lonely, 1), 0);
    assert!(!has_perfect_matching(&lonely, 1));
}

#[test]
fn matching_reroutes_to_reach_the_maximum() {
    // matching left 0 to right 0 first leaves left 1 stranded unless 0 moves to 1
    let adj = vec![vec![0usize, 1], vec![0]];
    assert_eq!(hopcroft_karp_size(&adj, 2), 2);
    assert!(has_perfect_matching(&adj, 2));
    // three left vertices sharing two right vertices
    let adj = vec![vec![0usize, 1], vec![0, 1], vec![1, 0]];
    assert_eq!(hopcroft_karp_size(&adj, 2), 2);
    assert!(!has_perfect_matching(&adj, 2));
    // a longer chain of reroutes
    let adj = vec![vec![0usize, 1], vec![1, 2], vec![2, 3], vec![0]];
    assert_eq!(hopcroft_karp_size(&adj, 4), 4);
}
