use rand::SeedableRng;
use str8ts_solver::board::{HumanStr8ts, SimpleStr8ts};
use str8ts_solver::generator::{
    best_spread_idx, can_place, dist2_count, generate_from_pattern, to_puzzle_string, to_solution_string, vn_sum,
    white_connected, Difficulty,
};
use str8ts_solver::human::{puzzle_hardness, solve_human};
use str8ts_solver::sat::{puzzle_status_sat, solve_sat, SatPuzzleStatus};

const SMALL_TEST_PUZZLE: &str = "##2..#9..#....h6.#52..f...#..........#a5..##.........6#...e..3.h..i....#...#.2.d#";

fn pattern_of(board: &str) -> [[u8; 9]; 9] {
    let s = SimpleStr8ts::from_str(board).unwrap();
    let mut b = [[0u8; 9]; 9];
    for r in 0..9 {
        for c in 0..9 {
            b[r][c] = s.is_black[r][c] as u8;
        }
    }
    b
}

#[test]
fn difficulty_names_parse_in_any_case() {
    assert_eq!(Difficulty::from_str("easy"), Some(Difficulty::Easy));
    assert_eq!(Difficulty::from_str("EASY"), Some(Difficulty::Easy));
    assert_eq!(Difficulty::from_str("Diabolic"), Some(Difficulty::Diabolic));
    assert_eq!(Difficulty::from_str("eXtReMe"), Some(Difficulty::Extreme));
    assert_eq!(Difficulty::from_str("impossible"), None);
    assert_eq!(Difficulty::from_str(""), None);
    assert_eq!(Difficulty::from_str("easy "), None);
    for d in [
        Difficulty::Easy,
        Difficulty::Medium,
        Difficulty::Hard,
        Difficulty::Diabolic,
        Difficulty::Cruel,
        Difficulty::Extreme,
    ] {
        assert_eq!(Difficulty::from_str(d.name()), Some(d));
        assert!(d.min_hardness() < d.max_hardness());
    }
}

#[test]
fn difficulty_bounds() {
    assert_eq!(Difficulty::Easy.max_hardness(), 15);
    assert_eq!(Difficulty::Medium.max_hardness(), 22);
    assert_eq!(Difficulty::Hard.max_hardness(), 30);
    assert_eq!(Difficulty::Diabolic.max_hardness(), 38);
    assert_eq!(Difficulty::Cruel.max_hardness(), 50);
    assert_eq!(Difficulty::Extreme.max_hardness(), 99);
    assert_eq!(Difficulty::Easy.min_hardness(), 5);
    assert_eq!(Difficulty::Extreme.min_hardness(), 70);
    assert_eq!(Difficulty::Cruel.name(), "cruel");
}

#[test]
fn neighbour_counts() {
    let mut b = [[0u8; 9]; 9];
    b[0][1] = 1;
    b[1][0] = 1;
    b[2][2] = 1;
    b[4][4] = 1;
    assert_eq!(vn_sum(&b, 0, 0), 2);
    assert_eq!(vn_sum(&b, 1, 1), 2);
    assert_eq!(vn_sum(&b, 8, 8), 0);
    assert_eq!(dist2_count(&b, 2, 0), 1); // (2, 2)
    assert_eq!(dist2_count(&b, 2, 4), 2); // (2, 2) and (4, 4)
    assert_eq!(dist2_count(&b, 4, 2), 2); // (2, 2) and (4, 4)
    assert_eq!(dist2_count(&b, 0, 0), 0);
}

#[test]
fn black_cells_avoid_blocks_and_enclosures() {
    let mut b = [[0u8; 9]; 9];
    b[0][0] = 1;
    b[0][1] = 1;
    b[1][0] = 1;
    let before = b;
    // (1, 1) would complete an all-black 2x2 block
    assert!(!can_place(&mut b, 1, 1));
    assert_eq!(b, before);
    // a cell whose four neighbours would all be black
    let mut e = [[0u8; 9]; 9];
    e[3][4] = 1;
    e[5][4] = 1;
    e[4][3] = 1;
    assert!(!can_place(&mut e, 4, 5));
    assert!(can_place(&mut e, 6, 6));
    // only neighbours on the board count: a corner is never enclosed
    let mut f = [[0u8; 9]; 9];
    f[0][1] = 1;
    assert!(can_place(&mut f, 1, 0));
}

#[test]
fn white_cells_connected_or_not() {
    assert!(white_connected(&[[0u8; 9]; 9]));
    assert!(white_connected(&[[1u8; 9]; 9]));
    assert!(white_connected(&pattern_of(SMALL_TEST_PUZZLE)));
    // a black column splits the board
    let mut b = [[0u8; 9]; 9];
    for r in 0..9 {
        b[r][4] = 1;
    }
    assert!(!white_connected(&b));
    // an isolated white corner
    let mut c = [[0u8; 9]; 9];
    c[0][1] = 1;
    c[1][0] = 1;
    assert!(!white_connected(&c));
}

#[test]
fn puzzle_and_solution_texts() {
    let mut black = [[0u8; 9]; 9];
    let mut numbers = [[0u8; 9]; 9];
    let mut solution = [[0u8; 9]; 9];
    black[0][0] = 1;
    numbers[0][0] = 3; // black clue 3 -> 'c'
    black[0][1] = 1; // plain black -> '#'
    numbers[0][2] = 7; // given
    for r in 0..9 {
        for c in 0..9 {
            if black[r][c] == 0 {
                solution[r][c] = ((r * 3 + r / 3 + c) % 9 + 1) as u8;
            }
        }
    }
    let p = to_puzzle_string(&black, &numbers);
    assert_eq!(p.len(), 81);
    assert_eq!(&p[0..4], "c#7.");
    let s = to_solution_string(&black, &numbers, &solution);
    assert_eq!(s.len(), 81);
    assert_eq!(&s[0..2], "c#");
    assert_eq!(&s[2..3], &format!("{}", solution[0][2]));
    assert!(!s.contains('.'));
}

#[test]
fn spread_picks_the_farthest_cell() {
    let mut numbers = [[0u8; 9]; 9];
    assert_eq!(best_spread_idx(&[(3, 3), (8, 8)], &numbers), 0);
    numbers[0][0] = 5;
    assert_eq!(best_spread_idx(&[(1, 1), (8, 8), (2, 2)], &numbers), 1);
    // ties go to the last
    assert_eq!(best_spread_idx(&[(0, 4), (4, 0), (2, 2)], &numbers), 2);
    assert_eq!(best_spread_idx(&[], &numbers), 0);
}

#[test]
fn generated_puzzles_are_unique_and_match_their_solution() {
    let black = pattern_of(SMALL_TEST_PUZZLE);
    let mut rng = rand::rngs::StdRng::seed_from_u64(7);
    let mut found = false;
    for _ in 0..3 {
        let res = generate_from_pattern(&mut rng, &black, Difficulty::Extreme).unwrap();
        if let Some((puzzle, solution)) = res {
            found = true;
            let p = SimpleStr8ts::from_str(&puzzle).unwrap();
            let s = SimpleStr8ts::from_str(&solution).unwrap();
            assert_eq!(p.is_black, s.is_black);
            for r in 0..9 {
                for c in 0..9 {
                    assert_eq!(p.is_black[r][c], black[r][c] == 1);
                    if !p.is_black[r][c] {
                        assert!((1..=9).contains(&s.numbers[r][c]));
                        if p.numbers[r][c] != 0 {
                            assert_eq!(p.numbers[r][c], s.numbers[r][c]);
                        }
                    }
                }
            }
            assert_eq!(puzzle_status_sat(&p), SatPuzzleStatus::Unique);
            // the one solution is the one returned
            let mut q = p.clone();
            assert!(solve_sat(&mut q));
            assert_eq!(q.numbers, s.numbers);
            let mut h = HumanStr8ts::from_str(&puzzle).unwrap();
            let rating = puzzle_hardness(&solve_human(&mut h).move_hardnesses);
            assert!(rating >= 1 && rating <= Difficulty::Extreme.max_hardness());
            break;
        }
    }
    assert!(found);
}
