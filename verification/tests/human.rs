use str8ts_solver::backtrack::solve_simple;
use str8ts_solver::board::HumanStr8ts;
use str8ts_solver::hardness::{
    hidden_set_hardness, mindgap_hardness, naked_set_hardness, range_check_hardness, sea_creature_hardness,
    split_hardness, stranded_hardness,
};
use str8ts_solver::human::{
    apply_candidate_masks, apply_human_step, next_human_step, puzzle_hardness, solve_human, HumanStep, StrategyEffect,
};

const SMALL_TEST_PUZZLE: &str = "##2..#9..#....h6.#52..f...#..........#a5..##.........6#...e..3.h..i....#...#.2.d#";

#[test]
fn human_solver_finishes_the_sample_puzzle() {
    let mut s = HumanStr8ts::from_str(SMALL_TEST_PUZZLE).unwrap();
    let result = solve_human(&mut s);
    let moves = &result.move_hardnesses;
    assert!(!moves.is_empty());
    assert!(moves.iter().all(|&h| h > 0 && h < 100));
    // every white cell is solved, and the digits are those of the backtracking solver
    for r in 0..9 {
        for c in 0..9 {
            assert_eq!(s.solved[r][c], !s.is_black[r][c]);
        }
    }
    let mut simple = HumanStr8ts::from_str(SMALL_TEST_PUZZLE).unwrap().to_simple();
    assert!(solve_simple(&mut simple));
    assert_eq!(s.numbers, simple.numbers);
    let h = puzzle_hardness(moves);
    assert!(h > 0 && h < 100);
    assert_eq!(h, *moves.iter().max().unwrap());
}

#[test]
fn a_board_without_candidates_is_reported_as_invalid() {
    // pencil marks that leave a white cell without any candidate
    let mut s = HumanStr8ts::from_str(SMALL_TEST_PUZZLE).unwrap();
    let masks = {
        let mut m = [[0u16; 9]; 9];
        // (0, 3) is an empty white cell; keep only a digit it cannot hold
        m[0][3] = 1 << 1;
        m
    };
    apply_candidate_masks(&mut s, &masks);
    assert_eq!(s.candidates[0][3], 0);
    let result = solve_human(&mut s);
    assert_eq!(result.move_hardnesses, vec![-1]);
    assert_eq!(puzzle_hardness(&result.move_hardnesses), -1);
}

#[test]
fn a_solved_board_takes_no_steps() {
    let mut simple = HumanStr8ts::from_str(SMALL_TEST_PUZZLE).unwrap().to_simple();
    assert!(solve_simple(&mut simple));
    let text = simple.solution_string();
    let mut s = HumanStr8ts::from_str(&text).unwrap();
    let result = solve_human(&mut s);
    assert!(result.move_hardnesses.is_empty());
    assert_eq!(puzzle_hardness(&result.move_hardnesses), 0);
    assert!(next_human_step(&s).is_none());
}

#[test]
fn puzzle_hardness_is_the_hardest_move() {
    assert_eq!(puzzle_hardness(&[]), 0);
    assert_eq!(puzzle_hardness(&[3, 10, 5]), 10);
    assert_eq!(puzzle_hardness(&[7]), 7);
    assert_eq!(puzzle_hardness(&[-1]), -1);
    assert_eq!(puzzle_hardness(&[20, 100]), 100);
}

#[test]
fn next_step_is_found_and_applied() {
    let s = HumanStr8ts::from_str(SMALL_TEST_PUZZLE).unwrap();
    let step = next_human_step(&s).expect("the sample puzzle has a first step");
    assert!(step.hardness > 0 && step.hardness < 100);
    assert!(!step.strategy.is_empty());
    assert!(!step.description.is_empty());
    assert!(!step.immediate_effects.is_empty());
    let mut t = s.clone();
    let propagation = apply_human_step(&mut t, &step);
    for e in &step.immediate_effects {
        match e.set_value {
            Some(v) => {
                assert!(t.solved[e.row][e.col]);
                assert_eq!(t.numbers[e.row][e.col], v);
            }
            None => assert_eq!(t.candidates[e.row][e.col] & e.removed_mask, 0),
        }
    }
    for e in &propagation {
        assert!(e.set_value.is_none());
        assert_ne!(e.removed_mask, 0);
    }
    // candidates only ever go
    for r in 0..9 {
        for c in 0..9 {
            assert_eq!(t.candidates[r][c] & !s.candidates[r][c], 0);
        }
    }
}

#[test]
fn stepping_to_the_end_matches_solve_human() {
    let mut a = HumanStr8ts::from_str(SMALL_TEST_PUZZLE).unwrap();
    let mut b = a.clone();
    let result = solve_human(&mut b);
    let mut hardnesses = Vec::new();
    while let Some(step) = next_human_step(&a) {
        hardnesses.push(step.hardness);
        apply_human_step(&mut a, &step);
        assert!(hardnesses.len() <= 200);
    }
    assert_eq!(hardnesses, result.move_hardnesses);
    assert_eq!(a.numbers, b.numbers);
}

#[test]
fn candidate_masks_narrow_only_unsolved_white_cells() {
    let s0 = HumanStr8ts::from_str(SMALL_TEST_PUZZLE).unwrap();
    let mut s = s0.clone();
    let mut masks = [[0u16; 9]; 9];
    masks[0][0] = 1; // black cell: ignored
    masks[0][2] = 1; // given digit: ignored
    masks[0][3] = (1 << 2) | (1 << 3); // keep 3 and 4 where allowed
    apply_candidate_masks(&mut s, &masks);
    assert_eq!(s.candidates[0][0], s0.candidates[0][0]);
    assert_eq!(s.candidates[0][2], s0.candidates[0][2]);
    assert_eq!(s.candidates[0][3], s0.candidates[0][3] & masks[0][3]);
    assert_eq!(s.candidates[0][4], s0.candidates[0][4]);
    assert_eq!(s.numbers, s0.numbers);
    assert_eq!(s.solved, s0.solved);
}

#[test]
fn hardness_formulas() {
    assert_eq!(stranded_hardness(1), 10);
    assert_eq!(stranded_hardness(3), 14);
    assert_eq!(split_hardness(2), 17);
    assert_eq!(mindgap_hardness(4), 21);
    assert_eq!(range_check_hardness(3), 26);
    assert_eq!(naked_set_hardness(2), 25);
    assert_eq!(hidden_set_hardness(3), 35);
    assert_eq!(sea_creature_hardness(2), 60);
}

#[test]
fn placing_a_digit_strikes_it_from_its_row_and_column() {
    let s = HumanStr8ts::from_str(SMALL_TEST_PUZZLE).unwrap();
    let (r, c) = (0usize, 3usize);
    let v = (1..=9u8).find(|&d| s.candidates[r][c] & (1 << (d - 1)) != 0).unwrap();
    let b = 1u16 << (v - 1);
    let step = HumanStep {
        strategy: String::from("Test"),
        hardness: 1,
        description: String::new(),
        immediate_effects: vec![StrategyEffect { row: r, col: c, set_value: Some(v), removed_mask: 0 }],
    };
    let mut t = s.clone();
    let propagation = apply_human_step(&mut t, &step);
    assert!(t.solved[r][c]);
    assert_eq!(t.numbers[r][c], v);
    assert_eq!(t.candidates[r][c], b);
    let mut expected = Vec::new();
    for x in 0..9 {
        for y in 0..9 {
            let in_line = (x == r) != (y == c);
            let struck = in_line && !s.is_black[x][y] && !s.solved[x][y] && s.candidates[x][y] & b != 0;
            if struck {
                expected.push((x, y));
                assert_eq!(t.candidates[x][y], s.candidates[x][y] & !b);
            } else if (x, y) != (r, c) {
                assert_eq!(t.candidates[x][y], s.candidates[x][y]);
            }
        }
    }
    let got: Vec<(usize, usize)> = propagation.iter().map(|e| (e.row, e.col)).collect();
    assert_eq!(got, expected);
    assert!(propagation.iter().all(|e| e.removed_mask == b && e.set_value.is_none()));
    // a digit already solved is left alone
    let mut u = t.clone();
    let again = apply_human_step(&mut u, &step);
    assert!(again.is_empty());
    assert_eq!(u.candidates, t.candidates);
}
