use str8ts_solver::board::{HumanStr8ts, ParseError, SimpleStr8ts};

const SMALL_TEST_PUZZLE: &str = "##2..#9..#....h6.#52..f...#..........#a5..##.........6#...e..3.h..i....#...#.2.d#";

#[test]
fn parses_the_sample_puzzle() {
    let s = SimpleStr8ts::from_str(SMALL_TEST_PUZZLE).expect("valid board");
    assert!(s.is_black[0][0]);
    assert_eq!(s.numbers[0][0], 0);
    assert!(!s.is_black[0][2]);
    assert_eq!(s.numbers[0][2], 2);
    // 'h' is a black cell with clue 8
    assert!(s.is_black[1][5]);
    assert_eq!(s.numbers[1][5], 8);
    assert_eq!(s.numbers[1][6], 6);
}

#[test]
fn whitespace_is_ignored_when_parsing() {
    let spaced: String = SMALL_TEST_PUZZLE
        .chars()
        .enumerate()
        .flat_map(|(i, ch)| if i % 9 == 8 { vec![ch, '\n'] } else { vec![ch, ' '] })
        .collect();
    let a = SimpleStr8ts::from_str(SMALL_TEST_PUZZLE).unwrap();
    let b = SimpleStr8ts::from_str(&spaced).unwrap();
    assert_eq!(a.numbers, b.numbers);
    assert_eq!(a.is_black, b.is_black);
}

#[test]
fn wrong_length_is_refused() {
    assert_eq!(SimpleStr8ts::from_str("##2..").unwrap_err(), ParseError::WrongLength);
    assert_eq!(HumanStr8ts::from_str("").unwrap_err(), ParseError::WrongLength);
}

#[test]
fn first_invalid_character_is_reported() {
    let mut bad = String::from(SMALL_TEST_PUZZLE);
    bad.replace_range(3..4, "x");
    bad.replace_range(10..11, "z");
    assert_eq!(SimpleStr8ts::from_str(&bad).unwrap_err(), ParseError::InvalidChar('x'));
    assert_eq!(HumanStr8ts::from_str(&bad).unwrap_err(), ParseError::InvalidChar('x'));
}

#[test]
fn solution_string_writes_the_board_format() {
    let s = SimpleStr8ts::from_str(SMALL_TEST_PUZZLE).unwrap();
    let text = s.solution_string();
    assert_eq!(text.len(), 81);
    // empty white cells show '0'; black cells keep their letters
    assert_eq!(&text[0..9], "##200#900");
    assert_eq!(&text[9..18], "#0000h60#");
}

#[test]
fn solution_string_round_trips_a_full_board() {
    let board = format!("#123456789{}", "#".repeat(71));
    assert_eq!(board.len(), 81);
    let s = SimpleStr8ts::from_str(&board).unwrap();
    assert_eq!(s.solution_string(), board);
}

#[test]
fn human_board_tracks_candidates_and_compartments() {
    let s = HumanStr8ts::from_str(SMALL_TEST_PUZZLE).unwrap();
    // given digits are solved with themselves as the only candidate
    assert!(s.solved[0][2]);
    assert_eq!(s.candidates[0][2], 1 << 1);
    // black cells have no candidates
    assert_eq!(s.candidates[0][0], 0);
    // row 0: "##2..#9..": white runs at columns 2..=4 and 6..=8
    assert_eq!(s.row_compartments[0], vec![(0, 2), (0, 3), (0, 4)]);
    assert_eq!(s.row_compartments[1], vec![(0, 6), (0, 7), (0, 8)]);
    assert_eq!(s.cell_to_row_compartment[0][7], 1);
    // an empty white cell of row 0 cannot hold 2 or 9 (given in the row)
    assert_eq!(s.candidates[0][3] & (1 << 1), 0);
    assert_eq!(s.candidates[0][3] & (1 << 8), 0);
}

#[test]
fn to_simple_and_load_from_simple() {
    let h = HumanStr8ts::from_str(SMALL_TEST_PUZZLE).unwrap();
    let mut simple = h.to_simple();
    assert_eq!(simple.numbers, h.numbers);
    simple.numbers[0][3] = 5;
    let mut h2 = HumanStr8ts::from_str(SMALL_TEST_PUZZLE).unwrap();
    h2.load_from_simple(&simple);
    assert_eq!(h2.numbers[0][3], 5);
    assert!(h2.solved[0][3]);
    assert!(!h2.solved[0][0]);
    assert_eq!(h2.solution_string(), simple.solution_string());
}

#[test]
fn render_draws_each_cell_with_colours() {
    let s = SimpleStr8ts::from_str(SMALL_TEST_PUZZLE).unwrap();
    let drawn = s.render();
    assert!(drawn.starts_with("\x1b[40m   \x1b[0m"));
    assert!(drawn.contains("\x1b[47m\x1b[30m 2 \x1b[0m"));
    assert!(drawn.contains("\x1b[40m\x1b[37m 8 \x1b[0m"));
    assert_eq!(drawn.matches('\n').count(), 9);
    let h = HumanStr8ts::from_str(SMALL_TEST_PUZZLE).unwrap();
    assert_eq!(h.render(), drawn);
}

#[test]
fn length_is_counted_in_bytes() {
    // 80 board characters and a two-byte character: 82 bytes
    let long = format!("{}é", ".".repeat(80));
    assert_eq!(SimpleStr8ts::from_str(&long).unwrap_err(), ParseError::WrongLength);
    // 79 board characters and a two-byte character: 81 bytes, one bad character
    let short = format!("{}é", ".".repeat(79));
    assert_eq!(SimpleStr8ts::from_str(&short).unwrap_err(), ParseError::InvalidChar('é'));
    assert_eq!(HumanStr8ts::from_str(&short).unwrap_err(), ParseError::InvalidChar('é'));
}
