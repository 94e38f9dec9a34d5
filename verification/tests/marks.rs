use str8ts_solver::board::HumanStr8ts;
use str8ts_solver::marks::{read_marks, MarksError};

const SMALL_TEST_PUZZLE: &str = "##2..#9..#....h6.#52..f...#..........#a5..##.........6#...e..3.h..i....#...#.2.d#";

fn sheet(first: &str, rows: usize) -> String {
    let mut out = String::from("[");
    for r in 0..rows {
        if r > 0 {
            out.push(',');
        }
        out.push('[');
        for c in 0..9 {
            if c > 0 {
                out.push(',');
            }
            if r == 0 && c == 3 {
                out.push_str(first);
            } else {
                out.push('0');
            }
        }
        out.push(']');
    }
    out.push(']');
    out
}

#[test]
fn marks_read_a_mask_and_a_digit_list() {
    let s = HumanStr8ts::from_str(SMALL_TEST_PUZZLE).unwrap();
    // (0,3) and (0,4) are unsolved white cells
    let mut text = sheet("511", 9);
    text = text.replacen("511,0", "511,[1,2]", 1);
    let masks = read_marks(&s, &text).unwrap();
    assert_eq!(masks[0][3], 511);
    assert_eq!(masks[0][4], 3);
    assert_eq!(masks[1][1], 0);
}

#[test]
fn marks_skip_black_and_solved_cells() {
    let s = HumanStr8ts::from_str(SMALL_TEST_PUZZLE).unwrap();
    // (0,0) is black: its entry is not read, whatever it holds
    let text = sheet("0", 9).replacen("[0", "[\"x\"", 1);
    let masks = read_marks(&s, &text).unwrap();
    assert_eq!(masks[0][0], 0);
}

#[test]
fn marks_refuse_bad_input() {
    let s = HumanStr8ts::from_str(SMALL_TEST_PUZZLE).unwrap();
    assert_eq!(read_marks(&s, "[[1,2"), Err(MarksError::BadJson));
    assert_eq!(read_marks(&s, "{}"), Err(MarksError::NotArray));
    assert_eq!(read_marks(&s, &sheet("0", 8)), Err(MarksError::RowCount));
    assert_eq!(read_marks(&s, &sheet("512", 9)), Err(MarksError::MaskRange(0, 3)));
    assert_eq!(read_marks(&s, &sheet("[10]", 9)), Err(MarksError::DigitRange(10)));
    assert_eq!(read_marks(&s, &sheet("[1.5]", 9)), Err(MarksError::DigitNotInteger));
    assert_eq!(read_marks(&s, &sheet("\"x\"", 9)), Err(MarksError::NotDigitList));
    let short_row = sheet("0", 9).replacen("[0,0,0,0,0,0,0,0,0]", "[0]", 1);
    assert_eq!(read_marks(&s, &short_row), Err(MarksError::ColCount(0)));
    let not_row = sheet("0", 9).replacen("[0,0,0,0,0,0,0,0,0]", "7", 1);
    assert_eq!(read_marks(&s, &not_row), Err(MarksError::RowNotArray(0)));
}
