//! The board: parsing the 81-character format, rendering it back, and the
//! compartments (maximal runs of white cells) of the candidate-tracking board.
use vstd::prelude::*;
use crate::mask::{bit, bit_of, has_digit, is_digit, is_mask, lemma_bit_has, lemma_has_and_not, lemma_mask_ext};
use crate::text::{char_is_whitespace, string_push, whitespace_char};

verus! {

pub const N: usize = 9;

/// A board with digits only.
#[derive(Clone, Debug)]
pub struct SimpleStr8ts {
    pub numbers: [[u8; N]; N],
    pub is_black: [[bool; N]; N],
}

/// A board that also tracks candidate masks and its compartments.
#[derive(Clone, Debug)]
pub struct HumanStr8ts {
    pub solved: [[bool; N]; N],
    pub numbers: [[u8; N]; N],
    pub is_black: [[bool; N]; N],
    pub candidates: [[u16; N]; N],
    pub row_compartments: Vec<Vec<(usize, usize)>>,
    pub col_compartments: Vec<Vec<(usize, usize)>>,
    pub cell_to_row_compartment: [[usize; N]; N],
    pub cell_to_col_compartment: [[usize; N]; N],
}

/// Why a board string was refused.
#[derive(Clone, Debug, PartialEq, Eq)]
pub enum ParseError {
    /// Without whitespace, the string is not 81 bytes long.
    WrongLength,
    /// The first character that is not one of `#`, `.`, `a`..=`i`, `1`..=`9`.
    InvalidChar(char),
}

// ---------------------------------------------------------------------------
// The text format
// ---------------------------------------------------------------------------

/// The board string without its whitespace.
pub open spec fn compact(s: Seq<char>) -> Seq<char> {
    s.filter(|c: char| !whitespace_char(c))
}

pub open spec fn valid_board_char(c: char) -> bool {
    c == '#' || c == '.' || ('a' <= c && c <= 'i') || ('1' <= c && c <= '9')
}

/// The digit a character gives its cell (0: none).
pub open spec fn char_number(c: char) -> u8 {
    if 'a' <= c && c <= 'i' {
        (c as int - 'a' as int + 1) as u8
    } else if '1' <= c && c <= '9' {
        (c as int - '0' as int) as u8
    } else {
        0
    }
}

pub open spec fn char_black(c: char) -> bool {
    c == '#' || ('a' <= c && c <= 'i')
}

pub open spec fn char_solved(c: char) -> bool {
    '1' <= c && c <= '9'
}

pub open spec fn all_valid_chars(s: Seq<char>) -> bool {
    forall|i: int| 0 <= i < s.len() ==> valid_board_char(#[trigger] s[i])
}

/// `ch` is the first character of `s` that is not a board character.
pub open spec fn first_invalid_char(s: Seq<char>, ch: char) -> bool {
    exists|i: int|
        0 <= i < s.len() && s[i] == ch && !valid_board_char(ch) && forall|j: int|
            0 <= j < i ==> valid_board_char(#[trigger] s[j])
}

/// The three grids hold what the 81 characters of `s` describe, row by row.
pub open spec fn grids_match(
    s: Seq<char>,
    numbers: [[u8; N]; N],
    is_black: [[bool; N]; N],
    solved: [[bool; N]; N],
) -> bool {
    forall|r: int, c: int|
        0 <= r < 9 && 0 <= c < 9 ==> {
            &&& numbers[r][c] == char_number(s[r * 9 + c])
            &&& is_black[r][c] == char_black(s[r * 9 + c])
            &&& solved[r][c] == char_solved(s[r * 9 + c])
        }
}

/// How many bytes `c` takes in UTF-8.
pub open spec fn utf8_len(c: char) -> int {
    if (c as int) < 0x80 {
        1
    } else if (c as int) < 0x800 {
        2
    } else if (c as int) < 0x10000 {
        3
    } else {
        4
    }
}

/// How many bytes `s` takes in UTF-8: the length of a board string is counted
/// in bytes.
pub open spec fn utf8_size(s: Seq<char>) -> int
    decreases s.len(),
{
    if s.len() == 0 {
        0
    } else {
        utf8_size(s.drop_last()) + utf8_len(s.last())
    }
}

proof fn lemma_utf8_size_prefix(s: Seq<char>, k: int)
    requires 0 <= k <= s.len(),
    ensures utf8_size(s.take(k)) <= utf8_size(s),
    decreases s.len(),
{
    if k < s.len() {
        assert(s.drop_last().take(k) == s.take(k));
        lemma_utf8_size_prefix(s.drop_last(), k);
    } else {
        assert(s.take(k) == s);
    }
}

/// Board characters are ASCII: a string of them takes a byte each.
pub proof fn lemma_board_chars_size(s: Seq<char>)
    requires all_valid_chars(s),
    ensures utf8_size(s) == s.len(),
    decreases s.len(),
{
    if s.len() > 0 {
        assert(valid_board_char(s[s.len() - 1]));
        lemma_board_chars_size(s.drop_last());
    }
}

/// What the parser answers for `board`.
pub open spec fn parse_result(
    board: Seq<char>,
    res: Result<([[u8; N]; N], [[bool; N]; N], [[bool; N]; N]), ParseError>,
) -> bool {
    let s = compact(board);
    &&& utf8_size(s) != 81 ==> res == Err::<([[u8; N]; N], [[bool; N]; N], [[bool; N]; N]), ParseError>(
        ParseError::WrongLength,
    )
    &&& utf8_size(s) == 81 && !all_valid_chars(s) ==> (res matches Err(ParseError::InvalidChar(ch))
        && first_invalid_char(s, ch))
    &&& utf8_size(s) == 81 && all_valid_chars(s) ==> (res matches Ok((n, b, v)) && s.len() == 81 && grids_match(
        s,
        n,
        b,
        v,
    ))
}

fn utf8_len_of(c: char) -> (n: usize)
    ensures n == utf8_len(c),
{
    let v = c as u32;
    if v < 0x80 {
        1
    } else if v < 0x800 {
        2
    } else if v < 0x10000 {
        3
    } else {
        4
    }
}

/// The UTF-8 size of `v` when it is at most 81; some larger number otherwise.
fn utf8_size_capped(v: &Vec<char>) -> (n: usize)
    ensures (n == 81) == (utf8_size(v@) == 81),
{
    let mut n: usize = 0;
    for i in 0..v.len()
        invariant n == utf8_size(v@.take(i as int)), n <= 81,
    {
        proof {
            assert(v@.take(i + 1).drop_last() == v@.take(i as int));
        }
        n = n + utf8_len_of(v[i]);
        if n > 81 {
            proof {
                lemma_utf8_size_prefix(v@, i + 1);
            }
            return n;
        }
    }
    proof {
        assert(v@.take(v@.len() as int) == v@);
    }
    n
}

fn is_board_char(ch: char) -> (ok: bool)
    ensures ok == valid_board_char(ch),
{
    ch == '#' || ch == '.' || ('a' <= ch && ch <= 'i') || ('1' <= ch && ch <= '9')
}

fn collect_compact(board: &str) -> (v: Vec<char>)
    ensures v@ == compact(board@),
{
    let mut v: Vec<char> = Vec::new();
    let ghost s = board@;
    for ch in it: board.chars()
        invariant
            it.seq() == s,
            v@ == s.take(it.index() as int).filter(|c: char| !whitespace_char(c)),
    {
        proof {
            assert(s.take(it.index() + 1).drop_last() == s.take(it.index() as int));
            reveal_with_fuel(Seq::filter, 1);
        }
        if !char_is_whitespace(ch) {
            v.push(ch);
        }
    }
    proof {
        assert(s.take(s.len() as int) == s);
    }
    v
}

fn parse_board(board: &str) -> (res: Result<([[u8; N]; N], [[bool; N]; N], [[bool; N]; N]), ParseError>)
    ensures parse_result(board@, res),
{
    let compact_chars = collect_compact(board);
    if utf8_size_capped(&compact_chars) != 81 {
        return Err(ParseError::WrongLength);
    }
    let ghost s = compact_chars@;
    for i in 0..compact_chars.len()
        invariant
            s == compact_chars@, s == compact(board@), utf8_size(s) == 81,
            forall|j: int| 0 <= j < i ==> valid_board_char(#[trigger] s[j]),
    {
        let ch = compact_chars[i];
        if !is_board_char(ch) {
            proof {
                assert(first_invalid_char(s, ch)) by {
                    assert(s[i as int] == ch);
                }
                assert(!all_valid_chars(s));
            }
            return Err(ParseError::InvalidChar(ch));
        }
    }
    proof {
        assert(all_valid_chars(s));
        lemma_board_chars_size(s);
    }
    let mut numbers = [[0u8; N]; N];
    let mut is_black = [[false; N]; N];
    let mut solved = [[false; N]; N];
    for r in 0..N
        invariant
            s == compact_chars@, s.len() == 81, s == compact(board@), utf8_size(s) == 81, all_valid_chars(s),
            forall|j: int| 0 <= j < r * 9 ==> valid_board_char(#[trigger] s[j]),
            forall|rr: int, cc: int| 0 <= rr < r && 0 <= cc < 9 ==> {
                &&& numbers[rr][cc] == char_number(s[rr * 9 + cc])
                &&& is_black[rr][cc] == char_black(s[rr * 9 + cc])
                &&& solved[rr][cc] == char_solved(s[rr * 9 + cc])
            },
            forall|rr: int, cc: int| r <= rr < 9 && 0 <= cc < 9 ==> {
                &&& numbers[rr][cc] == 0
                &&& !is_black[rr][cc]
                &&& !solved[rr][cc]
            },
    {
        for c in 0..N
            invariant
                s == compact_chars@, s.len() == 81, s == compact(board@), utf8_size(s) == 81, all_valid_chars(s), r < 9,
                forall|j: int| 0 <= j < r * 9 + c ==> valid_board_char(#[trigger] s[j]),
                forall|rr: int, cc: int| 0 <= rr < 9 && 0 <= cc < 9 && rr * 9 + cc < r * 9 + c ==> {
                    &&& numbers[rr][cc] == char_number(s[rr * 9 + cc])
                    &&& is_black[rr][cc] == char_black(s[rr * 9 + cc])
                    &&& solved[rr][cc] == char_solved(s[rr * 9 + cc])
                },
                forall|rr: int, cc: int| 0 <= rr < 9 && 0 <= cc < 9 && rr * 9 + cc >= r * 9 + c ==> {
                    &&& numbers[rr][cc] == 0
                    &&& !is_black[rr][cc]
                    &&& !solved[rr][cc]
                },
        {
            let ch = compact_chars[r * 9 + c];
            if ch == '#' {
                is_black[r][c] = true;
            } else if ch == '.' {
            } else if 'a' <= ch && ch <= 'i' {
                is_black[r][c] = true;
                numbers[r][c] = (ch as u32 - 96) as u8;
            } else if '1' <= ch && ch <= '9' {
                numbers[r][c] = (ch as u32 - 48) as u8;
                solved[r][c] = true;
            } else {
                proof {
                    assert(!valid_board_char(ch));
                    assert(0 <= r * 9 + c < s.len());
                    assert(first_invalid_char(s, ch)) by {
                        assert(s[r * 9 + c] == ch);
                        assert(forall|j: int| 0 <= j < r * 9 + c ==> valid_board_char(#[trigger] s[j]));
                    }
                    assert(!all_valid_chars(s));
                }
                return Err(ParseError::InvalidChar(ch));
            }
        }
    }
    proof {
        assert(all_valid_chars(s)) by {
            assert forall|i: int| 0 <= i < s.len() implies valid_board_char(#[trigger] s[i]) by {
                assert(i < 9 * 9);
            }
        }
    }
    Ok((numbers, is_black, solved))
}

} // verus!

verus! {

// ---------------------------------------------------------------------------
// Compartments
// ---------------------------------------------------------------------------

/// `comp` is a maximal horizontal run of white cells, listed left to right.
pub open spec fn row_run(black: [[bool; N]; N], comp: Seq<(usize, usize)>) -> bool {
    let r = comp[0].0;
    let s = comp[0].1;
    &&& comp.len() >= 1
    &&& r < 9 && s + comp.len() <= 9
    &&& forall|k: int| 0 <= k < comp.len() ==> #[trigger] comp[k] == (r, (s + k) as usize)
    &&& forall|k: int| s <= k < s + comp.len() ==> !#[trigger] black[r as int][k]
    &&& (s == 0 || black[r as int][s - 1])
    &&& (s + comp.len() == 9 || black[r as int][s + comp.len()])
}

/// `comp` is a maximal vertical run of white cells, listed top to bottom.
pub open spec fn col_run(black: [[bool; N]; N], comp: Seq<(usize, usize)>) -> bool {
    let c = comp[0].1;
    let s = comp[0].0;
    &&& comp.len() >= 1
    &&& c < 9 && s + comp.len() <= 9
    &&& forall|k: int| 0 <= k < comp.len() ==> #[trigger] comp[k] == ((s + k) as usize, c)
    &&& forall|k: int| s <= k < s + comp.len() ==> !#[trigger] black[k][c as int]
    &&& (s == 0 || black[s - 1][c as int])
    &&& (s + comp.len() == 9 || black[s + comp.len()][c as int])
}

/// Row-major position of the first cell of a row compartment.
pub open spec fn row_key(comp: Seq<(usize, usize)>) -> int {
    comp[0].0 * 9 + comp[0].1
}

/// Column-major position of the first cell of a column compartment.
pub open spec fn col_key(comp: Seq<(usize, usize)>) -> int {
    comp[0].1 * 9 + comp[0].0
}

/// The cell `(r, c)` lies in the row run `comp`.
pub open spec fn in_row_run(comp: Seq<(usize, usize)>, r: int, c: int) -> bool {
    comp[0].0 == r && comp[0].1 <= c < comp[0].1 + comp.len()
}

/// The cell `(r, c)` lies in the column run `comp`.
pub open spec fn in_col_run(comp: Seq<(usize, usize)>, r: int, c: int) -> bool {
    comp[0].1 == c && comp[0].0 <= r < comp[0].0 + comp.len()
}

pub open spec fn comps_view(v: Vec<Vec<(usize, usize)>>) -> Seq<Seq<(usize, usize)>> {
    v@.map_values(|comp: Vec<(usize, usize)>| comp@)
}

/// The row compartments are exactly the maximal white runs of the rows, in
/// row-major order, and `index` maps each white cell to its run.
pub open spec fn rows_structured(
    black: [[bool; N]; N],
    comps: Seq<Seq<(usize, usize)>>,
    index: [[usize; N]; N],
) -> bool {
    &&& forall|i: int| 0 <= i < comps.len() ==> row_run(black, #[trigger] comps[i])
    &&& forall|i: int, j: int|
        0 <= i < j < comps.len() ==> row_key(#[trigger] comps[i]) < row_key(#[trigger] comps[j])
    &&& forall|r: int, c: int|
        0 <= r < 9 && 0 <= c < 9 && !black[r][c] ==> {
            &&& index[r][c] < comps.len()
            &&& in_row_run(comps[index[r][c] as int], r, c)
        }
}

/// The column compartments are exactly the maximal white runs of the columns,
/// in column-major order, and `index` maps each white cell to its run.
pub open spec fn cols_structured(
    black: [[bool; N]; N],
    comps: Seq<Seq<(usize, usize)>>,
    index: [[usize; N]; N],
) -> bool {
    &&& forall|i: int| 0 <= i < comps.len() ==> col_run(black, #[trigger] comps[i])
    &&& forall|i: int, j: int|
        0 <= i < j < comps.len() ==> col_key(#[trigger] comps[i]) < col_key(#[trigger] comps[j])
    &&& forall|r: int, c: int|
        0 <= r < 9 && 0 <= c < 9 && !black[r][c] ==> {
            &&& index[r][c] < comps.len()
            &&& in_col_run(comps[index[r][c] as int], r, c)
        }
}

fn build_row_compartments(is_black: &[[bool; N]; N]) -> (res: (Vec<Vec<(usize, usize)>>, [[usize; N]; N]))
    ensures
        rows_structured(*is_black, comps_view(res.0), res.1),
        forall|r: int, c: int| 0 <= r < 9 && 0 <= c < 9 && is_black[r][c] ==> res.1[r][c] == 0,
{
    let mut comps: Vec<Vec<(usize, usize)>> = Vec::new();
    let mut index = [[0usize; N]; N];
    for r in 0..N
        invariant
            comps@.len() <= r * 9,
            forall|i: int| 0 <= i < comps@.len() ==> row_run(*is_black, #[trigger] comps@[i]@),
            forall|i: int| 0 <= i < comps@.len() ==> row_key(#[trigger] comps@[i]@) < r * 9,
            forall|i: int, j: int|
                0 <= i < j < comps@.len() ==> row_key(#[trigger] comps@[i]@) < row_key(#[trigger] comps@[j]@),
            forall|rr: int, c: int|
                0 <= rr < r && 0 <= c < 9 && !is_black[rr][c] ==> {
                    &&& index[rr][c] < comps@.len()
                    &&& in_row_run(comps@[index[rr][c] as int]@, rr, c)
                },
            forall|rr: int, c: int|
                0 <= rr < 9 && 0 <= c < 9 && (is_black[rr][c] || rr >= r) ==> index[rr][c] == 0,
    {
        let mut c: usize = 0;
        while c < N
            invariant
                r < 9, c <= 9,
                c == 0 || is_black[r as int][c - 1] || c == 9 || is_black[r as int][c as int],
                comps@.len() <= r * 9 + c,
                forall|i: int| 0 <= i < comps@.len() ==> row_run(*is_black, #[trigger] comps@[i]@),
                forall|i: int| 0 <= i < comps@.len() ==> row_key(#[trigger] comps@[i]@) < r * 9 + c,
                forall|i: int, j: int|
                    0 <= i < j < comps@.len() ==> row_key(#[trigger] comps@[i]@) < row_key(#[trigger] comps@[j]@),
                forall|rr: int, cc: int|
                    0 <= rr < 9 && 0 <= cc < 9 && rr * 9 + cc < r * 9 + c && !is_black[rr][cc] ==> {
                        &&& index[rr][cc] < comps@.len()
                        &&& in_row_run(comps@[index[rr][cc] as int]@, rr, cc)
                    },
                forall|rr: int, cc: int|
                    0 <= rr < 9 && 0 <= cc < 9 && (is_black[rr][cc] || rr * 9 + cc >= r * 9 + c) ==> index[rr][cc] == 0,
            decreases 9 - c,
        {
            if !is_black[r][c] {
                let start = c;
                let mut comp: Vec<(usize, usize)> = Vec::new();
                while c < N && !is_black[r][c]
                    invariant
                        r < 9, start <= c <= 9, start < 9,
                        comp@.len() == c - start,
                        forall|k: int| 0 <= k < comp@.len() ==> #[trigger] comp@[k] == (r, (start + k) as usize),
                        forall|k: int| start <= k < c ==> !#[trigger] is_black[r as int][k],
                        c == start || !is_black[r as int][start as int],
                    decreases 9 - c,
                {
                    comp.push((r, c));
                    c = c + 1;
                }
                let idx = comps.len();
                let ghost old_index = index;
                let mut k: usize = start;
                while k < c
                    invariant
                        r < 9, start <= k <= c, c <= 9,
                        forall|rr: int, cc: int|
                            0 <= rr < 9 && 0 <= cc < 9 && !(rr == r && start <= cc < k) ==> index[rr][cc] == old_index[rr][cc],
                        forall|cc: int| start <= cc < k ==> index[r as int][cc] == idx,
                    decreases c - k,
                {
                    index[r][k] = idx;
                    k = k + 1;
                }
                proof {
                    assert(comp@[0] == (r, start));
                    assert(row_run(*is_black, comp@));
                }
                comps.push(comp);
                proof {
                    assert(comps@[idx as int]@ == comp@);
                }
            } else {
                c = c + 1;
            }
        }
    }
    proof {
        assert(comps_view(comps).len() == comps@.len());
        assert forall|i: int| 0 <= i < comps@.len() implies #[trigger] comps_view(comps)[i] == comps@[i]@ by {}
    }
    (comps, index)
}

fn build_col_compartments(is_black: &[[bool; N]; N]) -> (res: (Vec<Vec<(usize, usize)>>, [[usize; N]; N]))
    ensures
        cols_structured(*is_black, comps_view(res.0), res.1),
        forall|r: int, c: int| 0 <= r < 9 && 0 <= c < 9 && is_black[r][c] ==> res.1[r][c] == 0,
{
    let mut comps: Vec<Vec<(usize, usize)>> = Vec::new();
    let mut index = [[0usize; N]; N];
    for c in 0..N
        invariant
            comps@.len() <= c * 9,
            forall|i: int| 0 <= i < comps@.len() ==> col_run(*is_black, #[trigger] comps@[i]@),
            forall|i: int| 0 <= i < comps@.len() ==> col_key(#[trigger] comps@[i]@) < c * 9,
            forall|i: int, j: int|
                0 <= i < j < comps@.len() ==> col_key(#[trigger] comps@[i]@) < col_key(#[trigger] comps@[j]@),
            forall|r: int, cc: int|
                0 <= r < 9 && 0 <= cc < c && !is_black[r][cc] ==> {
                    &&& index[r][cc] < comps@.len()
                    &&& in_col_run(comps@[index[r][cc] as int]@, r, cc)
                },
            forall|r: int, cc: int|
                0 <= r < 9 && 0 <= cc < 9 && (is_black[r][cc] || cc >= c) ==> index[r][cc] == 0,
    {
        let mut r: usize = 0;
        while r < N
            invariant
                c < 9, r <= 9,
                r == 0 || is_black[r - 1][c as int] || r == 9 || is_black[r as int][c as int],
                comps@.len() <= c * 9 + r,
                forall|i: int| 0 <= i < comps@.len() ==> col_run(*is_black, #[trigger] comps@[i]@),
                forall|i: int| 0 <= i < comps@.len() ==> col_key(#[trigger] comps@[i]@) < c * 9 + r,
                forall|i: int, j: int|
                    0 <= i < j < comps@.len() ==> col_key(#[trigger] comps@[i]@) < col_key(#[trigger] comps@[j]@),
                forall|rr: int, cc: int|
                    0 <= rr < 9 && 0 <= cc < 9 && cc * 9 + rr < c * 9 + r && !is_black[rr][cc] ==> {
                        &&& index[rr][cc] < comps@.len()
                        &&& in_col_run(comps@[index[rr][cc] as int]@, rr, cc)
                    },
                forall|rr: int, cc: int|
                    0 <= rr < 9 && 0 <= cc < 9 && (is_black[rr][cc] || cc * 9 + rr >= c * 9 + r) ==> index[rr][cc] == 0,
            decreases 9 - r,
        {
            if !is_black[r][c] {
                let start = r;
                let mut comp: Vec<(usize, usize)> = Vec::new();
                while r < N && !is_black[r][c]
                    invariant
                        c < 9, start <= r <= 9, start < 9,
                        comp@.len() == r - start,
                        forall|k: int| 0 <= k < comp@.len() ==> #[trigger] comp@[k] == ((start + k) as usize, c),
                        forall|k: int| start <= k < r ==> !#[trigger] is_black[k][c as int],
                        r == start || !is_black[start as int][c as int],
                    decreases 9 - r,
                {
                    comp.push((r, c));
                    r = r + 1;
                }
                let idx = comps.len();
                let ghost old_index = index;
                let mut k: usize = start;
                while k < r
                    invariant
                        c < 9, start <= k <= r, r <= 9,
                        forall|rr: int, cc: int|
                            0 <= rr < 9 && 0 <= cc < 9 && !(cc == c && start <= rr < k) ==> index[rr][cc] == old_index[rr][cc],
                        forall|rr: int| start <= rr < k ==> index[rr][c as int] == idx,
                    decreases r - k,
                {
                    index[k][c] = idx;
                    k = k + 1;
                }
                proof {
                    assert(comp@[0] == (start, c));
                    assert(col_run(*is_black, comp@));
                }
                comps.push(comp);
                proof {
                    assert(comps@[idx as int]@ == comp@);
                }
            } else {
                r = r + 1;
            }
        }
    }
    proof {
        assert(comps_view(comps).len() == comps@.len());
        assert forall|i: int| 0 <= i < comps@.len() implies #[trigger] comps_view(comps)[i] == comps@[i]@ by {}
    }
    (comps, index)
}

} // verus!

verus! {

// ---------------------------------------------------------------------------
// Initial candidates
// ---------------------------------------------------------------------------

/// Digit `d` is a candidate of the white cell `(r, c)` of a freshly parsed
/// board: it is the cell's given digit if there is one, no black clue of the
/// row or column shows it, and no other given digit of the row or column is it.
pub open spec fn initial_candidate(
    numbers: [[u8; N]; N],
    black: [[bool; N]; N],
    solved: [[bool; N]; N],
    r: int,
    c: int,
    d: u8,
) -> bool {
    &&& !black[r][c]
    &&& (solved[r][c] ==> d == numbers[r][c])
    &&& forall|k: int| 0 <= k < 9 ==> !(black[r][k] && #[trigger] numbers[r][k] == d)
    &&& forall|k: int| 0 <= k < 9 ==> !(black[k][c] && #[trigger] numbers[k][c] == d)
    &&& forall|k: int| 0 <= k < 9 && k != c ==> !(solved[r][k] && #[trigger] numbers[r][k] == d)
    &&& forall|k: int| 0 <= k < 9 && k != r ==> !(solved[k][c] && #[trigger] numbers[k][c] == d)
}

/// The source cell `(r0, c0)` strikes the target `(r, c)`: they share a row or
/// a column, and, when `skip_self`, they are different cells.
pub open spec fn strikes(r0: int, c0: int, skip_self: bool, r: int, c: int) -> bool {
    if skip_self {
        (r == r0 && c != c0) || (c == c0 && r != r0)
    } else {
        r == r0 || c == c0
    }
}

/// Removes `num` from the candidates of every white cell that `(r0, c0)` strikes.
fn clear_lines(
    cand: &mut [[u16; N]; N],
    is_black: &[[bool; N]; N],
    r0: usize,
    c0: usize,
    num: u8,
    skip_self: bool,
)
    requires r0 < 9, c0 < 9, is_digit(num),
    ensures
        forall|r: int, c: int| 0 <= r < 9 && 0 <= c < 9 ==> #[trigger] final(cand)[r][c] == (
            if !is_black[r][c] && strikes(r0 as int, c0 as int, skip_self, r, c) {
                old(cand)[r][c] & !bit_of(num)
            } else {
                old(cand)[r][c]
            }),
{
    let b = bit(num);
    let nb = !b;
    for cc in 0..N
        invariant
            r0 < 9, c0 < 9, nb == !bit_of(num),
            forall|r: int, c: int| 0 <= r < 9 && 0 <= c < 9 ==> #[trigger] cand[r][c] == (
                if !is_black[r][c] && r == r0 && c < cc && (!skip_self || c != c0) {
                    old(cand)[r][c] & !bit_of(num)
                } else {
                    old(cand)[r][c]
                }),
    {
        if (!skip_self || cc != c0) && !is_black[r0][cc] {
            cand[r0][cc] = cand[r0][cc] & nb;
        }
    }
    let ghost mid = *cand;
    for rr in 0..N
        invariant
            r0 < 9, c0 < 9, nb == !bit_of(num),
            forall|r: int, c: int| 0 <= r < 9 && 0 <= c < 9 ==> #[trigger] cand[r][c] == (
                if !is_black[r][c] && c == c0 && r < rr && r != r0 {
                    mid[r][c] & !bit_of(num)
                } else {
                    mid[r][c]
                }),
    {
        if rr != r0 && !is_black[rr][c0] {
            cand[rr][c0] = cand[rr][c0] & nb;
        }
    }
    proof {
        assert forall|r: int, c: int| 0 <= r < 9 && 0 <= c < 9 implies #[trigger] cand[r][c] == (
            if !is_black[r][c] && strikes(r0 as int, c0 as int, skip_self, r, c) {
                old(cand)[r][c] & !bit_of(num)
            } else {
                old(cand)[r][c]
            }) by {
            if !is_black[r][c] && r == r0 && c == c0 && !skip_self {
                let x = old(cand)[r][c];
                let y = bit_of(num);
                assert(x & !y & !y == x & !y) by (bit_vector);
            }
        }
    }
}

/// The black clue at `(r1, c1)` rules out `d` for the target `(r, c)`.
pub open spec fn clue_strikes(
    numbers: [[u8; N]; N],
    black: [[bool; N]; N],
    r1: int,
    c1: int,
    r: int,
    c: int,
    d: u8,
) -> bool {
    black[r1][c1] && numbers[r1][c1] == d && strikes(r1, c1, false, r, c)
}

/// The given digit at `(r1, c1)` rules out `d` for the target `(r, c)`.
pub open spec fn given_strikes(
    numbers: [[u8; N]; N],
    solved: [[bool; N]; N],
    r1: int,
    c1: int,
    r: int,
    c: int,
    d: u8,
) -> bool {
    solved[r1][c1] && numbers[r1][c1] == d && strikes(r1, c1, true, r, c)
}

pub open spec fn base_candidate(
    numbers: [[u8; N]; N],
    black: [[bool; N]; N],
    solved: [[bool; N]; N],
    r: int,
    c: int,
    d: u8,
) -> bool {
    !black[r][c] && (solved[r][c] ==> d == numbers[r][c])
}

fn initial_candidates(
    numbers: &[[u8; N]; N],
    is_black: &[[bool; N]; N],
    solved: &[[bool; N]; N],
) -> (cand: [[u16; N]; N])
    requires
        forall|r: int, c: int| 0 <= r < 9 && 0 <= c < 9 ==> numbers[r][c] <= 9,
        forall|r: int, c: int| 0 <= r < 9 && 0 <= c < 9 && #[trigger] solved[r][c] ==> 1 <= numbers[r][c] && !is_black[r][c],
    ensures
        forall|r: int, c: int| 0 <= r < 9 && 0 <= c < 9 ==> is_mask(#[trigger] cand[r][c]),
        forall|r: int, c: int| 0 <= r < 9 && 0 <= c < 9 && is_black[r][c] ==> #[trigger] cand[r][c] == 0,
        forall|r: int, c: int, d: u8| 0 <= r < 9 && 0 <= c < 9 && is_digit(d) ==>
            (#[trigger] has_digit(cand[r][c], d) <==> initial_candidate(*numbers, *is_black, *solved, r, c, d)),
{
    let mut cand = [[0u16; N]; N];
    for r in 0..N
        invariant
            forall|r: int, c: int| 0 <= r < 9 && 0 <= c < 9 ==> numbers[r][c] <= 9,
            forall|r: int, c: int| 0 <= r < 9 && 0 <= c < 9 && #[trigger] solved[r][c] ==> 1 <= numbers[r][c] && !is_black[r][c],
            forall|rr: int, c: int| 0 <= rr < 9 && 0 <= c < 9 ==> is_mask(#[trigger] cand[rr][c]),
            forall|rr: int, c: int| 0 <= rr < 9 && 0 <= c < 9 && (rr >= r || is_black[rr][c]) ==> #[trigger] cand[rr][c] == 0,
            forall|rr: int, c: int, d: u8| 0 <= rr < r && 0 <= c < 9 && is_digit(d) ==>
                (#[trigger] has_digit(cand[rr][c], d) <==> base_candidate(*numbers, *is_black, *solved, rr, c, d)),
    {
        for c in 0..N
            invariant
                r < 9,
                forall|r: int, c: int| 0 <= r < 9 && 0 <= c < 9 ==> numbers[r][c] <= 9,
                forall|r: int, c: int| 0 <= r < 9 && 0 <= c < 9 && #[trigger] solved[r][c] ==> 1 <= numbers[r][c] && !is_black[r][c],
                forall|rr: int, c: int| 0 <= rr < 9 && 0 <= c < 9 ==> is_mask(#[trigger] cand[rr][c]),
                forall|rr: int, cc: int| 0 <= rr < 9 && 0 <= cc < 9 && (rr > r || (rr == r && cc >= c) || is_black[rr][cc]) ==> #[trigger] cand[rr][cc] == 0,
                forall|rr: int, cc: int, d: u8| 0 <= rr < 9 && 0 <= cc < 9 && (rr < r || (rr == r && cc < c)) && is_digit(d) ==>
                    (#[trigger] has_digit(cand[rr][cc], d) <==> base_candidate(*numbers, *is_black, *solved, rr, cc, d)),
        {
            if !is_black[r][c] {
                if solved[r][c] {
                    let m = bit(numbers[r][c]);
                    cand[r][c] = m;
                } else {
                    cand[r][c] = 0x01FF;
                    proof {
                        assert forall|d: u8| is_digit(d) implies has_digit(0x01FFu16, d) by {
                            assert(has_digit(0x01FFu16, d)) by (bit_vector)
                                requires 1 <= d <= 9;
                        }
                    }
                }
            }
            proof {
                assert forall|d: u8| is_digit(d) implies (#[trigger] has_digit(cand[r as int][c as int], d) <==> base_candidate(*numbers, *is_black, *solved, r as int, c as int, d)) by {
                    if is_black[r as int][c as int] {
                        assert(!has_digit(0u16, d)) by (bit_vector);
                    }
                }
            }
        }
    }
    // Black clues strike their row and column.
    for r0 in 0..N
        invariant
            forall|r: int, c: int| 0 <= r < 9 && 0 <= c < 9 ==> numbers[r][c] <= 9,
            forall|r: int, c: int| 0 <= r < 9 && 0 <= c < 9 && #[trigger] solved[r][c] ==> 1 <= numbers[r][c] && !is_black[r][c],
            forall|rr: int, c: int| 0 <= rr < 9 && 0 <= c < 9 ==> is_mask(#[trigger] cand[rr][c]),
            forall|rr: int, c: int| 0 <= rr < 9 && 0 <= c < 9 && is_black[rr][c] ==> #[trigger] cand[rr][c] == 0,
            forall|r: int, c: int, d: u8| 0 <= r < 9 && 0 <= c < 9 && is_digit(d) ==>
                (#[trigger] has_digit(cand[r][c], d) <==> base_candidate(*numbers, *is_black, *solved, r, c, d)
                    && forall|r1: int, c1: int| 0 <= r1 < r0 && 0 <= c1 < 9 ==> !#[trigger] clue_strikes(*numbers, *is_black, r1, c1, r, c, d)),
    {
        for c0 in 0..N
            invariant
                r0 < 9,
            forall|r: int, c: int| 0 <= r < 9 && 0 <= c < 9 ==> numbers[r][c] <= 9,
            forall|r: int, c: int| 0 <= r < 9 && 0 <= c < 9 && #[trigger] solved[r][c] ==> 1 <= numbers[r][c] && !is_black[r][c],
                forall|rr: int, c: int| 0 <= rr < 9 && 0 <= c < 9 ==> is_mask(#[trigger] cand[rr][c]),
                forall|rr: int, c: int| 0 <= rr < 9 && 0 <= c < 9 && is_black[rr][c] ==> #[trigger] cand[rr][c] == 0,
                forall|r: int, c: int, d: u8| 0 <= r < 9 && 0 <= c < 9 && is_digit(d) ==>
                    (#[trigger] has_digit(cand[r][c], d) <==> base_candidate(*numbers, *is_black, *solved, r, c, d)
                        && forall|r1: int, c1: int| 0 <= r1 < 9 && 0 <= c1 < 9 && r1 * 9 + c1 < r0 * 9 + c0 ==> !#[trigger] clue_strikes(*numbers, *is_black, r1, c1, r, c, d)),
        {
            let ghost before = cand;
            if is_black[r0][c0] && numbers[r0][c0] != 0 {
                clear_lines(&mut cand, is_black, r0, c0, numbers[r0][c0], false);
            }
            proof {
                assert forall|r: int, c: int, d: u8| 0 <= r < 9 && 0 <= c < 9 && is_digit(d) implies
                    (#[trigger] has_digit(cand[r][c], d) <==> base_candidate(*numbers, *is_black, *solved, r, c, d)
                        && forall|r1: int, c1: int| 0 <= r1 < 9 && 0 <= c1 < 9 && r1 * 9 + c1 < r0 * 9 + c0 + 1 ==> !#[trigger] clue_strikes(*numbers, *is_black, r1, c1, r, c, d)) by {
                    assert((forall|r1: int, c1: int| 0 <= r1 < 9 && 0 <= c1 < 9 && r1 * 9 + c1 < r0 * 9 + c0 + 1 ==> !#[trigger] clue_strikes(*numbers, *is_black, r1, c1, r, c, d))
                        <==> ((forall|r1: int, c1: int| 0 <= r1 < 9 && 0 <= c1 < 9 && r1 * 9 + c1 < r0 * 9 + c0 ==> !#[trigger] clue_strikes(*numbers, *is_black, r1, c1, r, c, d))
                            && !clue_strikes(*numbers, *is_black, r0 as int, c0 as int, r, c, d))) by {
                        if (forall|r1: int, c1: int| 0 <= r1 < 9 && 0 <= c1 < 9 && r1 * 9 + c1 < r0 * 9 + c0 ==> !#[trigger] clue_strikes(*numbers, *is_black, r1, c1, r, c, d))
                            && !clue_strikes(*numbers, *is_black, r0 as int, c0 as int, r, c, d) {
                            assert forall|r1: int, c1: int| 0 <= r1 < 9 && 0 <= c1 < 9 && r1 * 9 + c1 < r0 * 9 + c0 + 1 implies !#[trigger] clue_strikes(*numbers, *is_black, r1, c1, r, c, d) by {
                                if r1 * 9 + c1 == r0 * 9 + c0 {
                                    assert(r1 == r0 && c1 == c0);
                                }
                            }
                        }
                    }
                    if is_black[r0 as int][c0 as int] && numbers[r0 as int][c0 as int] != 0 && !is_black[r][c] && strikes(r0 as int, c0 as int, false, r, c) {
                        lemma_has_and_not(before[r][c], bit_of(numbers[r0 as int][c0 as int]), d);
                        lemma_bit_has(numbers[r0 as int][c0 as int], d);
                    }
                    if is_black[r][c] {
                        assert(!base_candidate(*numbers, *is_black, *solved, r, c, d));
                        assert(!has_digit(0u16, d)) by (bit_vector);
                    }
                }
                assert forall|r: int, c: int| 0 <= r < 9 && 0 <= c < 9 implies is_mask(#[trigger] cand[r][c]) by {
                    crate::mask::lemma_mask_ops_closed(before[r][c], bit_of(numbers[r0 as int][c0 as int]));
                }
            }
        }
    }
    // Given digits strike the other cells of their row and column.
    for r0 in 0..N
        invariant
            forall|r: int, c: int| 0 <= r < 9 && 0 <= c < 9 ==> numbers[r][c] <= 9,
            forall|r: int, c: int| 0 <= r < 9 && 0 <= c < 9 && #[trigger] solved[r][c] ==> 1 <= numbers[r][c] && !is_black[r][c],
            forall|rr: int, c: int| 0 <= rr < 9 && 0 <= c < 9 ==> is_mask(#[trigger] cand[rr][c]),
            forall|rr: int, c: int| 0 <= rr < 9 && 0 <= c < 9 && is_black[rr][c] ==> #[trigger] cand[rr][c] == 0,
            forall|r: int, c: int, d: u8| 0 <= r < 9 && 0 <= c < 9 && is_digit(d) ==>
                (#[trigger] has_digit(cand[r][c], d) <==> base_candidate(*numbers, *is_black, *solved, r, c, d)
                    && (forall|r1: int, c1: int| 0 <= r1 < 9 && 0 <= c1 < 9 ==> !#[trigger] clue_strikes(*numbers, *is_black, r1, c1, r, c, d))
                    && forall|r1: int, c1: int| 0 <= r1 < r0 && 0 <= c1 < 9 ==> !#[trigger] given_strikes(*numbers, *solved, r1, c1, r, c, d)),
    {
        for c0 in 0..N
            invariant
                r0 < 9,
                forall|r: int, c: int| 0 <= r < 9 && 0 <= c < 9 && #[trigger] solved[r][c] ==> 1 <= numbers[r][c] && !is_black[r][c],
                forall|r: int, c: int| 0 <= r < 9 && 0 <= c < 9 ==> numbers[r][c] <= 9,
                forall|rr: int, c: int| 0 <= rr < 9 && 0 <= c < 9 ==> is_mask(#[trigger] cand[rr][c]),
                forall|rr: int, c: int| 0 <= rr < 9 && 0 <= c < 9 && is_black[rr][c] ==> #[trigger] cand[rr][c] == 0,
                forall|r: int, c: int, d: u8| 0 <= r < 9 && 0 <= c < 9 && is_digit(d) ==>
                    (#[trigger] has_digit(cand[r][c], d) <==> base_candidate(*numbers, *is_black, *solved, r, c, d)
                        && (forall|r1: int, c1: int| 0 <= r1 < 9 && 0 <= c1 < 9 ==> !#[trigger] clue_strikes(*numbers, *is_black, r1, c1, r, c, d))
                        && forall|r1: int, c1: int| 0 <= r1 < 9 && 0 <= c1 < 9 && r1 * 9 + c1 < r0 * 9 + c0 ==> !#[trigger] given_strikes(*numbers, *solved, r1, c1, r, c, d)),
        {
            let ghost before = cand;
            if solved[r0][c0] {
                clear_lines(&mut cand, is_black, r0, c0, numbers[r0][c0], true);
            }
            proof {
                assert forall|r: int, c: int, d: u8| 0 <= r < 9 && 0 <= c < 9 && is_digit(d) implies
                    (#[trigger] has_digit(cand[r][c], d) <==> base_candidate(*numbers, *is_black, *solved, r, c, d)
                        && (forall|r1: int, c1: int| 0 <= r1 < 9 && 0 <= c1 < 9 ==> !#[trigger] clue_strikes(*numbers, *is_black, r1, c1, r, c, d))
                        && forall|r1: int, c1: int| 0 <= r1 < 9 && 0 <= c1 < 9 && r1 * 9 + c1 < r0 * 9 + c0 + 1 ==> !#[trigger] given_strikes(*numbers, *solved, r1, c1, r, c, d)) by {
                    assert((forall|r1: int, c1: int| 0 <= r1 < 9 && 0 <= c1 < 9 && r1 * 9 + c1 < r0 * 9 + c0 + 1 ==> !#[trigger] given_strikes(*numbers, *solved, r1, c1, r, c, d))
                        <==> ((forall|r1: int, c1: int| 0 <= r1 < 9 && 0 <= c1 < 9 && r1 * 9 + c1 < r0 * 9 + c0 ==> !#[trigger] given_strikes(*numbers, *solved, r1, c1, r, c, d))
                            && !given_strikes(*numbers, *solved, r0 as int, c0 as int, r, c, d))) by {
                        if (forall|r1: int, c1: int| 0 <= r1 < 9 && 0 <= c1 < 9 && r1 * 9 + c1 < r0 * 9 + c0 ==> !#[trigger] given_strikes(*numbers, *solved, r1, c1, r, c, d))
                            && !given_strikes(*numbers, *solved, r0 as int, c0 as int, r, c, d) {
                            assert forall|r1: int, c1: int| 0 <= r1 < 9 && 0 <= c1 < 9 && r1 * 9 + c1 < r0 * 9 + c0 + 1 implies !#[trigger] given_strikes(*numbers, *solved, r1, c1, r, c, d) by {
                                if r1 * 9 + c1 == r0 * 9 + c0 {
                                    assert(r1 == r0 && c1 == c0);
                                }
                            }
                        }
                    }
                    if solved[r0 as int][c0 as int] && !is_black[r][c] && strikes(r0 as int, c0 as int, true, r, c) {
                        lemma_has_and_not(before[r][c], bit_of(numbers[r0 as int][c0 as int]), d);
                        lemma_bit_has(numbers[r0 as int][c0 as int], d);
                    }
                    if is_black[r][c] {
                        assert(!base_candidate(*numbers, *is_black, *solved, r, c, d));
                        assert(!has_digit(0u16, d)) by (bit_vector);
                    }
                }
                assert forall|r: int, c: int| 0 <= r < 9 && 0 <= c < 9 implies is_mask(#[trigger] cand[r][c]) by {
                    crate::mask::lemma_mask_ops_closed(before[r][c], bit_of(numbers[r0 as int][c0 as int]));
                }
            }
        }
    }
    proof {
        assert forall|r: int, c: int, d: u8| 0 <= r < 9 && 0 <= c < 9 && is_digit(d) implies
            (#[trigger] has_digit(cand[r][c], d) <==> initial_candidate(*numbers, *is_black, *solved, r, c, d)) by {
            if has_digit(cand[r][c], d) {
                assert forall|k: int| 0 <= k < 9 implies !(is_black[r][k] && #[trigger] numbers[r][k] == d) by {
                    assert(!clue_strikes(*numbers, *is_black, r, k, r, c, d));
                }
                assert forall|k: int| 0 <= k < 9 implies !(is_black[k][c] && #[trigger] numbers[k][c] == d) by {
                    assert(!clue_strikes(*numbers, *is_black, k, c, r, c, d));
                }
                assert forall|k: int| 0 <= k < 9 && k != c implies !(solved[r][k] && #[trigger] numbers[r][k] == d) by {
                    assert(!given_strikes(*numbers, *solved, r, k, r, c, d));
                }
                assert forall|k: int| 0 <= k < 9 && k != r implies !(solved[k][c] && #[trigger] numbers[k][c] == d) by {
                    assert(!given_strikes(*numbers, *solved, k, c, r, c, d));
                }
            }
            if initial_candidate(*numbers, *is_black, *solved, r, c, d) {
                assert forall|r1: int, c1: int| 0 <= r1 < 9 && 0 <= c1 < 9 implies !#[trigger] clue_strikes(*numbers, *is_black, r1, c1, r, c, d) by {
                    if r1 == r {
                        assert(!(is_black[r][c1] && numbers[r][c1] == d));
                    } else if c1 == c {
                        assert(!(is_black[r1][c] && numbers[r1][c] == d));
                    }
                }
                assert forall|r1: int, c1: int| 0 <= r1 < 9 && 0 <= c1 < 9 implies !#[trigger] given_strikes(*numbers, *solved, r1, c1, r, c, d) by {
                    if r1 == r && c1 != c {
                        assert(!(solved[r][c1] && numbers[r][c1] == d));
                    } else if c1 == c && r1 != r {
                        assert(!(solved[r1][c] && numbers[r1][c] == d));
                    }
                }
            }
        }
    }
    cand
}

} // verus!

verus! {

// ---------------------------------------------------------------------------
// Boards
// ---------------------------------------------------------------------------

/// The board string has 81 board characters once whitespace is dropped.
pub open spec fn board_text_ok(board: Seq<char>) -> bool {
    utf8_size(compact(board)) == 81 && all_valid_chars(compact(board))
}

/// `e` is the error that the parser reports for `board`: a wrong length (in
/// bytes) first, else the first character that is not a board character.
pub open spec fn parse_error_for(board: Seq<char>, e: ParseError) -> bool {
    if utf8_size(compact(board)) != 81 {
        e == ParseError::WrongLength
    } else {
        e matches ParseError::InvalidChar(ch) && first_invalid_char(compact(board), ch)
    }
}

/// The character that stands for a cell in the board format.
pub open spec fn cell_text(n: u8, black: bool) -> char {
    if black {
        if n == 0 {
            '#'
        } else {
            ((97 + n - 1) as u8) as char
        }
    } else {
        ((48 + n) as u8) as char
    }
}

/// The digits can be written in the board format without overflowing a byte.
pub open spec fn printable(numbers: [[u8; N]; N], black: [[bool; N]; N]) -> bool {
    forall|r: int, c: int|
        0 <= r < 9 && 0 <= c < 9 ==> (if black[r][c] {
            numbers[r][c] <= 158
        } else {
            numbers[r][c] <= 207
        })
}

/// `out` is the 81-character board text of the grids.
pub open spec fn board_text(out: Seq<char>, numbers: [[u8; N]; N], black: [[bool; N]; N]) -> bool {
    &&& out.len() == 81
    &&& forall|r: int, c: int|
        0 <= r < 9 && 0 <= c < 9 ==> out[r * 9 + c] == cell_text(numbers[r][c], black[r][c])
}

/// Grids that agree on every cell are equal.
pub proof fn lemma_grid_eq<T>(a: [[T; N]; N], b: [[T; N]; N])
    requires forall|i: int, j: int| 0 <= i < 9 && 0 <= j < 9 ==> #[trigger] a[i][j] == b[i][j],
    ensures a == b,
{
    assert forall|i: int| 0 <= i < 9 implies #[trigger] a[i] == b[i] by {
        assert(a[i] =~= b[i]);
    }
    assert(a =~= b);
}

pub proof fn lemma_char_number(c: char)
    ensures
        char_number(c) <= 9,
        char_solved(c) ==> 1 <= char_number(c) && !char_black(c),
{
}

fn board_to_text(numbers: &[[u8; N]; N], is_black: &[[bool; N]; N]) -> (out: String)
    requires printable(*numbers, *is_black),
    ensures board_text(out@, *numbers, *is_black),
{
    let mut out = String::new();
    for r in 0..N
        invariant
            printable(*numbers, *is_black),
            out@.len() == r * 9,
            forall|rr: int, c: int|
                0 <= rr < r && 0 <= c < 9 ==> out@[rr * 9 + c] == cell_text(numbers[rr][c], is_black[rr][c]),
    {
        for c in 0..N
            invariant
                r < 9,
                printable(*numbers, *is_black),
                out@.len() == r * 9 + c,
                forall|rr: int, cc: int|
                    0 <= rr < 9 && 0 <= cc < 9 && rr * 9 + cc < r * 9 + c ==> out@[rr * 9 + cc] == cell_text(
                        numbers[rr][cc],
                        is_black[rr][cc],
                    ),
        {
            let n = numbers[r][c];
            let ch: char = if is_black[r][c] {
                if n == 0 {
                    '#'
                } else {
                    (97u8 + n - 1) as char
                }
            } else {
                (48u8 + n) as char
            };
            string_push(&mut out, ch);
            proof {
                assert forall|rr: int, cc: int|
                    0 <= rr < 9 && 0 <= cc < 9 && rr * 9 + cc < r * 9 + c + 1 implies out@[rr * 9 + cc] == cell_text(
                        numbers[rr][cc],
                        is_black[rr][cc],
                    ) by {
                    if rr * 9 + cc == r * 9 + c {
                        assert(rr == r && cc == c);
                    }
                }
            }
        }
    }
    out
}

impl SimpleStr8ts {
    /// Parses the 81-character board format (whitespace is ignored).
    pub fn from_str(board: &str) -> (res: Result<Self, ParseError>)
        ensures
            res is Ok <==> board_text_ok(board@),
            res matches Err(e) ==> parse_error_for(board@, e),
            res matches Ok(s) ==> forall|r: int, c: int|
                0 <= r < 9 && 0 <= c < 9 ==> {
                    &&& s.numbers[r][c] == char_number(compact(board@)[r * 9 + c])
                    &&& s.is_black[r][c] == char_black(compact(board@)[r * 9 + c])
                },
    {
        match parse_board(board) {
            Ok((numbers, is_black, _)) => Ok(SimpleStr8ts { numbers, is_black }),
            Err(e) => Err(e),
        }
    }

    /// The board in the 81-character format; white cells always show their digit.
    pub fn solution_string(&self) -> (out: String)
        requires printable(self.numbers, self.is_black),
        ensures board_text(out@, self.numbers, self.is_black),
    {
        board_to_text(&self.numbers, &self.is_black)
    }
}

/// `s` is the board that the string `board` describes: its digits, black
/// cells and givens, its compartments, and the candidates the rules leave.
pub open spec fn parsed_board(board: Seq<char>, s: HumanStr8ts) -> bool {
    &&& s.wf()
    &&& grids_match(compact(board), s.numbers, s.is_black, s.solved)
    &&& forall|r: int, c: int|
        0 <= r < 9 && 0 <= c < 9 && s.is_black[r][c] ==> {
            &&& s.candidates[r][c] == 0
            &&& s.cell_to_row_compartment[r][c] == 0
            &&& s.cell_to_col_compartment[r][c] == 0
        }
    &&& forall|r: int, c: int, d: u8|
        0 <= r < 9 && 0 <= c < 9 && is_digit(d) ==> (#[trigger] has_digit(s.candidates[r][c], d)
            <==> initial_candidate(s.numbers, s.is_black, s.solved, r, c, d))
}

impl HumanStr8ts {
    pub open spec fn values_wf(&self) -> bool {
        &&& forall|r: int, c: int| 0 <= r < 9 && 0 <= c < 9 ==> #[trigger] self.numbers[r][c] <= 9
        &&& forall|r: int, c: int| 0 <= r < 9 && 0 <= c < 9 ==> is_mask(#[trigger] self.candidates[r][c])
        &&& forall|r: int, c: int|
            0 <= r < 9 && 0 <= c < 9 && #[trigger] self.solved[r][c] ==> !self.is_black[r][c] && 1
                <= self.numbers[r][c]
    }

    pub open spec fn structure_wf(&self) -> bool {
        &&& rows_structured(self.is_black, comps_view(self.row_compartments), self.cell_to_row_compartment)
        &&& cols_structured(self.is_black, comps_view(self.col_compartments), self.cell_to_col_compartment)
    }

    /// The board is well formed: its compartments are those of its black cells,
    /// digits are at most 9, masks hold digits only, and solved cells are white
    /// with a digit.
    pub open spec fn wf(&self) -> bool {
        self.structure_wf() && self.values_wf()
    }

    /// Parses the 81-character board format and computes compartments and
    /// initial candidates.
    pub fn from_str(board: &str) -> (res: Result<Self, ParseError>)
        ensures
            res matches Ok(s) ==> parsed_board(board@, s),
            res is Ok <==> board_text_ok(board@),
            res matches Err(e) ==> parse_error_for(board@, e),
            res matches Ok(s) ==> {
                &&& s.wf()
                &&& grids_match(compact(board@), s.numbers, s.is_black, s.solved)
                &&& forall|r: int, c: int|
                    0 <= r < 9 && 0 <= c < 9 && s.is_black[r][c] ==> {
                        &&& s.candidates[r][c] == 0
                        &&& s.cell_to_row_compartment[r][c] == 0
                        &&& s.cell_to_col_compartment[r][c] == 0
                    }
                &&& forall|r: int, c: int, d: u8|
                    0 <= r < 9 && 0 <= c < 9 && is_digit(d) ==> (#[trigger] has_digit(s.candidates[r][c], d)
                        <==> initial_candidate(s.numbers, s.is_black, s.solved, r, c, d))
            },
    {
        let (numbers, is_black, solved) = match parse_board(board) {
            Ok(v) => v,
            Err(e) => {
                return Err(e);
            },
        };
        proof {
            let s = compact(board@);
            assert forall|r: int, c: int| 0 <= r < 9 && 0 <= c < 9 implies numbers[r][c] <= 9 && (
            #[trigger] solved[r][c] ==> 1 <= numbers[r][c] && !is_black[r][c]) by {
                lemma_char_number(s[r * 9 + c]);
            }
        }
        let (row_compartments, cell_to_row_compartment) = build_row_compartments(&is_black);
        let (col_compartments, cell_to_col_compartment) = build_col_compartments(&is_black);
        let candidates = initial_candidates(&numbers, &is_black, &solved);
        Ok(HumanStr8ts {
            solved,
            numbers,
            is_black,
            candidates,
            row_compartments,
            col_compartments,
            cell_to_row_compartment,
            cell_to_col_compartment,
        })
    }

    /// The digits and black cells, without candidates.
    pub fn to_simple(&self) -> (s: SimpleStr8ts)
        ensures s.numbers == self.numbers, s.is_black == self.is_black,
    {
        SimpleStr8ts { numbers: self.numbers, is_black: self.is_black }
    }

    /// Takes the digits of `simple`; a white cell counts as solved exactly when
    /// it holds a digit. Black cells, candidates and compartments stay.
    pub fn load_from_simple(&mut self, simple: &SimpleStr8ts)
        ensures
            final(self).numbers == simple.numbers,
            final(self).is_black == old(self).is_black,
            final(self).candidates == old(self).candidates,
            final(self).row_compartments == old(self).row_compartments,
            final(self).col_compartments == old(self).col_compartments,
            final(self).cell_to_row_compartment == old(self).cell_to_row_compartment,
            final(self).cell_to_col_compartment == old(self).cell_to_col_compartment,
            forall|r: int, c: int|
                0 <= r < 9 && 0 <= c < 9 ==> #[trigger] final(self).solved[r][c] == (!old(self).is_black[r][c]
                    && simple.numbers[r][c] != 0),
            old(self).structure_wf() ==> final(self).structure_wf(),
    {
        let mut solved = [[false; N]; N];
        for r in 0..N
            invariant
                forall|rr: int, c: int|
                    0 <= rr < r && 0 <= c < 9 ==> solved[rr][c] == (!self.is_black[rr][c]
                        && simple.numbers[rr][c] != 0),
        {
            for c in 0..N
                invariant
                    r < 9,
                    forall|rr: int, cc: int|
                        0 <= rr < 9 && 0 <= cc < 9 && (rr < r || (rr == r && cc < c)) ==> solved[rr][cc] == (
                        !self.is_black[rr][cc] && simple.numbers[rr][cc] != 0),
            {
                solved[r][c] = !self.is_black[r][c] && simple.numbers[r][c] != 0;
            }
        }
        self.numbers = simple.numbers;
        self.solved = solved;
    }

    /// The board in the 81-character format; white cells always show their digit.
    pub fn solution_string(&self) -> (out: String)
        requires printable(self.numbers, self.is_black),
        ensures board_text(out@, self.numbers, self.is_black),
    {
        self.to_simple().solution_string()
    }
}

} // verus!
