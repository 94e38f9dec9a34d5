//! Generating puzzles: a pattern of black cells (drawn elsewhere, with its
//! probabilities), a solution filled in by the SAT solver, clues for black
//! cells, then givens stripped while the puzzle stays uniquely solvable, and
//! hints put back until the human solver rates it at the wanted difficulty.
use vstd::prelude::*;
use vstd::string::StrSliceExecFns;
use crate::backtrack::{lemma_completes_after_set, lemma_completes_before_set, lemma_solution_passes, set_cell, absdiff, by_cols, by_rows, check, completes, consistent, run_hi, run_lo, span_ok, spec_check};
use crate::board::{HumanStr8ts, ParseError, SimpleStr8ts, N, board_text_ok, parsed_board, parse_error_for, utf8_size, valid_board_char};
use crate::human::{human_solve, is_hardest, puzzle_hardness, solve_human, solve_report};
use crate::random::{choose_digit, shuffle_cells};
use crate::sat::{SatPuzzleStatus, digits_ok, puzzle_status_sat, solve_sat};
use crate::text::{string_push, whitespace_char};

verus! {

// ---------------------------------------------------------------------------
// Difficulty
// ---------------------------------------------------------------------------

/// The difficulty levels a puzzle can be generated for.
#[derive(Debug, Clone, Copy, PartialEq, Eq, Structural)]
pub enum Difficulty {
    Easy,
    Medium,
    Hard,
    Diabolic,
    Cruel,
    Extreme,
}

/// ASCII letters in lower case; other characters stay.
pub open spec fn ascii_lower(c: char) -> char {
    if 'A' <= c <= 'Z' {
        ((c as u32) + 32) as char
    } else {
        c
    }
}

pub open spec fn lowered(s: Seq<char>) -> Seq<char> {
    s.map_values(|c: char| ascii_lower(c))
}

/// The name of a difficulty.
pub open spec fn difficulty_name(d: Difficulty) -> Seq<char> {
    match d {
        Difficulty::Easy => "easy"@,
        Difficulty::Medium => "medium"@,
        Difficulty::Hard => "hard"@,
        Difficulty::Diabolic => "diabolic"@,
        Difficulty::Cruel => "cruel"@,
        Difficulty::Extreme => "extreme"@,
    }
}

fn lower_char(c: char) -> (r: char)
    ensures r == ascii_lower(c),
{
    if 'A' <= c && c <= 'Z' {
        ((c as u32) + 32) as u8 as char
    } else {
        c
    }
}

/// Whether `s`, with ASCII letters lowered, is `name`.
fn matches_lowered(s: &str, name: &str) -> (r: bool)
    ensures r == (lowered(s@) == name@),
{
    let n = s.unicode_len();
    if n != name.unicode_len() {
        proof {
            assert(lowered(s@).len() == s@.len());
        }
        return false;
    }
    for i in 0..n
        invariant
            n == s@.len(), n == name@.len(),
            forall|k: int| 0 <= k < i ==> ascii_lower(s@[k]) == name@[k],
    {
        let a = lower_char(s.get_char(i));
        if a != name.get_char(i) {
            proof {
                assert(lowered(s@)[i as int] != name@[i as int]);
            }
            return false;
        }
    }
    proof {
        assert(lowered(s@) =~= name@);
    }
    true
}

impl Difficulty {
    /// The difficulty named `s` (in any letter case).
    pub fn from_str(s: &str) -> (r: Option<Self>)
        ensures
            r matches Some(d) ==> lowered(s@) == difficulty_name(d),
            r is None ==> forall|d: Difficulty| lowered(s@) != #[trigger] difficulty_name(d),
    {
        if matches_lowered(s, "easy") {
            Some(Difficulty::Easy)
        } else if matches_lowered(s, "medium") {
            Some(Difficulty::Medium)
        } else if matches_lowered(s, "hard") {
            Some(Difficulty::Hard)
        } else if matches_lowered(s, "diabolic") {
            Some(Difficulty::Diabolic)
        } else if matches_lowered(s, "cruel") {
            Some(Difficulty::Cruel)
        } else if matches_lowered(s, "extreme") {
            Some(Difficulty::Extreme)
        } else {
            None
        }
    }

    /// The highest rating (hardest step) a puzzle of this level may have.
    pub fn max_hardness(self) -> (h: i32)
        ensures h == match self {
            Difficulty::Easy => 15i32,
            Difficulty::Medium => 22i32,
            Difficulty::Hard => 30i32,
            Difficulty::Diabolic => 38i32,
            Difficulty::Cruel => 50i32,
            Difficulty::Extreme => 99i32,
        },
    {
        match self {
            Difficulty::Easy => 15,
            Difficulty::Medium => 22,
            Difficulty::Hard => 30,
            Difficulty::Diabolic => 38,
            Difficulty::Cruel => 50,
            Difficulty::Extreme => 99,
        }
    }

    /// The lowest rating the stripped puzzle (before hints are put back)
    /// should have for this level.
    pub fn min_hardness(self) -> (h: i32)
        ensures h == match self {
            Difficulty::Easy => 5i32,
            Difficulty::Medium => 15i32,
            Difficulty::Hard => 20i32,
            Difficulty::Diabolic => 25i32,
            Difficulty::Cruel => 35i32,
            Difficulty::Extreme => 70i32,
        },
    {
        match self {
            Difficulty::Easy => 5,
            Difficulty::Medium => 15,
            Difficulty::Hard => 20,
            Difficulty::Diabolic => 25,
            Difficulty::Cruel => 35,
            Difficulty::Extreme => 70,
        }
    }

    /// The name of the level, in lower case.
    pub fn name(self) -> (s: &'static str)
        ensures s@ == difficulty_name(self),
    {
        match self {
            Difficulty::Easy => "easy",
            Difficulty::Medium => "medium",
            Difficulty::Hard => "hard",
            Difficulty::Diabolic => "diabolic",
            Difficulty::Cruel => "cruel",
            Difficulty::Extreme => "extreme",
        }
    }
}

// ---------------------------------------------------------------------------
// Black patterns
// ---------------------------------------------------------------------------

/// A pattern: 1 for a black cell, 0 for a white one.
pub open spec fn binary(b: [[u8; N]; N]) -> bool {
    forall|r: int, c: int| 0 <= r < 9 && 0 <= c < 9 ==> #[trigger] b[r][c] <= 1
}

/// The value at `(r, c)`, or 0 off the board.
pub open spec fn at(b: [[u8; N]; N], r: int, c: int) -> int {
    if 0 <= r < 9 && 0 <= c < 9 {
        b[r][c] as int
    } else {
        0
    }
}

/// The pattern as a function of the position, 0 off the board.
pub open spec fn grid_of(b: [[u8; N]; N]) -> spec_fn(int, int) -> int {
    |i: int, j: int| at(b, i, j)
}

/// The pattern `b` with `(r, c)` made black.
pub open spec fn with_black(b: [[u8; N]; N], r: int, c: int) -> spec_fn(int, int) -> int {
    |i: int, j: int| if i == r && j == c { 1int } else { at(b, i, j) }
}

/// The black cells among the four neighbours of `(r, c)`.
pub open spec fn vn_count(g: spec_fn(int, int) -> int, r: int, c: int) -> int {
    g(r - 1, c) + g(r + 1, c) + g(r, c - 1) + g(r, c + 1)
}

/// The black cells two steps away along the row and the column.
pub open spec fn dist2_spec(g: spec_fn(int, int) -> int, r: int, c: int) -> int {
    g(r - 2, c) + g(r + 2, c) + g(r, c - 2) + g(r, c + 2)
}

/// Sum of the four von Neumann neighbours of `(r, c)`.
pub fn vn_sum(b: &[[u8; N]; N], r: usize, c: usize) -> (s: u8)
    requires binary(*b), r < 9, c < 9,
    ensures s == vn_count(grid_of(*b), r as int, c as int),
{
    let mut s: u8 = 0;
    if r > 0 {
        s = s + b[r - 1][c];
    }
    if r + 1 < N {
        s = s + b[r + 1][c];
    }
    if c > 0 {
        s = s + b[r][c - 1];
    }
    if c + 1 < N {
        s = s + b[r][c + 1];
    }
    s
}

/// Number of black cells at distance two in the same row or column.
pub fn dist2_count(b: &[[u8; N]; N], r: usize, c: usize) -> (s: u8)
    requires binary(*b), r < 9, c < 9,
    ensures s == dist2_spec(grid_of(*b), r as int, c as int),
{
    let mut s: u8 = 0;
    if r >= 2 {
        s = s + b[r - 2][c];
    }
    if r + 2 < N {
        s = s + b[r + 2][c];
    }
    if c >= 2 {
        s = s + b[r][c - 2];
    }
    if c + 2 < N {
        s = s + b[r][c + 2];
    }
    s
}

/// The 2×2 block with top-left corner `(r1, c1)` lies on the board and is all black.
pub open spec fn full_block(g: spec_fn(int, int) -> int, r1: int, c1: int) -> bool {
    &&& 0 <= r1 && r1 + 1 < 9 && 0 <= c1 && c1 + 1 < 9
    &&& g(r1, c1) + g(r1 + 1, c1) + g(r1, c1 + 1) + g(r1 + 1, c1 + 1) == 4
}

/// `(nr, nc)` is on the board and all four of its neighbours are black.
pub open spec fn enclosed(g: spec_fn(int, int) -> int, nr: int, nc: int) -> bool {
    0 <= nr < 9 && 0 <= nc < 9 && vn_count(g, nr, nc) == 4
}

/// Making `(r, c)` black forms no all-black 2×2 block and encloses no
/// neighbour in black.
pub open spec fn placeable(b: [[u8; N]; N], r: int, c: int) -> bool {
    let p = with_black(b, r, c);
    &&& !full_block(p, r, c) && !full_block(p, r - 1, c) && !full_block(p, r, c - 1) && !full_block(p, r - 1, c - 1)
    &&& !enclosed(p, r - 1, c) && !enclosed(p, r + 1, c) && !enclosed(p, r, c - 1) && !enclosed(p, r, c + 1)
}

/// Whether `(r, c)` can be made black (the pattern is left as it was).
pub fn can_place(b: &mut [[u8; N]; N], r: usize, c: usize) -> (ok: bool)
    requires binary(*old(b)), r < 9, c < 9,
    ensures *final(b) == *old(b), ok == placeable(*old(b), r as int, c as int),
{
    let ghost b0 = *b;
    let saved = b[r][c];
    let mut row = b[r];
    row[c] = 1;
    b[r] = row;
    let ghost p = with_black(b0, r as int, c as int);
    let ghost b1 = *b;
    proof {
        assert(grid_of(*b) =~= p);
        assert(binary(*b));
        assert(forall|i: int, j: int| 0 <= i < 9 && 0 <= j < 9 && (i != r || j != c) ==> #[trigger] b1[i][j] == b0[i][j]);
    }
    let mut ok = true;
    for dr in 0..2usize
        invariant
            r < 9, c < 9, grid_of(*b) == p, binary(*b), *b == b1,
            ok == (forall|i: int| 0 <= i < 2 * dr ==> !#[trigger] corner_blocked(p, r as int, c as int, i)),
    {
        for dc in 0..2usize
            invariant
                r < 9, c < 9, dr < 2, grid_of(*b) == p, binary(*b), *b == b1,
                ok == (forall|i: int| 0 <= i < 2 * dr + dc ==> !#[trigger] corner_blocked(p, r as int, c as int, i)),
        {
            proof {
                let i = 2 * dr + dc;
                assert(i / 2 == dr && i % 2 == dc);
                assert(corner_blocked(p, r as int, c as int, i) == full_block(grid_of(*b), r - dr, c - dc));
            }
            if r >= dr && c >= dc {
                let r1 = r - dr;
                let c1 = c - dc;
                if r1 + 1 < N && c1 + 1 < N {
                    if b[r1][c1] + b[r1 + 1][c1] + b[r1][c1 + 1] + b[r1 + 1][c1 + 1] == 4 {
                        ok = false;
                    }
                }
            }
        }
    }
    if ok {
        let mut k: usize = 0;
        while k < 4 && ok
            invariant
                r < 9, c < 9, grid_of(*b) == p, binary(*b), *b == b1,
                k <= 4,
                ok == (forall|j: int| 0 <= j < k ==> !#[trigger] nb_enclosed(p, r as int, c as int, j)),
            decreases 4 - k,
        {
            let (nr, nc) = if k == 0 {
                (r as i64 - 1, c as i64)
            } else if k == 1 {
                (r as i64 + 1, c as i64)
            } else if k == 2 {
                (r as i64, c as i64 - 1)
            } else {
                (r as i64, c as i64 + 1)
            };
            proof {
                assert(neighbour(r as int, c as int, k as int) == (nr as int, nc as int));
                assert(nb_enclosed(p, r as int, c as int, k as int) == enclosed(grid_of(*b), nr as int, nc as int));
            }
            if 0 <= nr && nr < 9 && 0 <= nc && nc < 9 {
                if vn_sum(b, nr as usize, nc as usize) == 4 {
                    ok = false;
                }
            }
            k = k + 1;
        }
    }
    proof {
        assert(corner_blocked(p, r as int, c as int, 0) == full_block(p, r as int, c as int));
        assert(corner_blocked(p, r as int, c as int, 1) == full_block(p, r as int, c - 1));
        assert(corner_blocked(p, r as int, c as int, 2) == full_block(p, r - 1, c as int));
        assert(corner_blocked(p, r as int, c as int, 3) == full_block(p, r - 1, c - 1));
        assert(nb_enclosed(p, r as int, c as int, 0) == enclosed(p, r - 1, c as int));
        assert(nb_enclosed(p, r as int, c as int, 1) == enclosed(p, r + 1, c as int));
        assert(nb_enclosed(p, r as int, c as int, 2) == enclosed(p, r as int, c - 1));
        assert(nb_enclosed(p, r as int, c as int, 3) == enclosed(p, r as int, c + 1));
    }
    let mut row = b[r];
    row[c] = saved;
    b[r] = row;
    proof {
        assert forall|i: int, j: int| 0 <= i < 9 && 0 <= j < 9 implies #[trigger] b[i][j] == b0[i][j] by {
            if i != r || j != c {
                assert(b1[i][j] == b0[i][j]);
            }
        }
        crate::board::lemma_grid_eq(*b, b0);
    }
    ok
}

/// The `i`-th 2×2 block through `(r, c)` (corners `(r, c)`, `(r, c - 1)`,
/// `(r - 1, c)`, `(r - 1, c - 1)`) is all black.
pub open spec fn corner_blocked(g: spec_fn(int, int) -> int, r: int, c: int, i: int) -> bool {
    full_block(g, r - i / 2, c - i % 2)
}

/// The `j`-th neighbour of `(r, c)` is enclosed.
pub open spec fn nb_enclosed(g: spec_fn(int, int) -> int, r: int, c: int, j: int) -> bool {
    enclosed(g, neighbour(r, c, j).0, neighbour(r, c, j).1)
}

/// The `j`-th neighbour of `(r, c)`: above, below, left, right.
pub open spec fn neighbour(r: int, c: int, j: int) -> (int, int) {
    if j == 0 {
        (r - 1, c)
    } else if j == 1 {
        (r + 1, c)
    } else if j == 2 {
        (r, c - 1)
    } else {
        (r, c + 1)
    }
}


// ---------------------------------------------------------------------------
// Connected white cells
// ---------------------------------------------------------------------------

/// `(r, c)` is a white cell of the pattern.
pub open spec fn white_at(b: [[u8; N]; N], r: int, c: int) -> bool {
    0 <= r < 9 && 0 <= c < 9 && b[r][c] == 0
}

/// `(r, c)` is the first white cell in row-major order.
pub open spec fn first_white(b: [[u8; N]; N], r: int, c: int) -> bool {
    &&& white_at(b, r, c)
    &&& forall|i: int, j: int| 0 <= i < 9 && 0 <= j < 9 && i * 9 + j < r * 9 + c ==> !#[trigger] white_at(b, i, j)
}

/// A set of cells that takes in every white neighbour of its white cells.
pub open spec fn closed_set(b: [[u8; N]; N], set: spec_fn(int, int) -> bool) -> bool {
    forall|r: int, c: int, j: int|
        #![trigger set(r, c), neighbour(r, c, j)]
        0 <= j < 4 && set(r, c) && white_at(b, r, c) && white_at(b, neighbour(r, c, j).0, neighbour(r, c, j).1) ==> set(
            neighbour(r, c, j).0,
            neighbour(r, c, j).1,
        )
}

/// The white cells form one region joined through shared sides: every
/// closed set that holds the first white cell holds them all.
pub open spec fn white_region_connected(b: [[u8; N]; N]) -> bool {
    forall|r0: int, c0: int| #[trigger] first_white(b, r0, c0) ==> forall|set: spec_fn(int, int) -> bool|
        closed_set(b, set) && set(r0, c0) ==> forall|r: int, c: int| #[trigger] white_at(b, r, c) ==> set(r, c)
}

/// Cells marked in `g` from position `k` on, in row-major order.
pub open spec fn marked_from(g: [[bool; N]; N], k: int) -> int
    decreases 81 - k,
{
    if k < 0 || k >= 81 {
        0
    } else {
        (if g[k / 9][k % 9] { 1int } else { 0int }) + marked_from(g, k + 1)
    }
}

/// White cells from position `k` on.
pub open spec fn white_from(b: [[u8; N]; N], k: int) -> int
    decreases 81 - k,
{
    if k < 0 || k >= 81 {
        0
    } else {
        (if b[k / 9][k % 9] == 0 { 1int } else { 0int }) + white_from(b, k + 1)
    }
}

proof fn lemma_marked_step(g: [[bool; N]; N], h: [[bool; N]; N], r: int, c: int, k: int)
    requires
        0 <= r < 9, 0 <= c < 9, 0 <= k <= 81,
        !g[r][c], h[r][c],
        forall|i: int, j: int| 0 <= i < 9 && 0 <= j < 9 && (i != r || j != c) ==> #[trigger] h[i][j] == g[i][j],
    ensures marked_from(h, k) == marked_from(g, k) + if k <= r * 9 + c { 1int } else { 0int },
    decreases 81 - k,
{
    if k < 81 {
        lemma_marked_step(g, h, r, c, k + 1);
        assert(0 <= k / 9 < 9 && 0 <= k % 9 < 9);
        if k == r * 9 + c {
            assert(k / 9 == r && k % 9 == c) by (nonlinear_arith)
                requires k == r * 9 + c, 0 <= c < 9;
        } else {
            assert(k / 9 != r || k % 9 != c) by (nonlinear_arith)
                requires k != r * 9 + c, 0 <= c < 9, 0 <= k;
        }
    }
}

proof fn lemma_marked_le(g: [[bool; N]; N], b: [[u8; N]; N], k: int)
    requires
        0 <= k <= 81,
        forall|i: int, j: int| 0 <= i < 9 && 0 <= j < 9 && #[trigger] g[i][j] ==> b[i][j] == 0,
    ensures
        marked_from(g, k) <= white_from(b, k),
        (exists|i: int, j: int| 0 <= i < 9 && 0 <= j < 9 && k <= i * 9 + j && b[i][j] == 0 && !#[trigger] g[i][j]) ==> marked_from(g, k)
            < white_from(b, k),
    decreases 81 - k,
{
    if k < 81 {
        lemma_marked_le(g, b, k + 1);
        assert(0 <= k / 9 < 9 && 0 <= k % 9 < 9);
        if exists|i: int, j: int| 0 <= i < 9 && 0 <= j < 9 && k <= i * 9 + j && b[i][j] == 0 && !#[trigger] g[i][j] {
            let (i, j) = choose|i: int, j: int| 0 <= i < 9 && 0 <= j < 9 && k <= i * 9 + j && b[i][j] == 0 && !#[trigger] g[i][j];
            if i * 9 + j == k {
                assert(k / 9 == i && k % 9 == j) by (nonlinear_arith)
                    requires k == i * 9 + j, 0 <= j < 9;
            } else {
                assert(k + 1 <= i * 9 + j);
            }
        }
    }
}

proof fn lemma_marked_eq(g: [[bool; N]; N], b: [[u8; N]; N], k: int)
    requires
        0 <= k <= 81,
        forall|i: int, j: int| 0 <= i < 9 && 0 <= j < 9 ==> (#[trigger] g[i][j] <==> b[i][j] == 0),
    ensures marked_from(g, k) == white_from(b, k),
    decreases 81 - k,
{
    if k < 81 {
        lemma_marked_eq(g, b, k + 1);
        assert(0 <= k / 9 < 9 && 0 <= k % 9 < 9);
    }
}

proof fn lemma_marked_zero(k: int)
    requires 0 <= k <= 81,
    ensures marked_from([[false; N]; N], k) == 0,
    decreases 81 - k,
{
    if k < 81 {
        lemma_marked_zero(k + 1);
        assert(0 <= k / 9 < 9 && 0 <= k % 9 < 9);
    }
}

proof fn lemma_white_from_unfold(b: [[u8; N]; N], k: int)
    requires 0 <= k < 81,
    ensures white_from(b, k) == (if b[k / 9][k % 9] == 0 { 1int } else { 0int }) + white_from(b, k + 1),
{
}

proof fn lemma_white_from_nonneg(b: [[u8; N]; N], k: int)
    requires 0 <= k <= 81,
    ensures 0 <= white_from(b, k) <= 81 - k,
    decreases 81 - k,
{
    if k < 81 {
        lemma_white_from_nonneg(b, k + 1);
    }
}

proof fn lemma_first_white_unique(b: [[u8; N]; N], r0: int, c0: int, r1: int, c1: int)
    requires first_white(b, r0, c0), first_white(b, r1, c1),
    ensures r0 == r1 && c0 == c1,
{
    if r0 * 9 + c0 < r1 * 9 + c1 {
        assert(!white_at(b, r0, c0));
    } else if r1 * 9 + c1 < r0 * 9 + c0 {
        assert(!white_at(b, r1, c1));
    } else {
        assert(r0 == r1 && c0 == c1) by (nonlinear_arith)
            requires r0 * 9 + c0 == r1 * 9 + c1, 0 <= c0 < 9, 0 <= c1 < 9;
    }
}

/// The visited cells, as a set.
pub open spec fn marked_set(g: [[bool; N]; N]) -> spec_fn(int, int) -> bool {
    |i: int, j: int| 0 <= i < 9 && 0 <= j < 9 && g[i][j]
}

/// Marks the unvisited white neighbour `t` of `(r, c)` and puts it on the stack.
fn visit_neighbour(
    b: &[[u8; N]; N],
    visited: &mut [[bool; N]; N],
    stack: &mut Vec<(usize, usize)>,
    r: usize,
    c: usize,
    t: usize,
    Ghost(sr): Ghost<int>,
    Ghost(sc): Ghost<int>,
)
    requires
        r < 9, c < 9, t < 4,
        old(visited)[r as int][c as int],
        forall|i: int, j: int| 0 <= i < 9 && 0 <= j < 9 && #[trigger] old(visited)[i][j] ==> b[i][j] == 0,
        forall|k: int| 0 <= k < old(stack)@.len() ==> (#[trigger] old(stack)@[k]).0 < 9 && old(stack)@[k].1 < 9
            && old(visited)[old(stack)@[k].0 as int][old(stack)@[k].1 as int],
        forall|set: spec_fn(int, int) -> bool| closed_set(*b, set) && set(sr, sc) ==> forall|i: int, j: int|
            0 <= i < 9 && 0 <= j < 9 && #[trigger] old(visited)[i][j] ==> set(i, j),
        marked_from(*old(visited), 0) <= 81,
    ensures
        final(visited)[r as int][c as int],
        forall|i: int, j: int| 0 <= i < 9 && 0 <= j < 9 && #[trigger] old(visited)[i][j] ==> final(visited)[i][j],
        forall|i: int, j: int| 0 <= i < 9 && 0 <= j < 9 && #[trigger] final(visited)[i][j] ==> b[i][j] == 0,
        forall|k: int| 0 <= k < final(stack)@.len() ==> (#[trigger] final(stack)@[k]).0 < 9 && final(stack)@[k].1 < 9
            && final(visited)[final(stack)@[k].0 as int][final(stack)@[k].1 as int],
        forall|set: spec_fn(int, int) -> bool| closed_set(*b, set) && set(sr, sc) ==> forall|i: int, j: int|
            0 <= i < 9 && 0 <= j < 9 && #[trigger] final(visited)[i][j] ==> set(i, j),
        white_at(*b, neighbour(r as int, c as int, t as int).0, neighbour(r as int, c as int, t as int).1) ==> final(visited)[neighbour(
            r as int,
            c as int,
            t as int,
        ).0][neighbour(r as int, c as int, t as int).1],
        marked_from(*final(visited), 0) - marked_from(*old(visited), 0) == final(stack)@.len() - old(stack)@.len(),
        final(stack)@.len() >= old(stack)@.len(),
        final(stack)@.len() > old(stack)@.len() ==> marked_from(*final(visited), 0) > marked_from(*old(visited), 0),
        marked_from(*final(visited), 0) <= 81,
        forall|k: int| 0 <= k < old(stack)@.len() ==> final(stack)@[k] == old(stack)@[k],
        forall|k: int| old(stack)@.len() <= k < final(stack)@.len() ==> !old(visited)[(#[trigger] final(stack)@[k]).0 as int][final(stack)@[k].1 as int],
        forall|i: int, j: int| 0 <= i < 9 && 0 <= j < 9 && #[trigger] final(visited)[i][j] && !old(visited)[i][j] ==> final(stack)@.contains(
            (i as usize, j as usize),
        ),
{
    let (nr, nc) = if t == 0 {
        (r as i64 - 1, c as i64)
    } else if t == 1 {
        (r as i64 + 1, c as i64)
    } else if t == 2 {
        (r as i64, c as i64 - 1)
    } else {
        (r as i64, c as i64 + 1)
    };
    proof {
        assert(neighbour(r as int, c as int, t as int) == (nr as int, nc as int));
    }
    if 0 <= nr && nr < 9 && 0 <= nc && nc < 9 {
        let ur = nr as usize;
        let uc = nc as usize;
        if !visited[ur][uc] && b[ur][uc] == 0 {
            let ghost g0 = *visited;
            let mut row = visited[ur];
            row[uc] = true;
            visited[ur] = row;
            stack.push((ur, uc));
            proof {
                lemma_marked_step(g0, *visited, ur as int, uc as int, 0);
                lemma_marked_bound(*visited, 0);
                assert(stack@[stack@.len() - 1] == (ur, uc));
                assert forall|set: spec_fn(int, int) -> bool| closed_set(*b, set) && set(sr, sc) implies forall|i: int, j: int|
                    0 <= i < 9 && 0 <= j < 9 && #[trigger] visited[i][j] ==> set(i, j) by {
                    assert(set(r as int, c as int));
                    assert(white_at(*b, r as int, c as int));
                    assert(set(neighbour(r as int, c as int, t as int).0, neighbour(r as int, c as int, t as int).1));
                }
            }
        }
    }
}

proof fn lemma_marked_bound(g: [[bool; N]; N], k: int)
    requires 0 <= k <= 81,
    ensures 0 <= marked_from(g, k) <= 81 - k,
    decreases 81 - k,
{
    if k < 81 {
        lemma_marked_bound(g, k + 1);
    }
}

/// Whether the white cells of the pattern form one region joined through
/// shared sides (true when there are none).
pub fn white_connected(b: &[[u8; N]; N]) -> (connected: bool)
    ensures connected == white_region_connected(*b),
{
    let mut total: usize = 0;
    let mut start: Option<(usize, usize)> = None;
    for r in 0..N
        invariant
            total == white_from(*b, 0) - white_from(*b, r * 9),
            start is None ==> forall|i: int, j: int| 0 <= i < r && 0 <= j < 9 ==> !#[trigger] white_at(*b, i, j),
            start is None ==> total == 0,
            start matches Some(p) ==> p.0 < 9 && p.1 < 9 && first_white(*b, p.0 as int, p.1 as int),
            total <= r * 9,
    {
        for c in 0..N
            invariant
                r < 9,
                total == white_from(*b, 0) - white_from(*b, r * 9 + c),
                start is None ==> forall|i: int, j: int| 0 <= i < 9 && 0 <= j < 9 && i * 9 + j < r * 9 + c ==> !#[trigger] white_at(*b, i, j),
                start is None ==> total == 0,
                start matches Some(p) ==> p.0 < 9 && p.1 < 9 && first_white(*b, p.0 as int, p.1 as int),
                total <= r * 9 + c,
        {
            proof {
                assert((r * 9 + c) / 9 == r && (r * 9 + c) % 9 == c) by (nonlinear_arith)
                    requires 0 <= c < 9;
                lemma_white_from_unfold(*b, r * 9 + c);
            }
            if b[r][c] == 0 {
                total = total + 1;
                if start.is_none() {
                    start = Some((r, c));
                }
            }
            proof {
                assert forall|i: int, j: int| 0 <= i < 9 && 0 <= j < 9 && i * 9 + j < r * 9 + c + 1 && start is None implies !#[trigger] white_at(*b, i, j) by {
                    if i * 9 + j == r * 9 + c {
                        assert(i == r && j == c) by (nonlinear_arith)
                            requires i * 9 + j == r * 9 + c, 0 <= j < 9, 0 <= c < 9;
                    }
                }
            }
        }
    }
    proof {
        assert(white_from(*b, 81) == 0);
    }
    let (sr, sc) = match start {
        Some(p) => p,
        None => {
            proof {
                assert forall|r0: int, c0: int| #[trigger] first_white(*b, r0, c0) implies false by {
                    assert(white_at(*b, r0, c0));
                }
            }
            return true;
        },
    };
    let mut visited = [[false; N]; N];
    let mut stack: Vec<(usize, usize)> = Vec::new();
    proof {
        lemma_marked_zero(0);
    }
    let ghost g0 = visited;
    let mut row = visited[sr];
    row[sc] = true;
    visited[sr] = row;
    stack.push((sr, sc));
    proof {
        lemma_marked_step(g0, visited, sr as int, sc as int, 0);
        lemma_marked_bound(visited, 0);
        assert(stack@[0] == (sr, sc));
        assert forall|i: int, j: int| 0 <= i < 9 && 0 <= j < 9 && #[trigger] visited[i][j] implies i == sr && j == sc by {
            if i != sr || j != sc {
                assert(!g0[i][j]);
            }
        }
    }
    let mut reached: usize = 0;
    loop
        invariant
            sr < 9, sc < 9, first_white(*b, sr as int, sc as int),
            total == white_from(*b, 0),
            visited[sr as int][sc as int],
            forall|i: int, j: int| 0 <= i < 9 && 0 <= j < 9 && #[trigger] visited[i][j] ==> b[i][j] == 0,
            forall|k: int| 0 <= k < stack@.len() ==> (#[trigger] stack@[k]).0 < 9 && stack@[k].1 < 9 && visited[stack@[k].0 as int][stack@[k].1 as int],
            forall|set: spec_fn(int, int) -> bool| closed_set(*b, set) && set(sr as int, sc as int) ==> forall|i: int, j: int|
                0 <= i < 9 && 0 <= j < 9 && #[trigger] visited[i][j] ==> set(i, j),
            forall|i: int, j: int, t: int| #![trigger visited[i][j], neighbour(i, j, t)] 0 <= i < 9 && 0 <= j < 9 && visited[i][j] && !stack@.contains((i as usize, j as usize)) && 0 <= t < 4
                && white_at(*b, neighbour(i, j, t).0, neighbour(i, j, t).1) ==> visited[neighbour(i, j, t).0][neighbour(i, j, t).1],
            marked_from(visited, 0) == reached + stack@.len(),
            marked_from(visited, 0) <= 81,
        ensures
            stack@.len() == 0,
        decreases 81 - marked_from(visited, 0), stack@.len(),
    {
        let ghost stack0 = stack@;
        let ghost visited0 = visited;
        let (r, c) = match stack.pop() {
            Some(p) => p,
            None => {
                break;
            },
        };
        proof {
            assert(stack0 == stack@.push((r, c)));
            assert(stack0[stack0.len() - 1] == (r, c));
        }
        reached = reached + 1;
        let ghost stack1 = stack@;
        for t in 0..4usize
            invariant
                r < 9, c < 9, sr < 9, sc < 9, visited[r as int][c as int],
                forall|i: int, j: int| 0 <= i < 9 && 0 <= j < 9 && #[trigger] visited0[i][j] ==> visited[i][j],
                forall|i: int, j: int| 0 <= i < 9 && 0 <= j < 9 && #[trigger] visited[i][j] ==> b[i][j] == 0,
                forall|k: int| 0 <= k < stack@.len() ==> (#[trigger] stack@[k]).0 < 9 && stack@[k].1 < 9 && visited[stack@[k].0 as int][stack@[k].1 as int],
                forall|set: spec_fn(int, int) -> bool| closed_set(*b, set) && set(sr as int, sc as int) ==> forall|i: int, j: int|
                    0 <= i < 9 && 0 <= j < 9 && #[trigger] visited[i][j] ==> set(i, j),
                forall|u: int| 0 <= u < t && white_at(*b, neighbour(r as int, c as int, u).0, neighbour(r as int, c as int, u).1) ==> #[trigger] visited[neighbour(r as int, c as int, u).0][neighbour(r as int, c as int, u).1],
                marked_from(visited, 0) == reached + stack@.len(),
                marked_from(visited, 0) <= 81,
                stack@.len() >= stack1.len(),
                forall|k: int| 0 <= k < stack1.len() ==> stack@[k] == stack1[k],
                forall|k: int| stack1.len() <= k < stack@.len() ==> !visited0[(#[trigger] stack@[k]).0 as int][stack@[k].1 as int],
                marked_from(visited, 0) - marked_from(visited0, 0) == stack@.len() - stack1.len() + 0,
                forall|i: int, j: int| 0 <= i < 9 && 0 <= j < 9 && #[trigger] visited[i][j] && !visited0[i][j] ==> stack@.contains(
                    (i as usize, j as usize),
                ),
        {
            let ghost v_before = visited;
            let ghost s_before = stack@;
            visit_neighbour(b, &mut visited, &mut stack, r, c, t, Ghost(sr as int), Ghost(sc as int));
            proof {
                assert forall|u: int| 0 <= u < t + 1 && white_at(*b, neighbour(r as int, c as int, u).0, neighbour(r as int, c as int, u).1) implies #[trigger] visited[neighbour(r as int, c as int, u).0][neighbour(r as int, c as int, u).1] by {
                    if u < t {
                        assert(v_before[neighbour(r as int, c as int, u).0][neighbour(r as int, c as int, u).1]);
                    }
                }
                assert forall|i: int, j: int| 0 <= i < 9 && 0 <= j < 9 && #[trigger] visited[i][j] && !visited0[i][j] implies stack@.contains(
                    (i as usize, j as usize),
                ) by {
                    if v_before[i][j] {
                        let k = choose|k: int| 0 <= k < s_before.len() && s_before[k] == (i as usize, j as usize);
                        assert(stack@[k] == s_before[k]);
                    }
                }
                assert forall|k: int| stack1.len() <= k < stack@.len() implies !visited0[(#[trigger] stack@[k]).0 as int][stack@[k].1 as int] by {
                    if k < s_before.len() {
                        assert(stack@[k] == s_before[k]);
                    } else {
                        assert(!v_before[stack@[k].0 as int][stack@[k].1 as int]);
                    }
                }
            }
        }
        proof {
            assert forall|i: int, j: int, t: int| #![trigger visited[i][j], neighbour(i, j, t)] 0 <= i < 9 && 0 <= j < 9 && visited[i][j] && !stack@.contains((i as usize, j as usize)) && 0 <= t < 4
                && white_at(*b, neighbour(i, j, t).0, neighbour(i, j, t).1) implies visited[neighbour(i, j, t).0][neighbour(i, j, t).1] by {
                if i == r && j == c {
                } else if visited0[i][j] {
                    if stack0.contains((i as usize, j as usize)) {
                        let k = choose|k: int| 0 <= k < stack0.len() && stack0[k] == (i as usize, j as usize);
                        if k < stack1.len() {
                            assert(stack@[k] == stack1[k]);
                            assert(stack1[k] == stack0[k]);
                        } else {
                            assert(stack0[k] == (r, c));
                        }
                    }
                    assert(visited0[neighbour(i, j, t).0][neighbour(i, j, t).1]);
                } else {
                    assert(stack@.contains((i as usize, j as usize)));
                }
            }
        }
    }
    proof {
        let vs = marked_set(visited);
        assert(closed_set(*b, vs)) by {
            assert forall|i: int, j: int, t: int|
                #![trigger vs(i, j), neighbour(i, j, t)]
                0 <= t < 4 && vs(i, j) && white_at(*b, i, j) && white_at(*b, neighbour(i, j, t).0, neighbour(i, j, t).1) implies vs(
                    neighbour(i, j, t).0,
                    neighbour(i, j, t).1,
                ) by {
                assert(visited[i][j]);
                assert(!stack@.contains((i as usize, j as usize)));
            }
        }
        lemma_white_from_nonneg(*b, 0);
        if reached == total {
            assert forall|i: int, j: int| 0 <= i < 9 && 0 <= j < 9 && b[i][j] == 0 implies #[trigger] visited[i][j] by {
                if !visited[i][j] {
                    lemma_marked_le(visited, *b, 0);
                }
            }
            assert forall|r0: int, c0: int| #[trigger] first_white(*b, r0, c0) implies forall|set: spec_fn(int, int) -> bool|
                closed_set(*b, set) && set(r0, c0) ==> forall|r: int, c: int| #[trigger] white_at(*b, r, c) ==> set(r, c) by {
                lemma_first_white_unique(*b, r0, c0, sr as int, sc as int);
                assert forall|set: spec_fn(int, int) -> bool| closed_set(*b, set) && set(r0, c0) implies forall|r: int, c: int|
                    #[trigger] white_at(*b, r, c) ==> set(r, c) by {
                    assert forall|r: int, c: int| #[trigger] white_at(*b, r, c) implies set(r, c) by {
                        assert(visited[r][c]);
                    }
                }
            }
        } else {
            lemma_marked_le(visited, *b, 0);
            if forall|i: int, j: int| 0 <= i < 9 && 0 <= j < 9 && b[i][j] == 0 ==> #[trigger] visited[i][j] {
                assert forall|i: int, j: int| 0 <= i < 9 && 0 <= j < 9 implies (#[trigger] visited[i][j] <==> b[i][j] == 0) by {}
                lemma_marked_eq(visited, *b, 0);
            }
            let (wi, wj) = choose|i: int, j: int| 0 <= i < 9 && 0 <= j < 9 && b[i][j] == 0 && !#[trigger] visited[i][j];
            assert(vs(sr as int, sc as int));
            assert(white_at(*b, wi, wj) && !vs(wi, wj));
            assert(!white_region_connected(*b));
        }
    }
    reached == total
}


// ---------------------------------------------------------------------------
// Filling and stripping
// ---------------------------------------------------------------------------

/// The board with the black cells of the pattern and the given digits.
/// `bl` marks the black cells of the pattern `black`.
pub open spec fn black_flags(black: [[u8; N]; N], bl: [[bool; N]; N]) -> bool {
    forall|r: int, c: int| 0 <= r < 9 && 0 <= c < 9 ==> #[trigger] bl[r][c] == (black[r][c] == 1)
}

/// `t` solves the empty puzzle on the pattern `black` (marked by `bl`): no
/// digit on black cells, 1..=9 on white ones, and no rule broken.
pub open spec fn fills_pattern(black: [[u8; N]; N], bl: [[bool; N]; N], t: [[u8; N]; N]) -> bool {
    &&& black_flags(black, bl)
    &&& forall|r: int, c: int| 0 <= r < 9 && 0 <= c < 9 ==> (#[trigger] t[r][c] == 0 <==> bl[r][c]) && t[r][c] <= 9
    &&& consistent(t, bl)
}

/// The solution grid `grid` (its white cells) solves the puzzle with givens
/// `numbers` on the pattern `black`: with the puzzle's black cells put in, it
/// completes the puzzle by the rules of the game.
pub open spec fn solution_solves(black: [[u8; N]; N], numbers: [[u8; N]; N], grid: [[u8; N]; N]) -> bool {
    exists|bl: [[bool; N]; N], g: [[u8; N]; N]| {
        &&& black_flags(black, bl)
        &&& forall|r: int, c: int| 0 <= r < 9 && 0 <= c < 9 ==> #[trigger] g[r][c] == if black[r][c] == 1 {
            numbers[r][c]
        } else {
            grid[r][c]
        }
        &&& #[trigger] completes(numbers, bl, g)
    }
}

/// A grid whose nonzero entries are those of a consistent grid, at white
/// cells all of them, is consistent too.
proof fn lemma_fewer_clues_consistent(full: [[u8; N]; N], g: [[u8; N]; N], bl: [[bool; N]; N])
    requires
        consistent(full, bl),
        forall|r: int, c: int| 0 <= r < 9 && 0 <= c < 9 ==> #[trigger] g[r][c] == full[r][c] || (g[r][c] == 0 && bl[r][c]),
    ensures consistent(g, bl),
{
    assert forall|x: int, y: int| 0 <= x < 9 && 0 <= y < 9 && !bl[x][y] && #[trigger] g[x][y] != 0 implies {
        &&& span_ok(by_rows(g), by_rows(bl), x, y, g[x][y])
        &&& span_ok(by_cols(g), by_cols(bl), y, x, g[x][y])
    } by {
        assert(full[x][y] != 0);
        crate::backtrack::lemma_run_bounds_pub(by_rows(bl), x, y);
        crate::backtrack::lemma_run_bounds_pub(by_cols(bl), y, x);
        assert(span_ok(by_rows(full), by_rows(bl), x, y, full[x][y]));
        assert(span_ok(by_cols(full), by_cols(bl), y, x, full[x][y]));
        assert forall|i: int|
            run_lo(by_rows(bl), x, y) <= i <= run_hi(by_rows(bl), x, y) && i != x && #[trigger] by_rows(g)(i, y) != 0 implies absdiff(
            by_rows(g)(i, y),
            g[x][y],
        ) <= run_hi(by_rows(bl), x, y) - run_lo(by_rows(bl), x, y) by {
            assert(by_rows(full)(i, y) != 0);
        }
        assert forall|i: int|
            run_lo(by_cols(bl), y, x) <= i <= run_hi(by_cols(bl), y, x) && i != y && #[trigger] by_cols(g)(i, x) != 0 implies absdiff(
            by_cols(g)(i, x),
            g[x][y],
        ) <= run_hi(by_cols(bl), y, x) - run_lo(by_cols(bl), y, x) by {
            assert(by_cols(full)(i, x) != 0);
        }
    }
}

/// Clues at black cells that no other cell of their row or column holds keep
/// a consistent grid consistent.
proof fn lemma_clues_consistent(t: [[u8; N]; N], full: [[u8; N]; N], bl: [[bool; N]; N])
    requires
        consistent(t, bl),
        forall|r: int, c: int| 0 <= r < 9 && 0 <= c < 9 && bl[r][c] ==> #[trigger] t[r][c] == 0,
        forall|r: int, c: int| 0 <= r < 9 && 0 <= c < 9 && !bl[r][c] ==> #[trigger] full[r][c] == t[r][c],
        forall|r: int, c: int| 0 <= r < 9 && 0 <= c < 9 && bl[r][c] ==> #[trigger] full[r][c] == 0 || line_clear(full, r, c),
    ensures consistent(full, bl),
{
    assert forall|x: int, i: int, j: int| 0 <= x < 9 && 0 <= i < 9 && 0 <= j < 9 && i != j && #[trigger] full[x][i] != 0 implies full[x][i]
        != #[trigger] full[x][j] by {
        if bl[x][i] {
            assert(line_clear(full, x, i));
        } else if bl[x][j] {
            if full[x][j] != 0 {
                assert(line_clear(full, x, j));
            }
        } else {
            assert(t[x][i] != 0);
        }
    }
    assert forall|y: int, i: int, j: int| 0 <= y < 9 && 0 <= i < 9 && 0 <= j < 9 && i != j && #[trigger] full[i][y] != 0 implies full[i][y]
        != #[trigger] full[j][y] by {
        if bl[i][y] {
            assert(line_clear(full, i, y));
        } else if bl[j][y] {
            if full[j][y] != 0 {
                assert(line_clear(full, j, y));
            }
        } else {
            assert(t[i][y] != 0);
        }
    }
    assert forall|x: int, y: int| 0 <= x < 9 && 0 <= y < 9 && !bl[x][y] && #[trigger] full[x][y] != 0 implies {
        &&& span_ok(by_rows(full), by_rows(bl), x, y, full[x][y])
        &&& span_ok(by_cols(full), by_cols(bl), y, x, full[x][y])
    } by {
        assert(t[x][y] != 0);
        crate::backtrack::lemma_run_bounds_pub(by_rows(bl), x, y);
        crate::backtrack::lemma_run_bounds_pub(by_cols(bl), y, x);
        assert(span_ok(by_rows(t), by_rows(bl), x, y, t[x][y]));
        assert(span_ok(by_cols(t), by_cols(bl), y, x, t[x][y]));
        assert forall|i: int|
            run_lo(by_rows(bl), x, y) <= i <= run_hi(by_rows(bl), x, y) && i != x && #[trigger] by_rows(full)(i, y) != 0 implies absdiff(
            by_rows(full)(i, y),
            full[x][y],
        ) <= run_hi(by_rows(bl), x, y) - run_lo(by_rows(bl), x, y) by {
            assert(!by_rows(bl)(i, y));
            assert(by_rows(t)(i, y) != 0);
        }
        assert forall|i: int|
            run_lo(by_cols(bl), y, x) <= i <= run_hi(by_cols(bl), y, x) && i != y && #[trigger] by_cols(full)(i, x) != 0 implies absdiff(
            by_cols(full)(i, x),
            full[x][y],
        ) <= run_hi(by_cols(bl), y, x) - run_lo(by_cols(bl), y, x) by {
            assert(!by_cols(bl)(i, x));
            assert(by_cols(t)(i, x) != 0);
        }
    }
}

fn black_to_simple(black: &[[u8; N]; N], numbers: &[[u8; N]; N]) -> (s: SimpleStr8ts)
    ensures
        s.numbers == *numbers,
        forall|r: int, c: int| 0 <= r < 9 && 0 <= c < 9 ==> #[trigger] s.is_black[r][c] == (black[r][c] == 1),
{
    let mut is_black = [[false; N]; N];
    for r in 0..N
        invariant forall|i: int, c: int| 0 <= i < r && 0 <= c < 9 ==> #[trigger] is_black[i][c] == (black[i][c] == 1),
    {
        let mut row = is_black[r];
        for c in 0..N
            invariant
                r < 9,
                forall|j: int| 0 <= j < c ==> #[trigger] row[j] == (black[r as int][j] == 1),
        {
            row[c] = black[r][c] == 1;
        }
        is_black[r] = row;
    }
    SimpleStr8ts { is_black, numbers: *numbers }
}

/// A solution of the empty board with this pattern, found by the SAT solver:
/// every white cell gets a digit, black cells stay empty.
fn fill_white_cells(black: &[[u8; N]; N]) -> (res: Option<[[u8; N]; N]>)
    ensures
        res matches Some(t) ==> {
            &&& forall|r: int, c: int| 0 <= r < 9 && 0 <= c < 9 && black[r][c] != 1 ==> 1 <= #[trigger] t[r][c] <= 9
            &&& forall|r: int, c: int| 0 <= r < 9 && 0 <= c < 9 && black[r][c] == 1 ==> #[trigger] t[r][c] == 0
            &&& forall|bl: [[bool; N]; N]| black_flags(*black, bl) ==> #[trigger] consistent(t, bl)
        },
        res is None ==> forall|bl: [[bool; N]; N], t: [[u8; N]; N]| !#[trigger] fills_pattern(*black, bl, t),
{
    let mut s = black_to_simple(black, &[[0u8; N]; N]);
    let ghost s0 = s;
    if solve_sat(&mut s) {
        proof {
            assert(digits_ok(s0.numbers));
            assert(completes(s0.numbers, s0.is_black, s.numbers));
            assert forall|bl: [[bool; N]; N]| black_flags(*black, bl) implies #[trigger] consistent(s.numbers, bl) by {
                crate::board::lemma_grid_eq(bl, s.is_black);
            }
        }
        Some(s.numbers)
    } else {
        proof {
            assert(digits_ok(s0.numbers));
            assert forall|bl: [[bool; N]; N], t: [[u8; N]; N]| !#[trigger] fills_pattern(*black, bl, t) by {
                if fills_pattern(*black, bl, t) {
                    crate::board::lemma_grid_eq(bl, s0.is_black);
                    assert(completes(s0.numbers, s0.is_black, t));
                }
            }
        }
        None
    }
}

/// No other cell of the row or the column holds the digit of `(r, c)`.
pub open spec fn line_clear(numbers: [[u8; N]; N], r: int, c: int) -> bool {
    &&& forall|k: int| 0 <= k < 9 && k != c ==> #[trigger] numbers[r][k] != numbers[r][c]
    &&& forall|k: int| 0 <= k < 9 && k != r ==> #[trigger] numbers[k][c] != numbers[r][c]
}

/// Gives each black cell a random digit that no other cell of its row or
/// column holds, or leaves it empty when there is none.
fn fill_black_cells(rng: &mut rand::rngs::StdRng, black: &[[u8; N]; N], white_solution: &[[u8; N]; N]) -> (numbers: [[u8; N]; N])
    requires forall|r: int, c: int| 0 <= r < 9 && 0 <= c < 9 ==> #[trigger] white_solution[r][c] <= 9,
    ensures
        forall|r: int, c: int| 0 <= r < 9 && 0 <= c < 9 && black[r][c] != 1 ==> #[trigger] numbers[r][c] == white_solution[r][c],
        forall|r: int, c: int| 0 <= r < 9 && 0 <= c < 9 && black[r][c] == 1 ==> #[trigger] numbers[r][c] == 0 || line_clear(numbers, r, c),
        forall|r: int, c: int| 0 <= r < 9 && 0 <= c < 9 ==> #[trigger] numbers[r][c] <= 9,
{
    let mut numbers = *white_solution;
    for r in 0..N
        invariant
            forall|i: int, c: int| 0 <= i < 9 && 0 <= c < 9 ==> #[trigger] numbers[i][c] <= 9,
            forall|i: int, c: int| 0 <= i < 9 && 0 <= c < 9 && (black[i][c] != 1 || i >= r) ==> #[trigger] numbers[i][c] == white_solution[i][c],
            forall|i: int, c: int| 0 <= i < r && 0 <= c < 9 && black[i][c] == 1 ==> #[trigger] numbers[i][c] == 0 || line_clear(numbers, i, c),
    {
        for c in 0..N
            invariant
                r < 9,
                forall|i: int, j: int| 0 <= i < 9 && 0 <= j < 9 ==> #[trigger] numbers[i][j] <= 9,
                forall|i: int, j: int| 0 <= i < 9 && 0 <= j < 9 && (black[i][j] != 1 || i > r || (i == r && j >= c)) ==> #[trigger] numbers[i][j] == white_solution[i][j],
                forall|i: int, j: int| 0 <= i < 9 && 0 <= j < 9 && (i < r || (i == r && j < c)) && black[i][j] == 1 ==> #[trigger] numbers[i][j] == 0 || line_clear(numbers, i, j),
        {
            if black[r][c] == 1 {
                let ghost before = numbers;
                let mut row = numbers[r];
                row[c] = 0;
                numbers[r] = row;
                let mut used = [false; 10];
                for ci in 0..N
                    invariant
                        r < 9, c < 9,
                        forall|i: int, j: int| 0 <= i < 9 && 0 <= j < 9 ==> #[trigger] numbers[i][j] <= 9,
                        forall|d: int| 1 <= d <= 9 && !used[d] ==> forall|k: int| 0 <= k < ci && k != c ==> #[trigger] numbers[r as int][k] != d,
                {
                    if ci != c && numbers[r][ci] != 0 {
                        used[numbers[r][ci] as usize] = true;
                    }
                }
                for ri in 0..N
                    invariant
                        r < 9, c < 9,
                        forall|i: int, j: int| 0 <= i < 9 && 0 <= j < 9 ==> #[trigger] numbers[i][j] <= 9,
                        forall|d: int| 1 <= d <= 9 && !used[d] ==> forall|k: int| 0 <= k < 9 && k != c ==> #[trigger] numbers[r as int][k] != d,
                        forall|d: int| 1 <= d <= 9 && !used[d] ==> forall|k: int| 0 <= k < ri && k != r ==> #[trigger] numbers[k][c as int] != d,
                {
                    if ri != r && numbers[ri][c] != 0 {
                        used[numbers[ri][c] as usize] = true;
                    }
                }
                let mut valid: Vec<u8> = Vec::new();
                for n in 1..10u8
                    invariant forall|k: int| 0 <= k < valid@.len() ==> 1 <= #[trigger] valid@[k] <= 9 && !used[valid@[k] as int],
                {
                    if !used[n as usize] {
                        valid.push(n);
                    }
                }
                if let Some(digit) = choose_digit(rng, &valid) {
                    let ghost mid = numbers;
                    let mut row = numbers[r];
                    row[c] = digit;
                    numbers[r] = row;
                    proof {
                        let k = choose|k: int| 0 <= k < valid@.len() && valid@[k] == digit;
                        assert(!used[digit as int]);
                        assert forall|i: int, j: int| 0 <= i < 9 && 0 <= j < 9 && (i < r || (i == r && j < c + 1)) && black[i][j] == 1 implies #[trigger] numbers[i][j] == 0 || line_clear(numbers, i, j) by {
                            if i == r && j == c {
                                assert forall|k: int| 0 <= k < 9 && k != c implies #[trigger] numbers[r as int][k] != numbers[r as int][c as int] by {
                                    assert(numbers[r as int][k] == mid[r as int][k]);
                                }
                                assert forall|k: int| 0 <= k < 9 && k != r implies #[trigger] numbers[k][c as int] != numbers[r as int][c as int] by {
                                    assert(numbers[k][c as int] == mid[k][c as int]);
                                }
                            } else if mid[i][j] != 0 {
                                assert(line_clear(mid, i, j));
                                assert forall|k: int| 0 <= k < 9 && k != j implies #[trigger] numbers[i][k] != numbers[i][j] by {
                                    if i == r && k == c {
                                        assert(mid[i][j] != 0 && !used[digit as int]);
                                    }
                                }
                                assert forall|k: int| 0 <= k < 9 && k != i implies #[trigger] numbers[k][j] != numbers[i][j] by {
                                    if k == r && j == c {
                                        assert(mid[i][j] != 0 && !used[digit as int]);
                                    }
                                }
                            }
                        }
                    }
                } else {
                    proof {
                        assert forall|i: int, j: int| 0 <= i < 9 && 0 <= j < 9 && (i < r || (i == r && j < c + 1)) && black[i][j] == 1 implies #[trigger] numbers[i][j] == 0 || line_clear(numbers, i, j) by {
                            if (i != r || j != c) && numbers[i][j] != 0 {
                                assert(line_clear(before, i, j));
                                assert forall|k: int| 0 <= k < 9 && k != j implies #[trigger] numbers[i][k] != numbers[i][j] by {
                                    assert(before[i][j] == numbers[i][j]);
                                }
                                assert forall|k: int| 0 <= k < 9 && k != i implies #[trigger] numbers[k][j] != numbers[i][j] by {
                                    assert(before[i][j] == numbers[i][j]);
                                }
                            }
                        }
                    }
                }
            }
        }
    }
    numbers
}

/// The cells of the given colour (1 black, 0 white) that hold a digit, in
/// row-major order.
fn filled_cells_of(black: &[[u8; N]; N], numbers: &[[u8; N]; N], color: u8) -> (out: Vec<(usize, usize)>)
    ensures
        out@ == Seq::new(81, |k: int| ((k / 9) as usize, (k % 9) as usize)).filter(
            |q: (usize, usize)| black[q.0 as int][q.1 as int] == color && numbers[q.0 as int][q.1 as int] != 0,
        ),
        forall|k: int| 0 <= k < out@.len() ==> (#[trigger] out@[k]).0 < 9 && out@[k].1 < 9 && black[out@[k].0 as int][out@[k].1 as int] == color
            && numbers[out@[k].0 as int][out@[k].1 as int] != 0,
{
    let mut out: Vec<(usize, usize)> = Vec::new();
    let ghost all = Seq::new(81, |k: int| ((k / 9) as usize, (k % 9) as usize));
    let ghost p = |q: (usize, usize)| black[q.0 as int][q.1 as int] == color && numbers[q.0 as int][q.1 as int] != 0;
    for r in 0..N
        invariant
            all == Seq::new(81, |k: int| ((k / 9) as usize, (k % 9) as usize)),
            p == (|q: (usize, usize)| black[q.0 as int][q.1 as int] == color && numbers[q.0 as int][q.1 as int] != 0),
            out@ == all.take(r * 9).filter(p),
    {
        for c in 0..N
            invariant
                r < 9,
                all == Seq::new(81, |k: int| ((k / 9) as usize, (k % 9) as usize)),
                p == (|q: (usize, usize)| black[q.0 as int][q.1 as int] == color && numbers[q.0 as int][q.1 as int] != 0),
                out@ == all.take(r * 9 + c).filter(p),
        {
            proof {
                assert((r * 9 + c) / 9 == r && (r * 9 + c) % 9 == c) by (nonlinear_arith)
                    requires 0 <= c < 9;
                assert(all.take(r * 9 + c + 1).drop_last() == all.take(r * 9 + c));
                assert(all.take(r * 9 + c + 1).last() == (r, c));
                reveal_with_fuel(Seq::filter, 1);
            }
            if black[r][c] == color && numbers[r][c] != 0 {
                out.push((r, c));
            }
        }
    }
    proof {
        assert(all.take(81) == all);
        assert forall|k: int| 0 <= k < out@.len() implies (#[trigger] out@[k]).0 < 9 && out@[k].1 < 9 && black[out@[k].0 as int][out@[k].1 as int] == color
            && numbers[out@[k].0 as int][out@[k].1 as int] != 0 by {
            all.lemma_filter_pred(p, k);
            assert(all.filter(p).contains(out@[k]));
            all.lemma_filter_contains_rev(p, out@[k]);
        }
    }
    out
}

/// `bl` marks the black cells of `black`.
pub open spec fn flags_of(bl: [[bool; N]; N], black: [[u8; N]; N]) -> bool {
    forall|r: int, c: int| 0 <= r < 9 && 0 <= c < 9 ==> #[trigger] bl[r][c] == (black[r][c] == 1)
}

/// The puzzle with black pattern `black` and givens `numbers` has exactly
/// one solution.
pub open spec fn uniquely_solvable(black: [[u8; N]; N], numbers: [[u8; N]; N]) -> bool {
    exists|bl: [[bool; N]; N]| {
        &&& #[trigger] flags_of(bl, black)
        &&& (exists|t: [[u8; N]; N]| #[trigger] completes(numbers, bl, t))
        &&& (forall|t1: [[u8; N]; N], t2: [[u8; N]; N]| #[trigger] completes(numbers, bl, t1) && #[trigger] completes(numbers, bl, t2) ==> t1 == t2)
    }
}

/// `text` writes a puzzle on the pattern `black` that has exactly one solution.
pub open spec fn unique_puzzle_text(text: Seq<char>, black: [[u8; N]; N]) -> bool {
    exists|n: [[u8; N]; N]| #[trigger] puzzle_text(text, black, n) && uniquely_solvable(black, n)
}

/// `t` with the black cells among the first `k` (row-major) taken from `p`.
pub open spec fn clues_from(t: [[u8; N]; N], p: [[u8; N]; N], bl: [[bool; N]; N], k: int) -> [[u8; N]; N]
    decreases k,
{
    if k <= 0 {
        t
    } else {
        let prev = clues_from(t, p, bl, k - 1);
        let r = (k - 1) / 9;
        let c = (k - 1) % 9;
        if bl[r][c] {
            vstd::array::spec_array_update(prev, r, vstd::array::spec_array_update(prev[r], c, p[r][c]))
        } else {
            prev
        }
    }
}

proof fn lemma_clues_from(t: [[u8; N]; N], p: [[u8; N]; N], bl: [[bool; N]; N], k: int)
    requires 0 <= k <= 81,
    ensures
        forall|r: int, c: int| 0 <= r < 9 && 0 <= c < 9 ==> #[trigger] clues_from(t, p, bl, k)[r][c] == if r * 9 + c < k && bl[r][c] {
            p[r][c]
        } else {
            t[r][c]
        },
    decreases k,
{
    if k > 0 {
        lemma_clues_from(t, p, bl, k - 1);
        let prev = clues_from(t, p, bl, k - 1);
        let r0 = (k - 1) / 9;
        let c0 = (k - 1) % 9;
        assert(r0 * 9 + c0 == k - 1 && 0 <= r0 < 9 && 0 <= c0 < 9) by (nonlinear_arith)
            requires r0 == (k - 1) / 9, c0 == (k - 1) % 9, 1 <= k <= 81;
        if bl[r0][c0] {
            let row = vstd::array::spec_array_update(prev[r0], c0, p[r0][c0]);
            let w = vstd::array::spec_array_update(prev, r0, row);
            assert(row@ == prev[r0]@.update(c0, p[r0][c0]));
            assert(w@ == prev@.update(r0, row));
            assert forall|r: int, c: int| 0 <= r < 9 && 0 <= c < 9 implies #[trigger] w[r][c] == if r * 9 + c < k && bl[r][c] {
                p[r][c]
            } else {
                t[r][c]
            } by {
                assert(w[r] == w@[r]);
                if r == r0 {
                    assert(w[r] == row);
                    assert(row[c] == row@[c]);
                    assert(prev[r][c] == prev[r]@[c]);
                    if c != c0 {
                        assert(r * 9 + c < k <==> r * 9 + c < k - 1);
                    }
                } else {
                    assert(w[r] == prev[r]);
                    assert(r * 9 + c != k - 1) by (nonlinear_arith)
                        requires r != r0, r0 * 9 + c0 == k - 1, 0 <= c < 9, 0 <= c0 < 9;
                }
            }
        } else {
            assert forall|r: int, c: int| 0 <= r < 9 && 0 <= c < 9 implies #[trigger] prev[r][c] == if r * 9 + c < k && bl[r][c] {
                p[r][c]
            } else {
                t[r][c]
            } by {
                if r * 9 + c == k - 1 {
                    assert(r == r0 && c == c0) by (nonlinear_arith)
                        requires r * 9 + c == k - 1, r0 * 9 + c0 == k - 1, 0 <= c < 9, 0 <= c0 < 9;
                }
            }
        }
    }
}

/// Two grids equal cell by cell are equal.
proof fn lemma_grid_ext(a: [[u8; N]; N], b: [[u8; N]; N])
    requires forall|r: int, c: int| 0 <= r < 9 && 0 <= c < 9 ==> #[trigger] a[r][c] == b[r][c],
    ensures a == b,
{
    assert forall|r: int| 0 <= r < 9 implies a[r] =~= b[r] by {}
    assert(a =~= b);
}

/// The fully given puzzle (every white digit and every clue of a consistent
/// grid) has exactly one solution: itself.
proof fn lemma_full_unique(black: [[u8; N]; N], full: [[u8; N]; N], bl: [[bool; N]; N])
    requires
        flags_of(bl, black),
        consistent(full, bl),
        forall|r: int, c: int| 0 <= r < 9 && 0 <= c < 9 && !bl[r][c] ==> 1 <= #[trigger] full[r][c] <= 9,
    ensures uniquely_solvable(black, full),
{
    assert(completes(full, bl, full));
    assert forall|t1: [[u8; N]; N], t2: [[u8; N]; N]| #[trigger] completes(full, bl, t1) && #[trigger] completes(full, bl, t2) implies t1 == t2 by {
        lemma_grid_ext(t1, t2);
    }
}

/// Giving back digits of the full grid keeps a stripped puzzle uniquely
/// solvable.
proof fn lemma_add_givens(black: [[u8; N]; N], bl: [[bool; N]; N], full: [[u8; N]; N], p: [[u8; N]; N], p2: [[u8; N]; N])
    requires
        flags_of(bl, black),
        consistent(full, bl),
        forall|r: int, c: int| 0 <= r < 9 && 0 <= c < 9 && !bl[r][c] ==> 1 <= #[trigger] full[r][c] <= 9,
        forall|r: int, c: int| 0 <= r < 9 && 0 <= c < 9 ==> (#[trigger] p[r][c] == full[r][c] || p[r][c] == 0),
        forall|r: int, c: int| 0 <= r < 9 && 0 <= c < 9 ==> (#[trigger] p2[r][c] == full[r][c] || p2[r][c] == 0),
        forall|r: int, c: int| 0 <= r < 9 && 0 <= c < 9 && #[trigger] p[r][c] != 0 ==> p2[r][c] == p[r][c],
        uniquely_solvable(black, p),
    ensures uniquely_solvable(black, p2),
{
    let b2 = choose|b2: [[bool; N]; N]| {
        &&& #[trigger] flags_of(b2, black)
        &&& (exists|t: [[u8; N]; N]| #[trigger] completes(p, b2, t))
        &&& (forall|t1: [[u8; N]; N], t2: [[u8; N]; N]| #[trigger] completes(p, b2, t1) && #[trigger] completes(p, b2, t2) ==> t1 == t2)
    };
    assert(b2 =~= bl) by {
        assert forall|i: int| 0 <= i < 9 implies b2[i] =~= bl[i] by {}
    }
    // the full grid with the clues of p is the one solution of p
    let fp = clues_from(full, p, bl, 81);
    lemma_clues_from(full, p, bl, 81);
    lemma_fewer_clues_consistent(full, fp, bl);
    assert(completes(p, bl, fp));
    // the full grid with the clues of p2 solves p2
    let fp2 = clues_from(full, p2, bl, 81);
    lemma_clues_from(full, p2, bl, 81);
    lemma_fewer_clues_consistent(full, fp2, bl);
    assert(completes(p2, bl, fp2));
    assert forall|t1: [[u8; N]; N], t2: [[u8; N]; N]| #[trigger] completes(p2, bl, t1) && #[trigger] completes(p2, bl, t2) implies t1 == t2 by {
        let u1 = clues_from(t1, p, bl, 81);
        let u2 = clues_from(t2, p, bl, 81);
        lemma_clues_from(t1, p, bl, 81);
        lemma_clues_from(t2, p, bl, 81);
        lemma_fewer_clues_consistent(t1, u1, bl);
        lemma_fewer_clues_consistent(t2, u2, bl);
        assert(completes(p, bl, u1));
        assert(completes(p, bl, u2));
        assert(u1 == fp && u2 == fp);
        assert forall|r: int, c: int| 0 <= r < 9 && 0 <= c < 9 implies #[trigger] t1[r][c] == t2[r][c] by {
            assert(u1[r][c] == u2[r][c]);
        }
        lemma_grid_ext(t1, t2);
    }
    assert(uniquely_solvable(black, p2)) by {
        assert(flags_of(bl, black));
    }
}

/// Emptying a white cell where a single digit passes the local check keeps a
/// uniquely solvable puzzle uniquely solvable: every solution puts that digit
/// there.
proof fn lemma_strip_forced(black: [[u8; N]; N], prev: [[u8; N]; N], q: [[u8; N]; N], bl: [[bool; N]; N], r: int, c: int, w: u8)
    requires
        0 <= r < 9, 0 <= c < 9,
        flags_of(bl, black), !bl[r][c],
        q[r][c] == 0,
        set_cell(q, prev, r, c, prev[r][c]),
        uniquely_solvable(black, prev),
        forall|u: u8| 1 <= u <= 9 && #[trigger] spec_check(q, bl, r, c, u) ==> u == w,
    ensures uniquely_solvable(black, q),
{
    let b2 = choose|b2: [[bool; N]; N]| {
        &&& #[trigger] flags_of(b2, black)
        &&& (exists|t: [[u8; N]; N]| #[trigger] completes(prev, b2, t))
        &&& (forall|t1: [[u8; N]; N], t2: [[u8; N]; N]| #[trigger] completes(prev, b2, t1) && #[trigger] completes(prev, b2, t2) ==> t1 == t2)
    };
    assert(b2 =~= bl) by {
        assert forall|i: int, j: int| 0 <= i < 9 && 0 <= j < 9 implies b2[i][j] == bl[i][j] by {}
        assert forall|i: int| 0 <= i < 9 implies b2[i] =~= bl[i] by {}
    }
    let ts = choose|t: [[u8; N]; N]| #[trigger] completes(prev, bl, t);
    if prev[r][c] == 0 {
        assert(q =~= prev) by {
            assert forall|i: int| 0 <= i < 9 implies q[i] =~= prev[i] by {}
        }
    } else {
        lemma_completes_before_set(q, prev, bl, ts, r, c, prev[r][c]);
        assert forall|t1: [[u8; N]; N], t2: [[u8; N]; N]| #[trigger] completes(q, bl, t1) && #[trigger] completes(q, bl, t2) implies t1 == t2 by {
            lemma_solution_passes(q, bl, t1, r, c);
            lemma_solution_passes(q, bl, t2, r, c);
            lemma_solution_passes(q, bl, ts, r, c);
            assert(ts[r][c] == prev[r][c]);
            lemma_completes_after_set(q, prev, bl, t1, r, c);
            lemma_completes_after_set(q, prev, bl, t2, r, c);
        }
        assert(uniquely_solvable(black, q)) by {
            assert(flags_of(bl, black));
            assert(completes(q, bl, ts));
        }
    }
}

/// Takes out, in random order, the digits of the cells of one colour whose
/// removal leaves the puzzle with one solution: a white cell that only one
/// digit passes the local check for goes without asking the SAT solver; a
/// black clue goes only when the SAT solver finds the solution still unique.
fn strip_cells(rng: &mut rand::rngs::StdRng, black: &[[u8; N]; N], numbers: &mut [[u8; N]; N], color: u8)
    ensures
        forall|r: int, c: int| 0 <= r < 9 && 0 <= c < 9 ==> #[trigger] final(numbers)[r][c] == old(numbers)[r][c] || (final(numbers)[r][c] == 0
            && black[r][c] == color),
        color == 1 && digits_ok(*old(numbers)) && *final(numbers) != *old(numbers) ==> uniquely_solvable(*black, *final(numbers)),
        digits_ok(*old(numbers)) && uniquely_solvable(*black, *old(numbers)) ==> uniquely_solvable(*black, *final(numbers)),
{
    let ghost n0 = *numbers;
    let mut order = filled_cells_of(black, numbers, color);
    let ghost order0 = order@;
    shuffle_cells(rng, &mut order);
    proof {
        assert forall|k: int| 0 <= k < order@.len() implies (#[trigger] order@[k]).0 < 9 && order@[k].1 < 9 && black[order@[k].0 as int][order@[k].1 as int] == color by {
            vstd::seq_lib::to_multiset_contains(order@, order@[k]);
            assert(order@.contains(order@[k]));
            vstd::seq_lib::to_multiset_contains(order0, order@[k]);
        }
    }
    for k in 0..order.len()
        invariant
            n0 == *old(numbers),
            forall|k: int| 0 <= k < order@.len() ==> (#[trigger] order@[k]).0 < 9 && order@[k].1 < 9 && black[order@[k].0 as int][order@[k].1 as int] == color,
            forall|r: int, c: int| 0 <= r < 9 && 0 <= c < 9 ==> #[trigger] numbers[r][c] == n0[r][c] || (numbers[r][c] == 0 && black[r][c] == color),
            color == 1 && digits_ok(n0) && *numbers != n0 ==> uniquely_solvable(*black, *numbers),
            digits_ok(n0) && uniquely_solvable(*black, n0) ==> uniquely_solvable(*black, *numbers),
    {
        let (r, c) = order[k];
        proof {
            assert(order@[k as int] == (r, c));
        }
        let ghost prev = *numbers;
        let saved = numbers[r][c];
        let mut row = numbers[r];
        row[c] = 0;
        numbers[r] = row;
        let s = black_to_simple(black, numbers);
        let mut valid_count: usize = 0;
        let ghost mut w: u8 = 0;
        let mut v: u8 = 1;
        while v < 10
            invariant
                r < 9, c < 9, 1 <= v <= 10, valid_count < v,
                valid_count >= 1 ==> 1 <= w < v && spec_check(s.numbers, s.is_black, r as int, c as int, w),
                valid_count == 0 ==> forall|u: u8| 1 <= u < v ==> !#[trigger] spec_check(s.numbers, s.is_black, r as int, c as int, u),
                valid_count == 1 ==> forall|u: u8| 1 <= u < v && #[trigger] spec_check(s.numbers, s.is_black, r as int, c as int, u) ==> u == w,
            decreases 10 - v,
        {
            if check(&s, r, c, v) {
                proof {
                    if valid_count == 0 {
                        w = v;
                    }
                }
                valid_count = valid_count + 1;
            }
            v = v + 1;
        }
        let keep = if valid_count == 0 {
            false
        } else if valid_count == 1 && color == 0 {
            proof {
                if digits_ok(n0) && uniquely_solvable(*black, n0) {
                    assert(flags_of(s.is_black, *black));
                    assert(set_cell(*numbers, prev, r as int, c as int, prev[r as int][c as int]));
                    lemma_strip_forced(*black, prev, *numbers, s.is_black, r as int, c as int, w);
                }
            }
            true
        } else {
            let status = puzzle_status_sat(&s);
            proof {
                if digits_ok(n0) {
                    assert(digits_ok(s.numbers));
                    if status == SatPuzzleStatus::Unique {
                        assert(flags_of(s.is_black, *black));
                        assert(uniquely_solvable(*black, *numbers));
                    }
                }
            }
            matches!(status, SatPuzzleStatus::Unique)
        };
        if !keep {
            let mut row = numbers[r];
            row[c] = saved;
            numbers[r] = row;
            proof {
                assert(numbers[r as int] =~= prev[r as int]);
                assert(*numbers =~= prev);
            }
        }
    }
}

/// Strips the digits of white cells while the puzzle stays uniquely solvable.
fn strip_white_cells(rng: &mut rand::rngs::StdRng, black: &[[u8; N]; N], numbers: &mut [[u8; N]; N])
    ensures
        forall|r: int, c: int| 0 <= r < 9 && 0 <= c < 9 ==> #[trigger] final(numbers)[r][c] == old(numbers)[r][c] || (final(numbers)[r][c] == 0
            && black[r][c] == 0),
        digits_ok(*old(numbers)) && uniquely_solvable(*black, *old(numbers)) ==> uniquely_solvable(*black, *final(numbers)),
{
    strip_cells(rng, black, numbers, 0);
}

/// Strips the clues of black cells while the puzzle stays uniquely solvable.
fn strip_black_cells(rng: &mut rand::rngs::StdRng, black: &[[u8; N]; N], numbers: &mut [[u8; N]; N])
    ensures
        forall|r: int, c: int| 0 <= r < 9 && 0 <= c < 9 ==> #[trigger] final(numbers)[r][c] == old(numbers)[r][c] || (final(numbers)[r][c] == 0
            && black[r][c] == 1),
        digits_ok(*old(numbers)) && *final(numbers) != *old(numbers) ==> uniquely_solvable(*black, *final(numbers)),
        digits_ok(*old(numbers)) && uniquely_solvable(*black, *old(numbers)) ==> uniquely_solvable(*black, *final(numbers)),
{
    strip_cells(rng, black, numbers, 1);
}


// ---------------------------------------------------------------------------
// Texts
// ---------------------------------------------------------------------------

/// The character of a black cell: `#` when empty, `a`..`i` for a clue.
pub open spec fn black_char(n: u8) -> char {
    if n == 0 {
        '#'
    } else {
        ((97 + n - 1) as u8) as char
    }
}

/// The character of a cell of a puzzle: white cells show `.` when empty.
pub open spec fn puzzle_char(black: u8, n: u8) -> char {
    if black == 1 {
        black_char(n)
    } else if n == 0 {
        '.'
    } else {
        ((48 + n) as u8) as char
    }
}

/// The digits fit the characters of the board format.
pub open spec fn writable(black: [[u8; N]; N], numbers: [[u8; N]; N]) -> bool {
    forall|r: int, c: int| 0 <= r < 9 && 0 <= c < 9 ==> if black[r][c] == 1 {
        #[trigger] numbers[r][c] <= 158
    } else {
        numbers[r][c] <= 207
    }
}

/// `out` is the puzzle in the 81-character board format.
pub open spec fn puzzle_text(out: Seq<char>, black: [[u8; N]; N], numbers: [[u8; N]; N]) -> bool {
    &&& out.len() == 81
    &&& forall|r: int, c: int| 0 <= r < 9 && 0 <= c < 9 ==> out[r * 9 + c] == puzzle_char(black[r][c], numbers[r][c])
}

/// `out` is the solution in the board format: the puzzle's black cells and
/// the solution's digits in all white cells.
pub open spec fn solution_text(out: Seq<char>, black: [[u8; N]; N], numbers: [[u8; N]; N], solution: [[u8; N]; N]) -> bool {
    &&& out.len() == 81
    &&& forall|r: int, c: int| 0 <= r < 9 && 0 <= c < 9 ==> out[r * 9 + c] == if black[r][c] == 1 {
        black_char(numbers[r][c])
    } else {
        ((48 + solution[r][c]) as u8) as char
    }
}

proof fn lemma_cell_index(r: int, c: int, rr: int, cc: int)
    requires 0 <= c < 9, 0 <= cc < 9, rr * 9 + cc == r * 9 + c,
    ensures rr == r && cc == c,
{
    assert(rr == r && cc == c) by (nonlinear_arith)
        requires 0 <= c < 9, 0 <= cc < 9, rr * 9 + cc == r * 9 + c;
}

/// The puzzle in the 81-character board format.
pub fn to_puzzle_string(black: &[[u8; N]; N], numbers: &[[u8; N]; N]) -> (s: String)
    requires writable(*black, *numbers),
    ensures puzzle_text(s@, *black, *numbers),
{
    let mut s = String::new();
    for r in 0..N
        invariant
            writable(*black, *numbers),
            s@.len() == r * 9,
            forall|rr: int, cc: int| 0 <= rr < r && 0 <= cc < 9 ==> s@[rr * 9 + cc] == puzzle_char(black[rr][cc], numbers[rr][cc]),
    {
        for c in 0..N
            invariant
                r < 9,
                writable(*black, *numbers),
                s@.len() == r * 9 + c,
                forall|rr: int, cc: int| 0 <= rr < 9 && 0 <= cc < 9 && rr * 9 + cc < r * 9 + c ==> s@[rr * 9 + cc] == puzzle_char(
                    black[rr][cc],
                    numbers[rr][cc],
                ),
        {
            let n = numbers[r][c];
            let ch = if black[r][c] == 1 {
                if n == 0 {
                    '#'
                } else {
                    (97u8 + n - 1) as char
                }
            } else if n == 0 {
                '.'
            } else {
                (48u8 + n) as char
            };
            string_push(&mut s, ch);
            proof {
                assert forall|rr: int, cc: int| 0 <= rr < 9 && 0 <= cc < 9 && rr * 9 + cc < r * 9 + c + 1 implies s@[rr * 9 + cc] == puzzle_char(
                    black[rr][cc],
                    numbers[rr][cc],
                ) by {
                    if rr * 9 + cc == r * 9 + c {
                        lemma_cell_index(r as int, c as int, rr, cc);
                    }
                }
            }
        }
    }
    s
}

/// The clues and the solution's digits fit the characters of the board format.
pub open spec fn solution_writable(black: [[u8; N]; N], puzzle_numbers: [[u8; N]; N], white_solution: [[u8; N]; N]) -> bool {
    &&& forall|r: int, c: int| 0 <= r < 9 && 0 <= c < 9 && black[r][c] == 1 ==> #[trigger] puzzle_numbers[r][c] <= 158
    &&& forall|r: int, c: int| 0 <= r < 9 && 0 <= c < 9 && black[r][c] != 1 ==> #[trigger] white_solution[r][c] <= 207
}

/// The solution in the board format: black cells as in the puzzle, every
/// white cell with the digit of `white_solution`.
pub fn to_solution_string(black: &[[u8; N]; N], puzzle_numbers: &[[u8; N]; N], white_solution: &[[u8; N]; N]) -> (s: String)
    requires
        solution_writable(*black, *puzzle_numbers, *white_solution),
    ensures solution_text(s@, *black, *puzzle_numbers, *white_solution),
{
    let mut s = String::new();
    for r in 0..N
        invariant
            solution_writable(*black, *puzzle_numbers, *white_solution),
            s@.len() == r * 9,
            forall|rr: int, cc: int| 0 <= rr < r && 0 <= cc < 9 ==> s@[rr * 9 + cc] == if black[rr][cc] == 1 {
                black_char(puzzle_numbers[rr][cc])
            } else {
                ((48 + white_solution[rr][cc]) as u8) as char
            },
    {
        for c in 0..N
            invariant
                r < 9,
                solution_writable(*black, *puzzle_numbers, *white_solution),
                s@.len() == r * 9 + c,
                forall|rr: int, cc: int| 0 <= rr < 9 && 0 <= cc < 9 && rr * 9 + cc < r * 9 + c ==> s@[rr * 9 + cc] == if black[rr][cc] == 1 {
                    black_char(puzzle_numbers[rr][cc])
                } else {
                    ((48 + white_solution[rr][cc]) as u8) as char
                },
        {
            let ch = if black[r][c] == 1 {
                let n = puzzle_numbers[r][c];
                if n == 0 {
                    '#'
                } else {
                    (97u8 + n - 1) as char
                }
            } else {
                (48u8 + white_solution[r][c]) as char
            };
            string_push(&mut s, ch);
            proof {
                assert forall|rr: int, cc: int| 0 <= rr < 9 && 0 <= cc < 9 && rr * 9 + cc < r * 9 + c + 1 implies s@[rr * 9 + cc] == if black[rr][cc] == 1 {
                    black_char(puzzle_numbers[rr][cc])
                } else {
                    ((48 + white_solution[rr][cc]) as u8) as char
                } by {
                    if rr * 9 + cc == r * 9 + c {
                        lemma_cell_index(r as int, c as int, rr, cc);
                    }
                }
            }
        }
    }
    s
}

/// Some puzzle on the pattern `black` is written as a text that does not
/// parse, with the error `e`.
pub open spec fn unreadable_puzzle(black: [[u8; N]; N], e: ParseError) -> bool {
    exists|n: [[u8; N]; N], text: Seq<char>| writable(black, n) && #[trigger] puzzle_text(text, black, n) && parse_error_for(text, e)
}

/// A board string of board characters, all ASCII and none whitespace.
pub open spec fn plain_board_chars(text: Seq<char>) -> bool {
    forall|k: int| 0 <= k < text.len() ==> valid_board_char(#[trigger] text[k]) && (text[k] as u32) < 0x80 && !whitespace_char(text[k])
}

proof fn lemma_plain_compact(text: Seq<char>, k: int)
    requires plain_board_chars(text), 0 <= k <= text.len(),
    ensures text.take(k).filter(|c: char| !whitespace_char(c)) == text.take(k), utf8_size(text.take(k)) == k,
    decreases k,
{
    if k > 0 {
        lemma_plain_compact(text, k - 1);
        let p = |c: char| !whitespace_char(c);
        assert(text.take(k) == text.take(k - 1).push(text[k - 1]));
        text.take(k - 1).lemma_filter_push(text[k - 1], p);
        assert(text.take(k).drop_last() == text.take(k - 1));
    }
}

/// A puzzle with digits of at most 9 is written in a string the parser reads.
proof fn lemma_puzzle_text_ok(text: Seq<char>, black: [[u8; N]; N], numbers: [[u8; N]; N])
    requires puzzle_text(text, black, numbers), digits_ok(numbers),
    ensures board_text_ok(text),
{
    assert forall|k: int| 0 <= k < text.len() implies valid_board_char(#[trigger] text[k]) && (text[k] as u32) < 0x80 && !whitespace_char(text[k]) by {
        let r = k / 9;
        let c = k % 9;
        assert(r * 9 + c == k);
        assert(text[r * 9 + c] == puzzle_char(black[r][c], numbers[r][c]));
    }
    lemma_plain_compact(text, text.len() as int);
    assert(text.take(text.len() as int) == text);
}

proof fn lemma_puzzle_text_unique(a: Seq<char>, b: Seq<char>, black: [[u8; N]; N], numbers: [[u8; N]; N])
    requires puzzle_text(a, black, numbers), puzzle_text(b, black, numbers),
    ensures a == b,
{
    assert forall|k: int| 0 <= k < 81 implies a[k] == b[k] by {
        let r = k / 9;
        let c = k % 9;
        assert(r * 9 + c == k && 0 <= r < 9 && 0 <= c < 9) by (nonlinear_arith)
            requires 0 <= k < 81, r == k / 9, c == k % 9;
        assert(a[r * 9 + c] == puzzle_char(black[r][c], numbers[r][c]));
        assert(b[r * 9 + c] == puzzle_char(black[r][c], numbers[r][c]));
    }
    assert(a =~= b);
}

/// Parsing `text` gives `a`, a human solve of `a` ends at `b` reporting
/// `moves`, and `h` is the hardest of them.
pub open spec fn rating_run(text: Seq<char>, a: HumanStr8ts, b: HumanStr8ts, moves: Seq<i32>, h: i32) -> bool {
    &&& parsed_board(text, a)
    &&& human_solve(a, b, moves)
    &&& is_hardest(moves, h)
}

/// A human solve of the board written `text` rates it `h`: its hardest step.
pub open spec fn rated_text(text: Seq<char>, h: i32) -> bool {
    exists|a: HumanStr8ts, b: HumanStr8ts, moves: Seq<i32>| #[trigger] rating_run(text, a, b, moves, h)
}

/// The puzzle `numbers` on the pattern `black` is rated `h`.
pub open spec fn rates(black: [[u8; N]; N], numbers: [[u8; N]; N], h: i32) -> bool {
    forall|text: Seq<char>| #[trigger] puzzle_text(text, black, numbers) ==> rated_text(text, h)
}

/// The board written `text` is rated between `lo` and `hi`.
pub open spec fn rated_within(text: Seq<char>, lo: int, hi: int) -> bool {
    exists|h: i32| lo <= h <= hi && #[trigger] rated_text(text, h)
}

/// The least rating a level asks of the stripped puzzle: Easy 5, Medium 15,
/// Hard 20, Diabolic 25, Cruel 35, Extreme 70.
pub open spec fn level_min(d: Difficulty) -> int {
    match d {
        Difficulty::Easy => 5,
        Difficulty::Medium => 15,
        Difficulty::Hard => 20,
        Difficulty::Diabolic => 25,
        Difficulty::Cruel => 35,
        Difficulty::Extreme => 70,
    }
}

/// The puzzle written `text` keeps the givens of a stripped puzzle, on the
/// same pattern, that was rated at least `lo`: hints were only put back.
pub open spec fn stripped_floor(text: Seq<char>, black: [[u8; N]; N], lo: int) -> bool {
    exists|n: [[u8; N]; N], m: [[u8; N]; N], h: i32| #[trigger] puzzle_text(text, black, n) && #[trigger] rates(black, m, h) && h >= lo
        && forall|r: int, c: int| 0 <= r < 9 && 0 <= c < 9 ==> (#[trigger] m[r][c] == n[r][c] || m[r][c] == 0)
}

/// The hardest rating a level accepts: Easy 15, Medium 22, Hard 30,
/// Diabolic 38, Cruel 50, Extreme 99.
pub open spec fn level_max(d: Difficulty) -> int {
    match d {
        Difficulty::Easy => 15,
        Difficulty::Medium => 22,
        Difficulty::Hard => 30,
        Difficulty::Diabolic => 38,
        Difficulty::Cruel => 50,
        Difficulty::Extreme => 99,
    }
}

/// The rating the human solver gives the puzzle (its hardest step; -1 when
/// it runs into a cell without candidates, 100 when it gets stuck).
fn assess_hardness(black: &[[u8; N]; N], numbers: &[[u8; N]; N]) -> (res: Result<i32, ParseError>)
    requires writable(*black, *numbers),
    ensures
        res matches Ok(h) ==> -1 <= h <= 100,
        res matches Err(e) ==> unreadable_puzzle(*black, e),
        forall|text: Seq<char>| #[trigger] puzzle_text(text, *black, *numbers) ==> {
            &&& res is Ok <==> board_text_ok(text)
            &&& res matches Err(e) ==> parse_error_for(text, e)
        },
        digits_ok(*numbers) ==> res is Ok,
        res matches Ok(h) ==> rates(*black, *numbers, h),
{
    let board_str = to_puzzle_string(black, numbers);
    proof {
        if digits_ok(*numbers) {
            lemma_puzzle_text_ok(board_str@, *black, *numbers);
        }
        assert forall|text: Seq<char>| #[trigger] puzzle_text(text, *black, *numbers) implies text == board_str@ by {
            lemma_puzzle_text_unique(text, board_str@, *black, *numbers);
        }
    }
    let mut s = match HumanStr8ts::from_str(board_str.as_str()) {
        Ok(v) => v,
        Err(e) => {
            proof {
                assert(puzzle_text(board_str@, *black, *numbers));
            }
            return Err(e);
        },
    };
    let ghost a = s;
    let result = solve_human(&mut s);
    let h = puzzle_hardness(result.move_hardnesses.as_slice());
    proof {
        let m = result.move_hardnesses@;
        if m.len() > 0 {
            let i = choose|i: int| 0 <= i < m.len() && m[i] == h;
            if crate::candidates::board_valid(s) {
                assert(0 < m[i] < 100 || m[i] == 100);
            } else {
                assert(m == seq![-1i32]);
            }
        }
    }
    proof {
        assert(human_solve(a, s, result.move_hardnesses@));
        assert(rating_run(board_str@, a, s, result.move_hardnesses@, h));
        assert forall|text: Seq<char>| #[trigger] puzzle_text(text, *black, *numbers) implies rated_text(text, h) by {
            assert(text == board_str@);
        }
    }
    Ok(h)
}


// ---------------------------------------------------------------------------
// Putting hints back
// ---------------------------------------------------------------------------

/// The cells that hold a digit, in row-major order.
pub open spec fn filled_cells(numbers: [[u8; N]; N]) -> Seq<(usize, usize)> {
    Seq::new(81, |k: int| ((k / 9) as usize, (k % 9) as usize)).filter(|p: (usize, usize)| numbers[p.0 as int][p.1 as int] != 0)
}

pub open spec fn manhattan(a: (usize, usize), b: (usize, usize)) -> int {
    (if a.0 >= b.0 { a.0 - b.0 } else { b.0 - a.0 }) + (if a.1 >= b.1 { a.1 - b.1 } else { b.1 - a.1 })
}

/// The distance from `p` to the nearest of `cells` (0 for none).
pub open spec fn nearest(cells: Seq<(usize, usize)>, p: (usize, usize)) -> int
    decreases cells.len(),
{
    if cells.len() == 0 {
        0
    } else if cells.len() == 1 {
        manhattan(cells[0], p)
    } else {
        let rest = nearest(cells.drop_last(), p);
        let d = manhattan(cells.last(), p);
        if d < rest {
            d
        } else {
            rest
        }
    }
}

fn distance(a: (usize, usize), b: (usize, usize)) -> (d: i32)
    requires a.0 < 9, a.1 < 9, b.0 < 9, b.1 < 9,
    ensures d == manhattan(a, b),
{
    let dr = if a.0 >= b.0 { a.0 - b.0 } else { b.0 - a.0 };
    let dc = if a.1 >= b.1 { a.1 - b.1 } else { b.1 - a.1 };
    (dr + dc) as i32
}

/// The position among `remaining` of the cell farthest from every filled
/// cell (the last such when several tie); 0 when nothing is filled.
pub fn best_spread_idx(remaining: &[(usize, usize)], numbers: &[[u8; N]; N]) -> (idx: usize)
    requires forall|k: int| 0 <= k < remaining@.len() ==> (#[trigger] remaining@[k]).0 < 9 && remaining@[k].1 < 9,
    ensures
        (remaining@.len() == 0 || filled_cells(*numbers).len() == 0) ==> idx == 0,
        remaining@.len() > 0 && filled_cells(*numbers).len() > 0 ==> {
            &&& idx < remaining@.len()
            &&& forall|j: int| 0 <= j < remaining@.len() ==> #[trigger] nearest(filled_cells(*numbers), remaining@[j]) <= nearest(
                filled_cells(*numbers),
                remaining@[idx as int],
            )
            &&& forall|j: int| idx < j < remaining@.len() ==> #[trigger] nearest(filled_cells(*numbers), remaining@[j]) < nearest(
                filled_cells(*numbers),
                remaining@[idx as int],
            )
        },
{
    let mut filled: Vec<(usize, usize)> = Vec::new();
    let ghost all = Seq::new(81, |k: int| ((k / 9) as usize, (k % 9) as usize));
    let ghost p = |q: (usize, usize)| numbers[q.0 as int][q.1 as int] != 0;
    for r in 0..N
        invariant
            all == Seq::new(81, |k: int| ((k / 9) as usize, (k % 9) as usize)),
            p == (|q: (usize, usize)| numbers[q.0 as int][q.1 as int] != 0),
            filled@ == all.take(r * 9).filter(p),
    {
        for c in 0..N
            invariant
                r < 9,
                all == Seq::new(81, |k: int| ((k / 9) as usize, (k % 9) as usize)),
                p == (|q: (usize, usize)| numbers[q.0 as int][q.1 as int] != 0),
                filled@ == all.take(r * 9 + c).filter(p),
        {
            proof {
                assert((r * 9 + c) / 9 == r && (r * 9 + c) % 9 == c) by (nonlinear_arith)
                    requires 0 <= c < 9;
                assert(all.take(r * 9 + c + 1).drop_last() == all.take(r * 9 + c));
                assert(all.take(r * 9 + c + 1).last() == (r, c));
                reveal_with_fuel(Seq::filter, 1);
            }
            if numbers[r][c] != 0 {
                filled.push((r, c));
            }
        }
    }
    proof {
        assert(all.take(81) == all);
        assert forall|k: int| 0 <= k < filled@.len() implies (#[trigger] filled@[k]).0 < 9 && filled@[k].1 < 9 by {
            all.lemma_filter_pred(p, k);
            assert(all.filter(p).contains(filled@[k]));
            all.lemma_filter_contains_rev(p, filled@[k]);
        }
    }
    if filled.len() == 0 {
        return 0;
    }
    let mut best: usize = 0;
    let mut best_d: i32 = -1;
    for i in 0..remaining.len()
        invariant
            filled@ == filled_cells(*numbers),
            filled@.len() > 0,
            forall|k: int| 0 <= k < filled@.len() ==> (#[trigger] filled@[k]).0 < 9 && filled@[k].1 < 9,
            forall|k: int| 0 <= k < remaining@.len() ==> (#[trigger] remaining@[k]).0 < 9 && remaining@[k].1 < 9,
            i == 0 ==> best_d == -1 && best == 0,
            i > 0 ==> best < i && best_d == nearest(filled@, remaining@[best as int]),
            forall|j: int| 0 <= j < i ==> #[trigger] nearest(filled@, remaining@[j]) <= best_d,
            forall|j: int| best < j < i ==> #[trigger] nearest(filled@, remaining@[j]) < best_d,
    {
        let cell = remaining[i];
        let mut min_dist = distance(filled[0], cell);
        for k in 1..filled.len()
            invariant
                forall|k: int| 0 <= k < filled@.len() ==> (#[trigger] filled@[k]).0 < 9 && filled@[k].1 < 9,
                cell.0 < 9, cell.1 < 9,
                filled@.len() > 0,
                min_dist == nearest(filled@.take(k as int), cell),
                0 <= min_dist <= 16,
        {
            let d = distance(filled[k], cell);
            proof {
                assert(filled@.take(k + 1).drop_last() == filled@.take(k as int));
                assert(filled@.take(k + 1).last() == filled@[k as int]);
            }
            if d < min_dist {
                min_dist = d;
            }
        }
        proof {
            assert(filled@.take(filled@.len() as int) == filled@);
            assert(remaining@[i as int] == cell);
        }
        if min_dist >= best_d {
            best = i;
            best_d = min_dist;
        }
    }
    best
}

/// Puts hints back from `full_numbers`, in random order, until the human
/// solver rates the puzzle within `1..=target_max`: three at a time while it
/// is stuck, then one at a time (the one farthest from the given digits),
/// undoing a hint that makes the puzzle fully given. Gives up after fifteen
/// such undos in a row. Returns the last rating.
fn add_hints_to_target(
    rng: &mut rand::rngs::StdRng,
    black: &[[u8; N]; N],
    numbers: &mut [[u8; N]; N],
    full_numbers: &[[u8; N]; N],
    target_max: i32,
) -> (res: Result<i32, ParseError>)
    requires
        forall|r: int, c: int| 0 <= r < 9 && 0 <= c < 9 ==> #[trigger] old(numbers)[r][c] <= 9,
        forall|r: int, c: int| 0 <= r < 9 && 0 <= c < 9 ==> #[trigger] full_numbers[r][c] <= 9,
    ensures
        forall|r: int, c: int| 0 <= r < 9 && 0 <= c < 9 ==> #[trigger] final(numbers)[r][c] == old(numbers)[r][c] || final(numbers)[r][c]
            == full_numbers[r][c],
        res matches Ok(h) ==> -1 <= h <= 100,
        res matches Err(e) ==> unreadable_puzzle(*black, e),
        res is Ok,
        res matches Ok(h) ==> (1 <= h <= target_max ==> rates(*black, *final(numbers), h)),
{
    let ghost n0 = *numbers;
    let mut candidates: Vec<(usize, usize)> = Vec::new();
    for r in 0..N
        invariant
            candidates@.len() <= r * 9,
            forall|k: int| 0 <= k < candidates@.len() ==> (#[trigger] candidates@[k]).0 < 9 && candidates@[k].1 < 9
            && numbers[candidates@[k].0 as int][candidates@[k].1 as int] == 0,
    {
        for c in 0..N
            invariant
                r < 9,
                candidates@.len() <= r * 9 + c,
                forall|k: int| 0 <= k < candidates@.len() ==> (#[trigger] candidates@[k]).0 < 9 && candidates@[k].1 < 9
                    && numbers[candidates@[k].0 as int][candidates@[k].1 as int] == 0,
        {
            if numbers[r][c] == 0 && full_numbers[r][c] != 0 {
                candidates.push((r, c));
            }
        }
    }
    let ghost c0 = candidates@;
    shuffle_cells(rng, &mut candidates);
    proof {
        vstd::seq_lib::to_multiset_len(candidates@);
        vstd::seq_lib::to_multiset_len(c0);
        assert forall|k: int| 0 <= k < candidates@.len() implies (#[trigger] candidates@[k]).0 < 9 && candidates@[k].1 < 9
            && n0[candidates@[k].0 as int][candidates@[k].1 as int] == 0 by {
            vstd::seq_lib::to_multiset_contains(candidates@, candidates@[k]);
            assert(candidates@.contains(candidates@[k]));
            vstd::seq_lib::to_multiset_contains(c0, candidates@[k]);
        }
    }
    proof {
        assert(writable(*black, *numbers));
    }
    let mut h = match assess_hardness(black, numbers) {
        Ok(v) => v,
        Err(e) => {
            return Err(e);
        },
    };
    if h >= 1 && h <= target_max {
        return Ok(h);
    }
    if h == 0 {
        return Ok(0);
    }
    let mut idx: usize = 0;
    while idx < candidates.len() && h == 100
        invariant
            n0 == *old(numbers),
            candidates@.len() <= 81,
            idx <= candidates@.len(),
            -1 <= h <= 100,
            !(1 <= h <= target_max),
            forall|k: int| 0 <= k < candidates@.len() ==> (#[trigger] candidates@[k]).0 < 9 && candidates@[k].1 < 9
                && n0[candidates@[k].0 as int][candidates@[k].1 as int] == 0,
            forall|r: int, c: int| 0 <= r < 9 && 0 <= c < 9 ==> #[trigger] numbers[r][c] == n0[r][c] || numbers[r][c] == full_numbers[r][c],
            forall|r: int, c: int| 0 <= r < 9 && 0 <= c < 9 ==> #[trigger] full_numbers[r][c] <= 9,
            forall|r: int, c: int| 0 <= r < 9 && 0 <= c < 9 ==> #[trigger] n0[r][c] <= 9,
            forall|r: int, c: int| 0 <= r < 9 && 0 <= c < 9 ==> #[trigger] n0[r][c] <= 9,
        decreases candidates@.len() - idx,
    {
        let end = if idx + 3 < candidates.len() { idx + 3 } else { candidates.len() };
        for k in idx..end
            invariant
                end <= candidates@.len(),
                forall|k: int| 0 <= k < candidates@.len() ==> (#[trigger] candidates@[k]).0 < 9 && candidates@[k].1 < 9
                    && n0[candidates@[k].0 as int][candidates@[k].1 as int] == 0,
                forall|r: int, c: int| 0 <= r < 9 && 0 <= c < 9 ==> #[trigger] numbers[r][c] == n0[r][c] || numbers[r][c] == full_numbers[r][c],
        {
            let (r, c) = candidates[k];
            proof {
                assert(candidates@[k as int] == (r, c));
            }
            let mut row = numbers[r];
            row[c] = full_numbers[r][c];
            numbers[r] = row;
        }
        idx = end;
        proof {
            assert(writable(*black, *numbers));
        }
        h = match assess_hardness(black, numbers) {
            Ok(v) => v,
            Err(e) => {
                return Err(e);
            },
        };
        if h >= 1 && h <= target_max {
            return Ok(h);
        }
    }
    let mut overshoot_count: usize = 0;
    while idx < candidates.len()
        invariant
            n0 == *old(numbers),
            candidates@.len() <= 81,
            overshoot_count < 15,
            idx <= candidates@.len(),
            -1 <= h <= 100,
            !(1 <= h <= target_max),
            forall|k: int| 0 <= k < candidates@.len() ==> (#[trigger] candidates@[k]).0 < 9 && candidates@[k].1 < 9
                && n0[candidates@[k].0 as int][candidates@[k].1 as int] == 0,
            forall|r: int, c: int| 0 <= r < 9 && 0 <= c < 9 ==> #[trigger] numbers[r][c] == n0[r][c] || numbers[r][c] == full_numbers[r][c],
            forall|r: int, c: int| 0 <= r < 9 && 0 <= c < 9 ==> #[trigger] full_numbers[r][c] <= 9,
            forall|r: int, c: int| 0 <= r < 9 && 0 <= c < 9 ==> #[trigger] n0[r][c] <= 9,
            forall|r: int, c: int| 0 <= r < 9 && 0 <= c < 9 ==> #[trigger] n0[r][c] <= 9,
        decreases candidates@.len() - idx,
    {
        let mut tail: Vec<(usize, usize)> = Vec::new();
        for k in idx..candidates.len()
            invariant
                idx <= k <= candidates@.len(),
                tail@.len() == k - idx,
                forall|j: int| 0 <= j < candidates@.len() ==> (#[trigger] candidates@[j]).0 < 9 && candidates@[j].1 < 9,
                forall|j: int| 0 <= j < tail@.len() ==> (#[trigger] tail@[j]).0 < 9 && tail@[j].1 < 9,
        {
            tail.push(candidates[k]);
        }
        let best_rel = best_spread_idx(tail.as_slice(), numbers);
        let j = if idx + best_rel < candidates.len() { idx + best_rel } else { idx };
        let a = candidates[idx];
        let b = candidates[j];
        candidates.set(idx, b);
        candidates.set(j, a);
        let (r, c) = candidates[idx];
        proof {
            assert(candidates@[idx as int] == (r, c));
        }
        idx = idx + 1;
        let mut row = numbers[r];
        row[c] = full_numbers[r][c];
        numbers[r] = row;
        proof {
            assert(writable(*black, *numbers));
        }
        let h_new = match assess_hardness(black, numbers) {
            Ok(v) => v,
            Err(e) => {
                return Err(e);
            },
        };
        if h_new >= 1 && h_new <= target_max {
            return Ok(h_new);
        }
        if h_new == 0 {
            let mut row = numbers[r];
            row[c] = 0;
            numbers[r] = row;
            overshoot_count = overshoot_count + 1;
            if overshoot_count >= 15 {
                return Ok(h);
            }
        } else {
            h = h_new;
            overshoot_count = 0;
        }
    }
    Ok(h)
}


/// The solved board: the black cells with the puzzle's clues, the white cells
/// with the solution's digits.
fn solution_board(black: &[[u8; N]; N], numbers: &[[u8; N]; N], white_solution: &[[u8; N]; N]) -> (s: SimpleStr8ts)
    ensures
        black_flags(*black, s.is_black),
        forall|r: int, c: int| 0 <= r < 9 && 0 <= c < 9 ==> #[trigger] s.numbers[r][c] == if black[r][c] == 1 {
            numbers[r][c]
        } else {
            white_solution[r][c]
        },
{
    let mut grid = *white_solution;
    for r in 0..N
        invariant
            forall|i: int, c: int| 0 <= i < 9 && 0 <= c < 9 ==> #[trigger] grid[i][c] == if black[i][c] == 1 && i < r {
                numbers[i][c]
            } else {
                white_solution[i][c]
            },
    {
        let mut row = grid[r];
        for c in 0..N
            invariant
                r < 9,
                forall|j: int| 0 <= j < 9 ==> #[trigger] row[j] == if black[r as int][j] == 1 && j < c {
                    numbers[r as int][j]
                } else {
                    white_solution[r as int][j]
                },
        {
            if black[r][c] == 1 {
                row[c] = numbers[r][c];
            }
        }
        grid[r] = row;
    }
    black_to_simple(black, &grid)
}

// ---------------------------------------------------------------------------
// One attempt
// ---------------------------------------------------------------------------

/// `puzzle` and `solution` are the texts of a puzzle with givens `numbers`
/// and of a solution grid on the pattern `black`, whose white digits are
/// 1..=9, agree with the puzzle's white givens and solve the puzzle.
pub open spec fn generated_by(
    puzzle: Seq<char>,
    solution: Seq<char>,
    black: [[u8; N]; N],
    numbers: [[u8; N]; N],
    grid: [[u8; N]; N],
) -> bool {
    &&& puzzle_text(puzzle, black, numbers)
    &&& solution_text(solution, black, numbers, grid)
    &&& forall|r: int, c: int| 0 <= r < 9 && 0 <= c < 9 && black[r][c] != 1 ==> 1 <= #[trigger] grid[r][c] <= 9
    &&& forall|r: int, c: int| 0 <= r < 9 && 0 <= c < 9 && black[r][c] != 1 && #[trigger] numbers[r][c] != 0 ==> numbers[r][c] == grid[r][c]
    &&& solution_solves(black, numbers, grid)
}

pub open spec fn generated(puzzle: Seq<char>, solution: Seq<char>, black: [[u8; N]; N]) -> bool {
    exists|numbers: [[u8; N]; N], grid: [[u8; N]; N]| #[trigger] generated_by(puzzle, solution, black, numbers, grid)
}

/// One attempt at a puzzle of the given difficulty on the black pattern
/// `black`: fill the white cells with a solution, give black cells clues,
/// strip givens while the solution stays unique, rate the puzzle (retrying
/// when the stripped puzzle is rated below the level's floor) and put hints
/// back when it is too hard. `None` when the attempt should be retried.
/// On success, the puzzle and its solution in the board format: the solution
/// keeps the puzzle's givens and solves it by the rules.
pub fn generate_from_pattern(rng: &mut rand::rngs::StdRng, black: &[[u8; N]; N], difficulty: Difficulty) -> (res: Result<
    Option<(String, String)>,
    ParseError,
>)
    ensures
        res matches Ok(Some(pair)) ==> generated(pair.0@, pair.1@, *black),
        res is Ok,
        (forall|bl: [[bool; N]; N], t: [[u8; N]; N]| !#[trigger] fills_pattern(*black, bl, t)) ==> res matches Ok(None),
        res matches Ok(Some(pair)) ==> unique_puzzle_text(pair.0@, *black),
        res matches Ok(Some(pair)) ==> rated_within(pair.0@, 1, level_max(difficulty)),
        res matches Ok(Some(pair)) ==> stripped_floor(pair.0@, *black, level_min(difficulty)),
{
    let white_solution = match fill_white_cells(black) {
        Some(v) => v,
        None => {
            return Ok(None);
        },
    };
    proof {
        assert forall|r: int, c: int| 0 <= r < 9 && 0 <= c < 9 implies #[trigger] white_solution[r][c] <= 9 by {
            if black[r][c] == 1 {
                assert(white_solution[r][c] == 0);
            }
        }
    }
    let mut numbers = fill_black_cells(rng, black, &white_solution);
    let full_numbers = numbers;
    let max_h = difficulty.max_hardness();
    strip_white_cells(rng, black, &mut numbers);
    let ghost after_white = numbers;
    strip_black_cells(rng, black, &mut numbers);
    let ghost after_black = numbers;
    proof {
        assert forall|r: int, c: int| 0 <= r < 9 && 0 <= c < 9 implies #[trigger] numbers[r][c] <= 9 by {
            assert(numbers[r][c] == full_numbers[r][c] || numbers[r][c] == 0);
        }
        assert(writable(*black, numbers));
    }
    let h_stripped = match assess_hardness(black, &numbers) {
        Ok(v) => v,
        Err(e) => {
            return Err(e);
        },
    };
    if h_stripped == 0 || h_stripped < difficulty.min_hardness() {
        return Ok(None);
    }
    let ghost stripped = numbers;
    let h_final = if h_stripped >= 1 && h_stripped <= max_h {
        h_stripped
    } else {
        match add_hints_to_target(rng, black, &mut numbers, &full_numbers, max_h) {
            Ok(v) => v,
            Err(e) => {
                return Err(e);
            },
        }
    };
    if h_final < 1 || h_final > max_h {
        return Ok(None);
    }
    proof {
        assert forall|r: int, c: int| 0 <= r < 9 && 0 <= c < 9 implies #[trigger] numbers[r][c] <= 9 && (numbers[r][c] == 0
            || numbers[r][c] == full_numbers[r][c]) by {}
        assert(writable(*black, numbers));
        assert(solution_writable(*black, numbers, white_solution));
    }
    let solved = solution_board(black, &numbers, &white_solution);
    proof {
        let bl = solved.is_black;
        let g = solved.numbers;
        lemma_clues_consistent(white_solution, full_numbers, bl);
        lemma_fewer_clues_consistent(full_numbers, g, bl);
        assert(completes(numbers, bl, g));
        assert(solution_solves(*black, numbers, white_solution));
    }
    let puzzle_str = to_puzzle_string(black, &numbers);
    let solution_str = to_solution_string(black, &numbers, &white_solution);
    proof {
        assert forall|r: int, c: int| 0 <= r < 9 && 0 <= c < 9 && black[r][c] != 1 && #[trigger] numbers[r][c] != 0 implies numbers[r][c]
            == white_solution[r][c] by {
            assert(numbers[r][c] == full_numbers[r][c]);
        }
    }
    let pair = (puzzle_str, solution_str);
    proof {
        assert(puzzle_text(pair.0@, *black, numbers));
        assert(solution_text(pair.1@, *black, numbers, white_solution));
        assert(forall|r: int, c: int| 0 <= r < 9 && 0 <= c < 9 && black[r][c] != 1 ==> 1 <= #[trigger] white_solution[r][c] <= 9);
        assert(forall|r: int, c: int| 0 <= r < 9 && 0 <= c < 9 && black[r][c] != 1 && #[trigger] numbers[r][c] != 0 ==> numbers[r][c]
                == white_solution[r][c]);
        assert(generated(pair.0@, pair.1@, *black)) by {
            assert(generated_by(pair.0@, pair.1@, *black, numbers, white_solution));
        }
    }
    proof {
        let bl = solved.is_black;
        assert(flags_of(bl, *black));
        assert forall|r: int, c: int| 0 <= r < 9 && 0 <= c < 9 && !bl[r][c] implies 1 <= #[trigger] full_numbers[r][c] <= 9 by {}
        assert(digits_ok(full_numbers));
        lemma_full_unique(*black, full_numbers, bl);
        assert(digits_ok(after_white)) by {
            assert forall|r: int, c: int| 0 <= r < 9 && 0 <= c < 9 implies #[trigger] after_white[r][c] <= 9 by {
                assert(after_white[r][c] == full_numbers[r][c] || after_white[r][c] == 0);
            }
        }
        assert(uniquely_solvable(*black, after_black));
        assert forall|r: int, c: int| 0 <= r < 9 && 0 <= c < 9 implies (#[trigger] after_black[r][c] == full_numbers[r][c] || after_black[r][c] == 0) by {
            assert(after_white[r][c] == full_numbers[r][c] || after_white[r][c] == 0);
        }
        assert forall|r: int, c: int| 0 <= r < 9 && 0 <= c < 9 implies (#[trigger] numbers[r][c] == full_numbers[r][c] || numbers[r][c] == 0) by {
            assert(after_black[r][c] == full_numbers[r][c] || after_black[r][c] == 0);
        }
        assert forall|r: int, c: int| 0 <= r < 9 && 0 <= c < 9 && #[trigger] after_black[r][c] != 0 implies numbers[r][c] == after_black[r][c] by {
            assert(after_black[r][c] == full_numbers[r][c] || after_black[r][c] == 0);
        }
        lemma_add_givens(*black, bl, full_numbers, after_black, numbers);
        assert(puzzle_text(pair.0@, *black, numbers));
        assert(uniquely_solvable(*black, numbers));
        assert(unique_puzzle_text(pair.0@, *black));
        assert(rates(*black, numbers, h_final));
        assert(rated_text(pair.0@, h_final));
        assert(rated_within(pair.0@, 1, level_max(difficulty)));
        assert(rates(*black, stripped, h_stripped));
        assert forall|r: int, c: int| 0 <= r < 9 && 0 <= c < 9 implies (#[trigger] stripped[r][c] == numbers[r][c] || stripped[r][c] == 0) by {
            assert(stripped[r][c] == after_black[r][c]);
        }
        assert(stripped_floor(pair.0@, *black, level_min(difficulty)));
    }
    proof {
        if forall|bl: [[bool; N]; N], t: [[u8; N]; N]| !#[trigger] fills_pattern(*black, bl, t) {
            let bl = solved.is_black;
            assert(black_flags(*black, bl));
            assert(fills_pattern(*black, bl, white_solution));
        }
    }
    Ok(Some(pair))
}

} // verus!
