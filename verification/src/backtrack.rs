//! A backtracking solver on digits only.
use vstd::prelude::*;
use crate::board::{SimpleStr8ts, N};

verus! {

/// Number of white cells right before `(a, b)` along the first coordinate.
pub open spec fn run_before(blk: spec_fn(int, int) -> bool, a: int, b: int) -> int
    decreases a,
{
    if a <= 0 || blk(a - 1, b) {
        0
    } else {
        1 + run_before(blk, a - 1, b)
    }
}

/// Number of white cells right after `(a, b)` along the first coordinate.
pub open spec fn run_after(blk: spec_fn(int, int) -> bool, a: int, b: int) -> int
    decreases 9 - a,
{
    if a >= 8 || blk(a + 1, b) {
        0
    } else {
        1 + run_after(blk, a + 1, b)
    }
}

pub open spec fn run_lo(blk: spec_fn(int, int) -> bool, a: int, b: int) -> int {
    a - run_before(blk, a, b)
}

pub open spec fn run_hi(blk: spec_fn(int, int) -> bool, a: int, b: int) -> int {
    a + run_after(blk, a, b)
}

pub open spec fn absdiff(x: u8, y: u8) -> int {
    if x >= y {
        x - y
    } else {
        y - x
    }
}

/// Every digit of the compartment through `(a, b)` is within `size - 1` of `v`.
pub open spec fn span_ok(
    nums: spec_fn(int, int) -> u8,
    blk: spec_fn(int, int) -> bool,
    a: int,
    b: int,
    v: u8,
) -> bool {
    forall|i: int|
        run_lo(blk, a, b) <= i <= run_hi(blk, a, b) && i != a && #[trigger] nums(i, b) != 0 ==> absdiff(
            nums(i, b),
            v,
        ) <= run_hi(blk, a, b) - run_lo(blk, a, b)
}

/// The grid read by rows.
pub open spec fn by_rows<T>(g: [[T; N]; N]) -> spec_fn(int, int) -> T {
    |i: int, j: int| g[i][j]
}

/// The grid read by columns.
pub open spec fn by_cols<T>(g: [[T; N]; N]) -> spec_fn(int, int) -> T {
    |i: int, j: int| g[j][i]
}

/// Placing `v` at `(x, y)` keeps rows and columns free of repeats and keeps
/// both compartments through `(x, y)` able to form a straight.
pub open spec fn spec_check(numbers: [[u8; N]; N], black: [[bool; N]; N], x: int, y: int, v: u8) -> bool {
    &&& forall|i: int| 0 <= i < 9 && i != y ==> #[trigger] numbers[x][i] != v
    &&& forall|i: int| 0 <= i < 9 && i != x ==> #[trigger] numbers[i][y] != v
    &&& span_ok(by_rows(numbers), by_rows(black), x, y, v)
    &&& span_ok(by_cols(numbers), by_cols(black), y, x, v)
}

/// The digits placed so far break no rule: no repeats in a row or column, and
/// in each compartment any two digits differ by less than its length.
pub open spec fn consistent(numbers: [[u8; N]; N], black: [[bool; N]; N]) -> bool {
    &&& forall|x: int, i: int, j: int|
        0 <= x < 9 && 0 <= i < 9 && 0 <= j < 9 && i != j && #[trigger] numbers[x][i] != 0 ==> numbers[x][i]
            != #[trigger] numbers[x][j]
    &&& forall|y: int, i: int, j: int|
        0 <= y < 9 && 0 <= i < 9 && 0 <= j < 9 && i != j && #[trigger] numbers[i][y] != 0 ==> numbers[i][y]
            != #[trigger] numbers[j][y]
    &&& forall|x: int, y: int|
        0 <= x < 9 && 0 <= y < 9 && !black[x][y] && #[trigger] numbers[x][y] != 0 ==> {
            &&& span_ok(by_rows(numbers), by_rows(black), x, y, numbers[x][y])
            &&& span_ok(by_cols(numbers), by_cols(black), y, x, numbers[x][y])
        }
}

/// `t` solves the board `numbers`: it keeps every digit and every black cell,
/// puts a digit 1..=9 in every white cell, and breaks no rule.
pub open spec fn completes(numbers: [[u8; N]; N], black: [[bool; N]; N], t: [[u8; N]; N]) -> bool {
    &&& forall|x: int, y: int|
        0 <= x < 9 && 0 <= y < 9 && (numbers[x][y] != 0 || black[x][y]) ==> #[trigger] t[x][y]
            == numbers[x][y]
    &&& forall|x: int, y: int| 0 <= x < 9 && 0 <= y < 9 && !black[x][y] ==> 1 <= #[trigger] t[x][y] <= 9
    &&& consistent(t, black)
}

/// Every white cell holds a digit.
pub open spec fn filled(numbers: [[u8; N]; N], black: [[bool; N]; N]) -> bool {
    forall|x: int, y: int| 0 <= x < 9 && 0 <= y < 9 && !black[x][y] ==> #[trigger] numbers[x][y] != 0
}

/// Number of empty white cells.
pub open spec fn empties_from(numbers: [[u8; N]; N], black: [[bool; N]; N], k: int) -> int
    decreases 81 - k,
{
    if k >= 81 || k < 0 {
        0
    } else {
        (if !black[k / 9][k % 9] && numbers[k / 9][k % 9] == 0 { 1int } else { 0int }) + empties_from(
            numbers,
            black,
            k + 1,
        )
    }
}

pub open spec fn empties(numbers: [[u8; N]; N], black: [[bool; N]; N]) -> int {
    empties_from(numbers, black, 0)
}

// ---------------------------------------------------------------------------
// Lemmas on runs
// ---------------------------------------------------------------------------

proof fn lemma_run_bounds(blk: spec_fn(int, int) -> bool, a: int, b: int)
    requires 0 <= a < 9,
    ensures
        0 <= run_before(blk, a, b) <= a,
        0 <= run_after(blk, a, b) <= 8 - a,
        forall|i: int| run_lo(blk, a, b) <= i < a ==> !#[trigger] blk(i, b),
        forall|i: int| a < i <= run_hi(blk, a, b) ==> !#[trigger] blk(i, b),
        run_lo(blk, a, b) == 0 || blk(run_lo(blk, a, b) - 1, b),
        run_hi(blk, a, b) == 8 || blk(run_hi(blk, a, b) + 1, b),
    decreases a,
{
    lemma_run_after_bounds(blk, a, b);
    if a > 0 && !blk(a - 1, b) {
        lemma_run_bounds(blk, a - 1, b);
    }
}

proof fn lemma_run_after_bounds(blk: spec_fn(int, int) -> bool, a: int, b: int)
    requires 0 <= a < 9,
    ensures
        0 <= run_after(blk, a, b) <= 8 - a,
        forall|i: int| a < i <= run_hi(blk, a, b) ==> !#[trigger] blk(i, b),
        run_hi(blk, a, b) == 8 || blk(run_hi(blk, a, b) + 1, b),
    decreases 9 - a,
{
    if a < 8 && !blk(a + 1, b) {
        lemma_run_after_bounds(blk, a + 1, b);
    }
}

pub proof fn lemma_run_bounds_pub(blk: spec_fn(int, int) -> bool, a: int, b: int)
    requires 0 <= a < 9,
    ensures
        0 <= run_before(blk, a, b) <= a,
        0 <= run_after(blk, a, b) <= 8 - a,
        forall|i: int| run_lo(blk, a, b) <= i < a ==> !#[trigger] blk(i, b),
        forall|i: int| a < i <= run_hi(blk, a, b) ==> !#[trigger] blk(i, b),
        run_lo(blk, a, b) == 0 || blk(run_lo(blk, a, b) - 1, b),
        run_hi(blk, a, b) == 8 || blk(run_hi(blk, a, b) + 1, b),
{
    lemma_run_bounds(blk, a, b);
}

/// A run of white cells with black (or the edge) on both sides is the run of
/// each of its cells.
pub proof fn lemma_run_unique(blk: spec_fn(int, int) -> bool, a: int, b: int, lo: int, hi: int)
    requires
        0 <= lo <= a <= hi < 9,
        forall|i: int| lo <= i <= hi ==> !#[trigger] blk(i, b),
        lo == 0 || blk(lo - 1, b),
        hi == 8 || blk(hi + 1, b),
    ensures run_lo(blk, a, b) == lo, run_hi(blk, a, b) == hi,
{
    lemma_run_bounds(blk, a, b);
    if run_lo(blk, a, b) < lo {
        assert(!blk(lo - 1, b));
    }
    if run_lo(blk, a, b) > lo {
        assert(!blk(run_lo(blk, a, b) - 1, b));
    }
    if run_hi(blk, a, b) > hi {
        assert(!blk(hi + 1, b));
    }
    if run_hi(blk, a, b) < hi {
        assert(!blk(run_hi(blk, a, b) + 1, b));
    }
}

/// All white cells of one run share its ends.
proof fn lemma_same_run(blk: spec_fn(int, int) -> bool, a: int, b: int, i: int)
    requires
        0 <= a < 9,
        !blk(a, b),
        run_lo(blk, a, b) <= i <= run_hi(blk, a, b),
    ensures
        run_lo(blk, i, b) == run_lo(blk, a, b),
        run_hi(blk, i, b) == run_hi(blk, a, b),
    decreases if i < a { a - i } else { i - a },
{
    lemma_run_bounds(blk, a, b);
    if i < a {
        lemma_same_run(blk, a - 1, b, i);
    } else if i > a {
        lemma_same_run(blk, a + 1, b, i);
    }
}

// ---------------------------------------------------------------------------
// The checks
// ---------------------------------------------------------------------------

fn abs_diff(a: u8, b: u8) -> (d: u8)
    ensures d == absdiff(a, b),
{
    if a >= b {
        a - b
    } else {
        b - a
    }
}

fn black_along(s: &SimpleStr8ts, vertical: bool, a: usize, b: usize) -> (r: bool)
    requires a < 9, b < 9,
    ensures r == (if vertical { s.is_black[a as int][b as int] } else { s.is_black[b as int][a as int] }),
{
    if vertical {
        s.is_black[a][b]
    } else {
        s.is_black[b][a]
    }
}

/// The compartment through `(x, y)` along rows (`vertical`) or columns keeps
/// every digit within its length minus one of `value`.
fn check_compartment(s: &SimpleStr8ts, x: usize, y: usize, value: u8, vertical: bool) -> (ok: bool)
    requires x < 9, y < 9,
    ensures
        vertical ==> ok == span_ok(by_rows(s.numbers), by_rows(s.is_black), x as int, y as int, value),
        !vertical ==> ok == span_ok(by_cols(s.numbers), by_cols(s.is_black), y as int, x as int, value),
{
    let ghost nums = if vertical { by_rows(s.numbers) } else { by_cols(s.numbers) };
    let ghost blk = if vertical { by_rows(s.is_black) } else { by_cols(s.is_black) };
    let a: usize = if vertical { x } else { y };
    let b: usize = if vertical { y } else { x };
    proof {
        lemma_run_bounds(blk, a as int, b as int);
    }
    // Length of the compartment.
    let mut lo: usize = a;
    while lo > 0 && !black_along(s, vertical, lo - 1, b)
        invariant
            a < 9, b < 9, lo <= a,
            blk == (if vertical { by_rows(s.is_black) } else { by_cols(s.is_black) }),
            run_before(blk, a as int, b as int) == (a - lo) + run_before(blk, lo as int, b as int),
        decreases lo,
    {
        lo = lo - 1;
    }
    let mut hi: usize = a;
    while hi < 8 && !black_along(s, vertical, hi + 1, b)
        invariant
            a < 9, b < 9, a <= hi < 9,
            blk == (if vertical { by_rows(s.is_black) } else { by_cols(s.is_black) }),
            run_after(blk, a as int, b as int) == (hi - a) + run_after(blk, hi as int, b as int),
        decreases 9 - hi,
    {
        hi = hi + 1;
    }
    let compartment_size: usize = hi - lo + 1;
    // Every digit of the compartment must be close enough to `value`.
    let mut i: usize = lo;
    while i <= hi
        invariant
            lo <= i <= hi + 1, hi < 9, a < 9, b < 9,
            a == (if vertical { x } else { y }), b == (if vertical { y } else { x }),
            blk == (if vertical { by_rows(s.is_black) } else { by_cols(s.is_black) }),
            lo == run_lo(blk, a as int, b as int),
            hi == run_hi(blk, a as int, b as int),
            compartment_size == hi - lo + 1,
            nums == (if vertical { by_rows(s.numbers) } else { by_cols(s.numbers) }),
            forall|k: int| lo <= k < i && k != a && #[trigger] nums(k, b as int) != 0 ==> absdiff(
                nums(k, b as int),
                value,
            ) <= hi - lo,
        decreases hi + 1 - i,
    {
        if i != a {
            let n = if vertical { s.numbers[i][b] } else { s.numbers[b][i] };
            if n != 0 && abs_diff(n, value) as usize > compartment_size - 1 {
                proof {
                    assert(nums(i as int, b as int) == n);
                    assert(!span_ok(nums, blk, a as int, b as int, value));
                }
                return false;
            }
        }
        i = i + 1;
    }
    true
}

/// Placing `value` at `(x, y)` is locally consistent.
pub(crate) fn check(s: &SimpleStr8ts, x: usize, y: usize, value: u8) -> (ok: bool)
    requires x < 9, y < 9,
    ensures ok == spec_check(s.numbers, s.is_black, x as int, y as int, value),
{
    for i in 0..N
        invariant x < 9, y < 9,
            forall|k: int| 0 <= k < i && k != y ==> #[trigger] s.numbers[x as int][k] != value,
    {
        if i != y && s.numbers[x][i] == value {
            return false;
        }
    }
    for i in 0..N
        invariant x < 9, y < 9,
            forall|k: int| 0 <= k < i && k != x ==> #[trigger] s.numbers[k][y as int] != value,
    {
        if i != x && s.numbers[i][y] == value {
            return false;
        }
    }
    check_compartment(s, x, y, value, true) && check_compartment(s, x, y, value, false)
}

} // verus!

verus! {

/// The digits 1..=9 that pass `spec_check` at `(x, y)`, in increasing order.
pub open spec fn passing_digits(numbers: [[u8; N]; N], black: [[bool; N]; N], x: int, y: int) -> Seq<u8> {
    Seq::new(9, |k: int| (k + 1) as u8).filter(|v: u8| spec_check(numbers, black, x, y, v))
}

/// Digits placed so far break no rule and white cells hold at most a 9.
pub open spec fn valid_partial(numbers: [[u8; N]; N], black: [[bool; N]; N]) -> bool {
    &&& consistent(numbers, black)
    &&& forall|x: int, y: int| 0 <= x < 9 && 0 <= y < 9 && !black[x][y] ==> #[trigger] numbers[x][y] <= 9
}

/// `b` is `a` with the cell `(x, y)` set to `v`.
pub open spec fn set_cell(a: [[u8; N]; N], b: [[u8; N]; N], x: int, y: int, v: u8) -> bool {
    &&& b[x][y] == v
    &&& forall|i: int, j: int| 0 <= i < 9 && 0 <= j < 9 && (i != x || j != y) ==> #[trigger] b[i][j] == a[i][j]
}

/// An empty white cell (`Some`) with the digits that pass the local check
/// there, or `None` when every white cell holds a digit. Among the empty cells
/// the scan prefers one with few passing digits.
fn find_best_empty(s: &SimpleStr8ts) -> (res: Option<(usize, usize, Vec<u8>)>)
    ensures
        res is None ==> filled(s.numbers, s.is_black),
        res matches Some((i, j, c)) ==> {
            &&& i < 9 && j < 9
            &&& !s.is_black[i as int][j as int]
            &&& s.numbers[i as int][j as int] == 0
            &&& c@ == passing_digits(s.numbers, s.is_black, i as int, j as int)
        },
{
    let mut best: Option<(usize, usize, Vec<u8>)> = None;
    for i in 0..N
        invariant
            best is None ==> forall|x: int, y: int| 0 <= x < i && 0 <= y < 9 && !s.is_black[x][y] ==> #[trigger] s.numbers[x][y] != 0,
            best matches Some((bi, bj, c)) ==> {
                &&& bi < 9 && bj < 9
                &&& !s.is_black[bi as int][bj as int]
                &&& s.numbers[bi as int][bj as int] == 0
                &&& c@ == passing_digits(s.numbers, s.is_black, bi as int, bj as int)
            },
    {
        for j in 0..N
            invariant
                i < 9,
                best is None ==> forall|x: int, y: int| 0 <= x < 9 && 0 <= y < 9 && (x < i || (x == i && y < j)) && !s.is_black[x][y] ==> #[trigger] s.numbers[x][y] != 0,
                best matches Some((bi, bj, c)) ==> {
                    &&& bi < 9 && bj < 9
                    &&& !s.is_black[bi as int][bj as int]
                    &&& s.numbers[bi as int][bj as int] == 0
                    &&& c@ == passing_digits(s.numbers, s.is_black, bi as int, bj as int)
                },
        {
            if s.numbers[i][j] == 0 && !s.is_black[i][j] {
                let cands = passing_values(s, i, j);
                if cands.len() == 0 {
                    return Some((i, j, cands));
                }
                let replace = match &best {
                    None => true,
                    Some((_, _, prev)) => cands.len() < prev.len(),
                };
                if replace {
                    let one = cands.len() == 1;
                    let was_some = best.is_some();
                    best = Some((i, j, cands));
                    if was_some && one {
                        return best;
                    }
                }
            }
        }
    }
    best
}

fn passing_values(s: &SimpleStr8ts, i: usize, j: usize) -> (cands: Vec<u8>)
    requires i < 9, j < 9,
    ensures cands@ == passing_digits(s.numbers, s.is_black, i as int, j as int),
{
    let mut cands: Vec<u8> = Vec::new();
    let ghost all = Seq::new(9, |k: int| (k + 1) as u8);
    let ghost pred = |v: u8| spec_check(s.numbers, s.is_black, i as int, j as int, v);
    for value in 1..10u8
        invariant
            i < 9, j < 9,
            1 <= value <= 10,
            all == Seq::new(9, |k: int| (k + 1) as u8),
            pred == |v: u8| spec_check(s.numbers, s.is_black, i as int, j as int, v),
            cands@ == all.take(value - 1).filter(pred),
    {
        proof {
            assert(all.take(value as int).drop_last() == all.take(value - 1));
            assert(all.take(value as int).last() == value);
            reveal_with_fuel(Seq::filter, 1);
        }
        if check(s, i, j, value) {
            cands.push(value);
        }
    }
    proof {
        assert(all.take(9) == all);
    }
    cands
}

// ---------------------------------------------------------------------------
// Lemmas on placing digits
// ---------------------------------------------------------------------------

proof fn lemma_div_mod_cell(x: int, y: int)
    requires 0 <= x < 9, 0 <= y < 9,
    ensures (x * 9 + y) / 9 == x, (x * 9 + y) % 9 == y,
{
    assert((x * 9 + y) / 9 == x && (x * 9 + y) % 9 == y) by (nonlinear_arith)
        requires 0 <= x < 9, 0 <= y < 9;
}

proof fn lemma_empties_step(a: [[u8; N]; N], b: [[u8; N]; N], black: [[bool; N]; N], x: int, y: int, v: u8, k: int)
    requires
        0 <= x < 9, 0 <= y < 9, 0 <= k <= 81,
        !black[x][y], a[x][y] == 0, v != 0,
        set_cell(a, b, x, y, v),
    ensures
        k <= x * 9 + y ==> empties_from(b, black, k) == empties_from(a, black, k) - 1,
        k > x * 9 + y ==> empties_from(b, black, k) == empties_from(a, black, k),
    decreases 81 - k,
{
    if k < 81 {
        lemma_empties_step(a, b, black, x, y, v, k + 1);
        let r = k / 9;
        let c = k % 9;
        assert(0 <= r < 9 && 0 <= c < 9 && k == r * 9 + c) by (nonlinear_arith)
            requires 0 <= k < 81, r == k / 9, c == k % 9;
        lemma_div_mod_cell(x, y);
        if k != x * 9 + y {
            assert(r != x || c != y);
            assert(b[r][c] == a[r][c]);
        }
    }
}

proof fn lemma_empties_nonneg(a: [[u8; N]; N], black: [[bool; N]; N], k: int)
    ensures empties_from(a, black, k) >= 0,
    decreases 81 - k,
{
    if 0 <= k < 81 {
        lemma_empties_nonneg(a, black, k + 1);
    }
}

/// Placing a digit that passes the local check keeps a consistent board consistent.
proof fn lemma_place(a: [[u8; N]; N], b: [[u8; N]; N], black: [[bool; N]; N], x: int, y: int, v: u8)
    requires
        0 <= x < 9, 0 <= y < 9,
        !black[x][y], a[x][y] == 0, 1 <= v <= 9,
        set_cell(a, b, x, y, v),
        spec_check(a, black, x, y, v),
        valid_partial(a, black),
    ensures valid_partial(b, black),
{
    let rb = by_rows(black);
    let cb = by_cols(black);
    assert forall|p: int, i: int, j: int|
        0 <= p < 9 && 0 <= i < 9 && 0 <= j < 9 && i != j && #[trigger] b[p][i] != 0 implies b[p][i] != #[trigger] b[p][j] by {
        if p == x && i == y {
            assert(a[p][j] != v);
        } else if p == x && j == y {
            assert(a[p][i] != v);
        } else {
            assert(b[p][i] == a[p][i] && b[p][j] == a[p][j]);
        }
    }
    assert forall|q: int, i: int, j: int|
        0 <= q < 9 && 0 <= i < 9 && 0 <= j < 9 && i != j && #[trigger] b[i][q] != 0 implies b[i][q] != #[trigger] b[j][q] by {
        if q == y && i == x {
            assert(a[j][q] != v);
        } else if q == y && j == x {
            assert(a[i][q] != v);
        } else {
            assert(b[i][q] == a[i][q] && b[j][q] == a[j][q]);
        }
    }
    assert forall|p: int, q: int|
        0 <= p < 9 && 0 <= q < 9 && !black[p][q] && #[trigger] b[p][q] != 0 implies {
            &&& span_ok(by_rows(b), rb, p, q, b[p][q])
            &&& span_ok(by_cols(b), cb, q, p, b[p][q])
        } by {
        lemma_run_bounds(rb, p, q);
        lemma_run_bounds(cb, q, p);
        if p == x && q == y {
            assert forall|i: int|
                run_lo(rb, p, q) <= i <= run_hi(rb, p, q) && i != p && #[trigger] by_rows(b)(i, q) != 0 implies absdiff(
                    by_rows(b)(i, q), b[p][q]) <= run_hi(rb, p, q) - run_lo(rb, p, q) by {
                assert(by_rows(b)(i, q) == by_rows(a)(i, q));
            }
            assert forall|i: int|
                run_lo(cb, q, p) <= i <= run_hi(cb, q, p) && i != q && #[trigger] by_cols(b)(i, p) != 0 implies absdiff(
                    by_cols(b)(i, p), b[p][q]) <= run_hi(cb, q, p) - run_lo(cb, q, p) by {
                assert(by_cols(b)(i, p) == by_cols(a)(i, p));
            }
        } else {
            assert(a[p][q] == b[p][q]);
            assert(span_ok(by_rows(a), rb, p, q, a[p][q]));
            assert(span_ok(by_cols(a), cb, q, p, a[p][q]));
            assert forall|i: int|
                run_lo(rb, p, q) <= i <= run_hi(rb, p, q) && i != p && #[trigger] by_rows(b)(i, q) != 0 implies absdiff(
                    by_rows(b)(i, q), b[p][q]) <= run_hi(rb, p, q) - run_lo(rb, p, q) by {
                if i == x && q == y {
                    lemma_same_run(rb, p, q, i);
                    lemma_run_bounds(rb, x, y);
                    assert(by_rows(a)(p, y) == a[p][q]);
                    assert(absdiff(a[p][q], v) == absdiff(v, a[p][q]));
                } else {
                    assert(by_rows(b)(i, q) == by_rows(a)(i, q));
                }
            }
            assert forall|i: int|
                run_lo(cb, q, p) <= i <= run_hi(cb, q, p) && i != q && #[trigger] by_cols(b)(i, p) != 0 implies absdiff(
                    by_cols(b)(i, p), b[p][q]) <= run_hi(cb, q, p) - run_lo(cb, q, p) by {
                if i == y && p == x {
                    lemma_same_run(cb, q, p, i);
                    lemma_run_bounds(cb, y, x);
                    assert(by_cols(a)(q, x) == a[p][q]);
                    assert(absdiff(a[p][q], v) == absdiff(v, a[p][q]));
                } else {
                    assert(by_cols(b)(i, p) == by_cols(a)(i, p));
                }
            }
        }
    }
}

/// The digit that a solution puts in an empty cell passes the local check.
pub proof fn lemma_solution_passes(a: [[u8; N]; N], black: [[bool; N]; N], t: [[u8; N]; N], x: int, y: int)
    requires
        0 <= x < 9, 0 <= y < 9,
        !black[x][y], a[x][y] == 0,
        completes(a, black, t),
    ensures spec_check(a, black, x, y, t[x][y]),
{
    let v = t[x][y];
    assert(1 <= v <= 9);
    assert forall|i: int| 0 <= i < 9 && i != y implies #[trigger] a[x][i] != v by {
        if a[x][i] != 0 {
            assert(t[x][i] == a[x][i]);
        }
    }
    assert forall|i: int| 0 <= i < 9 && i != x implies #[trigger] a[i][y] != v by {
        if a[i][y] != 0 {
            assert(t[i][y] == a[i][y]);
        }
    }
    assert(span_ok(by_rows(t), by_rows(black), x, y, v));
    assert(span_ok(by_cols(t), by_cols(black), y, x, v));
    lemma_run_bounds(by_rows(black), x, y);
    lemma_run_bounds(by_cols(black), y, x);
    assert forall|i: int|
        run_lo(by_rows(black), x, y) <= i <= run_hi(by_rows(black), x, y) && i != x && #[trigger] by_rows(a)(i, y) != 0 implies absdiff(
            by_rows(a)(i, y), v) <= run_hi(by_rows(black), x, y) - run_lo(by_rows(black), x, y) by {
        assert(t[i][y] == a[i][y]);
        assert(by_rows(t)(i, y) == by_rows(a)(i, y));
    }
    assert forall|i: int|
        run_lo(by_cols(black), y, x) <= i <= run_hi(by_cols(black), y, x) && i != y && #[trigger] by_cols(a)(i, x) != 0 implies absdiff(
            by_cols(a)(i, x), v) <= run_hi(by_cols(black), y, x) - run_lo(by_cols(black), y, x) by {
        assert(t[x][i] == a[x][i]);
        assert(by_cols(t)(i, x) == by_cols(a)(i, x));
    }
}

} // verus!

verus! {

/// `b` keeps every digit and black cell of `a`.
pub open spec fn extends(a: [[u8; N]; N], b: [[u8; N]; N], black: [[bool; N]; N]) -> bool {
    forall|x: int, y: int|
        0 <= x < 9 && 0 <= y < 9 && (a[x][y] != 0 || black[x][y]) ==> #[trigger] b[x][y] == a[x][y]
}

pub proof fn lemma_completes_after_set(a: [[u8; N]; N], b: [[u8; N]; N], black: [[bool; N]; N], t: [[u8; N]; N], x: int, y: int)
    requires
        0 <= x < 9, 0 <= y < 9, !black[x][y], a[x][y] == 0,
        set_cell(a, b, x, y, t[x][y]),
        completes(a, black, t),
    ensures completes(b, black, t),
{
    assert forall|i: int, j: int|
        0 <= i < 9 && 0 <= j < 9 && (b[i][j] != 0 || black[i][j]) implies #[trigger] t[i][j] == b[i][j] by {
        if i != x || j != y {
            assert(b[i][j] == a[i][j]);
        }
    }
}

/// Fills the empty white cells by depth-first search over the digits that
/// pass the local check, trying the most constrained cell first.
/// On `true` every white cell holds a digit and the digits given before are
/// kept (a solution, when those broke no rule); on `false` the board is as it
/// was and no solution exists.
pub fn solve_simple(s: &mut SimpleStr8ts) -> (solved: bool)
    ensures
        final(s).is_black == old(s).is_black,
        solved ==> filled(final(s).numbers, final(s).is_black),
        solved ==> extends(old(s).numbers, final(s).numbers, old(s).is_black),
        solved && valid_partial(old(s).numbers, old(s).is_black) ==> completes(
            old(s).numbers,
            old(s).is_black,
            final(s).numbers,
        ),
        !solved ==> final(s).numbers == old(s).numbers,
        !solved ==> forall|t: [[u8; N]; N]| !completes(old(s).numbers, old(s).is_black, t),
    decreases empties(old(s).numbers, old(s).is_black),
{
    let ghost a = s.numbers;
    let (x, y, cands) = match find_best_empty(s) {
        None => {
            proof {
                if valid_partial(a, s.is_black) {
                    assert forall|i: int, j: int| 0 <= i < 9 && 0 <= j < 9 && !s.is_black[i][j] implies 1 <= #[trigger] a[i][j] <= 9 by {}
                }
            }
            return true;
        },
        Some(v) => v,
    };
    let mut k: usize = 0;
    while k < cands.len()
        invariant
            x < 9, y < 9,
            !s.is_black[x as int][y as int], a[x as int][y as int] == 0,
            s.numbers == a,
            s.is_black == old(s).is_black,
            a == old(s).numbers,
            cands@ == passing_digits(a, s.is_black, x as int, y as int),
            forall|t: [[u8; N]; N]| #[trigger] completes(a, s.is_black, t) ==> forall|j: int| 0 <= j < k ==> t[x as int][y as int] != #[trigger] cands@[j],
        decreases cands.len() - k,
    {
        let value = cands[k];
        s.numbers[x][y] = value;
        let ghost b = s.numbers;
        proof {
            let all = Seq::new(9, |i: int| (i + 1) as u8);
            let pred = |v: u8| spec_check(a, s.is_black, x as int, y as int, v);
            all.lemma_filter_pred(pred, k as int);
            assert(pred(value));
            assert(1 <= value <= 9) by {
                assert(all.filter(pred).contains(value));
                all.lemma_filter_contains_rev(pred, value);
            }
            assert(set_cell(a, b, x as int, y as int, value));
            lemma_empties_step(a, b, s.is_black, x as int, y as int, value, 0);
            lemma_empties_nonneg(b, s.is_black, 0);
            assert(empties(s.numbers, s.is_black) < empties(a, s.is_black));
            assert(empties(s.numbers, s.is_black) < empties(old(s).numbers, old(s).is_black));
        }
        if solve_simple(s) {
            proof {
                if valid_partial(a, s.is_black) {
                    lemma_place(a, b, s.is_black, x as int, y as int, value);
                }
            }
            return true;
        }
        s.numbers[x][y] = 0;
        proof {
            assert forall|i: int, j: int| 0 <= i < 9 && 0 <= j < 9 implies #[trigger] s.numbers[i][j] == a[i][j] by {}
            crate::board::lemma_grid_eq(s.numbers, a);
            assert forall|t: [[u8; N]; N]| #[trigger] completes(a, s.is_black, t) implies forall|j: int| 0 <= j < k + 1 ==> t[x as int][y as int] != #[trigger] cands@[j] by {
                if t[x as int][y as int] == value {
                    lemma_completes_after_set(a, b, s.is_black, t, x as int, y as int);
                }
            }
        }
        k = k + 1;
    }
    proof {
        assert forall|t: [[u8; N]; N]| !completes(a, s.is_black, t) by {
            if completes(a, s.is_black, t) {
                lemma_solution_passes(a, s.is_black, t, x as int, y as int);
                let v = t[x as int][y as int];
                let all = Seq::new(9, |i: int| (i + 1) as u8);
                let pred = |w: u8| spec_check(a, s.is_black, x as int, y as int, w);
                assert(all[v - 1] == v);
                all.lemma_filter_contains(pred, v - 1);
                let j = choose|j: int| 0 <= j < cands@.len() && cands@[j] == v;
                assert(t[x as int][y as int] != cands@[j]);
            }
        }
    }
    false
}

} // verus!

verus! {

pub proof fn lemma_completes_before_set(a: [[u8; N]; N], b: [[u8; N]; N], black: [[bool; N]; N], t: [[u8; N]; N], x: int, y: int, v: u8)
    requires
        0 <= x < 9, 0 <= y < 9, !black[x][y], a[x][y] == 0,
        set_cell(a, b, x, y, v),
        completes(b, black, t),
    ensures completes(a, black, t),
{
    assert forall|i: int, j: int|
        0 <= i < 9 && 0 <= j < 9 && (a[i][j] != 0 || black[i][j]) implies #[trigger] t[i][j] == a[i][j] by {
        assert(b[i][j] == a[i][j]);
    }
}

/// Solutions found by the search: distinct completions of `numbers`, all of
/// them unless the search stopped at the limit (`complete`).
pub open spec fn found_ok(numbers: [[u8; N]; N], black: [[bool; N]; N], found: Seq<[[u8; N]; N]>, complete: bool) -> bool {
    &&& found.no_duplicates()
    &&& forall|i: int| 0 <= i < found.len() ==> completes(numbers, black, #[trigger] found[i])
    &&& complete ==> forall|t: [[u8; N]; N]| #[trigger] completes(numbers, black, t) ==> found.contains(t)
}

/// A filled board is its own and only completion.
proof fn lemma_filled_completion(a: [[u8; N]; N], black: [[bool; N]; N], t: [[u8; N]; N])
    requires filled(a, black), completes(a, black, t),
    ensures t == a,
{
    assert forall|i: int, j: int| 0 <= i < 9 && 0 <= j < 9 implies #[trigger] t[i][j] == a[i][j] by {
        if !black[i][j] {
            assert(a[i][j] != 0);
        }
    }
    crate::board::lemma_grid_eq(t, a);
}

fn count_solutions_inner(s: &mut SimpleStr8ts, limit: usize, count: &mut usize) -> (found: Ghost<Seq<[[u8; N]; N]>>)
    requires *old(count) < usize::MAX,
    ensures
        final(s).numbers == old(s).numbers,
        final(s).is_black == old(s).is_black,
        *final(count) == *old(count) + found@.len(),
        *final(count) <= (if *old(count) < limit { limit as int } else { *old(count) + 1 }),
        valid_partial(old(s).numbers, old(s).is_black) ==> found_ok(old(s).numbers, old(s).is_black, found@, *final(count) < limit),
        *final(count) == *old(count) && *old(count) < limit ==> forall|t: [[u8; N]; N]|
            !completes(old(s).numbers, old(s).is_black, t),
    decreases empties(old(s).numbers, old(s).is_black),
{
    let ghost a = s.numbers;
    let ghost c0 = *count;
    let (x, y, cands) = match find_best_empty(s) {
        None => {
            *count = *count + 1;
            let ghost found = seq![a];
            proof {
                if valid_partial(a, s.is_black) {
                    assert forall|i: int, j: int| 0 <= i < 9 && 0 <= j < 9 && !s.is_black[i][j] implies 1 <= #[trigger] a[i][j] <= 9 by {}
                    assert(completes(a, s.is_black, a));
                    assert forall|t: [[u8; N]; N]| #[trigger] completes(a, s.is_black, t) implies found.contains(t) by {
                        lemma_filled_completion(a, s.is_black, t);
                        assert(found[0] == a);
                    }
                }
            }
            return Ghost(found);
        },
        Some(v) => v,
    };
    let ghost black = s.is_black;
    let ghost valid = valid_partial(a, black);
    proof {
        let all = Seq::new(9, |i: int| (i + 1) as u8);
        let pred = |v: u8| spec_check(a, black, x as int, y as int, v);
        crate::candidates::lemma_filter_sorted(all, pred);
    }
    let ghost mut acc: Seq<[[u8; N]; N]> = Seq::empty();
    let mut k: usize = 0;
    while k < cands.len()
        invariant
            x < 9, y < 9,
            !black[x as int][y as int], a[x as int][y as int] == 0,
            s.numbers == a,
            s.is_black == black, black == old(s).is_black,
            a == old(s).numbers,
            valid == valid_partial(a, black),
            c0 == *old(count), *count == c0 + acc.len(),
            c0 < usize::MAX,
            *count <= (if c0 < limit { limit as int } else { c0 as int }),
            k <= cands@.len(),
            cands@ == passing_digits(a, black, x as int, y as int),
            forall|i: int, j: int| 0 <= i < j < cands@.len() ==> #[trigger] cands@[i] < #[trigger] cands@[j],
            valid ==> found_ok(a, black, acc, false),
            valid ==> forall|i: int| 0 <= i < acc.len() ==> exists|j: int| 0 <= j < k && (#[trigger] acc[i])[x as int][y as int] == cands@[j],
            valid && *count < limit ==> forall|t: [[u8; N]; N]| #[trigger] completes(a, black, t) && (exists|j: int|
                0 <= j < k && t[x as int][y as int] == cands@[j]) ==> acc.contains(t),
            *count == c0 ==> forall|t: [[u8; N]; N]| #[trigger] completes(a, black, t) ==> forall|j: int| 0 <= j < k ==> t[x as int][y as int] != #[trigger] cands@[j],
        decreases cands.len() - k,
    {
        if *count >= limit {
            return Ghost(acc);
        }
        let value = cands[k];
        s.numbers[x][y] = value;
        let ghost b = s.numbers;
        let ghost before = *count;
        proof {
            let all = Seq::new(9, |i: int| (i + 1) as u8);
            let pred = |v: u8| spec_check(a, black, x as int, y as int, v);
            all.lemma_filter_pred(pred, k as int);
            assert(1 <= value <= 9) by {
                assert(all.filter(pred).contains(value));
                all.lemma_filter_contains_rev(pred, value);
            }
            assert(set_cell(a, b, x as int, y as int, value));
            lemma_empties_step(a, b, black, x as int, y as int, value, 0);
            lemma_empties_nonneg(b, black, 0);
            assert(empties(s.numbers, s.is_black) < empties(old(s).numbers, old(s).is_black));
        }
        let Ghost(child) = count_solutions_inner(s, limit, count);
        proof {
            if valid {
                lemma_place(a, b, black, x as int, y as int, value);
                // the child's solutions complete `a` and hold `value` at `(x, y)`
                assert forall|i: int| 0 <= i < child.len() implies completes(a, black, #[trigger] child[i]) && child[i][x as int][y as int]
                    == value by {
                    lemma_completes_before_set(a, b, black, child[i], x as int, y as int, value);
                }
                let acc2 = acc + child;
                assert forall|i: int| 0 <= i < acc2.len() implies completes(a, black, #[trigger] acc2[i]) by {
                    if i >= acc.len() {
                        assert(acc2[i] == child[i - acc.len()]);
                    }
                }
                assert forall|i: int| 0 <= i < acc2.len() implies exists|j: int| 0 <= j < k + 1 && (#[trigger] acc2[i])[x as int][y
                    as int] == cands@[j] by {
                    if i >= acc.len() {
                        assert(acc2[i] == child[i - acc.len()]);
                        assert(acc2[i][x as int][y as int] == cands@[k as int]);
                    } else {
                        assert(acc2[i] == acc[i]);
                    }
                }
                assert(acc2.no_duplicates()) by {
                    assert forall|i: int, j: int| 0 <= i < acc2.len() && 0 <= j < acc2.len() && i != j implies acc2[i] != acc2[j] by {
                        if i < acc.len() && j < acc.len() {
                            assert(acc2[i] == acc[i] && acc2[j] == acc[j]);
                        } else if i >= acc.len() && j >= acc.len() {
                            assert(acc2[i] == child[i - acc.len()] && acc2[j] == child[j - acc.len()]);
                        } else {
                            let (p, q) = if i < acc.len() { (i, j) } else { (j, i) };
                            assert(acc2[p] == acc[p]);
                            assert(acc2[q] == child[q - acc.len()]);
                            let jj = choose|jj: int| 0 <= jj < k && (#[trigger] acc[p])[x as int][y as int] == cands@[jj];
                            assert(cands@[jj] < cands@[k as int]);
                            assert(acc2[p][x as int][y as int] != acc2[q][x as int][y as int]);
                        }
                    }
                }
                if *count < limit {
                    assert forall|t: [[u8; N]; N]| #[trigger] completes(a, black, t) && (exists|j: int|
                        0 <= j < k + 1 && t[x as int][y as int] == cands@[j]) implies acc2.contains(t) by {
                        let j = choose|j: int| 0 <= j < k + 1 && t[x as int][y as int] == cands@[j];
                        if j == k {
                            lemma_completes_after_set(a, b, black, t, x as int, y as int);
                            let i = choose|i: int| 0 <= i < child.len() && child[i] == t;
                            assert(acc2[acc.len() + i] == t);
                        } else {
                            let i = choose|i: int| 0 <= i < acc.len() && acc[i] == t;
                            assert(acc2[i] == t);
                        }
                    }
                }
            }
        }
        proof {
            acc = acc + child;
        }
        s.numbers[x][y] = 0;
        proof {
            assert forall|i: int, j: int| 0 <= i < 9 && 0 <= j < 9 implies #[trigger] s.numbers[i][j] == a[i][j] by {}
            crate::board::lemma_grid_eq(s.numbers, a);
            if *count == c0 {
                assert forall|t: [[u8; N]; N]| #[trigger] completes(a, black, t) implies forall|j: int| 0 <= j < k + 1 ==> t[x as int][y as int] != #[trigger] cands@[j] by {
                    if t[x as int][y as int] == value {
                        lemma_completes_after_set(a, b, black, t, x as int, y as int);
                    }
                }
            }
        }
        k = k + 1;
    }
    proof {
        assert forall|t: [[u8; N]; N]| #[trigger] completes(a, black, t) implies exists|j: int| 0 <= j < cands@.len() && t[x as int][y as int] == cands@[j] by {
            lemma_solution_passes(a, black, t, x as int, y as int);
            let v = t[x as int][y as int];
            let all = Seq::new(9, |i: int| (i + 1) as u8);
            let pred = |w: u8| spec_check(a, black, x as int, y as int, w);
            assert(all[v - 1] == v);
            all.lemma_filter_contains(pred, v - 1);
        }
    }
    Ghost(acc)
}

/// Counts solutions by backtracking and stops once `limit` are found; the
/// board is left as it was. On a board whose digits break no rule, the count
/// is that of a list of distinct solutions, which holds every solution when
/// the count stays below `limit`: it is the number of solutions, capped at
/// `limit`.
pub fn count_solutions(s: &mut SimpleStr8ts, limit: usize) -> (n: usize)
    ensures
        final(s).numbers == old(s).numbers,
        final(s).is_black == old(s).is_black,
        n <= (if limit > 0 { limit as int } else { 1 }),
        valid_partial(old(s).numbers, old(s).is_black) ==> exists|found: Seq<[[u8; N]; N]>|
            #[trigger] found.len() == n && found_ok(old(s).numbers, old(s).is_black, found, n < limit),
        n == 0 && limit > 0 ==> forall|t: [[u8; N]; N]| !completes(old(s).numbers, old(s).is_black, t),
{
    let mut count: usize = 0;
    let Ghost(found) = count_solutions_inner(s, limit, &mut count);
    proof {
        if valid_partial(old(s).numbers, old(s).is_black) {
            assert(found.len() == count && found_ok(old(s).numbers, old(s).is_black, found, count < limit));
        }
    }
    count
}

} // verus!
