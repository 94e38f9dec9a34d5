//! The strategies that reason about sets of cells or digits: naked and
//! hidden sets, locked compartments, sea creatures, the unique-solution
//! constraint and the Y-wing.
use vstd::prelude::*;
use crate::board::{HumanStr8ts, N, comps_view, rows_structured, in_row_run};
use crate::candidates::{
    all_compartments, cells_having, cells_with, comp_ok, comp_ranges, comp_sure, copy_comp, count_digits, digits_of, get_compartment_ranges,
    get_sure_candidates, lemma_comps_ok, lemma_digits_of, mask_has, mask_single, mask_values, popcount,
};
use crate::hardness::{H_LOCKED, H_UNIQUE, H_YWING, naked_set_h, hidden_set_h, sea_creature_h, naked_set_hardness, hidden_set_hardness, sea_creature_hardness};
use crate::setti::line_cell;
use crate::mask::{bit, bit_of, has_digit, is_digit, is_mask, lemma_bit_has, lemma_has_and_not, lemma_mask_ext, lemma_mask_ops_closed};
use crate::moves::{
    lemma_clear_bit, lemma_listed_take, lemma_no_progress, lemma_strategy_done, lemma_tracks_chain, lemma_tracks_refl, listed, narrow,
    all_white, moved, on_board, progress, rem_candidate, same_cells, strategy_done, strike_digit, tracks,
};

verus! {

// ---------------------------------------------------------------------------
// Combinations
// ---------------------------------------------------------------------------

/// Strictly increasing positions below `n`.
pub open spec fn increasing_below(c: Seq<usize>, n: nat) -> bool {
    &&& forall|i: int| 0 <= i < c.len() ==> #[trigger] c[i] < n
    &&& forall|i: int, j: int| 0 <= i < j < c.len() ==> #[trigger] c[i] < #[trigger] c[j]
}

/// `c` is a `k`-element increasing selection below `n` that starts with `cur`
/// and goes on with positions from `start` on.
pub open spec fn extends_choice(c: Seq<usize>, cur: Seq<usize>, start: int, n: nat, k: nat) -> bool {
    &&& c.len() == k
    &&& increasing_below(c, n)
    &&& cur.len() <= k
    &&& c.take(cur.len() as int) == cur
    &&& forall|i: int| cur.len() <= i < k ==> #[trigger] c[i] >= start
}

/// `c` is among the listed selections.
pub open spec fn listed_choice(out: Seq<Vec<usize>>, c: Seq<usize>) -> bool {
    exists|j: int| 0 <= j < out.len() && (#[trigger] out[j])@ == c
}

fn combinations_rec(n: usize, k: usize, start: usize, cur: &mut Vec<usize>, out: &mut Vec<Vec<usize>>)
    requires
        start <= n,
        old(cur)@.len() <= k,
        increasing_below(old(cur)@, n as nat),
        forall|i: int| 0 <= i < old(cur)@.len() ==> #[trigger] old(cur)@[i] < start,
        forall|i: int| 0 <= i < old(out)@.len() ==> (#[trigger] old(out)@[i])@.len() == k && increasing_below(old(out)@[i]@, n as nat),
    ensures
        final(cur)@ == old(cur)@,
        forall|i: int| 0 <= i < final(out)@.len() ==> (#[trigger] final(out)@[i])@.len() == k && increasing_below(final(out)@[i]@, n as nat),
        final(out)@.len() >= old(out)@.len(),
        forall|j: int| 0 <= j < old(out)@.len() ==> #[trigger] final(out)@[j] == old(out)@[j],
        forall|c: Seq<usize>| #[trigger] extends_choice(c, old(cur)@, start as int, n as nat, k as nat) ==> listed_choice(final(out)@, c),
    decreases k - old(cur)@.len(),
{
    if cur.len() == k {
        let mut copy: Vec<usize> = Vec::new();
        for i in 0..cur.len()
            invariant copy@ == cur@.take(i as int),
        {
            proof {
                assert(cur@.take(i + 1) == cur@.take(i as int).push(cur@[i as int]));
            }
            copy.push(cur[i]);
        }
        proof {
            assert(cur@.take(cur@.len() as int) == cur@);
        }
        out.push(copy);
        proof {
            assert forall|c: Seq<usize>| #[trigger] extends_choice(c, old(cur)@, start as int, n as nat, k as nat) implies listed_choice(
                out@,
                c,
            ) by {
                assert(c.take(k as int) == c);
                assert(out@[out@.len() - 1]@ == c);
            }
        }
        return;
    }
    let ghost c0 = cur@;
    let ghost out0 = out@;
    for i in start..n
        invariant
            cur@ == c0,
            c0 == old(cur)@,
            out0 == old(out)@,
            c0.len() < k,
            start <= i <= n,
            increasing_below(c0, n as nat),
            forall|j: int| 0 <= j < c0.len() ==> #[trigger] c0[j] < start,
            forall|j: int| 0 <= j < out@.len() ==> (#[trigger] out@[j])@.len() == k && increasing_below(out@[j]@, n as nat),
            out@.len() >= out0.len(),
            forall|j: int| 0 <= j < out0.len() ==> #[trigger] out@[j] == out0[j],
            forall|c: Seq<usize>| #[trigger] extends_choice(c, c0, start as int, n as nat, k as nat) && c[c0.len() as int] < i ==> listed_choice(out@, c),
    {
        let ghost out1 = out@;
        cur.push(i);
        proof {
            assert(cur@ == c0.push(i));
            assert forall|a: int, b: int| 0 <= a < b < cur@.len() implies #[trigger] cur@[a] < #[trigger] cur@[b] by {
                if b == c0.len() {
                    assert(cur@[a] == c0[a]);
                }
            }
        }
        let ghost cur1 = cur@;
        combinations_rec(n, k, i + 1, cur, out);
        cur.pop();
        proof {
            assert(cur@ =~= c0);
            assert forall|c: Seq<usize>| #[trigger] extends_choice(c, c0, start as int, n as nat, k as nat) && c[c0.len() as int] < i + 1
                implies listed_choice(out@, c) by {
                if c[c0.len() as int] < i {
                    let j = choose|j: int| 0 <= j < out1.len() && (#[trigger] out1[j])@ == c;
                    assert(out@[j] == out1[j]);
                } else {
                    assert(c.take(c0.len() as int + 1) =~= cur1) by {
                        assert(c.take(c0.len() as int) == c0);
                        assert forall|x: int| 0 <= x < c0.len() + 1 implies c.take(c0.len() as int + 1)[x] == cur1[x] by {
                            if x < c0.len() {
                                assert(c.take(c0.len() as int)[x] == c[x]);
                            }
                        }
                    }
                    assert forall|x: int| cur1.len() <= x < k implies #[trigger] c[x] >= i + 1 by {
                        assert(c[c0.len() as int] < c[x]);
                    }
                    assert(extends_choice(c, cur1, i + 1, n as nat, k as nat));
                }
            }
        }
    }
    proof {
        assert forall|c: Seq<usize>| #[trigger] extends_choice(c, c0, start as int, n as nat, k as nat) implies listed_choice(out@, c) by {
            assert(c[c0.len() as int] < n);
        }
    }
}

/// The `k`-element subsets of the positions `0..n`, each in increasing
/// order, listed in lexicographic order; none when `k` is 0 or above `n`.
pub(crate) fn combinations(n: usize, k: usize) -> (out: Vec<Vec<usize>>)
    ensures
        forall|i: int| 0 <= i < out@.len() ==> (#[trigger] out@[i])@.len() == k && increasing_below(out@[i]@, n as nat),
        k == 0 || k > n ==> out@.len() == 0,
        k > 0 ==> forall|c: Seq<usize>| c.len() == k && #[trigger] increasing_below(c, n as nat) ==> listed_choice(out@, c),
{
    let mut out: Vec<Vec<usize>> = Vec::new();
    if k == 0 || k > n {
        proof {
            if k > 0 {
                assert forall|c: Seq<usize>| c.len() == k && #[trigger] increasing_below(c, n as nat) implies listed_choice(out@, c) by {
                    lemma_increasing_len(c, n as nat);
                }
            }
        }
        return out;
    }
    let mut cur: Vec<usize> = Vec::new();
    combinations_rec(n, k, 0, &mut cur, &mut out);
    proof {
        assert forall|c: Seq<usize>| c.len() == k && #[trigger] increasing_below(c, n as nat) implies listed_choice(out@, c) by {
            assert(c.take(0) =~= Seq::<usize>::empty());
            assert(extends_choice(c, Seq::<usize>::empty(), 0, n as nat, k as nat));
        }
    }
    out
}

/// An increasing selection below `n` has at most `n` elements.
proof fn lemma_increasing_len(c: Seq<usize>, n: nat)
    requires increasing_below(c, n),
    ensures c.len() <= n,
    decreases c.len(),
{
    if c.len() > 0 {
        let d = c.drop_last();
        assert forall|i: int| 0 <= i < d.len() implies #[trigger] d[i] < c.last() by {
            assert(c[i] < c[c.len() - 1]);
        }
        lemma_increasing_len(d, c.last() as nat);
    }
}

// ---------------------------------------------------------------------------
// Naked sets
// ---------------------------------------------------------------------------

/// The white cells of a row (`by_rows`) or a column, in order.
/// The cells of a row (`by_rows`) or column, in order.
pub open spec fn line_seq(line: int, by_rows: bool) -> Seq<(usize, usize)> {
    Seq::new(9, |k: int| if by_rows { (line as usize, k as usize) } else { (k as usize, line as usize) })
}

/// A white cell.
pub open spec fn white_cell(s: HumanStr8ts) -> spec_fn((usize, usize)) -> bool {
    |q: (usize, usize)| !s.is_black[q.0 as int][q.1 as int]
}

/// The white cells of a row (`by_rows`) or column, in order.
pub open spec fn white_line(s: HumanStr8ts, line: int, by_rows: bool) -> Seq<(usize, usize)> {
    line_seq(line, by_rows).filter(white_cell(s))
}

fn line_cells(s: &HumanStr8ts, line: usize, by_rows: bool) -> (out: Vec<(usize, usize)>)
    requires line < 9,
    ensures
        out@ == white_line(*s, line as int, by_rows),
        on_board(out@),
        out@.len() <= 9,
        forall|k: int| 0 <= k < out@.len() ==> !s.is_black[(#[trigger] out@[k]).0 as int][out@[k].1 as int]
            && (if by_rows { out@[k].0 == line } else { out@[k].1 == line }),
{
    let ghost all = line_seq(line as int, by_rows);
    let ghost p = white_cell(*s);
    let mut out: Vec<(usize, usize)> = Vec::new();
    for k in 0..N
        invariant
            line < 9,
            all == line_seq(line as int, by_rows),
            p == white_cell(*s),
            out@ == all.take(k as int).filter(p),
            on_board(out@),
            out@.len() <= k,
            forall|i: int| 0 <= i < out@.len() ==> !s.is_black[(#[trigger] out@[i]).0 as int][out@[i].1 as int]
                && (if by_rows { out@[i].0 == line } else { out@[i].1 == line }),
    {
        let (r, c) = if by_rows { (line, k) } else { (k, line) };
        proof {
            assert(all.take(k + 1).drop_last() == all.take(k as int));
            assert(all.take(k + 1).last() == (r, c));
            reveal_with_fuel(Seq::filter, 1);
        }
        if !s.is_black[r][c] {
            out.push((r, c));
        }
    }
    proof {
        assert(all.take(9) == all);
    }
    out
}

fn contains_cell(v: &Vec<(usize, usize)>, r: usize, c: usize) -> (b: bool)
    ensures b == v@.contains((r, c)),
{
    for k in 0..v.len()
        invariant forall|i: int| 0 <= i < k ==> v@[i] != (r, c),
    {
        let (a, b) = v[k];
        if a == r && b == c {
            proof {
                assert(v@[k as int] == (r, c));
            }
            return true;
        }
    }
    false
}

/// Removes the digits of `mask` from the unsolved listed cells outside `subset`.
fn exclude_outside(s: &mut HumanStr8ts, cells: &Vec<(usize, usize)>, subset: &Vec<(usize, usize)>, mask: u16) -> (eff: bool)
    requires old(s).wf(), on_board(cells@), all_white(old(s).is_black, cells@),
    ensures
        tracks(*old(s), *final(s), eff),
        final(s).solved == old(s).solved,
        final(s).numbers == old(s).numbers,
        forall|i: int, j: int| 0 <= i < 9 && 0 <= j < 9 ==> #[trigger] final(s).candidates[i][j] == if listed(cells@, i, j) && !listed(
            subset@,
            i,
            j,
        ) && !old(s).solved[i][j] {
            old(s).candidates[i][j] & !mask
        } else {
            old(s).candidates[i][j]
        },
{
    let ghost s0 = *s;
    let mut eff = false;
    proof {
        lemma_tracks_refl(s0);
    }
    for k in 0..cells.len()
        invariant
            all_white(s0.is_black, cells@), s.is_black == s0.is_black,
            s0 == *old(s), s0.wf(), on_board(cells@),
            tracks(s0, *s, eff),
            s.solved == s0.solved,
            s.numbers == s0.numbers,
            forall|i: int, j: int| 0 <= i < 9 && 0 <= j < 9 ==> #[trigger] s.candidates[i][j] == if listed(cells@.take(k as int), i, j) && !listed(
                subset@,
                i,
                j,
            ) && !s0.solved[i][j] {
                s0.candidates[i][j] & !mask
            } else {
                s0.candidates[i][j]
            },
    {
        let (r, c) = cells[k];
        proof {
            assert(cells@[k as int] == (r, c));
        }
        let ghost before = *s;
        if !contains_cell(subset, r, c) && !s.solved[r][c] {
            let e = narrow(s, r, c, !mask);
            proof {
                lemma_tracks_chain(s0, before, *s, eff, e);
            }
            if e {
                eff = true;
            }
        }
        proof {
            assert forall|i: int, j: int| 0 <= i < 9 && 0 <= j < 9 implies #[trigger] s.candidates[i][j] == if listed(cells@.take(k + 1), i, j)
                && !listed(subset@, i, j) && !s0.solved[i][j] {
                s0.candidates[i][j] & !mask
            } else {
                s0.candidates[i][j]
            } by {
                lemma_listed_take(cells@, k as int, i, j);
                lemma_clear_bit(s0.candidates[i][j], mask);
            }
        }
    }
    proof {
        assert(cells@.take(cells@.len() as int) == cells@);
    }
    eff
}

/// Keeps only the digits of `mask` in the unsolved listed cells.
fn keep_only(s: &mut HumanStr8ts, cells: &Vec<(usize, usize)>, mask: u16) -> (eff: bool)
    requires old(s).wf(), on_board(cells@), all_white(old(s).is_black, cells@),
    ensures
        tracks(*old(s), *final(s), eff),
        final(s).solved == old(s).solved,
        final(s).numbers == old(s).numbers,
        forall|i: int, j: int| 0 <= i < 9 && 0 <= j < 9 ==> #[trigger] final(s).candidates[i][j] == if listed(cells@, i, j)
            && !old(s).solved[i][j] {
            old(s).candidates[i][j] & mask
        } else {
            old(s).candidates[i][j]
        },
{
    let ghost s0 = *s;
    let mut eff = false;
    proof {
        lemma_tracks_refl(s0);
    }
    for k in 0..cells.len()
        invariant
            all_white(s0.is_black, cells@), s.is_black == s0.is_black,
            s0 == *old(s), s0.wf(), on_board(cells@),
            tracks(s0, *s, eff),
            s.solved == s0.solved,
            s.numbers == s0.numbers,
            forall|i: int, j: int| 0 <= i < 9 && 0 <= j < 9 ==> #[trigger] s.candidates[i][j] == if listed(cells@.take(k as int), i, j)
                && !s0.solved[i][j] {
                s0.candidates[i][j] & mask
            } else {
                s0.candidates[i][j]
            },
    {
        let (r, c) = cells[k];
        proof {
            assert(cells@[k as int] == (r, c));
        }
        let ghost before = *s;
        if !s.solved[r][c] {
            let e = narrow(s, r, c, mask);
            proof {
                lemma_tracks_chain(s0, before, *s, eff, e);
            }
            if e {
                eff = true;
            }
        }
        proof {
            assert forall|i: int, j: int| 0 <= i < 9 && 0 <= j < 9 implies #[trigger] s.candidates[i][j] == if listed(cells@.take(k + 1), i, j)
                && !s0.solved[i][j] {
                s0.candidates[i][j] & mask
            } else {
                s0.candidates[i][j]
            } by {
                lemma_listed_take(cells@, k as int, i, j);
                let m = s0.candidates[i][j];
                assert((m & mask) & mask == m & mask) by (bit_vector);
            }
        }
    }
    proof {
        assert(cells@.take(cells@.len() as int) == cells@);
    }
    eff
}

/// An unsolved cell.
pub open spec fn unsolved_cell(s: HumanStr8ts) -> spec_fn((usize, usize)) -> bool {
    |q: (usize, usize)| !s.solved[q.0 as int][q.1 as int]
}

/// An unsolved cell with at most `k` candidates.
pub open spec fn small_cell(s: HumanStr8ts, k: int) -> spec_fn((usize, usize)) -> bool {
    |q: (usize, usize)| popcount(s.candidates[q.0 as int][q.1 as int]) <= k
}

/// The unsolved cells of `cells` with at most `k` candidates, in order.
pub open spec fn small_cells_of(s: HumanStr8ts, cells: Seq<(usize, usize)>, k: int) -> Seq<(usize, usize)> {
    cells.filter(unsolved_cell(s)).filter(small_cell(s, k))
}

/// The cells at the positions `sel` of `cells`.
pub open spec fn picked(cells: Seq<(usize, usize)>, sel: Seq<usize>) -> Seq<(usize, usize)> {
    Seq::new(sel.len(), |j: int| cells[sel[j] as int])
}

/// The union of the candidates of the cells at the first `j` positions of `sel`.
pub open spec fn union_at(s: HumanStr8ts, cells: Seq<(usize, usize)>, sel: Seq<usize>, j: int) -> u16
    decreases j,
{
    if j <= 0 {
        0
    } else {
        union_at(s, cells, sel, j - 1) | s.candidates[cells[sel[j - 1] as int].0 as int][cells[sel[j - 1] as int].1 as int]
    }
}

/// Some unsolved cell of `cells` outside `subset` has a digit of `mask`.
pub open spec fn set_bites(s: HumanStr8ts, cells: Seq<(usize, usize)>, subset: Seq<(usize, usize)>, mask: u16) -> bool {
    exists|x: int, y: int| 0 <= x < 9 && 0 <= y < 9 && #[trigger] listed(cells, x, y) && !listed(subset, x, y) && !s.solved[x][y]
        && s.candidates[x][y] & !mask != s.candidates[x][y]
}

/// The `k` small cells of `cells` at positions `sel` form a naked set: their
/// candidates are `k` digits in all, and some other unsolved cell of `cells`
/// has one of them.
pub open spec fn naked_set_at(s: HumanStr8ts, cells: Seq<(usize, usize)>, k: int, sel: Seq<usize>) -> bool {
    let small = small_cells_of(s, cells, k);
    &&& cells.filter(unsolved_cell(s)).len() > k
    &&& sel.len() == k && increasing_below(sel, small.len())
    &&& popcount(union_at(s, small, sel, k)) == k
    &&& set_bites(s, cells, picked(small, sel), union_at(s, small, sel, k))
}

/// `b` is `a` with the digits of `mask` removed from the unsolved cells of
/// `cells` outside `subset`.
pub open spec fn set_excluded(a: HumanStr8ts, b: HumanStr8ts, cells: Seq<(usize, usize)>, subset: Seq<(usize, usize)>, mask: u16) -> bool {
    &&& b.solved == a.solved
    &&& b.numbers == a.numbers
    &&& forall|i: int, j: int| 0 <= i < 9 && 0 <= j < 9 ==> #[trigger] b.candidates[i][j] == if listed(cells, i, j) && !listed(subset, i, j)
        && !a.solved[i][j] {
        a.candidates[i][j] & !mask
    } else {
        a.candidates[i][j]
    }
}

/// Excluding changes the board exactly when it bites.
proof fn lemma_exclude_bites(a: HumanStr8ts, b: HumanStr8ts, cells: Seq<(usize, usize)>, subset: Seq<(usize, usize)>, mask: u16)
    requires set_excluded(a, b, cells, subset, mask),
    ensures progress(a, b) <==> set_bites(a, cells, subset, mask),
{
    if progress(a, b) {
        let (x, y) = choose|x: int, y: int| 0 <= x < 9 && 0 <= y < 9 && #[trigger] moved(a, b, x, y);
        assert(listed(cells, x, y));
    }
    if set_bites(a, cells, subset, mask) {
        let (x, y) = choose|x: int, y: int| 0 <= x < 9 && 0 <= y < 9 && #[trigger] listed(cells, x, y) && !listed(subset, x, y)
            && !a.solved[x][y] && a.candidates[x][y] & !mask != a.candidates[x][y];
        assert(moved(a, b, x, y));
    }
}

/// A naked set among `cells`: `set_size` unsolved cells whose candidates
/// together are `set_size` digits; those digits leave the other cells. Stops
/// at the first set that removes something.
fn naked_in_cells(s: &mut HumanStr8ts, cells: &Vec<(usize, usize)>, set_size: usize) -> (found: bool)
    requires old(s).wf(), on_board(cells@), all_white(old(s).is_black, cells@),
    ensures
        found ==> tracks(*old(s), *final(s), true),
        !found ==> *final(s) == *old(s),
        found <==> exists|sel: Seq<usize>| #[trigger] naked_set_at(*old(s), cells@, set_size as int, sel),
        found ==> exists|sel: Seq<usize>| #[trigger] naked_set_at(*old(s), cells@, set_size as int, sel) && set_excluded(
            *old(s),
            *final(s),
            cells@,
            picked(small_cells_of(*old(s), cells@, set_size as int), sel),
            union_at(*old(s), small_cells_of(*old(s), cells@, set_size as int), sel, set_size as int),
        ),
{
    let ghost s0 = *s;
    let ghost pu = unsolved_cell(s0);
    let ghost ps = small_cell(s0, set_size as int);
    let mut unsolved: Vec<(usize, usize)> = Vec::new();
    let mut k: usize = 0;
    while k < cells.len()
        invariant
            on_board(cells@), on_board(unsolved@), k <= cells@.len(), *s == s0,
            pu == unsolved_cell(s0),
            unsolved@ == cells@.take(k as int).filter(pu),
        decreases cells@.len() - k,
    {
        let (r, c) = cells[k];
        proof {
            assert(cells@[k as int] == (r, c));
            assert(cells@.take(k + 1) == cells@.take(k as int).push((r, c)));
            cells@.take(k as int).lemma_filter_push((r, c), pu);
        }
        if !s.solved[r][c] {
            unsolved.push((r, c));
        }
        k = k + 1;
    }
    proof {
        assert(cells@.take(cells@.len() as int) == cells@);
    }
    if unsolved.len() <= set_size {
        proof {
            assert forall|sel: Seq<usize>| !#[trigger] naked_set_at(s0, cells@, set_size as int, sel) by {}
        }
        return false;
    }
    let mut small_cells: Vec<(usize, usize)> = Vec::new();
    let mut k: usize = 0;
    while k < unsolved.len()
        invariant
            on_board(unsolved@), on_board(small_cells@), k <= unsolved@.len(), *s == s0,
            ps == small_cell(s0, set_size as int),
            small_cells@ == unsolved@.take(k as int).filter(ps),
        decreases unsolved@.len() - k,
    {
        let (r, c) = unsolved[k];
        proof {
            assert(unsolved@[k as int] == (r, c));
            assert(unsolved@.take(k + 1) == unsolved@.take(k as int).push((r, c)));
            unsolved@.take(k as int).lemma_filter_push((r, c), ps);
        }
        if count_digits(s.candidates[r][c]) <= set_size {
            small_cells.push((r, c));
        }
        k = k + 1;
    }
    proof {
        assert(unsolved@.take(unsolved@.len() as int) == unsolved@);
        assert(small_cells@ == small_cells_of(s0, cells@, set_size as int));
    }
    let ghost small = small_cells@;
    let combos = combinations(small_cells.len(), set_size);
    let mut ci: usize = 0;
    while ci < combos.len()
        invariant
            s0 == *old(s), *s == s0, s0.wf(), ci <= combos@.len(), all_white(s0.is_black, cells@),
            on_board(cells@), on_board(small_cells@),
            small == small_cells@,
            small == small_cells_of(s0, cells@, set_size as int),
            cells@.filter(unsolved_cell(s0)).len() > set_size,
            forall|i: int| 0 <= i < combos@.len() ==> (#[trigger] combos@[i])@.len() == set_size && crate::sets::increasing_below(
                combos@[i]@,
                small_cells@.len() as nat,
            ),
            set_size > 0 ==> forall|c: Seq<usize>| c.len() == set_size && #[trigger] increasing_below(c, small_cells@.len() as nat) ==> listed_choice(combos@, c),
            forall|i: int| 0 <= i < ci ==> !#[trigger] naked_set_at(s0, cells@, set_size as int, combos@[i]@),
        decreases combos@.len() - ci,
    {
        let combo = &combos[ci];
        proof {
            assert(increasing_below(combos@[ci as int]@, small_cells@.len() as nat));
        }
        let mut subset: Vec<(usize, usize)> = Vec::new();
        let mut union_cands: u16 = 0;
        let mut j: usize = 0;
        while j < combo.len()
            invariant
                *s == s0, j <= combo@.len(),
                increasing_below(combo@, small_cells@.len() as nat),
                on_board(small_cells@), on_board(subset@),
                subset@ == picked(small, combo@.take(j as int)),
                union_cands == union_at(s0, small, combo@, j as int),
                small == small_cells@,
            decreases combo@.len() - j,
        {
            let (r, c) = small_cells[combo[j]];
            proof {
                assert(small_cells@[combo@[j as int] as int] == (r, c));
            }
            subset.push((r, c));
            union_cands = union_cands | s.candidates[r][c];
            proof {
                assert(subset@ =~= picked(small, combo@.take(j + 1)));
            }
            j = j + 1;
        }
        proof {
            assert(combo@.take(combo@.len() as int) == combo@);
        }
        if count_digits(union_cands) == set_size {
            let e = exclude_outside(s, cells, &subset, union_cands);
            proof {
                lemma_exclude_bites(s0, *s, cells@, subset@, union_cands);
            }
            if e {
                proof {
                    assert(naked_set_at(s0, cells@, set_size as int, combo@));
                }
                return true;
            }
            proof {
                lemma_no_progress(s0, *s);
            }
        }
        ci = ci + 1;
    }
    proof {
        assert forall|sel: Seq<usize>| !#[trigger] naked_set_at(s0, cells@, set_size as int, sel) by {
            if naked_set_at(s0, cells@, set_size as int, sel) {
                if set_size == 0 {
                    assert(union_at(s0, small, sel, 0) == 0);
                    let (x, y) = choose|x: int, y: int| 0 <= x < 9 && 0 <= y < 9 && #[trigger] listed(cells@, x, y)
                        && !listed(picked(small, sel), x, y) && !s0.solved[x][y] && s0.candidates[x][y] & !0u16 != s0.candidates[x][y];
                    let m = s0.candidates[x][y];
                    assert(m & !0u16 == m) by (bit_vector);
                } else {
                    assert(listed_choice(combos@, sel));
                    let i = choose|i: int| 0 <= i < combos@.len() && (#[trigger] combos@[i])@ == sel;
                    assert(!naked_set_at(s0, cells@, set_size as int, combos@[i]@));
                }
            }
        }
    }
    false
}

/// A naked set of `k` cells stands in a compartment of more than `k` cells,
/// or among the white cells of a row or of a column.
pub open spec fn naked_anywhere(s: HumanStr8ts, k: int) -> bool {
    ||| exists|i: int, sel: Seq<usize>| 0 <= i < comps_view(s.row_compartments).len() && comps_view(s.row_compartments)[i].len() > k
        && #[trigger] naked_set_at(s, comps_view(s.row_compartments)[i], k, sel)
    ||| exists|i: int, sel: Seq<usize>| 0 <= i < comps_view(s.col_compartments).len() && comps_view(s.col_compartments)[i].len() > k
        && #[trigger] naked_set_at(s, comps_view(s.col_compartments)[i], k, sel)
    ||| exists|line: int, sel: Seq<usize>| 0 <= line < 9 && #[trigger] naked_set_at(s, white_line(s, line, true), k, sel)
    ||| exists|line: int, sel: Seq<usize>| 0 <= line < 9 && #[trigger] naked_set_at(s, white_line(s, line, false), k, sel)
}

/// `b` is `a` after the naked set at `sel` of `cells` cleared its digits
/// from the other cells.
pub open spec fn naked_applied(a: HumanStr8ts, b: HumanStr8ts, cells: Seq<(usize, usize)>, k: int, sel: Seq<usize>) -> bool {
    &&& naked_set_at(a, cells, k, sel)
    &&& set_excluded(a, b, cells, picked(small_cells_of(a, cells, k), sel), union_at(a, small_cells_of(a, cells, k), sel, k))
}

/// Naked sets in compartments, rows and columns.
pub(crate) fn use_naked_set(s: &mut HumanStr8ts, set_size: usize) -> (res: i32)
    requires old(s).wf(), 1 <= set_size <= 9,
    ensures
        strategy_done(*old(s), *final(s), res, naked_set_h(set_size as int) as i32),
        res == 0 <==> !naked_anywhere(*old(s), set_size as int),
        res != 0 ==> exists|cells: Seq<(usize, usize)>, sel: Seq<usize>| #[trigger] naked_applied(*old(s), *final(s), cells, set_size as int, sel),
{
    let ghost s0 = *s;
    proof {
        lemma_tracks_refl(s0);
    }
    let comps = all_compartments(s);
    let ghost rows = comps_view(s0.row_compartments);
    let ghost cols = comps_view(s0.col_compartments);
    let mut ci: usize = 0;
    while ci < comps.len()
        invariant
            s0 == *old(s), *s == s0, s0.wf(), 1 <= set_size <= 9, ci <= comps@.len(),
            forall|k: int| 0 <= k < comps@.len() ==> comp_ok(s0.is_black, #[trigger] comps@[k]@),
            comps_view(comps) == rows + cols,
            comps_view(comps).len() == comps@.len(),
            rows == comps_view(s0.row_compartments),
            cols == comps_view(s0.col_compartments),
            forall|i: int, sel: Seq<usize>| 0 <= i < ci && comps_view(comps)[i].len() > set_size ==> !#[trigger] naked_set_at(
                s0,
                comps_view(comps)[i],
                set_size as int,
                sel,
            ),
        decreases comps@.len() - ci,
    {
        let comp = &comps[ci];
        proof {
            assert(comp_ok(s0.is_black, comps@[ci as int]@));
            assert(comps_view(comps)[ci as int] == comp@);
        }
        if comp.len() > set_size {
            if naked_in_cells(s, comp, set_size) {
                proof {
                    lemma_strategy_done(s0, *s, true, naked_set_h(set_size as int) as i32);
                    let sel = choose|sel: Seq<usize>| #[trigger] naked_set_at(s0, comp@, set_size as int, sel) && set_excluded(
                        s0,
                        *s,
                        comp@,
                        picked(small_cells_of(s0, comp@, set_size as int), sel),
                        union_at(s0, small_cells_of(s0, comp@, set_size as int), sel, set_size as int),
                    );
                    assert(naked_applied(s0, *s, comp@, set_size as int, sel));
                    if ci < rows.len() {
                        assert((rows + cols)[ci as int] == rows[ci as int]);
                        assert(rows[ci as int] == comp@);
                        assert(naked_set_at(s0, rows[ci as int], set_size as int, sel));
                    } else {
                        assert((rows + cols)[ci as int] == cols[ci - rows.len()]);
                        assert(cols[ci - rows.len()] == comp@);
                        assert(naked_set_at(s0, cols[ci - rows.len()], set_size as int, sel));
                    }
                }
                return naked_set_hardness(set_size);
            }
        }
        ci = ci + 1;
    }
    let mut line: usize = 0;
    while line < N
        invariant
            s0 == *old(s), *s == s0, s0.wf(), 1 <= set_size <= 9, line <= 9,
            forall|l: int, sel: Seq<usize>| 0 <= l < line ==> !#[trigger] naked_set_at(s0, white_line(s0, l, true), set_size as int, sel),
        decreases 9 - line,
    {
        let cells = line_cells(s, line, true);
        if naked_in_cells(s, &cells, set_size) {
            proof {
                lemma_strategy_done(s0, *s, true, naked_set_h(set_size as int) as i32);
                let sel = choose|sel: Seq<usize>| #[trigger] naked_set_at(s0, cells@, set_size as int, sel) && set_excluded(
                    s0,
                    *s,
                    cells@,
                    picked(small_cells_of(s0, cells@, set_size as int), sel),
                    union_at(s0, small_cells_of(s0, cells@, set_size as int), sel, set_size as int),
                );
                assert(naked_applied(s0, *s, cells@, set_size as int, sel));
            }
            return naked_set_hardness(set_size);
        }
        line = line + 1;
    }
    let mut line: usize = 0;
    while line < N
        invariant
            s0 == *old(s), *s == s0, s0.wf(), 1 <= set_size <= 9, line <= 9,
            forall|l: int, sel: Seq<usize>| 0 <= l < 9 ==> !#[trigger] naked_set_at(s0, white_line(s0, l, true), set_size as int, sel),
            forall|l: int, sel: Seq<usize>| 0 <= l < line ==> !#[trigger] naked_set_at(s0, white_line(s0, l, false), set_size as int, sel),
        decreases 9 - line,
    {
        let cells = line_cells(s, line, false);
        if naked_in_cells(s, &cells, set_size) {
            proof {
                lemma_strategy_done(s0, *s, true, naked_set_h(set_size as int) as i32);
                let sel = choose|sel: Seq<usize>| #[trigger] naked_set_at(s0, cells@, set_size as int, sel) && set_excluded(
                    s0,
                    *s,
                    cells@,
                    picked(small_cells_of(s0, cells@, set_size as int), sel),
                    union_at(s0, small_cells_of(s0, cells@, set_size as int), sel, set_size as int),
                );
                assert(naked_applied(s0, *s, cells@, set_size as int, sel));
            }
            return naked_set_hardness(set_size);
        }
        line = line + 1;
    }
    proof {
        lemma_strategy_done(s0, *s, false, naked_set_h(set_size as int) as i32);
        assert forall|i: int, sel: Seq<usize>| 0 <= i < rows.len() && rows[i].len() > set_size implies !#[trigger] naked_set_at(
            s0,
            rows[i],
            set_size as int,
            sel,
        ) by {
            assert((rows + cols)[i] == rows[i]);
            assert(comps_view(comps)[i] == rows[i]);
            assert(!naked_set_at(s0, comps_view(comps)[i], set_size as int, sel));
        }
        assert forall|i: int, sel: Seq<usize>| 0 <= i < cols.len() && cols[i].len() > set_size implies !#[trigger] naked_set_at(
            s0,
            cols[i],
            set_size as int,
            sel,
        ) by {
            assert((rows + cols)[rows.len() + i] == cols[i]);
            assert(comps_view(comps)[rows.len() + i] == cols[i]);
            assert(!naked_set_at(s0, comps_view(comps)[rows.len() + i], set_size as int, sel));
        }
    }
    0
}

// ---------------------------------------------------------------------------
// Hidden sets
// ---------------------------------------------------------------------------

/// Adds the cells of `from` not yet in `to`, keeping the order of first appearance.
/// `to` with each cell of `from` appended in turn unless already there.
pub open spec fn with_new_cells(to: Seq<(usize, usize)>, from: Seq<(usize, usize)>) -> Seq<(usize, usize)>
    decreases from.len(),
{
    if from.len() == 0 {
        to
    } else {
        let t = with_new_cells(to, from.drop_last());
        if t.contains(from.last()) {
            t
        } else {
            t.push(from.last())
        }
    }
}

fn add_new_cells(to: &mut Vec<(usize, usize)>, from: &Vec<(usize, usize)>)
    requires on_board(old(to)@), on_board(from@),
    ensures
        on_board(final(to)@), final(to)@ == with_new_cells(old(to)@, from@),
        forall|k: int| 0 <= k < final(to)@.len() ==> old(to)@.contains(#[trigger] final(to)@[k]) || from@.contains(final(to)@[k]),
{
    let ghost to0 = to@;
    for k in 0..from.len()
        invariant
            on_board(to@), on_board(from@), to@ == with_new_cells(to0, from@.take(k as int)),
            forall|i: int| 0 <= i < to@.len() ==> to0.contains(#[trigger] to@[i]) || from@.contains(to@[i]),
    {
        let (r, c) = from[k];
        proof {
            assert(from@[k as int] == (r, c));
            assert(from@.take(k + 1).drop_last() == from@.take(k as int));
            assert(from@.take(k + 1).last() == (r, c));
        }
        if !contains_cell(to, r, c) {
            to.push((r, c));
        }
    }
    proof {
        assert(from@.take(from@.len() as int) == from@);
    }
}

/// The sure digits of `comp`, as a mask.
pub open spec fn comp_sure_mask(s: HumanStr8ts, comp: Seq<(usize, usize)>) -> u16 {
    choose|m: u16| is_mask(m) && forall|d: u8| is_digit(d) ==> (#[trigger] has_digit(m, d) <==> comp_sure(s, comp, d))
}

/// The cells of `comp` that can take one of the digits at the first `j`
/// positions `sel` of `vals`, in order of first appearance.
pub open spec fn hidden_cells(s: HumanStr8ts, comp: Seq<(usize, usize)>, vals: Seq<u8>, sel: Seq<usize>, j: int) -> Seq<(usize, usize)>
    decreases j,
{
    if j <= 0 {
        Seq::empty()
    } else {
        with_new_cells(hidden_cells(s, comp, vals, sel, j - 1), cells_having(s.candidates, comp, vals[sel[j - 1] as int]))
    }
}

/// The mask of the digits at the first `j` positions `sel` of `vals`.
pub open spec fn digits_mask(vals: Seq<u8>, sel: Seq<usize>, j: int) -> u16
    decreases j,
{
    if j <= 0 {
        0
    } else {
        digits_mask(vals, sel, j - 1) | bit_of(vals[sel[j - 1] as int])
    }
}

/// Some unsolved cell of `cells` has a candidate outside `mask`.
pub open spec fn keep_bites(s: HumanStr8ts, cells: Seq<(usize, usize)>, mask: u16) -> bool {
    exists|x: int, y: int| 0 <= x < 9 && 0 <= y < 9 && #[trigger] listed(cells, x, y) && !s.solved[x][y]
        && s.candidates[x][y] & mask != s.candidates[x][y]
}

/// `b` is `a` with the unsolved cells of `cells` cut down to `mask`.
pub open spec fn kept_only(a: HumanStr8ts, b: HumanStr8ts, cells: Seq<(usize, usize)>, mask: u16) -> bool {
    &&& b.solved == a.solved
    &&& b.numbers == a.numbers
    &&& forall|i: int, j: int| 0 <= i < 9 && 0 <= j < 9 ==> #[trigger] b.candidates[i][j] == if listed(cells, i, j) && !a.solved[i][j] {
        a.candidates[i][j] & mask
    } else {
        a.candidates[i][j]
    }
}

/// The `k` sure digits of `comp` at positions `sel` (among its sure digits in
/// order) can only go into `k` cells, and one of those cells has another
/// candidate.
pub open spec fn hidden_set_at(s: HumanStr8ts, comp: Seq<(usize, usize)>, k: int, sel: Seq<usize>) -> bool {
    let vals = digits_of(comp_sure_mask(s, comp));
    &&& comp.len() > k && vals.len() >= k
    &&& sel.len() == k && increasing_below(sel, vals.len())
    &&& hidden_cells(s, comp, vals, sel, k).len() == k
    &&& keep_bites(s, hidden_cells(s, comp, vals, sel, k), digits_mask(vals, sel, k))
}

/// Keeping only `mask` changes the board exactly when it bites.
proof fn lemma_keep_bites(a: HumanStr8ts, b: HumanStr8ts, cells: Seq<(usize, usize)>, mask: u16)
    requires kept_only(a, b, cells, mask),
    ensures progress(a, b) <==> keep_bites(a, cells, mask),
{
    if progress(a, b) {
        let (x, y) = choose|x: int, y: int| 0 <= x < 9 && 0 <= y < 9 && #[trigger] moved(a, b, x, y);
        assert(listed(cells, x, y));
    }
    if keep_bites(a, cells, mask) {
        let (x, y) = choose|x: int, y: int| 0 <= x < 9 && 0 <= y < 9 && #[trigger] listed(cells, x, y) && !a.solved[x][y]
            && a.candidates[x][y] & mask != a.candidates[x][y];
        assert(moved(a, b, x, y));
    }
}

/// A hidden set in a compartment: `set_size` sure digits that only
/// `set_size` cells can take; those cells keep only these digits.
fn hidden_in_comp(s: &mut HumanStr8ts, comp: &Vec<(usize, usize)>, set_size: usize) -> (found: bool)
    requires old(s).wf(), comp_ok(old(s).is_black, comp@),
    ensures
        found ==> tracks(*old(s), *final(s), true),
        !found ==> *final(s) == *old(s),
        found <==> exists|sel: Seq<usize>| #[trigger] hidden_set_at(*old(s), comp@, set_size as int, sel),
        found ==> exists|sel: Seq<usize>| #[trigger] hidden_set_at(*old(s), comp@, set_size as int, sel) && kept_only(
            *old(s),
            *final(s),
            hidden_cells(*old(s), comp@, digits_of(comp_sure_mask(*old(s), comp@)), sel, set_size as int),
            digits_mask(digits_of(comp_sure_mask(*old(s), comp@)), sel, set_size as int),
        ),
{
    let ghost s0 = *s;
    if comp.len() <= set_size {
        proof {
            assert forall|sel: Seq<usize>| !#[trigger] hidden_set_at(s0, comp@, set_size as int, sel) by {}
        }
        return false;
    }
    let ranges = get_compartment_ranges(s, comp);
    let sure = get_sure_candidates(&ranges, comp.len());
    proof {
        let m = comp_sure_mask(s0, comp@);
        assert(is_mask(m) && forall|d: u8| is_digit(d) ==> (#[trigger] has_digit(m, d) <==> comp_sure(s0, comp@, d)));
        lemma_mask_ext(m, sure);
    }
    if count_digits(sure) < set_size {
        proof {
            assert forall|sel: Seq<usize>| !#[trigger] hidden_set_at(s0, comp@, set_size as int, sel) by {}
        }
        return false;
    }
    let sure_vals = mask_values(sure);
    proof {
        lemma_digits_of(sure);
    }
    let ghost vals = sure_vals@;
    let mut candidate_cells: Vec<Vec<(usize, usize)>> = Vec::new();
    let mut k: usize = 0;
    while k < sure_vals.len()
        invariant
            *s == s0, k <= sure_vals@.len(),
            comp_ok(s.is_black, comp@),
            sure_vals@ == digits_of(sure),
            forall|i: int| 0 <= i < digits_of(sure).len() ==> is_digit(#[trigger] digits_of(sure)[i]),
            candidate_cells@.len() == k,
            forall|i: int| 0 <= i < candidate_cells@.len() ==> on_board(#[trigger] candidate_cells@[i]@),
            forall|i: int| 0 <= i < candidate_cells@.len() ==> all_white(s0.is_black, #[trigger] candidate_cells@[i]@),
            forall|i: int| 0 <= i < candidate_cells@.len() ==> (#[trigger] candidate_cells@[i])@ == cells_having(s0.candidates, comp@, sure_vals@[i]),
        decreases sure_vals@.len() - k,
    {
        let cells = cells_with(s, comp, sure_vals[k]);
        proof {
            assert forall|q: int| 0 <= q < cells@.len() implies (#[trigger] cells@[q]).0 < 9 && cells@[q].1 < 9 by {}
        }
        candidate_cells.push(cells);
        k = k + 1;
    }
    let combos = combinations(sure_vals.len(), set_size);
    let mut ci: usize = 0;
    while ci < combos.len()
        invariant
            s0 == *old(s), *s == s0, s0.wf(), ci <= combos@.len(),
            comp_ok(s0.is_black, comp@), comp@.len() > set_size,
            sure == comp_sure_mask(s0, comp@),
            sure_vals@ == digits_of(sure), vals == sure_vals@, vals.len() >= set_size,
            forall|i: int| 0 <= i < digits_of(sure).len() ==> is_digit(#[trigger] digits_of(sure)[i]),
            candidate_cells@.len() == sure_vals@.len(),
            forall|i: int| 0 <= i < candidate_cells@.len() ==> on_board(#[trigger] candidate_cells@[i]@),
            forall|i: int| 0 <= i < candidate_cells@.len() ==> all_white(s0.is_black, #[trigger] candidate_cells@[i]@),
            forall|i: int| 0 <= i < candidate_cells@.len() ==> (#[trigger] candidate_cells@[i])@ == cells_having(s0.candidates, comp@, sure_vals@[i]),
            forall|i: int| 0 <= i < combos@.len() ==> (#[trigger] combos@[i])@.len() == set_size && increasing_below(
                combos@[i]@,
                sure_vals@.len() as nat,
            ),
            set_size > 0 ==> forall|c: Seq<usize>| c.len() == set_size && #[trigger] increasing_below(c, sure_vals@.len() as nat) ==> listed_choice(combos@, c),
            forall|i: int| 0 <= i < ci ==> !#[trigger] hidden_set_at(s0, comp@, set_size as int, combos@[i]@),
        decreases combos@.len() - ci,
    {
        let combo = &combos[ci];
        proof {
            assert(increasing_below(combos@[ci as int]@, sure_vals@.len() as nat));
        }
        let mut cells: Vec<(usize, usize)> = Vec::new();
        let mut subset_mask: u16 = 0;
        let mut j: usize = 0;
        while j < combo.len()
            invariant
                *s == s0, j <= combo@.len(),
                increasing_below(combo@, sure_vals@.len() as nat),
                sure_vals@ == digits_of(sure),
                forall|i: int| 0 <= i < digits_of(sure).len() ==> is_digit(#[trigger] digits_of(sure)[i]),
                candidate_cells@.len() == sure_vals@.len(),
                forall|i: int| 0 <= i < candidate_cells@.len() ==> on_board(#[trigger] candidate_cells@[i]@),
                forall|i: int| 0 <= i < candidate_cells@.len() ==> all_white(s0.is_black, #[trigger] candidate_cells@[i]@),
                all_white(s0.is_black, cells@),
            forall|i: int| 0 <= i < candidate_cells@.len() ==> all_white(s0.is_black, #[trigger] candidate_cells@[i]@),
                forall|i: int| 0 <= i < candidate_cells@.len() ==> (#[trigger] candidate_cells@[i])@ == cells_having(s0.candidates, comp@, sure_vals@[i]),
                on_board(cells@),
                cells@ == hidden_cells(s0, comp@, sure_vals@, combo@, j as int),
            decreases combo@.len() - j,
        {
            let idx = combo[j];
            proof {
                assert(on_board(candidate_cells@[idx as int]@));
            }
            let ghost c0 = cells@;
            add_new_cells(&mut cells, &candidate_cells[idx]);
            proof {
                assert(all_white(s0.is_black, candidate_cells@[idx as int]@));
                assert forall|q: int| 0 <= q < cells@.len() implies !s0.is_black[(#[trigger] cells@[q]).0 as int][cells@[q].1 as int] by {
                    if c0.contains(cells@[q]) {
                        let i = choose|i: int| 0 <= i < c0.len() && c0[i] == cells@[q];
                    } else {
                        let i = choose|i: int| 0 <= i < candidate_cells@[idx as int]@.len() && candidate_cells@[idx as int]@[i] == cells@[q];
                    }
                }
            }
            j = j + 1;
        }
        if cells.len() == set_size {
            let mut j: usize = 0;
            while j < combo.len()
                invariant
                    j <= combo@.len(),
                    increasing_below(combo@, sure_vals@.len() as nat),
                    sure_vals@ == digits_of(sure),
                    forall|i: int| 0 <= i < digits_of(sure).len() ==> is_digit(#[trigger] digits_of(sure)[i]),
                    subset_mask == digits_mask(sure_vals@, combo@, j as int),
                decreases combo@.len() - j,
            {
                subset_mask = subset_mask | bit(sure_vals[combo[j]]);
                j = j + 1;
            }
            let e = keep_only(s, &cells, subset_mask);
            proof {
                lemma_keep_bites(s0, *s, cells@, subset_mask);
            }
            if e {
                proof {
                    assert(hidden_set_at(s0, comp@, set_size as int, combo@));
                }
                return true;
            }
            proof {
                lemma_no_progress(s0, *s);
            }
        }
        ci = ci + 1;
    }
    proof {
        assert forall|sel: Seq<usize>| !#[trigger] hidden_set_at(s0, comp@, set_size as int, sel) by {
            if hidden_set_at(s0, comp@, set_size as int, sel) {
                if set_size == 0 {
                    assert(hidden_cells(s0, comp@, vals, sel, 0) == Seq::<(usize, usize)>::empty());
                    let (x, y) = choose|x: int, y: int| 0 <= x < 9 && 0 <= y < 9 && #[trigger] listed(Seq::<(usize, usize)>::empty(), x, y);
                } else {
                    assert(listed_choice(combos@, sel));
                    let i = choose|i: int| 0 <= i < combos@.len() && (#[trigger] combos@[i])@ == sel;
                    assert(!hidden_set_at(s0, comp@, set_size as int, combos@[i]@));
                }
            }
        }
    }
    false
}

/// A cell that has `n` as a candidate.
pub open spec fn has_cand(s: HumanStr8ts, n: u8) -> spec_fn((usize, usize)) -> bool {
    |q: (usize, usize)| has_digit(s.candidates[q.0 as int][q.1 as int], n)
}

/// The union of the candidates of the first `j` cells.
pub open spec fn cands_union(s: HumanStr8ts, cells: Seq<(usize, usize)>, j: int) -> u16
    decreases j,
{
    if j <= 0 {
        0
    } else {
        cands_union(s, cells, j - 1) | s.candidates[cells[j - 1].0 as int][cells[j - 1].1 as int]
    }
}

/// The cells of `line` that can take one of the digits at the first `j`
/// positions `sel` of `vals`, in order of first appearance.
pub open spec fn line_hidden_cells(s: HumanStr8ts, line: Seq<(usize, usize)>, vals: Seq<u8>, sel: Seq<usize>, j: int) -> Seq<(usize, usize)>
    decreases j,
{
    if j <= 0 {
        Seq::empty()
    } else {
        with_new_cells(line_hidden_cells(s, line, vals, sel, j - 1), line.filter(has_cand(s, vals[sel[j - 1] as int])))
    }
}

/// Some cell of `cells` row `r` has `n`, and `n` is sure in the row
/// compartment of the first such cell.
pub open spec fn sure_at_first(s: HumanStr8ts, r: int, cells: Seq<(usize, usize)>, n: u8) -> bool {
    let with_n = cells.filter(has_cand(s, n));
    with_n.len() > 0 && comp_sure(s, s.row_compartments@[s.cell_to_row_compartment[r][with_n[0].1 as int] as int]@, n)
}

/// The `k` digits at positions `sel` (among the candidates of row `r`, in
/// order) can only go into `k` of its white cells, each is sure in the row
/// compartment of the first of those cells that has it, and one of those
/// cells has another candidate.
pub open spec fn hidden_row_at(s: HumanStr8ts, r: int, k: int, sel: Seq<usize>) -> bool {
    let line = white_line(s, r, true);
    let vals = digits_of(cands_union(s, line, line.len() as int));
    let cells = line_hidden_cells(s, line, vals, sel, k);
    &&& line.len() > k
    &&& sel.len() == k && increasing_below(sel, vals.len())
    &&& cells.len() == k
    &&& forall|j: int| 0 <= j < k ==> #[trigger] sure_at_first(s, r, cells, vals[sel[j] as int])
    &&& keep_bites(s, cells, digits_mask(vals, sel, k))
}

/// A hidden set in a row: `set_size` digits that only `set_size` cells of the
/// row can take, each digit sure in the compartment of a cell that has it.
#[verifier::spinoff_prover]
#[verifier::rlimit(100)]
fn hidden_in_row(s: &mut HumanStr8ts, r: usize, set_size: usize) -> (found: bool)
    requires old(s).wf(), r < 9,
    ensures
        found ==> tracks(*old(s), *final(s), true),
        !found ==> *final(s) == *old(s),
        found <==> exists|sel: Seq<usize>| #[trigger] hidden_row_at(*old(s), r as int, set_size as int, sel),
        found ==> exists|sel: Seq<usize>| #[trigger] hidden_row_at(*old(s), r as int, set_size as int, sel) && {
            let line = white_line(*old(s), r as int, true);
            let vals = digits_of(cands_union(*old(s), line, line.len() as int));
            kept_only(*old(s), *final(s), line_hidden_cells(*old(s), line, vals, sel, set_size as int), digits_mask(vals, sel, set_size as int))
        },
{
    let ghost s0 = *s;
    proof {
        lemma_comps_ok(s0);
    }
    let white_cells = line_cells(s, r, true);
    let ghost line = white_cells@;
    if white_cells.len() <= set_size {
        proof {
            assert forall|sel: Seq<usize>| !#[trigger] hidden_row_at(s0, r as int, set_size as int, sel) by {}
        }
        return false;
    }
    let mut all_cands: u16 = 0;
    let mut k: usize = 0;
    while k < white_cells.len()
        invariant
            *s == s0, k <= white_cells@.len(), on_board(white_cells@),
            all_cands == cands_union(s0, white_cells@, k as int),
        decreases white_cells@.len() - k,
    {
        let (rr, c) = white_cells[k];
        proof {
            assert(white_cells@[k as int] == (rr, c));
        }
        all_cands = all_cands | s.candidates[rr][c];
        k = k + 1;
    }
    let all_vals = mask_values(all_cands);
    proof {
        lemma_digits_of(all_cands);
    }
    let ghost vals = all_vals@;
    let combos = combinations(all_vals.len(), set_size);
    let mut ci: usize = 0;
    while ci < combos.len()
        invariant
            s0 == *old(s), *s == s0, s0.wf(), r < 9, ci <= combos@.len(),
            forall|i: int| 0 <= i < s0.row_compartments@.len() ==> comp_ok(s0.is_black, #[trigger] s0.row_compartments@[i]@),
            on_board(white_cells@),
            line == white_cells@, line == white_line(s0, r as int, true), line.len() > set_size,
            forall|k: int| 0 <= k < white_cells@.len() ==> !s0.is_black[(#[trigger] white_cells@[k]).0 as int][white_cells@[k].1 as int]
                && white_cells@[k].0 == r,
            all_cands == cands_union(s0, line, line.len() as int),
            all_vals@ == digits_of(all_cands), vals == all_vals@,
            forall|i: int| 0 <= i < digits_of(all_cands).len() ==> is_digit(#[trigger] digits_of(all_cands)[i]),
            forall|i: int| 0 <= i < combos@.len() ==> (#[trigger] combos@[i])@.len() == set_size && increasing_below(
                combos@[i]@,
                all_vals@.len() as nat,
            ),
            set_size > 0 ==> forall|c: Seq<usize>| c.len() == set_size && #[trigger] increasing_below(c, all_vals@.len() as nat) ==> listed_choice(combos@, c),
            forall|i: int| 0 <= i < ci ==> !#[trigger] hidden_row_at(s0, r as int, set_size as int, combos@[i]@),
        decreases combos@.len() - ci,
    {
        let combo = &combos[ci];
        proof {
            assert(increasing_below(combos@[ci as int]@, all_vals@.len() as nat));
        }
        let mut cells: Vec<(usize, usize)> = Vec::new();
        let mut j: usize = 0;
        while j < combo.len()
            invariant
                *s == s0, j <= combo@.len(),
                increasing_below(combo@, all_vals@.len() as nat),
                all_vals@ == digits_of(all_cands),
                forall|i: int| 0 <= i < digits_of(all_cands).len() ==> is_digit(#[trigger] digits_of(all_cands)[i]),
                on_board(white_cells@),
                forall|k: int| 0 <= k < white_cells@.len() ==> !s0.is_black[(#[trigger] white_cells@[k]).0 as int][white_cells@[k].1 as int]
                    && white_cells@[k].0 == r,
                forall|k: int| 0 <= k < cells@.len() ==> !s0.is_black[(#[trigger] cells@[k]).0 as int][cells@[k].1 as int]
                    && cells@[k].0 == r,
                on_board(cells@),
                cells@ == line_hidden_cells(s0, white_cells@, all_vals@, combo@, j as int),
            decreases combo@.len() - j,
        {
            let n = all_vals[combo[j]];
            let ghost pn = has_cand(s0, n);
            let ghost start = cells@;
            let mut k: usize = 0;
            while k < white_cells.len()
                invariant
                    *s == s0, k <= white_cells@.len(),
                    is_digit(n),
                    pn == has_cand(s0, n),
                    on_board(white_cells@),
                    forall|k: int| 0 <= k < white_cells@.len() ==> !s0.is_black[(#[trigger] white_cells@[k]).0 as int][white_cells@[k].1 as int]
                        && white_cells@[k].0 == r,
                    forall|k: int| 0 <= k < cells@.len() ==> !s0.is_black[(#[trigger] cells@[k]).0 as int][cells@[k].1 as int]
                        && cells@[k].0 == r,
                    on_board(cells@),
                    cells@ == with_new_cells(start, white_cells@.take(k as int).filter(pn)),
                decreases white_cells@.len() - k,
            {
                let (rr, c) = white_cells[k];
                proof {
                    assert(white_cells@[k as int] == (rr, c));
                    assert(white_cells@.take(k + 1) == white_cells@.take(k as int).push((rr, c)));
                    white_cells@.take(k as int).lemma_filter_push((rr, c), pn);
                }
                if mask_has(s.candidates[rr][c], n) && !contains_cell(&cells, rr, c) {
                    cells.push((rr, c));
                }
                proof {
                    let f = white_cells@.take(k + 1).filter(pn);
                    if pn((rr, c)) {
                        assert(f.drop_last() == white_cells@.take(k as int).filter(pn));
                        assert(f.last() == (rr, c));
                    }
                }
                k = k + 1;
            }
            proof {
                assert(white_cells@.take(white_cells@.len() as int) == white_cells@);
            }
            j = j + 1;
        }
        if cells.len() == set_size {
            let mut all_sure = true;
            let mut j: usize = 0;
            while j < combo.len() && all_sure
                invariant
                    s0 == *old(s), *s == s0, s0.wf(), r < 9, j <= combo@.len(),
                    forall|i: int| 0 <= i < s0.row_compartments@.len() ==> comp_ok(s0.is_black, #[trigger] s0.row_compartments@[i]@),
                    increasing_below(combo@, all_vals@.len() as nat),
                    all_vals@ == digits_of(all_cands),
                    forall|i: int| 0 <= i < digits_of(all_cands).len() ==> is_digit(#[trigger] digits_of(all_cands)[i]),
                    on_board(cells@),
                    forall|k: int| 0 <= k < cells@.len() ==> !s0.is_black[(#[trigger] cells@[k]).0 as int][cells@[k].1 as int]
                        && cells@[k].0 == r,
                    all_sure <==> forall|i: int| 0 <= i < j ==> #[trigger] sure_at_first(s0, r as int, cells@, all_vals@[combo@[i] as int]),
                decreases combo@.len() - j, (if all_sure { 1int } else { 0int }),
            {
                let n = all_vals[combo[j]];
                let ghost pn = has_cand(s0, n);
                let mut found_col: Option<usize> = None;
                let mut k: usize = 0;
                while k < cells.len()
                    invariant
                        *s == s0, k <= cells@.len(),
                        is_digit(n), on_board(cells@),
                        pn == has_cand(s0, n),
                        forall|k: int| 0 <= k < cells@.len() ==> !s0.is_black[(#[trigger] cells@[k]).0 as int][cells@[k].1 as int]
                            && cells@[k].0 == r,
                        found_col is None <==> cells@.take(k as int).filter(pn).len() == 0,
                        found_col matches Some(c0) ==> c0 == cells@.take(k as int).filter(pn)[0].1 && c0 < 9 && !s0.is_black[r as int][c0 as int],
                    decreases cells@.len() - k,
                {
                    let (rr, cc) = cells[k];
                    proof {
                        assert(cells@[k as int] == (rr, cc));
                        assert(cells@.take(k + 1) == cells@.take(k as int).push((rr, cc)));
                        cells@.take(k as int).lemma_filter_push((rr, cc), pn);
                    }
                    if found_col.is_none() && rr == r && mask_has(s.candidates[rr][cc], n) {
                        found_col = Some(cc);
                    }
                    proof {
                        if cells@.take(k as int).filter(pn).len() > 0 {
                            assert(cells@.take(k + 1).filter(pn)[0] == cells@.take(k as int).filter(pn)[0]);
                        }
                    }
                    k = k + 1;
                }
                proof {
                    assert(cells@.take(cells@.len() as int) == cells@);
                }
                match found_col {
                    None => {
                        all_sure = false;
                    },
                    Some(c0) => {
                        let comp_idx = s.cell_to_row_compartment[r][c0];
                        proof {
                            assert(rows_structured(s0.is_black, comps_view(s0.row_compartments), s0.cell_to_row_compartment));
                            assert(comps_view(s0.row_compartments).len() == s0.row_compartments@.len());
                        }
                        let comp = copy_comp(&s.row_compartments[comp_idx]);
                        proof {
                            assert(comp_ok(s0.is_black, s0.row_compartments@[comp_idx as int]@));
                        }
                        let comp_ranges = get_compartment_ranges(s, &comp);
                        let comp_sure = get_sure_candidates(&comp_ranges, comp.len());
                        if !mask_has(comp_sure, n) {
                            all_sure = false;
                        }
                    },
                }
                proof {
                    assert(all_sure <==> forall|i: int| 0 <= i < j + 1 ==> #[trigger] sure_at_first(s0, r as int, cells@, all_vals@[combo@[i] as int])) by {
                        if all_sure {
                            assert forall|i: int| 0 <= i < j + 1 implies #[trigger] sure_at_first(s0, r as int, cells@, all_vals@[combo@[i] as int]) by {
                                if i == j {
                                    assert(sure_at_first(s0, r as int, cells@, n));
                                }
                            }
                        } else if forall|i: int| 0 <= i < j ==> #[trigger] sure_at_first(s0, r as int, cells@, all_vals@[combo@[i] as int]) {
                            assert(!sure_at_first(s0, r as int, cells@, all_vals@[combo@[j as int] as int]));
                        }
                    }
                }
                j = j + 1;
            }
            if all_sure {
                proof {
                    assert(j == combo@.len());
                }
                let mut subset_mask: u16 = 0;
                let mut j: usize = 0;
                while j < combo.len()
                    invariant
                        j <= combo@.len(),
                        increasing_below(combo@, all_vals@.len() as nat),
                        all_vals@ == digits_of(all_cands),
                        forall|i: int| 0 <= i < digits_of(all_cands).len() ==> is_digit(#[trigger] digits_of(all_cands)[i]),
                        subset_mask == digits_mask(all_vals@, combo@, j as int),
                    decreases combo@.len() - j,
                {
                    subset_mask = subset_mask | bit(all_vals[combo[j]]);
                    j = j + 1;
                }
                let e = keep_only(s, &cells, subset_mask);
                proof {
                    lemma_keep_bites(s0, *s, cells@, subset_mask);
                }
                if e {
                    proof {
                        assert(hidden_row_at(s0, r as int, set_size as int, combo@));
                    }
                    return true;
                }
                proof {
                    lemma_no_progress(s0, *s);
                }
            } else {
                proof {
                    assert(!hidden_row_at(s0, r as int, set_size as int, combo@));
                }
            }
        }
        ci = ci + 1;
    }
    proof {
        assert forall|sel: Seq<usize>| !#[trigger] hidden_row_at(s0, r as int, set_size as int, sel) by {
            if hidden_row_at(s0, r as int, set_size as int, sel) {
                if set_size == 0 {
                    assert(line_hidden_cells(s0, line, vals, sel, 0) == Seq::<(usize, usize)>::empty());
                    let (x, y) = choose|x: int, y: int| 0 <= x < 9 && 0 <= y < 9 && #[trigger] listed(Seq::<(usize, usize)>::empty(), x, y);
                } else {
                    assert(listed_choice(combos@, sel));
                    let i = choose|i: int| 0 <= i < combos@.len() && (#[trigger] combos@[i])@ == sel;
                    assert(!hidden_row_at(s0, r as int, set_size as int, combos@[i]@));
                }
            }
        }
    }
    false
}

/// A hidden set of `k` digits stands in some compartment or some row.
pub open spec fn hidden_anywhere(s: HumanStr8ts, k: int) -> bool {
    ||| exists|i: int, sel: Seq<usize>| 0 <= i < comps_view(s.row_compartments).len()
        && #[trigger] hidden_set_at(s, comps_view(s.row_compartments)[i], k, sel)
    ||| exists|i: int, sel: Seq<usize>| 0 <= i < comps_view(s.col_compartments).len()
        && #[trigger] hidden_set_at(s, comps_view(s.col_compartments)[i], k, sel)
    ||| exists|r: int, sel: Seq<usize>| 0 <= r < 9 && #[trigger] hidden_row_at(s, r, k, sel)
}

/// `b` is `a` after the hidden set at `sel` of `comp` cut its cells down to its digits.
pub open spec fn hidden_applied(a: HumanStr8ts, b: HumanStr8ts, comp: Seq<(usize, usize)>, k: int, sel: Seq<usize>) -> bool {
    let vals = digits_of(comp_sure_mask(a, comp));
    &&& hidden_set_at(a, comp, k, sel)
    &&& kept_only(a, b, hidden_cells(a, comp, vals, sel, k), digits_mask(vals, sel, k))
}

/// `b` is `a` after the hidden set at `sel` of row `r` cut its cells down to its digits.
pub open spec fn hidden_row_applied(a: HumanStr8ts, b: HumanStr8ts, r: int, k: int, sel: Seq<usize>) -> bool {
    let line = white_line(a, r, true);
    let vals = digits_of(cands_union(a, line, line.len() as int));
    &&& hidden_row_at(a, r, k, sel)
    &&& kept_only(a, b, line_hidden_cells(a, line, vals, sel, k), digits_mask(vals, sel, k))
}

/// Hidden sets in compartments, then in rows.
pub(crate) fn use_hidden_set(s: &mut HumanStr8ts, set_size: usize) -> (res: i32)
    requires old(s).wf(), 1 <= set_size <= 9,
    ensures
        strategy_done(*old(s), *final(s), res, hidden_set_h(set_size as int) as i32),
        res == 0 <==> !hidden_anywhere(*old(s), set_size as int),
        res != 0 ==> (exists|comp: Seq<(usize, usize)>, sel: Seq<usize>| #[trigger] hidden_applied(*old(s), *final(s), comp, set_size as int, sel))
            || (exists|r: int, sel: Seq<usize>| 0 <= r < 9 && #[trigger] hidden_row_applied(*old(s), *final(s), r, set_size as int, sel)),
{
    let ghost s0 = *s;
    proof {
        lemma_tracks_refl(s0);
    }
    let comps = all_compartments(s);
    let ghost rows = comps_view(s0.row_compartments);
    let ghost cols = comps_view(s0.col_compartments);
    let mut ci: usize = 0;
    while ci < comps.len()
        invariant
            s0 == *old(s), *s == s0, s0.wf(), 1 <= set_size <= 9, ci <= comps@.len(),
            forall|k: int| 0 <= k < comps@.len() ==> comp_ok(s0.is_black, #[trigger] comps@[k]@),
            comps_view(comps) == rows + cols,
            comps_view(comps).len() == comps@.len(),
            rows == comps_view(s0.row_compartments),
            cols == comps_view(s0.col_compartments),
            forall|i: int, sel: Seq<usize>| 0 <= i < ci ==> !#[trigger] hidden_set_at(s0, comps_view(comps)[i], set_size as int, sel),
        decreases comps@.len() - ci,
    {
        let comp = &comps[ci];
        proof {
            assert(comp_ok(s0.is_black, comps@[ci as int]@));
            assert(comps_view(comps)[ci as int] == comp@);
        }
        if hidden_in_comp(s, comp, set_size) {
            proof {
                lemma_strategy_done(s0, *s, true, hidden_set_h(set_size as int) as i32);
                let sel = choose|sel: Seq<usize>| #[trigger] hidden_set_at(s0, comp@, set_size as int, sel) && kept_only(
                    s0,
                    *s,
                    hidden_cells(s0, comp@, digits_of(comp_sure_mask(s0, comp@)), sel, set_size as int),
                    digits_mask(digits_of(comp_sure_mask(s0, comp@)), sel, set_size as int),
                );
                assert(hidden_applied(s0, *s, comp@, set_size as int, sel));
                if ci < rows.len() {
                    assert((rows + cols)[ci as int] == rows[ci as int]);
                    assert(hidden_set_at(s0, rows[ci as int], set_size as int, sel));
                } else {
                    assert((rows + cols)[ci as int] == cols[ci - rows.len()]);
                    assert(hidden_set_at(s0, cols[ci - rows.len()], set_size as int, sel));
                }
            }
            return hidden_set_hardness(set_size);
        }
        ci = ci + 1;
    }
    let mut r: usize = 0;
    while r < N
        invariant
            s0 == *old(s), *s == s0, s0.wf(), 1 <= set_size <= 9, r <= 9,
            forall|l: int, sel: Seq<usize>| 0 <= l < r ==> !#[trigger] hidden_row_at(s0, l, set_size as int, sel),
        decreases 9 - r,
    {
        if hidden_in_row(s, r, set_size) {
            proof {
                lemma_strategy_done(s0, *s, true, hidden_set_h(set_size as int) as i32);
                let sel = choose|sel: Seq<usize>| #[trigger] hidden_row_at(s0, r as int, set_size as int, sel) && {
                    let line = white_line(s0, r as int, true);
                    let vals = digits_of(cands_union(s0, line, line.len() as int));
                    kept_only(s0, *s, line_hidden_cells(s0, line, vals, sel, set_size as int), digits_mask(vals, sel, set_size as int))
                };
                assert(hidden_row_applied(s0, *s, r as int, set_size as int, sel));
            }
            return hidden_set_hardness(set_size);
        }
        r = r + 1;
    }
    proof {
        lemma_strategy_done(s0, *s, false, hidden_set_h(set_size as int) as i32);
        assert forall|i: int, sel: Seq<usize>| 0 <= i < rows.len() implies !#[trigger] hidden_set_at(s0, rows[i], set_size as int, sel) by {
            assert((rows + cols)[i] == rows[i]);
            assert(!hidden_set_at(s0, comps_view(comps)[i], set_size as int, sel));
        }
        assert forall|i: int, sel: Seq<usize>| 0 <= i < cols.len() implies !#[trigger] hidden_set_at(s0, cols[i], set_size as int, sel) by {
            assert((rows + cols)[rows.len() + i] == cols[i]);
            assert(!hidden_set_at(s0, comps_view(comps)[rows.len() + i], set_size as int, sel));
        }
    }
    0
}


// ---------------------------------------------------------------------------
// Locked compartments
// ---------------------------------------------------------------------------

/// Two compartments of one row or one column, each able to hold a straight.
pub open spec fn locked_pair(s: HumanStr8ts, comp1: Seq<(usize, usize)>, comp2: Seq<(usize, usize)>) -> bool {
    &&& comp_ranges(s, comp1).len() > 0 && comp_ranges(s, comp2).len() > 0
    &&& comp1[0].0 == comp2[0].0 || comp1[0].1 == comp2[0].1
}

/// A digit sure in one compartment of the pair leaves the cells of the other.
pub open spec fn locked_strikes(s: HumanStr8ts, comp1: Seq<(usize, usize)>, comp2: Seq<(usize, usize)>, x: int, y: int, d: u8) -> bool {
    &&& locked_pair(s, comp1, comp2)
    &&& (listed(comp2, x, y) && comp_sure(s, comp1, d)) || (listed(comp1, x, y) && comp_sure(s, comp2, d))
}

/// Striking what the pair locks changes the board exactly when it bites.
proof fn lemma_bites_progress(a: HumanStr8ts, b: HumanStr8ts, comp1: Seq<(usize, usize)>, comp2: Seq<(usize, usize)>)
    requires
        a.wf(), b.wf(),
        b.solved == a.solved,
        forall|x: int, y: int, d: u8| 0 <= x < 9 && 0 <= y < 9 && is_digit(d) ==> (#[trigger] has_digit(b.candidates[x][y], d)
            <==> has_digit(a.candidates[x][y], d) && !locked_strikes(a, comp1, comp2, x, y, d)),
    ensures progress(a, b) <==> locked_bites(a, comp1, comp2),
{
    reveal(locked_bites);
    if progress(a, b) {
        let (x, y) = choose|x: int, y: int| 0 <= x < 9 && 0 <= y < 9 && #[trigger] moved(a, b, x, y);
        if forall|d: u8| is_digit(d) ==> (#[trigger] has_digit(a.candidates[x][y], d) <==> has_digit(b.candidates[x][y], d)) {
            lemma_mask_ext(a.candidates[x][y], b.candidates[x][y]);
        }
        let d = choose|d: u8| !(is_digit(d) ==> (#[trigger] has_digit(a.candidates[x][y], d) <==> has_digit(b.candidates[x][y], d)));
        assert(has_digit(a.candidates[x][y], d) && locked_strikes(a, comp1, comp2, x, y, d));
    }
    if locked_bites(a, comp1, comp2) {
        let (x, y, d) = choose|x: int, y: int, d: u8| 0 <= x < 9 && 0 <= y < 9 && is_digit(d) && #[trigger] has_digit(a.candidates[x][y], d)
            && locked_strikes(a, comp1, comp2, x, y, d);
        assert(moved(a, b, x, y));
    }
}

/// Two compartments of one row (column): a sure digit of either cannot be in
/// the other.
fn check_locked_compartments(s: &mut HumanStr8ts, comp1: &Vec<(usize, usize)>, comp2: &Vec<(usize, usize)>) -> (eff: bool)
    requires old(s).wf(), comp_ok(old(s).is_black, comp1@), comp_ok(old(s).is_black, comp2@),
    ensures
        tracks(*old(s), *final(s), eff),
        !locked_pair(*old(s), comp1@, comp2@) ==> *final(s) == *old(s),
        final(s).solved == old(s).solved,
        final(s).numbers == old(s).numbers,
        forall|x: int, y: int, d: u8| 0 <= x < 9 && 0 <= y < 9 && is_digit(d) ==> (#[trigger] has_digit(final(s).candidates[x][y], d)
            <==> has_digit(old(s).candidates[x][y], d) && !locked_strikes(*old(s), comp1@, comp2@, x, y, d)),
        eff <==> locked_bites(*old(s), comp1@, comp2@),
{
    let ghost s0 = *s;
    let mut eff = false;
    proof {
        lemma_tracks_refl(s0);
    }
    let ranges1 = get_compartment_ranges(s, comp1);
    let ranges2 = get_compartment_ranges(s, comp2);
    if ranges1.len() == 0 || ranges2.len() == 0 {
        proof {
            assert(!locked_pair(s0, comp1@, comp2@));
            reveal(locked_bites);
        }
        return false;
    }
    let sure1 = get_sure_candidates(&ranges1, comp1.len());
    let sure2 = get_sure_candidates(&ranges2, comp2.len());
    let row1 = comp1[0].0;
    let row2 = comp2[0].0;
    let col1 = comp1[0].1;
    let col2 = comp2[0].1;
    if row1 == row2 || col1 == col2 {
        let vals1 = mask_values(sure1);
        proof {
            lemma_digits_of(sure1);
            lemma_digits_of(sure2);
            assert(locked_pair(s0, comp1@, comp2@));
        }
        let mut k: usize = 0;
        while k < vals1.len()
            invariant
                s0 == *old(s), s0.wf(), k <= vals1@.len(),
                tracks(s0, *s, eff),
                comp_ok(s0.is_black, comp1@),
                comp_ok(s0.is_black, comp2@),
                vals1@ == digits_of(sure1),
                forall|i: int| 0 <= i < digits_of(sure1).len() ==> is_digit(#[trigger] digits_of(sure1)[i]),
                s.solved == s0.solved,
                s.numbers == s0.numbers,
                forall|x: int, y: int, d: u8| 0 <= x < 9 && 0 <= y < 9 && is_digit(d) ==> (#[trigger] has_digit(s.candidates[x][y], d)
                    <==> has_digit(s0.candidates[x][y], d) && !(listed(comp2@, x, y) && exists|j: int| 0 <= j < k && vals1@[j] == d)),
            decreases vals1@.len() - k,
        {
            let ghost before = *s;
            let n = vals1[k];
            let e = strike_digit(s, comp2, n);
            proof {
                lemma_tracks_chain(s0, before, *s, eff, e);
                assert forall|x: int, y: int, d: u8| 0 <= x < 9 && 0 <= y < 9 && is_digit(d) implies (#[trigger] has_digit(s.candidates[x][y], d)
                    <==> has_digit(s0.candidates[x][y], d) && !(listed(comp2@, x, y) && exists|j: int| 0 <= j < k + 1 && vals1@[j] == d)) by {
                    lemma_has_and_not(before.candidates[x][y], bit_of(n), d);
                    lemma_bit_has(n, d);
                    if d != n && exists|j: int| 0 <= j < k + 1 && vals1@[j] == d {
                        let j = choose|j: int| 0 <= j < k + 1 && vals1@[j] == d;
                        assert(j < k);
                    }
                    if d == n {
                        assert(vals1@[k as int] == d);
                    }
                }
            }
            if e {
                eff = true;
            }
            k = k + 1;
        }
        let ghost mid = *s;
        let vals2 = mask_values(sure2);
        let mut k: usize = 0;
        while k < vals2.len()
            invariant
                s0 == *old(s), s0.wf(), k <= vals2@.len(),
                tracks(s0, *s, eff),
                comp_ok(s0.is_black, comp1@),
                vals2@ == digits_of(sure2),
                forall|i: int| 0 <= i < digits_of(sure2).len() ==> is_digit(#[trigger] digits_of(sure2)[i]),
                s.solved == s0.solved,
                s.numbers == s0.numbers,
                forall|x: int, y: int, d: u8| 0 <= x < 9 && 0 <= y < 9 && is_digit(d) ==> (#[trigger] has_digit(s.candidates[x][y], d)
                    <==> has_digit(mid.candidates[x][y], d) && !(listed(comp1@, x, y) && exists|j: int| 0 <= j < k && vals2@[j] == d)),
            decreases vals2@.len() - k,
        {
            let ghost before = *s;
            let n = vals2[k];
            let e = strike_digit(s, comp1, n);
            proof {
                lemma_tracks_chain(s0, before, *s, eff, e);
                assert forall|x: int, y: int, d: u8| 0 <= x < 9 && 0 <= y < 9 && is_digit(d) implies (#[trigger] has_digit(s.candidates[x][y], d)
                    <==> has_digit(mid.candidates[x][y], d) && !(listed(comp1@, x, y) && exists|j: int| 0 <= j < k + 1 && vals2@[j] == d)) by {
                    lemma_has_and_not(before.candidates[x][y], bit_of(n), d);
                    lemma_bit_has(n, d);
                    if d != n && exists|j: int| 0 <= j < k + 1 && vals2@[j] == d {
                        let j = choose|j: int| 0 <= j < k + 1 && vals2@[j] == d;
                        assert(j < k);
                    }
                    if d == n {
                        assert(vals2@[k as int] == d);
                    }
                }
            }
            if e {
                eff = true;
            }
            k = k + 1;
        }
        proof {
            assert forall|x: int, y: int, d: u8| 0 <= x < 9 && 0 <= y < 9 && is_digit(d) implies (#[trigger] has_digit(s.candidates[x][y], d)
                <==> has_digit(s0.candidates[x][y], d) && !locked_strikes(s0, comp1@, comp2@, x, y, d)) by {
                assert(has_digit(sure1, d) <==> comp_sure(s0, comp1@, d));
                assert(has_digit(sure2, d) <==> comp_sure(s0, comp2@, d));
                if has_digit(sure1, d) {
                    assert(digits_of(sure1).contains(d));
                }
                if has_digit(sure2, d) {
                    assert(digits_of(sure2).contains(d));
                }
                assert(has_digit(mid.candidates[x][y], d) <==> has_digit(s0.candidates[x][y], d) && !(listed(comp2@, x, y) && exists|j: int| 0 <= j < vals1@.len() && vals1@[j] == d));
            }
        }
    } else {
        proof {
            assert(!locked_pair(s0, comp1@, comp2@));
        }
    }
    proof {
        lemma_bites_progress(s0, *s, comp1@, comp2@);
    }
    eff
}

/// A compartment that lies in row (`by_rows`) or column `line`.
pub open spec fn on_line(line: usize, by_rows: bool) -> spec_fn(Seq<(usize, usize)>) -> bool {
    |comp: Seq<(usize, usize)>| (if by_rows { comp[0].0 } else { comp[0].1 }) == line
}

/// The compartments of row (`by_rows`) or column `line`, in order.
pub open spec fn line_comps_on(s: HumanStr8ts, line: usize, by_rows: bool) -> Seq<Seq<(usize, usize)>> {
    comps_view(if by_rows { s.row_compartments } else { s.col_compartments }).filter(on_line(line, by_rows))
}

/// Some candidate of the board falls to the pair of compartments.
#[verifier::opaque]
pub open spec fn locked_bites(s: HumanStr8ts, comp1: Seq<(usize, usize)>, comp2: Seq<(usize, usize)>) -> bool {
    exists|x: int, y: int, d: u8| 0 <= x < 9 && 0 <= y < 9 && is_digit(d) && #[trigger] has_digit(s.candidates[x][y], d)
        && locked_strikes(s, comp1, comp2, x, y, d)
}

/// Some two compartments of one row (`by_rows`) or column lock something.
pub open spec fn locked_line_bites(s: HumanStr8ts, by_rows: bool) -> bool {
    exists|line: usize, i: int, j: int| line < 9 && 0 <= i < j < line_comps_on(s, line, by_rows).len() && #[trigger] locked_bites(
        s,
        line_comps_on(s, line, by_rows)[i],
        line_comps_on(s, line, by_rows)[j],
    )
}

/// The compartments of one row (`by_rows`) or column, in order.
fn line_compartments(s: &HumanStr8ts, line: usize, by_rows: bool) -> (out: Vec<Vec<(usize, usize)>>)
    requires s.structure_wf(),
    ensures
        forall|k: int| 0 <= k < out@.len() ==> comp_ok(s.is_black, #[trigger] out@[k]@),
        comps_view(out) == line_comps_on(*s, line, by_rows),
{
    proof {
        lemma_comps_ok(*s);
    }
    let ghost all = comps_view(if by_rows { s.row_compartments } else { s.col_compartments });
    let ghost p = on_line(line, by_rows);
    let mut out: Vec<Vec<(usize, usize)>> = Vec::new();
    let count = if by_rows { s.row_compartments.len() } else { s.col_compartments.len() };
    for i in 0..count
        invariant
            count == if by_rows { s.row_compartments@.len() } else { s.col_compartments@.len() },
            all == comps_view(if by_rows { s.row_compartments } else { s.col_compartments }),
            p == on_line(line, by_rows),
            comps_view(out) == all.take(i as int).filter(p),
            forall|k: int| 0 <= k < s.row_compartments@.len() ==> comp_ok(s.is_black, #[trigger] s.row_compartments@[k]@),
            forall|k: int| 0 <= k < s.col_compartments@.len() ==> comp_ok(s.is_black, #[trigger] s.col_compartments@[k]@),
            forall|k: int| 0 <= k < out@.len() ==> comp_ok(s.is_black, #[trigger] out@[k]@),
    {
        let comp = if by_rows { copy_comp(&s.row_compartments[i]) } else { copy_comp(&s.col_compartments[i]) };
        proof {
            if by_rows {
                assert(comp_ok(s.is_black, s.row_compartments@[i as int]@));
            } else {
                assert(comp_ok(s.is_black, s.col_compartments@[i as int]@));
            }
            assert(all[i as int] == comp@);
            assert(all.take(i + 1).drop_last() == all.take(i as int));
            assert(all.take(i + 1).last() == comp@);
            reveal_with_fuel(Seq::filter, 1);
        }
        let head = if by_rows { comp[0].0 } else { comp[0].1 };
        let ghost out0 = out@;
        if head == line {
            out.push(comp);
            proof {
                assert(comps_view(out) =~= out0.map_values(|c: Vec<(usize, usize)>| c@).push(comp@));
            }
        }
    }
    proof {
        assert(all.take(count as int) == all);
    }
    out
}

#[verifier::spinoff_prover]
#[verifier::rlimit(60)]
fn locked_in_lines(s: &mut HumanStr8ts, by_rows: bool) -> (eff: bool)
    requires old(s).wf(),
    ensures
        tracks(*old(s), *final(s), eff),
        eff <==> locked_line_bites(*old(s), by_rows),
{
    let ghost s0 = *s;
    let mut eff = false;
    proof {
        lemma_tracks_refl(s0);
    }
    let mut line: usize = 0;
    while line < N
        invariant
            s0 == *old(s), s0.wf(), tracks(s0, *s, eff), line <= 9,
            !eff ==> *s == s0,
            eff <==> exists|l: usize, i: int, j: int| l < line && 0 <= i < j < line_comps_on(s0, l, by_rows).len() && #[trigger] locked_bites(
                s0,
                line_comps_on(s0, l, by_rows)[i],
                line_comps_on(s0, l, by_rows)[j],
            ),
        decreases 9 - line,
    {
        let comps = line_compartments(s, line, by_rows);
        let ghost lc = line_comps_on(s0, line, by_rows);
        proof {
            assert(comps_view(comps) == lc);
            assert(comps_view(comps).len() == comps@.len());
        }
        let ghost eff0 = eff;
        if comps.len() >= 2 {
            let mut i: usize = 0;
            while i < comps.len()
                invariant
                    s0 == *old(s), s0.wf(), tracks(s0, *s, eff), line < 9, i <= comps@.len(),
                    forall|k: int| 0 <= k < comps@.len() ==> comp_ok(s0.is_black, #[trigger] comps@[k]@),
                    comps_view(comps) == lc, lc.len() == comps@.len(),
                    !eff ==> *s == s0,
                    eff <==> eff0 || exists|a: int, b: int| 0 <= a < i && a < b < lc.len() && #[trigger] locked_bites(s0, lc[a], lc[b]),
                decreases comps@.len() - i,
            {
                let mut j: usize = i + 1;
                while j < comps.len()
                    invariant
                        s0 == *old(s), s0.wf(), tracks(s0, *s, eff), i < comps@.len(), i < j <= comps@.len(),
                        forall|k: int| 0 <= k < comps@.len() ==> comp_ok(s0.is_black, #[trigger] comps@[k]@),
                        comps_view(comps) == lc, lc.len() == comps@.len(),
                        !eff ==> *s == s0,
                        eff <==> eff0 || (exists|a: int, b: int| 0 <= a < i && a < b < lc.len() && #[trigger] locked_bites(s0, lc[a], lc[b]))
                            || (exists|b: int| i < b < j && #[trigger] locked_bites(s0, lc[i as int], lc[b])),
                    decreases comps@.len() - j,
                {
                    proof {
                        assert(comp_ok(s0.is_black, comps@[i as int]@));
                        assert(comp_ok(s0.is_black, comps@[j as int]@));
                        assert(lc[i as int] == comps@[i as int]@);
                        assert(lc[j as int] == comps@[j as int]@);
                    }
                    let ghost before = *s;
                    let e = check_locked_compartments(s, &comps[i], &comps[j]);
                    proof {
                        lemma_tracks_chain(s0, before, *s, eff, e);
                        if !e {
                            lemma_no_progress(before, *s);
                        }
                    }
                    if e {
                        eff = true;
                    }
                    proof {
                        assert(eff <==> eff0 || (exists|a: int, b: int| 0 <= a < i && a < b < lc.len() && #[trigger] locked_bites(s0, lc[a], lc[b]))
                            || (exists|b: int| i < b < j + 1 && #[trigger] locked_bites(s0, lc[i as int], lc[b]))) by {
                            if exists|b: int| i < b < j + 1 && #[trigger] locked_bites(s0, lc[i as int], lc[b]) {
                                let b = choose|b: int| i < b < j + 1 && #[trigger] locked_bites(s0, lc[i as int], lc[b]);
                                if b < j {
                                    assert(exists|b: int| i < b < j && #[trigger] locked_bites(s0, lc[i as int], lc[b]));
                                }
                            }
                        }
                    }
                    j = j + 1;
                }
                proof {
                    assert(eff <==> eff0 || exists|a: int, b: int| 0 <= a < i + 1 && a < b < lc.len() && #[trigger] locked_bites(s0, lc[a], lc[b])) by {
                        if exists|a: int, b: int| 0 <= a < i + 1 && a < b < lc.len() && #[trigger] locked_bites(s0, lc[a], lc[b]) {
                            let (a, b) = choose|a: int, b: int| 0 <= a < i + 1 && a < b < lc.len() && #[trigger] locked_bites(s0, lc[a], lc[b]);
                            if a == i {
                                assert(exists|b: int| i < b < j && #[trigger] locked_bites(s0, lc[i as int], lc[b]));
                            }
                        }
                    }
                }
                i = i + 1;
            }
        }
        proof {
            assert(eff <==> exists|l: usize, i: int, j: int| l < line + 1 && 0 <= i < j < line_comps_on(s0, l, by_rows).len() && #[trigger] locked_bites(
                s0,
                line_comps_on(s0, l, by_rows)[i],
                line_comps_on(s0, l, by_rows)[j],
            )) by {
                if exists|l: usize, i: int, j: int| l < line + 1 && 0 <= i < j < line_comps_on(s0, l, by_rows).len() && #[trigger] locked_bites(
                    s0,
                    line_comps_on(s0, l, by_rows)[i],
                    line_comps_on(s0, l, by_rows)[j],
                ) {
                    let (l, a, b) = choose|l: usize, i: int, j: int| l < line + 1 && 0 <= i < j < line_comps_on(s0, l, by_rows).len() && #[trigger] locked_bites(
                        s0,
                        line_comps_on(s0, l, by_rows)[i],
                        line_comps_on(s0, l, by_rows)[j],
                    );
                    if l == line {
                        assert(lc.len() >= 2);
                        assert(locked_bites(s0, lc[a], lc[b]));
                    }
                }
            }
        }
        line = line + 1;
    }
    eff
}

/// Locked compartments: the sure digits of a compartment leave the other
/// compartments of its row or column.
pub(crate) fn use_locked_compartments(s: &mut HumanStr8ts) -> (res: i32)
    requires old(s).wf(),
    ensures
        strategy_done(*old(s), *final(s), res, H_LOCKED),
        res == 0 <==> !locked_line_bites(*old(s), true) && !locked_line_bites(*old(s), false),
{
    let ghost s0 = *s;
    let e1 = locked_in_lines(s, true);
    let ghost mid = *s;
    proof {
        if !e1 {
            lemma_no_progress(s0, mid);
        }
    }
    let e2 = locked_in_lines(s, false);
    proof {
        lemma_tracks_chain(s0, mid, *s, e1, e2);
        lemma_strategy_done(s0, *s, e1 || e2, H_LOCKED);
    }
    if e1 || e2 {
        H_LOCKED
    } else {
        0
    }
}

// ---------------------------------------------------------------------------
// Sea creatures (X-wing, swordfish, ...)
// ---------------------------------------------------------------------------

fn contains_index(v: &Vec<usize>, x: usize) -> (b: bool)
    ensures b == v@.contains(x),
{
    for k in 0..v.len()
        invariant forall|i: int| 0 <= i < k ==> v@[i] != x,
    {
        if v[k] == x {
            return true;
        }
    }
    false
}

/// The cross position of a cell: its column within a row (`by_rows`), its
/// row within a column.
pub open spec fn cross_of(by_rows: bool) -> spec_fn((usize, usize)) -> usize {
    |q: (usize, usize)| if by_rows { q.1 } else { q.0 }
}

/// The cross positions of the cells of `comp` that have `num`, in order.
pub open spec fn comp_positions(s: HumanStr8ts, comp: Seq<(usize, usize)>, num: u8, by_rows: bool) -> Seq<usize> {
    comp.filter(has_cand(s, num)).map_values(cross_of(by_rows))
}

/// The cross positions where the first `j` compartments of `lc` that are sure
/// of `num` may hold it.
pub open spec fn line_positions(s: HumanStr8ts, num: u8, lc: Seq<Seq<(usize, usize)>>, by_rows: bool, j: int) -> Seq<usize>
    decreases j,
{
    if j <= 0 {
        Seq::empty()
    } else {
        line_positions(s, num, lc, by_rows, j - 1) + if comp_sure(s, lc[j - 1], num) {
            comp_positions(s, lc[j - 1], num, by_rows)
        } else {
            Seq::empty()
        }
    }
}

/// `num` is sure in the line, which has between one and `n` places for it.
pub open spec fn line_kept(s: HumanStr8ts, num: u8, n: int, line: int, by_rows: bool) -> bool {
    let lc = line_comps_on(s, line as usize, by_rows);
    let pos = line_positions(s, num, lc, by_rows, lc.len() as int);
    &&& exists|i: int| 0 <= i < lc.len() && #[trigger] comp_sure(s, lc[i], num)
    &&& 0 < pos.len() <= n
}

/// A line kept for a sea creature.
pub open spec fn kept_pred(s: HumanStr8ts, num: u8, n: int, by_rows: bool) -> spec_fn(usize) -> bool {
    |l: usize| line_kept(s, num, n, l as int, by_rows)
}

/// The lines kept for a sea creature, in order.
pub open spec fn kept_lines(s: HumanStr8ts, num: u8, n: int, by_rows: bool) -> Seq<usize> {
    Seq::new(9, |k: int| k as usize).filter(kept_pred(s, num, n, by_rows))
}

/// The places for `num` in a kept line; none for another line.
pub open spec fn cross_at(s: HumanStr8ts, num: u8, n: int, by_rows: bool, line: int) -> Seq<usize> {
    if line_kept(s, num, n, line, by_rows) {
        let lc = line_comps_on(s, line as usize, by_rows);
        line_positions(s, num, lc, by_rows, lc.len() as int)
    } else {
        Seq::empty()
    }
}

/// Whether `num` is sure in `comp`, with the cross positions of its cells
/// that have `num`.
fn comp_places(s: &HumanStr8ts, comp: &Vec<(usize, usize)>, num: u8, by_rows: bool) -> (r: (bool, Vec<usize>))
    requires s.wf(), is_digit(num), comp_ok(s.is_black, comp@),
    ensures
        r.0 == comp_sure(*s, comp@, num),
        r.1@ == (if r.0 { comp_positions(*s, comp@, num, by_rows) } else { Seq::empty() }),
        forall|j: int| 0 <= j < r.1@.len() ==> #[trigger] r.1@[j] < 9,
{
    let ghost pn = has_cand(*s, num);
    let mut positions: Vec<usize> = Vec::new();
    let ranges = get_compartment_ranges(s, comp);
    let sure = get_sure_candidates(&ranges, comp.len());
    if !mask_has(sure, num) {
        return (false, positions);
    }
    let mut k: usize = 0;
    while k < comp.len()
        invariant
            is_digit(num), k <= comp@.len(),
            comp_ok(s.is_black, comp@),
            pn == has_cand(*s, num),
            forall|j: int| 0 <= j < positions@.len() ==> #[trigger] positions@[j] < 9,
            positions@ == comp@.take(k as int).filter(pn).map_values(cross_of(by_rows)),
        decreases comp@.len() - k,
    {
        let (r, c) = comp[k];
        proof {
            assert(comp@[k as int] == (r, c));
            assert(comp@.take(k + 1) == comp@.take(k as int).push((r, c)));
            comp@.take(k as int).lemma_filter_push((r, c), pn);
        }
        if mask_has(s.candidates[r][c], num) {
            positions.push(if by_rows { c } else { r });
        }
        proof {
            let f = comp@.take(k + 1).filter(pn);
            assert(positions@ =~= f.map_values(cross_of(by_rows)));
        }
        k = k + 1;
    }
    proof {
        assert(comp@.take(comp@.len() as int) == comp@);
    }
    (true, positions)
}

/// The lines (rows when `by_rows`) in which `num` is sure, with, for each
/// line, the cross positions where a sure compartment of it may hold `num`.
#[verifier::spinoff_prover]
fn sure_lines(s: &HumanStr8ts, num: u8, n: usize, by_rows: bool) -> (res: (Vec<usize>, Vec<Vec<usize>>))
    requires s.wf(), is_digit(num),
    ensures
        res.1@.len() == 9,
        forall|k: int| 0 <= k < res.0@.len() ==> #[trigger] res.0@[k] < 9,
        forall|k: int, j: int| 0 <= k < 9 && 0 <= j < res.1@[k]@.len() ==> #[trigger] res.1@[k]@[j] < 9,
        res.0@ == kept_lines(*s, num, n as int, by_rows),
        forall|l: int| 0 <= l < 9 ==> #[trigger] res.1@[l]@ == cross_at(*s, num, n as int, by_rows, l),
{
    let ghost all = Seq::new(9, |k: int| k as usize);
    let ghost kp = kept_pred(*s, num, n as int, by_rows);
    let mut lines: Vec<usize> = Vec::new();
    let mut cross: Vec<Vec<usize>> = Vec::new();
    let mut line: usize = 0;
    while line < N
        invariant
            s.wf(), is_digit(num), line <= 9,
            cross@.len() == line,
            all == Seq::new(9, |k: int| k as usize),
            kp == kept_pred(*s, num, n as int, by_rows),
            lines@ == all.take(line as int).filter(kp),
            forall|k: int| 0 <= k < lines@.len() ==> #[trigger] lines@[k] < 9,
            forall|k: int, j: int| 0 <= k < cross@.len() && 0 <= j < cross@[k]@.len() ==> #[trigger] cross@[k]@[j] < 9,
            forall|l: int| 0 <= l < line ==> #[trigger] cross@[l]@ == cross_at(*s, num, n as int, by_rows, l),
        decreases 9 - line,
    {
        let comps = line_compartments(s, line, by_rows);
        let ghost lc = line_comps_on(*s, line, by_rows);
        proof {
            assert(comps_view(comps) == lc);
            assert forall|i: int| 0 <= i < comps@.len() implies #[trigger] comps@[i]@ == lc[i] by {
                assert(comps_view(comps)[i] == comps@[i]@);
            }
        }
        let mut is_sure = false;
        let mut positions: Vec<usize> = Vec::new();
        let mut ci: usize = 0;
        while ci < comps.len()
            invariant
                s.wf(), is_digit(num), ci <= comps@.len(), line < 9,
                lc.len() == comps@.len(),
                forall|i: int| 0 <= i < comps@.len() ==> #[trigger] comps@[i]@ == lc[i],
                forall|k: int| 0 <= k < comps@.len() ==> comp_ok(s.is_black, #[trigger] comps@[k]@),
                forall|j: int| 0 <= j < positions@.len() ==> #[trigger] positions@[j] < 9,
                positions@ == line_positions(*s, num, lc, by_rows, ci as int),
                is_sure <==> exists|i: int| 0 <= i < ci && #[trigger] comp_sure(*s, lc[i], num),
            decreases comps@.len() - ci,
        {
            let comp = &comps[ci];
            proof {
                assert(comp_ok(s.is_black, comps@[ci as int]@));
                assert(comp@ == lc[ci as int]);
            }
            let (here, mut pos) = comp_places(s, comp, num, by_rows);
            if here {
                is_sure = true;
                positions.append(&mut pos);
            }
            proof {
                assert(positions@ =~= line_positions(*s, num, lc, by_rows, ci + 1));
            }
            proof {
                assert(is_sure <==> exists|i: int| 0 <= i < ci + 1 && #[trigger] comp_sure(*s, lc[i], num)) by {
                    if exists|i: int| 0 <= i < ci + 1 && #[trigger] comp_sure(*s, lc[i], num) {
                        let i = choose|i: int| 0 <= i < ci + 1 && #[trigger] comp_sure(*s, lc[i], num);
                        if i < ci {
                            assert(exists|i: int| 0 <= i < ci && #[trigger] comp_sure(*s, lc[i], num));
                        }
                    }
                }
            }
            ci = ci + 1;
        }
        proof {
            assert(all.take(line + 1) == all.take(line as int).push(line));
            all.take(line as int).lemma_filter_push(line, kp);
            assert(kp(line) == line_kept(*s, num, n as int, line as int, by_rows));
        }
        let ghost c0 = cross@;
        if is_sure && positions.len() > 0 && positions.len() <= n {
            lines.push(line);
            cross.push(positions);
        } else {
            cross.push(Vec::new());
        }
        proof {
            assert forall|l: int| 0 <= l < line + 1 implies #[trigger] cross@[l]@ == cross_at(*s, num, n as int, by_rows, l) by {
                if l < line {
                    assert(cross@[l] == c0[l]);
                }
            }
            assert forall|k: int, j: int| 0 <= k < cross@.len() && 0 <= j < cross@[k]@.len() implies #[trigger] cross@[k]@[j] < 9 by {
                if k < line {
                    assert(cross@[k] == c0[k]);
                }
            }
        }
        line = line + 1;
    }
    proof {
        assert(all.take(9) == all);
    }
    (lines, cross)
}

/// `to` with each index of `from` appended in turn unless already there.
pub open spec fn with_new_indices(to: Seq<usize>, from: Seq<usize>) -> Seq<usize>
    decreases from.len(),
{
    if from.len() == 0 {
        to
    } else {
        let t = with_new_indices(to, from.drop_last());
        if t.contains(from.last()) {
            t
        } else {
            t.push(from.last())
        }
    }
}

/// The kept lines at the first `j` positions `combo` of the kept lines.
pub open spec fn sea_chosen(s: HumanStr8ts, num: u8, n: int, by_rows: bool, combo: Seq<usize>, j: int) -> Seq<usize> {
    Seq::new(j as nat, |t: int| kept_lines(s, num, n, by_rows)[combo[t] as int])
}

/// The cross positions of those lines, each once, in order of first appearance.
pub open spec fn sea_cross(s: HumanStr8ts, num: u8, n: int, by_rows: bool, combo: Seq<usize>, j: int) -> Seq<usize>
    decreases j,
{
    if j <= 0 {
        Seq::empty()
    } else {
        with_new_indices(
            sea_cross(s, num, n, by_rows, combo, j - 1),
            cross_at(s, num, n, by_rows, kept_lines(s, num, n, by_rows)[combo[j - 1] as int] as int),
        )
    }
}

/// The white cell at position `p` of line `q`, outside the chosen lines and
/// at a cross position of the creature, still has `num`.
pub open spec fn sea_hits(s: HumanStr8ts, num: u8, n: int, by_rows: bool, combo: Seq<usize>, q: int, p: int) -> bool {
    let rc = line_cell(q, p, by_rows);
    &&& 0 <= q < 9 && 0 <= p < 9
    &&& sea_cross(s, num, n, by_rows, combo, n).contains(p as usize)
    &&& !sea_chosen(s, num, n, by_rows, combo, n).contains(q as usize)
    &&& !s.is_black[rc.0][rc.1] && has_digit(s.candidates[rc.0][rc.1], num)
}

/// `n` kept lines, chosen at the positions `combo`, confine `num` to `n`
/// cross lines, and some other cell of those cross lines still has it.
pub open spec fn sea_found(s: HumanStr8ts, num: u8, n: int, by_rows: bool, combo: Seq<usize>) -> bool {
    &&& combo.len() == n && increasing_below(combo, kept_lines(s, num, n, by_rows).len())
    &&& sea_cross(s, num, n, by_rows, combo, n).len() == n
    &&& exists|q: int, p: int| #[trigger] sea_hits(s, num, n, by_rows, combo, q, p)
}

/// The white cell `(x, y)` lies in a cross line of the creature at `combo`,
/// outside its chosen lines.
pub open spec fn sea_target(s: HumanStr8ts, num: u8, n: int, by_rows: bool, combo: Seq<usize>, x: int, y: int) -> bool {
    let q = if by_rows { x } else { y };
    let p = if by_rows { y } else { x };
    &&& sea_cross(s, num, n, by_rows, combo, n).contains(p as usize)
    &&& !sea_chosen(s, num, n, by_rows, combo, n).contains(q as usize)
    &&& !s.is_black[x][y]
}

/// `b` is `a` with `num` removed from every cell the creature at `combo` targets.
pub open spec fn sea_struck(a: HumanStr8ts, b: HumanStr8ts, num: u8, n: int, by_rows: bool, combo: Seq<usize>) -> bool {
    &&& b.solved == a.solved
    &&& b.numbers == a.numbers
    &&& forall|x: int, y: int| 0 <= x < 9 && 0 <= y < 9 ==> #[trigger] b.candidates[x][y] == if sea_target(a, num, n, by_rows, combo, x, y) {
        a.candidates[x][y] & !bit_of(num)
    } else {
        a.candidates[x][y]
    }
}

/// A sea creature of size `n` for `num` across lines (rows when `by_rows`).
#[verifier::spinoff_prover]
#[verifier::rlimit(100)]
fn sea_in_lines(s: &mut HumanStr8ts, num: u8, n: usize, by_rows: bool) -> (found: bool)
    requires old(s).wf(), is_digit(num),
    ensures
        found ==> tracks(*old(s), *final(s), true),
        !found ==> *final(s) == *old(s),
        found <==> exists|combo: Seq<usize>| #[trigger] sea_found(*old(s), num, n as int, by_rows, combo),
        found ==> exists|combo: Seq<usize>| #[trigger] sea_found(*old(s), num, n as int, by_rows, combo) && sea_struck(
            *old(s),
            *final(s),
            num,
            n as int,
            by_rows,
            combo,
        ),
{
    let ghost s0 = *s;
    let ghost ni = n as int;
    let (lines, cross) = sure_lines(s, num, n, by_rows);
    let ghost kl = lines@;
    let combos = combinations(lines.len(), n);
    let mut ci: usize = 0;
    while ci < combos.len()
        invariant
            s0 == *old(s), *s == s0, s0.wf(), is_digit(num), ci <= combos@.len(), ni == n,
            cross@.len() == 9,
            kl == lines@, kl == kept_lines(s0, num, ni, by_rows),
            forall|l: int| 0 <= l < 9 ==> #[trigger] cross@[l]@ == cross_at(s0, num, ni, by_rows, l),
            forall|k: int| 0 <= k < lines@.len() ==> #[trigger] lines@[k] < 9,
            forall|k: int, j: int| 0 <= k < 9 && 0 <= j < cross@[k]@.len() ==> #[trigger] cross@[k]@[j] < 9,
            forall|i: int| 0 <= i < combos@.len() ==> (#[trigger] combos@[i])@.len() == n && increasing_below(combos@[i]@, lines@.len() as nat),
            n > 0 ==> forall|c: Seq<usize>| c.len() == n && #[trigger] increasing_below(c, lines@.len() as nat) ==> listed_choice(combos@, c),
            forall|i: int| 0 <= i < ci ==> !#[trigger] sea_found(s0, num, ni, by_rows, combos@[i]@),
        decreases combos@.len() - ci,
    {
        let combo = &combos[ci];
        proof {
            assert(increasing_below(combos@[ci as int]@, lines@.len() as nat));
        }
        let mut chosen: Vec<usize> = Vec::new();
        let mut all_cross: Vec<usize> = Vec::new();
        let mut j: usize = 0;
        while j < combo.len()
            invariant
                j <= combo@.len(), combo@.len() == n, ni == n,
                increasing_below(combo@, lines@.len() as nat),
                cross@.len() == 9,
                kl == lines@, kl == kept_lines(s0, num, ni, by_rows),
                forall|l: int| 0 <= l < 9 ==> #[trigger] cross@[l]@ == cross_at(s0, num, ni, by_rows, l),
                forall|k: int| 0 <= k < lines@.len() ==> #[trigger] lines@[k] < 9,
                forall|k: int, j: int| 0 <= k < 9 && 0 <= j < cross@[k]@.len() ==> #[trigger] cross@[k]@[j] < 9,
                forall|k: int| 0 <= k < all_cross@.len() ==> #[trigger] all_cross@[k] < 9,
                chosen@ == sea_chosen(s0, num, ni, by_rows, combo@, j as int),
                all_cross@ == sea_cross(s0, num, ni, by_rows, combo@, j as int),
            decreases combo@.len() - j,
        {
            let line = lines[combo[j]];
            proof {
                assert(lines@[combo@[j as int] as int] < 9);
            }
            chosen.push(line);
            proof {
                assert(chosen@ =~= sea_chosen(s0, num, ni, by_rows, combo@, j + 1));
            }
            let pos = &cross[line];
            let ghost start = all_cross@;
            let mut k: usize = 0;
            while k < pos.len()
                invariant
                    line < 9, k <= pos@.len(),
                    cross@.len() == 9,
                    pos@ == cross@[line as int]@,
                    forall|k: int, j: int| 0 <= k < 9 && 0 <= j < cross@[k]@.len() ==> #[trigger] cross@[k]@[j] < 9,
                    forall|k: int| 0 <= k < all_cross@.len() ==> #[trigger] all_cross@[k] < 9,
                    all_cross@ == with_new_indices(start, pos@.take(k as int)),
                decreases pos@.len() - k,
            {
                let p = pos[k];
                proof {
                    assert(cross@[line as int]@[k as int] < 9);
                    assert(pos@.take(k + 1).drop_last() == pos@.take(k as int));
                    assert(pos@.take(k + 1).last() == p);
                }
                if !contains_index(&all_cross, p) {
                    all_cross.push(p);
                }
                k = k + 1;
            }
            proof {
                assert(pos@.take(pos@.len() as int) == pos@);
            }
            j = j + 1;
        }
        if all_cross.len() == n {
            let mut eff = false;
            proof {
                lemma_tracks_refl(s0);
            }
            let mut k: usize = 0;
            while k < all_cross.len()
                invariant
                    s0 == *old(s), s0.wf(), is_digit(num), k <= all_cross@.len(), ni == n,
                    tracks(s0, *s, eff),
                    !eff ==> *s == s0,
                    forall|k: int| 0 <= k < all_cross@.len() ==> #[trigger] all_cross@[k] < 9,
                    chosen@ == sea_chosen(s0, num, ni, by_rows, combo@, ni),
                    all_cross@ == sea_cross(s0, num, ni, by_rows, combo@, ni),
                    eff <==> exists|kk: int, q: int| 0 <= kk < k && #[trigger] sea_hits(s0, num, ni, by_rows, combo@, q, all_cross@[kk] as int),
                    s.solved == s0.solved, s.numbers == s0.numbers, s.is_black == s0.is_black,
                    forall|x: int, y: int| 0 <= x < 9 && 0 <= y < 9 ==> #[trigger] s.candidates[x][y] == if sea_target(s0, num, ni, by_rows, combo@, x, y)
                        && exists|kk: int| 0 <= kk < k && all_cross@[kk] == (if by_rows { y } else { x }) as usize {
                        s0.candidates[x][y] & !bit_of(num)
                    } else {
                        s0.candidates[x][y]
                    },
                decreases all_cross@.len() - k,
            {
                let p = all_cross[k];
                let ghost eff_k = eff;
                let mut q: usize = 0;
                while q < N
                    invariant
                        s0 == *old(s), s0.wf(), is_digit(num), p < 9, q <= 9, k < all_cross@.len(), ni == n,
                        p == all_cross@[k as int],
                        tracks(s0, *s, eff),
                        !eff ==> *s == s0,
                        chosen@ == sea_chosen(s0, num, ni, by_rows, combo@, ni),
                        all_cross@ == sea_cross(s0, num, ni, by_rows, combo@, ni),
                        eff <==> eff_k || exists|qq: int| 0 <= qq < q && #[trigger] sea_hits(s0, num, ni, by_rows, combo@, qq, p as int),
                        s.solved == s0.solved, s.numbers == s0.numbers, s.is_black == s0.is_black,
                        forall|x: int, y: int| 0 <= x < 9 && 0 <= y < 9 ==> #[trigger] s.candidates[x][y] == if sea_target(s0, num, ni, by_rows, combo@, x, y)
                            && ((exists|kk: int| 0 <= kk < k && all_cross@[kk] == (if by_rows { y } else { x }) as usize)
                            || (p == (if by_rows { y } else { x }) as usize && (if by_rows { x } else { y }) < q)) {
                            s0.candidates[x][y] & !bit_of(num)
                        } else {
                            s0.candidates[x][y]
                        },
                    decreases 9 - q,
                {
                    let (r, c) = if by_rows { (q, p) } else { (p, q) };
                    proof {
                        assert(line_cell(q as int, p as int, by_rows) == (r as int, c as int));
                        assert(all_cross@.contains(p));
                    }
                    let ghost eff_b = eff;
                    let ghost before = *s;
                    if !contains_index(&chosen, q) && !s.is_black[r][c] && mask_has(s.candidates[r][c], num) {
                        let ghost before = *s;
                        rem_candidate(s, r, c, num);
                        proof {
                            lemma_tracks_chain(s0, before, *s, eff, true);
                            if !eff_b {
                                assert(sea_hits(s0, num, ni, by_rows, combo@, q as int, p as int));
                            }
                        }
                        eff = true;
                    } else {
                        proof {
                            if !eff_b {
                                assert(!sea_hits(s0, num, ni, by_rows, combo@, q as int, p as int));
                            }
                        }
                    }
                    proof {
                        assert forall|x: int, y: int| 0 <= x < 9 && 0 <= y < 9 implies #[trigger] s.candidates[x][y] == if sea_target(s0, num, ni, by_rows, combo@, x, y)
                            && ((exists|kk: int| 0 <= kk < k && all_cross@[kk] == (if by_rows { y } else { x }) as usize)
                            || (p == (if by_rows { y } else { x }) as usize && (if by_rows { x } else { y }) < q + 1)) {
                            s0.candidates[x][y] & !bit_of(num)
                        } else {
                            s0.candidates[x][y]
                        } by {
                            lemma_clear_bit(s0.candidates[x][y], bit_of(num));
                            lemma_clear_bit(before.candidates[x][y], bit_of(num));
                            if x == r && y == c {
                                assert(all_cross@.contains(p));
                                assert(sea_target(s0, num, ni, by_rows, combo@, x, y) <==> !chosen@.contains(q) && !s0.is_black[x][y]);
                            }
                        }
                        assert(eff <==> eff_k || exists|qq: int| 0 <= qq < q + 1 && #[trigger] sea_hits(s0, num, ni, by_rows, combo@, qq, p as int)) by {
                            if exists|qq: int| 0 <= qq < q + 1 && #[trigger] sea_hits(s0, num, ni, by_rows, combo@, qq, p as int) {
                                let qq = choose|qq: int| 0 <= qq < q + 1 && #[trigger] sea_hits(s0, num, ni, by_rows, combo@, qq, p as int);
                                if qq < q {
                                    assert(exists|qq: int| 0 <= qq < q && #[trigger] sea_hits(s0, num, ni, by_rows, combo@, qq, p as int));
                                }
                            }
                        }
                    }
                    q = q + 1;
                }
                proof {
                    assert(eff <==> exists|kk: int, q: int| 0 <= kk < k + 1 && #[trigger] sea_hits(s0, num, ni, by_rows, combo@, q, all_cross@[kk] as int)) by {
                        if exists|kk: int, q: int| 0 <= kk < k + 1 && #[trigger] sea_hits(s0, num, ni, by_rows, combo@, q, all_cross@[kk] as int) {
                            let (kk, qq) = choose|kk: int, q: int| 0 <= kk < k + 1 && #[trigger] sea_hits(s0, num, ni, by_rows, combo@, q, all_cross@[kk] as int);
                            if kk < k {
                                assert(exists|kk: int, q: int| 0 <= kk < k && #[trigger] sea_hits(s0, num, ni, by_rows, combo@, q, all_cross@[kk] as int));
                            } else {
                                assert(0 <= qq < 9);
                                assert(exists|q2: int| 0 <= q2 < 9 && #[trigger] sea_hits(s0, num, ni, by_rows, combo@, q2, p as int));
                            }
                        }
                        if eff && !eff_k {
                            let qq = choose|qq: int| 0 <= qq < 9 && #[trigger] sea_hits(s0, num, ni, by_rows, combo@, qq, p as int);
                            assert(sea_hits(s0, num, ni, by_rows, combo@, qq, all_cross@[k as int] as int));
                        }
                    }
                }
                proof {
                    assert forall|x: int, y: int| 0 <= x < 9 && 0 <= y < 9 implies #[trigger] s.candidates[x][y] == if sea_target(s0, num, ni, by_rows, combo@, x, y)
                        && exists|kk: int| 0 <= kk < k + 1 && all_cross@[kk] == (if by_rows { y } else { x }) as usize {
                        s0.candidates[x][y] & !bit_of(num)
                    } else {
                        s0.candidates[x][y]
                    } by {
                        let pp = (if by_rows { y } else { x }) as usize;
                        if exists|kk: int| 0 <= kk < k + 1 && all_cross@[kk] == pp {
                            let kk = choose|kk: int| 0 <= kk < k + 1 && all_cross@[kk] == pp;
                            if kk < k {
                                assert(exists|kk: int| 0 <= kk < k && all_cross@[kk] == pp);
                            }
                        }
                    }
                }
                k = k + 1;
            }
            proof {
                assert forall|x: int, y: int| 0 <= x < 9 && 0 <= y < 9 && #[trigger] sea_target(s0, num, ni, by_rows, combo@, x, y)
                    implies exists|kk: int| 0 <= kk < all_cross@.len() && all_cross@[kk] == (if by_rows { y } else { x }) as usize by {
                    assert(all_cross@.contains((if by_rows { y } else { x }) as usize));
                }
                assert(sea_struck(s0, *s, num, ni, by_rows, combo@));
                assert((exists|kk: int, q: int| 0 <= kk < all_cross@.len() && #[trigger] sea_hits(s0, num, ni, by_rows, combo@, q, all_cross@[kk] as int))
                    <==> exists|q: int, p: int| #[trigger] sea_hits(s0, num, ni, by_rows, combo@, q, p)) by {
                    if exists|q: int, p: int| #[trigger] sea_hits(s0, num, ni, by_rows, combo@, q, p) {
                        let (q, p) = choose|q: int, p: int| #[trigger] sea_hits(s0, num, ni, by_rows, combo@, q, p);
                        let kk = choose|kk: int| 0 <= kk < all_cross@.len() && all_cross@[kk] == p as usize;
                        assert(sea_hits(s0, num, ni, by_rows, combo@, q, all_cross@[kk] as int));
                    }
                }
            }
            if eff {
                proof {
                    assert(sea_found(s0, num, ni, by_rows, combo@));
                }
                return true;
            }
            proof {
                lemma_no_progress(s0, *s);
            }
        } else {
            proof {
                assert(!sea_found(s0, num, ni, by_rows, combo@));
            }
        }
        ci = ci + 1;
    }
    proof {
        assert forall|combo: Seq<usize>| !#[trigger] sea_found(s0, num, ni, by_rows, combo) by {
            if sea_found(s0, num, ni, by_rows, combo) {
                if n == 0 {
                    let (q, p) = choose|q: int, p: int| #[trigger] sea_hits(s0, num, ni, by_rows, combo, q, p);
                    assert(sea_cross(s0, num, ni, by_rows, combo, 0) == Seq::<usize>::empty());
                } else {
                    assert(listed_choice(combos@, combo));
                    let i = choose|i: int| 0 <= i < combos@.len() && (#[trigger] combos@[i])@ == combo;
                    assert(!sea_found(s0, num, ni, by_rows, combos@[i]@));
                }
            }
        }
    }
    false
}

/// A sea creature of size `n` for some digit, across rows or columns, removes something.
pub open spec fn sea_anywhere(s: HumanStr8ts, n: int) -> bool {
    exists|num: u8, by_rows: bool, combo: Seq<usize>| is_digit(num) && #[trigger] sea_found(s, num, n, by_rows, combo)
}

/// Sea creatures: `n` lines where a digit is sure and confined to `n` cross
/// lines; the digit leaves those cross lines elsewhere.
pub(crate) fn use_sea_creature(s: &mut HumanStr8ts, n: usize) -> (res: i32)
    requires old(s).wf(), n <= 9,
    ensures
        strategy_done(*old(s), *final(s), res, sea_creature_h(n as int) as i32),
        res == 0 <==> !sea_anywhere(*old(s), n as int),
        res != 0 ==> exists|num: u8, by_rows: bool, combo: Seq<usize>| is_digit(num) && #[trigger] sea_found(*old(s), num, n as int, by_rows, combo)
            && sea_struck(*old(s), *final(s), num, n as int, by_rows, combo),
{
    let ghost s0 = *s;
    proof {
        lemma_tracks_refl(s0);
    }
    let mut num: u8 = 1;
    while num < 10
        invariant
            s0 == *old(s), *s == s0, s0.wf(), n <= 9, 1 <= num <= 10,
            forall|d: u8, c: Seq<usize>| 1 <= d < num ==> !#[trigger] sea_found(s0, d, n as int, true, c),
        decreases 10 - num,
    {
        if sea_in_lines(s, num, n, true) {
            proof {
                lemma_strategy_done(s0, *s, true, sea_creature_h(n as int) as i32);
                let c = choose|c: Seq<usize>| #[trigger] sea_found(s0, num, n as int, true, c) && sea_struck(s0, *s, num, n as int, true, c);
                assert(sea_anywhere(s0, n as int));
            }
            return sea_creature_hardness(n);
        }
        num = num + 1;
    }
    let mut num: u8 = 1;
    while num < 10
        invariant
            s0 == *old(s), *s == s0, s0.wf(), n <= 9, 1 <= num <= 10,
            forall|d: u8, c: Seq<usize>| 1 <= d < 10 ==> !#[trigger] sea_found(s0, d, n as int, true, c),
            forall|d: u8, c: Seq<usize>| 1 <= d < num ==> !#[trigger] sea_found(s0, d, n as int, false, c),
        decreases 10 - num,
    {
        if sea_in_lines(s, num, n, false) {
            proof {
                lemma_strategy_done(s0, *s, true, sea_creature_h(n as int) as i32);
                let c = choose|c: Seq<usize>| #[trigger] sea_found(s0, num, n as int, false, c) && sea_struck(s0, *s, num, n as int, false, c);
                assert(sea_anywhere(s0, n as int));
            }
            return sea_creature_hardness(n);
        }
        num = num + 1;
    }
    proof {
        lemma_strategy_done(s0, *s, false, sea_creature_h(n as int) as i32);
        assert forall|d: u8, by_rows: bool, c: Seq<usize>| is_digit(d) implies !#[trigger] sea_found(s0, d, n as int, by_rows, c) by {
            if by_rows {
                assert(!sea_found(s0, d, n as int, true, c));
            } else {
                assert(!sea_found(s0, d, n as int, false, c));
            }
        }
    }
    0
}


// ---------------------------------------------------------------------------
// Unique solution constraint
// ---------------------------------------------------------------------------

/// The rectangle with corners in rows `r1`, `r2` and columns `c1`, `c2`.
fn rectangle(r1: usize, r2: usize, c1: usize, c2: usize, s: &HumanStr8ts, cells: &mut Vec<(usize, usize)>) -> (ok: bool)
    requires r1 < 9, r2 < 9, c1 < 9, c2 < 9, old(cells)@.len() == 0,
    ensures
        final(cells)@ == seq![(r1, c1), (r1, c2), (r2, c1), (r2, c2)],
        ok == forall|k: int| 0 <= k < 4 ==> !s.is_black[(#[trigger] final(cells)@[k]).0 as int][final(cells)@[k].1 as int]
            && !s.solved[final(cells)@[k].0 as int][final(cells)@[k].1 as int],
{
    cells.push((r1, c1));
    cells.push((r1, c2));
    cells.push((r2, c1));
    cells.push((r2, c2));
    let mut ok = true;
    for k in 0..4usize
        invariant
            r1 < 9, r2 < 9, c1 < 9, c2 < 9,
            cells@ == seq![(r1, c1), (r1, c2), (r2, c1), (r2, c2)],
            ok == forall|i: int| 0 <= i < k ==> !s.is_black[(#[trigger] cells@[i]).0 as int][cells@[i].1 as int]
                && !s.solved[cells@[i].0 as int][cells@[i].1 as int],
    {
        let (r, c) = cells[k];
        proof {
            assert(cells@[k as int] == (r, c));
        }
        if s.is_black[r][c] || s.solved[r][c] {
            ok = false;
        }
    }
    ok
}

/// The corners of a rectangle, in the order first row, then second row.
pub open spec fn corners(r1: usize, r2: usize, c1: usize, c2: usize) -> Seq<(usize, usize)> {
    seq![(r1, c1), (r1, c2), (r2, c1), (r2, c2)]
}

/// The candidates of the corners, in the same order.
pub open spec fn corner_masks(s: HumanStr8ts, r1: usize, r2: usize, c1: usize, c2: usize) -> Seq<u16> {
    Seq::new(4, |k: int| s.candidates[corners(r1, r2, c1, c2)[k].0 as int][corners(r1, r2, c1, c2)[k].1 as int])
}

/// A mask of two digits.
pub open spec fn two_digits() -> spec_fn(u16) -> bool {
    |m: u16| popcount(m) == 2
}

/// The mask `v`.
pub open spec fn same_mask(v: u16) -> spec_fn(u16) -> bool {
    |m: u16| m == v
}

/// A corner with candidates `cs` that holds the whole `pair` and more.
pub open spec fn pair_hits(cs: u16, pair: u16) -> bool {
    pair & cs == pair && popcount(cs) > 2 && cs & !pair != 0
}

/// Every corner is white and unsolved, three or more of them hold exactly the
/// two candidates `pair`, and a corner with more than `pair` loses something.
pub open spec fn unique_found(s: HumanStr8ts, r1: usize, r2: usize, c1: usize, c2: usize, pair: u16) -> bool {
    let cm = corner_masks(s, r1, r2, c1, c2);
    let two = cm.filter(two_digits());
    &&& forall|k: int| 0 <= k < 4 ==> !s.is_black[(#[trigger] corners(r1, r2, c1, c2)[k]).0 as int][corners(r1, r2, c1, c2)[k].1 as int]
        && !s.solved[corners(r1, r2, c1, c2)[k].0 as int][corners(r1, r2, c1, c2)[k].1 as int]
    &&& two.contains(pair) && two.filter(same_mask(pair)).len() >= 3
    &&& exists|k: int| 0 <= k < 4 && #[trigger] pair_hits(cm[k], pair) && cm[k] & !pair != cm[k]
}

/// `b` is `a` with `pair` removed from each corner that holds it and more.
pub open spec fn unique_narrowed(a: HumanStr8ts, b: HumanStr8ts, r1: usize, r2: usize, c1: usize, c2: usize, pair: u16) -> bool {
    &&& b.solved == a.solved
    &&& b.numbers == a.numbers
    &&& forall|x: int, y: int| 0 <= x < 9 && 0 <= y < 9 ==> #[trigger] b.candidates[x][y] == if exists|k: int| 0 <= k < 4
        && corners(r1, r2, c1, c2)[k] == (x as usize, y as usize) && #[trigger] pair_hits(corner_masks(a, r1, r2, c1, c2)[k], pair) {
        a.candidates[x][y] & !pair
    } else {
        a.candidates[x][y]
    }
}

/// In one rectangle of unsolved white cells where three or more corners hold
/// the same two candidates, the other corners lose that pair.
fn unique_in_rectangle(s: &mut HumanStr8ts, r1: usize, r2: usize, c1: usize, c2: usize) -> (found: bool)
    requires old(s).wf(), r1 < 9, r2 < 9, c1 < 9, c2 < 9,
    ensures
        found ==> tracks(*old(s), *final(s), true),
        !found ==> *final(s) == *old(s),
        found <==> exists|pair: u16| #[trigger] unique_found(*old(s), r1, r2, c1, c2, pair),
        found ==> exists|pair: u16| #[trigger] unique_found(*old(s), r1, r2, c1, c2, pair) && unique_narrowed(
            *old(s),
            *final(s),
            r1,
            r2,
            c1,
            c2,
            pair,
        ),
{
    let ghost s0 = *s;
    let ghost cm = corner_masks(s0, r1, r2, c1, c2);
    let ghost two_p = two_digits();
    let mut cells: Vec<(usize, usize)> = Vec::new();
    if !rectangle(r1, r2, c1, c2, s, &mut cells) {
        proof {
            assert(cells@ == corners(r1, r2, c1, c2));
            assert forall|pair: u16| !#[trigger] unique_found(s0, r1, r2, c1, c2, pair) by {}
        }
        return false;
    }
    proof {
        assert(cells@ == corners(r1, r2, c1, c2));
    }
    let mut cand_sets: Vec<u16> = Vec::new();
    let mut k: usize = 0;
    while k < 4
        invariant
            *s == s0, k <= 4,
            cells@ == seq![(r1, c1), (r1, c2), (r2, c1), (r2, c2)],
            cells@ == corners(r1, r2, c1, c2),
            cm == corner_masks(s0, r1, r2, c1, c2),
            r1 < 9, r2 < 9, c1 < 9, c2 < 9,
            cand_sets@ == cm.take(k as int),
        decreases 4 - k,
    {
        let (r, c) = cells[k];
        proof {
            assert(cells@[k as int] == (r, c));
            assert(cm.take(k + 1) == cm.take(k as int).push(cm[k as int]));
        }
        cand_sets.push(s.candidates[r][c]);
        k = k + 1;
    }
    proof {
        assert(cm.take(4) == cm);
    }
    let mut two_candidate: Vec<u16> = Vec::new();
    let mut k: usize = 0;
    while k < 4
        invariant
            cand_sets@ == cm, cm.len() == 4, k <= 4,
            two_p == two_digits(),
            two_candidate@ == cm.take(k as int).filter(two_p),
        decreases 4 - k,
    {
        proof {
            assert(cm.take(k + 1) == cm.take(k as int).push(cm[k as int]));
            cm.take(k as int).lemma_filter_push(cm[k as int], two_p);
        }
        if count_digits(cand_sets[k]) == 2 {
            two_candidate.push(cand_sets[k]);
        }
        k = k + 1;
    }
    proof {
        assert(cm.take(4) == cm);
    }
    let ghost two = two_candidate@;
    if two_candidate.len() >= 3 {
        let mut p: usize = 0;
        while p < two_candidate.len()
            invariant
                s0 == *old(s), *s == s0, s0.wf(), p <= two.len(),
                cells@ == seq![(r1, c1), (r1, c2), (r2, c1), (r2, c2)],
                cells@ == corners(r1, r2, c1, c2),
                r1 < 9, r2 < 9, c1 < 9, c2 < 9,
                cand_sets@ == cm, cm == corner_masks(s0, r1, r2, c1, c2),
                two == two_candidate@, two == cm.filter(two_digits()),
                forall|k: int| 0 <= k < 4 ==> !s0.is_black[(#[trigger] corners(r1, r2, c1, c2)[k]).0 as int][corners(r1, r2, c1, c2)[k].1 as int]
                    && !s0.solved[corners(r1, r2, c1, c2)[k].0 as int][corners(r1, r2, c1, c2)[k].1 as int],
                forall|q: int| 0 <= q < p ==> !#[trigger] unique_found(s0, r1, r2, c1, c2, two[q]),
            decreases two.len() - p,
        {
            let pair = two_candidate[p];
            let ghost eqp = same_mask(pair);
            let mut first = true;
            let mut q: usize = 0;
            while q < p
                invariant
                    p < two.len(), q <= p, two == two_candidate@, pair == two[p as int],
                    first <==> forall|j: int| 0 <= j < q ==> two[j] != pair,
                decreases p - q,
            {
                if two_candidate[q] == pair {
                    first = false;
                }
                q = q + 1;
            }
            let mut count: usize = 0;
            let mut q: usize = 0;
            while q < two_candidate.len()
                invariant
                    q <= two.len(), two == two_candidate@, eqp == same_mask(pair),
                    count == two.take(q as int).filter(eqp).len(),
                decreases two.len() - q,
            {
                proof {
                    assert(two.take(q + 1) == two.take(q as int).push(two[q as int]));
                    two.take(q as int).lemma_filter_push(two[q as int], eqp);
                }
                if two_candidate[q] == pair {
                    count = count + 1;
                }
                q = q + 1;
            }
            proof {
                assert(two.take(two.len() as int) == two);
            }
            if !first {
                proof {
                    let j = choose|j: int| 0 <= j < p && !(two[j] != pair);
                    assert(!unique_found(s0, r1, r2, c1, c2, two[j]));
                }
            }
            if first && count >= 3 {
                let mut eff = false;
                proof {
                    lemma_tracks_refl(s0);
                }
                let mut i: usize = 0;
                while i < 4
                    invariant
                        s0 == *old(s), s0.wf(), i <= 4,
                        tracks(s0, *s, eff), s.is_black == s0.is_black,
                        forall|k: int| 0 <= k < 4 ==> !s0.is_black[(#[trigger] corners(r1, r2, c1, c2)[k]).0 as int][corners(r1, r2, c1, c2)[k].1 as int]
                            && !s0.solved[corners(r1, r2, c1, c2)[k].0 as int][corners(r1, r2, c1, c2)[k].1 as int],
                        cells@ == seq![(r1, c1), (r1, c2), (r2, c1), (r2, c2)],
                        cells@ == corners(r1, r2, c1, c2),
                        r1 < 9, r2 < 9, c1 < 9, c2 < 9,
                        cand_sets@ == cm, cm == corner_masks(s0, r1, r2, c1, c2),
                        s.solved == s0.solved,
                        s.numbers == s0.numbers,
                        forall|x: int, y: int| 0 <= x < 9 && 0 <= y < 9 ==> #[trigger] s.candidates[x][y] == if exists|k: int| 0 <= k < i
                            && corners(r1, r2, c1, c2)[k] == (x as usize, y as usize) && #[trigger] pair_hits(cm[k], pair) {
                            s0.candidates[x][y] & !pair
                        } else {
                            s0.candidates[x][y]
                        },
                    decreases 4 - i,
                {
                    let (r, c) = cells[i];
                    proof {
                        assert(cells@[i as int] == (r, c));
                    }
                    let cs = cand_sets[i];
                    let ghost before = *s;
                    if (pair & cs) == pair && count_digits(cs) > 2 {
                        let extras = cs & !pair;
                        if extras != 0 {
                            let e = narrow(s, r, c, !pair);
                            proof {
                                lemma_tracks_chain(s0, before, *s, eff, e);
                            }
                            if e {
                                eff = true;
                            }
                        }
                    }
                    proof {
                        lemma_clear_bit(s0.candidates[r as int][c as int], pair);
                        assert forall|x: int, y: int| 0 <= x < 9 && 0 <= y < 9 implies #[trigger] s.candidates[x][y] == if exists|k: int| 0 <= k < i + 1
                            && corners(r1, r2, c1, c2)[k] == (x as usize, y as usize) && #[trigger] pair_hits(cm[k], pair) {
                            s0.candidates[x][y] & !pair
                        } else {
                            s0.candidates[x][y]
                        } by {
                            if (x, y) == (r as int, c as int) {
                                assert(cm[i as int] == cs);
                                if pair_hits(cs, pair) {
                                    assert(corners(r1, r2, c1, c2)[i as int] == (x as usize, y as usize));
                                }
                            } else {
                                if exists|k: int| 0 <= k < i + 1 && corners(r1, r2, c1, c2)[k] == (x as usize, y as usize) && #[trigger] pair_hits(cm[k], pair) {
                                    let k = choose|k: int| 0 <= k < i + 1 && corners(r1, r2, c1, c2)[k] == (x as usize, y as usize) && #[trigger] pair_hits(cm[k], pair);
                                    assert(k < i);
                                }
                            }
                        }
                    }
                    i = i + 1;
                }
                proof {
                    assert(unique_narrowed(s0, *s, r1, r2, c1, c2, pair));
                    assert(two.contains(pair));
                    assert(two.filter(same_mask(pair)).len() >= 3);
                    if progress(s0, *s) {
                        let (x, y) = choose|x: int, y: int| 0 <= x < 9 && 0 <= y < 9 && #[trigger] moved(s0, *s, x, y);
                        let k = choose|k: int| 0 <= k < 4 && corners(r1, r2, c1, c2)[k] == (x as usize, y as usize) && #[trigger] pair_hits(cm[k], pair);
                        assert(pair_hits(cm[k], pair) && cm[k] & !pair != cm[k]);
                        assert(unique_found(s0, r1, r2, c1, c2, pair));
                    } else {
                        if unique_found(s0, r1, r2, c1, c2, pair) {
                            let k = choose|k: int| 0 <= k < 4 && #[trigger] pair_hits(cm[k], pair) && cm[k] & !pair != cm[k];
                            let (x, y) = corners(r1, r2, c1, c2)[k];
                            assert(moved(s0, *s, x as int, y as int));
                        }
                    }
                }
                if eff {
                    return true;
                }
                proof {
                    lemma_no_progress(s0, *s);
                }
            } else if first {
                proof {
                    assert(!unique_found(s0, r1, r2, c1, c2, pair));
                }
            }
            p = p + 1;
        }
    }
    proof {
        assert forall|pair: u16| !#[trigger] unique_found(s0, r1, r2, c1, c2, pair) by {
            if unique_found(s0, r1, r2, c1, c2, pair) {
                let q = choose|q: int| 0 <= q < two.len() && two[q] == pair;
                if two.len() < 3 {
                    assert(two.filter(same_mask(pair)).len() <= two.len()) by {
                        two.lemma_filter_len(same_mask(pair));
                    }
                }
                assert(!unique_found(s0, r1, r2, c1, c2, two[q]));
            }
        }
    }
    false
}

/// Some pair makes the rectangle a deadly pattern to break.
pub open spec fn rect_found(s: HumanStr8ts, r1: usize, r2: usize, c1: usize, c2: usize) -> bool {
    exists|pair: u16| #[trigger] unique_found(s, r1, r2, c1, c2, pair)
}

/// The unique-solution constraint: a deadly pattern of four corners with the
/// same two candidates cannot occur, so a corner with more keeps only its extras.
pub(crate) fn use_unique_solution_constraint(s: &mut HumanStr8ts) -> (res: i32)
    requires old(s).wf(),
    ensures
        strategy_done(*old(s), *final(s), res, H_UNIQUE),
        res == 0 <==> !exists|r1: usize, r2: usize, c1: usize, c2: usize| r1 < r2 < 9 && c1 < c2 < 9 && #[trigger] rect_found(
            *old(s),
            r1,
            r2,
            c1,
            c2,
        ),
        res != 0 ==> exists|r1: usize, r2: usize, c1: usize, c2: usize, pair: u16| r1 < r2 < 9 && c1 < c2 < 9 && #[trigger] unique_found(
            *old(s),
            r1,
            r2,
            c1,
            c2,
            pair,
        ) && unique_narrowed(*old(s), *final(s), r1, r2, c1, c2, pair),
{
    let ghost s0 = *s;
    proof {
        lemma_tracks_refl(s0);
    }
    let mut r1: usize = 0;
    while r1 < 8
        invariant
            s0 == *old(s), *s == s0, s0.wf(), r1 <= 8,
            forall|a: usize, b: usize, c: usize, d: usize| a < r1 && a < b < 9 && c < d < 9 ==> !#[trigger] rect_found(s0, a, b, c, d),
        decreases 8 - r1,
    {
        let mut r2: usize = r1 + 1;
        while r2 < 9
            invariant
                s0 == *old(s), *s == s0, s0.wf(), r1 < 8, r1 < r2 <= 9,
                forall|a: usize, b: usize, c: usize, d: usize| a < r1 && a < b < 9 && c < d < 9 ==> !#[trigger] rect_found(s0, a, b, c, d),
                forall|b: usize, c: usize, d: usize| r1 < b < r2 && c < d < 9 ==> !#[trigger] rect_found(s0, r1, b, c, d),
            decreases 9 - r2,
        {
            let mut c1: usize = 0;
            while c1 < 8
                invariant
                    s0 == *old(s), *s == s0, s0.wf(), r1 < 8, r1 < r2 < 9, c1 <= 8,
                    forall|a: usize, b: usize, c: usize, d: usize| a < r1 && a < b < 9 && c < d < 9 ==> !#[trigger] rect_found(s0, a, b, c, d),
                    forall|b: usize, c: usize, d: usize| r1 < b < r2 && c < d < 9 ==> !#[trigger] rect_found(s0, r1, b, c, d),
                    forall|c: usize, d: usize| c < c1 && c < d < 9 ==> !#[trigger] rect_found(s0, r1, r2, c, d),
                decreases 8 - c1,
            {
                let mut c2: usize = c1 + 1;
                while c2 < 9
                    invariant
                        s0 == *old(s), *s == s0, s0.wf(), r1 < 8, r1 < r2 < 9, c1 < 8, c1 < c2 <= 9,
                        forall|a: usize, b: usize, c: usize, d: usize| a < r1 && a < b < 9 && c < d < 9 ==> !#[trigger] rect_found(s0, a, b, c, d),
                        forall|b: usize, c: usize, d: usize| r1 < b < r2 && c < d < 9 ==> !#[trigger] rect_found(s0, r1, b, c, d),
                        forall|c: usize, d: usize| c < c1 && c < d < 9 ==> !#[trigger] rect_found(s0, r1, r2, c, d),
                        forall|d: usize| c1 < d < c2 ==> !#[trigger] rect_found(s0, r1, r2, c1, d),
                    decreases 9 - c2,
                {
                    if unique_in_rectangle(s, r1, r2, c1, c2) {
                        proof {
                            lemma_strategy_done(s0, *s, true, H_UNIQUE);
                            let pair = choose|pair: u16| #[trigger] unique_found(s0, r1, r2, c1, c2, pair) && unique_narrowed(s0, *s, r1, r2, c1, c2, pair);
                            assert(rect_found(s0, r1, r2, c1, c2));
                        }
                        return H_UNIQUE;
                    }
                    c2 = c2 + 1;
                }
                c1 = c1 + 1;
            }
            r2 = r2 + 1;
        }
        r1 = r1 + 1;
    }
    proof {
        lemma_strategy_done(s0, *s, false, H_UNIQUE);
    }
    0
}

// ---------------------------------------------------------------------------
// Y-wing
// ---------------------------------------------------------------------------

/// The unsolved white cells of row `r` and then of column `c`, but `(r, c)`.
pub open spec fn open_neighbours(s: HumanStr8ts, r: usize, c: usize) -> Seq<(usize, usize)> {
    line_seq(r as int, true).filter(off_column(s, c)) + line_seq(c as int, false).filter(off_row(s, r))
}

/// An unsolved white cell outside column `c`.
pub open spec fn off_column(s: HumanStr8ts, c: usize) -> spec_fn((usize, usize)) -> bool {
    |q: (usize, usize)| q.1 != c && !s.is_black[q.0 as int][q.1 as int] && !s.solved[q.0 as int][q.1 as int]
}

/// An unsolved white cell outside row `r`.
pub open spec fn off_row(s: HumanStr8ts, r: usize) -> spec_fn((usize, usize)) -> bool {
    |q: (usize, usize)| q.0 != r && !s.is_black[q.0 as int][q.1 as int] && !s.solved[q.0 as int][q.1 as int]
}

/// The unsolved white cells that share a row or a column with `(r, c)`:
/// first those of the row, then those of the column.
fn neighbours(s: &HumanStr8ts, r: usize, c: usize) -> (out: Vec<(usize, usize)>)
    requires r < 9, c < 9,
    ensures
        on_board(out@),
        out@ == open_neighbours(*s, r, c),
{
    let ghost rows = line_seq(r as int, true);
    let ghost cols = line_seq(c as int, false);
    let ghost pr = off_column(*s, c);
    let ghost pc = off_row(*s, r);
    let mut out: Vec<(usize, usize)> = Vec::new();
    for cc in 0..N
        invariant
            r < 9, c < 9, on_board(out@),
            rows == line_seq(r as int, true),
            pr == off_column(*s, c),
            out@ == rows.take(cc as int).filter(pr),
    {
        proof {
            assert(rows.take(cc + 1).drop_last() == rows.take(cc as int));
            assert(rows.take(cc + 1).last() == (r, cc));
            reveal_with_fuel(Seq::filter, 1);
        }
        if cc != c && !s.is_black[r][cc] && !s.solved[r][cc] {
            out.push((r, cc));
        }
    }
    proof {
        assert(rows.take(9) == rows);
    }
    let ghost first = out@;
    for rr in 0..N
        invariant
            r < 9, c < 9, on_board(out@),
            cols == line_seq(c as int, false),
            pc == off_row(*s, r),
            out@ == first + cols.take(rr as int).filter(pc),
    {
        proof {
            assert(cols.take(rr + 1).drop_last() == cols.take(rr as int));
            assert(cols.take(rr + 1).last() == (rr, c));
            reveal_with_fuel(Seq::filter, 1);
        }
        if rr != r && !s.is_black[rr][c] && !s.solved[rr][c] {
            out.push((rr, c));
            proof {
                assert(out@ == first + cols.take(rr + 1).filter(pc));
            }
        }
    }
    proof {
        assert(cols.take(9) == cols);
    }
    out
}

/// The unsolved white cell `(x, y)` sees both wings (shares a row or a
/// column with each) and is none of the three cells of the Y-wing.
pub open spec fn sees_wings(s: HumanStr8ts, pivot: (usize, usize), w1: (usize, usize), w2: (usize, usize), x: int, y: int) -> bool {
    &&& !s.is_black[x][y] && !s.solved[x][y]
    &&& x == w1.0 || y == w1.1
    &&& x == w2.0 || y == w2.1
    &&& (x, y) != (pivot.0 as int, pivot.1 as int)
    &&& (x, y) != (w1.0 as int, w1.1 as int)
    &&& (x, y) != (w2.0 as int, w2.1 as int)
}

/// Removes `z` from the unsolved cells that both wings see, other than the
/// pivot and the wings themselves.
fn ywing_strike(s: &mut HumanStr8ts, pivot: (usize, usize), w1: (usize, usize), w2: (usize, usize), z: u8) -> (eff: bool)
    requires old(s).wf(), is_digit(z), w1.0 < 9, w1.1 < 9, w2.0 < 9, w2.1 < 9,
    ensures
        tracks(*old(s), *final(s), eff),
        final(s).solved == old(s).solved,
        final(s).numbers == old(s).numbers,
        forall|x: int, y: int| 0 <= x < 9 && 0 <= y < 9 ==> #[trigger] final(s).candidates[x][y] == if sees_wings(*old(s), pivot, w1, w2, x, y) {
            old(s).candidates[x][y] & !bit_of(z)
        } else {
            old(s).candidates[x][y]
        },
{
    let ghost s0 = *s;
    let mut eff = false;
    proof {
        lemma_tracks_refl(s0);
    }
    let mut rr: usize = 0;
    while rr < N
        invariant
            s0 == *old(s), s0.wf(), tracks(s0, *s, eff), is_digit(z), rr <= 9,
            s.solved == s0.solved,
            s.numbers == s0.numbers,
            s.is_black == s0.is_black,
            forall|x: int, y: int| 0 <= x < 9 && 0 <= y < 9 ==> #[trigger] s.candidates[x][y] == if x < rr && sees_wings(s0, pivot, w1, w2, x, y) {
                s0.candidates[x][y] & !bit_of(z)
            } else {
                s0.candidates[x][y]
            },
        decreases 9 - rr,
    {
        let mut cc: usize = 0;
        while cc < N
            invariant
                s0 == *old(s), s0.wf(), tracks(s0, *s, eff), is_digit(z), rr < 9, cc <= 9,
                s.solved == s0.solved,
                s.numbers == s0.numbers,
                s.is_black == s0.is_black,
                forall|x: int, y: int| 0 <= x < 9 && 0 <= y < 9 ==> #[trigger] s.candidates[x][y] == if (x < rr || (x == rr && y < cc))
                    && sees_wings(s0, pivot, w1, w2, x, y) {
                    s0.candidates[x][y] & !bit_of(z)
                } else {
                    s0.candidates[x][y]
                },
            decreases 9 - cc,
        {
            let seen1 = !s.is_black[rr][cc] && (rr == w1.0 || cc == w1.1);
            let seen2 = !s.is_black[rr][cc] && (rr == w2.0 || cc == w2.1);
            let is_pivot = rr == pivot.0 && cc == pivot.1;
            let is_w1 = rr == w1.0 && cc == w1.1;
            let is_w2 = rr == w2.0 && cc == w2.1;
            let ghost before = *s;
            if seen1 && seen2 && !is_pivot && !is_w1 && !is_w2 && !s.solved[rr][cc] && mask_has(s.candidates[rr][cc], z) {
                rem_candidate(s, rr, cc, z);
                proof {
                    lemma_tracks_chain(s0, before, *s, eff, true);
                }
                eff = true;
            }
            proof {
                lemma_clear_bit(s0.candidates[rr as int][cc as int], bit_of(z));
            }
            cc = cc + 1;
        }
        rr = rr + 1;
    }
    eff
}

/// With the unsolved white pivot `(r, c)` holding two candidates `x < y`,
/// `w1` holds two candidates, one of them `x` or `y` and the other `z`, and
/// `w2`, another cell, holds exactly the pivot's other digit and `z`.
pub open spec fn ywing_wings(s: HumanStr8ts, r: usize, c: usize, w1: (usize, usize), w2: (usize, usize), z: u8) -> bool {
    let pc = s.candidates[r as int][c as int];
    let x = digits_of(pc)[0];
    let y = digits_of(pc)[1];
    let c1 = s.candidates[w1.0 as int][w1.1 as int];
    let common = c1 & (bit_of(x) | bit_of(y));
    let other = if digits_of(common)[0] == x { y } else { x };
    &&& !s.is_black[r as int][c as int] && !s.solved[r as int][c as int] && popcount(pc) == 2
    &&& popcount(c1) == 2 && popcount(common) == 1 && popcount(c1 & !common) == 1
    &&& z == digits_of(c1 & !common)[0]
    &&& w2 != w1
    &&& s.candidates[w2.0 as int][w2.1 as int] == bit_of(other) | bit_of(z)
}

/// Some cell that sees both wings still has `z`.
pub open spec fn ywing_bites(s: HumanStr8ts, pivot: (usize, usize), w1: (usize, usize), w2: (usize, usize), z: u8) -> bool {
    exists|x: int, y: int| 0 <= x < 9 && 0 <= y < 9 && #[trigger] sees_wings(s, pivot, w1, w2, x, y) && has_digit(s.candidates[x][y], z)
}

/// A Y-wing on the pivot `(r, c)` with wings among its open neighbours that
/// removes something.
pub open spec fn ywing_found(s: HumanStr8ts, r: usize, c: usize, w1: (usize, usize), w2: (usize, usize), z: u8) -> bool {
    &&& open_neighbours(s, r, c).contains(w1)
    &&& open_neighbours(s, r, c).contains(w2)
    &&& ywing_wings(s, r, c, w1, w2, z)
    &&& ywing_bites(s, (r, c), w1, w2, z)
}

/// `b` is `a` with `z` removed from every unsolved white cell that sees both wings.
pub open spec fn ywing_struck(a: HumanStr8ts, b: HumanStr8ts, pivot: (usize, usize), w1: (usize, usize), w2: (usize, usize), z: u8) -> bool {
    &&& b.solved == a.solved
    &&& b.numbers == a.numbers
    &&& forall|x: int, y: int| 0 <= x < 9 && 0 <= y < 9 ==> #[trigger] b.candidates[x][y] == if sees_wings(a, pivot, w1, w2, x, y) {
        a.candidates[x][y] & !bit_of(z)
    } else {
        a.candidates[x][y]
    }
}

/// Striking `z` changes the board exactly when some cell that sees both
/// wings has it.
proof fn lemma_strike_bites(a: HumanStr8ts, b: HumanStr8ts, pivot: (usize, usize), w1: (usize, usize), w2: (usize, usize), z: u8)
    requires is_digit(z), ywing_struck(a, b, pivot, w1, w2, z),
    ensures progress(a, b) <==> ywing_bites(a, pivot, w1, w2, z),
{
    if progress(a, b) {
        let (x, y) = choose|x: int, y: int| 0 <= x < 9 && 0 <= y < 9 && #[trigger] moved(a, b, x, y);
        assert(sees_wings(a, pivot, w1, w2, x, y));
        if !has_digit(a.candidates[x][y], z) {
            lemma_clear_bit(a.candidates[x][y], bit_of(z));
        }
    }
    if ywing_bites(a, pivot, w1, w2, z) {
        let (x, y) = choose|x: int, y: int| 0 <= x < 9 && 0 <= y < 9 && #[trigger] sees_wings(a, pivot, w1, w2, x, y) && has_digit(a.candidates[x][y], z);
        lemma_has_and_not(a.candidates[x][y], bit_of(z), z);
        lemma_bit_has(z, z);
        assert(moved(a, b, x, y));
    }
}

/// A Y-wing pivoting on `(r, c)`, if that cell has exactly two candidates.
fn ywing_at(s: &mut HumanStr8ts, r: usize, c: usize) -> (found: bool)
    requires old(s).wf(), r < 9, c < 9,
    ensures
        found ==> tracks(*old(s), *final(s), true),
        !found ==> *final(s) == *old(s),
        found <==> exists|w1: (usize, usize), w2: (usize, usize), z: u8| #[trigger] ywing_found(*old(s), r, c, w1, w2, z),
        found ==> exists|w1: (usize, usize), w2: (usize, usize), z: u8| #[trigger] ywing_found(*old(s), r, c, w1, w2, z)
            && ywing_struck(*old(s), *final(s), (r, c), w1, w2, z),
{
    let ghost s0 = *s;
    if s.is_black[r][c] || s.solved[r][c] || count_digits(s.candidates[r][c]) != 2 {
        proof {
            assert forall|w1: (usize, usize), w2: (usize, usize), z: u8| !#[trigger] ywing_found(s0, r, c, w1, w2, z) by {}
        }
        return false;
    }
    let base = mask_values(s.candidates[r][c]);
    proof {
        lemma_digits_of(s.candidates[r as int][c as int]);
    }
    let x = base[0];
    let y = base[1];
    let nb = neighbours(s, r, c);
    let mut i: usize = 0;
    while i < nb.len()
        invariant
            s0 == *old(s), *s == s0, s0.wf(), r < 9, c < 9,
            is_digit(x), is_digit(y), i <= nb@.len(),
            x == digits_of(s0.candidates[r as int][c as int])[0],
            y == digits_of(s0.candidates[r as int][c as int])[1],
            !s0.is_black[r as int][c as int] && !s0.solved[r as int][c as int] && popcount(s0.candidates[r as int][c as int]) == 2,
            on_board(nb@),
            nb@ == open_neighbours(s0, r, c),
            forall|k: int, w2: (usize, usize), z: u8| 0 <= k < i ==> !#[trigger] ywing_found(s0, r, c, nb@[k], w2, z),
        decreases nb@.len() - i,
    {
        let (r1, c1) = nb[i];
        proof {
            assert(nb@[i as int] == (r1, c1));
        }
        let cands1 = s.candidates[r1][c1];
        let mut done = true;
        if count_digits(cands1) == 2 {
            let base_mask = bit(x) | bit(y);
            let common1 = cands1 & base_mask;
            if count_digits(common1) == 1 {
                let shared = mask_single(common1);
                let zed = mask_single(cands1 & !common1);
                if let (Some(shared1), Some(z)) = (shared, zed) {
                    done = false;
                    let other_base = if shared1 == x { y } else { x };
                    let target_wing2 = bit(other_base) | bit(z);
                    let mut j: usize = 0;
                    while j < nb.len()
                        invariant
                            s0 == *old(s), *s == s0, s0.wf(), r < 9, c < 9,
                            is_digit(z), r1 < 9, c1 < 9, j <= nb@.len(), i < nb@.len(),
                            nb@[i as int] == (r1, c1),
                            on_board(nb@),
                            nb@ == open_neighbours(s0, r, c),
                            forall|w2: (usize, usize), z2: u8| ywing_wings(s0, r, c, (r1, c1), w2, z2) <==> z2 == z && w2 != (r1, c1)
                                && s0.candidates[w2.0 as int][w2.1 as int] == target_wing2,
                            forall|k: int, z2: u8| 0 <= k < j ==> !#[trigger] ywing_found(s0, r, c, (r1, c1), nb@[k], z2),
                        decreases nb@.len() - j,
                    {
                        let (r2, c2) = nb[j];
                        proof {
                            assert(nb@[j as int] == (r2, c2));
                        }
                        if !(r2 == r1 && c2 == c1) && s.candidates[r2][c2] == target_wing2 {
                            let e = ywing_strike(s, (r, c), (r1, c1), (r2, c2), z);
                            proof {
                                lemma_strike_bites(s0, *s, (r, c), (r1, c1), (r2, c2), z);
                                assert(ywing_wings(s0, r, c, (r1, c1), (r2, c2), z));
                            }
                            if e {
                                proof {
                                    assert(open_neighbours(s0, r, c).contains((r1, c1)));
                                    assert(open_neighbours(s0, r, c).contains((r2, c2)));
                                    assert(ywing_found(s0, r, c, (r1, c1), (r2, c2), z));
                                }
                                return true;
                            }
                            proof {
                                lemma_no_progress(s0, *s);
                            }
                        }
                        j = j + 1;
                    }
                    proof {
                        assert forall|w2: (usize, usize), z2: u8| !#[trigger] ywing_found(s0, r, c, nb@[i as int], w2, z2) by {
                            if ywing_found(s0, r, c, nb@[i as int], w2, z2) {
                                let k = choose|k: int| 0 <= k < nb@.len() && nb@[k] == w2;
                                assert(!ywing_found(s0, r, c, (r1, c1), nb@[k], z2));
                            }
                        }
                    }
                }
            }
        }
        proof {
            if done {
                assert forall|w2: (usize, usize), z2: u8| !#[trigger] ywing_found(s0, r, c, nb@[i as int], w2, z2) by {
                    assert(!ywing_wings(s0, r, c, (r1, c1), w2, z2));
                }
            }
        }
        i = i + 1;
    }
    proof {
        assert forall|w1: (usize, usize), w2: (usize, usize), z: u8| !#[trigger] ywing_found(s0, r, c, w1, w2, z) by {
            if ywing_found(s0, r, c, w1, w2, z) {
                let k = choose|k: int| 0 <= k < nb@.len() && nb@[k] == w1;
                assert(!ywing_found(s0, r, c, nb@[k], w2, z));
            }
        }
    }
    false
}

/// Y-wing: a two-candidate pivot `xy` and wings `xz`, `yz` it sees; `z`
/// leaves every cell both wings see.
pub(crate) fn use_ywing(s: &mut HumanStr8ts) -> (res: i32)
    requires old(s).wf(),
    ensures
        strategy_done(*old(s), *final(s), res, H_YWING),
        res == 0 <==> !exists|r: usize, c: usize, w1: (usize, usize), w2: (usize, usize), z: u8| r < 9 && c < 9
            && #[trigger] ywing_found(*old(s), r, c, w1, w2, z),
        res != 0 ==> exists|r: usize, c: usize, w1: (usize, usize), w2: (usize, usize), z: u8| r < 9 && c < 9
            && #[trigger] ywing_found(*old(s), r, c, w1, w2, z) && ywing_struck(*old(s), *final(s), (r, c), w1, w2, z),
{
    let ghost s0 = *s;
    proof {
        lemma_tracks_refl(s0);
    }
    let mut r: usize = 0;
    while r < N
        invariant
            s0 == *old(s), *s == s0, s0.wf(), r <= 9,
            forall|rr: usize, cc: usize, w1: (usize, usize), w2: (usize, usize), z: u8| rr < r && cc < 9 ==> !#[trigger] ywing_found(s0, rr, cc, w1, w2, z),
        decreases 9 - r,
    {
        let mut c: usize = 0;
        while c < N
            invariant
                s0 == *old(s), *s == s0, s0.wf(), r < 9, c <= 9,
                forall|rr: usize, cc: usize, w1: (usize, usize), w2: (usize, usize), z: u8| rr < r && cc < 9 ==> !#[trigger] ywing_found(s0, rr, cc, w1, w2, z),
                forall|cc: usize, w1: (usize, usize), w2: (usize, usize), z: u8| cc < c ==> !#[trigger] ywing_found(s0, r, cc, w1, w2, z),
            decreases 9 - c,
        {
            if ywing_at(s, r, c) {
                proof {
                    lemma_strategy_done(s0, *s, true, H_YWING);
                }
                return H_YWING;
            }
            c = c + 1;
        }
        r = r + 1;
    }
    proof {
        lemma_strategy_done(s0, *s, false, H_YWING);
    }
    0
}

} // verus!
