//! Solving and classifying boards with a SAT solver (BatSat through RustSAT).
use vstd::prelude::*;
use crate::backtrack::{completes, consistent, span_ok, by_rows, by_cols, run_lo, run_hi, absdiff};
use crate::board::{SimpleStr8ts, N};
use rustsat::solvers::Solve;

verus! {

// ---------------------------------------------------------------------------
// Clauses and assignments
// ---------------------------------------------------------------------------

pub open spec fn lit_var(l: int) -> int {
    if l < 0 {
        -l
    } else {
        l
    }
}

/// The literal `l` (DIMACS style: `v` or `-v`) is true under `m`.
pub open spec fn lit_holds(m: Map<int, bool>, l: int) -> bool {
    m.contains_key(lit_var(l)) && m[lit_var(l)] == (l > 0)
}

pub open spec fn clause_holds(m: Map<int, bool>, c: Seq<int>) -> bool {
    exists|i: int| 0 <= i < c.len() && #[trigger] lit_holds(m, c[i])
}

/// `m` satisfies every clause of `cnf`.
pub open spec fn satisfies(m: Map<int, bool>, cnf: Seq<Seq<int>>) -> bool {
    forall|j: int| 0 <= j < cnf.len() ==> #[trigger] clause_holds(m, cnf[j])
}

/// `m` gives a value to every variable that occurs in `cnf`.
pub open spec fn covers(m: Map<int, bool>, cnf: Seq<Seq<int>>) -> bool {
    forall|j: int, i: int| 0 <= j < cnf.len() && 0 <= i < cnf[j].len() ==> m.contains_key(lit_var(#[trigger] cnf[j][i]))
}

pub open spec fn clause_ok(c: Seq<int>) -> bool {
    forall|i: int| 0 <= i < c.len() ==> #[trigger] c[i] != 0 && i32::MIN < c[i] <= i32::MAX
}

pub open spec fn clause_view(c: Vec<i32>) -> Seq<int> {
    c@.map_values(|l: i32| l as int)
}

pub open spec fn cnf_view(cnf: Vec<Vec<i32>>) -> Seq<Seq<int>> {
    cnf@.map_values(|c: Vec<i32>| clause_view(c))
}

// ---------------------------------------------------------------------------
// The solver
// ---------------------------------------------------------------------------

/// A BatSat solver (through RustSAT) with the clauses added so far, held in a
/// private field: RustSAT's `Solver<Cb>` is generic over a trait of `batsat`,
/// and its instance `BasicSolver` cannot be declared on its own, so the
/// struct is opaque and known through `solver_clauses` and `solver_model`.
#[verifier::external_body]
pub struct SatSolver {
    inner: rustsat_batsat::BasicSolver,
}

/// The clauses added to the solver, in DIMACS literals.
pub uninterp spec fn solver_clauses(s: SatSolver) -> Seq<Seq<int>>;

/// The assignment that the last `solve` found, while the solver is in its
/// satisfied state (`None` otherwise).
pub uninterp spec fn solver_model(s: SatSolver) -> Option<Map<int, bool>>;

/// Calls `BasicSolver::default`: a solver without clauses.
#[verifier::external_body]
fn solver_new() -> (s: SatSolver)
    ensures
        solver_clauses(s) == Seq::<Seq<int>>::empty(),
        solver_model(s) is None,
{
    SatSolver { inner: rustsat_batsat::BasicSolver::default() }
}

/// Calls `Solve::add_clause` with the literals `lits` (each turned into a
/// `Lit` by `Lit::from_ipasir`). BatSat's `add_clause_ref` always answers
/// `Ok` and puts the solver back into its input state.
#[verifier::external_body]
fn solver_add_clause(s: &mut SatSolver, lits: &Vec<i32>)
    requires clause_ok(clause_view(*lits)),
    ensures
        solver_clauses(*final(s)) == solver_clauses(*old(s)).push(clause_view(*lits)),
        solver_model(*final(s)) is None,
{
    let lits: Vec<rustsat::types::Lit> =
        lits.iter().map(|&v| rustsat::types::Lit::from_ipasir(v).expect("nonzero literal")).collect();
    s.inner.add_clause(rustsat::types::Clause::from(lits.as_slice())).expect("BatSat accepts every clause");
}

/// Calls `Solve::solve`. `true` stands for `SolverResult::Sat`: the solver
/// then holds a model that satisfies all clauses and gives a value to every
/// variable they mention. `false` stands for `SolverResult::Unsat`: no
/// assignment satisfies the clauses. BatSat's default solver sets no budget
/// and no stop callback, so its search never ends `Interrupted`.
#[verifier::external_body]
fn solver_solve(s: &mut SatSolver) -> (sat: bool)
    ensures
        solver_clauses(*final(s)) == solver_clauses(*old(s)),
        sat ==> (solver_model(*final(s)) matches Some(m) && satisfies(m, solver_clauses(*final(s))) && covers(
            m,
            solver_clauses(*final(s)),
        )),
        !sat ==> solver_model(*final(s)) is None,
        !sat ==> forall|m: Map<int, bool>| !satisfies(m, solver_clauses(*final(s))),
{
    match s.inner.solve().expect("BatSat's solve does not fail") {
        rustsat::solvers::SolverResult::Sat => true,
        rustsat::solvers::SolverResult::Unsat => false,
        rustsat::solvers::SolverResult::Interrupted => false,
    }
}

/// Calls `Solve::lit_val` on the positive literal of variable `var` in the
/// satisfied state, for a variable that the model covers: its value there.
#[verifier::external_body]
fn solver_value(s: &SatSolver, var: i32) -> (r: Option<bool>)
    requires
        solver_model(*s) is Some,
        var > 0,
        solver_model(*s)->0.contains_key(var as int),
    ensures
        r == Some(solver_model(*s)->0[var as int]),
{
    let lit = rustsat::types::Lit::from_ipasir(var).expect("positive literal");
    match s.inner.lit_val(lit).expect("the solver is in its satisfied state") {
        rustsat::types::TernaryVal::True => Some(true),
        rustsat::types::TernaryVal::False => Some(false),
        rustsat::types::TernaryVal::DontCare => None,
    }
}

} // verus!

verus! {

// ---------------------------------------------------------------------------
// The encoding
// ---------------------------------------------------------------------------

/// The variable "cell `(x, y)` holds digit `n`".
pub open spec fn var_of(x: int, y: int, n: int) -> int {
    x * 81 + y * 9 + n
}

/// Every cell holds at most a 9.
pub open spec fn digits_ok(numbers: [[u8; N]; N]) -> bool {
    forall|x: int, y: int| 0 <= x < 9 && 0 <= y < 9 ==> #[trigger] numbers[x][y] <= 9
}

/// The assignment that a filled board `t` describes.
pub open spec fn board_model(t: [[u8; N]; N]) -> Map<int, bool> {
    Map::new(
        |v: int| 1 <= v <= 729,
        |v: int| t[(v - 1) / 81][((v - 1) % 81) / 9] as int == (v - 1) % 9 + 1,
    )
}

/// Every solution of the board satisfies the clause.
#[verifier::opaque]
pub open spec fn sound(numbers: [[u8; N]; N], black: [[bool; N]; N], c: Seq<int>) -> bool {
    forall|t: [[u8; N]; N]| #[trigger] completes(numbers, black, t) ==> clause_holds(board_model(t), c)
}

pub open spec fn all_sound(numbers: [[u8; N]; N], black: [[bool; N]; N], cnf: Seq<Seq<int>>) -> bool {
    forall|j: int| 0 <= j < cnf.len() ==> #[trigger] sound(numbers, black, cnf[j])
}

pub open spec fn at_least_one(x: int, y: int) -> Seq<int> {
    Seq::new(9, |k: int| var_of(x, y, k + 1))
}

pub open spec fn neg2(a: int, b: int) -> Seq<int> {
    seq![-a, -b]
}

/// The clauses about single cells are there: given digits, empty black
/// cells, and exactly one digit in every other cell.
pub open spec fn cells_present(cnf: Seq<Seq<int>>, numbers: [[u8; N]; N], black: [[bool; N]; N]) -> bool {
    &&& forall|x: int, y: int|
        0 <= x < 9 && 0 <= y < 9 && #[trigger] numbers[x][y] != 0 ==> cnf.contains(seq![var_of(x, y, numbers[x][y] as int)])
    &&& forall|x: int, y: int, n: int|
        0 <= x < 9 && 0 <= y < 9 && 1 <= n <= 9 && black[x][y] && numbers[x][y] == 0 ==> cnf.contains(
            seq![-var_of(x, y, n)],
        ) && #[trigger] var_of(x, y, n) == var_of(x, y, n)
    &&& forall|x: int, y: int|
        0 <= x < 9 && 0 <= y < 9 && !(black[x][y] && numbers[x][y] == 0) ==> cnf.contains(#[trigger] at_least_one(x, y))
    &&& forall|x: int, y: int, n1: int, n2: int|
        0 <= x < 9 && 0 <= y < 9 && 1 <= n1 < n2 <= 9 && !(black[x][y] && numbers[x][y] == 0) ==> cnf.contains(
            #[trigger] neg2(var_of(x, y, n1), var_of(x, y, n2)),
        )
}

/// No digit twice in a row or in a column.
pub open spec fn lines_present(cnf: Seq<Seq<int>>) -> bool {
    &&& forall|x: int, y1: int, y2: int, n: int|
        0 <= x < 9 && 0 <= y1 < y2 < 9 && 1 <= n <= 9 ==> cnf.contains(
            #[trigger] neg2(var_of(x, y1, n), var_of(x, y2, n)),
        )
    &&& forall|y: int, x1: int, x2: int, n: int|
        0 <= y < 9 && 0 <= x1 < x2 < 9 && 1 <= n <= 9 ==> cnf.contains(
            #[trigger] neg2(var_of(x1, y, n), var_of(x2, y, n)),
        )
}

pub open spec fn vars_ok(cnf: Seq<Seq<int>>) -> bool {
    forall|j: int| 0 <= j < cnf.len() ==> clause_ok(#[trigger] cnf[j])
}

proof fn lemma_var_decode(x: int, y: int, n: int)
    requires 0 <= x < 9, 0 <= y < 9, 1 <= n <= 9,
    ensures
        1 <= var_of(x, y, n) <= 729,
        (var_of(x, y, n) - 1) / 81 == x,
        ((var_of(x, y, n) - 1) % 81) / 9 == y,
        (var_of(x, y, n) - 1) % 9 + 1 == n,
{
    assert((x * 81 + y * 9 + n - 1) / 81 == x && ((x * 81 + y * 9 + n - 1) % 81) / 9 == y && (x * 81 + y * 9 + n - 1) % 9 + 1 == n) by (nonlinear_arith)
        requires 0 <= x < 9, 0 <= y < 9, 1 <= n <= 9;
}

/// Under the assignment of a board, "`(x, y)` holds `n`" is true exactly when it does.
proof fn lemma_board_model(t: [[u8; N]; N], x: int, y: int, n: int)
    requires 0 <= x < 9, 0 <= y < 9, 1 <= n <= 9,
    ensures
        lit_holds(board_model(t), var_of(x, y, n)) <==> t[x][y] as int == n,
        lit_holds(board_model(t), -var_of(x, y, n)) <==> t[x][y] as int != n,
{
    lemma_var_decode(x, y, n);
}

// ---------------------------------------------------------------------------
// Building the clauses
// ---------------------------------------------------------------------------

fn var_id(x: usize, y: usize, n: usize) -> (v: i32)
    requires x < 9, y < 9, n <= 255,
    ensures v == var_of(x as int, y as int, n as int), 0 <= v < 1000,
{
    (x * 81 + y * 9 + n) as i32
}

fn push_unit(cnf: &mut Vec<Vec<i32>>, a: i32)
    ensures cnf_view(*final(cnf)) == cnf_view(*old(cnf)).push(seq![a as int]),
{
    let mut c: Vec<i32> = Vec::new();
    c.push(a);
    proof {
        assert(clause_view(c) =~= seq![a as int]);
    }
    cnf.push(c);
    proof {
        assert(cnf_view(*cnf) =~= cnf_view(*old(cnf)).push(seq![a as int]));
    }
}

fn push_pair(cnf: &mut Vec<Vec<i32>>, a: i32, b: i32)
    requires a > 0, b > 0,
    ensures cnf_view(*final(cnf)) == cnf_view(*old(cnf)).push(neg2(a as int, b as int)),
{
    let mut c: Vec<i32> = Vec::new();
    c.push(-a);
    c.push(-b);
    proof {
        assert(clause_view(c) =~= neg2(a as int, b as int));
    }
    cnf.push(c);
    proof {
        assert(cnf_view(*cnf) =~= cnf_view(*old(cnf)).push(neg2(a as int, b as int)));
    }
}

} // verus!

verus! {

pub open spec fn grows(a: Seq<Seq<int>>, b: Seq<Seq<int>>) -> bool {
    &&& a.len() <= b.len()
    &&& forall|j: int| 0 <= j < a.len() ==> #[trigger] b[j] == a[j]
}

proof fn lemma_grows_contains(a: Seq<Seq<int>>, b: Seq<Seq<int>>, c: Seq<int>)
    requires grows(a, b), a.contains(c),
    ensures b.contains(c),
{
    let j = choose|j: int| 0 <= j < a.len() && a[j] == c;
    assert(b[j] == c);
}

proof fn lemma_grows_trans(a: Seq<Seq<int>>, b: Seq<Seq<int>>, c: Seq<Seq<int>>)
    requires grows(a, b), grows(b, c),
    ensures grows(a, c),
{
}

/// The invariant of the clause list while it is built.
pub open spec fn cnf_ok(cnf: Seq<Seq<int>>, numbers: [[u8; N]; N], black: [[bool; N]; N]) -> bool {
    &&& vars_ok(cnf)
    &&& digits_ok(numbers) ==> all_sound(numbers, black, cnf)
}

proof fn lemma_push_ok(cnf: Seq<Seq<int>>, c: Seq<int>, numbers: [[u8; N]; N], black: [[bool; N]; N])
    requires
        cnf_ok(cnf, numbers, black),
        clause_ok(c),
        digits_ok(numbers) ==> sound(numbers, black, c),
    ensures
        cnf_ok(cnf.push(c), numbers, black),
        grows(cnf, cnf.push(c)),
        cnf.push(c).contains(c),
{
    assert(cnf.push(c)[cnf.len() as int] == c);
}

// Soundness of each kind of clause.

proof fn lemma_sound_given(numbers: [[u8; N]; N], black: [[bool; N]; N], x: int, y: int)
    requires 0 <= x < 9 && 0 <= y < 9, digits_ok(numbers), numbers[x][y] != 0,
    ensures sound(numbers, black, seq![var_of(x, y, numbers[x][y] as int)]),
{
    reveal(sound);
    assert forall|t: [[u8; N]; N]| #[trigger] completes(numbers, black, t) implies clause_holds(
        board_model(t),
        seq![var_of(x, y, numbers[x][y] as int)],
    ) by {
        lemma_board_model(t, x, y, numbers[x][y] as int);
        assert(lit_holds(board_model(t), seq![var_of(x, y, numbers[x][y] as int)][0]));
    }
}

proof fn lemma_sound_empty_black(numbers: [[u8; N]; N], black: [[bool; N]; N], x: int, y: int, n: int)
    requires 0 <= x < 9 && 0 <= y < 9, 1 <= n <= 9, black[x][y], numbers[x][y] == 0,
    ensures sound(numbers, black, seq![-var_of(x, y, n)]),
{
    reveal(sound);
    assert forall|t: [[u8; N]; N]| #[trigger] completes(numbers, black, t) implies clause_holds(
        board_model(t),
        seq![-var_of(x, y, n)],
    ) by {
        lemma_board_model(t, x, y, n);
        assert(lit_holds(board_model(t), seq![-var_of(x, y, n)][0]));
    }
}

proof fn lemma_sound_at_least_one(numbers: [[u8; N]; N], black: [[bool; N]; N], x: int, y: int)
    requires 0 <= x < 9 && 0 <= y < 9, digits_ok(numbers), !(black[x][y] && numbers[x][y] == 0),
    ensures sound(numbers, black, at_least_one(x, y)),
{
    reveal(sound);
    assert forall|t: [[u8; N]; N]| #[trigger] completes(numbers, black, t) implies clause_holds(
        board_model(t),
        at_least_one(x, y),
    ) by {
        let v = t[x][y] as int;
        assert(1 <= v <= 9);
        lemma_board_model(t, x, y, v);
        assert(lit_holds(board_model(t), at_least_one(x, y)[v - 1]));
    }
}

proof fn lemma_sound_cell_pair(numbers: [[u8; N]; N], black: [[bool; N]; N], x: int, y: int, n1: int, n2: int)
    requires 0 <= x < 9 && 0 <= y < 9, 1 <= n1 < n2 <= 9,
    ensures sound(numbers, black, neg2(var_of(x, y, n1), var_of(x, y, n2))),
{
    reveal(sound);
    assert forall|t: [[u8; N]; N]| #[trigger] completes(numbers, black, t) implies clause_holds(
        board_model(t),
        neg2(var_of(x, y, n1), var_of(x, y, n2)),
    ) by {
        lemma_board_model(t, x, y, n1);
        lemma_board_model(t, x, y, n2);
        let c = neg2(var_of(x, y, n1), var_of(x, y, n2));
        if t[x][y] as int == n1 {
            assert(lit_holds(board_model(t), c[1]));
        } else {
            assert(lit_holds(board_model(t), c[0]));
        }
    }
}

proof fn lemma_sound_line_pair(
    numbers: [[u8; N]; N],
    black: [[bool; N]; N],
    x1: int,
    y1: int,
    x2: int,
    y2: int,
    n: int,
)
    requires
        0 <= x1 < 9 && 0 <= y1 < 9 && 0 <= x2 < 9 && 0 <= y2 < 9, 1 <= n <= 9,
        (x1 == x2 && y1 != y2) || (y1 == y2 && x1 != x2),
    ensures sound(numbers, black, neg2(var_of(x1, y1, n), var_of(x2, y2, n))),
{
    reveal(sound);
    assert forall|t: [[u8; N]; N]| #[trigger] completes(numbers, black, t) implies clause_holds(
        board_model(t),
        neg2(var_of(x1, y1, n), var_of(x2, y2, n)),
    ) by {
        lemma_board_model(t, x1, y1, n);
        lemma_board_model(t, x2, y2, n);
        let c = neg2(var_of(x1, y1, n), var_of(x2, y2, n));
        if t[x1][y1] as int == n {
            assert(t[x1][y1] != 0);
            assert(t[x2][y2] != t[x1][y1]);
            assert(lit_holds(board_model(t), c[1]));
        } else {
            assert(lit_holds(board_model(t), c[0]));
        }
    }
}

proof fn lemma_sound_comp_pair(
    numbers: [[u8; N]; N],
    black: [[bool; N]; N],
    horizontal: bool,
    line: int,
    p1: int,
    p2: int,
    n1: int,
    n2: int,
)
    requires
        0 <= line < 9, 0 <= p1 < 9, p1 != p2,
        1 <= n1 <= 9, 1 <= n2 <= 9,
        horizontal ==> !black[line][p1] && run_lo(by_cols(black), p1, line) <= p2 <= run_hi(by_cols(black), p1, line)
            && absdiff(n1 as u8, n2 as u8) >= run_hi(by_cols(black), p1, line) - run_lo(by_cols(black), p1, line) + 1,
        !horizontal ==> !black[p1][line] && run_lo(by_rows(black), p1, line) <= p2 <= run_hi(by_rows(black), p1, line)
            && absdiff(n1 as u8, n2 as u8) >= run_hi(by_rows(black), p1, line) - run_lo(by_rows(black), p1, line) + 1,
    ensures
        horizontal ==> sound(numbers, black, neg2(var_of(line, p1, n1), var_of(line, p2, n2))),
        !horizontal ==> sound(numbers, black, neg2(var_of(p1, line, n1), var_of(p2, line, n2))),
{
    reveal(sound);
    crate::backtrack::lemma_run_bounds_pub(by_cols(black), p1, line);
    crate::backtrack::lemma_run_bounds_pub(by_rows(black), p1, line);
    if horizontal {
        assert forall|t: [[u8; N]; N]| #[trigger] completes(numbers, black, t) implies clause_holds(
            board_model(t),
            neg2(var_of(line, p1, n1), var_of(line, p2, n2)),
        ) by {
            lemma_board_model(t, line, p1, n1);
            lemma_board_model(t, line, p2, n2);
            let c = neg2(var_of(line, p1, n1), var_of(line, p2, n2));
            if t[line][p1] as int == n1 && t[line][p2] as int == n2 {
                assert(span_ok(by_cols(t), by_cols(black), p1, line, t[line][p1]));
                assert(by_cols(t)(p2, line) == t[line][p2]);
                assert(absdiff(n2 as u8, n1 as u8) == absdiff(n1 as u8, n2 as u8));
                assert(false);
            } else if t[line][p1] as int != n1 {
                assert(lit_holds(board_model(t), c[0]));
            } else {
                assert(lit_holds(board_model(t), c[1]));
            }
        }
    } else {
        assert forall|t: [[u8; N]; N]| #[trigger] completes(numbers, black, t) implies clause_holds(
            board_model(t),
            neg2(var_of(p1, line, n1), var_of(p2, line, n2)),
        ) by {
            lemma_board_model(t, p1, line, n1);
            lemma_board_model(t, p2, line, n2);
            let c = neg2(var_of(p1, line, n1), var_of(p2, line, n2));
            if t[p1][line] as int == n1 && t[p2][line] as int == n2 {
                assert(span_ok(by_rows(t), by_rows(black), p1, line, t[p1][line]));
                assert(by_rows(t)(p2, line) == t[p2][line]);
                assert(absdiff(n2 as u8, n1 as u8) == absdiff(n1 as u8, n2 as u8));
                assert(false);
            } else if t[p1][line] as int != n1 {
                assert(lit_holds(board_model(t), c[0]));
            } else {
                assert(lit_holds(board_model(t), c[1]));
            }
        }
    }
}

} // verus!

verus! {

fn encode_givens(cnf: &mut Vec<Vec<i32>>, s: &SimpleStr8ts)
    requires cnf_ok(cnf_view(*old(cnf)), s.numbers, s.is_black),
    ensures
        cnf_ok(cnf_view(*final(cnf)), s.numbers, s.is_black),
        grows(cnf_view(*old(cnf)), cnf_view(*final(cnf))),
        forall|x: int, y: int|
            0 <= x < 9 && 0 <= y < 9 && #[trigger] s.numbers[x][y] != 0 ==> cnf_view(*final(cnf)).contains(
                seq![var_of(x, y, s.numbers[x][y] as int)],
            ),
{
    let ghost start = cnf_view(*cnf);
    for x in 0..N
        invariant
            cnf_ok(cnf_view(*cnf), s.numbers, s.is_black),
            grows(start, cnf_view(*cnf)),
            forall|i: int, j: int|
                0 <= i < x && 0 <= j < 9 && #[trigger] s.numbers[i][j] != 0 ==> cnf_view(*cnf).contains(
                    seq![var_of(i, j, s.numbers[i][j] as int)],
                ),
    {
        for y in 0..N
            invariant
                x < 9,
                cnf_ok(cnf_view(*cnf), s.numbers, s.is_black),
                grows(start, cnf_view(*cnf)),
                forall|i: int, j: int|
                    0 <= i < 9 && 0 <= j < 9 && (i < x || (i == x && j < y)) && #[trigger] s.numbers[i][j] != 0
                        ==> cnf_view(*cnf).contains(seq![var_of(i, j, s.numbers[i][j] as int)]),
        {
            if s.numbers[x][y] != 0 {
                let ghost before = cnf_view(*cnf);
                let v = var_id(x, y, s.numbers[x][y] as usize);
                push_unit(cnf, v);
                proof {
                    let c = seq![v as int];
                    assert(clause_ok(c));
                    if digits_ok(s.numbers) {
                        lemma_sound_given(s.numbers, s.is_black, x as int, y as int);
                    }
                    lemma_push_ok(before, c, s.numbers, s.is_black);
                    assert forall|i: int, j: int|
                        0 <= i < 9 && 0 <= j < 9 && (i < x || (i == x && j < y + 1)) && #[trigger] s.numbers[i][j] != 0
                            implies cnf_view(*cnf).contains(seq![var_of(i, j, s.numbers[i][j] as int)]) by {
                        if i != x || j != y {
                            lemma_grows_contains(before, cnf_view(*cnf), seq![var_of(i, j, s.numbers[i][j] as int)]);
                        }
                    }
                }
            }
        }
    }
}

fn encode_cells(cnf: &mut Vec<Vec<i32>>, s: &SimpleStr8ts)
    requires cnf_ok(cnf_view(*old(cnf)), s.numbers, s.is_black),
    ensures
        cnf_ok(cnf_view(*final(cnf)), s.numbers, s.is_black),
        grows(cnf_view(*old(cnf)), cnf_view(*final(cnf))),
        forall|x: int, y: int, n: int|
            0 <= x < 9 && 0 <= y < 9 && 1 <= n <= 9 && s.is_black[x][y] && s.numbers[x][y] == 0 ==> cnf_view(
                *final(cnf),
            ).contains(seq![-var_of(x, y, n)]) && #[trigger] var_of(x, y, n) == var_of(x, y, n),
        forall|x: int, y: int|
            0 <= x < 9 && 0 <= y < 9 && !(s.is_black[x][y] && s.numbers[x][y] == 0) ==> cnf_view(*final(cnf)).contains(
                #[trigger] at_least_one(x, y),
            ),
        forall|x: int, y: int, n1: int, n2: int|
            0 <= x < 9 && 0 <= y < 9 && 1 <= n1 < n2 <= 9 && !(s.is_black[x][y] && s.numbers[x][y] == 0) ==> cnf_view(
                *final(cnf),
            ).contains(#[trigger] neg2(var_of(x, y, n1), var_of(x, y, n2))),
{
    let ghost start = cnf_view(*cnf);
    for x in 0..N
        invariant
            cnf_ok(cnf_view(*cnf), s.numbers, s.is_black),
            grows(start, cnf_view(*cnf)),
            forall|i: int, j: int| 0 <= i < x && 0 <= j < 9 ==> #[trigger] cell_done(cnf_view(*cnf), s.numbers, s.is_black, i, j),
    {
        for y in 0..N
            invariant
                x < 9,
                cnf_ok(cnf_view(*cnf), s.numbers, s.is_black),
                grows(start, cnf_view(*cnf)),
                forall|i: int, j: int|
                    0 <= i < 9 && 0 <= j < 9 && (i < x || (i == x && j < y)) ==> #[trigger] cell_done(cnf_view(*cnf), s.numbers, s.is_black, i, j),
        {
            let ghost before = cnf_view(*cnf);
            encode_cell(cnf, s, x, y);
            proof {
                assert forall|i: int, j: int|
                    0 <= i < 9 && 0 <= j < 9 && (i < x || (i == x && j < y + 1)) implies #[trigger] cell_done(cnf_view(*cnf), s.numbers, s.is_black, i, j) by {
                    if i != x || j != y {
                        lemma_cell_done_grows(before, cnf_view(*cnf), s.numbers, s.is_black, i, j);
                    }
                }
            }
        }
    }
    proof {
        assert forall|x: int, y: int, n: int|
            0 <= x < 9 && 0 <= y < 9 && 1 <= n <= 9 && s.is_black[x][y] && s.numbers[x][y] == 0 implies cnf_view(
                *cnf,
            ).contains(seq![-var_of(x, y, n)]) && #[trigger] var_of(x, y, n) == var_of(x, y, n) by {
            assert(cell_done(cnf_view(*cnf), s.numbers, s.is_black, x, y));
        }
        assert forall|x: int, y: int|
            0 <= x < 9 && 0 <= y < 9 && !(s.is_black[x][y] && s.numbers[x][y] == 0) implies cnf_view(*cnf).contains(
                #[trigger] at_least_one(x, y),
            ) by {
            assert(cell_done(cnf_view(*cnf), s.numbers, s.is_black, x, y));
        }
        assert forall|x: int, y: int, n1: int, n2: int|
            0 <= x < 9 && 0 <= y < 9 && 1 <= n1 < n2 <= 9 && !(s.is_black[x][y] && s.numbers[x][y] == 0) implies cnf_view(
                *cnf,
            ).contains(#[trigger] neg2(var_of(x, y, n1), var_of(x, y, n2))) by {
            assert(cell_done(cnf_view(*cnf), s.numbers, s.is_black, x, y));
        }
    }
}

/// The clauses of the single cell `(x, y)` are there.
pub open spec fn cell_done(cnf: Seq<Seq<int>>, numbers: [[u8; N]; N], black: [[bool; N]; N], x: int, y: int) -> bool {
    if black[x][y] && numbers[x][y] == 0 {
        forall|n: int| 1 <= n <= 9 ==> cnf.contains(#[trigger] seq![-var_of(x, y, n)])
    } else {
        &&& cnf.contains(at_least_one(x, y))
        &&& forall|n1: int, n2: int| 1 <= n1 < n2 <= 9 ==> cnf.contains(#[trigger] neg2(var_of(x, y, n1), var_of(x, y, n2)))
    }
}

proof fn lemma_cell_done_grows(a: Seq<Seq<int>>, b: Seq<Seq<int>>, numbers: [[u8; N]; N], black: [[bool; N]; N], x: int, y: int)
    requires grows(a, b), cell_done(a, numbers, black, x, y),
    ensures cell_done(b, numbers, black, x, y),
{
    if black[x][y] && numbers[x][y] == 0 {
        assert forall|n: int| 1 <= n <= 9 implies b.contains(#[trigger] seq![-var_of(x, y, n)]) by {
            lemma_grows_contains(a, b, seq![-var_of(x, y, n)]);
        }
    } else {
        lemma_grows_contains(a, b, at_least_one(x, y));
        assert forall|n1: int, n2: int| 1 <= n1 < n2 <= 9 implies b.contains(#[trigger] neg2(var_of(x, y, n1), var_of(x, y, n2))) by {
            lemma_grows_contains(a, b, neg2(var_of(x, y, n1), var_of(x, y, n2)));
        }
    }
}

fn encode_cell(cnf: &mut Vec<Vec<i32>>, s: &SimpleStr8ts, x: usize, y: usize)
    requires x < 9, y < 9, cnf_ok(cnf_view(*old(cnf)), s.numbers, s.is_black),
    ensures
        cnf_ok(cnf_view(*final(cnf)), s.numbers, s.is_black),
        grows(cnf_view(*old(cnf)), cnf_view(*final(cnf))),
        cell_done(cnf_view(*final(cnf)), s.numbers, s.is_black, x as int, y as int),
{
    let ghost start = cnf_view(*cnf);
    if s.is_black[x][y] && s.numbers[x][y] == 0 {
        for n in 1..10usize
            invariant
                x < 9, y < 9, 1 <= n <= 10,
                s.is_black[x as int][y as int] && s.numbers[x as int][y as int] == 0,
                cnf_ok(cnf_view(*cnf), s.numbers, s.is_black),
                grows(start, cnf_view(*cnf)),
                forall|k: int| 1 <= k < n ==> cnf_view(*cnf).contains(#[trigger] seq![-var_of(x as int, y as int, k)]),
        {
            let ghost before = cnf_view(*cnf);
            let v = var_id(x, y, n);
            push_unit(cnf, -v);
            proof {
                let c = seq![(-v) as int];
                assert(c == seq![-var_of(x as int, y as int, n as int)]);
                lemma_sound_empty_black(s.numbers, s.is_black, x as int, y as int, n as int);
                lemma_push_ok(before, c, s.numbers, s.is_black);
                assert forall|k: int| 1 <= k < n + 1 implies cnf_view(*cnf).contains(#[trigger] seq![-var_of(x as int, y as int, k)]) by {
                    if k < n {
                        lemma_grows_contains(before, cnf_view(*cnf), seq![-var_of(x as int, y as int, k)]);
                    }
                }
            }
        }
        return;
    }
    // at least one digit
    let mut lits: Vec<i32> = Vec::new();
    for n in 1..10usize
        invariant
            x < 9, y < 9, 1 <= n <= 10,
            lits@.len() == n - 1,
            forall|k: int| 0 <= k < n - 1 ==> #[trigger] lits@[k] as int == var_of(x as int, y as int, k + 1),
    {
        lits.push(var_id(x, y, n));
    }
    let ghost before = cnf_view(*cnf);
    proof {
        assert(clause_view(lits) =~= at_least_one(x as int, y as int));
        if digits_ok(s.numbers) {
            lemma_sound_at_least_one(s.numbers, s.is_black, x as int, y as int);
        }
        lemma_push_ok(before, at_least_one(x as int, y as int), s.numbers, s.is_black);
    }
    cnf.push(lits);
    proof {
        assert(cnf_view(*cnf) =~= before.push(at_least_one(x as int, y as int)));
    }
    // at most one digit
    let ghost mid = cnf_view(*cnf);
    for n1 in 1..10usize
        invariant
            x < 9, y < 9, 1 <= n1 <= 10,
            cnf_ok(cnf_view(*cnf), s.numbers, s.is_black),
            grows(start, cnf_view(*cnf)),
            grows(mid, cnf_view(*cnf)),
            mid.contains(at_least_one(x as int, y as int)),
            forall|a: int, b: int| 1 <= a < n1 && a < b <= 9 ==> cnf_view(*cnf).contains(#[trigger] neg2(var_of(x as int, y as int, a), var_of(x as int, y as int, b))),
    {
        for n2 in (n1 + 1)..10usize
            invariant
                x < 9, y < 9, 1 <= n1 < 10, n1 + 1 <= n2 <= 10,
                cnf_ok(cnf_view(*cnf), s.numbers, s.is_black),
                grows(start, cnf_view(*cnf)),
                grows(mid, cnf_view(*cnf)),
                mid.contains(at_least_one(x as int, y as int)),
                forall|a: int, b: int| 1 <= a <= 9 && a < b <= 9 && (a < n1 || (a == n1 && b < n2)) ==> cnf_view(*cnf).contains(#[trigger] neg2(var_of(x as int, y as int, a), var_of(x as int, y as int, b))),
        {
            let ghost b4 = cnf_view(*cnf);
            let v1 = var_id(x, y, n1);
            let v2 = var_id(x, y, n2);
            push_pair(cnf, v1, v2);
            proof {
                let c = neg2(v1 as int, v2 as int);
                lemma_sound_cell_pair(s.numbers, s.is_black, x as int, y as int, n1 as int, n2 as int);
                lemma_push_ok(b4, c, s.numbers, s.is_black);
                assert forall|a: int, b: int| 1 <= a <= 9 && a < b <= 9 && (a < n1 || (a == n1 && b < n2 + 1)) implies cnf_view(*cnf).contains(#[trigger] neg2(var_of(x as int, y as int, a), var_of(x as int, y as int, b))) by {
                    if a != n1 || b != n2 {
                        lemma_grows_contains(b4, cnf_view(*cnf), neg2(var_of(x as int, y as int, a), var_of(x as int, y as int, b)));
                    }
                }
            }
        }
    }
    proof {
        lemma_grows_contains(mid, cnf_view(*cnf), at_least_one(x as int, y as int));
    }
}

} // verus!

verus! {

fn encode_lines(cnf: &mut Vec<Vec<i32>>, s: &SimpleStr8ts)
    requires cnf_ok(cnf_view(*old(cnf)), s.numbers, s.is_black),
    ensures
        cnf_ok(cnf_view(*final(cnf)), s.numbers, s.is_black),
        grows(cnf_view(*old(cnf)), cnf_view(*final(cnf))),
        lines_present(cnf_view(*final(cnf))),
{
    let ghost start = cnf_view(*cnf);
    for n in 1..10usize
        invariant
            1 <= n <= 10,
            cnf_ok(cnf_view(*cnf), s.numbers, s.is_black),
            grows(start, cnf_view(*cnf)),
            forall|x: int, y1: int, y2: int, k: int|
                0 <= x < 9 && 0 <= y1 < y2 < 9 && 1 <= k < n ==> cnf_view(*cnf).contains(
                    #[trigger] neg2(var_of(x, y1, k), var_of(x, y2, k)),
                ),
            forall|y: int, x1: int, x2: int, k: int|
                0 <= y < 9 && 0 <= x1 < x2 < 9 && 1 <= k < n ==> cnf_view(*cnf).contains(
                    #[trigger] neg2(var_of(x1, y, k), var_of(x2, y, k)),
                ),
    {
        let ghost at_n = cnf_view(*cnf);
        for x in 0..N
            invariant
                1 <= n < 10,
                cnf_ok(cnf_view(*cnf), s.numbers, s.is_black),
                grows(at_n, cnf_view(*cnf)),
                forall|i: int, y1: int, y2: int|
                    0 <= i < x && 0 <= y1 < y2 < 9 ==> cnf_view(*cnf).contains(
                        #[trigger] neg2(var_of(i, y1, n as int), var_of(i, y2, n as int)),
                    ),
        {
            for y1 in 0..N
                invariant
                    1 <= n < 10, x < 9,
                    cnf_ok(cnf_view(*cnf), s.numbers, s.is_black),
                    grows(at_n, cnf_view(*cnf)),
                    forall|i: int, a: int, b: int|
                        0 <= i < 9 && 0 <= a < b < 9 && (i < x || (i == x && a < y1)) ==> cnf_view(*cnf).contains(
                            #[trigger] neg2(var_of(i, a, n as int), var_of(i, b, n as int)),
                        ),
            {
                for y2 in (y1 + 1)..N
                    invariant
                        1 <= n < 10, x < 9, y1 < 9,
                        cnf_ok(cnf_view(*cnf), s.numbers, s.is_black),
                        grows(at_n, cnf_view(*cnf)),
                        forall|i: int, a: int, b: int|
                            0 <= i < 9 && 0 <= a < b < 9 && (i < x || (i == x && (a < y1 || (a == y1 && b < y2))))
                                ==> cnf_view(*cnf).contains(#[trigger] neg2(var_of(i, a, n as int), var_of(i, b, n as int))),
                {
                    let ghost b4 = cnf_view(*cnf);
                    let v1 = var_id(x, y1, n);
                    let v2 = var_id(x, y2, n);
                    push_pair(cnf, v1, v2);
                    proof {
                        lemma_sound_line_pair(s.numbers, s.is_black, x as int, y1 as int, x as int, y2 as int, n as int);
                        lemma_push_ok(b4, neg2(v1 as int, v2 as int), s.numbers, s.is_black);
                        lemma_grows_trans(at_n, b4, cnf_view(*cnf));
                        assert forall|i: int, a: int, b: int|
                            0 <= i < 9 && 0 <= a < b < 9 && (i < x || (i == x && (a < y1 || (a == y1 && b < y2 + 1))))
                                implies cnf_view(*cnf).contains(#[trigger] neg2(var_of(i, a, n as int), var_of(i, b, n as int))) by {
                            if i != x || a != y1 || b != y2 {
                                lemma_grows_contains(b4, cnf_view(*cnf), neg2(var_of(i, a, n as int), var_of(i, b, n as int)));
                            }
                        }
                    }
                }
            }
        }
        let ghost rows_done = cnf_view(*cnf);
        for y in 0..N
            invariant
                1 <= n < 10,
                cnf_ok(cnf_view(*cnf), s.numbers, s.is_black),
                grows(rows_done, cnf_view(*cnf)),
                forall|j: int, x1: int, x2: int|
                    0 <= j < y && 0 <= x1 < x2 < 9 ==> cnf_view(*cnf).contains(
                        #[trigger] neg2(var_of(x1, j, n as int), var_of(x2, j, n as int)),
                    ),
        {
            for x1 in 0..N
                invariant
                    1 <= n < 10, y < 9,
                    cnf_ok(cnf_view(*cnf), s.numbers, s.is_black),
                    grows(rows_done, cnf_view(*cnf)),
                    forall|j: int, a: int, b: int|
                        0 <= j < 9 && 0 <= a < b < 9 && (j < y || (j == y && a < x1)) ==> cnf_view(*cnf).contains(
                            #[trigger] neg2(var_of(a, j, n as int), var_of(b, j, n as int)),
                        ),
            {
                for x2 in (x1 + 1)..N
                    invariant
                        1 <= n < 10, y < 9, x1 < 9,
                        cnf_ok(cnf_view(*cnf), s.numbers, s.is_black),
                        grows(rows_done, cnf_view(*cnf)),
                        forall|j: int, a: int, b: int|
                            0 <= j < 9 && 0 <= a < b < 9 && (j < y || (j == y && (a < x1 || (a == x1 && b < x2))))
                                ==> cnf_view(*cnf).contains(#[trigger] neg2(var_of(a, j, n as int), var_of(b, j, n as int))),
                {
                    let ghost b4 = cnf_view(*cnf);
                    let v1 = var_id(x1, y, n);
                    let v2 = var_id(x2, y, n);
                    push_pair(cnf, v1, v2);
                    proof {
                        lemma_sound_line_pair(s.numbers, s.is_black, x1 as int, y as int, x2 as int, y as int, n as int);
                        lemma_push_ok(b4, neg2(v1 as int, v2 as int), s.numbers, s.is_black);
                        lemma_grows_trans(rows_done, b4, cnf_view(*cnf));
                        assert forall|j: int, a: int, b: int|
                            0 <= j < 9 && 0 <= a < b < 9 && (j < y || (j == y && (a < x1 || (a == x1 && b < x2 + 1))))
                                implies cnf_view(*cnf).contains(#[trigger] neg2(var_of(a, j, n as int), var_of(b, j, n as int))) by {
                            if j != y || a != x1 || b != x2 {
                                lemma_grows_contains(b4, cnf_view(*cnf), neg2(var_of(a, j, n as int), var_of(b, j, n as int)));
                            }
                        }
                    }
                }
            }
        }
        proof {
            lemma_grows_trans(at_n, rows_done, cnf_view(*cnf));
            lemma_grows_trans(start, at_n, cnf_view(*cnf));
            assert forall|x: int, y1: int, y2: int, k: int|
                0 <= x < 9 && 0 <= y1 < y2 < 9 && 1 <= k < n + 1 implies cnf_view(*cnf).contains(
                    #[trigger] neg2(var_of(x, y1, k), var_of(x, y2, k)),
                ) by {
                if k < n {
                    lemma_grows_contains(at_n, cnf_view(*cnf), neg2(var_of(x, y1, k), var_of(x, y2, k)));
                } else {
                    lemma_grows_contains(rows_done, cnf_view(*cnf), neg2(var_of(x, y1, k), var_of(x, y2, k)));
                }
            }
            assert forall|y: int, x1: int, x2: int, k: int|
                0 <= y < 9 && 0 <= x1 < x2 < 9 && 1 <= k < n + 1 implies cnf_view(*cnf).contains(
                    #[trigger] neg2(var_of(x1, y, k), var_of(x2, y, k)),
                ) by {
                if k < n {
                    lemma_grows_contains(at_n, cnf_view(*cnf), neg2(var_of(x1, y, k), var_of(x2, y, k)));
                }
            }
        }
    }
}

} // verus!

verus! {

/// The clause "not `n1` at the first cell, or not `n2` at the second",
/// for two cells of a row (`horizontal`) or of a column.
pub open spec fn pair_clause(horizontal: bool, line: int, p1: int, p2: int, n1: int, n2: int) -> Seq<int> {
    if horizontal {
        neg2(var_of(line, p1, n1), var_of(line, p2, n2))
    } else {
        neg2(var_of(p1, line, n1), var_of(p2, line, n2))
    }
}

/// The cell `p1` of the given row (or column) is white and `p2` shares its run of length `m`.
pub open spec fn same_run(black: [[bool; N]; N], horizontal: bool, line: int, p1: int, p2: int, m: int) -> bool {
    if horizontal {
        !black[line][p1] && run_lo(by_cols(black), p1, line) <= p2 <= run_hi(by_cols(black), p1, line)
            && run_hi(by_cols(black), p1, line) - run_lo(by_cols(black), p1, line) + 1 == m
    } else {
        !black[p1][line] && run_lo(by_rows(black), p1, line) <= p2 <= run_hi(by_rows(black), p1, line)
            && run_hi(by_rows(black), p1, line) - run_lo(by_rows(black), p1, line) + 1 == m
    }
}

fn encode_pair_digits(
    cnf: &mut Vec<Vec<i32>>,
    s: &SimpleStr8ts,
    horizontal: bool,
    line: usize,
    p1: usize,
    p2: usize,
    m: usize,
)
    requires
        line < 9, p1 < 9, p2 < 9, p1 != p2, 2 <= m <= 8,
        same_run(s.is_black, horizontal, line as int, p1 as int, p2 as int, m as int),
        cnf_ok(cnf_view(*old(cnf)), s.numbers, s.is_black),
    ensures
        cnf_ok(cnf_view(*final(cnf)), s.numbers, s.is_black),
        grows(cnf_view(*old(cnf)), cnf_view(*final(cnf))),
        forall|n1: int, n2: int|
            1 <= n1 <= 9 && 1 <= n2 <= 9 && absdiff(n1 as u8, n2 as u8) >= m ==> cnf_view(*final(cnf)).contains(
                #[trigger] pair_clause(horizontal, line as int, p1 as int, p2 as int, n1, n2),
            ),
{
    let ghost start = cnf_view(*cnf);
    let (x1, y1, x2, y2) = if horizontal { (line, p1, line, p2) } else { (p1, line, p2, line) };
    for n1 in 1..10usize
        invariant
            line < 9, p1 < 9, p2 < 9, p1 != p2, 2 <= m <= 8, 1 <= n1 <= 10,
            (x1, y1, x2, y2) == (if horizontal { (line, p1, line, p2) } else { (p1, line, p2, line) }),
            same_run(s.is_black, horizontal, line as int, p1 as int, p2 as int, m as int),
            cnf_ok(cnf_view(*cnf), s.numbers, s.is_black),
            grows(start, cnf_view(*cnf)),
            forall|a: int, b: int|
                1 <= a < n1 && 1 <= b <= 9 && absdiff(a as u8, b as u8) >= m ==> cnf_view(*cnf).contains(
                    #[trigger] pair_clause(horizontal, line as int, p1 as int, p2 as int, a, b),
                ),
    {
        let ghost at_n1 = cnf_view(*cnf);
        let mut n2 = n1 + m;
        while n2 <= 9
            invariant
                line < 9, p1 < 9, p2 < 9, p1 != p2, 2 <= m <= 8, 1 <= n1 < 10, n1 + m <= n2,
                (x1, y1, x2, y2) == (if horizontal { (line, p1, line, p2) } else { (p1, line, p2, line) }),
                same_run(s.is_black, horizontal, line as int, p1 as int, p2 as int, m as int),
                cnf_ok(cnf_view(*cnf), s.numbers, s.is_black),
                grows(at_n1, cnf_view(*cnf)),
                forall|b: int| n1 + m <= b < n2 && b <= 9 ==> cnf_view(*cnf).contains(
                    #[trigger] pair_clause(horizontal, line as int, p1 as int, p2 as int, n1 as int, b),
                ),
            decreases 10 - n2,
        {
            let ghost b4 = cnf_view(*cnf);
            let v1 = var_id(x1, y1, n1);
            let v2 = var_id(x2, y2, n2);
            push_pair(cnf, v1, v2);
            proof {
                assert(neg2(v1 as int, v2 as int) == pair_clause(horizontal, line as int, p1 as int, p2 as int, n1 as int, n2 as int));
                lemma_sound_comp_pair(s.numbers, s.is_black, horizontal, line as int, p1 as int, p2 as int, n1 as int, n2 as int);
                lemma_push_ok(b4, neg2(v1 as int, v2 as int), s.numbers, s.is_black);
                lemma_grows_trans(at_n1, b4, cnf_view(*cnf));
                assert forall|b: int| n1 + m <= b < n2 + 1 && b <= 9 implies cnf_view(*cnf).contains(
                    #[trigger] pair_clause(horizontal, line as int, p1 as int, p2 as int, n1 as int, b)) by {
                    if b < n2 {
                        lemma_grows_contains(b4, cnf_view(*cnf), pair_clause(horizontal, line as int, p1 as int, p2 as int, n1 as int, b));
                    }
                }
            }
            n2 = n2 + 1;
        }
        let ghost mid = cnf_view(*cnf);
        let low_end: usize = if n1 > m { n1 - m } else { 0 };
        let mut n2: usize = 1;
        while n2 <= low_end
            invariant
                line < 9, p1 < 9, p2 < 9, p1 != p2, 2 <= m <= 8, 1 <= n1 < 10, 1 <= n2,
                low_end == (if n1 > m { n1 - m } else { 0 }),
                (x1, y1, x2, y2) == (if horizontal { (line, p1, line, p2) } else { (p1, line, p2, line) }),
                same_run(s.is_black, horizontal, line as int, p1 as int, p2 as int, m as int),
                cnf_ok(cnf_view(*cnf), s.numbers, s.is_black),
                grows(mid, cnf_view(*cnf)),
                forall|b: int| 1 <= b < n2 && b <= low_end ==> cnf_view(*cnf).contains(
                    #[trigger] pair_clause(horizontal, line as int, p1 as int, p2 as int, n1 as int, b),
                ),
            decreases 10 - n2,
        {
            let ghost b4 = cnf_view(*cnf);
            let v1 = var_id(x1, y1, n1);
            let v2 = var_id(x2, y2, n2);
            push_pair(cnf, v1, v2);
            proof {
                assert(neg2(v1 as int, v2 as int) == pair_clause(horizontal, line as int, p1 as int, p2 as int, n1 as int, n2 as int));
                lemma_sound_comp_pair(s.numbers, s.is_black, horizontal, line as int, p1 as int, p2 as int, n1 as int, n2 as int);
                lemma_push_ok(b4, neg2(v1 as int, v2 as int), s.numbers, s.is_black);
                lemma_grows_trans(mid, b4, cnf_view(*cnf));
                assert forall|b: int| 1 <= b < n2 + 1 && b <= low_end implies cnf_view(*cnf).contains(
                    #[trigger] pair_clause(horizontal, line as int, p1 as int, p2 as int, n1 as int, b)) by {
                    if b < n2 {
                        lemma_grows_contains(b4, cnf_view(*cnf), pair_clause(horizontal, line as int, p1 as int, p2 as int, n1 as int, b));
                    }
                }
            }
            n2 = n2 + 1;
        }
        proof {
            lemma_grows_trans(at_n1, mid, cnf_view(*cnf));
            lemma_grows_trans(start, at_n1, cnf_view(*cnf));
            assert forall|a: int, b: int|
                1 <= a < n1 + 1 && 1 <= b <= 9 && absdiff(a as u8, b as u8) >= m implies cnf_view(*cnf).contains(
                    #[trigger] pair_clause(horizontal, line as int, p1 as int, p2 as int, a, b)) by {
                if a < n1 {
                    lemma_grows_contains(at_n1, cnf_view(*cnf), pair_clause(horizontal, line as int, p1 as int, p2 as int, a, b));
                } else if b >= n1 + m {
                    lemma_grows_contains(mid, cnf_view(*cnf), pair_clause(horizontal, line as int, p1 as int, p2 as int, a, b));
                }
            }
        }
    }
}

} // verus!

verus! {

/// The white cells `start..start + len` of the row (or column) `line` form a
/// whole compartment.
pub open spec fn whole_run(blk: spec_fn(int, int) -> bool, line: int, start: int, len: int) -> bool {
    &&& 0 <= line < 9 && 0 <= start && 1 <= len && start + len <= 9
    &&& forall|i: int| start <= i < start + len ==> !#[trigger] blk(i, line)
    &&& start == 0 || blk(start - 1, line)
    &&& start + len == 9 || blk(start + len, line)
}

fn encode_compartment(cnf: &mut Vec<Vec<i32>>, s: &SimpleStr8ts, horizontal: bool, line: usize, start: usize, len: usize)
    requires
        whole_run(if horizontal { by_cols(s.is_black) } else { by_rows(s.is_black) }, line as int, start as int, len as int),
        cnf_ok(cnf_view(*old(cnf)), s.numbers, s.is_black),
    ensures
        cnf_ok(cnf_view(*final(cnf)), s.numbers, s.is_black),
        grows(cnf_view(*old(cnf)), cnf_view(*final(cnf))),
        2 <= len <= 8 ==> forall|p1: int, p2: int, n1: int, n2: int|
            start <= p1 < start + len && start <= p2 < start + len && p1 != p2 && 1 <= n1 <= 9 && 1 <= n2 <= 9
                && absdiff(n1 as u8, n2 as u8) >= len ==> cnf_view(*final(cnf)).contains(
                #[trigger] pair_clause(horizontal, line as int, p1, p2, n1, n2),
            ),
{
    if len < 2 || len > 8 {
        return;
    }
    let ghost blk = if horizontal { by_cols(s.is_black) } else { by_rows(s.is_black) };
    proof {
        assert forall|p: int| start <= p < start + len implies run_lo(blk, p, line as int) == start && run_hi(blk, p, line as int) == start + len - 1 by {
            crate::backtrack::lemma_run_unique(blk, p, line as int, start as int, start + len - 1);
        }
    }
    let ghost start_cnf = cnf_view(*cnf);
    for k1 in 0..len
        invariant
            2 <= len <= 8,
            whole_run(if horizontal { by_cols(s.is_black) } else { by_rows(s.is_black) }, line as int, start as int, len as int),
            blk == (if horizontal { by_cols(s.is_black) } else { by_rows(s.is_black) }),
            forall|p: int| start <= p < start + len ==> run_lo(blk, p, line as int) == start && run_hi(blk, p, line as int) == start + len - 1,
            cnf_ok(cnf_view(*cnf), s.numbers, s.is_black),
            grows(start_cnf, cnf_view(*cnf)),
            forall|p1: int, p2: int, n1: int, n2: int|
                start <= p1 < start + k1 && start <= p2 < start + len && p1 != p2 && 1 <= n1 <= 9 && 1 <= n2 <= 9
                    && absdiff(n1 as u8, n2 as u8) >= len ==> cnf_view(*cnf).contains(
                    #[trigger] pair_clause(horizontal, line as int, p1, p2, n1, n2),
                ),
    {
        for k2 in 0..len
            invariant
                2 <= len <= 8, k1 < len,
                whole_run(if horizontal { by_cols(s.is_black) } else { by_rows(s.is_black) }, line as int, start as int, len as int),
                blk == (if horizontal { by_cols(s.is_black) } else { by_rows(s.is_black) }),
                forall|p: int| start <= p < start + len ==> run_lo(blk, p, line as int) == start && run_hi(blk, p, line as int) == start + len - 1,
                cnf_ok(cnf_view(*cnf), s.numbers, s.is_black),
                grows(start_cnf, cnf_view(*cnf)),
                forall|p1: int, p2: int, n1: int, n2: int|
                    start <= p1 < start + len && start <= p2 < start + len && p1 != p2 && 1 <= n1 <= 9 && 1 <= n2 <= 9
                        && absdiff(n1 as u8, n2 as u8) >= len && (p1 < start + k1 || (p1 == start + k1 && p2 < start + k2))
                        ==> cnf_view(*cnf).contains(#[trigger] pair_clause(horizontal, line as int, p1, p2, n1, n2)),
        {
            if k1 != k2 {
                let ghost b4 = cnf_view(*cnf);
                proof {
                    assert(!blk(start + k1, line as int));
                }
                encode_pair_digits(cnf, s, horizontal, line, start + k1, start + k2, len);
                proof {
                    lemma_grows_trans(start_cnf, b4, cnf_view(*cnf));
                    assert forall|p1: int, p2: int, n1: int, n2: int|
                        start <= p1 < start + len && start <= p2 < start + len && p1 != p2 && 1 <= n1 <= 9 && 1 <= n2 <= 9
                            && absdiff(n1 as u8, n2 as u8) >= len && (p1 < start + k1 || (p1 == start + k1 && p2 < start + k2 + 1))
                            implies cnf_view(*cnf).contains(#[trigger] pair_clause(horizontal, line as int, p1, p2, n1, n2)) by {
                        if p1 != start + k1 || p2 != start + k2 {
                            lemma_grows_contains(b4, cnf_view(*cnf), pair_clause(horizontal, line as int, p1, p2, n1, n2));
                        }
                    }
                }
            }
        }
    }
}

/// All clauses for the row compartment through the white cell `(x, c1)` are there.
pub open spec fn hdone(cnf: Seq<Seq<int>>, black: [[bool; N]; N], x: int, c1: int) -> bool {
    let lo = run_lo(by_cols(black), c1, x);
    let hi = run_hi(by_cols(black), c1, x);
    2 <= hi - lo + 1 <= 8 ==> forall|c2: int, n1: int, n2: int|
        lo <= c2 <= hi && c2 != c1 && 1 <= n1 <= 9 && 1 <= n2 <= 9 && absdiff(n1 as u8, n2 as u8) >= hi - lo + 1
            ==> cnf.contains(#[trigger] neg2(var_of(x, c1, n1), var_of(x, c2, n2)))
}

/// All clauses for the column compartment through the white cell `(r1, y)` are there.
pub open spec fn vdone(cnf: Seq<Seq<int>>, black: [[bool; N]; N], r1: int, y: int) -> bool {
    let lo = run_lo(by_rows(black), r1, y);
    let hi = run_hi(by_rows(black), r1, y);
    2 <= hi - lo + 1 <= 8 ==> forall|r2: int, n1: int, n2: int|
        lo <= r2 <= hi && r2 != r1 && 1 <= n1 <= 9 && 1 <= n2 <= 9 && absdiff(n1 as u8, n2 as u8) >= hi - lo + 1
            ==> cnf.contains(#[trigger] neg2(var_of(r1, y, n1), var_of(r2, y, n2)))
}

proof fn lemma_done_grows(a: Seq<Seq<int>>, b: Seq<Seq<int>>, black: [[bool; N]; N], x: int, c: int)
    requires grows(a, b),
    ensures
        hdone(a, black, x, c) ==> hdone(b, black, x, c),
        vdone(a, black, x, c) ==> vdone(b, black, x, c),
{
    if hdone(a, black, x, c) {
        let lo = run_lo(by_cols(black), c, x);
        let hi = run_hi(by_cols(black), c, x);
        if 2 <= hi - lo + 1 <= 8 {
            assert forall|c2: int, n1: int, n2: int|
                lo <= c2 <= hi && c2 != c && 1 <= n1 <= 9 && 1 <= n2 <= 9 && absdiff(n1 as u8, n2 as u8) >= hi - lo + 1
                    implies b.contains(#[trigger] neg2(var_of(x, c, n1), var_of(x, c2, n2))) by {
                lemma_grows_contains(a, b, neg2(var_of(x, c, n1), var_of(x, c2, n2)));
            }
        }
    }
    if vdone(a, black, x, c) {
        let lo = run_lo(by_rows(black), x, c);
        let hi = run_hi(by_rows(black), x, c);
        if 2 <= hi - lo + 1 <= 8 {
            assert forall|r2: int, n1: int, n2: int|
                lo <= r2 <= hi && r2 != x && 1 <= n1 <= 9 && 1 <= n2 <= 9 && absdiff(n1 as u8, n2 as u8) >= hi - lo + 1
                    implies b.contains(#[trigger] neg2(var_of(x, c, n1), var_of(r2, c, n2))) by {
                lemma_grows_contains(a, b, neg2(var_of(x, c, n1), var_of(r2, c, n2)));
            }
        }
    }
}

} // verus!

verus! {

fn encode_compartments(cnf: &mut Vec<Vec<i32>>, s: &SimpleStr8ts)
    requires cnf_ok(cnf_view(*old(cnf)), s.numbers, s.is_black),
    ensures
        cnf_ok(cnf_view(*final(cnf)), s.numbers, s.is_black),
        grows(cnf_view(*old(cnf)), cnf_view(*final(cnf))),
        forall|x: int, c: int| 0 <= x < 9 && 0 <= c < 9 && !s.is_black[x][c] ==> #[trigger] hdone(cnf_view(*final(cnf)), s.is_black, x, c),
        forall|r: int, y: int| 0 <= r < 9 && 0 <= y < 9 && !s.is_black[r][y] ==> #[trigger] vdone(cnf_view(*final(cnf)), s.is_black, r, y),
{
    let ghost start_cnf = cnf_view(*cnf);
    let ghost hb = by_cols(s.is_black);
    let ghost vb = by_rows(s.is_black);
    proof {
        assert forall|i: int, c: int| 0 <= i < 9 && 0 <= c < 9 && !s.is_black[i][c] && i * 9 + run_lo(hb, c, i) < 0
            implies #[trigger] hdone(cnf_view(*cnf), s.is_black, i, c) by {
            crate::backtrack::lemma_run_bounds_pub(hb, c, i);
        }
        assert forall|r: int, j: int| 0 <= r < 9 && 0 <= j < 9 && !s.is_black[r][j] && run_lo(vb, r, j) * 9 + j < 0
            implies #[trigger] vdone(cnf_view(*cnf), s.is_black, r, j) by {
            crate::backtrack::lemma_run_bounds_pub(vb, r, j);
        }
    }
    for x in 0..N
        invariant
            hb == by_cols(s.is_black), vb == by_rows(s.is_black),
            cnf_ok(cnf_view(*cnf), s.numbers, s.is_black),
            grows(start_cnf, cnf_view(*cnf)),
            forall|i: int, c: int| 0 <= i < 9 && 0 <= c < 9 && !s.is_black[i][c] && i * 9 + run_lo(hb, c, i) < x * 9
                ==> #[trigger] hdone(cnf_view(*cnf), s.is_black, i, c),
            forall|r: int, j: int| 0 <= r < 9 && 0 <= j < 9 && !s.is_black[r][j] && run_lo(vb, r, j) * 9 + j < x * 9
                ==> #[trigger] vdone(cnf_view(*cnf), s.is_black, r, j),
    {
        for y in 0..N
            invariant
                x < 9,
                hb == by_cols(s.is_black), vb == by_rows(s.is_black),
                cnf_ok(cnf_view(*cnf), s.numbers, s.is_black),
                grows(start_cnf, cnf_view(*cnf)),
                forall|i: int, c: int| 0 <= i < 9 && 0 <= c < 9 && !s.is_black[i][c] && i * 9 + run_lo(hb, c, i) < x * 9 + y
                    ==> #[trigger] hdone(cnf_view(*cnf), s.is_black, i, c),
                forall|r: int, j: int| 0 <= r < 9 && 0 <= j < 9 && !s.is_black[r][j] && run_lo(vb, r, j) * 9 + j < x * 9 + y
                    ==> #[trigger] vdone(cnf_view(*cnf), s.is_black, r, j),
        {
            let h_start = !s.is_black[x][y] && (y == 0 || s.is_black[x][y - 1]);
            if h_start {
                let mut j = y;
                while j < N && !s.is_black[x][j]
                    invariant y <= j <= 9, x < 9, y < 9,
                        forall|k: int| y <= k < j ==> !#[trigger] s.is_black[x as int][k],
                    decreases 9 - j,
                {
                    j = j + 1;
                }
                let ghost b4 = cnf_view(*cnf);
                proof {
                    assert(y == 0 || hb(y as int - 1, x as int));
                    assert(j == 9 || hb(j as int, x as int));
                }
                encode_compartment(cnf, s, true, x, y, j - y);
                proof {
                    assert forall|c: int| y <= c < j implies run_lo(hb, c, x as int) == y && run_hi(hb, c, x as int) == j - 1 by {
                        crate::backtrack::lemma_run_unique(hb, c, x as int, y as int, j - 1);
                    }
                    assert forall|c: int| y <= c < j implies #[trigger] hdone(cnf_view(*cnf), s.is_black, x as int, c) by {
                        let lo = run_lo(hb, c, x as int);
                        let hi = run_hi(hb, c, x as int);
                        if 2 <= hi - lo + 1 <= 8 {
                            assert forall|c2: int, n1: int, n2: int|
                                lo <= c2 <= hi && c2 != c && 1 <= n1 <= 9 && 1 <= n2 <= 9 && absdiff(n1 as u8, n2 as u8) >= hi - lo + 1
                                    implies cnf_view(*cnf).contains(#[trigger] neg2(var_of(x as int, c, n1), var_of(x as int, c2, n2))) by {
                                assert(pair_clause(true, x as int, c, c2, n1, n2) == neg2(var_of(x as int, c, n1), var_of(x as int, c2, n2)));
                            }
                        }
                    }
                    assert forall|c: int| 0 <= c < 9 && !s.is_black[x as int][c] && run_lo(hb, c, x as int) == y implies c < j by {
                        crate::backtrack::lemma_run_bounds_pub(hb, c, x as int);
                        if c >= j {
                            assert(!hb(j as int, x as int));
                        }
                    }
                    lemma_grows_trans(start_cnf, b4, cnf_view(*cnf));
                    assert forall|i: int, c: int| 0 <= i < 9 && 0 <= c < 9 && !s.is_black[i][c] && i * 9 + run_lo(hb, c, i) < x * 9 + y
                        implies #[trigger] hdone(cnf_view(*cnf), s.is_black, i, c) by {
                        lemma_done_grows(b4, cnf_view(*cnf), s.is_black, i, c);
                    }
                    assert forall|r: int, jj: int| 0 <= r < 9 && 0 <= jj < 9 && !s.is_black[r][jj] && run_lo(vb, r, jj) * 9 + jj < x * 9 + y
                        implies #[trigger] vdone(cnf_view(*cnf), s.is_black, r, jj) by {
                        lemma_done_grows(b4, cnf_view(*cnf), s.is_black, r, jj);
                    }
                }
            }
            proof {
                assert forall|i: int, c: int| 0 <= i < 9 && 0 <= c < 9 && !s.is_black[i][c] && i * 9 + run_lo(hb, c, i) < x * 9 + y + 1
                    implies #[trigger] hdone(cnf_view(*cnf), s.is_black, i, c) by {
                    crate::backtrack::lemma_run_bounds_pub(hb, c, i);
                    if i * 9 + run_lo(hb, c, i) == x * 9 + y {
                        assert(i == x && run_lo(hb, c, i) == y);
                        if run_lo(hb, c, i) < c {
                            assert(!hb(run_lo(hb, c, i), i));
                        }
                        assert(h_start);
                    }
                }
            }
            let v_start = !s.is_black[x][y] && (x == 0 || s.is_black[x - 1][y]);
            if v_start {
                let mut i = x;
                while i < N && !s.is_black[i][y]
                    invariant x <= i <= 9, x < 9, y < 9,
                        forall|k: int| x <= k < i ==> !#[trigger] s.is_black[k][y as int],
                    decreases 9 - i,
                {
                    i = i + 1;
                }
                let ghost b4 = cnf_view(*cnf);
                proof {
                    assert(x == 0 || vb(x as int - 1, y as int));
                    assert(i == 9 || vb(i as int, y as int));
                }
                encode_compartment(cnf, s, false, y, x, i - x);
                proof {
                    assert forall|r: int| x <= r < i implies run_lo(vb, r, y as int) == x && run_hi(vb, r, y as int) == i - 1 by {
                        crate::backtrack::lemma_run_unique(vb, r, y as int, x as int, i - 1);
                    }
                    assert forall|r: int| x <= r < i implies #[trigger] vdone(cnf_view(*cnf), s.is_black, r, y as int) by {
                        let lo = run_lo(vb, r, y as int);
                        let hi = run_hi(vb, r, y as int);
                        if 2 <= hi - lo + 1 <= 8 {
                            assert forall|r2: int, n1: int, n2: int|
                                lo <= r2 <= hi && r2 != r && 1 <= n1 <= 9 && 1 <= n2 <= 9 && absdiff(n1 as u8, n2 as u8) >= hi - lo + 1
                                    implies cnf_view(*cnf).contains(#[trigger] neg2(var_of(r, y as int, n1), var_of(r2, y as int, n2))) by {
                                assert(pair_clause(false, y as int, r, r2, n1, n2) == neg2(var_of(r, y as int, n1), var_of(r2, y as int, n2)));
                            }
                        }
                    }
                    assert forall|r: int| 0 <= r < 9 && !s.is_black[r][y as int] && run_lo(vb, r, y as int) == x implies r < i by {
                        crate::backtrack::lemma_run_bounds_pub(vb, r, y as int);
                        if r >= i {
                            assert(!vb(i as int, y as int));
                        }
                    }
                    lemma_grows_trans(start_cnf, b4, cnf_view(*cnf));
                    assert forall|ii: int, c: int| 0 <= ii < 9 && 0 <= c < 9 && !s.is_black[ii][c] && ii * 9 + run_lo(hb, c, ii) < x * 9 + y + 1
                        implies #[trigger] hdone(cnf_view(*cnf), s.is_black, ii, c) by {
                        lemma_done_grows(b4, cnf_view(*cnf), s.is_black, ii, c);
                    }
                    assert forall|r: int, jj: int| 0 <= r < 9 && 0 <= jj < 9 && !s.is_black[r][jj] && run_lo(vb, r, jj) * 9 + jj < x * 9 + y
                        implies #[trigger] vdone(cnf_view(*cnf), s.is_black, r, jj) by {
                        lemma_done_grows(b4, cnf_view(*cnf), s.is_black, r, jj);
                    }
                }
            }
            proof {
                assert forall|r: int, jj: int| 0 <= r < 9 && 0 <= jj < 9 && !s.is_black[r][jj] && run_lo(vb, r, jj) * 9 + jj < x * 9 + y + 1
                    implies #[trigger] vdone(cnf_view(*cnf), s.is_black, r, jj) by {
                    crate::backtrack::lemma_run_bounds_pub(vb, r, jj);
                    if run_lo(vb, r, jj) * 9 + jj == x * 9 + y {
                        assert(run_lo(vb, r, jj) == x && jj == y);
                        if run_lo(vb, r, jj) < r {
                            assert(!vb(run_lo(vb, r, jj), jj));
                        }
                        assert(v_start);
                    }
                }
            }
        }
    }
    proof {
        assert forall|x: int, c: int| 0 <= x < 9 && 0 <= c < 9 && !s.is_black[x][c] implies #[trigger] hdone(cnf_view(*cnf), s.is_black, x, c) by {
            crate::backtrack::lemma_run_bounds_pub(hb, c, x);
        }
        assert forall|r: int, y: int| 0 <= r < 9 && 0 <= y < 9 && !s.is_black[r][y] implies #[trigger] vdone(cnf_view(*cnf), s.is_black, r, y) by {
            crate::backtrack::lemma_run_bounds_pub(vb, r, y);
        }
    }
}

} // verus!

verus! {

/// All clauses the encoding needs are present.
pub open spec fn cnf_complete(cnf: Seq<Seq<int>>, numbers: [[u8; N]; N], black: [[bool; N]; N]) -> bool {
    &&& cells_present(cnf, numbers, black)
    &&& lines_present(cnf)
    &&& forall|x: int, c: int| 0 <= x < 9 && 0 <= c < 9 && !black[x][c] ==> #[trigger] hdone(cnf, black, x, c)
    &&& forall|r: int, y: int| 0 <= r < 9 && 0 <= y < 9 && !black[r][y] ==> #[trigger] vdone(cnf, black, r, y)
}

/// The clauses that describe the puzzle.
fn encode(s: &SimpleStr8ts) -> (cnf: Vec<Vec<i32>>)
    ensures
        cnf_ok(cnf_view(cnf), s.numbers, s.is_black),
        cnf_complete(cnf_view(cnf), s.numbers, s.is_black),
{
    let mut cnf: Vec<Vec<i32>> = Vec::new();
    proof {
        assert(cnf_view(cnf) =~= Seq::<Seq<int>>::empty());
    }
    encode_givens(&mut cnf, s);
    let ghost c1 = cnf_view(cnf);
    encode_cells(&mut cnf, s);
    let ghost c2 = cnf_view(cnf);
    encode_lines(&mut cnf, s);
    let ghost c3 = cnf_view(cnf);
    encode_compartments(&mut cnf, s);
    let ghost c4 = cnf_view(cnf);
    proof {
        lemma_grows_trans(c1, c2, c3);
        lemma_grows_trans(c1, c3, c4);
        lemma_grows_trans(c2, c3, c4);
        assert forall|x: int, y: int|
            0 <= x < 9 && 0 <= y < 9 && #[trigger] s.numbers[x][y] != 0 implies c4.contains(seq![var_of(x, y, s.numbers[x][y] as int)]) by {
            lemma_grows_contains(c1, c4, seq![var_of(x, y, s.numbers[x][y] as int)]);
        }
        assert forall|x: int, y: int, n: int|
            0 <= x < 9 && 0 <= y < 9 && 1 <= n <= 9 && s.is_black[x][y] && s.numbers[x][y] == 0 implies c4.contains(
                seq![-var_of(x, y, n)],
            ) && #[trigger] var_of(x, y, n) == var_of(x, y, n) by {
            lemma_grows_contains(c2, c4, seq![-var_of(x, y, n)]);
        }
        assert forall|x: int, y: int|
            0 <= x < 9 && 0 <= y < 9 && !(s.is_black[x][y] && s.numbers[x][y] == 0) implies c4.contains(#[trigger] at_least_one(x, y)) by {
            lemma_grows_contains(c2, c4, at_least_one(x, y));
        }
        assert forall|x: int, y: int, n1: int, n2: int|
            0 <= x < 9 && 0 <= y < 9 && 1 <= n1 < n2 <= 9 && !(s.is_black[x][y] && s.numbers[x][y] == 0) implies c4.contains(
                #[trigger] neg2(var_of(x, y, n1), var_of(x, y, n2)),
            ) by {
            lemma_grows_contains(c2, c4, neg2(var_of(x, y, n1), var_of(x, y, n2)));
        }
        assert forall|x: int, y1: int, y2: int, n: int|
            0 <= x < 9 && 0 <= y1 < y2 < 9 && 1 <= n <= 9 implies c4.contains(
                #[trigger] neg2(var_of(x, y1, n), var_of(x, y2, n)),
            ) by {
            lemma_grows_contains(c3, c4, neg2(var_of(x, y1, n), var_of(x, y2, n)));
        }
        assert forall|y: int, x1: int, x2: int, n: int|
            0 <= y < 9 && 0 <= x1 < x2 < 9 && 1 <= n <= 9 implies c4.contains(
                #[trigger] neg2(var_of(x1, y, n), var_of(x2, y, n)),
            ) by {
            lemma_grows_contains(c3, c4, neg2(var_of(x1, y, n), var_of(x2, y, n)));
        }
    }
    cnf
}

// ---------------------------------------------------------------------------
// From models to solutions
// ---------------------------------------------------------------------------

proof fn lemma_unit_true(m: Map<int, bool>, cnf: Seq<Seq<int>>, a: int)
    requires a > 0, satisfies(m, cnf), cnf.contains(seq![a]),
    ensures m.contains_key(a) && m[a],
{
    let j = choose|j: int| 0 <= j < cnf.len() && cnf[j] == seq![a];
    assert(clause_holds(m, cnf[j]));
    let i = choose|i: int| 0 <= i < cnf[j].len() && #[trigger] lit_holds(m, cnf[j][i]);
}

proof fn lemma_pair_false(m: Map<int, bool>, cnf: Seq<Seq<int>>, a: int, b: int)
    requires a > 0, b > 0, satisfies(m, cnf), cnf.contains(neg2(a, b)), m.contains_key(a), m.contains_key(b),
    ensures !(m[a] && m[b]),
{
    let j = choose|j: int| 0 <= j < cnf.len() && cnf[j] == neg2(a, b);
    assert(clause_holds(m, cnf[j]));
    let i = choose|i: int| 0 <= i < cnf[j].len() && #[trigger] lit_holds(m, cnf[j][i]);
}

/// A full assignment that satisfies the encoding describes a solution.
proof fn lemma_model_solution(
    numbers: [[u8; N]; N],
    black: [[bool; N]; N],
    cnf: Seq<Seq<int>>,
    m: Map<int, bool>,
    t: [[u8; N]; N],
)
    requires
        digits_ok(numbers),
        cnf_complete(cnf, numbers, black),
        satisfies(m, cnf),
        forall|v: int| 1 <= v <= 729 ==> #[trigger] m.contains_key(v),
        forall|x: int, y: int| 0 <= x < 9 && 0 <= y < 9 && !black[x][y] ==> 1 <= #[trigger] t[x][y] <= 9 && m[var_of(x, y, t[x][y] as int)],
        forall|x: int, y: int| 0 <= x < 9 && 0 <= y < 9 && black[x][y] ==> #[trigger] t[x][y] == numbers[x][y],
    ensures completes(numbers, black, t),
{
    // every nonzero digit of t is chosen by m
    assert forall|x: int, y: int| 0 <= x < 9 && 0 <= y < 9 && #[trigger] t[x][y] != 0 implies m[var_of(x, y, t[x][y] as int)] by {
        if black[x][y] {
            lemma_unit_true(m, cnf, var_of(x, y, numbers[x][y] as int));
        }
    }
    assert forall|x: int, y: int, n: int| 0 <= x < 9 && 0 <= y < 9 && 1 <= n <= 9 implies #[trigger] m.contains_key(var_of(x, y, n)) by {
        lemma_var_decode(x, y, n);
    }
    // givens are kept
    assert forall|x: int, y: int|
        0 <= x < 9 && 0 <= y < 9 && (numbers[x][y] != 0 || black[x][y]) implies #[trigger] t[x][y] == numbers[x][y] by {
        if !black[x][y] {
            let g = numbers[x][y] as int;
            let v = t[x][y] as int;
            lemma_unit_true(m, cnf, var_of(x, y, g));
            if g < v {
                lemma_pair_false(m, cnf, var_of(x, y, g), var_of(x, y, v));
            } else if v < g {
                lemma_pair_false(m, cnf, var_of(x, y, v), var_of(x, y, g));
            }
        }
    }
    // rows
    assert forall|x: int, i: int, j: int|
        0 <= x < 9 && 0 <= i < 9 && 0 <= j < 9 && i != j && #[trigger] t[x][i] != 0 implies t[x][i] != #[trigger] t[x][j] by {
        if t[x][i] == t[x][j] {
            let n = t[x][i] as int;
            assert(1 <= n <= 9) by {
                if black[x][i] {
                    assert(numbers[x][i] <= 9);
                }
            }
            if i < j {
                lemma_pair_false(m, cnf, var_of(x, i, n), var_of(x, j, n));
            } else {
                lemma_pair_false(m, cnf, var_of(x, j, n), var_of(x, i, n));
            }
        }
    }
    // columns
    assert forall|y: int, i: int, j: int|
        0 <= y < 9 && 0 <= i < 9 && 0 <= j < 9 && i != j && #[trigger] t[i][y] != 0 implies t[i][y] != #[trigger] t[j][y] by {
        if t[i][y] == t[j][y] {
            let n = t[i][y] as int;
            assert(1 <= n <= 9) by {
                if black[i][y] {
                    assert(numbers[i][y] <= 9);
                }
            }
            if i < j {
                lemma_pair_false(m, cnf, var_of(i, y, n), var_of(j, y, n));
            } else {
                lemma_pair_false(m, cnf, var_of(j, y, n), var_of(i, y, n));
            }
        }
    }
    // compartments
    assert forall|x: int, y: int|
        0 <= x < 9 && 0 <= y < 9 && !black[x][y] && #[trigger] t[x][y] != 0 implies {
            &&& span_ok(by_rows(t), by_rows(black), x, y, t[x][y])
            &&& span_ok(by_cols(t), by_cols(black), y, x, t[x][y])
        } by {
        let vb = by_rows(black);
        let hb = by_cols(black);
        crate::backtrack::lemma_run_bounds_pub(vb, x, y);
        crate::backtrack::lemma_run_bounds_pub(hb, y, x);
        assert forall|i: int|
            run_lo(vb, x, y) <= i <= run_hi(vb, x, y) && i != x && #[trigger] by_rows(t)(i, y) != 0 implies absdiff(
                by_rows(t)(i, y), t[x][y]) <= run_hi(vb, x, y) - run_lo(vb, x, y) by {
            let n1 = t[x][y] as int;
            let n2 = t[i][y] as int;
            if i < x {
                assert(!vb(i, y));
            } else {
                assert(!vb(i, y));
            }
            assert(!black[i][y]);
            if absdiff(n2 as u8, n1 as u8) > run_hi(vb, x, y) - run_lo(vb, x, y) {
                assert(vdone(cnf, black, x, y));
                assert(absdiff(n1 as u8, n2 as u8) == absdiff(n2 as u8, n1 as u8));
                assert(cnf.contains(neg2(var_of(x, y, n1), var_of(i, y, n2))));
                lemma_pair_false(m, cnf, var_of(x, y, n1), var_of(i, y, n2));
            }
        }
        assert forall|i: int|
            run_lo(hb, y, x) <= i <= run_hi(hb, y, x) && i != y && #[trigger] by_cols(t)(i, x) != 0 implies absdiff(
                by_cols(t)(i, x), t[x][y]) <= run_hi(hb, y, x) - run_lo(hb, y, x) by {
            let n1 = t[x][y] as int;
            let n2 = t[x][i] as int;
            assert(!hb(i, x));
            assert(!black[x][i]);
            if absdiff(n2 as u8, n1 as u8) > run_hi(hb, y, x) - run_lo(hb, y, x) {
                assert(hdone(cnf, black, x, y));
                assert(absdiff(n1 as u8, n2 as u8) == absdiff(n2 as u8, n1 as u8));
                assert(cnf.contains(neg2(var_of(x, y, n1), var_of(x, i, n2))));
                lemma_pair_false(m, cnf, var_of(x, y, n1), var_of(x, i, n2));
            }
        }
    }
}

/// Every solution's assignment satisfies a list of sound clauses.
proof fn lemma_solution_model(numbers: [[u8; N]; N], black: [[bool; N]; N], cnf: Seq<Seq<int>>, t: [[u8; N]; N])
    requires all_sound(numbers, black, cnf), completes(numbers, black, t),
    ensures satisfies(board_model(t), cnf),
{
    reveal(sound);
    assert forall|j: int| 0 <= j < cnf.len() implies #[trigger] clause_holds(board_model(t), cnf[j]) by {
        assert(sound(numbers, black, cnf[j]));
    }
}

/// The complete encoding mentions every variable.
proof fn lemma_covers_all(cnf: Seq<Seq<int>>, numbers: [[u8; N]; N], black: [[bool; N]; N], m: Map<int, bool>)
    requires cnf_complete(cnf, numbers, black), covers(m, cnf),
    ensures forall|v: int| 1 <= v <= 729 ==> #[trigger] m.contains_key(v),
{
    assert forall|v: int| 1 <= v <= 729 implies #[trigger] m.contains_key(v) by {
        let x = (v - 1) / 81;
        let y = ((v - 1) % 81) / 9;
        let n = (v - 1) % 9 + 1;
        assert(0 <= x < 9 && 0 <= y < 9 && 1 <= n <= 9 && v == var_of(x, y, n)) by (nonlinear_arith)
            requires 1 <= v <= 729, x == (v - 1) / 81, y == ((v - 1) % 81) / 9, n == (v - 1) % 9 + 1;
        if black[x][y] && numbers[x][y] == 0 {
            assert(var_of(x, y, n) == var_of(x, y, n));
            let c = seq![-var_of(x, y, n)];
            let j = choose|j: int| 0 <= j < cnf.len() && cnf[j] == c;
            assert(cnf[j][0] == -v);
            assert(m.contains_key(lit_var(cnf[j][0])));
        } else {
            let c = at_least_one(x, y);
            assert(cnf.contains(c));
            let j = choose|j: int| 0 <= j < cnf.len() && cnf[j] == c;
            assert(cnf[j][n - 1] == v);
            assert(m.contains_key(lit_var(cnf[j][n - 1])));
        }
    }
}

} // verus!

verus! {

/// Outcome of checking a puzzle with the SAT solver.
#[derive(Debug, Clone, Copy, PartialEq, Eq)]
pub enum SatPuzzleStatus {
    /// No solution.
    Invalid,
    /// More than one solution.
    NonUnique,
    /// Exactly one solution.
    Unique,
}

fn load_clauses(solver: &mut SatSolver, cnf: &Vec<Vec<i32>>)
    requires
        vars_ok(cnf_view(*cnf)),
        solver_clauses(*old(solver)) == Seq::<Seq<int>>::empty(),
        solver_model(*old(solver)) is None,
    ensures
        solver_clauses(*final(solver)) == cnf_view(*cnf),
        solver_model(*final(solver)) is None,
{
    let n = cnf.len();
    for k in 0..n
        invariant
            n == cnf@.len(),
            vars_ok(cnf_view(*cnf)),
            solver_clauses(*solver) == cnf_view(*cnf).take(k as int),
            solver_model(*solver) is None,
    {
        proof {
            assert(clause_ok(cnf_view(*cnf)[k as int]));
            assert(cnf_view(*cnf)[k as int] == clause_view(cnf@[k as int]));
            assert(cnf_view(*cnf).take(k + 1) == cnf_view(*cnf).take(k as int).push(clause_view(cnf@[k as int])));
        }
        solver_add_clause(solver, &cnf[k]);
    }
    proof {
        assert(cnf_view(*cnf).take(n as int) == cnf_view(*cnf));
    }
}

} // verus!

verus! {

/// The first digit whose variable the model sets for white cell `(x, y)`.
fn model_digit(solver: &SatSolver, x: usize, y: usize, Ghost(cnf): Ghost<Seq<Seq<int>>>) -> (d: u8)
    requires
        x < 9,
        y < 9,
        solver_model(*solver) is Some,
        satisfies(solver_model(*solver)->0, cnf),
        cnf.contains(at_least_one(x as int, y as int)),
        forall|v: int| 1 <= v <= 729 ==> #[trigger] solver_model(*solver)->0.contains_key(v),
    ensures
        1 <= d <= 9,
        solver_model(*solver)->0[var_of(x as int, y as int, d as int)],
{
    let ghost m = solver_model(*solver)->0;
    let mut n: usize = 1;
    while n <= 9
        invariant
            x < 9,
            y < 9,
            1 <= n <= 10,
            m == solver_model(*solver)->0,
            solver_model(*solver) is Some,
            forall|v: int| 1 <= v <= 729 ==> #[trigger] m.contains_key(v),
            forall|k: int| 1 <= k < n ==> !m[#[trigger] var_of(x as int, y as int, k)],
        decreases 10 - n,
    {
        let v = var_id(x, y, n);
        proof {
            lemma_var_decode(x as int, y as int, n as int);
        }
        if solver_value(solver, v) == Some(true) {
            return n as u8;
        }
        n = n + 1;
    }
    proof {
        let c = at_least_one(x as int, y as int);
        let j = choose|j: int| 0 <= j < cnf.len() && cnf[j] == c;
        assert(clause_holds(m, cnf[j]));
        let i = choose|i: int| 0 <= i < cnf[j].len() && #[trigger] lit_holds(m, cnf[j][i]);
        assert(cnf[j][i] == var_of(x as int, y as int, i + 1));
        assert(!m[var_of(x as int, y as int, i + 1)]);
    }
    0
}

/// Reads the digits of the model into the white cells; black cells keep the
/// board's digits.
fn read_solution(solver: &SatSolver, s: &SimpleStr8ts, Ghost(cnf): Ghost<Seq<Seq<int>>>) -> (t: [[u8; N]; N])
    requires
        solver_model(*solver) is Some,
        satisfies(solver_model(*solver)->0, cnf),
        cells_present(cnf, s.numbers, s.is_black),
        forall|v: int| 1 <= v <= 729 ==> #[trigger] solver_model(*solver)->0.contains_key(v),
    ensures
        forall|x: int, y: int| 0 <= x < 9 && 0 <= y < 9 && s.is_black[x][y] ==> #[trigger] t[x][y] == s.numbers[x][y],
        forall|x: int, y: int| 0 <= x < 9 && 0 <= y < 9 && !s.is_black[x][y] ==> 1 <= #[trigger] t[x][y] <= 9
            && solver_model(*solver)->0[var_of(x, y, t[x][y] as int)],
{
    let ghost m = solver_model(*solver)->0;
    let mut t = s.numbers;
    for x in 0..N
        invariant
            m == solver_model(*solver)->0,
            solver_model(*solver) is Some,
            satisfies(m, cnf),
            cells_present(cnf, s.numbers, s.is_black),
            forall|v: int| 1 <= v <= 729 ==> #[trigger] m.contains_key(v),
            forall|i: int, y: int| 0 <= i < 9 && 0 <= y < 9 && (s.is_black[i][y] || i >= x) ==> #[trigger] t[i][y] == s.numbers[i][y],
            forall|i: int, y: int| 0 <= i < x && 0 <= y < 9 && !s.is_black[i][y] ==> 1 <= #[trigger] t[i][y] <= 9 && m[var_of(i, y, t[i][y] as int)],
    {
        for y in 0..N
            invariant
                x < 9,
                m == solver_model(*solver)->0,
                solver_model(*solver) is Some,
                satisfies(m, cnf),
                cells_present(cnf, s.numbers, s.is_black),
                forall|v: int| 1 <= v <= 729 ==> #[trigger] m.contains_key(v),
                forall|i: int, j: int| 0 <= i < 9 && 0 <= j < 9 && (s.is_black[i][j] || i > x || (i == x && j >= y)) ==> #[trigger] t[i][j] == s.numbers[i][j],
                forall|i: int, j: int| 0 <= i < 9 && 0 <= j < 9 && (i < x || (i == x && j < y)) && !s.is_black[i][j] ==> 1 <= #[trigger] t[i][j] <= 9 && m[var_of(i, j, t[i][j] as int)],
        {
            if !s.is_black[x][y] {
                proof {
                    assert(!(s.is_black[x as int][y as int] && s.numbers[x as int][y as int] == 0));
                }
                let d = model_digit(solver, x, y, Ghost(cnf));
                t[x][y] = d;
            }
        }
    }
    t
}

} // verus!

verus! {

/// The literal "cell `(x, y)` does not hold the digit `t` gives it".
pub open spec fn cell_lit(t: [[u8; N]; N], x: int, y: int) -> int {
    -var_of(x, y, t[x][y] as int)
}

/// `c` is the clause that forbids the white cells of `t` all at once: its
/// literals are those of the white cells, listed in `cells`.
pub open spec fn blocks(c: Seq<int>, cells: Seq<(int, int)>, t: [[u8; N]; N], black: [[bool; N]; N]) -> bool {
    &&& c.len() == cells.len()
    &&& forall|k: int| 0 <= k < c.len() ==> {
        let (a, b) = #[trigger] cells[k];
        &&& 0 <= a < 9 && 0 <= b < 9 && !black[a][b]
        &&& c[k] == cell_lit(t, a, b)
    }
}

/// Builds the clause that rules out the white digits of `t`.
fn blocking_clause(t: &[[u8; N]; N], black: &[[bool; N]; N]) -> (res: (Vec<i32>, Ghost<Seq<(int, int)>>))
    requires
        forall|x: int, y: int| 0 <= x < 9 && 0 <= y < 9 && !black[x][y] ==> 1 <= #[trigger] t[x][y] <= 9,
    ensures
        clause_ok(clause_view(res.0)),
        blocks(clause_view(res.0), res.1@, *t, *black),
        forall|x: int, y: int| 0 <= x < 9 && 0 <= y < 9 && !black[x][y] ==> #[trigger] res.1@.contains((x, y)),
{
    let mut c: Vec<i32> = Vec::new();
    let ghost mut cells: Seq<(int, int)> = Seq::empty();
    for x in 0..N
        invariant
            forall|i: int, j: int| 0 <= i < 9 && 0 <= j < 9 && !black[i][j] ==> 1 <= #[trigger] t[i][j] <= 9,
            clause_ok(clause_view(c)),
            blocks(clause_view(c), cells, *t, *black),
            forall|i: int, j: int| 0 <= i < x && 0 <= j < 9 && !black[i][j] ==> #[trigger] cells.contains((i, j)),
    {
        for y in 0..N
            invariant
                x < 9,
                forall|i: int, j: int| 0 <= i < 9 && 0 <= j < 9 && !black[i][j] ==> 1 <= #[trigger] t[i][j] <= 9,
                clause_ok(clause_view(c)),
                blocks(clause_view(c), cells, *t, *black),
                forall|i: int, j: int|
                    0 <= i < 9 && 0 <= j < 9 && (i < x || (i == x && j < y)) && !black[i][j] ==> #[trigger] cells.contains((i, j)),
        {
            let ghost old_cells = cells;
            if !black[x][y] {
                let n = t[x][y];
                let v = var_id(x, y, n as usize);
                let ghost old_c = clause_view(c);
                c.push(-v);
                proof {
                    cells = cells.push((x as int, y as int));
                    assert(clause_view(c) == old_c.push(-v as int));
                    assert(cells[cells.len() - 1] == (x as int, y as int));
                }
            }
            proof {
                assert forall|i: int, j: int|
                    0 <= i < 9 && 0 <= j < 9 && (i < x || (i == x && j < y + 1)) && !black[i][j] implies #[trigger] cells.contains((i, j)) by {
                    if i == x && j == y {
                        assert(cells[cells.len() - 1] == (i, j));
                    } else {
                        assert(old_cells.contains((i, j)));
                        let k = choose|k: int| 0 <= k < old_cells.len() && old_cells[k] == (i, j);
                        assert(cells[k] == old_cells[k]);
                    }
                }
            }
        }
    }
    (c, Ghost(cells))
}

/// Solves the board with the SAT solver. On `true` the white cells hold the
/// digits of a solution; on `false` the board is unchanged and (for digits
/// up to 9) there is no solution.
pub fn solve_sat(s: &mut SimpleStr8ts) -> (solved: bool)
    ensures
        final(s).is_black == old(s).is_black,
        solved ==> forall|x: int, y: int| 0 <= x < 9 && 0 <= y < 9 && old(s).is_black[x][y] ==> #[trigger] final(s).numbers[x][y] == old(s).numbers[x][y],
        solved ==> forall|x: int, y: int| 0 <= x < 9 && 0 <= y < 9 && !old(s).is_black[x][y] ==> 1 <= #[trigger] final(s).numbers[x][y] <= 9,
        solved && digits_ok(old(s).numbers) ==> completes(old(s).numbers, old(s).is_black, final(s).numbers),
        !solved ==> final(s).numbers == old(s).numbers,
        !solved && digits_ok(old(s).numbers) ==> forall|t: [[u8; N]; N]| !completes(old(s).numbers, old(s).is_black, t),
{
    let cnf = encode(s);
    let ghost cv = cnf_view(cnf);
    let mut solver = solver_new();
    load_clauses(&mut solver, &cnf);
    if !solver_solve(&mut solver) {
        proof {
            if digits_ok(s.numbers) {
                assert forall|t: [[u8; N]; N]| !completes(s.numbers, s.is_black, t) by {
                    if completes(s.numbers, s.is_black, t) {
                        lemma_solution_model(s.numbers, s.is_black, cv, t);
                    }
                }
            }
        }
        return false;
    }
    proof {
        lemma_covers_all(cv, s.numbers, s.is_black, solver_model(solver)->0);
    }
    let t = read_solution(&solver, s, Ghost(cv));
    proof {
        if digits_ok(s.numbers) {
            lemma_model_solution(s.numbers, s.is_black, cv, solver_model(solver)->0, t);
        }
    }
    s.numbers = t;
    true
}

/// Classifies the puzzle by its solutions: none, exactly one, or more. A
/// first solution is found, then the solver is asked again with a clause that
/// rules that solution out.
pub fn puzzle_status_sat(s: &SimpleStr8ts) -> (status: SatPuzzleStatus)
    ensures
        digits_ok(s.numbers) ==> ((status == SatPuzzleStatus::Invalid) <==> forall|t: [[u8; N]; N]|
            !completes(s.numbers, s.is_black, t)),
        digits_ok(s.numbers) && status == SatPuzzleStatus::Unique ==> exists|t: [[u8; N]; N]|
            #[trigger] completes(s.numbers, s.is_black, t),
        digits_ok(s.numbers) && status == SatPuzzleStatus::Unique ==> forall|t1: [[u8; N]; N], t2: [[u8; N]; N]|
            #[trigger] completes(s.numbers, s.is_black, t1) && #[trigger] completes(s.numbers, s.is_black, t2) ==> t1 == t2,
        digits_ok(s.numbers) && status == SatPuzzleStatus::NonUnique ==> exists|t1: [[u8; N]; N], t2: [[u8; N]; N]|
            #[trigger] completes(s.numbers, s.is_black, t1) && #[trigger] completes(s.numbers, s.is_black, t2) && t1 != t2,
{
    let cnf = encode(s);
    let ghost cv = cnf_view(cnf);
    let mut solver = solver_new();
    load_clauses(&mut solver, &cnf);
    if !solver_solve(&mut solver) {
        proof {
            if digits_ok(s.numbers) {
                assert forall|t: [[u8; N]; N]| !completes(s.numbers, s.is_black, t) by {
                    if completes(s.numbers, s.is_black, t) {
                        lemma_solution_model(s.numbers, s.is_black, cv, t);
                    }
                }
            }
        }
        return SatPuzzleStatus::Invalid;
    }
    proof {
        lemma_covers_all(cv, s.numbers, s.is_black, solver_model(solver)->0);
    }
    let first = read_solution(&solver, s, Ghost(cv));
    proof {
        if digits_ok(s.numbers) {
            lemma_model_solution(s.numbers, s.is_black, cv, solver_model(solver)->0, first);
        }
    }
    let (blocking, Ghost(cells)) = blocking_clause(&first, &s.is_black);
    let ghost bv = clause_view(blocking);
    solver_add_clause(&mut solver, &blocking);
    let ghost cv2 = cv.push(bv);
    if solver_solve(&mut solver) {
        let ghost m2 = solver_model(solver)->0;
        proof {
            assert forall|j: int| 0 <= j < cv.len() implies #[trigger] clause_holds(m2, cv[j]) by {
                assert(cv2[j] == cv[j]);
                assert(clause_holds(m2, cv2[j]));
            }
            assert forall|j: int, i: int| 0 <= j < cv.len() && 0 <= i < cv[j].len() implies m2.contains_key(lit_var(#[trigger] cv[j][i])) by {
                assert(cv2[j] == cv[j]);
                assert(cv2[j][i] == cv[j][i]);
            }
            lemma_covers_all(cv, s.numbers, s.is_black, m2);
        }
        let second = read_solution(&solver, s, Ghost(cv));
        proof {
            if digits_ok(s.numbers) {
                lemma_model_solution(s.numbers, s.is_black, cv, m2, second);
                assert(clause_holds(m2, cv2[cv.len() as int]));
                let k = choose|k: int| 0 <= k < bv.len() && #[trigger] lit_holds(m2, bv[k]);
                let (a, b) = cells[k];
                lemma_var_decode(a, b, first[a][b] as int);
                lemma_var_decode(a, b, second[a][b] as int);
                assert(second[a][b] != first[a][b]);
                assert(completes(s.numbers, s.is_black, first) && completes(s.numbers, s.is_black, second) && first != second);
            }
        }
        SatPuzzleStatus::NonUnique
    } else {
        proof {
            if digits_ok(s.numbers) {
                assert forall|t1: [[u8; N]; N], t2: [[u8; N]; N]|
                    #[trigger] completes(s.numbers, s.is_black, t1) && #[trigger] completes(s.numbers, s.is_black, t2) implies t1 == t2 by {
                    lemma_only_first(s.numbers, s.is_black, cv, bv, cells, first, t1);
                    lemma_only_first(s.numbers, s.is_black, cv, bv, cells, first, t2);
                }
            }
        }
        SatPuzzleStatus::Unique
    }
}

/// With the blocking clause for `first` added, a solution other than `first`
/// would satisfy every clause.
proof fn lemma_only_first(
    numbers: [[u8; N]; N],
    black: [[bool; N]; N],
    cnf: Seq<Seq<int>>,
    bv: Seq<int>,
    cells: Seq<(int, int)>,
    first: [[u8; N]; N],
    t: [[u8; N]; N],
)
    requires
        digits_ok(numbers),
        all_sound(numbers, black, cnf),
        blocks(bv, cells, first, black),
        forall|x: int, y: int| 0 <= x < 9 && 0 <= y < 9 && !black[x][y] ==> #[trigger] cells.contains((x, y)),
        completes(numbers, black, first),
        forall|m: Map<int, bool>| !satisfies(m, cnf.push(bv)),
        completes(numbers, black, t),
    ensures t == first,
{
    let m = board_model(t);
    lemma_solution_model(numbers, black, cnf, t);
    if t != first {
        if forall|x: int, y: int| 0 <= x < 9 && 0 <= y < 9 ==> #[trigger] t[x][y] == first[x][y] {
            crate::board::lemma_grid_eq(t, first);
        }
        let (a, b) = choose|x: int, y: int| 0 <= x < 9 && 0 <= y < 9 && #[trigger] t[x][y] != first[x][y];
        assert(!black[a][b]);
        assert(cells.contains((a, b)));
        let k = choose|k: int| 0 <= k < cells.len() && cells[k] == (a, b);
        assert(bv[k] == cell_lit(first, a, b));
        lemma_board_model(t, a, b, first[a][b] as int);
        assert(lit_holds(m, bv[k]));
        assert(clause_holds(m, bv));
        let c2 = cnf.push(bv);
        assert forall|j: int| 0 <= j < c2.len() implies #[trigger] clause_holds(m, c2[j]) by {
            if j < cnf.len() {
                assert(c2[j] == cnf[j]);
            }
        }
        assert(satisfies(m, c2));
    }
}


/// On a puzzle that `puzzle_status_sat` rates `Unique`, the solutions that
/// `solve_simple` (on a board whose digits break no rule) and `solve_sat`
/// write are the same.
pub proof fn lemma_solvers_agree(numbers: [[u8; N]; N], black: [[bool; N]; N], by_search: [[u8; N]; N], by_sat: [[u8; N]; N])
    requires
        forall|t1: [[u8; N]; N], t2: [[u8; N]; N]| #[trigger] completes(numbers, black, t1) && #[trigger] completes(numbers, black, t2) ==> t1 == t2,
        completes(numbers, black, by_search),
        completes(numbers, black, by_sat),
    ensures by_search == by_sat,
{
}

} // verus!
