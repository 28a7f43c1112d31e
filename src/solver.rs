//! Binding cells to solver literals, handing each line's clauses to a
//! `varisat` solver, and writing a model back onto the grid.
use varisat::solver::SolverError;
use varisat::{ExtendFormula, Lit, Solver};
use vstd::arithmetic::div_mod::{lemma_fundamental_div_mod_converse_div, lemma_fundamental_div_mod_converse_mod};
use vstd::prelude::*;

use crate::grid::{column_of, rules_view, solved, Nonogram};
use crate::line::{
    forbidden_clauses,
    clues_positive, is_sign_choice, line_valid, make_group_cnf, negated, one_to, signs, universal_set, views,
};

verus! {

#[verifier::external_type_specification]
#[verifier::external_body]
pub struct ExSolver<'a>(Solver<'a>);

#[verifier::external_type_specification]
#[verifier::external_body]
pub struct ExSolverError(SolverError);

/// The largest side for which every cell has a solver variable: the solver
/// takes at most `2^28` variables.
pub const MAX_SIDE: usize = 16384;

/// Why a puzzle has no solution written onto its grid.
#[derive(Debug, Clone, Copy, PartialEq, Eq)]
pub enum SolveError {
    /// The clauses have no model: the clues contradict each other.
    Unsatisfiable,
    /// The solver stopped without an answer.
    SolverFailed,
}

/// The clauses that a solver has been given, in order.
pub uninterp spec fn clauses_given(s: Solver) -> Seq<Seq<i32>>;

/// The solver runs a solve to an answer: it has no assumptions, no proof
/// output and no interruption, and no solve of it has failed.
pub uninterp spec fn solver_plain(s: Solver) -> bool;

/// The last solve found a model and no clause has been added since.
pub uninterp spec fn solver_found(s: Solver) -> bool;

/// `clause` has a literal that `model` holds.
pub open spec fn clause_met(model: Seq<isize>, clause: Seq<i32>) -> bool {
    exists|j: int| 0 <= j < clause.len() && model.contains(#[trigger] clause[j] as isize)
}

/// Every clause of `cnf` has a literal that `model` holds.
pub open spec fn meets(model: Seq<isize>, cnf: Seq<Seq<i32>>) -> bool {
    forall|i: int| 0 <= i < cnf.len() ==> clause_met(model, #[trigger] cnf[i])
}

/// `model` never holds a literal together with its negation.
pub open spec fn consistent(model: Seq<isize>) -> bool {
    forall|a: int, b: int| 0 <= a < model.len() && 0 <= b < model.len() ==> #[trigger] model[a] + #[trigger] model[b] != 0
}

/// Relies on `Solver::new`: a solver that holds no clauses yet.
#[verifier::external_body]
fn solver_new<'a>() -> (s: Solver<'a>)
    ensures
        clauses_given(s) == Seq::<Seq<i32>>::empty(),
        solver_plain(s),
{
    Solver::new()
}

/// Relies on `ExtendFormula::add_clause` of `Solver`, with each literal made
/// by `Lit::from_dimacs`, which takes a nonzero number whose magnitude names
/// a variable up to `2^28`.
#[verifier::external_body]
fn solver_add_clause(solver: &mut Solver, clause: &Vec<i32>)
    requires
        forall|j: int| 0 <= j < clause@.len() ==> #[trigger] clause@[j] != 0 && -0x1000_0000 <= clause@[j] <= 0x1000_0000,
    ensures
        clauses_given(*final(solver)) == clauses_given(*old(solver)).push(clause@),
        solver_plain(*old(solver)) ==> solver_plain(*final(solver)),
{
    let lits: Vec<Lit> = clause.iter().map(|&x| Lit::from_dimacs(x as isize)).collect();
    solver.add_clause(&lits);
}

/// Relies on `Solver::solve`: on a plain solver (it panics on one that an
/// earlier error left invalid) it searches until the satisfiability of the
/// clauses given is decided;
/// `true` when a model was found, `false` when none exists. The clauses
/// given stay as they were.
#[verifier::external_body]
fn solver_solve(solver: &mut Solver) -> (r: Result<bool, SolverError>)
    requires
        solver_plain(*old(solver)),
    ensures
        clauses_given(*final(solver)) == clauses_given(*old(solver)),
        r is Ok,
        r matches Ok(true) ==> solver_found(*final(solver)),
        r == Ok::<bool, SolverError>(false) ==> forall|m: Seq<isize>|
            consistent(m) ==> !#[trigger] meets(m, clauses_given(*final(solver))),
{
    solver.solve()
}

/// Relies on `Solver::model`, with each literal turned into its number by
/// `Lit::to_dimacs`: after a satisfiable solve, one literal for each variable
/// in use, which together satisfy every clause given (a clause added after
/// the solve makes it return `None` again).
#[verifier::external_body]
fn solver_model(solver: &Solver) -> (r: Option<Vec<isize>>)
    ensures
        r matches Some(m) ==> meets(m@, clauses_given(*solver)) && consistent(m@),
        solver_found(*solver) ==> r is Some,
{
    solver.model().map(|m| m.iter().map(|l| l.to_dimacs()).collect())
}

/// The solver variable of the cell at `row`, `col` of an `n` by `n` grid,
/// numbered from 1 in row-major order.
pub open spec fn literal_of(n: int, row: int, col: int) -> int {
    row * n + col + 1
}

/// The grid that `model` describes: a cell is filled when its variable holds.
pub open spec fn model_grid(model: Seq<isize>, n: int) -> Seq<Seq<bool>> {
    Seq::new(n as nat, |i: int| Seq::new(n as nat, |j: int| model.contains(literal_of(n, i, j) as isize)))
}

/// The rows of a grid as sequences.
pub open spec fn grid_view(g: Seq<Vec<bool>>) -> Seq<Seq<bool>> {
    Seq::new(g.len(), |i: int| g[i]@)
}

proof fn lemma_literal_range(n: int, i: int, j: int)
    requires
        n <= MAX_SIDE,
        0 <= i < n,
        0 <= j < n,
    ensures
        1 <= literal_of(n, i, j) <= n * n <= 0x1000_0000,
{
    assert(i * n + j + 1 <= n * n) by (nonlinear_arith)
        requires
            0 <= i < n,
            0 <= j < n,
    ;
    assert(n * n <= 16384 * 16384) by (nonlinear_arith)
        requires
            0 <= n <= 16384,
    ;
    assert(0 <= i * n) by (nonlinear_arith)
        requires
            0 <= i,
            0 <= n,
    ;
}

/// The variable of one cell.
pub fn cell_literal(size: usize, row: usize, col: usize) -> (r: i32)
    requires
        size <= MAX_SIDE,
        row < size,
        col < size,
    ensures
        r == literal_of(size as int, row as int, col as int),
        1 <= r <= size * size,
{
    proof {
        assert(row * size + col + 1 <= size * size) by (nonlinear_arith)
            requires
                row < size,
                col < size,
        ;
        assert(size * size <= MAX_SIDE * MAX_SIDE) by (nonlinear_arith)
            requires
                size <= MAX_SIDE,
        ;
        assert(0 <= row * size) by (nonlinear_arith);
    }
    (row * size + col + 1) as i32
}

/// A line's clause put onto the variables `vars`.
pub open spec fn bound(clause: Seq<i32>, vars: Seq<i32>) -> Seq<i32> {
    Seq::new(clause.len(), |j: int| (if clause[j] > 0 { vars[j] as int } else { -vars[j] }) as i32)
}

/// `later` keeps the clauses of `earlier` in front.
pub open spec fn extends(later: Seq<Seq<i32>>, earlier: Seq<Seq<i32>>) -> bool {
    earlier.len() <= later.len() && forall|t: int| 0 <= t < earlier.len() ==> #[trigger] later[t] == earlier[t]
}

/// Puts a line's clause onto the grid's variables: position `i` of the
/// clause becomes `vars[i]`, keeping its sign.
pub fn bind_clause(clause: &Vec<i32>, vars: &[i32]) -> (r: Vec<i32>)
    requires
        clause@.len() == vars@.len(),
        forall|j: int| 0 <= j < vars@.len() ==> #[trigger] vars@[j] > i32::MIN,
    ensures
        r@ == bound(clause@, vars@),
{
    let mut f: Vec<i32> = Vec::new();
    let mut i: usize = 0;
    while i < vars.len()
        invariant
            i <= vars@.len() == clause@.len(),
            f@.len() == i,
            forall|j: int| 0 <= j < vars@.len() ==> #[trigger] vars@[j] > i32::MIN,
            forall|j: int|
                0 <= j < i ==> #[trigger] f@[j] == if clause@[j] > 0 {
                    vars@[j] as int
                } else {
                    -vars@[j]
                },
        decreases vars@.len() - i,
    {
        if clause[i] > 0 {
            f.push(vars[i]);
        } else {
            f.push(-vars[i]);
        }
        i = i + 1;
    }
    assert(f@ =~= bound(clause@, vars@));
    f
}

/// Each clause of `cs` put onto the variables `vars`.
pub open spec fn bound_all(cs: Seq<Seq<i32>>, vars: Seq<i32>) -> Seq<Seq<i32>> {
    Seq::new(cs.len(), |t: int| bound(cs[t], vars))
}

/// The variables of row (`is_row`) or column `i` of an `n` by `n` grid.
pub open spec fn line_lits(n: int, i: int, is_row: bool) -> Seq<i32> {
    if is_row {
        row_lits(n, i)
    } else {
        col_lits(n, i)
    }
}

/// The clauses of the first `k` rows (`is_row`) or columns of an `n` by `n`
/// grid whose clues are `rules`, over the truth table `all`, in order.
pub open spec fn lines_formula(n: int, all: Seq<Seq<i32>>, rules: Seq<Seq<usize>>, k: nat, is_row: bool) -> Seq<Seq<i32>>
    decreases k,
{
    if k == 0 {
        Seq::empty()
    } else {
        lines_formula(n, all, rules, (k - 1) as nat, is_row) + bound_all(
            crate::line::forbidden_clauses(all, rules[k - 1]),
            line_lits(n, k - 1, is_row),
        )
    }
}

/// The variables of row `i` of an `n` by `n` grid, in line order.
pub open spec fn row_lits(n: int, i: int) -> Seq<i32> {
    Seq::new(n as nat, |j: int| literal_of(n, i, j) as i32)
}

/// The variables of column `i` of an `n` by `n` grid, in line order.
pub open spec fn col_lits(n: int, i: int) -> Seq<i32> {
    Seq::new(n as nat, |j: int| literal_of(n, j, i) as i32)
}

/// `cnf` forbids, on the variables `vars`, every vector of `all` whose
/// filled cells do not hold the runs `sets`.
pub open spec fn forbids(cnf: Seq<Seq<i32>>, all: Seq<Seq<i32>>, vars: Seq<i32>, sets: Seq<usize>) -> bool {
    forall|k: int|
        0 <= k < all.len() && !line_valid(signs(#[trigger] all[k]), sets) ==> cnf.contains(bound(negated(all[k]), vars))
}

proof fn lemma_extends_forbids(
    later: Seq<Seq<i32>>,
    earlier: Seq<Seq<i32>>,
    all: Seq<Seq<i32>>,
    vars: Seq<i32>,
    sets: Seq<usize>,
)
    requires
        extends(later, earlier),
        forbids(earlier, all, vars, sets),
    ensures
        forbids(later, all, vars, sets),
{
    assert forall|k: int| 0 <= k < all.len() && !line_valid(signs(#[trigger] all[k]), sets) implies later.contains(
        bound(negated(all[k]), vars),
    ) by {
        let c = bound(negated(all[k]), vars);
        assert(earlier.contains(c));
        let t = choose|t: int| 0 <= t < earlier.len() && earlier[t] == c;
        assert(later[t] == c);
    }
}

/// A consistent model that meets clauses forbidding every assignment of a
/// line that does not hold its runs fills that line so that it holds them.
proof fn lemma_model_line(m: Seq<isize>, cnf: Seq<Seq<i32>>, all: Seq<Seq<i32>>, vars: Seq<i32>, sets: Seq<usize>, n: nat)
    requires
        n <= MAX_SIDE,
        meets(m, cnf),
        consistent(m),
        forbids(cnf, all, vars, sets),
        forall|v: Seq<i32>| #[trigger] is_sign_choice(v, one_to(n)) ==> all.contains(v),
        vars.len() == n,
        forall|j: int| 0 <= j < n ==> 1 <= #[trigger] vars[j] <= 0x1000_0000,
    ensures
        line_valid(Seq::new(n, |j: int| m.contains(vars[j] as isize)), sets),
{
    let target = Seq::new(n, |j: int| m.contains(vars[j] as isize));
    let v = Seq::new(n, |j: int| if m.contains(vars[j] as isize) { (j + 1) as i32 } else { (-(j + 1)) as i32 });
    assert(signs(v) =~= target);
    assert(is_sign_choice(v, one_to(n))) by {
        assert forall|j: int| 0 <= j < v.len() implies (#[trigger] v[j] == one_to(n)[j] || v[j] == -one_to(n)[j]) by {}
    }
    if !line_valid(target, sets) {
        assert(all.contains(v));
        let k = choose|k: int| 0 <= k < all.len() && all[k] == v;
        assert(!line_valid(signs(all[k]), sets));
        let b = bound(negated(v), vars);
        assert(cnf.contains(b));
        let t = choose|t: int| 0 <= t < cnf.len() && cnf[t] == b;
        assert(clause_met(m, cnf[t]));
        let j = choose|j: int| 0 <= j < cnf[t].len() && m.contains(#[trigger] cnf[t][j] as isize);
        assert(negated(v)[j] == -v[j]);
        if m.contains(vars[j] as isize) {
            assert(b[j] == -vars[j]);
            let a = choose|a: int| 0 <= a < m.len() && m[a] == vars[j] as isize;
            let c = choose|c: int| 0 <= c < m.len() && m[c] == b[j] as isize;
            assert(m[a] + m[c] == 0);
        } else {
            assert(b[j] == vars[j]);
        }
    }
}

proof fn lemma_forbidden_elem(all: Seq<Seq<i32>>, sets: Seq<usize>, t: int) -> (k: int)
    requires
        0 <= t < forbidden_clauses(all, sets).len(),
    ensures
        0 <= k < all.len(),
        !line_valid(signs(all[k]), sets),
        forbidden_clauses(all, sets)[t] == negated(all[k]),
    decreases all.len(),
{
    let p = forbidden_clauses(all.drop_last(), sets);
    if t < p.len() {
        let k = lemma_forbidden_elem(all.drop_last(), sets, t);
        assert(all.drop_last()[k] == all[k]);
        k
    } else {
        (all.len() - 1) as int
    }
}

proof fn lemma_lines_elem(n: int, all: Seq<Seq<i32>>, rules: Seq<Seq<usize>>, k: nat, is_row: bool, t: int) -> (rw: (int, int))
    requires
        0 <= t < lines_formula(n, all, rules, k, is_row).len(),
    ensures
        0 <= rw.0 < k,
        0 <= rw.1 < all.len(),
        !line_valid(signs(all[rw.1]), rules[rw.0]),
        lines_formula(n, all, rules, k, is_row)[t] == bound(negated(all[rw.1]), line_lits(n, rw.0, is_row)),
    decreases k,
{
    let prev = lines_formula(n, all, rules, (k - 1) as nat, is_row);
    if t < prev.len() {
        lemma_lines_elem(n, all, rules, (k - 1) as nat, is_row, t)
    } else {
        let w = lemma_forbidden_elem(all, rules[k - 1], t - prev.len());
        ((k - 1) as int, w)
    }
}

/// The grid `g` as a model: the variable of each cell with the sign of its state.
pub open spec fn grid_model(g: Seq<Seq<bool>>, n: int) -> Seq<isize> {
    Seq::new((n * n) as nat, |k: int| (if g[k / n][k % n] { k + 1 } else { -(k + 1) }) as isize)
}

/// `g` is `n` rows of `n` cells.
pub open spec fn grid_shaped(g: Seq<Seq<bool>>, n: int) -> bool {
    g.len() == n && forall|i: int| 0 <= i < n ==> (#[trigger] g[i]).len() == n
}

proof fn lemma_grid_model_cell(g: Seq<Seq<bool>>, n: int, i: int, j: int)
    requires
        n <= MAX_SIDE,
        0 <= i < n,
        0 <= j < n,
    ensures
        grid_model(g, n).contains((if g[i][j] { literal_of(n, i, j) } else { -literal_of(n, i, j) }) as isize),
{
    let k = i * n + j;
    lemma_literal_range(n, i, j);
    lemma_fundamental_div_mod_converse_div(k, n, i, j);
    lemma_fundamental_div_mod_converse_mod(k, n, i, j);
    assert(grid_model(g, n)[k] == (if g[i][j] { literal_of(n, i, j) } else { -literal_of(n, i, j) }) as isize);
}

proof fn lemma_grid_model_consistent(g: Seq<Seq<bool>>, n: int)
    requires
        0 <= n <= MAX_SIDE,
    ensures
        consistent(grid_model(g, n)),
{
    let m = grid_model(g, n);
    assert(n * n <= 16384 * 16384) by (nonlinear_arith)
        requires
            0 <= n <= 16384,
    ;
    assert forall|a: int, b: int| 0 <= a < m.len() && 0 <= b < m.len() implies #[trigger] m[a] + #[trigger] m[b] != 0 by {
        assert(m[a] == a + 1 || m[a] == -(a + 1));
        assert(m[b] == b + 1 || m[b] == -(b + 1));
    }
}

/// A line that holds its runs meets the clause that forbids an assignment
/// that does not.
proof fn lemma_line_clause_met(m: Seq<isize>, line: Seq<bool>, w: Seq<i32>, lits: Seq<i32>, sets: Seq<usize>, n: nat)
    requires
        n <= MAX_SIDE,
        line.len() == n,
        lits.len() == n,
        is_sign_choice(w, one_to(n)),
        line_valid(line, sets),
        !line_valid(signs(w), sets),
        forall|j: int| 0 <= j < n ==> 1 <= #[trigger] lits[j] <= 0x1000_0000,
        forall|j: int| 0 <= j < n ==> m.contains((if #[trigger] line[j] { lits[j] as int } else { -lits[j] }) as isize),
    ensures
        clause_met(m, bound(negated(w), lits)),
{
    if forall|j: int| 0 <= j < n ==> #[trigger] signs(w)[j] == line[j] {
        assert(signs(w) =~= line);
    }
    let j = choose|j: int| 0 <= j < n && #[trigger] signs(w)[j] != line[j];
    let b = bound(negated(w), lits);
    assert(w[j] == one_to(n)[j] || w[j] == -one_to(n)[j]);
    assert(one_to(n)[j] == j + 1);
    assert(negated(w)[j] == -w[j]);
    assert(m.contains((if line[j] { lits[j] as int } else { -lits[j] }) as isize));
    assert(b[j] as isize == (if line[j] { lits[j] as int } else { -lits[j] }) as isize);
    assert(m.contains(b[j] as isize));
}

/// A grid whose rows and columns hold their clues gives a model of all the
/// clauses of the puzzle.
proof fn lemma_solved_meets(g: Seq<Seq<bool>>, n: nat, all: Seq<Seq<i32>>, rows: Seq<Seq<usize>>, cols: Seq<Seq<usize>>)
    requires
        n <= MAX_SIDE,
        grid_shaped(g, n as int),
        rows.len() == n,
        cols.len() == n,
        solved(g, rows, cols),
        forall|k: int| 0 <= k < all.len() ==> is_sign_choice(#[trigger] all[k], one_to(n)),
    ensures
        meets(grid_model(g, n as int), lines_formula(n as int, all, rows, n, true) + lines_formula(n as int, all, cols, n, false)),
{
    let m = grid_model(g, n as int);
    let fr = lines_formula(n as int, all, rows, n, true);
    let fc = lines_formula(n as int, all, cols, n, false);
    let f = fr + fc;
    assert forall|t: int| 0 <= t < f.len() implies clause_met(m, #[trigger] f[t]) by {
        if t < fr.len() {
            let (r, w) = lemma_lines_elem(n as int, all, rows, n, true, t);
            let lits = row_lits(n as int, r);
            assert forall|j: int| 0 <= j < n implies 1 <= #[trigger] lits[j] <= 0x1000_0000 by {
                lemma_literal_range(n as int, r, j);
            }
            assert forall|j: int| 0 <= j < n implies m.contains((if #[trigger] g[r][j] { lits[j] as int } else { -lits[j] }) as isize) by {
                lemma_literal_range(n as int, r, j);
                lemma_grid_model_cell(g, n as int, r, j);
            }
            assert(line_valid(g[r], rows[r]));
            lemma_line_clause_met(m, g[r], all[w], lits, rows[r], n);
            assert(f[t] == fr[t]);
        } else {
            let (r, w) = lemma_lines_elem(n as int, all, cols, n, false, t - fr.len());
            let lits = col_lits(n as int, r);
            let line = column_of(g, r);
            assert forall|j: int| 0 <= j < n implies 1 <= #[trigger] lits[j] <= 0x1000_0000 by {
                lemma_literal_range(n as int, j, r);
            }
            assert forall|j: int| 0 <= j < n implies m.contains((if #[trigger] line[j] { lits[j] as int } else { -lits[j] }) as isize) by {
                lemma_literal_range(n as int, j, r);
                lemma_grid_model_cell(g, n as int, j, r);
            }
            assert(0 <= r < rows.len());
            let gr = g[r];
            assert(line_valid(gr, rows[r]) && line_valid(column_of(g, r), cols[r]));
            lemma_line_clause_met(m, line, all[w], lits, cols[r], n);
            assert(f[t] == fc[t - fr.len()]);
        }
    }
}

/// Hands the solver the clauses of one line whose cells have the variables
/// `vars` and whose clues are `sets`.
fn add_group_rule(solver: &mut Solver, all_combos: &[Vec<i32>], vars: &[i32], sets: &[usize])
    requires
        vars@.len() <= MAX_SIDE,
        clues_positive(sets@),
        forall|j: int| 0 <= j < vars@.len() ==> 1 <= #[trigger] vars@[j] <= 0x1000_0000,
        forall|k: int| 0 <= k < all_combos@.len() ==> is_sign_choice(#[trigger] all_combos@[k]@, one_to(vars@.len())),
    ensures
        extends(clauses_given(*final(solver)), clauses_given(*old(solver))),
        forbids(clauses_given(*final(solver)), views(all_combos@), vars@, sets@),
        clauses_given(*final(solver)) == clauses_given(*old(solver)) + bound_all(
            crate::line::forbidden_clauses(views(all_combos@), sets@),
            vars@,
        ),
        solver_plain(*old(solver)) ==> solver_plain(*final(solver)),
{
    let cnf = make_group_cnf(all_combos, vars.len(), sets);
    let mut i: usize = 0;
    assert(clauses_given(*solver) =~= clauses_given(*old(solver)) + bound_all(views(cnf@).subrange(0, 0), vars@));
    while i < cnf.len()
        invariant
            i <= cnf@.len(),
            forall|j: int| 0 <= j < vars@.len() ==> 1 <= #[trigger] vars@[j] <= 0x1000_0000,
            forall|k: int| 0 <= k < all_combos@.len() ==> is_sign_choice(#[trigger] all_combos@[k]@, one_to(vars@.len())),
            forall|c: Seq<i32>|
                #[trigger] views(cnf@).contains(c) <==> exists|k: int|
                    0 <= k < all_combos@.len() && !line_valid(signs(#[trigger] all_combos@[k]@), sets@)
                        && c == negated(all_combos@[k]@),
            extends(clauses_given(*solver), clauses_given(*old(solver))),
            forall|t: int| 0 <= t < i ==> clauses_given(*solver).contains(bound(#[trigger] cnf@[t]@, vars@)),
            views(cnf@) == crate::line::forbidden_clauses(views(all_combos@), sets@),
            clauses_given(*solver) == clauses_given(*old(solver)) + bound_all(views(cnf@).subrange(0, i as int), vars@),
            solver_plain(*old(solver)) ==> solver_plain(*solver),
        decreases cnf@.len() - i,
    {
        proof {
            assert(views(cnf@)[i as int] == cnf@[i as int]@);
            assert(views(cnf@).contains(cnf@[i as int]@));
        }
        let ghost before = clauses_given(*solver);
        let f = bind_clause(&cnf[i], vars);
        solver_add_clause(solver, &f);
        proof {
            let now = clauses_given(*solver);
            assert(now[before.len() as int] == bound(cnf@[i as int]@, vars@));
            assert(now =~= clauses_given(*old(solver)) + bound_all(views(cnf@).subrange(0, i + 1), vars@));
            assert forall|t: int| 0 <= t < i + 1 implies clauses_given(*solver).contains(bound(#[trigger] cnf@[t]@, vars@)) by {
                if t < i {
                    let c = bound(cnf@[t]@, vars@);
                    assert(before.contains(c));
                    let u = choose|u: int| 0 <= u < before.len() && before[u] == c;
                    assert(now[u] == c);
                }
            }
        }
        i = i + 1;
    }
    proof {
        assert(views(cnf@).subrange(0, i as int) =~= views(cnf@));
        let all = views(all_combos@);
        assert forall|k: int| 0 <= k < all.len() && !line_valid(signs(#[trigger] all[k]), sets@) implies clauses_given(
            *solver,
        ).contains(bound(negated(all[k]), vars@)) by {
            assert(all[k] == all_combos@[k]@);
            let c = negated(all[k]);
            assert(views(cnf@).contains(c));
            let t = choose|t: int| 0 <= t < views(cnf@).len() && views(cnf@)[t] == c;
            assert(cnf@[t]@ == c);
        }
    }
}

/// Hands the solver the clauses of every row.
fn add_row_rules(puzzle: &Nonogram, solver: &mut Solver, all_combos: &[Vec<i32>])
    requires
        puzzle.wf(),
        puzzle.size <= MAX_SIDE,
        forall|k: int| 0 <= k < all_combos@.len() ==> is_sign_choice(#[trigger] all_combos@[k]@, one_to(puzzle.size as nat)),
    ensures
        extends(clauses_given(*final(solver)), clauses_given(*old(solver))),
        forall|r: int|
            0 <= r < puzzle.size ==> forbids(
                clauses_given(*final(solver)),
                views(all_combos@),
                #[trigger] row_lits(puzzle.size as int, r),
                puzzle.row_rules@[r]@,
            ),
        clauses_given(*final(solver)) == clauses_given(*old(solver)) + lines_formula(
            puzzle.size as int,
            views(all_combos@),
            rules_view(puzzle.row_rules@),
            puzzle.size as nat,
            true,
        ),
        solver_plain(*old(solver)) ==> solver_plain(*final(solver)),
{
    let size = puzzle.size;
    let mut i: usize = 0;
    assert(clauses_given(*solver) =~= clauses_given(*old(solver)) + Seq::<Seq<i32>>::empty());
    while i < size
        invariant
            puzzle.wf(),
            size == puzzle.size <= MAX_SIDE,
            i <= size,
            forall|k: int| 0 <= k < all_combos@.len() ==> is_sign_choice(#[trigger] all_combos@[k]@, one_to(size as nat)),
            extends(clauses_given(*solver), clauses_given(*old(solver))),
            forall|r: int|
                0 <= r < i ==> forbids(clauses_given(*solver), views(all_combos@), #[trigger] row_lits(size as int, r), puzzle.row_rules@[r]@),
            clauses_given(*solver) == clauses_given(*old(solver)) + lines_formula(
                size as int,
                views(all_combos@),
                rules_view(puzzle.row_rules@),
                i as nat,
                true,
            ),
            solver_plain(*old(solver)) ==> solver_plain(*solver),
        decreases size - i,
    {
        let vars = line_literals(size, i, true);
        assert(clues_positive(puzzle.row_rules@[i as int]@));
        let ghost before = clauses_given(*solver);
        add_group_rule(solver, all_combos, vars.as_slice(), puzzle.row_rules[i].as_slice());
        proof {
            let now = clauses_given(*solver);
            let rv = rules_view(puzzle.row_rules@);
            assert(rv[i as int] == puzzle.row_rules@[i as int]@);
            assert(vars@ == line_lits(size as int, i as int, true));
            assert(lines_formula(size as int, views(all_combos@), rv, (i + 1) as nat, true) == lines_formula(
                size as int,
                views(all_combos@),
                rv,
                i as nat,
                true,
            ) + bound_all(crate::line::forbidden_clauses(views(all_combos@), rv[i as int]), vars@));
            assert(now =~= clauses_given(*old(solver)) + lines_formula(size as int, views(all_combos@), rv, (i + 1) as nat, true));
            assert forall|r: int| 0 <= r < i + 1 implies forbids(now, views(all_combos@), #[trigger] row_lits(size as int, r), puzzle.row_rules@[r]@) by {
                if r < i {
                    lemma_extends_forbids(now, before, views(all_combos@), row_lits(size as int, r), puzzle.row_rules@[r]@);
                }
            }
        }
        i = i + 1;
    }
}

/// Hands the solver the clauses of every column.
fn add_col_rules(puzzle: &Nonogram, solver: &mut Solver, all_combos: &[Vec<i32>])
    requires
        puzzle.wf(),
        puzzle.size <= MAX_SIDE,
        forall|k: int| 0 <= k < all_combos@.len() ==> is_sign_choice(#[trigger] all_combos@[k]@, one_to(puzzle.size as nat)),
    ensures
        extends(clauses_given(*final(solver)), clauses_given(*old(solver))),
        forall|r: int|
            0 <= r < puzzle.size ==> forbids(
                clauses_given(*final(solver)),
                views(all_combos@),
                #[trigger] col_lits(puzzle.size as int, r),
                puzzle.col_rules@[r]@,
            ),
        clauses_given(*final(solver)) == clauses_given(*old(solver)) + lines_formula(
            puzzle.size as int,
            views(all_combos@),
            rules_view(puzzle.col_rules@),
            puzzle.size as nat,
            false,
        ),
        solver_plain(*old(solver)) ==> solver_plain(*final(solver)),
{
    let size = puzzle.size;
    let mut i: usize = 0;
    assert(clauses_given(*solver) =~= clauses_given(*old(solver)) + Seq::<Seq<i32>>::empty());
    while i < size
        invariant
            puzzle.wf(),
            size == puzzle.size <= MAX_SIDE,
            i <= size,
            forall|k: int| 0 <= k < all_combos@.len() ==> is_sign_choice(#[trigger] all_combos@[k]@, one_to(size as nat)),
            extends(clauses_given(*solver), clauses_given(*old(solver))),
            forall|r: int|
                0 <= r < i ==> forbids(clauses_given(*solver), views(all_combos@), #[trigger] col_lits(size as int, r), puzzle.col_rules@[r]@),
            clauses_given(*solver) == clauses_given(*old(solver)) + lines_formula(
                size as int,
                views(all_combos@),
                rules_view(puzzle.col_rules@),
                i as nat,
                false,
            ),
            solver_plain(*old(solver)) ==> solver_plain(*solver),
        decreases size - i,
    {
        let vars = line_literals(size, i, false);
        assert(clues_positive(puzzle.col_rules@[i as int]@));
        let ghost before = clauses_given(*solver);
        add_group_rule(solver, all_combos, vars.as_slice(), puzzle.col_rules[i].as_slice());
        proof {
            let now = clauses_given(*solver);
            let rv = rules_view(puzzle.col_rules@);
            assert(rv[i as int] == puzzle.col_rules@[i as int]@);
            assert(vars@ == line_lits(size as int, i as int, false));
            assert(lines_formula(size as int, views(all_combos@), rv, (i + 1) as nat, false) == lines_formula(
                size as int,
                views(all_combos@),
                rv,
                i as nat,
                false,
            ) + bound_all(crate::line::forbidden_clauses(views(all_combos@), rv[i as int]), vars@));
            assert(now =~= clauses_given(*old(solver)) + lines_formula(size as int, views(all_combos@), rv, (i + 1) as nat, false));
            assert forall|r: int| 0 <= r < i + 1 implies forbids(now, views(all_combos@), #[trigger] col_lits(size as int, r), puzzle.col_rules@[r]@) by {
                if r < i {
                    lemma_extends_forbids(now, before, views(all_combos@), col_lits(size as int, r), puzzle.col_rules@[r]@);
                }
            }
        }
        i = i + 1;
    }
}

/// The variables of row `index` (when `is_row`) or of column `index`, in
/// line order.
pub fn line_literals(size: usize, index: usize, is_row: bool) -> (vars: Vec<i32>)
    requires
        size <= MAX_SIDE,
        index < size,
    ensures
        vars@.len() == size,
        forall|j: int|
            0 <= j < size ==> #[trigger] vars@[j] == if is_row {
                literal_of(size as int, index as int, j)
            } else {
                literal_of(size as int, j, index as int)
            },
        forall|j: int| 0 <= j < size ==> 1 <= #[trigger] vars@[j] <= 0x1000_0000,
        vars@ == if is_row { row_lits(size as int, index as int) } else { col_lits(size as int, index as int) },
{
    let mut vars: Vec<i32> = Vec::new();
    let mut j: usize = 0;
    while j < size
        invariant
            size <= MAX_SIDE,
            index < size,
            j <= size,
            vars@.len() == j,
            forall|k: int|
                0 <= k < j ==> #[trigger] vars@[k] == if is_row {
                    literal_of(size as int, index as int, k)
                } else {
                    literal_of(size as int, k, index as int)
                },
            forall|k: int| 0 <= k < j ==> 1 <= #[trigger] vars@[k] <= 0x1000_0000,
        decreases size - j,
    {
        let lit = if is_row { cell_literal(size, index, j) } else { cell_literal(size, j, index) };
        proof {
            assert(size * size <= MAX_SIDE * MAX_SIDE) by (nonlinear_arith)
                requires
                    size <= MAX_SIDE,
            ;
        }
        vars.push(lit);
        j = j + 1;
    }
    proof {
        if is_row {
            assert(vars@ =~= row_lits(size as int, index as int));
        } else {
            assert(vars@ =~= col_lits(size as int, index as int));
        }
    }
    vars
}

/// Whether `model` holds the literal `x`.
fn model_contains(model: &Vec<isize>, x: isize) -> (r: bool)
    ensures
        r == model@.contains(x),
{
    let mut i: usize = 0;
    while i < model.len()
        invariant
            i <= model@.len(),
            forall|k: int| 0 <= k < i ==> #[trigger] model@[k] != x,
        decreases model@.len() - i,
    {
        if model[i] == x {
            return true;
        }
        i = i + 1;
    }
    false
}

/// Reads the grid off a model, cell by cell through the same variables that
/// the clauses were given: a cell is filled when its variable holds.
pub fn decode_model(size: usize, model: &Vec<isize>) -> (g: Vec<Vec<bool>>)
    requires
        size <= MAX_SIDE,
    ensures
        grid_view(g@) == model_grid(model@, size as int),
{
    let mut grid: Vec<Vec<bool>> = Vec::new();
    let mut i: usize = 0;
    while i < size
        invariant
            size <= MAX_SIDE,
            i <= size,
            grid@.len() == i,
            forall|a: int| 0 <= a < i ==> (#[trigger] grid@[a])@ == model_grid(model@, size as int)[a],
        decreases size - i,
    {
        let mut row: Vec<bool> = Vec::new();
        let mut j: usize = 0;
        while j < size
            invariant
                size <= MAX_SIDE,
                i < size,
                j <= size,
                row@.len() == j,
                forall|b: int| 0 <= b < j ==> #[trigger] row@[b] == model@.contains(literal_of(size as int, i as int, b) as isize),
            decreases size - j,
        {
            let lit = cell_literal(size, i, j) as isize;
            row.push(model_contains(model, lit));
            j = j + 1;
        }
        proof {
            assert(row@ =~= model_grid(model@, size as int)[i as int]);
        }
        grid.push(row);
        i = i + 1;
    }
    proof {
        assert(grid_view(grid@) =~= model_grid(model@, size as int));
    }
    grid
}

/// Writes a grid of the puzzle's size onto its cells.
pub fn write_cells(puzzle: &mut Nonogram, grid: &Vec<Vec<bool>>)
    requires
        old(puzzle).wf(),
        grid@.len() == old(puzzle).size,
        forall|i: int| 0 <= i < grid@.len() ==> (#[trigger] grid@[i])@.len() == old(puzzle).size,
    ensures
        final(puzzle).wf(),
        final(puzzle).size == old(puzzle).size,
        final(puzzle).row_rules@ == old(puzzle).row_rules@,
        final(puzzle).col_rules@ == old(puzzle).col_rules@,
        final(puzzle).cells() == grid_view(grid@),
{
    let size = puzzle.size;
    let mut i: usize = 0;
    while i < size
        invariant
            puzzle.wf(),
            size == puzzle.size == old(puzzle).size,
            puzzle.row_rules@ == old(puzzle).row_rules@,
            puzzle.col_rules@ == old(puzzle).col_rules@,
            grid@.len() == size,
            forall|r: int| 0 <= r < grid@.len() ==> (#[trigger] grid@[r])@.len() == size,
            i <= size,
            forall|r: int| 0 <= r < i ==> #[trigger] puzzle.cells()[r] == grid@[r]@,
        decreases size - i,
    {
        let mut j: usize = 0;
        while j < size
            invariant
                puzzle.wf(),
                size == puzzle.size == old(puzzle).size,
                puzzle.row_rules@ == old(puzzle).row_rules@,
                puzzle.col_rules@ == old(puzzle).col_rules@,
                grid@.len() == size,
                forall|r: int| 0 <= r < grid@.len() ==> (#[trigger] grid@[r])@.len() == size,
                i < size,
                j <= size,
                forall|r: int| 0 <= r < i ==> #[trigger] puzzle.cells()[r] == grid@[r]@,
                forall|c: int| 0 <= c < j ==> #[trigger] puzzle.cells()[i as int][c] == grid@[i as int]@[c],
            decreases size - j,
        {
            let v = grid[i][j];
            puzzle.set(i, j, v);
            j = j + 1;
        }
        proof {
            assert(puzzle.cells()[i as int] =~= grid@[i as int]@);
        }
        i = i + 1;
    }
    proof {
        assert(puzzle.cells() =~= grid_view(grid@));
    }
}

/// Solves the puzzle: binds one variable to each cell, hands the solver the
/// clauses of every row and column, and on a model writes it onto the grid.
/// On success every row and every column holds its clues, and the grid is
/// the one a model of the clauses describes; on failure it is left as it was.
pub fn solve_puzzle(puzzle: &mut Nonogram) -> (r: Result<(), SolveError>)
    requires
        old(puzzle).wf(),
        old(puzzle).size <= MAX_SIDE,
    ensures
        final(puzzle).wf(),
        final(puzzle).size == old(puzzle).size,
        final(puzzle).row_rules@ == old(puzzle).row_rules@,
        final(puzzle).col_rules@ == old(puzzle).col_rules@,
        r is Ok ==> solved(final(puzzle).cells(), rules_view(final(puzzle).row_rules@), rules_view(final(puzzle).col_rules@)),
        r is Err ==> final(puzzle).cells() == old(puzzle).cells(),
        (r is Ok) == exists|g: Seq<Seq<bool>>|
            grid_shaped(g, old(puzzle).size as int) && #[trigger] solved(
                g,
                rules_view(old(puzzle).row_rules@),
                rules_view(old(puzzle).col_rules@),
            ),
        (r == Err::<(), SolveError>(SolveError::Unsatisfiable)) == !exists|g: Seq<Seq<bool>>|
            grid_shaped(g, old(puzzle).size as int) && #[trigger] solved(
                g,
                rules_view(old(puzzle).row_rules@),
                rules_view(old(puzzle).col_rules@),
            ),
{
    let size = puzzle.size;
    let all = universal_set(size);
    let mut solver = solver_new();
    add_row_rules(puzzle, &mut solver, all.as_slice());
    let ghost after_rows = clauses_given(solver);
    add_col_rules(puzzle, &mut solver, all.as_slice());
    proof {
        let now = clauses_given(solver);
        assert forall|r: int| 0 <= r < size implies forbids(now, views(all@), #[trigger] row_lits(size as int, r), puzzle.row_rules@[r]@) by {
            lemma_extends_forbids(now, after_rows, views(all@), row_lits(size as int, r), puzzle.row_rules@[r]@);
        }
    }
    let ghost formula = clauses_given(solver);
    let ghost rv = rules_view(puzzle.row_rules@);
    let ghost cv = rules_view(puzzle.col_rules@);
    proof {
        assert(formula =~= lines_formula(size as int, views(all@), rv, size as nat, true) + lines_formula(
            size as int,
            views(all@),
            cv,
            size as nat,
            false,
        ));
    }
    match solver_solve(&mut solver) {
        Ok(true) => {},
        Ok(false) => {
            proof {
                assert forall|g: Seq<Seq<bool>>| grid_shaped(g, size as int) implies !#[trigger] solved(g, rv, cv) by {
                    if solved(g, rv, cv) {
                        assert forall|k: int| 0 <= k < views(all@).len() implies is_sign_choice(
                            #[trigger] views(all@)[k],
                            one_to(size as nat),
                        ) by {
                            assert(views(all@)[k] == all@[k]@);
                        }
                        lemma_solved_meets(g, size as nat, views(all@), rv, cv);
                        lemma_grid_model_consistent(g, size as int);
                        assert(meets(grid_model(g, size as int), clauses_given(solver)));
                    }
                }
            }
            return Err(SolveError::Unsatisfiable);
        },
        Err(_) => {
            return Err(SolveError::SolverFailed);
        },
    }
    let model = match solver_model(&solver) {
        Some(m) => m,
        None => {
            return Err(SolveError::SolverFailed);
        },
    };
    let grid = decode_model(size, &model);
    proof {
        let mg = model_grid(model@, size as int);
        assert(grid_view(grid@).len() == grid@.len());
        assert(mg.len() == size);
        assert forall|i: int| 0 <= i < grid@.len() implies (#[trigger] grid@[i])@.len() == size by {
            assert(grid_view(grid@)[i] == grid@[i]@);
            assert(mg[i].len() == size);
        }
        let m = model@;
        let n = size as int;
        assert forall|i: int| 0 <= i < n implies line_valid(#[trigger] mg[i], rules_view(puzzle.row_rules@)[i])
            && line_valid(column_of(mg, i), rules_view(puzzle.col_rules@)[i]) by {
            let rl = row_lits(n, i);
            let cl = col_lits(n, i);
            assert forall|j: int| 0 <= j < n implies 1 <= #[trigger] rl[j] <= 0x1000_0000 by {
                lemma_literal_range(n, i, j);
            }
            assert forall|j: int| 0 <= j < n implies 1 <= #[trigger] cl[j] <= 0x1000_0000 by {
                lemma_literal_range(n, j, i);
            }
            lemma_model_line(m, formula, views(all@), rl, puzzle.row_rules@[i]@, size as nat);
            lemma_model_line(m, formula, views(all@), cl, puzzle.col_rules@[i]@, size as nat);
            assert(Seq::new(size as nat, |j: int| m.contains(rl[j] as isize)) =~= mg[i]) by {
                assert forall|j: int| 0 <= j < n implies #[trigger] mg[i][j] == m.contains(rl[j] as isize) by {
                    lemma_literal_range(n, i, j);
                }
            }
            assert(Seq::new(size as nat, |j: int| m.contains(cl[j] as isize)) =~= column_of(mg, i)) by {
                assert forall|j: int| 0 <= j < n implies #[trigger] column_of(mg, i)[j] == m.contains(cl[j] as isize) by {
                    lemma_literal_range(n, j, i);
                }
            }
        }
    }
    write_cells(puzzle, &grid);
    proof {
        let mg = model_grid(model@, size as int);
        assert(puzzle.cells() == mg);
        assert(solved(mg, rules_view(puzzle.row_rules@), rules_view(puzzle.col_rules@)));
        assert(grid_shaped(mg, size as int));
    }
    Ok(())
}

} // verus!
