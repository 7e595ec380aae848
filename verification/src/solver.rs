//! The iterative backtracking solver.
//!
//! The solver collects the empty cells once, in row-major order, and walks
//! them with an explicit stack of choice points, trying digits in ascending
//! order and unwinding on dead ends. Each placement attempt costs one unit
//! of the iteration budget.

use vstd::prelude::*;

use crate::board::{
    cell_at, clear_cell, full, grid_valid, in_range, is_digit_cell, is_peer, place, pos_valid,
    lemma_clear_keeps_pos_valid, lemma_place_keeps_pos_valid, Sudoku,
};

verus! {

/// The terminal classification of one solve call.
#[derive(Clone, Copy, Debug, PartialEq, Eq, Structural)]
pub enum Outcome {
    /// The board had no empty cell to begin with.
    AlreadySolved,
    /// Every empty cell was filled; the payload is the index of the
    /// iteration on which the last cell was placed.
    Solved(usize),
    /// The search space was exhausted without filling the board.
    NoSolution,
    /// The iteration budget ran out first.
    Exhausted,
}

/// One choice point of the search: the coordinate being filled and the digit
/// currently under trial there.
pub struct Step {
    pub x: usize,
    pub y: usize,
    pub digit: char,
}

impl Step {
    pub fn new(x: usize, y: usize, digit: char) -> (s: Step)
        ensures
            s.x == x,
            s.y == y,
            s.digit == digit,
    {
        Step { x, y, digit }
    }
}

/// The digit after `c` in the ascending trial order, `None` past `'9'`.
pub open spec fn spec_succ_digit(c: char) -> Option<char> {
    if c == '1' {
        Some('2')
    } else if c == '2' {
        Some('3')
    } else if c == '3' {
        Some('4')
    } else if c == '4' {
        Some('5')
    } else if c == '5' {
        Some('6')
    } else if c == '6' {
        Some('7')
    } else if c == '7' {
        Some('8')
    } else if c == '8' {
        Some('9')
    } else {
        None
    }
}

/// Advance a candidate digit, or report that all nine have been tried.
fn succ_digit(c: char) -> (r: Option<char>)
    requires
        is_digit_cell(c),
    ensures
        r == spec_succ_digit(c),
        r is Some ==> is_digit_cell(r->0),
        r is None <==> c == '9',
{
    match c {
        '1' => Some('2'),
        '2' => Some('3'),
        '3' => Some('4'),
        '4' => Some('5'),
        '5' => Some('6'),
        '6' => Some('7'),
        '7' => Some('8'),
        '8' => Some('9'),
        _ => None,
    }
}

/// Every cell pre-filled in `g0` holds the same digit in `g`.
pub open spec fn originals_kept(g0: Seq<char>, g: Seq<char>) -> bool {
    forall|x: int, y: int| in_range(x, y) && cell_at(g0, x, y) != '.'
        ==> #[trigger] cell_at(g, x, y) == cell_at(g0, x, y)
}

/// Every cell empty in `g0` holds a locally valid digit in `g`.
pub open spec fn search_filled(g0: Seq<char>, g: Seq<char>) -> bool {
    forall|x: int, y: int| in_range(x, y) && cell_at(g0, x, y) == '.'
        ==> is_digit_cell(#[trigger] cell_at(g, x, y)) && pos_valid(g, x, y)
}

/// The row-major key of a coordinate pair.
pub open spec fn cell_key(p: (usize, usize)) -> int {
    p.0 * 9 + p.1
}

/// The empty-cell list is sound: every entry is an in-range cell that is
/// empty in `g0`, and entries come in strictly increasing row-major order
/// (so they are pairwise distinct).
pub open spec fn el_wf(g0: Seq<char>, el: Seq<(usize, usize)>) -> bool {
    &&& forall|k: int| #![trigger el[k]] 0 <= k < el.len()
            ==> in_range(el[k].0 as int, el[k].1 as int)
                && cell_at(g0, el[k].0 as int, el[k].1 as int) == '.'
    &&& forall|k1: int, k2: int| 0 <= k1 < k2 < el.len()
            ==> #[trigger] cell_key(el[k1]) < #[trigger] cell_key(el[k2])
}

/// The empty-cell list is complete: every cell empty in `g0` appears in it.
pub open spec fn empties_listed(g0: Seq<char>, el: Seq<(usize, usize)>) -> bool {
    forall|x: int, y: int| in_range(x, y) && #[trigger] cell_at(g0, x, y) == '.'
        ==> exists|k: int| 0 <= k < el.len() && el[k] == (x as usize, y as usize)
}

/// The stack of choice points mirrors the board: entry `k` sits at the `k`th
/// empty cell, its digit is written there, and that cell passes the
/// single-cell check.
pub open spec fn stack_ok(
    g: Seq<char>,
    el: Seq<(usize, usize)>,
    steps: Seq<Step>,
    idx: int,
) -> bool {
    &&& steps.len() == idx
    &&& idx <= el.len()
    &&& forall|k: int| #![trigger steps[k]] #![trigger el[k]] 0 <= k < idx ==> {
            &&& steps[k].x == el[k].0
            &&& steps[k].y == el[k].1
            &&& is_digit_cell(steps[k].digit)
            &&& cell_at(g, el[k].0 as int, el[k].1 as int) == steps[k].digit
            &&& pos_valid(g, el[k].0 as int, el[k].1 as int)
        }
}

/// The cells of the empty-cell list from position `from` on are blank in `g`.
pub open spec fn tail_blank(g: Seq<char>, el: Seq<(usize, usize)>, from: int) -> bool {
    forall|j: int| #![trigger el[j]] from <= j < el.len()
        ==> cell_at(g, el[j].0 as int, el[j].1 as int) == '.'
}

/// The empty cells among the first `n` cells of the board, in row-major
/// order.
pub open spec fn spec_empties_up_to(g0: Seq<char>, n: int) -> Seq<(usize, usize)>
    decreases n,
{
    if n <= 0 {
        Seq::empty()
    } else if g0[n - 1] == '.' {
        spec_empties_up_to(g0, n - 1).push((((n - 1) / 9) as usize, ((n - 1) % 9) as usize))
    } else {
        spec_empties_up_to(g0, n - 1)
    }
}

/// The empty cells of the board, in row-major order.
pub open spec fn spec_empties(g0: Seq<char>) -> Seq<(usize, usize)> {
    spec_empties_up_to(g0, 81)
}

/// Unwind the stack: pop choice points until one still has an untried digit,
/// blanking each exhausted cell on the way. The result is the board, the
/// shortened stack, and the resumed choice point, or `None` when the whole
/// stack unwinds.
pub open spec fn spec_backtrack(g: Seq<char>, stack: Seq<Step>) -> (
    Seq<char>,
    Seq<Step>,
    Option<Step>,
)
    decreases stack.len(),
{
    if stack.len() == 0 {
        (g, stack, None)
    } else {
        let prev = stack.last();
        match spec_succ_digit(prev.digit) {
            Some(d) => (g, stack.drop_last(), Some(Step { x: prev.x, y: prev.y, digit: d })),
            None => spec_backtrack(clear_cell(g, prev.x, prev.y), stack.drop_last()),
        }
    }
}

/// One placement attempt per unit of budget: write the current candidate,
/// keep it and move on when the cell checks out, otherwise advance the
/// candidate or unwind. The result is the final board and the outcome.
pub open spec fn spec_search(
    g: Seq<char>,
    el: Seq<(usize, usize)>,
    stack: Seq<Step>,
    cur: Step,
    i: nat,
    cycles: nat,
) -> (Seq<char>, Outcome)
    decreases cycles - i,
{
    if i >= cycles {
        (g, Outcome::Exhausted)
    } else {
        let g1 = place(g, cur.x, cur.y, cur.digit);
        if !pos_valid(g1, cur.x as int, cur.y as int) {
            let g2 = clear_cell(g1, cur.x, cur.y);
            match spec_succ_digit(cur.digit) {
                Some(d) => spec_search(
                    g2,
                    el,
                    stack,
                    Step { x: cur.x, y: cur.y, digit: d },
                    (i + 1) as nat,
                    cycles,
                ),
                None => {
                    let bt = spec_backtrack(g2, stack);
                    match bt.2 {
                        Some(cur3) => spec_search(bt.0, el, bt.1, cur3, (i + 1) as nat, cycles),
                        None => (bt.0, Outcome::NoSolution),
                    }
                },
            }
        } else {
            if stack.len() + 1 == el.len() {
                (g1, Outcome::Solved(i as usize))
            } else {
                let nxt = el[stack.len() as int + 1];
                spec_search(
                    g1,
                    el,
                    stack.push(cur),
                    Step { x: nxt.0, y: nxt.1, digit: '1' },
                    (i + 1) as nat,
                    cycles,
                )
            }
        }
    }
}

/// Resume the search after an unwind: go on from the revived choice point,
/// or report that no assignment of the empty cells is left to try.
pub open spec fn spec_resume(
    el: Seq<(usize, usize)>,
    bt: (Seq<char>, Seq<Step>, Option<Step>),
    i: nat,
    cycles: nat,
) -> (Seq<char>, Outcome) {
    match bt.2 {
        Some(cur) => spec_search(bt.0, el, bt.1, cur, i, cycles),
        None => (bt.0, Outcome::NoSolution),
    }
}

/// What one solve call does to a board under a given budget, as a function
/// of the two alone: collect the empty cells, and search from the first with
/// candidate '1'. Both the final board and the outcome are pinned, so two
/// calls on identical inputs give identical results.
pub open spec fn spec_solve(g0: Seq<char>, cycles: nat) -> (Seq<char>, Outcome) {
    let el = spec_empties(g0);
    if el.len() == 0 {
        (g0, Outcome::AlreadySolved)
    } else {
        spec_search(g0, el, Seq::empty(), Step { x: el[0].0, y: el[0].1, digit: '1' }, 0, cycles)
    }
}

/// A full board has no empty cell among its first `n` cells.
proof fn lemma_empties_up_to_full(g: Seq<char>, n: int)
    requires
        g.len() == 81,
        n <= 81,
        full(g),
    ensures
        spec_empties_up_to(g, n).len() == 0,
    decreases n,
{
    if n > 0 {
        lemma_empties_up_to_full(g, n - 1);
        let x = (n - 1) / 9;
        let y = (n - 1) % 9;
        assert(in_range(x, y));
        assert(cell_at(g, x, y) == g[n - 1]);
        assert(g[n - 1] != '.');
    }
}

/// Solving is idempotent: a board with no empty cell — a board a solved run
/// leaves behind, or one full from the start — is reported `AlreadySolved`
/// and left untouched by any further run, whatever the budget.
pub proof fn lemma_solve_idempotent(g: Seq<char>, cycles: nat)
    requires
        g.len() == 81,
        full(g),
    ensures
        spec_solve(g, cycles) == (g, Outcome::AlreadySolved),
{
    lemma_empties_up_to_full(g, 81);
}

/// A search that ends `Solved(k)` ends on step `k`: the step count is at
/// least the step the search started from, and within the budget.
proof fn lemma_search_solved_index(
    g: Seq<char>,
    el: Seq<(usize, usize)>,
    stack: Seq<Step>,
    cur: Step,
    i: nat,
    cycles: nat,
    k: usize,
)
    requires
        cycles <= usize::MAX,
        spec_search(g, el, stack, cur, i, cycles).1 == Outcome::Solved(k),
    ensures
        i <= k && (k as nat) < cycles,
    decreases cycles - i,
{
    let r = spec_search(g, el, stack, cur, i, cycles);
    assert(i < cycles);
    let g1 = place(g, cur.x, cur.y, cur.digit);
    if !pos_valid(g1, cur.x as int, cur.y as int) {
        let g2 = clear_cell(g1, cur.x, cur.y);
        match spec_succ_digit(cur.digit) {
            Some(d) => {
                let cur2 = Step { x: cur.x, y: cur.y, digit: d };
                assert(r == spec_search(g2, el, stack, cur2, (i + 1) as nat, cycles));
                lemma_search_solved_index(g2, el, stack, cur2, (i + 1) as nat, cycles, k);
            },
            None => {
                let bt = spec_backtrack(g2, stack);
                match bt.2 {
                    Some(cur3) => {
                        assert(r == spec_search(bt.0, el, bt.1, cur3, (i + 1) as nat, cycles));
                        lemma_search_solved_index(bt.0, el, bt.1, cur3, (i + 1) as nat, cycles, k);
                    },
                    None => {
                        assert(r == (bt.0, Outcome::NoSolution));
                    },
                }
            },
        }
    } else {
        if stack.len() + 1 == el.len() {
            assert(r == (g1, Outcome::Solved(i as usize)));
        } else {
            let nxt = el[stack.len() as int + 1];
            let cur2 = Step { x: nxt.0, y: nxt.1, digit: '1' };
            assert(r == spec_search(g1, el, stack.push(cur), cur2, (i + 1) as nat, cycles));
            lemma_search_solved_index(g1, el, stack.push(cur), cur2, (i + 1) as nat, cycles, k);
        }
    }
}

/// Until a search ends, its course does not depend on the budget: a search
/// that ends `Solved(k)` under one budget ends the same way, with the same
/// board, under any budget that reaches past step `k`.
proof fn lemma_search_cap_widens(
    g: Seq<char>,
    el: Seq<(usize, usize)>,
    stack: Seq<Step>,
    cur: Step,
    i: nat,
    n1: nat,
    n2: nat,
    k: usize,
)
    requires
        n1 <= usize::MAX,
        spec_search(g, el, stack, cur, i, n1).1 == Outcome::Solved(k),
        (k as nat) < n2,
    ensures
        spec_search(g, el, stack, cur, i, n2) == spec_search(g, el, stack, cur, i, n1),
    decreases n1 - i,
{
    lemma_search_solved_index(g, el, stack, cur, i, n1, k);
    let r1 = spec_search(g, el, stack, cur, i, n1);
    let r2 = spec_search(g, el, stack, cur, i, n2);
    assert(i < n1 && i < n2);
    let g1 = place(g, cur.x, cur.y, cur.digit);
    if !pos_valid(g1, cur.x as int, cur.y as int) {
        let g2 = clear_cell(g1, cur.x, cur.y);
        match spec_succ_digit(cur.digit) {
            Some(d) => {
                let cur2 = Step { x: cur.x, y: cur.y, digit: d };
                assert(r1 == spec_search(g2, el, stack, cur2, (i + 1) as nat, n1));
                assert(r2 == spec_search(g2, el, stack, cur2, (i + 1) as nat, n2));
                lemma_search_cap_widens(g2, el, stack, cur2, (i + 1) as nat, n1, n2, k);
            },
            None => {
                let bt = spec_backtrack(g2, stack);
                match bt.2 {
                    Some(cur3) => {
                        assert(r1 == spec_search(bt.0, el, bt.1, cur3, (i + 1) as nat, n1));
                        assert(r2 == spec_search(bt.0, el, bt.1, cur3, (i + 1) as nat, n2));
                        lemma_search_cap_widens(bt.0, el, bt.1, cur3, (i + 1) as nat, n1, n2, k);
                    },
                    None => {
                        assert(r1 == (bt.0, Outcome::NoSolution));
                    },
                }
            },
        }
    } else {
        if stack.len() + 1 == el.len() {
            assert(r1 == (g1, Outcome::Solved(i as usize)));
            assert(r2 == (g1, Outcome::Solved(i as usize)));
        } else {
            let nxt = el[stack.len() as int + 1];
            let cur2 = Step { x: nxt.0, y: nxt.1, digit: '1' };
            assert(r1 == spec_search(g1, el, stack.push(cur), cur2, (i + 1) as nat, n1));
            assert(r2 == spec_search(g1, el, stack.push(cur), cur2, (i + 1) as nat, n2));
            lemma_search_cap_widens(g1, el, stack.push(cur), cur2, (i + 1) as nat, n1, n2, k);
        }
    }
}

/// The budget only decides how far the search may run, never where it goes:
/// when solving a board under budget `n1` ends `Solved(k)`, solving the same
/// board under any budget larger than `k` gives the identical board and the
/// identical outcome.
pub proof fn lemma_cap_monotonic(g0: Seq<char>, n1: usize, n2: usize, k: usize)
    requires
        spec_solve(g0, n1 as nat).1 == Outcome::Solved(k),
        k < n2,
    ensures
        spec_solve(g0, n2 as nat) == spec_solve(g0, n1 as nat),
{
    let el = spec_empties(g0);
    lemma_search_cap_widens(
        g0,
        el,
        Seq::empty(),
        Step { x: el[0].0, y: el[0].1, digit: '1' },
        0,
        n1 as nat,
        n2 as nat,
        k,
    );
}

/// When every empty cell of the starting board has been filled through the
/// checked search, a board that started globally valid is globally valid
/// again: each original cell is distinct from its original peers by the
/// starting validity, and from its searched peers by their own single-cell
/// checks, the peer relation being symmetric.
proof fn lemma_filled_grid_valid(
    g0: Seq<char>,
    g: Seq<char>,
    el: Seq<(usize, usize)>,
    steps: Seq<Step>,
)
    requires
        originals_kept(g0, g),
        empties_listed(g0, el),
        el_wf(g0, el),
        stack_ok(g, el, steps, el.len() as int),
        grid_valid(g0),
    ensures
        grid_valid(g),
{
    assert forall|x: int, y: int| in_range(x, y) implies #[trigger] pos_valid(g, x, y) by {
        if cell_at(g0, x, y) == '.' {
            let k = choose|k: int| 0 <= k < el.len() && el[k] == (x as usize, y as usize);
            assert(steps[k].digit == cell_at(g, el[k].0 as int, el[k].1 as int));
            assert(pos_valid(g, el[k].0 as int, el[k].1 as int));
        } else {
            assert(cell_at(g, x, y) == cell_at(g0, x, y));
            assert forall|i: int, j: int|
                in_range(i, j) && is_peer(x, y, i, j) implies #[trigger] cell_at(g, i, j)
                != cell_at(g, x, y) by {
                if cell_at(g0, i, j) != '.' {
                    assert(pos_valid(g0, x, y));
                    assert(cell_at(g, i, j) == cell_at(g0, i, j));
                    assert(cell_at(g0, i, j) != cell_at(g0, x, y));
                } else {
                    let k = choose|k: int| 0 <= k < el.len() && el[k] == (i as usize, j as usize);
                    assert(steps[k].digit == cell_at(g, el[k].0 as int, el[k].1 as int));
                    assert(pos_valid(g, el[k].0 as int, el[k].1 as int));
                    assert(is_digit_cell(cell_at(g, i, j)));
                    assert(is_peer(i, j, x, y));
                    assert(cell_at(g, x, y) != cell_at(g, i, j));
                }
            }
        }
    }
}

/// When the whole stack has been unwound, every searched cell is blank
/// again, so the board is exactly the starting board.
proof fn lemma_all_blank_restored(g0: Seq<char>, g: Seq<char>, el: Seq<(usize, usize)>)
    requires
        g0.len() == 81,
        g.len() == 81,
        originals_kept(g0, g),
        empties_listed(g0, el),
        tail_blank(g, el, 0),
    ensures
        g == g0,
{
    assert forall|n: int| 0 <= n < 81 implies g[n] == g0[n] by {
        let x = n / 9;
        let y = n % 9;
        assert(n == x * 9 + y);
        assert(in_range(x, y));
        if cell_at(g0, x, y) == '.' {
            let k = choose|k: int| 0 <= k < el.len() && el[k] == (x as usize, y as usize);
            assert(cell_at(g, el[k].0 as int, el[k].1 as int) == '.');
        } else {
            assert(cell_at(g, x, y) == cell_at(g0, x, y));
        }
    }
    assert(g =~= g0);
}

impl Sudoku {
    /// Solve the board in place by iterative backtracking, attempting at most
    /// `cycles` placements.
    ///
    /// The outcome classifies the run exactly: `AlreadySolved` if and only if
    /// the board had no empty cell (and then nothing moves); on `Solved` the
    /// board is complete, every searched cell passes the single-cell check,
    /// and a board that started globally valid ends globally valid; on
    /// `NoSolution` the board is restored to its starting state. Pre-filled
    /// cells are never touched, whatever the outcome.
    #[verifier::loop_isolation(false)]
    #[verifier::rlimit(40)]
    pub fn solve(&mut self, cycles: usize) -> (o: Outcome)
        requires
            old(self).wf(),
        ensures
            final(self).wf(),
            originals_kept(old(self)@, final(self)@),
            (o == Outcome::AlreadySolved) <==> full(old(self)@),
            o == Outcome::AlreadySolved ==> final(self)@ == old(self)@,
            o == Outcome::NoSolution ==> final(self)@ == old(self)@,
            o matches Outcome::Solved(k) ==> k < cycles,
            o matches Outcome::Solved(k) ==> full(final(self)@) && search_filled(
                old(self)@,
                final(self)@,
            ),
            o matches Outcome::Solved(k) ==> (grid_valid(old(self)@) ==> grid_valid(
                final(self)@,
            )),
            (final(self)@, o) == spec_solve(old(self)@, cycles as nat),
    {
        let ghost g0 = self@;

        // Collect the empty cells in row-major order.
        let mut empty_locations: Vec<(usize, usize)> = Vec::new();
        let mut x: usize = 0;
        while x < 9
            invariant
                x <= 9,
                el_wf(g0, empty_locations@),
                empty_locations@ == spec_empties_up_to(g0, x as int * 9),
                forall|k: int| 0 <= k < empty_locations@.len()
                    ==> #[trigger] cell_key(empty_locations@[k]) < x * 9,
                forall|a: int, b: int|
                    in_range(a, b) && a * 9 + b < x * 9 && #[trigger] cell_at(g0, a, b) == '.'
                        ==> exists|k: int| 0 <= k < empty_locations@.len()
                            && empty_locations@[k] == (a as usize, b as usize),
            decreases 9 - x,
        {
            let mut y: usize = 0;
            while y < 9
                invariant
                    x < 9,
                    y <= 9,
                    el_wf(g0, empty_locations@),
                    empty_locations@ == spec_empties_up_to(g0, x as int * 9 + y as int),
                    forall|k: int| 0 <= k < empty_locations@.len()
                        ==> #[trigger] cell_key(empty_locations@[k]) < x * 9 + y,
                    forall|a: int, b: int|
                        in_range(a, b) && a * 9 + b < x * 9 + y && #[trigger] cell_at(g0, a, b)
                            == '.' ==> exists|k: int| 0 <= k < empty_locations@.len()
                            && empty_locations@[k] == (a as usize, b as usize),
                decreases 9 - y,
            {
                if self.get(x, y) == '.' {
                    let ghost oldel = empty_locations@;
                    empty_locations.push((x, y));
                    proof {
                        assert(empty_locations@[oldel.len() as int] == (x, y));
                        assert(forall|k: int| 0 <= k < oldel.len()
                            ==> empty_locations@[k] == oldel[k]);
                    }
                }
                proof {
                    assert forall|a: int, b: int|
                        in_range(a, b) && a * 9 + b < x * 9 + (y + 1) && #[trigger] cell_at(
                        g0,
                        a,
                        b,
                    ) == '.' implies exists|k: int| 0 <= k < empty_locations@.len()
                        && empty_locations@[k] == (a as usize, b as usize) by {
                        if a * 9 + b == x * 9 + y {
                            assert(a == x && b == y);
                            assert(empty_locations@[empty_locations@.len() - 1] == (
                                a as usize,
                                b as usize,
                            ));
                        }
                    }
                    let n: int = x as int * 9 + y as int;
                    assert(g0[n] == cell_at(g0, x as int, y as int));
                    assert(n / 9 == x as int && n % 9 == y as int) by (nonlinear_arith)
                        requires
                            0 <= x < 9,
                            0 <= y < 9,
                            n == x as int * 9 + y as int,
                    ;
                    assert(empty_locations@ == spec_empties_up_to(g0, n + 1));
                }
                y = y + 1;
            }
            x = x + 1;
        }

        if empty_locations.len() == 0 {
            proof {
                assert forall|a: int, b: int| in_range(a, b) implies #[trigger] cell_at(g0, a, b)
                    != '.' by {
                    if cell_at(g0, a, b) == '.' {
                        assert(a * 9 + b < 81);
                    }
                }
            }
            return Outcome::AlreadySolved;
        }
        proof {
            assert(cell_at(g0, empty_locations@[0].0 as int, empty_locations@[0].1 as int) == '.');
            assert(!full(g0));
        }

        let mut steps: Vec<Step> = Vec::new();
        let mut current_index: usize = 0;
        let first = empty_locations[0];
        let mut current_step = Step::new(first.0, first.1, '1');
        let ghost target = spec_solve(g0, cycles as nat);
        proof {
            assert(empty_locations@ == spec_empties(g0));
            assert(current_step == Step {
                x: empty_locations@[0].0,
                y: empty_locations@[0].1,
                digit: '1',
            });
            assert(steps@ == Seq::<Step>::empty());
            assert(target == spec_search(
                g0,
                empty_locations@,
                steps@,
                current_step,
                0,
                cycles as nat,
            ));
        }

        let mut i: usize = 0;
        while i < cycles
            invariant
                i <= cycles,
                self.wf(),
                originals_kept(g0, self@),
                current_index == steps@.len(),
                current_index < empty_locations@.len(),
                stack_ok(self@, empty_locations@, steps@, current_index as int),
                current_step.x == empty_locations@[current_index as int].0,
                current_step.y == empty_locations@[current_index as int].1,
                is_digit_cell(current_step.digit),
                tail_blank(self@, empty_locations@, current_index as int + 1),
                target == spec_search(
                    self@,
                    empty_locations@,
                    steps@,
                    current_step,
                    i as nat,
                    cycles as nat,
                ),
            decreases cycles - i,
        {
            let ghost gh = self@;
            let ghost el = empty_locations@;
            let ghost ci = current_index as int;
            let ghost cur0 = current_step;
            let pos_x = current_step.x;
            let pos_y = current_step.y;
            let pos_char = current_step.digit;

            proof {
                // The cell under trial is distinct from every stacked cell:
                // the row-major keys of the empty-cell list strictly increase.
                assert forall|k: int| 0 <= k < ci implies (#[trigger] el[k]) != el[ci] by {
                    assert(cell_key(el[k]) < cell_key(el[ci]));
                }
            }

            self.populate(pos_x, pos_y, pos_char);

            if !self.check_pos_for_valid(pos_x, pos_y) {
                let ghost gp = self@;
                self.remove_entry(pos_x, pos_y);
                proof {
                    assert(gp == place(gh, pos_x, pos_y, pos_char));
                    assert(self@ == clear_cell(place(gh, pos_x, pos_y, pos_char), pos_x, pos_y));
                    assert forall|a: int, b: int|
                        in_range(a, b) && !(a == pos_x && b == pos_y) implies #[trigger] cell_at(
                        self@,
                        a,
                        b,
                    ) == cell_at(gh, a, b) by {
                        assert(cell_at(self@, a, b) == cell_at(gp, a, b));
                    }
                    assert forall|k: int| 0 <= k < ci implies pos_valid(
                        self@,
                        (#[trigger] el[k]).0 as int,
                        el[k].1 as int,
                    ) && cell_at(self@, el[k].0 as int, el[k].1 as int) == steps@[k].digit by {
                        assert(el[k] != el[ci]);
                        assert(pos_valid(gh, el[k].0 as int, el[k].1 as int) && cell_at(
                            gh,
                            el[k].0 as int,
                            el[k].1 as int,
                        ) == steps@[k].digit);
                        lemma_clear_keeps_pos_valid(
                            gh,
                            self@,
                            pos_x as int,
                            pos_y as int,
                            el[k].0 as int,
                            el[k].1 as int,
                        );
                    }
                }
                match succ_digit(pos_char) {
                    Option::Some(d) => {
                        current_step = Step::new(pos_x, pos_y, d);
                        proof {
                            assert(current_step == Step { x: cur0.x, y: cur0.y, digit: d });
                            assert(target == spec_search(
                                self@,
                                empty_locations@,
                                steps@,
                                current_step,
                                (i + 1) as nat,
                                cycles as nat,
                            ));
                            assert forall|j: int| ci + 1 <= j < el.len() implies cell_at(
                                self@,
                                (#[trigger] el[j]).0 as int,
                                el[j].1 as int,
                            ) == '.' by {
                                assert(cell_key(el[ci]) < cell_key(el[j]));
                                assert(el[j] != el[ci]);
                                assert(cell_at(gh, el[j].0 as int, el[j].1 as int) == '.');
                            }
                        }
                    },
                    Option::None => {
                        proof {
                            assert(target == spec_resume(
                                empty_locations@,
                                spec_backtrack(self@, steps@),
                                (i + 1) as nat,
                                cycles as nat,
                            ));
                        }
                        #[verifier::loop_isolation(true)]
                        loop
                            invariant_except_break
                                old(self).wf(),
                                g0 == old(self)@,
                                el_wf(g0, empty_locations@),
                                empties_listed(g0, empty_locations@),
                                empty_locations@.len() >= 1,
                                !full(g0),
                                self.wf(),
                                originals_kept(g0, self@),
                                current_index == steps@.len(),
                                current_index < empty_locations@.len(),
                                stack_ok(self@, empty_locations@, steps@, current_index as int),
                                tail_blank(self@, empty_locations@, current_index as int),
                                target == spec_solve(g0, cycles as nat),
                                target == spec_resume(
                                    empty_locations@,
                                    spec_backtrack(self@, steps@),
                                    (i + 1) as nat,
                                    cycles as nat,
                                ),
                            ensures
                                self.wf(),
                                originals_kept(g0, self@),
                                current_index == steps@.len(),
                                current_index < empty_locations@.len(),
                                stack_ok(self@, empty_locations@, steps@, current_index as int),
                                current_step.x == empty_locations@[current_index as int].0,
                                current_step.y == empty_locations@[current_index as int].1,
                                is_digit_cell(current_step.digit),
                                tail_blank(self@, empty_locations@, current_index as int + 1),
                                target == spec_search(
                                    self@,
                                    empty_locations@,
                                    steps@,
                                    current_step,
                                    (i + 1) as nat,
                                    cycles as nat,
                                ),
                            decreases steps@.len(),
                        {
                            if steps.len() == 0 {
                                proof {
                                    lemma_all_blank_restored(g0, self@, empty_locations@);
                                    assert(spec_backtrack(self@, steps@) == (
                                        self@,
                                        steps@,
                                        None::<Step>,
                                    ));
                                    assert(target == (self@, Outcome::NoSolution));
                                }
                                return Outcome::NoSolution;
                            }
                            let ghost popped = steps@;
                            let prev = steps.pop().unwrap();
                            current_index = current_index - 1;
                            proof {
                                assert(prev == popped[popped.len() - 1]);
                                assert(popped[current_index as int].x == empty_locations@[
                                    current_index as int].0);
                                assert forall|k: int| 0 <= k < current_index as int implies
                                    #[trigger] steps@[k] == popped[k] by {
                                    assert(steps@ == popped.subrange(0, popped.len() - 1));
                                }
                                assert(prev.x == empty_locations@[current_index as int].0);
                                assert(prev.y == empty_locations@[current_index as int].1);
                                assert(is_digit_cell(prev.digit));
                                assert(cell_at(self@, prev.x as int, prev.y as int) == prev.digit);
                                assert(prev == popped.last());
                                assert(steps@ == popped.drop_last());
                            }
                            match succ_digit(prev.digit) {
                                Option::Some(d) => {
                                    current_step = Step::new(prev.x, prev.y, d);
                                    proof {
                                        assert(spec_backtrack(self@, popped) == (
                                            self@,
                                            steps@,
                                            Some(current_step),
                                        ));
                                        assert(target == spec_search(
                                            self@,
                                            empty_locations@,
                                            steps@,
                                            current_step,
                                            (i + 1) as nat,
                                            cycles as nat,
                                        ));
                                    }
                                    break;
                                },
                                Option::None => {
                                    let ghost gb = self@;
                                    let ghost cj = current_index as int;
                                    self.remove_entry(prev.x, prev.y);
                                    proof {
                                        assert(self@ == clear_cell(gb, prev.x, prev.y));
                                        assert(spec_backtrack(gb, popped) == spec_backtrack(
                                            self@,
                                            steps@,
                                        ));
                                        assert forall|k: int| 0 <= k < cj implies (
                                        #[trigger] empty_locations@[k]) != empty_locations@[cj]
                                            by {
                                            assert(cell_key(empty_locations@[k]) < cell_key(
                                                empty_locations@[cj],
                                            ));
                                        }
                                        assert forall|k: int| 0 <= k < cj implies pos_valid(
                                            self@,
                                            (#[trigger] empty_locations@[k]).0 as int,
                                            empty_locations@[k].1 as int,
                                        ) && cell_at(
                                            self@,
                                            empty_locations@[k].0 as int,
                                            empty_locations@[k].1 as int,
                                        ) == steps@[k].digit by {
                                            assert(pos_valid(
                                                gb,
                                                empty_locations@[k].0 as int,
                                                empty_locations@[k].1 as int,
                                            ) && cell_at(
                                                gb,
                                                empty_locations@[k].0 as int,
                                                empty_locations@[k].1 as int,
                                            ) == steps@[k].digit);
                                            lemma_clear_keeps_pos_valid(
                                                gb,
                                                self@,
                                                prev.x as int,
                                                prev.y as int,
                                                empty_locations@[k].0 as int,
                                                empty_locations@[k].1 as int,
                                            );
                                        }
                                        assert forall|j: int|
                                            cj <= j < empty_locations@.len() implies cell_at(
                                            self@,
                                            (#[trigger] empty_locations@[j]).0 as int,
                                            empty_locations@[j].1 as int,
                                        ) == '.' by {
                                            if j > cj {
                                                assert(cell_key(empty_locations@[cj]) < cell_key(
                                                    empty_locations@[j],
                                                ));
                                                assert(cell_at(
                                                    gb,
                                                    empty_locations@[j].0 as int,
                                                    empty_locations@[j].1 as int,
                                                ) == '.');
                                            }
                                        }
                                    }
                                },
                            }
                        }
                    },
                }
            } else {
                let ghost gp = self@;
                proof {
                    assert forall|k: int| 0 <= k < ci implies pos_valid(
                        gp,
                        (#[trigger] el[k]).0 as int,
                        el[k].1 as int,
                    ) && cell_at(gp, el[k].0 as int, el[k].1 as int) == steps@[k].digit by {
                        assert(el[k] != el[ci]);
                        assert(pos_valid(gh, el[k].0 as int, el[k].1 as int) && cell_at(
                            gh,
                            el[k].0 as int,
                            el[k].1 as int,
                        ) == steps@[k].digit);
                        lemma_place_keeps_pos_valid(
                            gh,
                            gp,
                            pos_x as int,
                            pos_y as int,
                            el[k].0 as int,
                            el[k].1 as int,
                        );
                    }
                }
                let ghost oldsteps = steps@;
                steps.push(current_step);
                current_index = current_index + 1;
                proof {
                    assert(steps@[ci] == current_step);
                    assert(forall|k: int| 0 <= k < ci ==> steps@[k] == oldsteps[k]);
                    assert(gp == place(gh, cur0.x, cur0.y, cur0.digit));
                    assert(pos_valid(gp, cur0.x as int, cur0.y as int));
                    assert(steps@ == oldsteps.push(cur0));
                }

                if current_index == empty_locations.len() {
                    proof {
                        assert forall|a: int, b: int|
                            in_range(a, b) && cell_at(g0, a, b) == '.' implies is_digit_cell(
                            #[trigger] cell_at(self@, a, b),
                        ) && pos_valid(self@, a, b) by {
                            let k = choose|k: int|
                                0 <= k < empty_locations@.len() && empty_locations@[k] == (
                                a as usize,
                                b as usize,
                                );
                            assert(cell_at(
                                self@,
                                empty_locations@[k].0 as int,
                                empty_locations@[k].1 as int,
                            ) == steps@[k].digit);
                            assert(pos_valid(
                                self@,
                                empty_locations@[k].0 as int,
                                empty_locations@[k].1 as int,
                            ));
                        }
                        assert(search_filled(g0, self@));
                        assert forall|a: int, b: int| in_range(a, b) implies #[trigger] cell_at(
                            self@,
                            a,
                            b,
                        ) != '.' by {
                            if cell_at(g0, a, b) == '.' {
                                assert(is_digit_cell(cell_at(self@, a, b)));
                            } else {
                                assert(cell_at(self@, a, b) == cell_at(g0, a, b));
                            }
                        }
                        if grid_valid(g0) {
                            lemma_filled_grid_valid(g0, self@, empty_locations@, steps@);
                        }
                        assert(target == (self@, Outcome::Solved(i)));
                    }
                    return Outcome::Solved(i);
                }

                let next = empty_locations[current_index];
                current_step = Step::new(next.0, next.1, '1');
                proof {
                    assert(current_step == Step {
                        x: empty_locations@[ci + 1].0,
                        y: empty_locations@[ci + 1].1,
                        digit: '1',
                    });
                    assert forall|j: int| ci + 2 <= j < el.len() implies cell_at(
                        self@,
                        (#[trigger] el[j]).0 as int,
                        el[j].1 as int,
                    ) == '.' by {
                        assert(cell_key(el[ci]) < cell_key(el[j]));
                        assert(el[j] != el[ci]);
                        assert(cell_at(gh, el[j].0 as int, el[j].1 as int) == '.');
                    }
                    assert(target == spec_search(
                        self@,
                        empty_locations@,
                        steps@,
                        current_step,
                        (i + 1) as nat,
                        cycles as nat,
                    ));
                }
            }
            i = i + 1;
        }
        proof {
            assert(target == (self@, Outcome::Exhausted));
        }
        Outcome::Exhausted
    }
}

} // verus!


