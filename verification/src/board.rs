//! The Sudoku board and its constraint checker.
//!
//! A board is a flat row-major sequence of 81 cells. The spec model speaks of
//! cells through `cell_at(g, x, y)`, and the single-cell constraint check is
//! `pos_valid`: a cell is locally valid when it is empty or when no other
//! cell in its row, column, or 3x3 box holds the same digit.

use vstd::prelude::*;

verus! {

/// A cell is the empty marker `'.'` or a digit `'1'..'9'`.
pub open spec fn cell_ok(c: char) -> bool {
    c == '.' || is_digit_cell(c)
}

/// The nine digit symbols a filled cell may hold.
pub open spec fn is_digit_cell(c: char) -> bool {
    ||| c == '1'
    ||| c == '2'
    ||| c == '3'
    ||| c == '4'
    ||| c == '5'
    ||| c == '6'
    ||| c == '7'
    ||| c == '8'
    ||| c == '9'
}

/// Both coordinates of a cell lie in [0, 9).
pub open spec fn in_range(x: int, y: int) -> bool {
    0 <= x < 9 && 0 <= y < 9
}

/// The cell in row `x`, column `y` of a flat row-major board.
pub open spec fn cell_at(g: Seq<char>, x: int, y: int) -> char {
    g[x * 9 + y]
}

/// Two distinct cells are peers when they share a row, a column, or a 3x3 box.
pub open spec fn is_peer(x: int, y: int, i: int, j: int) -> bool {
    &&& !(i == x && j == y)
    &&& (i == x || j == y || (i / 3 == x / 3 && j / 3 == y / 3))
}

/// The single-cell constraint: the cell is empty, or no peer holds its digit.
pub open spec fn pos_valid(g: Seq<char>, x: int, y: int) -> bool {
    cell_at(g, x, y) == '.' || (forall|i: int, j: int|
        in_range(i, j) && is_peer(x, y, i, j) ==> #[trigger] cell_at(g, i, j) != cell_at(g, x, y))
}

/// Every cell of the board is locally valid.
pub open spec fn grid_valid(g: Seq<char>) -> bool {
    forall|x: int, y: int| in_range(x, y) ==> #[trigger] pos_valid(g, x, y)
}

/// No cell of the board is empty.
pub open spec fn full(g: Seq<char>) -> bool {
    forall|x: int, y: int| in_range(x, y) ==> #[trigger] cell_at(g, x, y) != '.'
}

/// The board `g` with `c` written into cell (x, y).
pub open spec fn place(g: Seq<char>, x: usize, y: usize, c: char) -> Seq<char> {
    g.update(x * 9 + y, c)
}

/// The board `g` with cell (x, y) blanked.
pub open spec fn clear_cell(g: Seq<char>, x: usize, y: usize) -> Seq<char> {
    g.update(x * 9 + y, '.')
}

/// The two boards have the same cells except possibly at (x, y).
pub open spec fn same_except(g0: Seq<char>, g: Seq<char>, x: int, y: int) -> bool {
    &&& g.len() == g0.len()
    &&& forall|i: int, j: int| in_range(i, j) && !(i == x && j == y)
            ==> #[trigger] cell_at(g, i, j) == cell_at(g0, i, j)
}

/// A cell that shares its digit with a row, column, or box peer is not
/// locally valid: the checker reports the conflict.
pub proof fn lemma_conflict_invalid(g: Seq<char>, x: int, y: int, i: int, j: int)
    requires
        in_range(x, y),
        in_range(i, j),
        is_peer(x, y, i, j),
        cell_at(g, x, y) != '.',
        cell_at(g, i, j) == cell_at(g, x, y),
    ensures
        !pos_valid(g, x, y),
{
}

/// Blanking one cell keeps every cell locally valid: it can only remove
/// conflicts, never create one.
pub proof fn lemma_clear_keeps_pos_valid(
    g0: Seq<char>,
    g: Seq<char>,
    x: int,
    y: int,
    a: int,
    b: int,
)
    requires
        in_range(x, y),
        in_range(a, b),
        same_except(g0, g, x, y),
        cell_at(g, x, y) == '.',
        pos_valid(g0, a, b),
    ensures
        pos_valid(g, a, b),
{
    if !(a == x && b == y) && cell_at(g, a, b) != '.' {
        assert forall|i: int, j: int|
            in_range(i, j) && is_peer(a, b, i, j) implies #[trigger] cell_at(g, i, j) != cell_at(
            g,
            a,
            b,
        ) by {
            if i == x && j == y {
                assert(cell_at(g, i, j) == '.');
            } else {
                assert(cell_at(g, i, j) == cell_at(g0, i, j));
            }
        }
    }
}

/// Writing a digit that passes the single-cell check keeps every other
/// locally valid cell locally valid: had the new digit conflicted with an
/// existing cell, the check at the written cell would have failed.
pub proof fn lemma_place_keeps_pos_valid(
    g0: Seq<char>,
    g: Seq<char>,
    x: int,
    y: int,
    a: int,
    b: int,
)
    requires
        in_range(x, y),
        in_range(a, b),
        !(a == x && b == y),
        same_except(g0, g, x, y),
        cell_at(g, x, y) != '.',
        pos_valid(g, x, y),
        pos_valid(g0, a, b),
    ensures
        pos_valid(g, a, b),
{
    if cell_at(g, a, b) != '.' {
        assert forall|i: int, j: int|
            in_range(i, j) && is_peer(a, b, i, j) implies #[trigger] cell_at(g, i, j) != cell_at(
            g,
            a,
            b,
        ) by {
            if i == x && j == y {
                assert(is_peer(x, y, a, b));
                assert(cell_at(g, a, b) != cell_at(g, x, y));
            } else {
                assert(cell_at(g, i, j) == cell_at(g0, i, j));
                assert(cell_at(g0, a, b) == cell_at(g, a, b));
            }
        }
    }
}

/// A 9x9 Sudoku board.
pub struct Sudoku {
    grid: Vec<char>,
}

impl View for Sudoku {
    type V = Seq<char>;

    closed spec fn view(&self) -> Seq<char> {
        self.grid@
    }
}

impl Sudoku {
    /// The board holds exactly 81 cells, each empty or a digit.
    pub open spec fn wf(&self) -> bool {
        &&& self@.len() == 81
        &&& forall|x: int, y: int| in_range(x, y) ==> cell_ok(#[trigger] cell_at(self@, x, y))
    }

    /// A fresh board with every cell empty.
    pub fn new() -> (s: Sudoku)
        ensures
            s.wf(),
            forall|x: int, y: int| in_range(x, y) ==> #[trigger] cell_at(s@, x, y) == '.',
    {
        let mut grid: Vec<char> = Vec::new();
        let mut k: usize = 0;
        while k < 81
            invariant
                k <= 81,
                grid@.len() == k,
                forall|i: int| 0 <= i < k ==> grid@[i] == '.',
            decreases 81 - k,
        {
            grid.push('.');
            k = k + 1;
        }
        Sudoku { grid }
    }

    /// The value of cell (x, y).
    pub fn get(&self, x: usize, y: usize) -> (c: char)
        requires
            self.wf(),
            x < 9,
            y < 9,
        ensures
            c == cell_at(self@, x as int, y as int),
    {
        self.grid[x * 9 + y]
    }

    /// Write `value` into cell (x, y), leaving every other cell unchanged.
    pub fn populate(&mut self, x: usize, y: usize, value: char)
        requires
            old(self).wf(),
            x < 9,
            y < 9,
            cell_ok(value),
        ensures
            final(self).wf(),
            final(self)@ == place(old(self)@, x, y, value),
            cell_at(final(self)@, x as int, y as int) == value,
            same_except(old(self)@, final(self)@, x as int, y as int),
    {
        self.grid[x * 9 + y] = value;
        proof {
            assert forall|i: int, j: int| in_range(i, j) implies cell_ok(
                #[trigger] cell_at(self@, i, j),
            ) by {
                if !(i == x && j == y) {
                    assert(cell_at(self@, i, j) == cell_at(old(self)@, i, j));
                    assert(cell_ok(cell_at(old(self)@, i, j)));
                }
            }
        }
    }

    /// Blank cell (x, y), leaving every other cell unchanged.
    pub fn remove_entry(&mut self, x: usize, y: usize)
        requires
            old(self).wf(),
            x < 9,
            y < 9,
        ensures
            final(self).wf(),
            final(self)@ == clear_cell(old(self)@, x, y),
            cell_at(final(self)@, x as int, y as int) == '.',
            same_except(old(self)@, final(self)@, x as int, y as int),
    {
        self.grid[x * 9 + y] = '.';
        proof {
            assert forall|i: int, j: int| in_range(i, j) implies cell_ok(
                #[trigger] cell_at(self@, i, j),
            ) by {
                if !(i == x && j == y) {
                    assert(cell_at(self@, i, j) == cell_at(old(self)@, i, j));
                    assert(cell_ok(cell_at(old(self)@, i, j)));
                }
            }
        }
    }

    /// Copy nine cells into the 3x3 box whose column-box index is `x` and
    /// row-box index is `y`, reading `arr` row by row; out-of-range box
    /// indices leave the board untouched.
    #[verifier::loop_isolation(false)]
    pub fn populate_grid(&mut self, x: usize, y: usize, arr: &Vec<char>)
        requires
            old(self).wf(),
            arr@.len() == 9,
            forall|k: int| 0 <= k < 9 ==> cell_ok(#[trigger] arr@[k]),
        ensures
            final(self).wf(),
            x <= 2 && y <= 2 ==> forall|a: int, b: int|
                0 <= a < 3 && 0 <= b < 3
                    ==> #[trigger] cell_at(final(self)@, y * 3 + a, x * 3 + b) == arr@[a * 3 + b],
            x <= 2 && y <= 2 ==> forall|i: int, j: int|
                in_range(i, j) && !(y * 3 <= i < y * 3 + 3 && x * 3 <= j < x * 3 + 3)
                    ==> #[trigger] cell_at(final(self)@, i, j) == cell_at(old(self)@, i, j),
            !(x <= 2 && y <= 2) ==> final(self)@ == old(self)@,
    {
        if x <= 2 && y <= 2 {
            let mut ny: usize = 0;
            while ny < 3
                invariant
                    ny <= 3,
                    self.wf(),
                    forall|a: int, b: int|
                        0 <= a < ny && 0 <= b < 3
                            ==> #[trigger] cell_at(self@, y * 3 + a, x * 3 + b) == arr@[a * 3 + b],
                    forall|i: int, j: int|
                        in_range(i, j) && !(y * 3 <= i < y * 3 + 3 && x * 3 <= j < x * 3 + 3)
                            ==> #[trigger] cell_at(self@, i, j) == cell_at(old(self)@, i, j),
                decreases 3 - ny,
            {
                let mut nx: usize = 0;
                while nx < 3
                    invariant
                        ny < 3,
                        nx <= 3,
                        self.wf(),
                        forall|a: int, b: int|
                            0 <= a < ny && 0 <= b < 3
                                ==> #[trigger] cell_at(self@, y * 3 + a, x * 3 + b)
                                    == arr@[a * 3 + b],
                        forall|b: int|
                            0 <= b < nx
                                ==> #[trigger] cell_at(self@, y * 3 + ny, x * 3 + b)
                                    == arr@[ny * 3 + b],
                        forall|i: int, j: int|
                            in_range(i, j) && !(y * 3 <= i < y * 3 + 3 && x * 3 <= j < x * 3 + 3)
                                ==> #[trigger] cell_at(self@, i, j) == cell_at(old(self)@, i, j),
                    decreases 3 - nx,
                {
                    let v = arr[ny * 3 + nx];
                    self.populate(y * 3 + ny, x * 3 + nx, v);
                    nx = nx + 1;
                }
                ny = ny + 1;
            }
        }
    }

    /// Copy a whole 9x9 board in, row by row.
    pub fn fill(&mut self, board: &Vec<Vec<char>>)
        requires
            old(self).wf(),
            board@.len() == 9,
            forall|x: int| 0 <= x < 9 ==> (#[trigger] board@[x])@.len() == 9,
            forall|x: int, y: int| in_range(x, y) ==> cell_ok(#[trigger] board@[x]@[y]),
        ensures
            final(self).wf(),
            forall|x: int, y: int| in_range(x, y)
                ==> #[trigger] cell_at(final(self)@, x, y) == board@[x]@[y],
    {
        let mut x: usize = 0;
        while x < 9
            invariant
                x <= 9,
                self.wf(),
                board@.len() == 9,
                forall|r: int| 0 <= r < 9 ==> (#[trigger] board@[r])@.len() == 9,
                forall|r: int, c: int| in_range(r, c) ==> cell_ok(#[trigger] board@[r]@[c]),
                forall|r: int, c: int| 0 <= r < x && 0 <= c < 9
                    ==> #[trigger] cell_at(self@, r, c) == board@[r]@[c],
            decreases 9 - x,
        {
            let mut y: usize = 0;
            while y < 9
                invariant
                    x < 9,
                    y <= 9,
                    self.wf(),
                    board@.len() == 9,
                    forall|r: int| 0 <= r < 9 ==> (#[trigger] board@[r])@.len() == 9,
                    forall|r: int, c: int| in_range(r, c) ==> cell_ok(#[trigger] board@[r]@[c]),
                    forall|r: int, c: int| 0 <= r < x && 0 <= c < 9
                        ==> #[trigger] cell_at(self@, r, c) == board@[r]@[c],
                    forall|c: int| 0 <= c < y
                        ==> #[trigger] cell_at(self@, x as int, c) == board@[x as int]@[c],
                decreases 9 - y,
            {
                let row = &board[x];
                let v = row[y];
                self.populate(x, y, v);
                y = y + 1;
            }
            x = x + 1;
        }
    }

    /// The single-cell constraint check: true when cell (x, y) is empty or no
    /// other cell in its row, column, or 3x3 box holds the same digit.
    pub fn check_pos_for_valid(&self, x: usize, y: usize) -> (b: bool)
        requires
            self.wf(),
            x < 9,
            y < 9,
        ensures
            b == pos_valid(self@, x as int, y as int),
    {
        let c = self.get(x, y);
        if c == '.' {
            return true;
        }
        let mut new_x: usize = 0;
        while new_x < 9
            invariant
                new_x <= 9,
                self.wf(),
                x < 9,
                y < 9,
                c == cell_at(self@, x as int, y as int),
                c != '.',
                forall|i: int| 0 <= i < new_x && i != x
                    ==> #[trigger] cell_at(self@, i, y as int) != c,
            decreases 9 - new_x,
        {
            if new_x != x && self.get(new_x, y) == c {
                proof {
                    lemma_conflict_invalid(self@, x as int, y as int, new_x as int, y as int);
                }
                return false;
            }
            new_x = new_x + 1;
        }
        let mut new_y: usize = 0;
        while new_y < 9
            invariant
                new_y <= 9,
                self.wf(),
                x < 9,
                y < 9,
                c == cell_at(self@, x as int, y as int),
                c != '.',
                forall|j: int| 0 <= j < new_y && j != y
                    ==> #[trigger] cell_at(self@, x as int, j) != c,
            decreases 9 - new_y,
        {
            if new_y != y && self.get(x, new_y) == c {
                proof {
                    lemma_conflict_invalid(self@, x as int, y as int, x as int, new_y as int);
                }
                return false;
            }
            new_y = new_y + 1;
        }
        let grid_x = (x / 3) * 3;
        let grid_y = (y / 3) * 3;
        let mut xi: usize = grid_x;
        while xi < grid_x + 3
            invariant
                grid_x == (x / 3) * 3,
                grid_y == (y / 3) * 3,
                grid_x <= xi <= grid_x + 3,
                self.wf(),
                x < 9,
                y < 9,
                c == cell_at(self@, x as int, y as int),
                c != '.',
                forall|i: int, j: int|
                    grid_x <= i < xi && grid_y <= j < grid_y + 3 && !(i == x && j == y)
                        ==> #[trigger] cell_at(self@, i, j) != c,
            decreases grid_x + 3 - xi,
        {
            let mut yj: usize = grid_y;
            while yj < grid_y + 3
                invariant
                    grid_x == (x / 3) * 3,
                    grid_y == (y / 3) * 3,
                    grid_x <= xi < grid_x + 3,
                    grid_y <= yj <= grid_y + 3,
                    self.wf(),
                    x < 9,
                    y < 9,
                    c == cell_at(self@, x as int, y as int),
                    c != '.',
                    forall|i: int, j: int|
                        grid_x <= i < xi && grid_y <= j < grid_y + 3 && !(i == x && j == y)
                            ==> #[trigger] cell_at(self@, i, j) != c,
                    forall|j: int|
                        grid_y <= j < yj && !(xi == x && j == y)
                            ==> #[trigger] cell_at(self@, xi as int, j) != c,
                decreases grid_y + 3 - yj,
            {
                if !(xi == x && yj == y) && self.get(xi, yj) == c {
                    proof {
                        lemma_conflict_invalid(self@, x as int, y as int, xi as int, yj as int);
                    }
                    return false;
                }
                yj = yj + 1;
            }
            xi = xi + 1;
        }
        proof {
            assert forall|i: int, j: int|
                in_range(i, j) && is_peer(x as int, y as int, i, j) implies #[trigger] cell_at(
                self@,
                i,
                j,
            ) != c by {
                if j == y && i != x {
                } else if i == x && j != y {
                } else {
                    assert(i / 3 == x as int / 3 && j / 3 == y as int / 3);
                    assert(grid_x <= i < grid_x + 3);
                    assert(grid_y <= j < grid_y + 3);
                }
            }
        }
        true
    }

    /// The whole-board check: true iff every cell passes the single-cell check.
    pub fn check_sudoku_valid(&self) -> (b: bool)
        requires
            self.wf(),
        ensures
            b == grid_valid(self@),
    {
        let mut x: usize = 0;
        while x < 9
            invariant
                x <= 9,
                self.wf(),
                forall|i: int, j: int| 0 <= i < x && 0 <= j < 9 ==> #[trigger] pos_valid(self@, i, j),
            decreases 9 - x,
        {
            let mut y: usize = 0;
            while y < 9
                invariant
                    x < 9,
                    y <= 9,
                    self.wf(),
                    forall|i: int, j: int| 0 <= i < x && 0 <= j < 9
                        ==> #[trigger] pos_valid(self@, i, j),
                    forall|j: int| 0 <= j < y ==> #[trigger] pos_valid(self@, x as int, j),
                decreases 9 - y,
            {
                if !self.check_pos_for_valid(x, y) {
                    return false;
                }
                y = y + 1;
            }
            x = x + 1;
        }
        true
    }

    /// The positions, in row-major order, that fail the single-cell check.
    pub fn invalid_cells(&self) -> (v: Vec<(usize, usize)>)
        requires
            self.wf(),
        ensures
            forall|k: int| 0 <= k < v@.len()
                ==> in_range((#[trigger] v@[k]).0 as int, v@[k].1 as int)
                    && !pos_valid(self@, v@[k].0 as int, v@[k].1 as int),
            forall|x: int, y: int| in_range(x, y) && !pos_valid(self@, x, y)
                ==> exists|k: int| 0 <= k < v@.len() && v@[k] == (x as usize, y as usize),
    {
        let mut v: Vec<(usize, usize)> = Vec::new();
        let mut x: usize = 0;
        while x < 9
            invariant
                x <= 9,
                self.wf(),
                forall|k: int| 0 <= k < v@.len()
                    ==> in_range((#[trigger] v@[k]).0 as int, v@[k].1 as int)
                        && !pos_valid(self@, v@[k].0 as int, v@[k].1 as int),
                forall|i: int, j: int|
                    0 <= i < x && 0 <= j < 9 && !(#[trigger] pos_valid(self@, i, j))
                        ==> exists|k: int| 0 <= k < v@.len() && v@[k] == (i as usize, j as usize),
            decreases 9 - x,
        {
            let mut y: usize = 0;
            while y < 9
                invariant
                    x < 9,
                    y <= 9,
                    self.wf(),
                    forall|k: int| 0 <= k < v@.len()
                        ==> in_range((#[trigger] v@[k]).0 as int, v@[k].1 as int)
                            && !pos_valid(self@, v@[k].0 as int, v@[k].1 as int),
                    forall|i: int, j: int|
                        0 <= i < x && 0 <= j < 9 && !(#[trigger] pos_valid(self@, i, j))
                            ==> exists|k: int| 0 <= k < v@.len() && v@[k] == (i as usize, j as usize),
                    forall|j: int|
                        0 <= j < y && !(#[trigger] pos_valid(self@, x as int, j))
                            ==> exists|k: int| 0 <= k < v@.len()
                                && v@[k] == (x as usize, j as usize),
                decreases 9 - y,
            {
                if !self.check_pos_for_valid(x, y) {
                    let ghost oldv = v@;
                    v.push((x, y));
                    proof {
                        assert(v@[v@.len() - 1] == (x, y));
                        assert(forall|k: int| 0 <= k < oldv.len() ==> v@[k] == oldv[k]);
                    }
                }
                y = y + 1;
            }
            x = x + 1;
        }
        v
    }
}

} // verus!
