//! The board: owns the grid, places mines, computes per-cell adjacent-mine
//! counts, and reveals cells with a worklist flood fill.

use vstd::prelude::*;

use crate::cell::Cell;
use crate::cell::Interaction;
use crate::cell::spec_toggle;
use crate::cell::glyph;
use crate::counting::count_mines;
use crate::counting::count_true;
use crate::counting::lemma_count_mines_matches_layout;
use crate::counting::lemma_count_mines_pointwise;
use crate::counting::lemma_count_true_update;
use crate::counting::lemma_count_true_zero;
use crate::counting::count_unopened;
use crate::counting::lemma_count_unopened_open;
use crate::counting::lemma_nearby_count_mine_eq;
use crate::grid::adj4;
use crate::grid::cell_at;
use crate::grid::eligible;
use crate::grid::in_grid;
use crate::grid::is_adjacent;
use crate::grid::is_cascade_path;
use crate::grid::is_nearby;
use crate::grid::lemma_cascade_path_opened;
use crate::grid::lemma_pos_index_bounds;
use crate::grid::lemma_pos_index_injective;
use crate::grid::lemma_reaches_eligible;
use crate::grid::lemma_reaches_self;
use crate::grid::lemma_reaches_step;
use crate::grid::mine_flag;
use crate::grid::nearby_mine_count;
use crate::grid::pos_index;
use crate::grid::reaches;

verus! {

/// A rejected call: arguments outside what the operation accepts (bad
/// dimensions or mine count at generation, out-of-range coordinates later).
#[derive(Clone, Copy, Debug, PartialEq, Eq, Structural)]
pub enum BoardError {
    InvalidArgument,
}

/// What a reveal reports: either the cascade ran, or the target was a mine
/// and the board was deliberately left untouched for the caller to handle.
#[derive(Clone, Copy, Debug, PartialEq, Eq, Structural)]
pub enum RevealOutcome {
    Revealed,
    HitMine,
}

/// The eight compass directions of a cell's full neighborhood.
pub enum Direction {
    Up,
    UpRight,
    Right,
    DownRight,
    Down,
    DownLeft,
    Left,
    UpLeft,
}

/// The full minesweeper grid, stored row-major: the cell at `(column, row)`
/// sits at index `row * width + column`.
pub struct Board {
    pub width: usize,
    pub height: usize,
    pub mines: usize,
    pub grid: Vec<Cell>,
}

impl Board {
    /// A consistent board: the grid holds exactly `width * height` cells,
    /// the recorded mine count matches the grid, every stored `nearby`
    /// equals the true count of mines among the cell's 8 neighbors, and no
    /// mine cell is `Opened`.
    pub open spec fn wf(self) -> bool {
        &&& self.grid@.len() == (self.width as int) * (self.height as int)
        &&& count_mines(self.grid@) == self.mines
        &&& forall|p: (int, int)|
            in_grid(self.width as int, self.height as int, p) ==> {
                &&& (#[trigger] cell_at(self.grid@, self.width as int, p)).nearby
                    == nearby_mine_count(
                    self.grid@,
                    self.width as int,
                    self.height as int,
                    p.0,
                    p.1,
                )
                &&& cell_at(self.grid@, self.width as int, p).mine
                    ==> cell_at(self.grid@, self.width as int, p).interaction
                    != Interaction::Opened
            }
    }
}

/// Two boards in the same state: equal dimensions, mine count, and cells.
pub open spec fn same_state(a: Board, b: Board) -> bool {
    &&& a.width == b.width
    &&& a.height == b.height
    &&& a.mines == b.mines
    &&& a.grid@ == b.grid@
}

impl Default for Board {
    /// The empty board: zero dimensions and no cells. It satisfies the
    /// invariant vacuously and becomes playable only through generation.
    fn default() -> (b: Board)
        ensures
            b.wf(),
            b.width == 0,
            b.height == 0,
            b.mines == 0,
            b.grid@.len() == 0,
    {
        Board { width: 0, height: 0, mines: 0, grid: Vec::new() }
    }
}

impl Board {
    /// Unchecked mine read, for internal use once bounds are known.
    fn mine_at(&self, column: usize, row: usize) -> (m: bool)
        requires
            self.grid@.len() == (self.width as int) * (self.height as int),
            column < self.width,
            row < self.height,
        ensures
            m == cell_at(self.grid@, self.width as int, (column as int, row as int)).mine,
    {
        proof {
            lemma_pos_index_bounds(
                self.width as int,
                self.height as int,
                (column as int, row as int),
            );
        }
        // binding the length as an executable value teaches the prover that
        // the cell count fits in usize, which bounds the index arithmetic
        let _len = self.grid.len();
        self.grid[row * self.width + column].mine
    }

    /// Count the mines among the up-to-8 neighbors of `(column, row)` by
    /// direct bounds-checked inspection of each surrounding position.
    fn count_adjacent_mines(&self, column: usize, row: usize) -> (n: usize)
        requires
            self.grid@.len() == (self.width as int) * (self.height as int),
            column < self.width,
            row < self.height,
        ensures
            n == nearby_mine_count(
                self.grid@,
                self.width as int,
                self.height as int,
                column as int,
                row as int,
            ),
    {
        let ghost g = self.grid@;
        let ghost w = self.width as int;
        let ghost h = self.height as int;
        let ghost c = column as int;
        let ghost r = row as int;
        let mut n: usize = 0;
        if row > 0 {
            if column > 0 && self.mine_at(column - 1, row - 1) {
                n += 1;
            }
            assert(n == mine_flag(g, w, h, (c - 1, r - 1)));
            if self.mine_at(column, row - 1) {
                n += 1;
            }
            if column + 1 < self.width && self.mine_at(column + 1, row - 1) {
                n += 1;
            }
        }
        assert(n == mine_flag(g, w, h, (c - 1, r - 1)) + mine_flag(g, w, h, (c, r - 1))
            + mine_flag(g, w, h, (c + 1, r - 1)));
        if column > 0 && self.mine_at(column - 1, row) {
            n += 1;
        }
        if column + 1 < self.width && self.mine_at(column + 1, row) {
            n += 1;
        }
        assert(n == mine_flag(g, w, h, (c - 1, r - 1)) + mine_flag(g, w, h, (c, r - 1))
            + mine_flag(g, w, h, (c + 1, r - 1)) + mine_flag(g, w, h, (c - 1, r))
            + mine_flag(g, w, h, (c + 1, r)));
        if row + 1 < self.height {
            if column > 0 && self.mine_at(column - 1, row + 1) {
                n += 1;
            }
            if self.mine_at(column, row + 1) {
                n += 1;
            }
            if column + 1 < self.width && self.mine_at(column + 1, row + 1) {
                n += 1;
            }
        }
        assert(n == nearby_mine_count(g, w, h, c, r));
        n
    }
}

/// Relies on `rand::random_range` over `0..bound` (the thread-local RNG):
/// the range is non-empty, so the draw returns a value below `bound`.
/// Nothing more is assumed of the outcome.
#[verifier::external_body]
fn random_below(bound: usize) -> (r: usize)
    requires
        0 < bound,
    ensures
        r < bound,
{
    rand::random_range(0..bound)
}

/// Mark `mines` distinct cells out of `total` in a fresh boolean layout,
/// each pick drawn uniformly among the cells still free, so that every index
/// in `0..total` is an eligible target. Drawing without replacement has the
/// same distribution as redrawing on collisions, but needs exactly `mines`
/// draws.
fn random_layout(total: usize, mines: usize) -> (layout: Vec<bool>)
    requires
        mines < total,
    ensures
        layout@.len() == total,
        count_true(layout@) == mines,
{
    let mut layout: Vec<bool> = Vec::new();
    let mut free: Vec<usize> = Vec::new();
    let mut k: usize = 0;
    while k < total
        invariant
            k <= total,
            layout@.len() == k,
            free@.len() == k,
            forall|i: int| 0 <= i < k ==> !(#[trigger] layout@[i]),
            forall|i: int| 0 <= i < k ==> (#[trigger] free@[i]) as int == i,
        decreases total - k,
    {
        layout.push(false);
        free.push(k);
        k += 1;
    }
    proof {
        lemma_count_true_zero(layout@);
        assert(free@.no_duplicates());
        assert forall|i: int| 0 <= i < total implies
            (!layout@[i] <==> free@.contains(i as usize)) by {
            assert(free@[i] == i as usize);
        }
    }
    let mut placed: usize = 0;
    while placed < mines
        invariant
            mines < total,
            placed <= mines,
            layout@.len() == total,
            count_true(layout@) == placed,
            free@.len() == total - placed,
            free@.no_duplicates(),
            forall|m: int| 0 <= m < free@.len() ==> (#[trigger] free@[m]) < total,
            forall|i: int| 0 <= i < total ==> (!(#[trigger] layout@[i]) <==> free@.contains(
                i as usize,
            )),
        decreases mines - placed,
    {
        let j = random_below(free.len());
        let idx = free[j];
        let ghost lay0 = layout@;
        let ghost free0 = free@;
        proof {
            assert(free0.contains(free0[j as int]));
            assert(!lay0[idx as int]);
            lemma_count_true_update(lay0, idx as int);
        }
        layout.set(idx, true);
        free.swap_remove(j);
        placed += 1;
        proof {
            let fnew = free@;
            let last = free0.len() - 1;
            assert(fnew =~= free0.update(j as int, free0[last]).drop_last());
            assert forall|m1: int, m2: int| 0 <= m1 < m2 < fnew.len() implies fnew[m1]
                != fnew[m2] by {
                assert(m2 != last);
            }
            assert(fnew.no_duplicates());
            assert forall|i: int| 0 <= i < total implies
                (!layout@[i] <==> fnew.contains(i as usize)) by {
                let v = i as usize;
                if i == idx as int {
                    assert(layout@[i]);
                    if fnew.contains(v) {
                        let m = choose|m: int| 0 <= m < fnew.len() && fnew[m] == v;
                        if m == j as int {
                            assert(free0[last] == v && free0[j as int] == v);
                            assert(j as int != last);
                            assert(false);
                        } else {
                            assert(free0[m] == v && free0[j as int] == v);
                            assert(false);
                        }
                    }
                } else {
                    assert(layout@[i] == lay0[i]);
                    if !lay0[i] {
                        assert(free0.contains(v));
                        let m = choose|m: int| 0 <= m < free0.len() && free0[m] == v;
                        assert(m != j as int);
                        if m == last {
                            assert(j as int != last);
                            assert(fnew[j as int] == v);
                        } else {
                            assert(fnew[m] == v);
                        }
                        assert(fnew.contains(v));
                    } else {
                        if fnew.contains(v) {
                            let m = choose|m: int| 0 <= m < fnew.len() && fnew[m] == v;
                            if m == j as int {
                                assert(free0[last] == v);
                            } else {
                                assert(free0[m] == v);
                            }
                            assert(free0.contains(v));
                            assert(false);
                        }
                    }
                }
            }
        }
    }
    layout
}

impl Board {
    /// Rebuild the whole board for the given dimensions and mine layout:
    /// one cell per layout entry, all `Undiscovered`, every `nearby` count
    /// computed from the completed mine placement.
    fn build_from_layout(
        &mut self,
        width: usize,
        height: usize,
        mine_count: usize,
        layout: &Vec<bool>,
    )
        requires
            0 < width,
            0 < height,
            layout@.len() == (width as int) * (height as int),
            count_true(layout@) == mine_count,
        ensures
            final(self).wf(),
            final(self).width == width,
            final(self).height == height,
            final(self).mines == mine_count,
            final(self).grid@.len() == layout@.len(),
            forall|i: int| 0 <= i < layout@.len() ==> {
                &&& (#[trigger] final(self).grid@[i]).mine == layout@[i]
                &&& final(self).grid@[i].interaction == Interaction::Undiscovered
            },
    {
        let ghost w = width as int;
        let ghost h = height as int;
        self.width = width;
        self.height = height;
        self.mines = mine_count;
        let total = layout.len();
        let mut grid: Vec<Cell> = Vec::new();
        let mut k: usize = 0;
        while k < total
            invariant
                k <= total,
                total == layout@.len(),
                grid@.len() == k,
                forall|i: int| 0 <= i < k ==> {
                    &&& (#[trigger] grid@[i]).mine == layout@[i]
                    &&& grid@[i].interaction == Interaction::Undiscovered
                },
            decreases total - k,
        {
            grid.push(Cell { mine: layout[k], interaction: Interaction::Undiscovered, nearby: 9 });
            k += 1;
        }
        self.grid = grid;
        let mut row: usize = 0;
        while row < height
            invariant
                w == width as int,
                h == height as int,
                row <= height,
                self.width == width,
                self.height == height,
                self.mines == mine_count,
                total == layout@.len(),
                layout@.len() == w * h,
                self.grid@.len() == layout@.len(),
                forall|i: int| 0 <= i < self.grid@.len() ==> {
                    &&& (#[trigger] self.grid@[i]).mine == layout@[i]
                    &&& self.grid@[i].interaction == Interaction::Undiscovered
                },
                forall|p: (int, int)|
                    in_grid(w, h, p) && pos_index(w, p) < (row as int) * w
                        ==> (#[trigger] cell_at(self.grid@, w, p)).nearby == nearby_mine_count(
                        self.grid@,
                        w,
                        h,
                        p.0,
                        p.1,
                    ),
            decreases height - row,
        {
            let mut col: usize = 0;
            while col < width
                invariant
                    w == width as int,
                    h == height as int,
                    row < height,
                    col <= width,
                    self.width == width,
                    self.height == height,
                    self.mines == mine_count,
                    total == layout@.len(),
                    layout@.len() == w * h,
                    self.grid@.len() == layout@.len(),
                    forall|i: int| 0 <= i < self.grid@.len() ==> {
                        &&& (#[trigger] self.grid@[i]).mine == layout@[i]
                        &&& self.grid@[i].interaction == Interaction::Undiscovered
                    },
                    forall|p: (int, int)|
                        in_grid(w, h, p) && pos_index(w, p) < (row as int) * w + col
                            ==> (#[trigger] cell_at(self.grid@, w, p)).nearby == nearby_mine_count(
                            self.grid@,
                            w,
                            h,
                            p.0,
                            p.1,
                        ),
                decreases width - col,
            {
                let n = self.count_adjacent_mines(col, row);
                proof {
                    lemma_pos_index_bounds(w, h, (col as int, row as int));
                }
                let i = row * width + col;
                let c = self.grid[i];
                let ghost gold = self.grid@;
                self.grid.set(i, Cell { mine: c.mine, interaction: c.interaction, nearby: n });
                proof {
                    let gnew = self.grid@;
                    assert forall|i2: int| 0 <= i2 < gnew.len() implies (#[trigger] gnew[i2]).mine
                        == gold[i2].mine by {}
                    assert forall|p: (int, int)|
                        in_grid(w, h, p) && pos_index(w, p) < (row as int) * w + col + 1 implies
                        (#[trigger] cell_at(gnew, w, p)).nearby == nearby_mine_count(
                            gnew, w, h, p.0, p.1,
                        ) by {
                        lemma_pos_index_bounds(w, h, p);
                        lemma_nearby_count_mine_eq(gold, gnew, w, h, p.0, p.1);
                        if pos_index(w, p) < (row as int) * w + col {
                            assert(cell_at(gnew, w, p) == cell_at(gold, w, p));
                        } else {
                            assert(pos_index(w, p) == i as int);
                            lemma_pos_index_injective(w, h, p, (col as int, row as int));
                            assert(cell_at(gnew, w, p).nearby == n);
                        }
                    }
                }
                col += 1;
            }
            row += 1;
            proof {
                assert((row as int) * w == (row as int - 1) * w + w) by (nonlinear_arith);
            }
        }
        proof {
            lemma_count_mines_matches_layout(self.grid@, layout@);
            assert forall|p: (int, int)| in_grid(w, h, p) implies
                (#[trigger] cell_at(self.grid@, w, p)).nearby == nearby_mine_count(
                    self.grid@, w, h, p.0, p.1,
                ) && !(cell_at(self.grid@, w, p).mine && cell_at(self.grid@, w, p).interaction
                    == Interaction::Opened) by {
                lemma_pos_index_bounds(w, h, p);
            }
        }
    }

    /// Generate the board: check the arguments, draw `mine_count` mines
    /// uniformly at random over the full index range `0..width*height`, then
    /// compute every cell's neighbor count from the finished placement.
    /// Generating an already populated board is a full reset: every prior
    /// cell state is discarded.
    pub fn populate(&mut self, width: usize, height: usize, mine_count: usize) -> (r: Result<
        (),
        BoardError,
    >)
        ensures
            r is Ok <==> 0 < width && 0 < height && (mine_count as int) < (width as int) * (
            height as int) && (width as int) * (height as int) <= usize::MAX,
            r is Err ==> same_state(*final(self), *old(self)) && r == Err::<(), BoardError>(
                BoardError::InvalidArgument,
            ),
            r is Ok ==> {
                &&& final(self).wf()
                &&& final(self).width == width
                &&& final(self).height == height
                &&& final(self).mines == mine_count
                &&& count_mines(final(self).grid@) == mine_count
                &&& forall|i: int| 0 <= i < final(self).grid@.len()
                    ==> (#[trigger] final(self).grid@[i]).interaction == Interaction::Undiscovered
            },
    {
        if width == 0 || height == 0 {
            return Err(BoardError::InvalidArgument);
        }
        let total = match width.checked_mul(height) {
            Some(t) => t,
            None => {
                return Err(BoardError::InvalidArgument);
            },
        };
        if mine_count >= total {
            return Err(BoardError::InvalidArgument);
        }
        let layout = random_layout(total, mine_count);
        self.build_from_layout(width, height, mine_count, &layout);
        Ok(())
    }

    /// Generate the board from an explicit mine layout (row-major, one flag
    /// per cell) instead of random placement: deterministic generation for
    /// callers that bring their own randomness, and for tests.
    pub fn populate_from_layout(&mut self, width: usize, height: usize, layout: &Vec<bool>) -> (r:
        Result<(), BoardError>)
        ensures
            r is Ok <==> 0 < width && 0 < height && layout@.len() == (width as int) * (
            height as int) && count_true(layout@) < layout@.len(),
            r is Err ==> same_state(*final(self), *old(self)) && r == Err::<(), BoardError>(
                BoardError::InvalidArgument,
            ),
            r is Ok ==> {
                &&& final(self).wf()
                &&& final(self).width == width
                &&& final(self).height == height
                &&& final(self).mines == count_true(layout@)
                &&& forall|i: int| 0 <= i < layout@.len() ==> {
                    &&& (#[trigger] final(self).grid@[i]).mine == layout@[i]
                    &&& final(self).grid@[i].interaction == Interaction::Undiscovered
                }
            },
    {
        if width == 0 || height == 0 {
            return Err(BoardError::InvalidArgument);
        }
        let total = match width.checked_mul(height) {
            Some(t) => t,
            None => {
                // the layout's length fits in usize, so it cannot match an
                // overflowing width * height product
                let _len = layout.len();
                return Err(BoardError::InvalidArgument);
            },
        };
        if layout.len() != total {
            return Err(BoardError::InvalidArgument);
        }
        let mine_count = count_true_exec(layout);
        if mine_count >= total {
            return Err(BoardError::InvalidArgument);
        }
        self.build_from_layout(width, height, mine_count, layout);
        Ok(())
    }

    /// Whether the cell at `(column, row)` is a mine; out-of-range
    /// coordinates are rejected, never clamped.
    pub fn is_mine(&self, column: usize, row: usize) -> (r: Result<bool, BoardError>)
        requires
            self.wf(),
        ensures
            r is Ok <==> column < self.width && row < self.height,
            r is Ok ==> r == Ok::<bool, BoardError>(
                cell_at(self.grid@, self.width as int, (column as int, row as int)).mine,
            ),
            r is Err ==> r == Err::<bool, BoardError>(BoardError::InvalidArgument),
    {
        if column < self.width && row < self.height {
            Ok(self.mine_at(column, row))
        } else {
            Err(BoardError::InvalidArgument)
        }
    }
}

/// `p` is one of the coordinate pairs held in the worklist `s`.
pub open spec fn in_stack(s: Seq<(usize, usize)>, p: (int, int)) -> bool {
    exists|m: int| 0 <= m < s.len() && ((#[trigger] s[m]).0 as int, s[m].1 as int) == p
}

/// An entry of a worklist still sits at its index after a push.
proof fn lemma_in_stack_extend(s: Seq<(usize, usize)>, t: Seq<(usize, usize)>, p: (int, int))
    requires
        in_stack(s, p),
        s.len() <= t.len(),
        forall|m: int| 0 <= m < s.len() ==> #[trigger] t[m] == s[m],
    ensures
        in_stack(t, p),
{
    let m = choose|m: int| 0 <= m < s.len() && ((#[trigger] s[m]).0 as int, s[m].1 as int) == p;
    assert(t[m] == s[m]);
}

impl Board {
    /// Reveal the cell at `(column, row)`. Out-of-range coordinates are
    /// rejected. A mine target leaves the board completely untouched and
    /// reports `HitMine` for the caller to handle. An already opened target
    /// is a no-op. Otherwise exactly the connected region of the target —
    /// the cells joined to it by 4-directional steps through not-yet-opened
    /// non-mine cells, flagged ones included — becomes `Opened`, and nothing
    /// else about the board changes.
    #[verifier::rlimit(50)]
    pub fn reveal_cell(&mut self, column: usize, row: usize) -> (r: Result<RevealOutcome, BoardError>)
        requires
            old(self).wf(),
        ensures
            final(self).wf(),
            final(self).width == old(self).width,
            final(self).height == old(self).height,
            final(self).mines == old(self).mines,
            final(self).grid@.len() == old(self).grid@.len(),
            r is Ok <==> column < old(self).width && row < old(self).height,
            r is Err ==> same_state(*final(self), *old(self)) && r == Err::<
                RevealOutcome,
                BoardError,
            >(BoardError::InvalidArgument),
            column < old(self).width && row < old(self).height && cell_at(
                old(self).grid@,
                old(self).width as int,
                (column as int, row as int),
            ).mine ==> r == Ok::<RevealOutcome, BoardError>(RevealOutcome::HitMine) && same_state(
                *final(self),
                *old(self),
            ),
            column < old(self).width && row < old(self).height && cell_at(
                old(self).grid@,
                old(self).width as int,
                (column as int, row as int),
            ).interaction == Interaction::Opened ==> same_state(*final(self), *old(self)),
            column < old(self).width && row < old(self).height && !cell_at(
                old(self).grid@,
                old(self).width as int,
                (column as int, row as int),
            ).mine ==> {
                &&& r == Ok::<RevealOutcome, BoardError>(RevealOutcome::Revealed)
                &&& forall|p: (int, int)|
                    in_grid(old(self).width as int, old(self).height as int, p) ==> (
                    #[trigger] cell_at(final(self).grid@, old(self).width as int, p)).interaction
                        == if reaches(
                        old(self).grid@,
                        old(self).width as int,
                        old(self).height as int,
                        (column as int, row as int),
                        p,
                    ) {
                        Interaction::Opened
                    } else {
                        cell_at(old(self).grid@, old(self).width as int, p).interaction
                    }
                &&& forall|i: int|
                    0 <= i < old(self).grid@.len() ==> (#[trigger] final(self).grid@[i]).mine
                        == old(self).grid@[i].mine && final(self).grid@[i].nearby
                        == old(self).grid@[i].nearby
            },
    {
        if !(column < self.width && row < self.height) {
            return Err(BoardError::InvalidArgument);
        }
        let ghost w = self.width as int;
        let ghost h = self.height as int;
        let ghost g0 = self.grid@;
        let ghost start = (column as int, row as int);
        proof {
            lemma_pos_index_bounds(w, h, start);
        }
        // binding the length as an executable value teaches the prover that
        // the cell count fits in usize, which bounds the index arithmetic
        let _len = self.grid.len();
        let i0 = row * self.width + column;
        let target = self.grid[i0];
        if target.mine {
            return Ok(RevealOutcome::HitMine);
        }
        if target.interaction == Interaction::Opened {
            proof {
                assert forall|p: (int, int)| !reaches(g0, w, h, start, p) by {
                    if reaches(g0, w, h, start, p) {
                        lemma_reaches_eligible(g0, w, h, start, p);
                    }
                }
            }
            return Ok(RevealOutcome::Revealed);
        }
        proof {
            lemma_reaches_self(g0, w, h, start);
        }
        let mut stack: Vec<(usize, usize)> = Vec::new();
        stack.push((column, row));
        proof {
            assert(stack@[0] == (column, row));
            assert(in_stack(stack@, start));
        }
        while stack.len() > 0
            invariant
                self.width == old(self).width,
                self.height == old(self).height,
                self.mines == old(self).mines,
                w == self.width as int,
                h == self.height as int,
                g0 == old(self).grid@,
                g0.len() == w * h,
                g0.len() <= usize::MAX,
                self.grid@.len() == g0.len(),
                column < self.width,
                row < self.height,
                start == (column as int, row as int),
                eligible(g0, w, h, start),
                forall|i: int|
                    0 <= i < g0.len() ==> (#[trigger] self.grid@[i]).mine == g0[i].mine
                        && self.grid@[i].nearby == g0[i].nearby,
                forall|i: int|
                    0 <= i < g0.len() ==> (#[trigger] self.grid@[i]).interaction
                        == g0[i].interaction || self.grid@[i].interaction == Interaction::Opened,
                forall|i: int|
                    0 <= i < g0.len() && g0[i].interaction == Interaction::Opened ==> (
                    #[trigger] self.grid@[i]).interaction == Interaction::Opened,
                forall|m: int|
                    0 <= m < stack@.len() ==> in_grid(
                        w,
                        h,
                        ((#[trigger] stack@[m]).0 as int, stack@[m].1 as int),
                    ),
                forall|m: int|
                    0 <= m < stack@.len() && eligible(
                        g0,
                        w,
                        h,
                        ((#[trigger] stack@[m]).0 as int, stack@[m].1 as int),
                    ) ==> reaches(g0, w, h, start, (stack@[m].0 as int, stack@[m].1 as int)),
                forall|p: (int, int)|
                    in_grid(w, h, p) && (#[trigger] cell_at(self.grid@, w, p)).interaction
                        == Interaction::Opened && cell_at(g0, w, p).interaction
                        != Interaction::Opened ==> reaches(g0, w, h, start, p),
                forall|a: (int, int), b: (int, int)|
                    in_grid(w, h, a) && (#[trigger] cell_at(self.grid@, w, a)).interaction
                        == Interaction::Opened && cell_at(g0, w, a).interaction
                        != Interaction::Opened && #[trigger] adj4(a, b) && eligible(g0, w, h, b)
                        ==> cell_at(self.grid@, w, b).interaction == Interaction::Opened
                        || in_stack(stack@, b),
                cell_at(self.grid@, w, start).interaction == Interaction::Opened || in_stack(
                    stack@,
                    start,
                ),
            decreases count_unopened(self.grid@), stack@.len(),
        {
            let ghost stack0 = stack@;
            let ghost gcur = self.grid@;
            let top = stack.pop().unwrap();
            let (c, r) = top;
            let ghost toppos = (c as int, r as int);
            proof {
                assert(stack0[stack0.len() - 1] == top);
                assert(in_grid(w, h, toppos));
                lemma_pos_index_bounds(w, h, toppos);
            }
            let i = r * self.width + c;
            let cur = self.grid[i];
            if cur.mine {
                proof {
                    assert(!eligible(g0, w, h, toppos));
                    assert forall|a: (int, int), b: (int, int)|
                        in_grid(w, h, a) && (#[trigger] cell_at(self.grid@, w, a)).interaction
                            == Interaction::Opened && cell_at(g0, w, a).interaction
                            != Interaction::Opened && #[trigger] adj4(a, b) && eligible(
                            g0,
                            w,
                            h,
                            b,
                        ) && !(cell_at(self.grid@, w, b).interaction == Interaction::Opened)
                        implies in_stack(stack@, b) by {
                        let m = choose|m: int|
                            0 <= m < stack0.len() && ((#[trigger] stack0[m]).0 as int,
                            stack0[m].1 as int) == b;
                        assert(b != toppos);
                        assert(m < stack0.len() - 1);
                        assert(stack@[m] == stack0[m]);
                    }
                    assert(start != toppos);
                    if !(cell_at(self.grid@, w, start).interaction == Interaction::Opened) {
                        let m = choose|m: int|
                            0 <= m < stack0.len() && ((#[trigger] stack0[m]).0 as int,
                            stack0[m].1 as int) == start;
                        assert(m < stack0.len() - 1);
                        assert(stack@[m] == stack0[m]);
                        assert(in_stack(stack@, start));
                    }
                }
            } else if cur.interaction == Interaction::Opened {
                proof {
                    assert forall|a: (int, int), b: (int, int)|
                        in_grid(w, h, a) && (#[trigger] cell_at(self.grid@, w, a)).interaction
                            == Interaction::Opened && cell_at(g0, w, a).interaction
                            != Interaction::Opened && #[trigger] adj4(a, b) && eligible(
                            g0,
                            w,
                            h,
                            b,
                        ) && !(cell_at(self.grid@, w, b).interaction == Interaction::Opened)
                        implies in_stack(stack@, b) by {
                        let m = choose|m: int|
                            0 <= m < stack0.len() && ((#[trigger] stack0[m]).0 as int,
                            stack0[m].1 as int) == b;
                        assert(cell_at(self.grid@, w, toppos).interaction == Interaction::Opened);
                        assert(b != toppos);
                        assert(m < stack0.len() - 1);
                        assert(stack@[m] == stack0[m]);
                    }
                    if !(cell_at(self.grid@, w, start).interaction == Interaction::Opened) {
                        let m = choose|m: int|
                            0 <= m < stack0.len() && ((#[trigger] stack0[m]).0 as int,
                            stack0[m].1 as int) == start;
                        assert(start != toppos);
                        assert(m < stack0.len() - 1);
                        assert(stack@[m] == stack0[m]);
                        assert(in_stack(stack@, start));
                    }
                }
            } else {
                proof {
                    assert(cell_at(gcur, w, toppos) == cur);
                    assert(cell_at(g0, w, toppos).interaction != Interaction::Opened);
                    assert(eligible(g0, w, h, toppos));
                    assert(reaches(g0, w, h, start, toppos));
                    lemma_count_unopened_open(
                        gcur,
                        i as int,
                        Cell { mine: cur.mine, interaction: Interaction::Opened, nearby: cur.nearby },
                    );
                }
                self.grid.set(
                    i,
                    Cell { mine: cur.mine, interaction: Interaction::Opened, nearby: cur.nearby },
                );
                let ghost base = stack@;
                if c > 0 {
                    stack.push((c - 1, r));
                }
                let ghost s1 = stack@;
                if c + 1 < self.width {
                    stack.push((c + 1, r));
                }
                let ghost s2 = stack@;
                if r > 0 {
                    stack.push((c, r - 1));
                }
                let ghost s3 = stack@;
                if r + 1 < self.height {
                    stack.push((c, r + 1));
                }
                proof {
                    let f = stack@;
                    let gnew = self.grid@;
                    assert(cell_at(gnew, w, toppos).interaction == Interaction::Opened);
                    assert forall|p: (int, int)|
                        in_grid(w, h, p) && p != toppos implies #[trigger] cell_at(gnew, w, p)
                        == cell_at(gcur, w, p) by {
                        lemma_pos_index_bounds(w, h, p);
                        if pos_index(w, p) == pos_index(w, toppos) {
                            lemma_pos_index_injective(w, h, p, toppos);
                        }
                    }
                    // every in-grid 4-neighbor of the opened cell is now queued
                    assert(forall|m: int| 0 <= m < base.len() ==> #[trigger] f[m] == base[m]);
                    assert(forall|m: int| 0 <= m < s1.len() ==> #[trigger] f[m] == s1[m]);
                    assert(forall|m: int| 0 <= m < s2.len() ==> #[trigger] f[m] == s2[m]);
                    assert(forall|m: int| 0 <= m < s3.len() ==> #[trigger] f[m] == s3[m]);
                    assert forall|b: (int, int)| adj4(toppos, b) && in_grid(w, h, b) implies
                        in_stack(f, b) by {
                        if b == ((c as int) - 1, r as int) {
                            assert(s1[base.len() as int] == (((c - 1) as usize), r));
                            assert(in_stack(s1, b));
                            lemma_in_stack_extend(s1, f, b);
                        } else if b == ((c as int) + 1, r as int) {
                            assert(s2[s1.len() as int] == (((c + 1) as usize), r));
                            assert(in_stack(s2, b));
                            lemma_in_stack_extend(s2, f, b);
                        } else if b == (c as int, (r as int) - 1) {
                            assert(s3[s2.len() as int] == (c, ((r - 1) as usize)));
                            assert(in_stack(s3, b));
                            lemma_in_stack_extend(s3, f, b);
                        } else {
                            assert(b == (c as int, (r as int) + 1));
                            assert(f[s3.len() as int] == (c, ((r + 1) as usize)));
                            assert(in_stack(f, b));
                        }
                    }
                    // old queue entries other than the popped one are still queued
                    assert forall|b: (int, int)| in_stack(stack0, b) && b != toppos implies
                        in_stack(f, b) by {
                        let m = choose|m: int|
                            0 <= m < stack0.len() && ((#[trigger] stack0[m]).0 as int,
                            stack0[m].1 as int) == b;
                        assert(m < stack0.len() - 1);
                        assert(base[m] == stack0[m]);
                        assert(in_stack(base, b));
                        lemma_in_stack_extend(base, f, b);
                    }
                    // queue soundness for the fresh entries
                    assert forall|m: int|
                        0 <= m < f.len() && eligible(
                            g0,
                            w,
                            h,
                            ((#[trigger] f[m]).0 as int, f[m].1 as int),
                        ) implies reaches(g0, w, h, start, (f[m].0 as int, f[m].1 as int)) by {
                        let b = ((f[m].0 as int, f[m].1 as int));
                        if m < stack0.len() - 1 {
                            assert(stack0[m] == f[m]);
                            assert(in_stack(stack0, b));
                        } else {
                            assert(adj4(toppos, b));
                            lemma_reaches_step(g0, w, h, start, toppos, b);
                        }
                    }
                    // the frontier invariant, for old cells and the new one
                    assert forall|a: (int, int), b: (int, int)|
                        in_grid(w, h, a) && (#[trigger] cell_at(gnew, w, a)).interaction
                            == Interaction::Opened && cell_at(g0, w, a).interaction
                            != Interaction::Opened && #[trigger] adj4(a, b) && eligible(
                            g0,
                            w,
                            h,
                            b,
                        ) && !(cell_at(gnew, w, b).interaction == Interaction::Opened) implies
                        in_stack(f, b) by {
                        if a == toppos {
                            assert(in_stack(f, b));
                        } else {
                            assert(cell_at(gcur, w, a).interaction == Interaction::Opened);
                            assert(cell_at(gcur, w, b).interaction != Interaction::Opened);
                            assert(in_stack(stack0, b));
                            assert(b != toppos);
                        }
                    }
                }
            }
        }
        proof {
            let gfin = self.grid@;
            // completeness: everything reachable is opened
            assert forall|p: (int, int)| reaches(g0, w, h, start, p) implies cell_at(
                gfin,
                w,
                p,
            ).interaction == Interaction::Opened by {
                lemma_reaches_eligible(g0, w, h, start, p);
                let path = choose|path: Seq<(int, int)>|
                    is_cascade_path(g0, w, h, path) && path.first() == start && path.last() == p;
                assert(cell_at(gfin, w, start).interaction == Interaction::Opened);
                assert forall|a: (int, int), b: (int, int)|
                    eligible(g0, w, h, a) && eligible(g0, w, h, b) && adj4(a, b) && #[trigger]
                    cell_at(gfin, w, a).interaction == Interaction::Opened implies #[trigger]
                    cell_at(gfin, w, b).interaction == Interaction::Opened by {
                    assert(cell_at(g0, w, a).interaction != Interaction::Opened);
                    if cell_at(gfin, w, b).interaction != Interaction::Opened {
                        assert(in_stack(stack@, b));
                        let m = choose|m: int|
                            0 <= m < stack@.len() && ((#[trigger] stack@[m]).0 as int,
                            stack@[m].1 as int) == b;
                        assert(false);
                    }
                }
                lemma_cascade_path_opened(g0, gfin, w, h, path);
            }
            // soundness direction gives the exact per-cell description
            assert forall|p: (int, int)| in_grid(w, h, p) implies (#[trigger] cell_at(
                gfin,
                w,
                p,
            )).interaction == if reaches(g0, w, h, start, p) {
                Interaction::Opened
            } else {
                cell_at(g0, w, p).interaction
            } by {
                lemma_pos_index_bounds(w, h, p);
                if !reaches(g0, w, h, start, p) {
                    if cell_at(gfin, w, p).interaction != cell_at(g0, w, p).interaction {
                        assert(cell_at(gfin, w, p).interaction == Interaction::Opened);
                        assert(cell_at(g0, w, p).interaction != Interaction::Opened);
                        assert(reaches(g0, w, h, start, p));
                    }
                }
            }
            // the invariant is preserved: counts are untouched, mines stay shut
            lemma_count_mines_pointwise(g0, gfin);
            assert forall|p: (int, int)| in_grid(w, h, p) implies (#[trigger] cell_at(
                gfin,
                w,
                p,
            )).nearby == nearby_mine_count(gfin, w, h, p.0, p.1) && (cell_at(gfin, w, p).mine
                ==> cell_at(gfin, w, p).interaction != Interaction::Opened) by {
                lemma_pos_index_bounds(w, h, p);
                lemma_nearby_count_mine_eq(g0, gfin, w, h, p.0, p.1);
                if cell_at(gfin, w, p).mine && cell_at(gfin, w, p).interaction
                    == Interaction::Opened {
                    assert(cell_at(g0, w, p).interaction != Interaction::Opened);
                    assert(reaches(g0, w, h, start, p));
                    lemma_reaches_eligible(g0, w, h, start, p);
                }
            }
        }
        Ok(RevealOutcome::Revealed)
    }
}

/// The glyph sequence of the first `cols` cells of a row of the dump.
pub open spec fn row_glyphs(g: Seq<Cell>, width: int, row: int, cols: int) -> Seq<char>
    decreases cols,
{
    if cols <= 0 {
        Seq::empty()
    } else {
        row_glyphs(g, width, row, cols - 1).push(glyph(cell_at(g, width, (cols - 1, row))))
    }
}

/// The text dump of the first `rows` rows of a grid: each row's glyphs
/// followed by a newline, row-major.
pub open spec fn grid_text(g: Seq<Cell>, width: int, rows: int) -> Seq<char>
    decreases rows,
{
    if rows <= 0 {
        Seq::empty()
    } else {
        grid_text(g, width, rows - 1) + row_glyphs(g, width, rows - 1, width).push('\n')
    }
}

impl Board {
    /// Toggle a flag at `(column, row)`: `Undiscovered` and `Flagged` swap,
    /// an `Opened` cell is unaffected, and no other cell changes.
    /// Out-of-range coordinates are rejected.
    pub fn toggle_flag(&mut self, column: usize, row: usize) -> (r: Result<(), BoardError>)
        requires
            old(self).wf(),
        ensures
            final(self).wf(),
            final(self).width == old(self).width,
            final(self).height == old(self).height,
            final(self).mines == old(self).mines,
            final(self).grid@.len() == old(self).grid@.len(),
            r is Ok <==> column < old(self).width && row < old(self).height,
            r is Err ==> same_state(*final(self), *old(self)) && r == Err::<(), BoardError>(
                BoardError::InvalidArgument,
            ),
            r is Ok ==> {
                let w = old(self).width as int;
                let start = (column as int, row as int);
                &&& cell_at(final(self).grid@, w, start).interaction == spec_toggle(
                    cell_at(old(self).grid@, w, start).interaction,
                )
                &&& cell_at(final(self).grid@, w, start).mine == cell_at(
                    old(self).grid@,
                    w,
                    start,
                ).mine
                &&& cell_at(final(self).grid@, w, start).nearby == cell_at(
                    old(self).grid@,
                    w,
                    start,
                ).nearby
                &&& forall|i: int|
                    0 <= i < old(self).grid@.len() && i != pos_index(w, start) ==> #[trigger]
                    final(self).grid@[i] == old(self).grid@[i]
            },
    {
        if !(column < self.width && row < self.height) {
            return Err(BoardError::InvalidArgument);
        }
        let ghost w = self.width as int;
        let ghost h = self.height as int;
        let ghost g0 = self.grid@;
        let ghost start = (column as int, row as int);
        proof {
            lemma_pos_index_bounds(w, h, start);
        }
        // binding the length as an executable value teaches the prover that
        // the cell count fits in usize, which bounds the index arithmetic
        let _len = self.grid.len();
        let i = row * self.width + column;
        let c = self.grid[i];
        let toggled = match c.interaction {
            Interaction::Undiscovered => Interaction::Flagged,
            Interaction::Flagged => Interaction::Undiscovered,
            Interaction::Opened => Interaction::Opened,
        };
        self.grid.set(i, Cell { mine: c.mine, interaction: toggled, nearby: c.nearby });
        proof {
            let gnew = self.grid@;
            lemma_count_mines_pointwise(g0, gnew);
            assert forall|p: (int, int)| in_grid(w, h, p) implies (#[trigger] cell_at(
                gnew,
                w,
                p,
            )).nearby == nearby_mine_count(gnew, w, h, p.0, p.1) && (cell_at(gnew, w, p).mine
                ==> cell_at(gnew, w, p).interaction != Interaction::Opened) by {
                lemma_pos_index_bounds(w, h, p);
                lemma_nearby_count_mine_eq(g0, gnew, w, h, p.0, p.1);
                if pos_index(w, p) == i as int {
                    lemma_pos_index_injective(w, h, p, start);
                }
            }
        }
        Ok(())
    }

    /// Enumerate the in-grid 8-neighbors of `(column, row)`, used for mine
    /// counting: every valid neighbor exactly once and nothing else.
    /// Out-of-range coordinates are rejected.
    pub fn get_nearby_cells(&self, column: usize, row: usize) -> (r: Result<
        Vec<(usize, usize)>,
        BoardError,
    >)
        ensures
            r is Ok <==> column < self.width && row < self.height,
            r is Err ==> r == Err::<Vec<(usize, usize)>, BoardError>(BoardError::InvalidArgument),
            r matches Ok(v) ==> v@.no_duplicates() && forall|q: (usize, usize)|
                #[trigger] v@.contains(q) <==> is_nearby(
                    self.width as int,
                    self.height as int,
                    column as int,
                    row as int,
                    (q.0 as int, q.1 as int),
                ),
    {
        broadcast use vstd::seq_lib::lemma_seq_contains_after_push;

        if !(column < self.width && row < self.height) {
            return Err(BoardError::InvalidArgument);
        }
        let mut v: Vec<(usize, usize)> = Vec::new();
        if column > 0 {
            v.push((column - 1, row));
            if row > 0 {
                v.push((column - 1, row - 1));
            }
            if row + 1 < self.height {
                v.push((column - 1, row + 1));
            }
        }
        if row > 0 {
            v.push((column, row - 1));
        }
        if row + 1 < self.height {
            v.push((column, row + 1));
        }
        if column + 1 < self.width {
            v.push((column + 1, row));
            if row > 0 {
                v.push((column + 1, row - 1));
            }
            if row + 1 < self.height {
                v.push((column + 1, row + 1));
            }
        }
        proof {
            assert(v@.no_duplicates());
            assert forall|q: (usize, usize)| #[trigger] v@.contains(q) <==> is_nearby(
                self.width as int,
                self.height as int,
                column as int,
                row as int,
                (q.0 as int, q.1 as int),
            ) by {
                let qi = (q.0 as int, q.1 as int);
                if is_nearby(self.width as int, self.height as int, column as int, row as int, qi) {
                    assert(v@.contains(q));
                }
            }
        }
        Ok(v)
    }

    /// Enumerate the in-grid 4-neighbors of `(column, row)`, used by the
    /// reveal cascade: every valid neighbor exactly once and nothing else.
    /// Out-of-range coordinates are rejected.
    pub fn get_adjacent_cells(&self, column: usize, row: usize) -> (r: Result<
        Vec<(usize, usize)>,
        BoardError,
    >)
        ensures
            r is Ok <==> column < self.width && row < self.height,
            r is Err ==> r == Err::<Vec<(usize, usize)>, BoardError>(BoardError::InvalidArgument),
            r matches Ok(v) ==> v@.no_duplicates() && forall|q: (usize, usize)|
                #[trigger] v@.contains(q) <==> is_adjacent(
                    self.width as int,
                    self.height as int,
                    column as int,
                    row as int,
                    (q.0 as int, q.1 as int),
                ),
    {
        broadcast use vstd::seq_lib::lemma_seq_contains_after_push;

        if !(column < self.width && row < self.height) {
            return Err(BoardError::InvalidArgument);
        }
        let mut v: Vec<(usize, usize)> = Vec::new();
        if column > 0 {
            v.push((column - 1, row));
        }
        if row > 0 {
            v.push((column, row - 1));
        }
        if row + 1 < self.height {
            v.push((column, row + 1));
        }
        if column + 1 < self.width {
            v.push((column + 1, row));
        }
        proof {
            assert(v@.no_duplicates());
            assert forall|q: (usize, usize)| #[trigger] v@.contains(q) <==> is_adjacent(
                self.width as int,
                self.height as int,
                column as int,
                row as int,
                (q.0 as int, q.1 as int),
            ) by {
                let qi = (q.0 as int, q.1 as int);
                if is_adjacent(self.width as int, self.height as int, column as int, row as int, qi) {
                    assert(v@.contains(q));
                }
            }
        }
        Ok(v)
    }

    /// Diagnostic text dump of the whole grid, row-major: one glyph per cell
    /// (`X` mine, `!` flag, blank opened, neighbor-count digit otherwise)
    /// and a newline after each row.
    pub fn dump(&self) -> (r: String)
        requires
            self.wf(),
        ensures
            r@ == grid_text(self.grid@, self.width as int, self.height as int),
    {
        let ghost w = self.width as int;
        let ghost h = self.height as int;
        let ghost g = self.grid@;
        // binding the length as an executable value teaches the prover that
        // the cell count fits in usize, which bounds the index arithmetic
        let _len = self.grid.len();
        let mut out = String::new();
        let mut row: usize = 0;
        while row < self.height
            invariant
                w == self.width as int,
                h == self.height as int,
                g == self.grid@,
                g.len() == w * h,
                g.len() <= usize::MAX,
                row <= self.height,
                out@ == grid_text(g, w, row as int),
            decreases self.height - row,
        {
            let mut col: usize = 0;
            while col < self.width
                invariant
                    w == self.width as int,
                    h == self.height as int,
                    g == self.grid@,
                    g.len() == w * h,
                    g.len() <= usize::MAX,
                    row < self.height,
                    col <= self.width,
                    out@ == grid_text(g, w, row as int) + row_glyphs(g, w, row as int, col as int),
                decreases self.width - col,
            {
                proof {
                    lemma_pos_index_bounds(w, h, (col as int, row as int));
                }
                let c = self.grid[row * self.width + col];
                let piece = c.glyph_str();
                out.append(piece);
                proof {
                    assert(out@ =~= grid_text(g, w, row as int) + row_glyphs(
                        g,
                        w,
                        row as int,
                        col as int + 1,
                    ));
                }
                col += 1;
            }
            out.append("\n");
            proof {
                reveal_strlit("\n");
                assert("\n"@ =~= seq!['\n']);
                assert(out@ =~= grid_text(g, w, row as int + 1));
            }
            row += 1;
        }
        out
    }
}

/// Count the `true` entries of a layout.
fn count_true_exec(layout: &Vec<bool>) -> (n: usize)
    ensures
        n as int == count_true(layout@),
{
    let total = layout.len();
    let mut n: usize = 0;
    let mut k: usize = 0;
    while k < total
        invariant
            k <= total,
            total == layout@.len(),
            n <= k,
            n as int == count_true(layout@.take(k as int)),
        decreases total - k,
    {
        let ghost prefix = layout@.take(k as int);
        if layout[k] {
            n += 1;
        }
        proof {
            let ext = layout@.take(k as int + 1);
            assert(ext.drop_last() =~= prefix);
            assert(ext.last() == layout@[k as int]);
        }
        k += 1;
    }
    proof {
        assert(layout@.take(total as int) =~= layout@);
    }
    n
}

} // verus!
