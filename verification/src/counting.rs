//! Counting specifications: how many entries of a layout are set, how many
//! cells of a grid are mines, and the brute-force count of mines among the
//! 8 neighbors of a position.

use vstd::prelude::*;

use crate::cell::Cell;
use crate::grid::cell_at;
use crate::grid::in_grid;
use crate::grid::nearby_mine_count;
use crate::grid::mine_flag;
use crate::grid::lemma_pos_index_bounds;

verus! {

/// Number of `true` entries in a boolean sequence.
pub open spec fn count_true(s: Seq<bool>) -> int
    decreases s.len(),
{
    if s.len() == 0 {
        0
    } else {
        count_true(s.drop_last()) + if s.last() {
            1int
        } else {
            0int
        }
    }
}

/// Number of mine cells in a grid.
pub open spec fn count_mines(g: Seq<Cell>) -> int
    decreases g.len(),
{
    if g.len() == 0 {
        0
    } else {
        count_mines(g.drop_last()) + if g.last().mine {
            1int
        } else {
            0int
        }
    }
}

/// A sequence without a `true` entry counts zero.
pub proof fn lemma_count_true_zero(s: Seq<bool>)
    requires
        forall|i: int| 0 <= i < s.len() ==> !s[i],
    ensures
        count_true(s) == 0,
    decreases s.len(),
{
    if s.len() > 0 {
        lemma_count_true_zero(s.drop_last());
    }
}

/// Setting a `false` entry to `true` raises the count by exactly one.
pub proof fn lemma_count_true_update(s: Seq<bool>, i: int)
    requires
        0 <= i < s.len(),
        !s[i],
    ensures
        count_true(s.update(i, true)) == count_true(s) + 1,
    decreases s.len(),
{
    let t = s.update(i, true);
    if i == s.len() - 1 {
        assert(t.drop_last() =~= s.drop_last());
    } else {
        assert(t.drop_last() =~= s.drop_last().update(i, true));
        lemma_count_true_update(s.drop_last(), i);
    }
}

/// A grid whose mine flags match a boolean layout pointwise has exactly as
/// many mines as the layout has `true` entries.
pub proof fn lemma_count_mines_matches_layout(g: Seq<Cell>, lay: Seq<bool>)
    requires
        g.len() == lay.len(),
        forall|i: int| 0 <= i < g.len() ==> (#[trigger] g[i]).mine == lay[i],
    ensures
        count_mines(g) == count_true(lay),
    decreases g.len(),
{
    if g.len() > 0 {
        lemma_count_mines_matches_layout(g.drop_last(), lay.drop_last());
    }
}

/// Two grids with pointwise-equal mine flags hold the same number of mines.
pub proof fn lemma_count_mines_pointwise(g1: Seq<Cell>, g2: Seq<Cell>)
    requires
        g1.len() == g2.len(),
        forall|i: int| 0 <= i < g1.len() ==> (#[trigger] g1[i]).mine == (#[trigger] g2[i]).mine,
    ensures
        count_mines(g1) == count_mines(g2),
    decreases g1.len(),
{
    if g1.len() > 0 {
        lemma_count_mines_pointwise(g1.drop_last(), g2.drop_last());
    }
}

/// Number of cells not yet opened: the termination measure of the reveal
/// cascade, which opens one such cell per round of work.
pub open spec fn count_unopened(g: Seq<Cell>) -> nat
    decreases g.len(),
{
    if g.len() == 0 {
        0
    } else {
        count_unopened(g.drop_last()) + if g.last().interaction != crate::cell::Interaction::Opened {
            1nat
        } else {
            0nat
        }
    }
}

/// Opening a cell that was not yet opened lowers the unopened count by one.
pub proof fn lemma_count_unopened_open(g: Seq<Cell>, i: int, c: Cell)
    requires
        0 <= i < g.len(),
        g[i].interaction != crate::cell::Interaction::Opened,
        c.interaction == crate::cell::Interaction::Opened,
    ensures
        count_unopened(g) == count_unopened(g.update(i, c)) + 1,
    decreases g.len(),
{
    let t = g.update(i, c);
    if i == g.len() - 1 {
        assert(t.drop_last() =~= g.drop_last());
    } else {
        assert(t.drop_last() =~= g.drop_last().update(i, c));
        lemma_count_unopened_open(g.drop_last(), i, c);
    }
}

/// The neighbor-mine count reads only mine flags, so grids that agree on
/// every mine flag agree on it.
pub proof fn lemma_nearby_count_mine_eq(
    g1: Seq<Cell>, g2: Seq<Cell>, width: int, height: int, col: int, row: int,
)
    requires
        g1.len() == width * height,
        g2.len() == g1.len(),
        forall|i: int| 0 <= i < g1.len() ==> (#[trigger] g1[i]).mine == (#[trigger] g2[i]).mine,
    ensures
        nearby_mine_count(g1, width, height, col, row)
            == nearby_mine_count(g2, width, height, col, row),
{
    assert forall|p: (int, int)|
        #[trigger] mine_flag(g1, width, height, p) == mine_flag(g2, width, height, p) by {
        if in_grid(width, height, p) {
            lemma_pos_index_bounds(width, height, p);
            assert(cell_at(g1, width, p).mine == cell_at(g2, width, p).mine);
        }
    }
}

} // verus!
