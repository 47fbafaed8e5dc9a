//! Grid geometry: positions, the 8-directional neighborhood used for mine
//! counting, the 4-directional neighborhood used by the reveal cascade, and
//! 4-directional reachability through cells a reveal may open.

use vstd::prelude::*;

use crate::cell::Cell;
use crate::cell::Interaction;

verus! {

/// A position is a `(column, row)` pair; it lies in a `width x height` grid
/// when both coordinates are in range.
pub open spec fn in_grid(width: int, height: int, p: (int, int)) -> bool {
    0 <= p.0 < width && 0 <= p.1 < height
}

/// Row-major index of a position: `row * width + column`.
pub open spec fn pos_index(width: int, p: (int, int)) -> int {
    p.1 * width + p.0
}

/// The cell stored at a position.
pub open spec fn cell_at(g: Seq<Cell>, width: int, p: (int, int)) -> Cell {
    g[pos_index(width, p)]
}

/// 8-directional neighborhood: distinct positions whose columns and rows
/// each differ by at most one. This is the relation mine counts are over.
pub open spec fn adj8(a: (int, int), b: (int, int)) -> bool {
    a != b && -1 <= a.0 - b.0 <= 1 && -1 <= a.1 - b.1 <= 1
}

/// 4-directional neighborhood: one step along exactly one axis. This is the
/// relation the reveal cascade propagates over.
pub open spec fn adj4(a: (int, int), b: (int, int)) -> bool {
    ||| a.0 == b.0 && (a.1 == b.1 + 1 || a.1 + 1 == b.1)
    ||| a.1 == b.1 && (a.0 == b.0 + 1 || a.0 + 1 == b.0)
}

/// Membership in the nearby enumeration: `q` is an in-grid 8-neighbor of
/// `(col, row)`.
pub open spec fn is_nearby(width: int, height: int, col: int, row: int, q: (int, int)) -> bool {
    in_grid(width, height, q) && adj8((col, row), q)
}

/// Membership in the adjacent enumeration: `q` is an in-grid 4-neighbor of
/// `(col, row)`.
pub open spec fn is_adjacent(width: int, height: int, col: int, row: int, q: (int, int)) -> bool {
    in_grid(width, height, q) && adj4((col, row), q)
}

/// A position inside the grid indexes inside the cell sequence.
pub proof fn lemma_pos_index_bounds(width: int, height: int, p: (int, int))
    requires
        in_grid(width, height, p),
    ensures
        0 <= pos_index(width, p) < width * height,
{
    assert(0 <= p.1 * width + p.0 < width * height) by (nonlinear_arith)
        requires
            0 <= p.0 < width,
            0 <= p.1 < height,
    ;
}

/// Distinct in-grid positions have distinct row-major indices.
pub proof fn lemma_pos_index_injective(width: int, height: int, a: (int, int), b: (int, int))
    requires
        in_grid(width, height, a),
        in_grid(width, height, b),
        pos_index(width, a) == pos_index(width, b),
    ensures
        a == b,
{
    assert(a.0 == b.0 && a.1 == b.1) by (nonlinear_arith)
        requires
            0 <= a.0 < width,
            0 <= b.0 < width,
            a.1 * width + a.0 == b.1 * width + b.0,
    ;
}

/// 1 when the position lies in the grid and holds a mine, else 0.
pub open spec fn mine_flag(g: Seq<Cell>, width: int, height: int, p: (int, int)) -> int {
    if in_grid(width, height, p) && cell_at(g, width, p).mine {
        1
    } else {
        0
    }
}

/// Brute-force count of mines among the 8 neighbors of `(col, row)`: one
/// term per surrounding position, out-of-grid positions counting zero.
pub open spec fn nearby_mine_count(g: Seq<Cell>, width: int, height: int, col: int, row: int) -> int {
    mine_flag(g, width, height, (col - 1, row - 1))
        + mine_flag(g, width, height, (col, row - 1))
        + mine_flag(g, width, height, (col + 1, row - 1))
        + mine_flag(g, width, height, (col - 1, row))
        + mine_flag(g, width, height, (col + 1, row))
        + mine_flag(g, width, height, (col - 1, row + 1))
        + mine_flag(g, width, height, (col, row + 1))
        + mine_flag(g, width, height, (col + 1, row + 1))
}

/// A neighbor-mine count is always between 0 and 8.
pub proof fn lemma_nearby_count_bounds(g: Seq<Cell>, width: int, height: int, col: int, row: int)
    ensures
        0 <= nearby_mine_count(g, width, height, col, row) <= 8,
{
}

/// A cell the reveal cascade may open: in the grid, not a mine, and not
/// already opened.
pub open spec fn eligible(g: Seq<Cell>, width: int, height: int, p: (int, int)) -> bool {
    &&& in_grid(width, height, p)
    &&& !cell_at(g, width, p).mine
    &&& cell_at(g, width, p).interaction != Interaction::Opened
}

/// A path the cascade can follow: a nonempty run of eligible cells in which
/// each consecutive pair is 4-adjacent.
pub open spec fn is_cascade_path(g: Seq<Cell>, width: int, height: int, p: Seq<(int, int)>) -> bool {
    &&& p.len() >= 1
    &&& forall|k: int| 0 <= k < p.len() ==> eligible(g, width, height, #[trigger] p[k])
    &&& forall|k: int| 0 <= k < p.len() - 1 ==> adj4(#[trigger] p[k], p[k + 1])
}

/// `to` is in the connected non-mine region a reveal at `from` opens: some
/// cascade path joins them.
pub open spec fn reaches(g: Seq<Cell>, width: int, height: int, from: (int, int), to: (int, int)) -> bool {
    exists|p: Seq<(int, int)>|
        is_cascade_path(g, width, height, p) && p.first() == from && p.last() == to
}

/// An eligible cell reaches itself, by the one-step path.
pub proof fn lemma_reaches_self(g: Seq<Cell>, width: int, height: int, p: (int, int))
    requires
        eligible(g, width, height, p),
    ensures
        reaches(g, width, height, p, p),
{
    let path = seq![p];
    assert(is_cascade_path(g, width, height, path));
    assert(path.first() == p && path.last() == p);
}

/// Reachability extends along one 4-adjacent step to an eligible cell.
pub proof fn lemma_reaches_step(
    g: Seq<Cell>, width: int, height: int, from: (int, int), a: (int, int), b: (int, int),
)
    requires
        reaches(g, width, height, from, a),
        adj4(a, b),
        eligible(g, width, height, b),
    ensures
        reaches(g, width, height, from, b),
{
    let path = choose|p: Seq<(int, int)>|
        is_cascade_path(g, width, height, p) && p.first() == from && p.last() == a;
    let ext = path.push(b);
    assert forall|k: int| 0 <= k < ext.len() implies eligible(g, width, height, #[trigger] ext[k]) by {
        if k < path.len() {
            assert(ext[k] == path[k]);
        }
    }
    assert forall|k: int| 0 <= k < ext.len() - 1 implies adj4(#[trigger] ext[k], ext[k + 1]) by {
        if k < path.len() - 1 {
            assert(ext[k] == path[k] && ext[k + 1] == path[k + 1]);
        } else {
            assert(ext[k] == path.last() && ext[k + 1] == b);
        }
    }
    assert(is_cascade_path(g, width, height, ext));
    assert(ext.first() == from && ext.last() == b);
}

/// Both ends of a reachability fact are eligible cells.
pub proof fn lemma_reaches_eligible(
    g: Seq<Cell>, width: int, height: int, from: (int, int), to: (int, int),
)
    requires
        reaches(g, width, height, from, to),
    ensures
        eligible(g, width, height, from),
        eligible(g, width, height, to),
{
    let path = choose|p: Seq<(int, int)>|
        is_cascade_path(g, width, height, p) && p.first() == from && p.last() == to;
    assert(eligible(g, width, height, path[0]));
    assert(eligible(g, width, height, path[path.len() - 1]));
}

/// If, in a later grid `g2`, the head of a cascade path of `g` is opened and
/// opened eligible cells propagate opening to their eligible 4-neighbors,
/// then the whole path, in particular its end, is opened in `g2`.
pub proof fn lemma_cascade_path_opened(
    g: Seq<Cell>, g2: Seq<Cell>, width: int, height: int, p: Seq<(int, int)>,
)
    requires
        is_cascade_path(g, width, height, p),
        cell_at(g2, width, p.first()).interaction == Interaction::Opened,
        forall|a: (int, int), b: (int, int)|
            eligible(g, width, height, a) && eligible(g, width, height, b) && adj4(a, b)
                && #[trigger] cell_at(g2, width, a).interaction == Interaction::Opened
                ==> #[trigger] cell_at(g2, width, b).interaction == Interaction::Opened,
    ensures
        cell_at(g2, width, p.last()).interaction == Interaction::Opened,
    decreases p.len(),
{
    if p.len() > 1 {
        assert(eligible(g, width, height, p[0]));
        assert(eligible(g, width, height, p[1]));
        assert(adj4(p[0], p[1]));
        assert(cell_at(g2, width, p[1]).interaction == Interaction::Opened);
        let rest = p.subrange(1, p.len() as int);
        assert forall|k: int| 0 <= k < rest.len() implies
            eligible(g, width, height, #[trigger] rest[k]) by {
            assert(rest[k] == p[k + 1]);
        }
        assert forall|k: int| 0 <= k < rest.len() - 1 implies
            adj4(#[trigger] rest[k], rest[k + 1]) by {
            assert(rest[k] == p[k + 1] && rest[k + 1] == p[k + 2]);
        }
        assert(is_cascade_path(g, width, height, rest));
        assert(rest.first() == p[1]);
        lemma_cascade_path_opened(g, g2, width, height, rest);
        assert(rest.last() == p.last());
    }
}

} // verus!
