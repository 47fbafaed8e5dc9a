//! Board-wide laws, proved once and for all: the sizes of the neighbor
//! enumerations at corners, edges and interior cells, the exact region a
//! reveal opens, and the involution of flag toggling.

use vstd::prelude::*;

use crate::cell::Cell;
use crate::cell::Interaction;
use crate::cell::spec_toggle;
use crate::grid::cell_at;
use crate::grid::in_grid;
use crate::grid::is_nearby;
use crate::grid::lemma_reaches_eligible;
use crate::grid::reaches;

verus! {

/// Law: a duplicate-free enumeration of the in-grid 8-neighbors of a corner
/// cell has at most 3 entries.
pub proof fn lemma_corner_neighbor_count(
    v: Seq<(usize, usize)>, width: usize, height: usize, col: usize, row: usize,
)
    requires
        col < width,
        row < height,
        col == 0 || col as int == width as int - 1,
        row == 0 || row as int == height as int - 1,
        v.no_duplicates(),
        forall|q: (usize, usize)| #[trigger] v.contains(q) <==> is_nearby(
            width as int,
            height as int,
            col as int,
            row as int,
            (q.0 as int, q.1 as int),
        ),
    ensures
        v.len() <= 3,
{
    broadcast use vstd::set::group_set_axioms;
    broadcast use vstd::set::axiom_set_insert_len;

    let cx: usize = if col == 0 { (col + 1) as usize } else { (col - 1) as usize };
    let ry: usize = if row == 0 { (row + 1) as usize } else { (row - 1) as usize };
    let s = Set::<(usize, usize)>::empty().insert((cx, row)).insert((col, ry)).insert((cx, ry));
    assert(s.len() <= 3);
    assert forall|q: (usize, usize)| v.to_set().contains(q) implies s.contains(q) by {
        assert(v.contains(q));
    }
    vstd::set_lib::lemma_len_subset(v.to_set(), s);
    v.unique_seq_to_set();
}

/// Law: a duplicate-free enumeration of the in-grid 8-neighbors of an edge
/// (non-corner) cell has at most 5 entries.
pub proof fn lemma_edge_neighbor_count(
    v: Seq<(usize, usize)>, width: usize, height: usize, col: usize, row: usize,
)
    requires
        col < width,
        row < height,
        (col == 0 || col as int == width as int - 1) != (row == 0 || row as int == height as int
            - 1),
        v.no_duplicates(),
        forall|q: (usize, usize)| #[trigger] v.contains(q) <==> is_nearby(
            width as int,
            height as int,
            col as int,
            row as int,
            (q.0 as int, q.1 as int),
        ),
    ensures
        v.len() <= 5,
{
    broadcast use vstd::set::group_set_axioms;
    broadcast use vstd::set::axiom_set_insert_len;

    let s = if col == 0 || col as int == width as int - 1 {
        // a vertical edge: the row above and below exist, one column aside
        let cx: usize = if col == 0 { (col + 1) as usize } else { (col - 1) as usize };
        Set::<(usize, usize)>::empty().insert((cx, (row - 1) as usize)).insert((cx, row)).insert(
            (cx, (row + 1) as usize),
        ).insert((col, (row - 1) as usize)).insert((col, (row + 1) as usize))
    } else {
        // a horizontal edge: the column left and right exist, one row aside
        let ry: usize = if row == 0 { (row + 1) as usize } else { (row - 1) as usize };
        Set::<(usize, usize)>::empty().insert(((col - 1) as usize, ry)).insert((col, ry)).insert(
            ((col + 1) as usize, ry),
        ).insert(((col - 1) as usize, row)).insert(((col + 1) as usize, row))
    };
    assert(s.len() <= 5);
    assert forall|q: (usize, usize)| v.to_set().contains(q) implies s.contains(q) by {
        assert(v.contains(q));
    }
    vstd::set_lib::lemma_len_subset(v.to_set(), s);
    v.unique_seq_to_set();
}

/// Law: a duplicate-free enumeration of the in-grid 8-neighbors of an
/// interior cell has exactly 8 entries.
pub proof fn lemma_interior_neighbor_count(
    v: Seq<(usize, usize)>, width: usize, height: usize, col: usize, row: usize,
)
    requires
        0 < col,
        (col as int) + 1 < width as int,
        0 < row,
        (row as int) + 1 < height as int,
        v.no_duplicates(),
        forall|q: (usize, usize)| #[trigger] v.contains(q) <==> is_nearby(
            width as int,
            height as int,
            col as int,
            row as int,
            (q.0 as int, q.1 as int),
        ),
    ensures
        v.len() == 8,
{
    broadcast use vstd::set::group_set_axioms;
    broadcast use vstd::set::axiom_set_insert_len;

    let cl: usize = (col - 1) as usize;
    let cr: usize = (col + 1) as usize;
    let ru: usize = (row - 1) as usize;
    let rd: usize = (row + 1) as usize;
    let s = Set::<(usize, usize)>::empty().insert((cl, ru)).insert((col, ru)).insert(
        (cr, ru),
    ).insert((cl, row)).insert((cr, row)).insert((cl, rd)).insert((col, rd)).insert((cr, rd));
    assert(s.len() == 8);
    assert forall|q: (usize, usize)| v.to_set().contains(q) <==> s.contains(q) by {
        assert(v.contains(q) <==> v.to_set().contains(q));
        if s.contains(q) {
            assert(is_nearby(
                width as int,
                height as int,
                col as int,
                row as int,
                (q.0 as int, q.1 as int),
            ));
        }
    }
    assert(v.to_set() =~= s);
    v.unique_seq_to_set();
}

/// The in-grid cells that are opened in `g2` but were not yet opened in `g1`.
pub open spec fn newly_opened_set(g1: Seq<Cell>, g2: Seq<Cell>, width: int, height: int) -> Set<
    (int, int),
> {
    Set::new(
        |p: (int, int)|
            in_grid(width, height, p) && cell_at(g2, width, p).interaction == Interaction::Opened
                && cell_at(g1, width, p).interaction != Interaction::Opened,
    )
}

/// The connected non-mine region that a reveal at `start` opens: everything
/// `start` reaches through 4-adjacent, not-yet-opened, non-mine cells.
pub open spec fn revealed_region(g: Seq<Cell>, width: int, height: int, start: (int, int)) -> Set<
    (int, int),
> {
    Set::new(|p: (int, int)| reaches(g, width, height, start, p))
}

/// Law: a successful reveal opens exactly the connected non-mine region of
/// its target. For grids related as `reveal_cell` ensures on a non-mine
/// target — every interaction follows reachability, everything else is kept
/// — the set of cells that moved to `Opened` equals the reachable region, so
/// a region of size `k` means exactly `k` cells opened.
pub proof fn lemma_reveal_opens_exactly_the_region(
    g1: Seq<Cell>, g2: Seq<Cell>, width: int, height: int, start: (int, int),
)
    requires
        forall|p: (int, int)|
            in_grid(width, height, p) ==> (#[trigger] cell_at(g2, width, p)).interaction
                == if reaches(g1, width, height, start, p) {
                Interaction::Opened
            } else {
                cell_at(g1, width, p).interaction
            },
    ensures
        newly_opened_set(g1, g2, width, height) == revealed_region(g1, width, height, start),
{
    assert forall|p: (int, int)|
        newly_opened_set(g1, g2, width, height).contains(p) <==> revealed_region(
            g1,
            width,
            height,
            start,
        ).contains(p) by {
        if reaches(g1, width, height, start, p) {
            lemma_reaches_eligible(g1, width, height, start, p);
        }
    }
    assert(newly_opened_set(g1, g2, width, height) =~= revealed_region(g1, width, height, start));
}

/// Law: toggling a flag twice restores a cell's interaction state, and a
/// toggle never moves an `Opened` cell.
pub proof fn lemma_toggle_twice(s: Interaction)
    ensures
        spec_toggle(spec_toggle(s)) == s,
        spec_toggle(Interaction::Opened) == Interaction::Opened,
{
}

} // verus!
