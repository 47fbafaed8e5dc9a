use minesweeper::Board;
use minesweeper::BoardError;
use minesweeper::Interaction;
use minesweeper::RevealOutcome;

fn layout_with_mines(total: usize, mines: &[usize]) -> Vec<bool> {
    let mut layout = vec![false; total];
    for &i in mines {
        layout[i] = true;
    }
    layout
}

fn opened_count(b: &Board) -> usize {
    b.grid.iter().filter(|c| c.interaction == Interaction::Opened).count()
}

#[test]
fn populate_counts_requested_mines() {
    let mut b = Board::default();
    assert_eq!(b.populate(10, 10, 20), Ok(()));
    assert_eq!(b.width, 10);
    assert_eq!(b.height, 10);
    assert_eq!(b.mines, 20);
    assert_eq!(b.grid.len(), 100);
    let mine_count = b.grid.iter().filter(|c| c.mine).count();
    assert_eq!(mine_count, 20);
    for c in b.grid.iter() {
        assert_eq!(c.interaction, Interaction::Undiscovered);
        assert!(c.nearby <= 8);
    }
}

#[test]
fn every_index_is_a_reachable_placement_target() {
    // On a 1x2 board with one mine, both cells must come up as the mine
    // across repeated generations; in particular the very last index.
    let mut seen = [false; 2];
    for _ in 0..200 {
        let mut b = Board::default();
        assert_eq!(b.populate(2, 1, 1), Ok(()));
        for (i, c) in b.grid.iter().enumerate() {
            if c.mine {
                seen[i] = true;
            }
        }
    }
    assert!(seen[0]);
    assert!(seen[1]);
}

#[test]
fn nearby_counts_match_brute_force() {
    let mut b = Board::default();
    assert_eq!(b.populate(8, 8, 10), Ok(()));
    for row in 0..8usize {
        for col in 0..8usize {
            let mut expected = 0usize;
            for r2 in 0..8usize {
                for c2 in 0..8usize {
                    if (r2, c2) != (row, col)
                        && r2.abs_diff(row) <= 1
                        && c2.abs_diff(col) <= 1
                        && b.grid[r2 * 8 + c2].mine
                    {
                        expected += 1;
                    }
                }
            }
            assert_eq!(b.grid[row * 8 + col].nearby, expected);
        }
    }
}

#[test]
fn neighbor_enumeration_sizes_on_5x5() {
    let mut b = Board::default();
    assert_eq!(b.populate(5, 5, 3), Ok(()));
    // corners: 3 neighbors for mine counting, 2 for the cascade
    for &(c, r) in &[(0usize, 0usize), (4, 0), (0, 4), (4, 4)] {
        assert_eq!(b.get_nearby_cells(c, r).unwrap().len(), 3);
        assert_eq!(b.get_adjacent_cells(c, r).unwrap().len(), 2);
    }
    // edges: 5 and 3
    for &(c, r) in &[(2usize, 0usize), (0, 2), (4, 2), (2, 4)] {
        assert_eq!(b.get_nearby_cells(c, r).unwrap().len(), 5);
        assert_eq!(b.get_adjacent_cells(c, r).unwrap().len(), 3);
    }
    // interior: 8 and 4
    for &(c, r) in &[(2usize, 2usize), (1, 1), (3, 3)] {
        assert_eq!(b.get_nearby_cells(c, r).unwrap().len(), 8);
        assert_eq!(b.get_adjacent_cells(c, r).unwrap().len(), 4);
    }
    // exact membership at one corner
    let mut near = b.get_nearby_cells(0, 0).unwrap();
    near.sort();
    assert_eq!(near, vec![(0, 1), (1, 0), (1, 1)]);
    let mut adj = b.get_adjacent_cells(0, 0).unwrap();
    adj.sort();
    assert_eq!(adj, vec![(0, 1), (1, 0)]);
}

#[test]
fn reveal_opens_exactly_the_connected_region() {
    // 4x4 with a full wall of mines in column 2: the region of (0,0) is the
    // two left columns, 8 cells; column 3 stays closed behind the wall.
    let mut b = Board::default();
    let layout = layout_with_mines(16, &[2, 6, 10, 14]);
    assert_eq!(b.populate_from_layout(4, 4, &layout), Ok(()));
    assert_eq!(b.reveal_cell(0, 0), Ok(RevealOutcome::Revealed));
    assert_eq!(opened_count(&b), 8);
    for row in 0..4usize {
        for col in 0..4usize {
            let expect_open = col <= 1;
            let opened = b.grid[row * 4 + col].interaction == Interaction::Opened;
            assert_eq!(opened, expect_open, "cell ({col},{row})");
        }
    }
}

#[test]
fn reveal_of_opened_cell_is_a_noop() {
    let mut b = Board::default();
    let layout = layout_with_mines(9, &[4]);
    assert_eq!(b.populate_from_layout(3, 3, &layout), Ok(()));
    assert_eq!(b.reveal_cell(1, 0), Ok(RevealOutcome::Revealed));
    let before = b.grid.clone();
    assert_eq!(b.reveal_cell(1, 0), Ok(RevealOutcome::Revealed));
    assert_eq!(b.grid, before);
    assert_eq!(b.width, 3);
    assert_eq!(b.height, 3);
    assert_eq!(b.mines, 1);
}

#[test]
fn reveal_of_mine_changes_nothing_and_signals() {
    let mut b = Board::default();
    let layout = layout_with_mines(9, &[4]);
    assert_eq!(b.populate_from_layout(3, 3, &layout), Ok(()));
    assert_eq!(b.toggle_flag(0, 0), Ok(()));
    let before = b.grid.clone();
    assert_eq!(b.reveal_cell(1, 1), Ok(RevealOutcome::HitMine));
    assert_eq!(b.grid, before);
    // the mine is still closed, the flag is still set
    assert_eq!(b.grid[4].interaction, Interaction::Undiscovered);
    assert_eq!(b.grid[0].interaction, Interaction::Flagged);
}

#[test]
fn toggling_twice_restores_and_opened_is_unaffected() {
    let mut b = Board::default();
    let layout = layout_with_mines(9, &[8]);
    assert_eq!(b.populate_from_layout(3, 3, &layout), Ok(()));
    assert_eq!(b.grid[0].interaction, Interaction::Undiscovered);
    assert_eq!(b.toggle_flag(0, 0), Ok(()));
    assert_eq!(b.grid[0].interaction, Interaction::Flagged);
    assert_eq!(b.toggle_flag(0, 0), Ok(()));
    assert_eq!(b.grid[0].interaction, Interaction::Undiscovered);
    // open a cell, then try to flag it: no effect
    let mut b2 = Board::default();
    let wall = layout_with_mines(9, &[1, 4, 7]);
    assert_eq!(b2.populate_from_layout(3, 3, &wall), Ok(()));
    assert_eq!(b2.reveal_cell(0, 1), Ok(RevealOutcome::Revealed));
    assert_eq!(b2.grid[3].interaction, Interaction::Opened);
    assert_eq!(b2.toggle_flag(0, 1), Ok(()));
    assert_eq!(b2.grid[3].interaction, Interaction::Opened);
}

#[test]
fn corner_mine_board_opens_all_other_cells() {
    // 3x3, single mine forced at index 8 (bottom-right): revealing (0,0)
    // opens all 8 non-mine cells; the mine stays undiscovered.
    let mut b = Board::default();
    let layout = layout_with_mines(9, &[8]);
    assert_eq!(b.populate_from_layout(3, 3, &layout), Ok(()));
    assert_eq!(b.reveal_cell(0, 0), Ok(RevealOutcome::Revealed));
    assert_eq!(opened_count(&b), 8);
    for i in 0..8usize {
        assert_eq!(b.grid[i].interaction, Interaction::Opened);
        assert!(!b.grid[i].mine);
    }
    assert_eq!(b.grid[8].interaction, Interaction::Undiscovered);
    assert!(b.grid[8].mine);
}

#[test]
fn cascade_runs_through_flagged_cells() {
    // a flag does not protect a cell: the cascade opens it like any other
    let mut b = Board::default();
    let layout = layout_with_mines(4, &[]);
    assert_eq!(b.populate_from_layout(2, 2, &layout), Ok(()));
    assert_eq!(b.toggle_flag(1, 1), Ok(()));
    assert_eq!(b.reveal_cell(0, 0), Ok(RevealOutcome::Revealed));
    assert_eq!(opened_count(&b), 4);
    assert_eq!(b.grid[3].interaction, Interaction::Opened);
}

#[test]
fn populate_rejects_invalid_arguments() {
    let mut b = Board::default();
    assert_eq!(b.populate(0, 5, 1), Err(BoardError::InvalidArgument));
    assert_eq!(b.populate(5, 0, 1), Err(BoardError::InvalidArgument));
    assert_eq!(b.populate(3, 3, 9), Err(BoardError::InvalidArgument));
    assert_eq!(b.populate(3, 3, 10), Err(BoardError::InvalidArgument));
    // a rejected call leaves the board untouched
    assert_eq!(b.width, 0);
    assert_eq!(b.height, 0);
    assert_eq!(b.mines, 0);
    assert_eq!(b.grid.len(), 0);
    // the largest admissible mine count is accepted
    assert_eq!(b.populate(3, 3, 8), Ok(()));
    assert_eq!(b.grid.iter().filter(|c| c.mine).count(), 8);
}

#[test]
fn populate_from_layout_rejects_invalid_arguments() {
    let mut b = Board::default();
    let short = layout_with_mines(8, &[]);
    assert_eq!(b.populate_from_layout(3, 3, &short), Err(BoardError::InvalidArgument));
    let all_mines = layout_with_mines(9, &[0, 1, 2, 3, 4, 5, 6, 7, 8]);
    assert_eq!(b.populate_from_layout(3, 3, &all_mines), Err(BoardError::InvalidArgument));
    assert_eq!(b.populate_from_layout(0, 0, &layout_with_mines(0, &[])), Err(BoardError::InvalidArgument));
    assert_eq!(b.grid.len(), 0);
}

#[test]
fn out_of_range_coordinates_are_rejected() {
    let mut b = Board::default();
    let layout = layout_with_mines(9, &[8]);
    assert_eq!(b.populate_from_layout(3, 3, &layout), Ok(()));
    assert_eq!(b.reveal_cell(3, 0), Err(BoardError::InvalidArgument));
    assert_eq!(b.reveal_cell(0, 3), Err(BoardError::InvalidArgument));
    assert_eq!(b.toggle_flag(7, 7), Err(BoardError::InvalidArgument));
    assert_eq!(b.is_mine(3, 1), Err(BoardError::InvalidArgument));
    assert_eq!(b.get_nearby_cells(0, 9), Err(BoardError::InvalidArgument));
    assert_eq!(b.get_adjacent_cells(9, 0), Err(BoardError::InvalidArgument));
    // nothing was applied
    for c in b.grid.iter() {
        assert_eq!(c.interaction, Interaction::Undiscovered);
    }
    // an unpopulated board accepts no coordinate at all
    let mut empty = Board::default();
    assert_eq!(empty.reveal_cell(0, 0), Err(BoardError::InvalidArgument));
    assert_eq!(empty.toggle_flag(0, 0), Err(BoardError::InvalidArgument));
    assert_eq!(empty.is_mine(0, 0), Err(BoardError::InvalidArgument));
}

#[test]
fn is_mine_reads_the_grid() {
    let mut b = Board::default();
    let layout = layout_with_mines(6, &[1, 4]);
    assert_eq!(b.populate_from_layout(3, 2, &layout), Ok(()));
    assert_eq!(b.is_mine(1, 0), Ok(true));
    assert_eq!(b.is_mine(1, 1), Ok(true));
    assert_eq!(b.is_mine(0, 0), Ok(false));
    assert_eq!(b.is_mine(2, 1), Ok(false));
}

#[test]
fn repopulating_resets_all_state() {
    let mut b = Board::default();
    let layout = layout_with_mines(9, &[8]);
    assert_eq!(b.populate_from_layout(3, 3, &layout), Ok(()));
    assert_eq!(b.reveal_cell(0, 0), Ok(RevealOutcome::Revealed));
    assert_eq!(b.toggle_flag(2, 2), Ok(()));
    assert_eq!(b.populate(2, 2, 0), Ok(()));
    assert_eq!(b.width, 2);
    assert_eq!(b.height, 2);
    assert_eq!(b.mines, 0);
    assert_eq!(b.grid.len(), 4);
    for c in b.grid.iter() {
        assert_eq!(c.interaction, Interaction::Undiscovered);
        assert!(!c.mine);
        assert_eq!(c.nearby, 0);
    }
}
