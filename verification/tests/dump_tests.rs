use minesweeper::Board;
use minesweeper::RevealOutcome;

fn layout_with_mines(total: usize, mines: &[usize]) -> Vec<bool> {
    let mut layout = vec![false; total];
    for &i in mines {
        layout[i] = true;
    }
    layout
}

#[test]
fn dump_shows_mines_counts_flags_and_blanks() {
    let mut b = Board::default();
    let layout = layout_with_mines(4, &[3]);
    assert_eq!(b.populate_from_layout(2, 2, &layout), Ok(()));
    // undiscovered cells show their neighbor count, the mine shows X
    assert_eq!(b.dump(), "11\n1X\n");
    // a flag shows as !
    assert_eq!(b.toggle_flag(0, 0), Ok(()));
    assert_eq!(b.dump(), "!1\n1X\n");
    // opened cells are blank; the cascade runs through the flagged cell
    assert_eq!(b.toggle_flag(0, 0), Ok(()));
    assert_eq!(b.reveal_cell(0, 1), Ok(RevealOutcome::Revealed));
    assert_eq!(b.dump(), "  \n X\n");
}

#[test]
fn dump_of_zero_count_board_shows_zeros() {
    let mut b = Board::default();
    let layout = layout_with_mines(2, &[]);
    assert_eq!(b.populate_from_layout(2, 1, &layout), Ok(()));
    assert_eq!(b.dump(), "00\n");
    let empty = Board::default();
    assert_eq!(empty.dump(), "");
}
