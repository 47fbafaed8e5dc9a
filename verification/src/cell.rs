//! A single grid position: mine status, player-visible interaction state,
//! and the precomputed count of mines among its 8-neighbors.

use vstd::prelude::*;

verus! {

/// The player-visible state of a cell. A cell starts `Undiscovered`, may
/// toggle between `Undiscovered` and `Flagged`, and moves to `Opened` only
/// through a reveal; `Opened` is terminal.
#[derive(Clone, Copy, Debug, PartialEq, Eq, Structural)]
pub enum Interaction {
    Opened,
    Undiscovered,
    Flagged,
}

/// One grid position. `mine` and `nearby` are fixed once a board is
/// generated; `interaction` changes with player actions.
#[derive(Clone, Copy, Debug, PartialEq, Eq, Structural)]
pub struct Cell {
    pub mine: bool,
    pub interaction: Interaction,
    /// Number of mines among the up-to-8 surrounding cells, in `[0, 8]`
    /// on a generated board (a sentinel above 8 before counts are filled in).
    pub nearby: usize,
}

/// What a flag toggle does to an interaction state: `Undiscovered` and
/// `Flagged` swap, `Opened` is unaffected.
pub open spec fn spec_toggle(s: Interaction) -> Interaction {
    match s {
        Interaction::Undiscovered => Interaction::Flagged,
        Interaction::Flagged => Interaction::Undiscovered,
        Interaction::Opened => Interaction::Opened,
    }
}

/// The digit character for a neighbor count, `#` for a sentinel above 8.
pub open spec fn digit(n: int) -> char {
    if n == 0 {
        '0'
    } else if n == 1 {
        '1'
    } else if n == 2 {
        '2'
    } else if n == 3 {
        '3'
    } else if n == 4 {
        '4'
    } else if n == 5 {
        '5'
    } else if n == 6 {
        '6'
    } else if n == 7 {
        '7'
    } else if n == 8 {
        '8'
    } else {
        '#'
    }
}

/// The diagnostic glyph of one cell: `!` for a flagged cell, a blank for an
/// opened one, `X` for an undiscovered mine, and the neighbor-count digit
/// for an undiscovered non-mine.
pub open spec fn glyph(c: Cell) -> char {
    match c.interaction {
        Interaction::Flagged => '!',
        Interaction::Opened => ' ',
        Interaction::Undiscovered => if c.mine {
            'X'
        } else {
            digit(c.nearby as int)
        },
    }
}

impl Cell {
    /// This cell's diagnostic glyph, as a one-character string.
    pub fn glyph_str(&self) -> (r: &'static str)
        ensures
            r@ == seq![glyph(*self)],
    {
        match self.interaction {
            Interaction::Flagged => {
                proof {
                    reveal_strlit("!");
                    assert("!"@ =~= seq![glyph(*self)]);
                }
                "!"
            },
            Interaction::Opened => {
                proof {
                    reveal_strlit(" ");
                    assert(" "@ =~= seq![glyph(*self)]);
                }
                " "
            },
            Interaction::Undiscovered => {
                if self.mine {
                    proof {
                        reveal_strlit("X");
                        assert("X"@ =~= seq![glyph(*self)]);
                    }
                    "X"
                } else {
                    match self.nearby {
                        0 => {
                            proof {
                                reveal_strlit("0");
                                assert("0"@ =~= seq![glyph(*self)]);
                            }
                            "0"
                        },
                        1 => {
                            proof {
                                reveal_strlit("1");
                                assert("1"@ =~= seq![glyph(*self)]);
                            }
                            "1"
                        },
                        2 => {
                            proof {
                                reveal_strlit("2");
                                assert("2"@ =~= seq![glyph(*self)]);
                            }
                            "2"
                        },
                        3 => {
                            proof {
                                reveal_strlit("3");
                                assert("3"@ =~= seq![glyph(*self)]);
                            }
                            "3"
                        },
                        4 => {
                            proof {
                                reveal_strlit("4");
                                assert("4"@ =~= seq![glyph(*self)]);
                            }
                            "4"
                        },
                        5 => {
                            proof {
                                reveal_strlit("5");
                                assert("5"@ =~= seq![glyph(*self)]);
                            }
                            "5"
                        },
                        6 => {
                            proof {
                                reveal_strlit("6");
                                assert("6"@ =~= seq![glyph(*self)]);
                            }
                            "6"
                        },
                        7 => {
                            proof {
                                reveal_strlit("7");
                                assert("7"@ =~= seq![glyph(*self)]);
                            }
                            "7"
                        },
                        8 => {
                            proof {
                                reveal_strlit("8");
                                assert("8"@ =~= seq![glyph(*self)]);
                            }
                            "8"
                        },
                        _ => {
                            proof {
                                reveal_strlit("#");
                                assert("#"@ =~= seq![glyph(*self)]);
                            }
                            "#"
                        },
                    }
                }
            },
        }
    }
}

} // verus!
