//! A play session: the working board, the fragment the player holds, the
//! cells of valid sentences, and whether the level is won.

use vstd::prelude::*;
use ahash::AHashSet;
use crate::board::{Board, covered, solved, held_cells, lifted_from, placed_onto, placeable, fragment_cells};
use crate::coord::Coord;
use crate::hashed::{cells_in, members_of, coord_set_new, coord_set_insert, placed_of};
use crate::levels::Level;
use crate::symbols::Symbol;

verus! {

/// What the player has in hand.
pub enum SelectState {
    Nothing,
    /// A fragment picked up off the board.
    HoldingFragment {
        /// The cell the fragment was picked up at.
        origin: Coord,
        /// The fragment's cells where they stood, with their glyphs.
        symbols: Vec<(Coord, Symbol)>,
    },
}

/// The state of one play of a level.
pub struct ModePlaying {
    pub level_id: String,
    pub board: Board,
    pub selection: SelectState,
    /// The cells of the valid sentences on the board.
    pub valid_poses: AHashSet<Coord>,
    /// Set once the board is solved with nothing in hand; never cleared.
    pub won: bool,
}

impl SelectState {
    /// Nothing is held.
    pub fn is_none(&self) -> (r: bool)
        ensures
            r == (self is Nothing),
    {
        match self {
            SelectState::Nothing => true,
            SelectState::HoldingFragment { .. } => false,
        }
    }
}

impl ModePlaying {
    /// The session's invariant: the board keeps its own, and a held fragment
    /// lists each cell once.
    pub open spec fn wf(&self) -> bool {
        &&& self.board.wf()
        &&& self.selection matches SelectState::HoldingFragment { symbols, .. } ==> held_cells(symbols@).no_duplicates()
    }

    /// Starts playing a level on a copy of its board.
    pub fn new_from_level(level: &Level) -> (r: ModePlaying)
        requires
            level.original_board.wf(),
        ensures
            r.wf(),
            r.level_id@ == level.id@,
            placed_of(r.board.symbols) == placed_of(level.original_board.symbols),
            fragment_cells(r.board.fragments@) == fragment_cells(level.original_board.fragments@),
            r.selection is Nothing,
            members_of(r.valid_poses) == covered(placed_of(r.board.symbols)),
            r.won == solved(placed_of(r.board.symbols)),
    {
        let board = level.original_board.duplicate();
        let mut out = ModePlaying {
            level_id: level.id.clone(),
            board,
            selection: SelectState::Nothing,
            valid_poses: coord_set_new(),
            won: false,
        };
        out.check_grammar();
        out
    }

    /// Records the cells of the valid sentences, and marks the level won if
    /// the board is solved with nothing in hand.
    fn check_grammar(&mut self)
        requires
            old(self).wf(),
        ensures
            final(self).wf(),
            final(self).board == old(self).board,
            final(self).selection == old(self).selection,
            final(self).level_id == old(self).level_id,
            members_of(final(self).valid_poses) == covered(placed_of(final(self).board.symbols)),
            final(self).won == (old(self).won || (old(self).selection is Nothing && solved(placed_of(old(self).board.symbols)))),
    {
        let (oks, errors) = self.board.check_grammar();
        let mut valid: AHashSet<Coord> = coord_set_new();
        for i in 0..oks.len()
            invariant
                forall|c: Coord| #[trigger] members_of(valid).contains(c) <==> exists|j: int| 0 <= j < i && oks@[j] == c,
        {
            coord_set_insert(&mut valid, oks[i]);
            proof {
                assert forall|c: Coord| #[trigger] members_of(valid).contains(c) <==> exists|j: int| 0 <= j < i + 1 && oks@[j] == c by {
                    if exists|j: int| 0 <= j < i + 1 && oks@[j] == c {
                        let j = choose|j: int| 0 <= j < i + 1 && oks@[j] == c;
                        if j < i {
                            assert(exists|j: int| 0 <= j < i && oks@[j] == c);
                        }
                    }
                    if members_of(valid).contains(c) && c != oks@[i as int] {
                        let j = choose|j: int| 0 <= j < i && oks@[j] == c;
                        assert(0 <= j < i + 1 && oks@[j] == c);
                    }
                }
            }
        }
        proof {
            assert(members_of(valid) =~= oks@.to_set()) by {
                assert forall|c: Coord| members_of(valid).contains(c) <==> oks@.contains(c) by {
                    if oks@.contains(c) {
                        let j = choose|j: int| 0 <= j < oks.len() && oks@[j] == c;
                    }
                }
            }
        }
        self.valid_poses = valid;
        if self.selection.is_none() && errors.len() == 0 {
            self.won = true;
        }
    }

    /// Handles one frame of input: `clicked` tells whether the player clicked,
    /// and `hovered` is the cell under the pointer.
    ///
    /// A click with nothing in hand picks up the fragment under the pointer,
    /// if any. A click while holding a fragment puts it down with its pickup
    /// cell at `hovered`, if every cell lands on an empty cell of the playable
    /// area; otherwise nothing changes. After a change the sentences are read
    /// again.
    pub fn update(&mut self, clicked: bool, hovered: Coord)
        requires
            old(self).wf(),
        ensures
            final(self).wf(),
            final(self).level_id == old(self).level_id,
            !clicked ==> *final(self) == *old(self),
            clicked && old(self).selection is Nothing && (exists|i: int| 0 <= i < old(self).board.fragments.len()
                && cells_in(#[trigger] old(self).board.fragments@[i]).contains(hovered)) ==> {
                &&& final(self).selection is HoldingFragment
                &&& final(self).selection->origin == hovered
                &&& exists|i: int| 0 <= i < old(self).board.fragments.len() && cells_in(#[trigger] old(self).board.fragments@[i]).contains(hovered)
                    && lifted_from(old(self).board, final(self).board, i, final(self).selection->symbols@)
                &&& members_of(final(self).valid_poses) == covered(placed_of(final(self).board.symbols))
                &&& final(self).won == old(self).won
            },
            clicked && old(self).selection is Nothing && !(exists|i: int| 0 <= i < old(self).board.fragments.len()
                && cells_in(#[trigger] old(self).board.fragments@[i]).contains(hovered)) ==> *final(self) == *old(self),
            clicked && old(self).selection is HoldingFragment && placeable(placed_of(old(self).board.symbols),
                old(self).selection->symbols@, old(self).selection->origin, hovered) ==> {
                &&& final(self).selection is Nothing
                &&& placed_onto(old(self).board, final(self).board, old(self).selection->symbols@, old(self).selection->origin, hovered)
                &&& members_of(final(self).valid_poses) == covered(placed_of(final(self).board.symbols))
                &&& final(self).won == (old(self).won || solved(placed_of(final(self).board.symbols)))
            },
            clicked && old(self).selection is HoldingFragment && !placeable(placed_of(old(self).board.symbols),
                old(self).selection->symbols@, old(self).selection->origin, hovered) ==> *final(self) == *old(self),
    {
        if !clicked {
            return;
        }
        let mut sel = SelectState::Nothing;
        core::mem::swap(&mut sel, &mut self.selection);
        match sel {
            SelectState::Nothing => {
                match self.board.fragment_at(hovered) {
                    Some(i) => {
                        let ghost b0 = self.board;
                        let held = self.board.lift(i);
                        proof {
                            assert(fragment_cells(b0.fragments@)[i as int] == cells_in(b0.fragments@[i as int]));
                            assert(held_cells(held@).no_duplicates());
                        }
                        self.selection = SelectState::HoldingFragment { origin: hovered, symbols: held };
                        self.check_grammar();
                    },
                    None => {},
                }
            },
            SelectState::HoldingFragment { origin, symbols } => {
                if self.board.can_place(&symbols, origin, hovered) {
                    self.board.place(&symbols, origin, hovered);
                    self.check_grammar();
                } else {
                    self.selection = SelectState::HoldingFragment { origin, symbols };
                }
            },
        }
    }
}

} // verus!
