//! Levels: the text a level is written in, and the board built from it.

use vstd::prelude::*;
use crate::board::{Board, fragments_partition, fragment_cells, fragments_from};
use crate::coord::{Coord, interior};
use crate::flood::{fragments_of, is_component_partition};
use crate::hashed::{glyphs_of, glyphs_new, glyphs_insert, glyphs_get, placed_of, placed_new, placed_insert};
use crate::symbols::{FormatError, Symbol, fits_pattern, pattern_code, classified};
use crate::text::{is_blank, blank, line_of, col_of, chars_of};

verus! {

/// A level as written: a name, the glyph each key character stands for (as
/// pattern text), and the layout of key characters on the board.
pub struct RawLevel {
    pub name: String,
    /// Key characters with the pattern text of their glyph.
    pub symbols: Vec<(char, String)>,
    /// The layout; blank characters leave a cell empty.
    pub board: String,
}

/// A level ready to play.
pub struct Level {
    pub id: String,
    pub name: String,
    /// The board as the level starts.
    pub original_board: Board,
}

/// The board cell of the layout character at index `i`.
pub open spec fn layout_cell(s: Seq<char>, i: int) -> Coord {
    (col_of(s, i) as i64, line_of(s, i) as i64)
}

/// The cells that the layout fills: the positions of its non-blank characters.
pub open spec fn layout_cells(s: Seq<char>) -> Set<Coord> {
    Set::new(|c: Coord| exists|i: int| 0 <= i < s.len() && !is_blank(s[i]) && c == layout_cell(s, i))
}

/// Some entry with key `k` draws the glyph `g`.
pub open spec fn glyph_of_key(entries: Seq<(char, String)>, k: char, g: Symbol) -> bool {
    exists|e: int| 0 <= e < entries.len() && entries[e].0 == k && pattern_code(entries[e].1@, g.code)
        && classified(g.code, g.part_of_speech)
}

/// Some entry has key `k`.
pub open spec fn has_key(entries: Seq<(char, String)>, k: char) -> bool {
    exists|e: int| 0 <= e < entries.len() && entries[e].0 == k
}

/// The level text can be read: every key is a non-blank character, every
/// pattern fits the 5×5 box, and every non-blank layout character is a key.
pub open spec fn readable(entries: Seq<(char, String)>, layout: Seq<char>) -> bool {
    &&& forall|e: int| 0 <= e < entries.len() ==> entry_ok(#[trigger] entries[e])
    &&& forall|i: int| 0 <= i < layout.len() && !is_blank(#[trigger] layout[i]) ==> has_key(entries, layout[i])
}

/// The entry's key is not blank and its pattern fits the 5×5 box.
pub open spec fn entry_ok(entry: (char, String)) -> bool {
    !is_blank(entry.0) && fits_pattern(entry.1@)
}

/// The fault reported is one the level text has.
pub open spec fn fault_in(entries: Seq<(char, String)>, layout: Seq<char>, f: FormatError) -> bool {
    match f {
        FormatError::AmbiguousKey { key } => has_key(entries, key) && is_blank(key),
        FormatError::PatternTooLarge => exists|e: int| 0 <= e < entries.len() && !fits_pattern(#[trigger] entries[e].1@),
        FormatError::UnmappedCharacter { key, x, y } => exists|i: int| 0 <= i < layout.len() && #[trigger] layout[i] == key
            && !is_blank(key) && !has_key(entries, key) && layout_cell(layout, i) == (x, y),
    }
}

/// Positions only move forward through a text: a later character is on a
/// later line, or on the same line further right.
proof fn lemma_positions_advance(s: Seq<char>, i: int, j: int)
    requires
        0 <= i <= j <= s.len(),
    ensures
        line_of(s, i) <= line_of(s, j),
        line_of(s, i) == line_of(s, j) ==> col_of(s, j) == col_of(s, i) + (j - i),
    decreases j - i,
{
    if i < j {
        lemma_positions_advance(s, i, j - 1);
    }
}

/// A position is never past its index.
proof fn lemma_position_bounds(s: Seq<char>, i: int)
    requires
        0 <= i <= s.len(),
    ensures
        0 <= line_of(s, i) <= i,
        0 <= col_of(s, i) <= i,
    decreases i,
{
    if i > 0 {
        lemma_position_bounds(s, i - 1);
    }
}

/// Two characters that are not line feeds stand on different cells.
proof fn lemma_cells_distinct(s: Seq<char>, i: int, j: int)
    requires
        0 <= i < j < s.len(),
        s[i] != '\n',
        j < i64::MAX,
    ensures
        layout_cell(s, i) != layout_cell(s, j),
{
    lemma_positions_advance(s, i + 1, j);
    lemma_position_bounds(s, i);
    lemma_position_bounds(s, j);
    lemma_position_bounds(s, i + 1);
}

impl RawLevel {
    /// Builds the level: reads each glyph pattern, puts the glyph of each
    /// layout character on its cell (column, line), and splits the occupied
    /// cells into fragments, one per 4-connected region.
    pub fn to_level(&self, filename: String) -> (r: Result<Level, FormatError>)
        requires
            self.board@.len() < i64::MAX,
        ensures
            r is Ok <==> readable(self.symbols@, self.board@),
            r matches Err(f) ==> fault_in(self.symbols@, self.board@, f),
            r matches Ok(level) ==> {
                &&& level.id@ == filename@
                &&& level.name@ == self.name@
                &&& level.original_board.wf()
                &&& placed_of(level.original_board.symbols).dom() == layout_cells(self.board@)
                &&& is_component_partition(layout_cells(self.board@), fragment_cells(level.original_board.fragments@))
                &&& forall|i: int| 0 <= i < self.board@.len() && !is_blank(#[trigger] self.board@[i]) ==>
                    glyph_of_key(self.symbols@, self.board@[i], placed_of(level.original_board.symbols)[layout_cell(self.board@, i)])
            },
    {
        let ghost entries = self.symbols@;
        let mut glyphs = glyphs_new();
        for e in 0..self.symbols.len()
            invariant
                entries == self.symbols@,
                forall|j: int| 0 <= j < e ==> entry_ok(#[trigger] entries[j]),
                forall|k: char| #[trigger] glyphs_of(glyphs).contains_key(k) <==> exists|j: int| 0 <= j < e && entries[j].0 == k,
                forall|k: char| #[trigger] glyphs_of(glyphs).contains_key(k) ==> glyph_of_key(entries, k, glyphs_of(glyphs)[k]),
        {
            let entry = &self.symbols[e];
            let key = entry.0;
            if blank(key) {
                assert(entries[e as int].0 == key);
                return Err(FormatError::AmbiguousKey { key });
            }
            match Symbol::from_pattern(entry.1.as_str()) {
                Err(f) => {
                    assert(entries[e as int].1@ == entry.1@);
                    assert(!fits_pattern(entries[e as int].1@));
                    return Err(f);
                },
                Ok(sym) => {
                    let ghost before = glyphs_of(glyphs);
                    glyphs_insert(&mut glyphs, key, sym);
                    proof {
                        assert(entries[e as int].0 == key);
                        assert(entries[e as int].1@ == entry.1@);
                        assert(fits_pattern(entries[e as int].1@));
                        assert(entry_ok(entries[e as int]));
                        assert forall|k: char| #[trigger] glyphs_of(glyphs).contains_key(k) <==> exists|j: int| 0 <= j < e + 1 && entries[j].0 == k by {
                            if exists|j: int| 0 <= j < e + 1 && entries[j].0 == k {
                                let j = choose|j: int| 0 <= j < e + 1 && entries[j].0 == k;
                                if j < e {
                                    assert(before.contains_key(k));
                                }
                            }
                            if before.contains_key(k) {
                                let j = choose|j: int| 0 <= j < e && entries[j].0 == k;
                                assert(0 <= j < e + 1 && entries[j].0 == k);
                            }
                        }
                    }
                },
            }
        }
        let v = chars_of(self.board.as_str());
        let ghost t = v@;
        let mut symbols = placed_new();
        let mut laid_out: Vec<Coord> = Vec::new();
        let mut x: usize = 0;
        let mut y: usize = 0;
        for i in 0..v.len()
            invariant
                t == v@,
                t == self.board@,
                entries == self.symbols@,
                t.len() < i64::MAX,
                forall|j: int| 0 <= j < entries.len() ==> entry_ok(#[trigger] entries[j]),
                forall|k: char| #[trigger] glyphs_of(glyphs).contains_key(k) <==> has_key(entries, k),
                forall|k: char| #[trigger] glyphs_of(glyphs).contains_key(k) ==> glyph_of_key(entries, k, glyphs_of(glyphs)[k]),
                x == col_of(t, i as int),
                y == line_of(t, i as int),
                forall|j: int| 0 <= j < i && !is_blank(#[trigger] t[j]) ==> has_key(entries, t[j]),
                forall|c: Coord| #[trigger] placed_of(symbols).contains_key(c) <==>
                    exists|j: int| 0 <= j < i && !is_blank(t[j]) && c == layout_cell(t, j),
                forall|c: Coord| #[trigger] laid_out@.contains(c) <==> placed_of(symbols).contains_key(c),
                forall|j: int| 0 <= j < i && !is_blank(#[trigger] t[j]) ==>
                    glyph_of_key(entries, t[j], placed_of(symbols)[layout_cell(t, j)]),
                forall|c: Coord| #[trigger] placed_of(symbols).contains_key(c) ==> 0 <= c.0 < i64::MAX && 0 <= c.1 < i64::MAX,
        {
            proof {
                lemma_position_bounds(t, i as int);
            }
            let c = v[i];
            if c == '\n' {
                y = y + 1;
                x = 0;
            } else {
                if !blank(c) {
                    match glyphs_get(&glyphs, &c) {
                        None => {
                            assert(t[i as int] == c);
                            return Err(FormatError::UnmappedCharacter { key: c, x: x as i64, y: y as i64 });
                        },
                        Some(sym) => {
                            let cell: Coord = (x as i64, y as i64);
                            assert(cell == layout_cell(t, i as int));
                            let ghost before = placed_of(symbols);
                            placed_insert(&mut symbols, cell, sym);
                            let ghost lbefore = laid_out@;
                            laid_out.push(cell);
                            proof {
                                assert(laid_out@ == lbefore.push(cell));
                                assert forall|cc: Coord| #[trigger] laid_out@.contains(cc) <==> placed_of(symbols).contains_key(cc) by {
                                    if laid_out@.contains(cc) && cc != cell {
                                        let w = choose|w: int| 0 <= w < laid_out@.len() && laid_out@[w] == cc;
                                        assert(lbefore[w] == cc);
                                        assert(lbefore.contains(cc));
                                    }
                                    if before.contains_key(cc) {
                                        assert(lbefore.contains(cc));
                                        let w = choose|w: int| 0 <= w < lbefore.len() && lbefore[w] == cc;
                                        assert(laid_out@[w] == cc);
                                    }
                                    if cc == cell {
                                        assert(laid_out@[lbefore.len() as int] == cell);
                                    }
                                }
                                assert forall|j: int| 0 <= j < i && !is_blank(#[trigger] t[j]) implies
                                    glyph_of_key(entries, t[j], placed_of(symbols)[layout_cell(t, j)]) by {
                                    assert(t[j] != '\n');
                                    lemma_cells_distinct(t, j, i as int);
                                }
                            }
                        },
                    }
                }
                x = x + 1;
            }
            proof {
                assert forall|cc: Coord| #[trigger] placed_of(symbols).contains_key(cc) <==>
                    exists|j: int| 0 <= j < i + 1 && !is_blank(t[j]) && cc == layout_cell(t, j) by {
                    if exists|j: int| 0 <= j < i + 1 && !is_blank(t[j]) && cc == layout_cell(t, j) {
                        let j = choose|j: int| 0 <= j < i + 1 && !is_blank(t[j]) && cc == layout_cell(t, j);
                        if j < i {
                            assert(exists|j: int| 0 <= j < i && !is_blank(t[j]) && cc == layout_cell(t, j));
                        }
                    }
                    if placed_of(symbols).contains_key(cc) && cc != layout_cell(t, i as int) {
                        let j = choose|j: int| 0 <= j < i && !is_blank(t[j]) && cc == layout_cell(t, j);
                        assert(0 <= j < i + 1 && !is_blank(t[j]) && cc == layout_cell(t, j));
                    }
                }
                assert forall|j: int| 0 <= j < i + 1 && !is_blank(#[trigger] t[j]) implies has_key(entries, t[j]) by {
                    if j == i {
                        assert(glyphs_of(glyphs).contains_key(t[j]));
                    }
                }
            }
        }
        proof {
            assert forall|k: int| 0 <= k < laid_out.len() implies interior(#[trigger] laid_out@[k]) by {
                assert(laid_out@.contains(laid_out@[k]));
            }
            assert(laid_out@.to_set() =~= layout_cells(t)) by {
                assert forall|cc: Coord| laid_out@.to_set().contains(cc) <==> layout_cells(t).contains(cc) by {
                    if layout_cells(t).contains(cc) {
                        let j = choose|j: int| 0 <= j < t.len() && !is_blank(t[j]) && cc == layout_cell(t, j);
                        assert(placed_of(symbols).contains_key(cc));
                    }
                }
            }
            assert(placed_of(symbols).dom() =~= layout_cells(t)) by {
                assert forall|cc: Coord| placed_of(symbols).dom().contains(cc) <==> layout_cells(t).contains(cc) by {
                    if layout_cells(t).contains(cc) {
                        let j = choose|j: int| 0 <= j < t.len() && !is_blank(t[j]) && cc == layout_cell(t, j);
                    }
                }
            }
        }
        let frags = fragments_of(&laid_out);
        let fragments = fragments_from(&frags);
        let board = Board { symbols, fragments };
        proof {
            assert forall|c: Coord| #[trigger] placed_of(board.symbols).contains_key(c) implies interior(c) by {}
            assert(fragments_partition(placed_of(board.symbols).dom(), fragment_cells(board.fragments@)));
        }
        Ok(Level { id: filename, name: self.name.clone(), original_board: board })
    }
}

} // verus!
