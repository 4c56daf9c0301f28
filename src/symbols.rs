//! Glyphs: 5×5 bitmaps and the part of speech each one stands for.

use vstd::prelude::*;
use crate::coord::{Coord, interior};
use crate::flood::{fragments_of, frag_views, is_component_partition, singleton_indices, lemma_partitions_agree};
use crate::text::{is_blank, blank, line_of, col_of, line_break_at, chars_of};

verus! {

/// The bitmap of the particle that opens every sentence.
pub const START_CODE: u32 = 0b11111_10001_10001_10001_11111;

/// The bitmap of the particle that closes a list of nouns.
pub const COLLATE_CODE: u32 = 0b11111_10001_10101_10001_11111;

/// What a glyph stands for in a sentence.
#[derive(Clone, Copy, Debug, PartialEq, Eq, Hash, Structural)]
pub enum PartOfSpeech {
    /// What every sentence starts with.
    ParticleStart,
    /// Goes after a list of two or more nouns.
    ParticleCollate,
    /// A noun or noun modifier.
    Noun { islands: u8, depth: u8 },
    /// A verb or verb modifier.
    Verb { islands: u8, depth: u8 },
}

/// A glyph: its bitmap and the part of speech read from it.
#[derive(Clone, Copy, Debug, PartialEq, Eq, Hash, Structural)]
pub struct Symbol {
    pub part_of_speech: PartOfSpeech,
    /// The bitmap: bit `5 * row + column` is set where the cell is filled,
    /// rows and columns counted from the top left.
    pub code: u32,
}

/// Why a level's text could not be read.
#[derive(Clone, Copy, Debug, PartialEq, Eq, Structural)]
pub enum FormatError {
    /// A glyph pattern has more than five lines, or a line longer than five
    /// characters.
    PatternTooLarge,
    /// A blank character was used as a glyph key.
    AmbiguousKey { key: char },
    /// A layout character at `(x, y)` has no glyph.
    UnmappedCharacter { key: char, x: i64, y: i64 },
}

/// Every character of the pattern text stands within the 5×5 box: on one of
/// the first five lines, and in one of the first five columns unless it ends
/// its line.
pub open spec fn fits_pattern(s: Seq<char>) -> bool {
    forall|i: int| 0 <= i < s.len() ==> #[trigger] line_of(s, i) < 5 && (col_of(s, i) < 5 || line_break_at(s, i))
}

/// A character at index `i` fills the bitmap cell with index `k`.
pub open spec fn fills(s: Seq<char>, i: int, k: int) -> bool {
    0 <= i < s.len() && !is_blank(s[i]) && col_of(s, i) < 5 && 5 * line_of(s, i) + col_of(s, i) == k
}

/// `code` is the bitmap drawn by the pattern text `s`.
pub open spec fn pattern_code(s: Seq<char>, code: u32) -> bool {
    forall|k: int| 0 <= k < 32 ==> (#[trigger] bit(code, k) <==> exists|i: int| fills(s, i, k))
}

/// Bit `i` of `code` is set.
pub open spec fn bit(code: u32, i: int) -> bool {
    0 <= i < 32 && (code >> (i as u32)) & 1u32 == 1u32
}

/// The cell `(x, y)` of the bitmap is filled.
pub open spec fn cell_filled(code: u32, x: int, y: int) -> bool {
    0 <= x < 5 && 0 <= y < 5 && bit(code, 5 * y + x)
}

/// The filled cells of the bitmap.
pub open spec fn filled_cells(code: u32) -> Set<Coord> {
    Set::new(|c: Coord| cell_filled(code, c.0 as int, c.1 as int))
}

/// The bitmap is unchanged by a half turn about its centre.
pub open spec fn point_symmetric(code: u32) -> bool {
    forall|x: int, y: int| 0 <= x < 5 && 0 <= y < 5 ==> #[trigger] cell_filled(code, x, y) == cell_filled(code, 4 - x, 4 - y)
}

/// How many fragments hold a single cell.
pub open spec fn singleton_count(frags: Seq<Seq<Coord>>) -> nat
    decreases frags.len(),
{
    if frags.len() == 0 {
        0
    } else {
        singleton_count(frags.drop_last()) + if frags.last().len() == 1 { 1nat } else { 0nat }
    }
}

/// The filled cells of `code` form `islands` 4-connected components, of
/// which `depth` are single cells.
pub open spec fn island_counts(code: u32, islands: int, depth: int) -> bool {
    exists|frags: Seq<Seq<Coord>>|
        is_component_partition(filled_cells(code), frags) && frags.len() == islands && singleton_count(frags) == depth
}

/// The part of speech a bitmap stands for.
pub open spec fn classified(code: u32, p: PartOfSpeech) -> bool {
    if code == START_CODE {
        p == PartOfSpeech::ParticleStart
    } else if code == COLLATE_CODE {
        p == PartOfSpeech::ParticleCollate
    } else {
        match p {
            PartOfSpeech::Noun { islands, depth } => point_symmetric(code) && island_counts(code, islands as int, depth as int),
            PartOfSpeech::Verb { islands, depth } => !point_symmetric(code) && island_counts(code, islands as int, depth as int),
            _ => false,
        }
    }
}

proof fn lemma_singletons_bounded(frags: Seq<Seq<Coord>>)
    ensures
        singleton_count(frags) <= frags.len(),
    decreases frags.len(),
{
    if frags.len() > 0 {
        lemma_singletons_bounded(frags.drop_last());
    }
}

proof fn lemma_singleton_count_indices(frags: Seq<Seq<Coord>>)
    ensures
        singleton_indices(frags).finite(),
        singleton_count(frags) == singleton_indices(frags).len(),
    decreases frags.len(),
{
    if frags.len() == 0 {
        assert(singleton_indices(frags) =~= Set::<int>::empty());
    } else {
        let d = frags.drop_last();
        let n = frags.len() - 1;
        lemma_singleton_count_indices(d);
        assert forall|i: int| 0 <= i < n implies #[trigger] d[i] == frags[i] by {}
        if frags.last().len() == 1 {
            assert(singleton_indices(frags) =~= singleton_indices(d).insert(n));
            assert(!singleton_indices(d).contains(n));
        } else {
            assert(singleton_indices(frags) =~= singleton_indices(d));
        }
    }
}

/// The island counts of a bitmap are determined by it.
proof fn lemma_island_counts_unique(code: u32, i1: int, d1: int, i2: int, d2: int)
    requires
        island_counts(code, i1, d1),
        island_counts(code, i2, d2),
    ensures
        i1 == i2,
        d1 == d2,
{
    let a = choose|frags: Seq<Seq<Coord>>|
        is_component_partition(filled_cells(code), frags) && frags.len() == i1 && singleton_count(frags) == d1;
    let b = choose|frags: Seq<Seq<Coord>>|
        is_component_partition(filled_cells(code), frags) && frags.len() == i2 && singleton_count(frags) == d2;
    lemma_partitions_agree(filled_cells(code), a, b);
    lemma_singleton_count_indices(a);
    lemma_singleton_count_indices(b);
}

/// A bitmap stands for exactly one part of speech.
pub proof fn lemma_classification_unique(code: u32, p: PartOfSpeech, q: PartOfSpeech)
    requires
        classified(code, p),
        classified(code, q),
    ensures
        p == q,
{
    if code != START_CODE && code != COLLATE_CODE {
        match (p, q) {
            (PartOfSpeech::Noun { islands: i1, depth: d1 }, PartOfSpeech::Noun { islands: i2, depth: d2 }) => {
                lemma_island_counts_unique(code, i1 as int, d1 as int, i2 as int, d2 as int);
            },
            (PartOfSpeech::Verb { islands: i1, depth: d1 }, PartOfSpeech::Verb { islands: i2, depth: d2 }) => {
                lemma_island_counts_unique(code, i1 as int, d1 as int, i2 as int, d2 as int);
            },
            _ => {},
        }
    }
}

fn test_bit(code: u32, i: u32) -> (r: bool)
    requires
        i < 32,
    ensures
        r == bit(code, i as int),
{
    assert((code & (1u32 << i) != 0u32) == ((code >> i) & 1u32 == 1u32)) by (bit_vector)
        requires
            i < 32,
    ;
    code & (1u32 << i) != 0
}

impl Symbol {
    /// Reads a glyph from up to five lines of up to five characters; blank
    /// characters leave a cell empty and any other fills it.
    pub fn from_pattern(s: &str) -> (r: Result<Symbol, FormatError>)
        ensures
            r is Ok <==> fits_pattern(s@),
            r matches Ok(sym) ==> pattern_code(s@, sym.code) && classified(sym.code, sym.part_of_speech),
            r matches Err(e) ==> e == FormatError::PatternTooLarge,
    {
        let v = chars_of(s);
        let ghost t = v@;
        let mut code: u32 = 0;
        let mut x: usize = 0;
        let mut y: usize = 0;
        assert forall|k: int| 0 <= k < 32 implies !#[trigger] bit(code, k) by {
            let ku = k as u32;
            assert((0u32 >> ku) & 1u32 == 0u32) by (bit_vector);
        }
        for i in 0..v.len()
            invariant
                t == v@,
                t == s@,
                x == col_of(t, i as int),
                y == line_of(t, i as int),
                x <= i,
                y <= i,
                y < 5 || (y == 5 && i > 0 && t[i - 1] == '\n'),
                forall|j: int| 0 <= j < i ==> #[trigger] line_of(t, j) < 5 && (col_of(t, j) < 5 || line_break_at(t, j)),
                forall|k: int| 0 <= k < 32 ==> (#[trigger] bit(code, k) <==> exists|j: int| j < i && fills(t, j, k)),
        {
            let c = v[i];
            let ghost (x0, y0) = (x, y);
            if y >= 5 {
                assert(!(line_of(t, i as int) < 5));
                return Err(FormatError::PatternTooLarge);
            }
            if c == '\n' {
                y = y + 1;
                x = 0;
            } else {
                if x >= 5 && !(c == '\r' && i + 1 < v.len() && v[i + 1] == '\n') {
                    assert(!(col_of(t, i as int) < 5 || line_break_at(t, i as int)));
                    return Err(FormatError::PatternTooLarge);
                }
                if !blank(c) {
                    let b: u32 = (5 * y + x) as u32;
                    let ghost old_code = code;
                    code = code | (1u32 << b);
                    proof {
                        assert forall|k: int| 0 <= k < 32 implies (#[trigger] bit(code, k) <==> bit(old_code, k) || k == b) by {
                            let ku = k as u32;
                            assert(((old_code | (1u32 << b)) >> ku) & 1u32 == 1u32 <==> ((old_code >> ku) & 1u32 == 1u32 || ku == b)) by (bit_vector)
                                requires
                                    ku < 32,
                                    b < 32,
                            ;
                        }
                        assert(fills(t, i as int, b as int));
                    }
                }
                x = x + 1;
            }
            proof {
                assert(x0 == col_of(t, i as int) && y0 == line_of(t, i as int));
                assert(line_of(t, i as int) < 5 && (col_of(t, i as int) < 5 || line_break_at(t, i as int)));
                assert forall|j: int| 0 <= j < i + 1 implies #[trigger] line_of(t, j) < 5 && (col_of(t, j) < 5 || line_break_at(t, j)) by {
                    if j < i {
                    }
                }
                assert forall|k: int| 0 <= k < 32 implies (#[trigger] bit(code, k) <==> exists|j: int| j < i + 1 && fills(t, j, k)) by {
                    if exists|j: int| j < i + 1 && fills(t, j, k) {
                        let j = choose|j: int| j < i + 1 && fills(t, j, k);
                        if j < i {
                            assert(exists|j: int| j < i && fills(t, j, k));
                        }
                    }
                    if exists|j: int| j < i && fills(t, j, k) {
                        let j = choose|j: int| j < i && fills(t, j, k);
                        assert(j < i + 1 && fills(t, j, k));
                    }
                }
            }
        }
        proof {
            assert forall|k: int| 0 <= k < 32 implies (#[trigger] bit(code, k) <==> exists|i: int| fills(t, i, k)) by {
                if exists|i: int| fills(t, i, k) {
                    let i = choose|i: int| fills(t, i, k);
                    assert(i < v.len() && fills(t, i, k));
                }
            }
        }
        Ok(Symbol { part_of_speech: PartOfSpeech::new_from_code(code), code })
    }
}

impl core::str::FromStr for Symbol {
    type Err = FormatError;

    fn from_str(s: &str) -> Result<Symbol, FormatError> {
        Symbol::from_pattern(s)
    }
}

impl PartOfSpeech {
    /// The island count of a noun or verb; zero for a particle.
    pub open spec fn islands(self) -> int {
        match self {
            PartOfSpeech::Noun { islands, .. } => islands as int,
            PartOfSpeech::Verb { islands, .. } => islands as int,
            _ => 0,
        }
    }

    /// The count of single-cell islands of a noun or verb; zero for a particle.
    pub open spec fn depth(self) -> int {
        match self {
            PartOfSpeech::Noun { depth, .. } => depth as int,
            PartOfSpeech::Verb { depth, .. } => depth as int,
            _ => 0,
        }
    }

    /// Reads the part of speech from a bitmap: the two particle bitmaps by
    /// exact match; otherwise a noun if the bitmap is symmetric under a half
    /// turn and a verb if not, with its island count and the number of
    /// islands that are a single cell.
    pub fn new_from_code(code: u32) -> (r: PartOfSpeech)
        ensures
            classified(code, r),
            r.depth() <= r.islands(),
    {
        if code == START_CODE {
            return PartOfSpeech::ParticleStart;
        } else if code == COLLATE_CODE {
            return PartOfSpeech::ParticleCollate;
        }
        // the filled cells, row by row
        let mut cells: Vec<Coord> = Vec::new();
        let mut maybe_noun = true;
        for y in 0..5u32
            invariant
                cells.len() <= 5 * y,
                forall|i: int| 0 <= i < cells.len() ==> interior(#[trigger] cells[i]),
                forall|c: Coord| #[trigger] cells@.contains(c) <==> cell_filled(code, c.0 as int, c.1 as int) && c.1 < y,
                maybe_noun <==> forall|x: int, yy: int| 0 <= x < 5 && 0 <= yy < y ==>
                    #[trigger] cell_filled(code, x, yy) == cell_filled(code, 4 - x, 4 - yy),
        {
            for x in 0..5u32
                invariant
                    y < 5,
                    cells.len() <= 5 * y + x,
                    forall|i: int| 0 <= i < cells.len() ==> interior(#[trigger] cells[i]),
                    forall|c: Coord| #[trigger] cells@.contains(c) <==>
                        cell_filled(code, c.0 as int, c.1 as int) && (c.1 < y || (c.1 == y && c.0 < x)),
                    maybe_noun <==> forall|xx: int, yy: int| 0 <= xx < 5 && 0 <= yy < 5 && (yy < y || (yy == y && xx < x)) ==>
                        #[trigger] cell_filled(code, xx, yy) == cell_filled(code, 4 - xx, 4 - yy),
            {
                let present = test_bit(code, 5 * y + x);
                let opposite = test_bit(code, 24 - (5 * y + x));
                assert(cell_filled(code, 4 - x, 4 - y) == bit(code, 24 - (5 * y + x)));
                assert(cell_filled(code, x as int, y as int) == present);
                let ghost was_noun = maybe_noun;
                if present != opposite {
                    maybe_noun = false;
                }
                proof {
                    let upto = |xx: int, yy: int| 0 <= xx < 5 && 0 <= yy < 5 && (yy < y || (yy == y && xx < x + 1));
                    if maybe_noun {
                        assert forall|xx: int, yy: int| upto(xx, yy) implies
                            #[trigger] cell_filled(code, xx, yy) == cell_filled(code, 4 - xx, 4 - yy) by {
                            if !(xx == x && yy == y) {
                                assert(yy < y || (yy == y && xx < x));
                            }
                        }
                    } else if was_noun {
                        assert(!(cell_filled(code, x as int, y as int) == cell_filled(code, 4 - x, 4 - y)));
                    }
                }
                let ghost before = cells@;
                if present {
                    cells.push((x as i64, y as i64));
                }
                proof {
                    assert forall|c: Coord| #[trigger] cells@.contains(c) <==>
                        cell_filled(code, c.0 as int, c.1 as int) && (c.1 < y || (c.1 == y && c.0 < x + 1)) by {
                        if present {
                            assert(cells@ == before.push((x as i64, y as i64)));
                            assert(cells@[before.len() as int] == (x as i64, y as i64));
                            if cells@.contains(c) && c != (x as i64, y as i64) {
                                let j = choose|j: int| 0 <= j < cells@.len() && cells@[j] == c;
                                assert(before[j] == c);
                            }
                            if before.contains(c) {
                                let j = choose|j: int| 0 <= j < before.len() && before[j] == c;
                                assert(cells@[j] == c);
                            }
                        }
                    }
                }
            }
            proof {
                assert forall|c: Coord| #[trigger] cells@.contains(c) <==> cell_filled(code, c.0 as int, c.1 as int) && c.1 < y + 1 by {
                    if cell_filled(code, c.0 as int, c.1 as int) && c.1 == y {
                        assert(c.0 < 5);
                    }
                }
            }
        }
        proof {
            assert(cells@.to_set() =~= filled_cells(code)) by {
                assert forall|c: Coord| cells@.to_set().contains(c) <==> filled_cells(code).contains(c) by {
                    if cell_filled(code, c.0 as int, c.1 as int) {
                        assert(c.1 < 5);
                    }
                }
            }
            assert(maybe_noun <==> point_symmetric(code));
        }
        let frags = fragments_of(&cells);
        let mut depth: u8 = 0;
        for i in 0..frags.len()
            invariant
                frags.len() <= 25,
                depth == singleton_count(frag_views(frags@).take(i as int)),
                depth <= i,
        {
            proof {
                let fs = frag_views(frags@);
                assert(fs.take(i + 1).drop_last() == fs.take(i as int));
            }
            if frags[i].len() == 1 {
                depth = depth + 1;
            }
        }
        let islands = frags.len() as u8;
        proof {
            let fs = frag_views(frags@);
            assert(fs.take(frags.len() as int) == fs);
            lemma_singletons_bounded(fs);
        }
        if maybe_noun {
            PartOfSpeech::Noun { islands, depth }
        } else {
            PartOfSpeech::Verb { islands, depth }
        }
    }
}

} // verus!
