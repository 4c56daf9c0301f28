//! The playfield: glyphs on cells, held together in rigid fragments.

use vstd::prelude::*;
use ahash::{AHashMap, AHashSet};
use crate::coord::{Coord, interior};
use crate::flood::{frag_views, fragments_cover, fragments_disjoint};
use crate::grammar::{GrammarError, check_from_start, sentence, cells_interior};
use crate::hashed::{
    members_of, coord_set_new, coord_set_insert, coord_set_contains, placed_of, placed_get, placed_keys,
    placed_contains, placed_insert, placed_remove, placed_new, Fragment, cells_in,
};
use crate::symbols::{PartOfSpeech, Symbol};

verus! {

/// The cell holds a start particle.
pub open spec fn is_start(m: Map<Coord, Symbol>, c: Coord) -> bool {
    m.contains_key(c) && m[c].part_of_speech == PartOfSpeech::ParticleStart
}

/// The cells that belong to some valid sentence.
pub open spec fn covered(m: Map<Coord, Symbol>) -> Set<Coord> {
    Set::new(|c: Coord| exists|s: Coord| #[trigger] is_start(m, s) && sentence(m, s) is Ok && sentence(m, s)->Ok_0.contains(c))
}

/// Every sentence is valid and every glyph belongs to one.
pub open spec fn solved(m: Map<Coord, Symbol>) -> bool {
    &&& forall|s: Coord| #[trigger] is_start(m, s) ==> sentence(m, s) is Ok
    &&& m.dom().subset_of(covered(m))
}

/// `e` is the fault of some invalid sentence.
pub open spec fn start_fault(m: Map<Coord, Symbol>, e: GrammarError) -> bool {
    exists|s: Coord| #[trigger] is_start(m, s) && sentence(m, s) == Err::<Seq<Coord>, GrammarError>(e)
}

/// What `check_grammar` reports about a board: the first `k` errors are the
/// faults of the invalid sentences (each one listed), and a last error lists
/// the glyphs outside every valid sentence, when there are any.
pub open spec fn reports_faults(m: Map<Coord, Symbol>, errors: Seq<GrammarError>, k: int) -> bool {
    &&& 0 <= k <= errors.len()
    &&& forall|i: int| 0 <= i < k ==> start_fault(m, #[trigger] errors[i])
    &&& forall|s: Coord| #[trigger] is_start(m, s) && sentence(m, s) is Err ==>
        exists|i: int| 0 <= i < k && errors[i] == sentence(m, s)->Err_0
    &&& m.dom().subset_of(covered(m)) ==> errors.len() == k
    &&& !m.dom().subset_of(covered(m)) ==> errors.len() == k + 1 && errors[k] is Leftover
        && errors[k]->Leftover_at@.to_set() == m.dom().difference(covered(m))
}

/// The fragments split the occupied cells exactly: no fragment repeats a
/// cell, each cell is in exactly one fragment, and no fragment holds an empty
/// cell.
pub open spec fn fragments_partition(cells: Set<Coord>, frags: Seq<Seq<Coord>>) -> bool {
    &&& forall|i: int| 0 <= i < frags.len() ==> #[trigger] frags[i].no_duplicates()
    &&& fragments_cover(cells, frags)
    &&& fragments_disjoint(frags)
}

/// Columns of the playable area, counted from 0.
pub const BOARD_WIDTH: i64 = 13;

/// Rows of the playable area, counted from 0.
pub const BOARD_HEIGHT: i64 = 13;

/// Where a held cell at `p` lands when the piece picked up at `origin` is put
/// down at `target`.
pub open spec fn moved(p: Coord, origin: Coord, target: Coord) -> (int, int) {
    (p.0 + target.0 - origin.0, p.1 + target.1 - origin.1)
}

/// The cell lies in the playable area.
pub open spec fn in_bounds(q: (int, int)) -> bool {
    0 <= q.0 < BOARD_WIDTH && 0 <= q.1 < BOARD_HEIGHT
}

/// The cell a position in the playable area names.
pub open spec fn as_coord(q: (int, int)) -> Coord {
    (q.0 as i64, q.1 as i64)
}

/// Every held cell lands in the playable area on an empty cell.
pub open spec fn placeable(m: Map<Coord, Symbol>, held: Seq<(Coord, Symbol)>, origin: Coord, target: Coord) -> bool {
    forall|i: int| 0 <= i < held.len() ==> in_bounds(#[trigger] moved(held[i].0, origin, target))
        && !m.contains_key(as_coord(moved(held[i].0, origin, target)))
}

/// The positions of the held cells.
pub open spec fn held_cells(held: Seq<(Coord, Symbol)>) -> Seq<Coord> {
    held.map_values(|p: (Coord, Symbol)| p.0)
}

/// `after` is `before` with fragment `idx` taken off, and `held` lists that
/// fragment's cells, in order, with the glyphs that stood on them.
pub open spec fn lifted_from(before: Board, after: Board, idx: int, held: Seq<(Coord, Symbol)>) -> bool {
    &&& 0 <= idx < before.fragments.len()
    &&& held_cells(held) == cells_in(before.fragments@[idx])
    &&& forall|i: int| 0 <= i < held.len() ==> #[trigger] held[i].1 == placed_of(before.symbols)[held[i].0]
    &&& after.fragments@ == before.fragments@.remove(idx)
    &&& placed_of(after.symbols) == placed_of(before.symbols).remove_keys(cells_in(before.fragments@[idx]).to_set())
}

/// `after` is `before` with the held cells, picked up at `origin`, put down at
/// `target` as one new fragment.
pub open spec fn placed_onto(before: Board, after: Board, held: Seq<(Coord, Symbol)>, origin: Coord, target: Coord) -> bool {
    &&& forall|i: int| 0 <= i < held.len() ==>
        #[trigger] placed_of(after.symbols)[as_coord(moved(held[i].0, origin, target))] == held[i].1
    &&& forall|c: Coord| #[trigger] placed_of(after.symbols).contains_key(c) <==>
        placed_of(before.symbols).contains_key(c) || exists|i: int| 0 <= i < held.len() && c == as_coord(#[trigger] moved(held[i].0, origin, target))
    &&& forall|c: Coord| #[trigger] placed_of(before.symbols).contains_key(c) ==>
        placed_of(after.symbols)[c] == placed_of(before.symbols)[c]
    &&& after.fragments@.len() == before.fragments@.len() + 1
    &&& forall|i: int| 0 <= i < before.fragments.len() ==> #[trigger] after.fragments@[i] == before.fragments@[i]
    &&& cells_in(after.fragments@.last()) == Seq::new(held.len() as nat, |i: int| as_coord(moved(held[i].0, origin, target)))
}

/// The cells of each fragment.
pub open spec fn fragment_cells(v: Seq<Fragment>) -> Seq<Seq<Coord>> {
    v.map_values(|f: Fragment| cells_in(f))
}

impl Fragment {
    /// A fragment of the given cells, in order.
    pub fn from_cells(v: &Vec<Coord>) -> (r: Fragment)
        ensures
            cells_in(r) == v@,
    {
        let mut f = Fragment::empty();
        for i in 0..v.len()
            invariant
                cells_in(f) == v@.take(i as int),
        {
            f.push(v[i]);
            proof {
                assert(cells_in(f) =~= v@.take(i + 1));
            }
        }
        proof {
            assert(v@.take(v.len() as int) =~= v@);
        }
        f
    }

    /// The fragment's cells, in order.
    pub fn cells(&self) -> (r: Vec<Coord>)
        ensures
            r@ == cells_in(*self),
    {
        let mut v: Vec<Coord> = Vec::new();
        for i in 0..self.len()
            invariant
                v@ == cells_in(*self).take(i as int),
        {
            v.push(self.get(i));
            proof {
                assert(v@ =~= cells_in(*self).take(i + 1));
            }
        }
        proof {
            assert(cells_in(*self).take(cells_in(*self).len() as int) =~= cells_in(*self));
        }
        v
    }
}

/// Fragments holding the given lists of cells, in order.
pub fn fragments_from(frags: &Vec<Vec<Coord>>) -> (r: Vec<Fragment>)
    ensures
        fragment_cells(r@) == frag_views(frags@),
{
    let mut out: Vec<Fragment> = Vec::new();
    for f in 0..frags.len()
        invariant
            out.len() == f,
            forall|k: int| 0 <= k < f ==> #[trigger] cells_in(out@[k]) == frags@[k]@,
    {
        let ghost before = out@;
        out.push(Fragment::from_cells(&frags[f]));
        proof {
            assert forall|k: int| 0 <= k < f + 1 implies #[trigger] cells_in(out@[k]) == frags@[k]@ by {
                if k < f {
                    assert(out@[k] == before[k]);
                }
            }
        }
    }
    proof {
        assert(fragment_cells(out@) =~= frag_views(frags@));
    }
    out
}

/// The playfield the player moves glyphs around on.
pub struct Board {
    /// The glyph on each occupied cell.
    pub symbols: AHashMap<Coord, Symbol>,
    /// The groups of cells that move together.
    pub fragments: Vec<Fragment>,
}

impl Board {
    /// The board's invariant: its cells can be stepped from, and its fragments
    /// split the occupied cells exactly.
    pub open spec fn wf(&self) -> bool {
        &&& cells_interior(placed_of(self.symbols))
        &&& fragments_partition(placed_of(self.symbols).dom(), fragment_cells(self.fragments@))
    }

    /// Reads every sentence on the board.
    ///
    /// Returns the cells of the valid sentences, and the faults found: one for
    /// each invalid sentence, then one listing the glyphs outside every valid
    /// sentence, if there are any. The board is solved exactly when no fault
    /// is reported.
    pub fn check_grammar(&self) -> (r: (Vec<Coord>, Vec<GrammarError>))
        requires
            cells_interior(placed_of(self.symbols)),
        ensures
            r.0@.to_set() == covered(placed_of(self.symbols)),
            exists|k: int| reports_faults(placed_of(self.symbols), r.1@, k),
            r.1.len() == 0 <==> solved(placed_of(self.symbols)),
            r.1.len() == 0 ==> r.0@.to_set() == placed_of(self.symbols).dom(),
            (r.1.len() == 0 && r.0@.to_set() == placed_of(self.symbols).dom()) <==> solved(placed_of(self.symbols)),
    {
        let ghost m = placed_of(self.symbols);
        let keys = placed_keys(&self.symbols);
        let (okays, ok_set, mut errors) = read_sentences(&self.symbols, &keys);
        proof {
            assert(okays@.to_set() =~= covered(m)) by {
                assert forall|c: Coord| okays@.contains(c) <==> covered(m).contains(c) by {
                    if covered(m).contains(c) {
                        let s = choose|s: Coord| #[trigger] is_start(m, s) && sentence(m, s) is Ok && sentence(m, s)->Ok_0.contains(c);
                        assert(keys@.to_set().contains(s));
                        let j = choose|j: int| 0 <= j < keys.len() && keys@[j] == s;
                        assert(is_start(m, keys@[j]));
                    }
                }
            }
            assert forall|s: Coord| #[trigger] is_start(m, s) && sentence(m, s) is Err implies
                exists|e: int| 0 <= e < errors.len() && errors@[e] == sentence(m, s)->Err_0 by {
                assert(keys@.to_set().contains(s));
                let j = choose|j: int| 0 <= j < keys.len() && keys@[j] == s;
                assert(is_start(m, keys@[j]));
            }
        }
        let ghost k = errors.len() as int;
        let remaining = cells_missing(&keys, &ok_set);
        proof {
            assert(remaining@.to_set() =~= m.dom().difference(covered(m))) by {
                assert forall|c: Coord| remaining@.contains(c) <==> m.dom().difference(covered(m)).contains(c) by {
                    assert(okays@.to_set().contains(c) == okays@.contains(c));
                    assert(keys@.to_set().contains(c) == keys@.contains(c));
                }
            }
            assert(covered(m).subset_of(m.dom())) by {
                assert forall|c: Coord| covered(m).contains(c) implies m.dom().contains(c) by {
                    assert(okays@.to_set().contains(c));
                }
            }
        }
        let ghost errors_before = errors@;
        if remaining.len() > 0 {
            errors.push(GrammarError::Leftover { at: remaining });
            proof {
                assert(errors@ == errors_before.push(errors@[k]));
                assert(!m.dom().subset_of(covered(m))) by {
                    assert(remaining@.to_set().contains(remaining@[0]));
                }
            }
        } else {
            proof {
                assert(m.dom().subset_of(covered(m))) by {
                    assert forall|c: Coord| m.dom().contains(c) implies covered(m).contains(c) by {
                        if !covered(m).contains(c) {
                            assert(remaining@.to_set().contains(c));
                        }
                    }
                }
            }
        }
        proof {
            assert(reports_faults(m, errors@, k)) by {
                assert forall|x: int| 0 <= x < k implies start_fault(m, #[trigger] errors@[x]) by {
                    assert(errors@[x] == errors_before[x]);
                }
                assert forall|s: Coord| #[trigger] is_start(m, s) && sentence(m, s) is Err implies
                    exists|x: int| 0 <= x < k && errors@[x] == sentence(m, s)->Err_0 by {
                    let x = choose|x: int| 0 <= x < errors_before.len() && errors_before[x] == sentence(m, s)->Err_0;
                    assert(errors@[x] == errors_before[x]);
                }
            }
            if errors.len() == 0 {
                assert(forall|s: Coord| #[trigger] is_start(m, s) ==> sentence(m, s) is Ok);
                assert(okays@.to_set() =~= m.dom());
            }
            if solved(m) {
                assert(m.dom().subset_of(covered(m)));
                if k > 0 {
                    assert(start_fault(m, errors@[0]));
                }
                assert(errors.len() == 0);
            }
        }
        let r = (okays, errors);
        assert(reports_faults(m, r.1@, k));
        r
    }
}

impl Board {
    /// The index of the fragment that holds `c`, if any.
    pub fn fragment_at(&self, c: Coord) -> (r: Option<usize>)
        ensures
            r matches Some(i) ==> i < self.fragments.len() && cells_in(self.fragments@[i as int]).contains(c),
            r is None ==> forall|i: int| 0 <= i < self.fragments.len() ==> !(#[trigger] cells_in(self.fragments@[i])).contains(c),
    {
        for i in 0..self.fragments.len()
            invariant
                forall|j: int| 0 <= j < i ==> !(#[trigger] cells_in(self.fragments@[j])).contains(c),
        {
            let frag = &self.fragments[i];
            let mut found = false;
            for t in 0..frag.len()
                invariant
                    found <==> exists|u: int| 0 <= u < t && cells_in(*frag)[u] == c,
            {
                let here = frag.get(t);
                if here.0 == c.0 && here.1 == c.1 {
                    found = true;
                }
            }
            if found {
                return Some(i);
            }
        }
        None
    }

    /// Takes the fragment at `idx` off the board: its cells leave both the
    /// glyph map and the fragment list. Returns each of its cells with the
    /// glyph that stood there, in the fragment's order; nothing if `idx` names
    /// no fragment.
    pub fn lift(&mut self, idx: usize) -> (r: Vec<(Coord, Symbol)>)
        requires
            old(self).wf(),
        ensures
            final(self).wf(),
            idx >= old(self).fragments.len() ==> r.len() == 0 && placed_of(final(self).symbols) == placed_of(old(self).symbols)
                && final(self).fragments@ == old(self).fragments@,
            idx < old(self).fragments.len() ==> lifted_from(*old(self), *final(self), idx as int, r@),
    {
        if idx >= self.fragments.len() {
            return Vec::new();
        }
        let ghost m0 = placed_of(self.symbols);
        let ghost fs0 = fragment_cells(self.fragments@);
        let ghost v0 = self.fragments@;
        let frag = self.fragments.remove(idx);
        proof {
            assert(fs0[idx as int] == cells_in(frag));
            assert forall|u: int| 0 <= u < frag.len() implies #[trigger] m0.contains_key(cells_in(frag)[u]) by {
                assert(fs0[idx as int].contains(cells_in(frag)[u]));
            }
        }
        let mut out: Vec<(Coord, Symbol)> = Vec::new();
        for t in 0..frag.len()
            invariant
                self.fragments@ == v0.remove(idx as int),
                fs0 == fragment_cells(v0),
                idx < v0.len(),
                cells_in(frag) == fs0[idx as int],
                cells_interior(m0),
                fragments_partition(m0.dom(), fs0),
                cells_in(frag).no_duplicates(),
                forall|u: int| 0 <= u < frag.len() ==> #[trigger] m0.contains_key(cells_in(frag)[u]),
                placed_of(self.symbols) == m0.remove_keys(cells_in(frag).take(t as int).to_set()),
                held_cells(out@) == cells_in(frag).take(t as int),
                forall|i: int| 0 <= i < out.len() ==> #[trigger] out@[i].1 == m0[out@[i].0],
        {
            let c = frag.get(t);
            proof {
                assert(!cells_in(frag).take(t as int).contains(c)) by {
                    if cells_in(frag).take(t as int).contains(c) {
                        let u = choose|u: int| 0 <= u < t && cells_in(frag).take(t as int)[u] == c;
                        assert(cells_in(frag)[u] == cells_in(frag)[t as int]);
                    }
                }
                assert(m0.contains_key(cells_in(frag)[t as int]));
            }
            let ghost before = out@;
            match placed_remove(&mut self.symbols, &c) {
                Some(s) => {
                    out.push((c, s));
                    proof {
                        let a = cells_in(frag).take(t as int);
                        let b = cells_in(frag).take(t + 1);
                        assert(b == a.push(c));
                        assert forall|x: Coord| b.contains(x) <==> a.contains(x) || x == c by {
                            if b.contains(x) {
                                let u = choose|u: int| 0 <= u < b.len() && b[u] == x;
                                if u < t {
                                    assert(a[u] == x);
                                }
                            }
                            if a.contains(x) {
                                let u = choose|u: int| 0 <= u < a.len() && a[u] == x;
                                assert(b[u] == x);
                            }
                            if x == c {
                                assert(b[t as int] == c);
                            }
                        }
                        assert(b.to_set() =~= a.to_set().insert(c));
                        assert(placed_of(self.symbols) =~= m0.remove_keys(cells_in(frag).take(t + 1).to_set()));
                        assert(held_cells(out@) =~= cells_in(frag).take(t + 1)) by {
                            assert(out@ == before.push((c, s)));
                            assert forall|u: int| 0 <= u < t + 1 implies held_cells(out@)[u] == cells_in(frag).take(t + 1)[u] by {
                                if u < t {
                                    assert(out@[u] == before[u]);
                                    assert(held_cells(before)[u] == cells_in(frag).take(t as int)[u]);
                                }
                            }
                        }
                        assert forall|i: int| 0 <= i < out.len() implies #[trigger] out@[i].1 == m0[out@[i].0] by {
                            if i < before.len() {
                                assert(out@[i] == before[i]);
                            }
                        }
                    }
                },
                None => {
                    assert(false);
                },
            }
        }
        proof {
            assert(cells_in(frag).take(frag.len() as int) == cells_in(frag));
            let m1 = placed_of(self.symbols);
            let fs1 = fragment_cells(self.fragments@);
            assert(self.fragments@ == v0.remove(idx as int));
            assert(fs1 =~= fs0.remove(idx as int)) by {
                assert forall|i: int| 0 <= i < fs1.len() implies fs1[i] == fs0.remove(idx as int)[i] by {
                    if i < idx {
                        assert(self.fragments@[i] == v0[i]);
                    } else {
                        assert(self.fragments@[i] == v0[i + 1]);
                    }
                }
            }
            assert forall|i: int| 0 <= i < fs1.len() implies #[trigger] fs1[i] == (if i < idx { fs0[i] } else { fs0[i + 1] }) by {}
            assert forall|c: Coord| #[trigger] m1.contains_key(c) implies interior(c) by {
                assert(m0.contains_key(c));
            }
            assert forall|i: int| 0 <= i < fs1.len() implies #[trigger] fs1[i].no_duplicates() by {
                if i >= idx {
                    assert(fs0[i + 1].no_duplicates());
                } else {
                    assert(fs0[i].no_duplicates());
                }
            }
            assert forall|i: int, c: Coord| 0 <= i < fs1.len() && #[trigger] fs1[i].contains(c) implies m1.dom().contains(c) by {
                let j = if i < idx { i } else { i + 1 };
                assert(fs0[j].contains(c));
                if cells_in(frag).contains(c) {
                    assert(fs0[idx as int].contains(c));
                }
            }
            assert forall|c: Coord| #[trigger] m1.dom().contains(c) implies exists|i: int| 0 <= i < fs1.len() && #[trigger] fs1[i].contains(c) by {
                assert(m0.dom().contains(c));
                let j = choose|j: int| 0 <= j < fs0.len() && #[trigger] fs0[j].contains(c);
                if j == idx {
                    assert(cells_in(frag).to_set().contains(c));
                } else if j < idx {
                    assert(fs1[j].contains(c));
                } else {
                    assert(fs1[j - 1].contains(c));
                }
            }
            assert forall|i: int, k: int, c: Coord|
                0 <= i < fs1.len() && 0 <= k < fs1.len() && #[trigger] fs1[i].contains(c) && #[trigger] fs1[k].contains(c) implies i == k by {
                let ji = if i < idx { i } else { i + 1 };
                let jk = if k < idx { k } else { k + 1 };
                assert(fs0[ji].contains(c) && fs0[jk].contains(c));
            }
        }
        out
    }

    /// Whether the held cells, picked up at `origin`, can be put down at
    /// `target`: each must land in the playable area on an empty cell.
    pub fn can_place(&self, held: &Vec<(Coord, Symbol)>, origin: Coord, target: Coord) -> (r: bool)
        ensures
            r == placeable(placed_of(self.symbols), held@, origin, target),
    {
        for i in 0..held.len()
            invariant
                forall|j: int| 0 <= j < i ==> in_bounds(#[trigger] moved(held@[j].0, origin, target))
                    && !placed_of(self.symbols).contains_key(as_coord(moved(held@[j].0, origin, target))),
        {
            let p = held[i].0;
            let x: i128 = p.0 as i128 + target.0 as i128 - origin.0 as i128;
            let y: i128 = p.1 as i128 + target.1 as i128 - origin.1 as i128;
            assert(moved(held@[i as int].0, origin, target) == (x as int, y as int));
            if !(0 <= x && x < BOARD_WIDTH as i128 && 0 <= y && y < BOARD_HEIGHT as i128) {
                return false;
            }
            if placed_contains(&self.symbols, &(x as i64, y as i64)) {
                return false;
            }
        }
        true
    }

    /// Puts the held cells, picked up at `origin`, down at `target`, and makes
    /// them one fragment. Only for a placement that `can_place` allows, of
    /// cells at distinct positions.
    pub fn place(&mut self, held: &Vec<(Coord, Symbol)>, origin: Coord, target: Coord)
        requires
            old(self).wf(),
            placeable(placed_of(old(self).symbols), held@, origin, target),
            held_cells(held@).no_duplicates(),
        ensures
            final(self).wf(),
            placed_onto(*old(self), *final(self), held@, origin, target),
    {
        let ghost m0 = placed_of(self.symbols);
        let ghost fs0 = fragment_cells(self.fragments@);
        let ghost dest = Seq::new(held.len() as nat, |i: int| as_coord(moved(held@[i].0, origin, target)));
        proof {
            assert forall|i: int, j: int| 0 <= i < held.len() && 0 <= j < held.len() && i != j implies dest[i] != dest[j] by {
                assert(held_cells(held@)[i] == held@[i].0);
                assert(held_cells(held@)[j] == held@[j].0);
                assert(in_bounds(moved(held@[i].0, origin, target)));
                assert(in_bounds(moved(held@[j].0, origin, target)));
            }
        }
        let mut fragment = Fragment::empty();
        for i in 0..held.len()
            invariant
                m0 == placed_of(old(self).symbols),
                fs0 == fragment_cells(old(self).fragments@),
                self.fragments@ == old(self).fragments@,
                placeable(m0, held@, origin, target),
                forall|a: int, b: int| 0 <= a < held.len() && 0 <= b < held.len() && a != b ==> dest[a] != dest[b],
                dest == Seq::new(held.len() as nat, |i: int| as_coord(moved(held@[i].0, origin, target))),
                cells_in(fragment) == dest.take(i as int),
                forall|c: Coord| #[trigger] placed_of(self.symbols).contains_key(c) <==>
                    m0.contains_key(c) || exists|j: int| 0 <= j < i && c == dest[j],
                forall|j: int| 0 <= j < i ==> #[trigger] placed_of(self.symbols)[dest[j]] == held@[j].1,
                forall|c: Coord| #[trigger] m0.contains_key(c) ==> placed_of(self.symbols)[c] == m0[c],
        {
            let (p, sym) = held[i];
            let x: i128 = p.0 as i128 + target.0 as i128 - origin.0 as i128;
            let y: i128 = p.1 as i128 + target.1 as i128 - origin.1 as i128;
            proof {
                assert(moved(held@[i as int].0, origin, target) == (x as int, y as int));
                assert(in_bounds(moved(held@[i as int].0, origin, target)));
            }
            let c: Coord = (x as i64, y as i64);
            assert(c == dest[i as int]);
            let ghost before = placed_of(self.symbols);
            placed_insert(&mut self.symbols, c, sym);
            let ghost fbefore = cells_in(fragment);
            fragment.push(c);
            proof {
                assert(cells_in(fragment) =~= dest.take(i + 1));
                assert(!m0.contains_key(c));
                assert forall|cc: Coord| #[trigger] placed_of(self.symbols).contains_key(cc) <==>
                    m0.contains_key(cc) || exists|j: int| 0 <= j < i + 1 && cc == dest[j] by {
                    if exists|j: int| 0 <= j < i + 1 && cc == dest[j] {
                        let j = choose|j: int| 0 <= j < i + 1 && cc == dest[j];
                        if j < i {
                            assert(before.contains_key(cc));
                        }
                    }
                    if before.contains_key(cc) && !m0.contains_key(cc) && cc != c {
                        let j = choose|j: int| 0 <= j < i && cc == dest[j];
                        assert(0 <= j < i + 1 && cc == dest[j]);
                    }
                }
                assert forall|j: int| 0 <= j < i + 1 implies #[trigger] placed_of(self.symbols)[dest[j]] == held@[j].1 by {
                    if j < i {
                        assert(dest[j] != dest[i as int]);
                    }
                }
                assert forall|cc: Coord| #[trigger] m0.contains_key(cc) implies placed_of(self.symbols)[cc] == m0[cc] by {
                    assert(cc != c);
                }
            }
        }
        proof {
            assert(cells_in(fragment) == dest.take(held.len() as int));
            assert(dest.take(held.len() as int) =~= dest);
        }
        self.fragments.push(fragment);
        proof {
            let m1 = placed_of(self.symbols);
            let fs1 = fragment_cells(self.fragments@);
            let n0 = fs0.len();
            assert(fs1 =~= fs0.push(dest));
            assert forall|c: Coord| #[trigger] m1.contains_key(c) implies interior(c) by {
                if !m0.contains_key(c) {
                    let j = choose|j: int| 0 <= j < held.len() && c == dest[j];
                    assert(in_bounds(moved(held@[j].0, origin, target)));
                }
            }
            assert(dest.no_duplicates());
            assert forall|i: int| 0 <= i < fs1.len() implies #[trigger] fs1[i].no_duplicates() by {
                if i < n0 {
                    assert(fs1[i] == fs0[i]);
                }
            }
            assert forall|i: int, c: Coord| 0 <= i < fs1.len() && #[trigger] fs1[i].contains(c) implies m1.dom().contains(c) by {
                if i < n0 {
                    assert(fs1[i] == fs0[i]);
                    assert(m0.dom().contains(c));
                } else {
                    let j = choose|j: int| 0 <= j < dest.len() && dest[j] == c;
                }
            }
            assert forall|c: Coord| #[trigger] m1.dom().contains(c) implies exists|i: int| 0 <= i < fs1.len() && #[trigger] fs1[i].contains(c) by {
                if m0.contains_key(c) {
                    let j = choose|j: int| 0 <= j < fs0.len() && #[trigger] fs0[j].contains(c);
                    assert(fs1[j] == fs0[j]);
                } else {
                    let j = choose|j: int| 0 <= j < held.len() && c == dest[j];
                    assert(fs1[n0 as int] == dest);
                    assert(dest.contains(c));
                }
            }
            assert forall|i: int, k: int, c: Coord|
                0 <= i < fs1.len() && 0 <= k < fs1.len() && #[trigger] fs1[i].contains(c) && #[trigger] fs1[k].contains(c) implies i == k by {
                if i < n0 && k < n0 {
                    assert(fs1[i] == fs0[i]);
                    assert(fs1[k] == fs0[k]);
                } else if i < n0 {
                    assert(fs1[i] == fs0[i]);
                    assert(m0.contains_key(c));
                    let j = choose|j: int| 0 <= j < dest.len() && dest[j] == c;
                    assert(!m0.contains_key(as_coord(moved(held@[j].0, origin, target))));
                } else if k < n0 {
                    assert(fs1[k] == fs0[k]);
                    assert(m0.contains_key(c));
                    let j = choose|j: int| 0 <= j < dest.len() && dest[j] == c;
                    assert(!m0.contains_key(as_coord(moved(held@[j].0, origin, target))));
                }
            }
            assert forall|i: int| 0 <= i < old(self).fragments.len() implies #[trigger] self.fragments@[i] == old(self).fragments@[i] by {}
            assert forall|c: Coord| #[trigger] m1.contains_key(c) <==>
                m0.contains_key(c) || exists|i: int| 0 <= i < held.len() && c == as_coord(#[trigger] moved(held@[i].0, origin, target)) by {
                if exists|i: int| 0 <= i < held.len() && c == as_coord(#[trigger] moved(held@[i].0, origin, target)) {
                    let i = choose|i: int| 0 <= i < held.len() && c == as_coord(#[trigger] moved(held@[i].0, origin, target));
                    assert(c == dest[i]);
                }
                if m1.contains_key(c) && !m0.contains_key(c) {
                    let j = choose|j: int| 0 <= j < held.len() && c == dest[j];
                    assert(c == as_coord(moved(held@[j].0, origin, target)));
                }
            }
            assert forall|i: int| 0 <= i < held.len() implies
                #[trigger] m1[as_coord(moved(held@[i].0, origin, target))] == held@[i].1 by {
                assert(dest[i] == as_coord(moved(held@[i].0, origin, target)));
            }
        }
    }
}

impl Board {
    /// A copy of the board.
    pub fn duplicate(&self) -> (r: Board)
        ensures
            placed_of(r.symbols) == placed_of(self.symbols),
            fragment_cells(r.fragments@) == fragment_cells(self.fragments@),
    {
        let keys = placed_keys(&self.symbols);
        let mut symbols = placed_new();
        for i in 0..keys.len()
            invariant
                keys@.to_set() == placed_of(self.symbols).dom(),
                forall|c: Coord| #[trigger] placed_of(symbols).contains_key(c) <==> exists|j: int| 0 <= j < i && keys@[j] == c,
                forall|c: Coord| #[trigger] placed_of(symbols).contains_key(c) ==> placed_of(symbols)[c] == placed_of(self.symbols)[c],
        {
            let c = keys[i];
            assert(keys@.to_set().contains(keys@[i as int]));
            match placed_get(&self.symbols, &c) {
                Some(s) => {
                    let ghost before = placed_of(symbols);
                    placed_insert(&mut symbols, c, s);
                    proof {
                        assert forall|x: Coord| #[trigger] placed_of(symbols).contains_key(x) <==> exists|j: int| 0 <= j < i + 1 && keys@[j] == x by {
                            if exists|j: int| 0 <= j < i + 1 && keys@[j] == x {
                                let j = choose|j: int| 0 <= j < i + 1 && keys@[j] == x;
                                if j < i {
                                    assert(before.contains_key(x));
                                }
                            }
                            if before.contains_key(x) {
                                let j = choose|j: int| 0 <= j < i && keys@[j] == x;
                                assert(0 <= j < i + 1 && keys@[j] == x);
                            }
                        }
                    }
                },
                None => {
                    assert(false);
                },
            }
        }
        proof {
            assert(placed_of(symbols) =~= placed_of(self.symbols)) by {
                assert forall|c: Coord| placed_of(symbols).contains_key(c) <==> placed_of(self.symbols).contains_key(c) by {
                    if placed_of(self.symbols).contains_key(c) {
                        assert(keys@.to_set().contains(c));
                        let j = choose|j: int| 0 <= j < keys.len() && keys@[j] == c;
                    }
                }
            }
        }
        let mut fragments: Vec<Fragment> = Vec::new();
        for f in 0..self.fragments.len()
            invariant
                fragments.len() == f,
                forall|k: int| 0 <= k < f ==> #[trigger] cells_in(fragments@[k]) == cells_in(self.fragments@[k]),
        {
            let copy = Fragment::from_cells(&self.fragments[f].cells());
            let ghost before = fragments@;
            fragments.push(copy);
            proof {
                assert forall|k: int| 0 <= k < f + 1 implies #[trigger] cells_in(fragments@[k]) == cells_in(self.fragments@[k]) by {
                    if k < f {
                        assert(fragments@[k] == before[k]);
                    }
                }
            }
        }
        proof {
            assert(fragment_cells(fragments@) =~= fragment_cells(self.fragments@));
        }
        Board { symbols, fragments }
    }
}

/// The cells of `keys` that `seen` does not hold, in the order of `keys`.
fn cells_missing(keys: &Vec<Coord>, seen: &AHashSet<Coord>) -> (r: Vec<Coord>)
    ensures
        forall|c: Coord| #[trigger] r@.contains(c) <==> keys@.contains(c) && !members_of(*seen).contains(c),
{
    let mut remaining: Vec<Coord> = Vec::new();
    for i in 0..keys.len()
        invariant
            forall|c: Coord| #[trigger] remaining@.contains(c) <==>
                (exists|j: int| 0 <= j < i && keys@[j] == c) && !members_of(*seen).contains(c),
    {
        let c = keys[i];
        let ghost prev = remaining@;
        if !coord_set_contains(seen, &c) {
            remaining.push(c);
            proof {
                assert(remaining@ == prev.push(c));
                assert(remaining@[prev.len() as int] == c);
            }
        }
        proof {
            assert forall|x: Coord| #[trigger] remaining@.contains(x) <==>
                (exists|j: int| 0 <= j < i + 1 && keys@[j] == x) && !members_of(*seen).contains(x) by {
                if remaining@.contains(x) && x != c {
                    let w = choose|w: int| 0 <= w < remaining@.len() && remaining@[w] == x;
                    assert(prev[w] == x);
                    assert(prev.contains(x));
                    let j = choose|j: int| 0 <= j < i && keys@[j] == x;
                    assert(0 <= j < i + 1 && keys@[j] == x);
                }
                if remaining@.contains(x) && x == c {
                    assert(keys@[i as int] == x);
                }
                if (exists|j: int| 0 <= j < i + 1 && keys@[j] == x) && !members_of(*seen).contains(x) {
                    let j = choose|j: int| 0 <= j < i + 1 && keys@[j] == x;
                    if j < i {
                        assert(prev.contains(x));
                        let w = choose|w: int| 0 <= w < prev.len() && prev[w] == x;
                        assert(remaining@[w] == x);
                    }
                }
            }
        }
    }
    proof {
        assert forall|c: Coord| #[trigger] remaining@.contains(c) <==> keys@.contains(c) && !members_of(*seen).contains(c) by {
            if keys@.contains(c) {
                let j = choose|j: int| 0 <= j < keys.len() && keys@[j] == c;
                assert(0 <= j < keys.len() && keys@[j] == c);
            }
        }
    }
    remaining
}

/// Adds the cells of `found` to `okays`, keeping `seen` equal to its cells.
fn append_cells(found: &Vec<Coord>, okays: &mut Vec<Coord>, seen: &mut AHashSet<Coord>)
    requires
        forall|c: Coord| #[trigger] members_of(*old(seen)).contains(c) <==> old(okays)@.contains(c),
    ensures
        forall|c: Coord| #[trigger] members_of(*final(seen)).contains(c) <==> final(okays)@.contains(c),
        forall|c: Coord| #[trigger] final(okays)@.contains(c) <==> old(okays)@.contains(c) || found@.contains(c),
{
    let ghost start = okays@;
    for t in 0..found.len()
        invariant
            forall|c: Coord| #[trigger] members_of(*seen).contains(c) <==> okays@.contains(c),
            forall|c: Coord| #[trigger] okays@.contains(c) <==> start.contains(c) || exists|u: int| 0 <= u < t && found@[u] == c,
    {
        let c = found[t];
        let ghost prev = okays@;
        okays.push(c);
        coord_set_insert(seen, c);
        proof {
            assert(okays@ == prev.push(c));
            assert(okays@[prev.len() as int] == c);
            assert forall|x: Coord| #[trigger] okays@.contains(x) <==> prev.contains(x) || x == c by {
                if okays@.contains(x) && x != c {
                    let w = choose|w: int| 0 <= w < okays@.len() && okays@[w] == x;
                    assert(prev[w] == x);
                }
                if prev.contains(x) {
                    let w = choose|w: int| 0 <= w < prev.len() && prev[w] == x;
                    assert(okays@[w] == x);
                }
            }
            assert forall|x: Coord| #[trigger] okays@.contains(x) <==>
                start.contains(x) || exists|u: int| 0 <= u < t + 1 && found@[u] == x by {
                if exists|u: int| 0 <= u < t + 1 && found@[u] == x {
                    let u = choose|u: int| 0 <= u < t + 1 && found@[u] == x;
                    if u < t {
                        assert(exists|u: int| 0 <= u < t && found@[u] == x);
                    }
                }
                if prev.contains(x) && x != c && !start.contains(x) {
                    let u = choose|u: int| 0 <= u < t && found@[u] == x;
                    assert(0 <= u < t + 1 && found@[u] == x);
                }
            }
        }
    }
    proof {
        assert forall|c: Coord| #[trigger] okays@.contains(c) <==> start.contains(c) || found@.contains(c) by {
            if found@.contains(c) {
                let u = choose|u: int| 0 <= u < found.len() && found@[u] == c;
                assert(0 <= u < found.len() && found@[u] == c);
            }
        }
    }
}

/// Reads the sentence of each start particle among `keys`: the cells of the
/// valid ones (also gathered in a set), and the faults of the others.
fn read_sentences(symbols: &AHashMap<Coord, Symbol>, keys: &Vec<Coord>) -> (r: (Vec<Coord>, AHashSet<Coord>, Vec<GrammarError>))
    requires
        cells_interior(placed_of(*symbols)),
        keys@.to_set() == placed_of(*symbols).dom(),
    ensures
        forall|c: Coord| #[trigger] members_of(r.1).contains(c) <==> r.0@.contains(c),
        forall|c: Coord| #[trigger] r.0@.contains(c) <==> exists|j: int| 0 <= j < keys.len() && #[trigger] is_start(placed_of(*symbols), keys@[j])
            && sentence(placed_of(*symbols), keys@[j]) is Ok && sentence(placed_of(*symbols), keys@[j])->Ok_0.contains(c),
        forall|c: Coord| #[trigger] r.0@.contains(c) ==> placed_of(*symbols).contains_key(c),
        forall|e: int| 0 <= e < r.2.len() ==> start_fault(placed_of(*symbols), #[trigger] r.2@[e]),
        forall|j: int| 0 <= j < keys.len() && #[trigger] is_start(placed_of(*symbols), keys@[j]) && sentence(placed_of(*symbols), keys@[j]) is Err ==>
            exists|e: int| 0 <= e < r.2.len() && r.2@[e] == sentence(placed_of(*symbols), keys@[j])->Err_0,
{
    let ghost m = placed_of(*symbols);
    let mut okays: Vec<Coord> = Vec::new();
    let mut errors: Vec<GrammarError> = Vec::new();
    let mut ok_set: AHashSet<Coord> = coord_set_new();
    for i in 0..keys.len()
        invariant
            m == placed_of(*symbols),
            cells_interior(m),
            keys@.to_set() == m.dom(),
            forall|c: Coord| #[trigger] members_of(ok_set).contains(c) <==> okays@.contains(c),
            forall|c: Coord| #[trigger] okays@.contains(c) <==> exists|j: int| 0 <= j < i && #[trigger] is_start(m, keys@[j])
                && sentence(m, keys@[j]) is Ok && sentence(m, keys@[j])->Ok_0.contains(c),
            forall|c: Coord| #[trigger] okays@.contains(c) ==> m.contains_key(c),
            forall|e: int| 0 <= e < errors.len() ==> start_fault(m, #[trigger] errors@[e]),
            forall|j: int| 0 <= j < i && #[trigger] is_start(m, keys@[j]) && sentence(m, keys@[j]) is Err ==>
                exists|e: int| 0 <= e < errors.len() && errors@[e] == sentence(m, keys@[j])->Err_0,
    {
        let pos = keys[i];
        assert(keys@.to_set().contains(keys@[i as int]));
        let is_start_here = match placed_get(symbols, &pos) {
            Some(sym) => match sym.part_of_speech {
                PartOfSpeech::ParticleStart => true,
                _ => false,
            },
            None => false,
        };
        assert(is_start_here == is_start(m, pos));
        let ghost okays_before = okays@;
        let ghost errors_before = errors@;
        if is_start_here {
            match check_from_start(symbols, pos) {
                Ok(found) => {
                    append_cells(&found, &mut okays, &mut ok_set);
                    proof {
                        assert forall|c: Coord| #[trigger] okays@.contains(c) implies m.contains_key(c) by {
                            if found@.contains(c) {
                                let u = choose|u: int| 0 <= u < found.len() && found@[u] == c;
                            }
                        }
                        assert forall|c: Coord| #[trigger] okays@.contains(c) <==> exists|j: int| 0 <= j < i + 1 && #[trigger] is_start(m, keys@[j])
                            && sentence(m, keys@[j]) is Ok && sentence(m, keys@[j])->Ok_0.contains(c) by {
                            if okays@.contains(c) && !okays_before.contains(c) {
                                assert(keys@[i as int] == pos);
                                assert(sentence(m, keys@[i as int])->Ok_0.contains(c));
                            }
                            if exists|j: int| 0 <= j < i + 1 && #[trigger] is_start(m, keys@[j])
                                && sentence(m, keys@[j]) is Ok && sentence(m, keys@[j])->Ok_0.contains(c) {
                                let j = choose|j: int| 0 <= j < i + 1 && #[trigger] is_start(m, keys@[j])
                                    && sentence(m, keys@[j]) is Ok && sentence(m, keys@[j])->Ok_0.contains(c);
                                if j < i {
                                    assert(okays_before.contains(c));
                                }
                            }
                        }
                        assert forall|j: int| 0 <= j < i + 1 && #[trigger] is_start(m, keys@[j]) && sentence(m, keys@[j]) is Err implies
                            exists|e: int| 0 <= e < errors.len() && errors@[e] == sentence(m, keys@[j])->Err_0 by {
                            if j == i {
                                assert(keys@[i as int] == pos);
                            }
                        }
                    }
                },
                Err(e) => {
                    errors.push(e);
                    proof {
                        assert(errors@ == errors_before.push(e));
                        assert forall|x: int| 0 <= x < errors.len() implies start_fault(m, #[trigger] errors@[x]) by {
                            if x < errors_before.len() {
                                assert(errors@[x] == errors_before[x]);
                            } else {
                                assert(is_start(m, pos));
                            }
                        }
                        assert forall|j: int| 0 <= j < i + 1 && #[trigger] is_start(m, keys@[j]) && sentence(m, keys@[j]) is Err implies
                            exists|x: int| 0 <= x < errors.len() && errors@[x] == sentence(m, keys@[j])->Err_0 by {
                            if j == i {
                                assert(keys@[i as int] == pos);
                                assert(errors@[errors_before.len() as int] == e);
                            } else {
                                let x = choose|x: int| 0 <= x < errors_before.len() && errors_before[x] == sentence(m, keys@[j])->Err_0;
                                assert(errors@[x] == errors_before[x]);
                            }
                        }
                        assert forall|c: Coord| #[trigger] okays@.contains(c) <==> exists|j: int| 0 <= j < i + 1 && #[trigger] is_start(m, keys@[j])
                            && sentence(m, keys@[j]) is Ok && sentence(m, keys@[j])->Ok_0.contains(c) by {
                            if exists|j: int| 0 <= j < i + 1 && #[trigger] is_start(m, keys@[j])
                                && sentence(m, keys@[j]) is Ok && sentence(m, keys@[j])->Ok_0.contains(c) {
                                let j = choose|j: int| 0 <= j < i + 1 && #[trigger] is_start(m, keys@[j])
                                    && sentence(m, keys@[j]) is Ok && sentence(m, keys@[j])->Ok_0.contains(c);
                                assert(j != i);
                            }
                        }
                    }
                },
            }
        } else {
            proof {
                assert forall|c: Coord| #[trigger] okays@.contains(c) <==> exists|j: int| 0 <= j < i + 1 && #[trigger] is_start(m, keys@[j])
                    && sentence(m, keys@[j]) is Ok && sentence(m, keys@[j])->Ok_0.contains(c) by {
                    if exists|j: int| 0 <= j < i + 1 && #[trigger] is_start(m, keys@[j])
                        && sentence(m, keys@[j]) is Ok && sentence(m, keys@[j])->Ok_0.contains(c) {
                        let j = choose|j: int| 0 <= j < i + 1 && #[trigger] is_start(m, keys@[j])
                            && sentence(m, keys@[j]) is Ok && sentence(m, keys@[j])->Ok_0.contains(c);
                        assert(j != i);
                    }
                }
            }
        }
    }
    let r = (okays, ok_set, errors);
    assert forall|j: int| 0 <= j < keys.len() && #[trigger] is_start(m, keys@[j]) && sentence(m, keys@[j]) is Err implies
        exists|e: int| 0 <= e < r.2.len() && r.2@[e] == sentence(m, keys@[j])->Err_0 by {
        let e = choose|e: int| 0 <= e < r.2.len() && r.2@[e] == sentence(m, keys@[j])->Err_0;
    }
    r
}

} // verus!
