//! Splitting a set of cells into its 4-connected components by flood fill,
//! and why any two such splits agree.

use vstd::prelude::*;
use ahash::AHashSet;
use crate::coord::{Coord, Direction, adjacent, interior, spec_step, all_directions, step, directions, lemma_adjacent_is_step};
use crate::hashed::{members_of, coord_set_new, coord_set_insert, coord_set_contains};

verus! {

/// The views of a list of fragments.
pub open spec fn frag_views(v: Seq<Vec<Coord>>) -> Seq<Seq<Coord>> {
    v.map_values(|f: Vec<Coord>| f@)
}

/// Each fragment holds at least one cell, and no cell twice.
pub open spec fn fragments_nonempty(frags: Seq<Seq<Coord>>) -> bool {
    forall|i: int| 0 <= i < frags.len() ==> #[trigger] frags[i].len() > 0 && frags[i].no_duplicates()
}

/// Every cell of every fragment is in `cells`, and every cell of `cells` is in
/// some fragment.
pub open spec fn fragments_cover(cells: Set<Coord>, frags: Seq<Seq<Coord>>) -> bool {
    &&& forall|i: int, c: Coord| 0 <= i < frags.len() && #[trigger] frags[i].contains(c) ==> cells.contains(c)
    &&& forall|c: Coord| #[trigger] cells.contains(c) ==> exists|i: int| 0 <= i < frags.len() && #[trigger] frags[i].contains(c)
}

/// No cell is in two fragments.
pub open spec fn fragments_disjoint(frags: Seq<Seq<Coord>>) -> bool {
    forall|i: int, k: int, c: Coord|
        0 <= i < frags.len() && 0 <= k < frags.len() && #[trigger] frags[i].contains(c) && #[trigger] frags[k].contains(c)
            ==> i == k
}

/// Each cell of a fragment after the first touches an earlier one, so the
/// fragment is connected.
pub open spec fn spanning_order(frag: Seq<Coord>) -> bool {
    forall|j: int| 0 < j < frag.len() ==> exists|k: int| 0 <= k < j && adjacent(frag[k], #[trigger] frag[j])
}

pub open spec fn fragments_connected(frags: Seq<Seq<Coord>>) -> bool {
    forall|i: int| 0 <= i < frags.len() ==> spanning_order(#[trigger] frags[i])
}

/// `frags` lists the 4-connected components of `cells`, each exactly once:
/// every cell lies in exactly one fragment, each fragment is connected, and no
/// fragment touches a cell of `cells` that it does not hold.
pub open spec fn is_component_partition(cells: Set<Coord>, frags: Seq<Seq<Coord>>) -> bool {
    &&& fragments_nonempty(frags)
    &&& fragments_cover(cells, frags)
    &&& fragments_disjoint(frags)
    &&& fragments_connected(frags)
    &&& fragments_closed(cells, frags)
}

/// A fragment holds every cell of `all` that touches one of its cells.
pub open spec fn fragments_closed(all: Set<Coord>, frags: Seq<Seq<Coord>>) -> bool {
    forall|f: int, a: Coord, b: Coord|
        0 <= f < frags.len() && #[trigger] frags[f].contains(a) && all.contains(b) && adjacent(a, b)
            ==> #[trigger] frags[f].contains(b)
}


/// Pushes onto `work` each neighbour of `pos` that `present` holds and
/// `visited` does not.
fn push_open_neighbours(present: &AHashSet<Coord>, visited: &AHashSet<Coord>, pos: Coord, dirs: &Vec<Direction>, work: &mut Vec<Coord>)
    requires
        interior(pos),
        dirs@ == all_directions(),
    ensures
        forall|w: int| 0 <= w < old(work).len() ==> #[trigger] final(work)@[w] == old(work)@[w],
        old(work).len() <= final(work).len(),
        forall|w: int| old(work).len() <= w < final(work).len() ==>
            members_of(*present).contains(#[trigger] final(work)@[w]) && adjacent(pos, final(work)@[w]),
        forall|b: Coord| #[trigger] members_of(*present).contains(b) && adjacent(pos, b) ==>
            members_of(*visited).contains(b) || final(work)@.contains(b),
{
    let ghost start = work@;
    for d in 0..4
        invariant
            dirs@ == all_directions(),
            interior(pos),
            start.len() <= work.len(),
            forall|w: int| 0 <= w < start.len() ==> #[trigger] work@[w] == start[w],
            forall|w: int| start.len() <= w < work.len() ==>
                members_of(*present).contains(#[trigger] work@[w]) && adjacent(pos, work@[w]),
            forall|e: int| 0 <= e < d ==> {
                let b = spec_step(pos, #[trigger] all_directions()[e]);
                members_of(*present).contains(b) ==> members_of(*visited).contains(b) || work@.contains(b)
            },
    {
        let n = step(pos, dirs[d]);
        let ghost prev = work@;
        if coord_set_contains(present, &n) && !coord_set_contains(visited, &n) {
            work.push(n);
            proof {
                assert(work@ == prev.push(n));
                assert(work@[prev.len() as int] == n);
                assert forall|b: Coord| prev.contains(b) implies work@.contains(b) by {
                    let w = choose|w: int| 0 <= w < prev.len() && prev[w] == b;
                    assert(work@[w] == b);
                }
            }
        }
    }
    proof {
        assert forall|b: Coord| #[trigger] members_of(*present).contains(b) && adjacent(pos, b) implies
            members_of(*visited).contains(b) || work@.contains(b) by {
            lemma_adjacent_is_step(pos, b);
            let e = choose|e: int| 0 <= e < 4 && b == spec_step(pos, #[trigger] all_directions()[e]);
        }
    }
}

/// Appending a cell that touches the fragment keeps it connected.
proof fn lemma_extend_fragment(f: Seq<Coord>, pos: Coord)
    requires
        spanning_order(f),
        f.len() > 0 ==> exists|k: int| 0 <= k < f.len() && adjacent(f[k], pos),
    ensures
        spanning_order(f.push(pos)),
        f.push(pos).to_set() == f.to_set().insert(pos),
        f.push(pos)[f.len() as int] == pos,
        forall|c: Coord| #[trigger] f.push(pos).contains(c) <==> f.contains(c) || c == pos,
{
    let g = f.push(pos);
    assert(g[f.len() as int] == pos);
    assert forall|c: Coord| #[trigger] g.contains(c) <==> f.contains(c) || c == pos by {
        if g.contains(c) {
            let j = choose|j: int| 0 <= j < g.len() && g[j] == c;
            if j < f.len() {
                assert(f[j] == c);
            }
        }
        if f.contains(c) {
            let j = choose|j: int| 0 <= j < f.len() && f[j] == c;
            assert(g[j] == c);
        }
    }
    assert(g.to_set() =~= f.to_set().insert(pos));
    assert forall|j: int| 0 < j < g.len() implies exists|k: int| 0 <= k < j && adjacent(g[k], #[trigger] g[j]) by {
        if j < f.len() {
            assert(g[j] == f[j]);
            let k = choose|k: int| 0 <= k < j && adjacent(f[k], f[j]);
            assert(g[k] == f[k]);
        } else {
            let k = choose|k: int| 0 <= k < f.len() && adjacent(f[k], pos);
            assert(g[k] == f[k]);
        }
    }
}

/// Popping a cell that is already visited keeps every unvisited neighbour of
/// the fragment on the work list.
proof fn lemma_pop_keeps_frontier(frag: Seq<Coord>, all: Set<Coord>, visited: Set<Coord>, before: Seq<Coord>, after: Seq<Coord>, pos: Coord)
    requires
        before == after.push(pos),
        visited.contains(pos),
        forall|a: Coord, b: Coord| #[trigger] frag.contains(a) && all.contains(b) && adjacent(a, b) ==>
            visited.contains(b) || #[trigger] before.contains(b),
    ensures
        forall|a: Coord, b: Coord| #[trigger] frag.contains(a) && all.contains(b) && adjacent(a, b) ==>
            visited.contains(b) || #[trigger] after.contains(b),
{
    assert forall|a: Coord, b: Coord| #[trigger] frag.contains(a) && all.contains(b) && adjacent(a, b) implies
        visited.contains(b) || #[trigger] after.contains(b) by {
        if !visited.contains(b) {
            assert(before.contains(b));
            let w = choose|w: int| 0 <= w < before.len() && before[w] == b;
            assert(w < after.len());
            assert(after[w] == b);
        }
    }
}

/// After a cell joins the fragment and its open neighbours are pushed, the
/// work list still holds what the fragment needs.
proof fn lemma_grow_keeps_frontier(
    frag_before: Seq<Coord>,
    frag: Seq<Coord>,
    all: Set<Coord>,
    visited_before: Set<Coord>,
    visited: Set<Coord>,
    work_before: Seq<Coord>,
    work_mid: Seq<Coord>,
    work: Seq<Coord>,
    pos: Coord,
)
    requires
        frag == frag_before.push(pos),
        work_before == work_mid.push(pos),
        frag_before.len() == 0 ==> work_mid.len() == 0,
        visited == visited_before.insert(pos),
        forall|w: int| 0 <= w < work_mid.len() ==> #[trigger] work[w] == work_mid[w],
        work_mid.len() <= work.len(),
        forall|w: int| work_mid.len() <= w < work.len() ==> all.contains(#[trigger] work[w]) && adjacent(pos, work[w]),
        forall|b: Coord| #[trigger] all.contains(b) && adjacent(pos, b) ==> visited.contains(b) || work.contains(b),
        forall|w: int| 0 <= w < work_before.len() ==> all.contains(#[trigger] work_before[w]),
        frag_before.len() > 0 ==> forall|w: int| 0 <= w < work_before.len() ==>
            exists|k: int| 0 <= k < frag_before.len() && adjacent(frag_before[k], #[trigger] work_before[w]),
        forall|a: Coord, b: Coord| #[trigger] frag_before.contains(a) && all.contains(b) && adjacent(a, b) ==>
            visited_before.contains(b) || #[trigger] work_before.contains(b),
    ensures
        forall|w: int| 0 <= w < work.len() ==> all.contains(#[trigger] work[w]),
        forall|w: int| 0 <= w < work.len() ==>
            exists|k: int| 0 <= k < frag.len() && adjacent(frag[k], #[trigger] work[w]),
        forall|a: Coord, b: Coord| #[trigger] frag.contains(a) && all.contains(b) && adjacent(a, b) ==>
            visited.contains(b) || #[trigger] work.contains(b),
{
    assert(frag[frag_before.len() as int] == pos);
    assert forall|w: int| 0 <= w < work.len() implies all.contains(#[trigger] work[w]) by {
        if w < work_mid.len() {
            assert(work_before[w] == work_mid[w]);
        }
    }
    assert forall|w: int| 0 <= w < work.len() implies
        exists|k: int| 0 <= k < frag.len() && adjacent(frag[k], #[trigger] work[w]) by {
        if w < work_mid.len() {
            assert(work_before[w] == work_mid[w]);
            let k = choose|k: int| 0 <= k < frag_before.len() && adjacent(frag_before[k], work_before[w]);
            assert(frag[k] == frag_before[k]);
        } else {
            assert(adjacent(frag[frag_before.len() as int], work[w]));
        }
    }
    assert forall|a: Coord, b: Coord| #[trigger] frag.contains(a) && all.contains(b) && adjacent(a, b) implies
        visited.contains(b) || #[trigger] work.contains(b) by {
        if a != pos {
            let j = choose|j: int| 0 <= j < frag.len() && frag[j] == a;
            assert(frag_before[j] == a);
            assert(frag_before.contains(a));
            if !visited.contains(b) {
                assert(work_before.contains(b));
                let w = choose|w: int| 0 <= w < work_before.len() && work_before[w] == b;
                assert(w < work_mid.len());
                assert(work[w] == b);
            }
        }
    }
}

/// Grows one fragment from `seed` over the cells of `present` that are not yet
/// in `visited`, marking each cell it takes as visited.
#[verifier::rlimit(100)]
fn fill_fragment(present: &AHashSet<Coord>, visited: &mut AHashSet<Coord>, seed: Coord, dirs: &Vec<Direction>) -> (frag: Vec<Coord>)
    requires
        members_of(*present).finite(),
        forall|c: Coord| #[trigger] members_of(*present).contains(c) ==> interior(c),
        members_of(*present).contains(seed),
        !members_of(*old(visited)).contains(seed),
        members_of(*old(visited)).subset_of(members_of(*present)),
        dirs@ == all_directions(),
    ensures
        members_of(*final(visited)) == members_of(*old(visited)) + frag@.to_set(),
        members_of(*final(visited)).subset_of(members_of(*present)),
        forall|c: Coord| #[trigger] frag@.contains(c) ==> !members_of(*old(visited)).contains(c),
        frag@.no_duplicates(),
        frag.len() > 0,
        frag@[0] == seed,
        spanning_order(frag@),
        forall|a: Coord, b: Coord| #[trigger] frag@.contains(a) && members_of(*present).contains(b) && adjacent(a, b)
            ==> #[trigger] members_of(*final(visited)).contains(b),
{
    let ghost all = members_of(*present);
    let ghost start = members_of(*visited);
    let mut frag: Vec<Coord> = Vec::new();
    let mut work: Vec<Coord> = Vec::new();
    work.push(seed);
    proof {
        vstd::set_lib::lemma_len_subset(members_of(*visited), all);
        assert(work@ =~= seq![seed]);
    }
    while work.len() > 0
        invariant
            members_of(*present) == all,
            all.finite(),
            forall|c: Coord| #[trigger] all.contains(c) ==> interior(c),
            dirs@ == all_directions(),
            all.contains(seed),
            members_of(*visited).subset_of(all),
            forall|c: Coord| #[trigger] members_of(*visited).contains(c) <==> start.contains(c) || frag@.contains(c),
            forall|c: Coord| #[trigger] frag@.contains(c) ==> !start.contains(c),
            frag@.no_duplicates(),
            spanning_order(frag@),
            forall|w: int| 0 <= w < work.len() ==> all.contains(#[trigger] work@[w]),
            frag.len() == 0 ==> work@ == seq![seed] && !members_of(*visited).contains(seed),
            frag.len() > 0 ==> frag@[0] == seed,
            frag.len() > 0 ==> forall|w: int| 0 <= w < work.len() ==>
                exists|k: int| 0 <= k < frag.len() && adjacent(frag@[k], #[trigger] work@[w]),
            forall|a: Coord, b: Coord| #[trigger] frag@.contains(a) && all.contains(b) && adjacent(a, b) ==>
                members_of(*visited).contains(b) || #[trigger] work@.contains(b),
        decreases all.len() - members_of(*visited).len(), work.len(),
    {
        let ghost work_before = work@;
        let pos = work.pop().unwrap();
        proof {
            assert(work_before == work@.push(pos));
            assert(work_before[work_before.len() - 1] == pos);
            assert forall|b: Coord| work_before.contains(b) && b != pos implies work@.contains(b) by {
                let w = choose|w: int| 0 <= w < work_before.len() && work_before[w] == b;
                assert(work@[w] == b);
            }
            assert forall|w: int| 0 <= w < work.len() implies #[trigger] work@[w] == work_before[w] by {}
        }
        let ghost visited_before = members_of(*visited);
        if coord_set_insert(visited, pos) {
            let ghost frag_before = frag@;
            proof {
                vstd::set_lib::lemma_len_subset(visited_before, all);
                vstd::set_lib::lemma_len_subset(members_of(*visited), all);
                assert(frag_before.len() > 0 ==> exists|k: int| 0 <= k < frag_before.len()
                    && adjacent(frag_before[k], work_before[work_before.len() - 1]));
            }
            frag.push(pos);
            proof {
                lemma_extend_fragment(frag_before, pos);
                assert(frag@ == frag_before.push(pos));
            }
            let ghost work_mid = work@;
            push_open_neighbours(present, visited, pos, dirs, &mut work);
            proof {
                lemma_grow_keeps_frontier(frag_before, frag@, all, visited_before, members_of(*visited), work_before, work_mid, work@, pos);
            }
        } else {
            proof {
                lemma_pop_keeps_frontier(frag@, all, members_of(*visited), work_before, work@, pos);
            }
        }
    }
    proof {
        assert forall|a: Coord, b: Coord| #[trigger] frag@.contains(a) && all.contains(b) && adjacent(a, b)
            implies #[trigger] members_of(*visited).contains(b) by {
            assert(!work@.contains(b));
        }
        assert(members_of(*visited) =~= start + frag@.to_set());
    }
    frag
}

/// Splits `cells` into its 4-connected components by flood fill.
///
/// Fragments come in the order of their first cell in `cells`; within a
/// fragment the order follows the fill.
#[verifier::rlimit(100)]
#[verifier::spinoff_prover]
pub fn fragments_of(cells: &Vec<Coord>) -> (frags: Vec<Vec<Coord>>)
    requires
        forall|i: int| 0 <= i < cells.len() ==> interior(#[trigger] cells[i]),
    ensures
        is_component_partition(cells@.to_set(), frag_views(frags@)),
        frags.len() <= cells.len(),
{
    let ghost all = cells@.to_set();
    let mut present: AHashSet<Coord> = coord_set_new();
    for i in 0..cells.len()
        invariant
            forall|c: Coord| members_of(present).contains(c) <==> exists|k: int| 0 <= k < i && cells[k] == c,
    {
        coord_set_insert(&mut present, cells[i]);
        proof {
            assert forall|c: Coord| members_of(present).contains(c) <==> exists|k: int| 0 <= k < i + 1 && cells[k] == c by {
                if members_of(present).contains(c) && c != cells[i as int] {
                    let k = choose|k: int| 0 <= k < i && cells[k] == c;
                    assert(0 <= k < i + 1 && cells[k] == c);
                }
                if exists|k: int| 0 <= k < i + 1 && cells[k] == c {
                    let k = choose|k: int| 0 <= k < i + 1 && cells[k] == c;
                    if k < i {
                        assert(0 <= k < i && cells[k] == c);
                    }
                }
            }
        }
    }
    assert(members_of(present) =~= all) by {
        assert forall|c: Coord| members_of(present).contains(c) <==> all.contains(c) by {
            if all.contains(c) {
                let k = choose|k: int| 0 <= k < cells.len() && cells@[k] == c;
            }
        }
    }
    assert forall|c: Coord| #[trigger] all.contains(c) implies interior(c) by {
        let k = choose|k: int| 0 <= k < cells.len() && cells@[k] == c;
        assert(interior(cells[k]));
    }
    let dirs = directions();
    let mut visited: AHashSet<Coord> = coord_set_new();
    let mut frags: Vec<Vec<Coord>> = Vec::new();
    // the fragment each visited cell was put into
    let ghost mut owner: Map<Coord, int> = Map::empty();
    for i in 0..cells.len()
        invariant
            members_of(present) == all,
            all == cells@.to_set(),
            all.finite(),
            forall|c: Coord| #[trigger] all.contains(c) ==> interior(c),
            dirs@ == all_directions(),
            frags.len() <= i,
            owner.dom() == members_of(visited),
            members_of(visited).subset_of(all),
            forall|k: int| 0 <= k < i ==> members_of(visited).contains(#[trigger] cells@[k]),
            forall|f: int, c: Coord| 0 <= f < frags.len() ==>
                (#[trigger] frags@[f]@.contains(c) <==> owner.contains_key(c) && owner[c] == f),
            forall|c: Coord| #[trigger] owner.contains_key(c) ==> 0 <= owner[c] < frags.len(),
            forall|f: int| 0 <= f < frags.len() ==> #[trigger] frags@[f]@.len() > 0 && frags@[f]@.no_duplicates(),
            forall|f: int| 0 <= f < frags.len() ==> spanning_order(#[trigger] frags@[f]@),
            fragments_closed(all, frag_views(frags@)),
    {
        let seed = cells[i];
        assert(all.contains(seed)) by {
            assert(cells@[i as int] == seed);
        }
        if !coord_set_contains(&visited, &seed) {
            let ghost fi = frags.len() as int;
            let ghost before = members_of(visited);
            let frag = fill_fragment(&present, &mut visited, seed, &dirs);
            let ghost fv = frag@;
            proof {
                owner = owner.union_prefer_right(Map::new(|c: Coord| fv.contains(c), |c: Coord| fi));
                assert(owner.dom() =~= members_of(visited));
                assert forall|a: Coord, b: Coord| #[trigger] fv.contains(a) && all.contains(b) && adjacent(a, b) implies
                    #[trigger] fv.contains(b) by {
                    assert(members_of(visited).contains(b));
                    if !fv.contains(b) {
                        let f = owner[b];
                        assert(frags@[f]@.contains(b));
                        assert(frag_views(frags@)[f] == frags@[f]@);
                        assert(frag_views(frags@)[f].contains(b));
                        assert(adjacent(b, a));
                        assert(frags@[f]@.contains(a));
                    }
                }
            }
            let ghost frags_before = frags@;
            frags.push(frag);
            proof {
                assert(frags@ == frags_before.push(frag));
                assert(frags@[fi]@ == fv);
                assert forall|f: int| 0 <= f < fi implies #[trigger] frags@[f] == frags_before[f] by {}
                assert(fragments_closed(all, frag_views(frags@))) by {
                    assert forall|f: int, a: Coord, b: Coord|
                        0 <= f < frags@.len() && #[trigger] frag_views(frags@)[f].contains(a) && all.contains(b) && adjacent(a, b)
                            implies #[trigger] frag_views(frags@)[f].contains(b) by {
                        if f < fi {
                            assert(frag_views(frags@)[f] == frag_views(frags_before)[f]);
                        } else {
                            assert(frag_views(frags@)[f] == fv);
                        }
                    }
                }
                assert(fv[0] == seed);
                assert(fv.contains(seed));
                assert(members_of(visited).contains(cells@[i as int]));
            }
        }
    }
    proof {
        assert(members_of(visited) =~= all) by {
            assert forall|c: Coord| all.contains(c) implies members_of(visited).contains(c) by {
                let k = choose|k: int| 0 <= k < cells.len() && cells@[k] == c;
                assert(members_of(visited).contains(cells@[k]));
            }
        }
        let fs = frag_views(frags@);
        assert forall|f: int| 0 <= f < fs.len() implies #[trigger] fs[f] == frags@[f]@ by {}
        assert forall|c: Coord| #[trigger] all.contains(c) implies exists|f: int| 0 <= f < fs.len() && #[trigger] fs[f].contains(c) by {
            let f = owner[c];
            assert(fs[f].contains(c));
        }
        assert forall|f: int, k: int, c: Coord|
            0 <= f < fs.len() && 0 <= k < fs.len() && #[trigger] fs[f].contains(c) && #[trigger] fs[k].contains(c) implies f == k by {
            assert(frags@[f]@.contains(c));
            assert(frags@[k]@.contains(c));
        }
        assert forall|f: int, c: Coord| 0 <= f < fs.len() && #[trigger] fs[f].contains(c) implies all.contains(c) by {
            assert(frags@[f]@.contains(c));
        }
        assert forall|f: int, j: int| 0 <= f < fs.len() && 0 < j < fs[f].len() implies
            exists|k: int| 0 <= k < j && adjacent(fs[f][k], #[trigger] fs[f][j]) by {
            assert(fs[f] == frags@[f]@);
            assert(spanning_order(frags@[f]@));
            assert(fs[f][j] == frags@[f]@[j]);
            let k = choose|k: int| 0 <= k < j && adjacent(frags@[f]@[k], frags@[f]@[j]);
            assert(fs[f][k] == frags@[f]@[k]);
        }
        assert forall|f: int| 0 <= f < fs.len() implies #[trigger] fs[f].len() > 0 && fs[f].no_duplicates() by {
            assert(fs[f] == frags@[f]@);
        }
        assert(fragments_closed(all, fs));
    }
    frags
}

/// The index of a fragment that holds `c`.
pub open spec fn owner_index(frags: Seq<Seq<Coord>>, c: Coord) -> int {
    choose|j: int| 0 <= j < frags.len() && #[trigger] frags[j].contains(c)
}

/// A component of one partition that meets a component of another lies
/// inside it: from the first cell, each later one touches an earlier one.
proof fn lemma_component_within(cells: Set<Coord>, a: Seq<Seq<Coord>>, b: Seq<Seq<Coord>>, i: int, j: int, k: int)
    requires
        is_component_partition(cells, a),
        is_component_partition(cells, b),
        0 <= i < a.len(),
        0 <= j < b.len(),
        b[j].contains(a[i][0]),
        0 <= k < a[i].len(),
    ensures
        b[j].contains(a[i][k]),
    decreases k,
{
    if k > 0 {
        assert(spanning_order(a[i]));
        let m = choose|m: int| 0 <= m < k && adjacent(a[i][m], #[trigger] a[i][k]);
        lemma_component_within(cells, a, b, i, j, m);
        assert(a[i].contains(a[i][k]));
        assert(cells.contains(a[i][k]));
    }
}

/// Each component of one partition has the same cells as the component of
/// another partition of the same set that holds its first cell.
proof fn lemma_same_component(cells: Set<Coord>, a: Seq<Seq<Coord>>, b: Seq<Seq<Coord>>, i: int)
    requires
        is_component_partition(cells, a),
        is_component_partition(cells, b),
        0 <= i < a.len(),
    ensures
        0 <= owner_index(b, a[i][0]) < b.len(),
        b[owner_index(b, a[i][0])].contains(a[i][0]),
        a[i].to_set() == b[owner_index(b, a[i][0])].to_set(),
{
    assert(a[i].len() > 0);
    assert(a[i].contains(a[i][0]));
    assert(cells.contains(a[i][0]));
    let j = owner_index(b, a[i][0]);
    assert(b[j].len() > 0);
    assert(b[j].contains(b[j][0]));
    assert(cells.contains(b[j][0]));
    let g = owner_index(a, b[j][0]);
    assert forall|k: int| 0 <= k < a[i].len() implies b[j].contains(#[trigger] a[i][k]) by {
        lemma_component_within(cells, a, b, i, j, k);
    }
    assert forall|k: int| 0 <= k < b[j].len() implies a[g].contains(#[trigger] b[j][k]) by {
        lemma_component_within(cells, b, a, j, g, k);
    }
    let w = choose|w: int| 0 <= w < b[j].len() && b[j][w] == a[i][0];
    assert(a[g].contains(b[j][w]));
    assert(g == i);
    assert forall|c: Coord| a[i].to_set().contains(c) <==> b[j].to_set().contains(c) by {
        if a[i].contains(c) {
            let k = choose|k: int| 0 <= k < a[i].len() && a[i][k] == c;
            assert(b[j].contains(a[i][k]));
        }
        if b[j].contains(c) {
            let k = choose|k: int| 0 <= k < b[j].len() && b[j][k] == c;
            assert(a[g].contains(b[j][k]));
        }
    }
    assert(a[i].to_set() =~= b[j].to_set());
}

/// The indices of the fragments that hold a single cell.
pub open spec fn singleton_indices(frags: Seq<Seq<Coord>>) -> Set<int> {
    Set::new(|i: int| 0 <= i < frags.len() && frags[i].len() == 1)
}

/// Mapping each component of `a` to the component of `b` with the same cells
/// is one to one, and keeps single-cell components single.
proof fn lemma_component_map(cells: Set<Coord>, a: Seq<Seq<Coord>>, b: Seq<Seq<Coord>>)
    requires
        is_component_partition(cells, a),
        is_component_partition(cells, b),
    ensures
        a.len() <= b.len(),
        singleton_indices(a).len() <= singleton_indices(b).len(),
        singleton_indices(b).finite(),
{
    let f = |i: int| owner_index(b, a[i][0]);
    assert forall|i: int| 0 <= i < a.len() implies 0 <= #[trigger] f(i) < b.len()
        && a[i].to_set() == b[f(i)].to_set() by {
        lemma_same_component(cells, a, b, i);
    }
    let ra = vstd::set_lib::set_int_range(0, a.len() as int);
    let rb = vstd::set_lib::set_int_range(0, b.len() as int);
    vstd::set_lib::lemma_int_range(0, a.len() as int);
    vstd::set_lib::lemma_int_range(0, b.len() as int);
    assert forall|i1: int, i2: int| 0 <= i1 < a.len() && 0 <= i2 < a.len() && #[trigger] f(i1) == #[trigger] f(i2) implies i1 == i2 by {
        assert(a[i1].len() > 0);
        assert(a[i1].to_set().contains(a[i1][0]));
        assert(b[f(i2)].to_set().contains(a[i1][0]));
        assert(a[i2].to_set().contains(a[i1][0]));
        assert(a[i1].contains(a[i1][0]));
    }
    assert(vstd::relations::injective_on(f, ra));
    let img = ra.map(f);
    vstd::set_lib::lemma_map_size(ra, img, f);
    assert(img.subset_of(rb)) by {
        assert forall|j: int| img.contains(j) implies rb.contains(j) by {
            let i = choose|i: int| ra.contains(i) && f(i) == j;
        }
    }
    vstd::set_lib::lemma_len_subset(img, rb);

    let sa = singleton_indices(a);
    let sb = singleton_indices(b);
    assert(sa.subset_of(ra));
    assert(sb.subset_of(rb));
    vstd::set_lib::lemma_len_subset(sa, ra);
    vstd::set_lib::lemma_len_subset(sb, rb);
    assert forall|i: int| sa.contains(i) implies sb.contains(#[trigger] f(i)) by {
        assert(a[i].no_duplicates());
        assert(b[f(i)].no_duplicates());
        a[i].unique_seq_to_set();
        b[f(i)].unique_seq_to_set();
    }
    assert(vstd::relations::injective_on(f, sa));
    let simg = sa.map(f);
    vstd::set_lib::lemma_map_size(sa, simg, f);
    assert(simg.subset_of(sb)) by {
        assert forall|j: int| simg.contains(j) implies sb.contains(j) by {
            let i = choose|i: int| sa.contains(i) && f(i) == j;
        }
    }
    vstd::set_lib::lemma_len_subset(simg, sb);
}

/// Some fragment of `frags` has the same cells as `f`.
pub open spec fn has_component(frags: Seq<Seq<Coord>>, f: Seq<Coord>) -> bool {
    exists|j: int| 0 <= j < frags.len() && f.to_set() == #[trigger] frags[j].to_set()
}

/// Any two ways of listing the components of one set of cells list the same
/// components, whatever order the fill visited them in: each component of one
/// has the cells of a component of the other, and the two agree on how many
/// components there are and how many of them are single cells.
pub proof fn lemma_partitions_agree(cells: Set<Coord>, a: Seq<Seq<Coord>>, b: Seq<Seq<Coord>>)
    requires
        is_component_partition(cells, a),
        is_component_partition(cells, b),
    ensures
        forall|i: int| 0 <= i < a.len() ==> has_component(b, #[trigger] a[i]),
        a.len() == b.len(),
        singleton_indices(a).len() == singleton_indices(b).len(),
{
    lemma_component_map(cells, a, b);
    lemma_component_map(cells, b, a);
    assert forall|i: int| 0 <= i < a.len() implies has_component(b, #[trigger] a[i]) by {
        lemma_same_component(cells, a, b, i);
        let j = owner_index(b, a[i][0]);
        assert(0 <= j < b.len() && a[i].to_set() == b[j].to_set());
    }
}

} // verus!
