//! The hash maps, hash sets and small vectors the library keeps its data in,
//! with the contracts of the calls it makes on them.

use vstd::prelude::*;
use ahash::{AHashMap, AHashSet, RandomState};
use smallvec::SmallVec;
use crate::coord::Coord;
use crate::symbols::Symbol;

verus! {

/// `ahash`'s hasher state, carried inside its maps and sets.
#[verifier::external_type_specification]
#[verifier::external_body]
pub struct ExRandomState(RandomState);

/// `ahash::AHashMap`, seen only through the names below.
#[verifier::external_type_specification]
#[verifier::external_body]
#[verifier::reject_recursive_types(K)]
#[verifier::reject_recursive_types(V)]
#[verifier::reject_recursive_types(S)]
pub struct ExAHashMap<K, V, S>(AHashMap<K, V, S>);

/// `ahash::AHashSet`, seen only through the names below.
#[verifier::external_type_specification]
#[verifier::external_body]
#[verifier::reject_recursive_types(T)]
#[verifier::reject_recursive_types(S)]
pub struct ExAHashSet<T, S>(AHashSet<T, S>);

/// The cells held by a set of coordinates.
pub uninterp spec fn members_of(s: AHashSet<Coord>) -> Set<Coord>;

/// Relies on `AHashSet::new`: the new set is empty.
#[verifier::external_body]
pub(crate) fn coord_set_new() -> (r: AHashSet<Coord>)
    ensures
        members_of(r) == Set::<Coord>::empty(),
{
    AHashSet::new()
}

/// Relies on `HashSet::insert` (through `AHashSet`'s `DerefMut`): adds the
/// value and reports whether it was absent.
#[verifier::external_body]
pub(crate) fn coord_set_insert(s: &mut AHashSet<Coord>, c: Coord) -> (r: bool)
    ensures
        members_of(*final(s)) == members_of(*old(s)).insert(c),
        r == !members_of(*old(s)).contains(c),
{
    s.insert(c)
}

/// Relies on `HashSet::contains` (through `AHashSet`'s `Deref`).
#[verifier::external_body]
pub(crate) fn coord_set_contains(s: &AHashSet<Coord>, c: &Coord) -> (r: bool)
    ensures
        r == members_of(*s).contains(*c),
{
    s.contains(c)
}

/// The glyphs placed on the cells of a board map.
pub uninterp spec fn placed_of(m: AHashMap<Coord, Symbol>) -> Map<Coord, Symbol>;

/// Relies on `AHashMap::new`: the new map is empty.
#[verifier::external_body]
pub(crate) fn placed_new() -> (r: AHashMap<Coord, Symbol>)
    ensures
        placed_of(r).dom() == Set::<Coord>::empty(),
{
    AHashMap::new()
}

/// Relies on `AHashMap::insert`: sets the glyph at `c` and returns the one it
/// replaced.
#[verifier::external_body]
pub(crate) fn placed_insert(m: &mut AHashMap<Coord, Symbol>, c: Coord, s: Symbol) -> (r: Option<Symbol>)
    ensures
        placed_of(*final(m)) == placed_of(*old(m)).insert(c, s),
        r == (if placed_of(*old(m)).contains_key(c) { Some(placed_of(*old(m))[c]) } else { None }),
{
    m.insert(c, s)
}

/// Relies on `AHashMap::get`: the glyph at `c`, if any (copied out).
#[verifier::external_body]
pub(crate) fn placed_get(m: &AHashMap<Coord, Symbol>, c: &Coord) -> (r: Option<Symbol>)
    ensures
        r == (if placed_of(*m).contains_key(*c) { Some(placed_of(*m)[*c]) } else { None }),
{
    m.get(c).copied()
}

/// Relies on `HashMap::contains_key` (through `AHashMap`'s `Deref`).
#[verifier::external_body]
pub(crate) fn placed_contains(m: &AHashMap<Coord, Symbol>, c: &Coord) -> (r: bool)
    ensures
        r == placed_of(*m).contains_key(*c),
{
    m.contains_key(c)
}

/// Relies on `AHashMap::remove`: takes the glyph at `c` out, returning it.
#[verifier::external_body]
pub(crate) fn placed_remove(m: &mut AHashMap<Coord, Symbol>, c: &Coord) -> (r: Option<Symbol>)
    ensures
        placed_of(*final(m)) == placed_of(*old(m)).remove(*c),
        r == (if placed_of(*old(m)).contains_key(*c) { Some(placed_of(*old(m))[*c]) } else { None }),
{
    m.remove(c)
}

/// Relies on `HashMap::keys` (through `AHashMap`'s `Deref`): each occupied cell
/// once, in an order that the hasher decides.
#[verifier::external_body]
pub(crate) fn placed_keys(m: &AHashMap<Coord, Symbol>) -> (r: Vec<Coord>)
    ensures
        r@.to_set() == placed_of(*m).dom(),
        r@.no_duplicates(),
{
    m.keys().copied().collect()
}

/// The glyph each key character stands for.
pub uninterp spec fn glyphs_of(m: AHashMap<char, Symbol>) -> Map<char, Symbol>;

/// Relies on `AHashMap::new`: the new map is empty.
#[verifier::external_body]
pub(crate) fn glyphs_new() -> (r: AHashMap<char, Symbol>)
    ensures
        glyphs_of(r).dom() == Set::<char>::empty(),
{
    AHashMap::new()
}

/// Relies on `AHashMap::insert`: sets the glyph for `k`.
#[verifier::external_body]
pub(crate) fn glyphs_insert(m: &mut AHashMap<char, Symbol>, k: char, s: Symbol)
    ensures
        glyphs_of(*final(m)) == glyphs_of(*old(m)).insert(k, s),
{
    m.insert(k, s);
}

/// Relies on `AHashMap::get`: the glyph for `k`, if any (copied out).
#[verifier::external_body]
pub(crate) fn glyphs_get(m: &AHashMap<char, Symbol>, k: &char) -> (r: Option<Symbol>)
    ensures
        r == (if glyphs_of(*m).contains_key(*k) { Some(glyphs_of(*m)[*k]) } else { None }),
{
    m.get(k).copied()
}

/// A group of cells that move together, held inline for small groups.
///
/// Opaque to the verifier, which cannot declare `SmallVec` itself (its
/// parameter is bound by `smallvec::Array`); its cells are seen through
/// `cells_in` and the methods below.
#[verifier::external_body]
pub struct Fragment {
    cells: SmallVec<[Coord; 8]>,
}

/// The cells of a fragment, in order.
pub uninterp spec fn cells_in(f: Fragment) -> Seq<Coord>;

impl Fragment {
    /// Relies on `SmallVec::new`: the new vector is empty.
    #[verifier::external_body]
    pub(crate) fn empty() -> (r: Fragment)
        ensures
            cells_in(r).len() == 0,
    {
        Fragment { cells: SmallVec::new() }
    }

    /// Relies on `SmallVec::push`: appends `c`.
    #[verifier::external_body]
    pub(crate) fn push(&mut self, c: Coord)
        ensures
            cells_in(*final(self)) == cells_in(*old(self)).push(c),
    {
        self.cells.push(c)
    }

    pub open spec fn spec_len(&self) -> usize {
        cells_in(*self).len() as usize
    }

    /// Relies on `SmallVec::len`.
    #[verifier::external_body]
    #[verifier::when_used_as_spec(spec_len)]
    pub(crate) fn len(&self) -> (r: usize)
        ensures
            r == cells_in(*self).len(),
    {
        self.cells.len()
    }

    /// Relies on indexing a `SmallVec` (through its `Deref` to a slice).
    #[verifier::external_body]
    pub(crate) fn get(&self, i: usize) -> (r: Coord)
        requires
            i < cells_in(*self).len(),
        ensures
            r == cells_in(*self)[i as int],
    {
        self.cells[i]
    }
}

} // verus!
