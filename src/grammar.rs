//! The sentence grammar: a finite automaton read along a line of glyphs, and
//! the modifiers that hang off it at right angles.

use vstd::prelude::*;
use ahash::AHashMap;
use crate::coord::{Coord, Direction, interior, spec_step, step};
use crate::hashed::{placed_of, placed_get, placed_contains};
use crate::symbols::{PartOfSpeech, Symbol};

verus! {

/// A structural fault in the sentences on a board.
#[derive(Debug, PartialEq, Eq)]
pub enum GrammarError {
    /// The start particle at `at` has `occupied` occupied neighbours instead of
    /// exactly one, so its reading direction is unknown.
    AmbiguousDirection { at: Coord, occupied: u8 },
    /// A modifier (a glyph with single-cell islands) stands on a sentence's spine.
    ModifierOnSpine { at: Coord },
    /// The spine's automaton cannot take the glyph (or the empty cell) at `at`.
    UnexpectedToken { at: Coord },
    /// A modifier's noun or verb kind differs from its base's.
    ModifierKind { at: Coord },
    /// A modifier does not have exactly one single-cell island.
    ModifierDepth { at: Coord },
    /// A modifier's island count differs from its base's.
    ModifierIslands { at: Coord },
    /// Glyphs that belong to no valid sentence.
    Leftover { at: Vec<Coord> },
}

/// What a cell on a sentence's spine holds, as the automaton sees it.
#[derive(Clone, Copy, Debug, PartialEq, Eq, Structural)]
pub enum SpineKind {
    Start,
    Collator,
    Verb,
    Noun,
    /// An empty cell: the natural end of a spine.
    Eof,
}

/// The automaton's state: what may come next on the spine.
#[derive(Clone, Copy, Debug, PartialEq, Eq, Structural)]
pub enum SpineState {
    /// Before anything: the start particle must come.
    Origin,
    /// After the start particle; a noun must come.
    Start,
    /// After the first subject noun; a verb or another noun may come.
    Subject1,
    /// After two or more subject nouns; another noun or a collator may come.
    SubjectN,
    /// After the subject collator; a verb must come.
    SubjectCollator,
    /// After the verb; the end or an object noun may come.
    Verb,
    /// After the first object noun; the end or another noun may come.
    Object1,
    /// After two or more object nouns; another noun or a collator may come.
    ObjectN,
    /// After the object collator; the end must come.
    ObjectCollator,
    /// The sentence is complete.
    Satisfied,
}

/// The transition table of the spine automaton.
pub open spec fn spec_next_state(s: SpineState, k: SpineKind) -> Option<SpineState> {
    match (s, k) {
        (SpineState::Origin, SpineKind::Start) => Some(SpineState::Start),
        (SpineState::Start, SpineKind::Noun) => Some(SpineState::Subject1),
        (SpineState::Subject1, SpineKind::Noun) => Some(SpineState::SubjectN),
        (SpineState::Subject1, SpineKind::Verb) => Some(SpineState::Verb),
        (SpineState::SubjectN, SpineKind::Noun) => Some(SpineState::SubjectN),
        (SpineState::SubjectN, SpineKind::Collator) => Some(SpineState::SubjectCollator),
        (SpineState::SubjectCollator, SpineKind::Verb) => Some(SpineState::Verb),
        (SpineState::Verb, SpineKind::Eof) => Some(SpineState::Satisfied),
        (SpineState::Verb, SpineKind::Noun) => Some(SpineState::Object1),
        (SpineState::Object1, SpineKind::Noun) => Some(SpineState::ObjectN),
        (SpineState::Object1, SpineKind::Eof) => Some(SpineState::Satisfied),
        (SpineState::ObjectN, SpineKind::Noun) => Some(SpineState::ObjectN),
        (SpineState::ObjectN, SpineKind::Collator) => Some(SpineState::ObjectCollator),
        (SpineState::ObjectCollator, SpineKind::Eof) => Some(SpineState::Satisfied),
        _ => None,
    }
}

/// The state the automaton moves to from `s` on `k`, or `None` if it cannot
/// take `k` there.
pub fn next_state(s: SpineState, k: SpineKind) -> (r: Option<SpineState>)
    ensures
        r == spec_next_state(s, k),
{
    match (s, k) {
        (SpineState::Origin, SpineKind::Start) => Some(SpineState::Start),
        (SpineState::Start, SpineKind::Noun) => Some(SpineState::Subject1),
        (SpineState::Subject1, SpineKind::Noun) => Some(SpineState::SubjectN),
        (SpineState::Subject1, SpineKind::Verb) => Some(SpineState::Verb),
        (SpineState::SubjectN, SpineKind::Noun) => Some(SpineState::SubjectN),
        (SpineState::SubjectN, SpineKind::Collator) => Some(SpineState::SubjectCollator),
        (SpineState::SubjectCollator, SpineKind::Verb) => Some(SpineState::Verb),
        (SpineState::Verb, SpineKind::Eof) => Some(SpineState::Satisfied),
        (SpineState::Verb, SpineKind::Noun) => Some(SpineState::Object1),
        (SpineState::Object1, SpineKind::Noun) => Some(SpineState::ObjectN),
        (SpineState::Object1, SpineKind::Eof) => Some(SpineState::Satisfied),
        (SpineState::ObjectN, SpineKind::Noun) => Some(SpineState::ObjectN),
        (SpineState::ObjectN, SpineKind::Collator) => Some(SpineState::ObjectCollator),
        (SpineState::ObjectCollator, SpineKind::Eof) => Some(SpineState::Satisfied),
        _ => None,
    }
}

/// The spine kind of a cell's glyph (`None` for an empty cell), or `None` for
/// a noun or verb that is a modifier.
pub open spec fn spec_spine_kind(p: Option<PartOfSpeech>) -> Option<SpineKind> {
    match p {
        None => Some(SpineKind::Eof),
        Some(PartOfSpeech::ParticleStart) => Some(SpineKind::Start),
        Some(PartOfSpeech::ParticleCollate) => Some(SpineKind::Collator),
        Some(PartOfSpeech::Noun { depth, .. }) => if depth == 0 { Some(SpineKind::Noun) } else { None },
        Some(PartOfSpeech::Verb { depth, .. }) => if depth == 0 { Some(SpineKind::Verb) } else { None },
    }
}

/// The spine kind of a cell's glyph; `None` for a modifier.
pub fn spine_kind(p: Option<PartOfSpeech>) -> (r: Option<SpineKind>)
    ensures
        r == spec_spine_kind(p),
{
    match p {
        None => Some(SpineKind::Eof),
        Some(PartOfSpeech::ParticleStart) => Some(SpineKind::Start),
        Some(PartOfSpeech::ParticleCollate) => Some(SpineKind::Collator),
        Some(PartOfSpeech::Noun { depth, .. }) => if depth == 0 { Some(SpineKind::Noun) } else { None },
        Some(PartOfSpeech::Verb { depth, .. }) => if depth == 0 { Some(SpineKind::Verb) } else { None },
    }
}

/// How far a walk from `c` in direction `d` can still go before leaving the
/// range of `i64`.
pub open spec fn room(c: Coord, d: Direction) -> int {
    match d {
        Direction::North => c.1 - i64::MIN,
        Direction::East => i64::MAX - c.0,
        Direction::South => i64::MAX - c.1,
        Direction::West => c.0 - i64::MIN,
    }
}

/// The part of speech at a cell, if it is occupied.
pub open spec fn part_at(m: Map<Coord, Symbol>, c: Coord) -> Option<PartOfSpeech> {
    if m.contains_key(c) { Some(m[c].part_of_speech) } else { None }
}

/// Runs the spine automaton from state `s` at cell `c`, stepping by `d`: the
/// cells read before it is satisfied, or the fault that stops it.
pub open spec fn spine_from(m: Map<Coord, Symbol>, c: Coord, d: Direction, s: SpineState) -> Result<Seq<Coord>, GrammarError>
    decreases room(c, d),
{
    match spec_spine_kind(part_at(m, c)) {
        None => Err(GrammarError::ModifierOnSpine { at: c }),
        Some(k) => match spec_next_state(s, k) {
            None => Err(GrammarError::UnexpectedToken { at: c }),
            Some(SpineState::Satisfied) => Ok(Seq::empty()),
            Some(next) => if interior(c) {
                match spine_from(m, spec_step(c, d), d, next) {
                    Ok(rest) => Ok(seq![c] + rest),
                    Err(e) => Err(e),
                }
            } else {
                Err(GrammarError::UnexpectedToken { at: c })
            },
        },
    }
}

/// The modifier chain that starts at `c` and runs in direction `d`, hanging
/// off a base of the given kind and island count: the cells up to the first
/// empty cell or particle, or the first modifier that does not match.
pub open spec fn chain_from(m: Map<Coord, Symbol>, c: Coord, d: Direction, noun: bool, islands: u8) -> Result<Seq<Coord>, GrammarError>
    decreases room(c, d),
{
    let (is_noun, i, depth) = match part_at(m, c) {
        Some(PartOfSpeech::Noun { islands, depth }) => (true, islands, depth),
        Some(PartOfSpeech::Verb { islands, depth }) => (false, islands, depth),
        _ => (false, 0u8, 0u8),
    };
    match part_at(m, c) {
        Some(PartOfSpeech::Noun { .. }) | Some(PartOfSpeech::Verb { .. }) => {
            if is_noun != noun {
                Err(GrammarError::ModifierKind { at: c })
            } else if depth != 1 {
                Err(GrammarError::ModifierDepth { at: c })
            } else if i != islands {
                Err(GrammarError::ModifierIslands { at: c })
            } else if interior(c) {
                match chain_from(m, spec_step(c, d), d, noun, islands) {
                    Ok(rest) => Ok(seq![c] + rest),
                    Err(e) => Err(e),
                }
            } else {
                Ok(seq![c])
            }
        },
        _ => Ok(Seq::empty()),
    }
}

/// The modifiers of the spine cell `c` read in direction `d`: the chain on its
/// clockwise side, then the one on its counter-clockwise side.
pub open spec fn modifiers_at(m: Map<Coord, Symbol>, c: Coord, d: Direction) -> Result<Seq<Coord>, GrammarError> {
    let base = match part_at(m, c) {
        Some(PartOfSpeech::Noun { islands, depth }) => if depth == 0 { Some((true, islands)) } else { None },
        Some(PartOfSpeech::Verb { islands, depth }) => if depth == 0 { Some((false, islands)) } else { None },
        _ => None,
    };
    match base {
        None => Ok(Seq::empty()),
        Some((noun, islands)) => if !interior(c) {
            Ok(Seq::empty())
        } else {
            match chain_from(m, spec_step(c, d.spec_clockwise()), d.spec_clockwise(), noun, islands) {
                Err(e) => Err(e),
                Ok(a) => match chain_from(m, spec_step(c, d.spec_counter_clockwise()), d.spec_counter_clockwise(), noun, islands) {
                    Err(e) => Err(e),
                    Ok(b) => Ok(a + b),
                },
            }
        },
    }
}

/// The modifiers of the first `n` cells of the spine, in spine order; the
/// first fault stops the collection.
pub open spec fn modifiers_of(m: Map<Coord, Symbol>, spine: Seq<Coord>, d: Direction, n: int) -> Result<Seq<Coord>, GrammarError>
    decreases n,
{
    if n <= 0 {
        Ok(Seq::empty())
    } else {
        match modifiers_of(m, spine, d, n - 1) {
            Err(e) => Err(e),
            Ok(acc) => match modifiers_at(m, spine[n - 1], d) {
                Err(e) => Err(e),
                Ok(more) => Ok(acc + more),
            },
        }
    }
}

/// The cell next to `c` in direction `d` is occupied.
pub open spec fn occupied_toward(m: Map<Coord, Symbol>, c: Coord, d: Direction) -> bool {
    m.contains_key(spec_step(c, d))
}

/// How many of the four neighbours of `c` are occupied.
pub open spec fn occupied_neighbours(m: Map<Coord, Symbol>, c: Coord) -> int {
    (if occupied_toward(m, c, Direction::North) { 1int } else { 0int })
        + (if occupied_toward(m, c, Direction::East) { 1int } else { 0int })
        + (if occupied_toward(m, c, Direction::South) { 1int } else { 0int })
        + (if occupied_toward(m, c, Direction::West) { 1int } else { 0int })
}

/// The sentence read from the start particle at `origin`: its spine, then
/// the modifiers of each spine cell; or the first fault found.
#[verifier::opaque]
pub open spec fn sentence(m: Map<Coord, Symbol>, origin: Coord) -> Result<Seq<Coord>, GrammarError> {
    if occupied_neighbours(m, origin) != 1 {
        Err(GrammarError::AmbiguousDirection { at: origin, occupied: occupied_neighbours(m, origin) as u8 })
    } else {
        let d = choose|d: Direction| occupied_toward(m, origin, d);
        match spine_from(m, origin, d, SpineState::Origin) {
            Err(e) => Err(e),
            Ok(spine) => match modifiers_of(m, spine, d, spine.len() as int) {
                Err(e) => Err(e),
                Ok(mods) => Ok(spine + mods),
            },
        }
    }
}

/// Every occupied cell of the map can be stepped from in any direction.
pub open spec fn cells_interior(m: Map<Coord, Symbol>) -> bool {
    forall|c: Coord| #[trigger] m.contains_key(c) ==> interior(c)
}

/// `pre` put in front of a successful reading; a fault passes through.
pub open spec fn prepend(pre: Seq<Coord>, r: Result<Seq<Coord>, GrammarError>) -> Result<Seq<Coord>, GrammarError> {
    match r {
        Ok(s) => Ok(pre + s),
        Err(e) => Err(e),
    }
}

/// Once collecting modifiers has failed, it stays failed with the same fault.
proof fn lemma_modifiers_fail(m: Map<Coord, Symbol>, spine: Seq<Coord>, d: Direction, t: int, n: int)
    requires
        0 <= t <= n,
        modifiers_of(m, spine, d, t) is Err,
    ensures
        modifiers_of(m, spine, d, n) == modifiers_of(m, spine, d, t),
    decreases n - t,
{
    if t < n {
        lemma_modifiers_fail(m, spine, d, t, n - 1);
    }
}

/// The one direction from `origin` whose neighbour is occupied.
fn reading_direction(symbols: &AHashMap<Coord, Symbol>, origin: Coord) -> (r: Result<Direction, GrammarError>)
    requires
        interior(origin),
    ensures
        occupied_neighbours(placed_of(*symbols), origin) == 1 ==> r is Ok
            && r->Ok_0 == choose|d: Direction| occupied_toward(placed_of(*symbols), origin, d),
        occupied_neighbours(placed_of(*symbols), origin) != 1 ==> r == Err::<Direction, GrammarError>(
            GrammarError::AmbiguousDirection { at: origin, occupied: occupied_neighbours(placed_of(*symbols), origin) as u8 }),
{
    let ghost m = placed_of(*symbols);
    let n = placed_contains(symbols, &step(origin, Direction::North));
    let e = placed_contains(symbols, &step(origin, Direction::East));
    let s = placed_contains(symbols, &step(origin, Direction::South));
    let w = placed_contains(symbols, &step(origin, Direction::West));
    let mut count: u8 = 0;
    if n {
        count = count + 1;
    }
    if e {
        count = count + 1;
    }
    if s {
        count = count + 1;
    }
    if w {
        count = count + 1;
    }
    if count != 1 {
        return Err(GrammarError::AmbiguousDirection { at: origin, occupied: count });
    }
    let d = if n {
        Direction::North
    } else if e {
        Direction::East
    } else if s {
        Direction::South
    } else {
        Direction::West
    };
    proof {
        assert(occupied_toward(m, origin, d));
        assert forall|d2: Direction| occupied_toward(m, origin, d2) implies d2 == d by {
            match d2 {
                Direction::North => {},
                Direction::East => {},
                Direction::South => {},
                Direction::West => {},
            }
        }
    }
    Ok(d)
}

/// Appends to `out` the modifier chain that starts at `start` and runs in
/// direction `d`.
fn collect_chain(symbols: &AHashMap<Coord, Symbol>, start: Coord, d: Direction, noun: bool, islands: u8, out: &mut Vec<Coord>) -> (r: Result<(), GrammarError>)
    requires
        cells_interior(placed_of(*symbols)),
    ensures
        chain_from(placed_of(*symbols), start, d, noun, islands) matches Ok(c) ==> r is Ok && final(out)@ == old(out)@ + c,
        chain_from(placed_of(*symbols), start, d, noun, islands) matches Err(e) ==> r == Err::<(), GrammarError>(e),
        forall|k: int| old(out).len() <= k < final(out).len() ==> #[trigger] placed_of(*symbols).contains_key(final(out)@[k]),
        old(out).len() <= final(out).len(),
        forall|k: int| 0 <= k < old(out).len() ==> #[trigger] final(out)@[k] == old(out)@[k],
{
    let ghost m = placed_of(*symbols);
    let ghost out0 = out@;
    let ghost mut got: Seq<Coord> = Seq::empty();
    let mut pos = start;
    assert(got + chain_from(m, start, d, noun, islands)->Ok_0 =~= chain_from(m, start, d, noun, islands)->Ok_0);
    loop
        invariant
            cells_interior(m),
            m == placed_of(*symbols),
            out0 == old(out)@,
            out@ == out0 + got,
            forall|k: int| 0 <= k < got.len() ==> #[trigger] m.contains_key(got[k]),
            chain_from(m, start, d, noun, islands) == prepend(got, chain_from(m, pos, d, noun, islands)),
        decreases room(pos, d),
    {
        let (is_noun, i, depth) = match placed_get(symbols, &pos) {
            None => {
                assert(part_at(m, pos) is None);
                assert(chain_from(m, pos, d, noun, islands) == Ok::<Seq<Coord>, GrammarError>(Seq::empty()));
                assert(out@ =~= out0 + (got + Seq::<Coord>::empty()));
                return Ok(());
            },
            Some(sym) => match sym.part_of_speech {
                PartOfSpeech::Noun { islands, depth } => (true, islands, depth),
                PartOfSpeech::Verb { islands, depth } => (false, islands, depth),
                _ => {
                    assert(out@ =~= out0 + (got + Seq::<Coord>::empty()));
                    return Ok(());
                },
            },
        };
        if is_noun != noun {
            return Err(GrammarError::ModifierKind { at: pos });
        } else if depth != 1 {
            return Err(GrammarError::ModifierDepth { at: pos });
        } else if i != islands {
            return Err(GrammarError::ModifierIslands { at: pos });
        }
        assert(m.contains_key(pos));
        out.push(pos);
        proof {
            let rest = chain_from(m, spec_step(pos, d), d, noun, islands);
            if rest is Ok {
                assert(got + (seq![pos] + rest->Ok_0) =~= got.push(pos) + rest->Ok_0);
            }
            assert forall|k: int| 0 <= k < got.len() + 1 implies #[trigger] m.contains_key(got.push(pos)[k]) by {
                if k < got.len() {
                    assert(got.push(pos)[k] == got[k]);
                }
            }
            got = got.push(pos);
        }
        pos = step(pos, d);
    }
}

/// Reads the sentence that starts at the start particle at `origin`.
///
/// On success, returns the cells of its spine (from `origin` up to the empty
/// cell that ends it) followed by the modifiers of each spine cell.
pub fn check_from_start(symbols: &AHashMap<Coord, Symbol>, origin: Coord) -> (r: Result<Vec<Coord>, GrammarError>)
    requires
        cells_interior(placed_of(*symbols)),
        interior(origin),
    ensures
        r matches Ok(v) ==> sentence(placed_of(*symbols), origin) is Ok && sentence(placed_of(*symbols), origin)->Ok_0 == v@,
        r matches Err(e) ==> sentence(placed_of(*symbols), origin) == Err::<Seq<Coord>, GrammarError>(e),
        r matches Ok(v) ==> forall|k: int| 0 <= k < v.len() ==> #[trigger] placed_of(*symbols).contains_key(v@[k]),
{
    reveal(sentence);
    let ghost m = placed_of(*symbols);
    let d = match reading_direction(symbols, origin) {
        Ok(d) => d,
        Err(e) => return Err(e),
    };
    let mut state = SpineState::Origin;
    let mut pos = origin;
    let mut spine: Vec<Coord> = Vec::new();
    assert(spine_from(m, origin, d, SpineState::Origin) == prepend(spine@, spine_from(m, origin, d, SpineState::Origin))) by {
        let r0 = spine_from(m, origin, d, SpineState::Origin);
        if r0 is Ok {
            assert(spine@ + r0->Ok_0 =~= r0->Ok_0);
        }
    }
    loop
        invariant
            cells_interior(m),
            m == placed_of(*symbols),
            occupied_neighbours(m, origin) == 1,
            d == choose|d: Direction| occupied_toward(m, origin, d),
            spine_from(m, origin, d, SpineState::Origin) == prepend(spine@, spine_from(m, pos, d, state)),
            forall|k: int| 0 <= k < spine.len() ==> #[trigger] m.contains_key(spine@[k]),
        ensures
            spine_from(m, origin, d, SpineState::Origin) == Ok::<Seq<Coord>, GrammarError>(spine@),
            forall|k: int| 0 <= k < spine.len() ==> #[trigger] m.contains_key(spine@[k]),
        decreases room(pos, d),
    {
        proof {
            reveal(sentence);
        }
        let part = match placed_get(symbols, &pos) {
            Some(sym) => Some(sym.part_of_speech),
            None => None,
        };
        assert(part == part_at(m, pos));
        let kind = match spine_kind(part) {
            Some(k) => k,
            None => return Err(GrammarError::ModifierOnSpine { at: pos }),
        };
        match next_state(state, kind) {
            None => return Err(GrammarError::UnexpectedToken { at: pos }),
            Some(SpineState::Satisfied) => {
                assert(spine@ + Seq::<Coord>::empty() =~= spine@);
                break;
            },
            Some(next) => {
                assert(m.contains_key(pos));
                let ghost before = spine@;
                spine.push(pos);
                proof {
                    let rest = spine_from(m, spec_step(pos, d), d, next);
                    if rest is Ok {
                        assert(before + (seq![pos] + rest->Ok_0) =~= spine@ + rest->Ok_0);
                    }
                    assert forall|k: int| 0 <= k < spine.len() implies #[trigger] m.contains_key(spine@[k]) by {
                        if k < before.len() {
                            assert(spine@[k] == before[k]);
                        }
                    }
                }
                state = next;
                pos = step(pos, d);
            },
        }
    }
    let cw = d.clockwise();
    let ccw = d.counter_clockwise();
    let mut mods: Vec<Coord> = Vec::new();
    for t in 0..spine.len()
        invariant
            cells_interior(m),
            m == placed_of(*symbols),
            occupied_neighbours(m, origin) == 1,
            d == choose|d: Direction| occupied_toward(m, origin, d),
            spine_from(m, origin, d, SpineState::Origin) == Ok::<Seq<Coord>, GrammarError>(spine@),
            forall|k: int| 0 <= k < spine.len() ==> #[trigger] m.contains_key(spine@[k]),
            cw == d.spec_clockwise(),
            ccw == d.spec_counter_clockwise(),
            modifiers_of(m, spine@, d, t as int) == Ok::<Seq<Coord>, GrammarError>(mods@),
            forall|k: int| 0 <= k < mods.len() ==> #[trigger] m.contains_key(mods@[k]),
    {
        proof {
            reveal(sentence);
        }
        let base = spine[t];
        assert(m.contains_key(spine@[t as int]));
        let ghost before = mods@;
        let found = match placed_get(symbols, &base) {
            Some(sym) => match sym.part_of_speech {
                PartOfSpeech::Noun { islands, depth } => if depth == 0 { Some((true, islands)) } else { None },
                PartOfSpeech::Verb { islands, depth } => if depth == 0 { Some((false, islands)) } else { None },
                _ => None,
            },
            None => None,
        };
        match found {
            None => {
                assert(mods@ + Seq::<Coord>::empty() =~= mods@);
            },
            Some((noun, islands)) => {
                assert(interior(base));
                match collect_chain(symbols, step(base, cw), cw, noun, islands, &mut mods) {
                    Ok(()) => {},
                    Err(e) => {
                        proof {
                            lemma_modifiers_fail(m, spine@, d, t + 1, spine.len() as int);
                        }
                        return Err(e);
                    },
                }
                let ghost mid = mods@;
                assert forall|k: int| 0 <= k < mid.len() implies #[trigger] m.contains_key(mid[k]) by {
                    if k >= before.len() {
                    }
                }
                match collect_chain(symbols, step(base, ccw), ccw, noun, islands, &mut mods) {
                    Ok(()) => {},
                    Err(e) => {
                        proof {
                            lemma_modifiers_fail(m, spine@, d, t + 1, spine.len() as int);
                        }
                        return Err(e);
                    },
                }
                proof {
                    let a = chain_from(m, spec_step(base, cw), cw, noun, islands)->Ok_0;
                    let b = chain_from(m, spec_step(base, ccw), ccw, noun, islands)->Ok_0;
                    assert(before + (a + b) =~= mods@);
                }
            },
        }
    }
    let ghost sp = spine@;
    let mut out = spine;
    let ghost mv = mods@;
    let mut mods = mods;
    out.append(&mut mods);
    assert(out@ == sp + mv);
    assert forall|k: int| 0 <= k < out.len() implies #[trigger] m.contains_key(out@[k]) by {
        if k < sp.len() {
            assert(out@[k] == sp[k]);
        } else {
            assert(out@[k] == mv[k - sp.len()]);
        }
    }
    Ok(out)
}

} // verus!
