use glyph_grammar::board::Board;
use glyph_grammar::grammar::{check_from_start, GrammarError};
use glyph_grammar::levels::{Level, RawLevel};
use glyph_grammar::symbols::{FormatError, PartOfSpeech};

const START: &str = "#####\n#   #\n#   #\n#   #\n#####";
const COLLATE: &str = "#####\n#   #\n# # #\n#   #\n#####";
// Noun { islands: 2, depth: 0 }
const NOUN: &str = "#####\n  # #\n#   #\n# #  \n#####";
// Noun { islands: 2, depth: 1 }
const ADJECTIVE: &str = " ####\n##  #\n# # #\n#  ##\n#### ";
// Noun { islands: 1, depth: 0 }
const OTHER_NOUN: &str = "## ##\n#   #\n#####\n#   #\n## ##";
// Verb { islands: 2, depth: 0 }
const VERB: &str = "# ###\n#    \n# ###\n#   #\n#####";

fn raw(board: &str) -> RawLevel {
    RawLevel {
        name: "test level".to_string(),
        symbols: vec![
            ('s', START.to_string()),
            ('c', COLLATE.to_string()),
            ('n', NOUN.to_string()),
            ('a', ADJECTIVE.to_string()),
            ('o', OTHER_NOUN.to_string()),
            ('v', VERB.to_string()),
        ],
        board: board.to_string(),
    }
}

fn build(board: &str) -> Level {
    raw(board).to_level("test".to_string()).unwrap()
}

fn sorted(mut v: Vec<(i64, i64)>) -> Vec<(i64, i64)> {
    v.sort();
    v.dedup();
    v
}

fn occupied(board: &Board) -> Vec<(i64, i64)> {
    sorted(board.symbols.keys().copied().collect())
}

#[test]
fn layout_round_trips_to_occupied_cells() {
    let level = build("sn.v\n_  n\n\n  o");
    assert_eq!(level.id, "test");
    assert_eq!(level.name, "test level");
    assert_eq!(
        occupied(&level.original_board),
        vec![(0, 0), (1, 0), (2, 3), (3, 0), (3, 1)]
    );
    assert_eq!(
        level.original_board.symbols[&(3, 0)].part_of_speech,
        PartOfSpeech::Verb { islands: 2, depth: 0 }
    );
}

#[test]
fn fragments_are_the_connected_regions() {
    let level = build("sn.v\n   n\n\n  o");
    let mut frags: Vec<Vec<(i64, i64)>> = level
        .original_board
        .fragments
        .iter()
        .map(|f| sorted(f.cells()))
        .collect();
    frags.sort();
    assert_eq!(
        frags,
        vec![vec![(0, 0), (1, 0)], vec![(2, 3)], vec![(3, 0), (3, 1)]]
    );
}

#[test]
fn unmapped_layout_character_is_reported() {
    let err = raw("sn\n x").to_level("t".to_string()).err().unwrap();
    assert_eq!(err, FormatError::UnmappedCharacter { key: 'x', x: 1, y: 1 });
}

#[test]
fn blank_key_is_rejected() {
    let mut level = raw("sn");
    level.symbols.push(('.', NOUN.to_string()));
    assert_eq!(level.to_level("t".to_string()).err(), Some(FormatError::AmbiguousKey { key: '.' }));
}

#[test]
fn oversized_pattern_is_rejected() {
    let mut level = raw("sn");
    level.symbols.push(('z', "######".to_string()));
    assert_eq!(level.to_level("t".to_string()).err(), Some(FormatError::PatternTooLarge));
}

#[test]
fn subject_verb_sentence_is_solved() {
    let level = build("snv");
    let (ok, errors) = level.original_board.check_grammar();
    assert!(errors.is_empty(), "{:?}", errors);
    assert_eq!(sorted(ok), vec![(0, 0), (1, 0), (2, 0)]);
}

#[test]
fn sentence_reads_downward_too() {
    let level = build("s\nn\nv\n");
    let found = check_from_start(&level.original_board.symbols, (0, 0)).unwrap();
    assert_eq!(found, vec![(0, 0), (0, 1), (0, 2)]);
}

#[test]
fn subject_list_with_collator_and_objects() {
    let level = build("snncvnnc");
    let (ok, errors) = level.original_board.check_grammar();
    assert!(errors.is_empty(), "{:?}", errors);
    assert_eq!(ok.len(), 8);
}

#[test]
fn adjective_below_the_noun_is_attached() {
    // reading east, the clockwise side is south
    let level = build("snv\n a");
    let found = check_from_start(&level.original_board.symbols, (0, 0)).unwrap();
    assert_eq!(found, vec![(0, 0), (1, 0), (2, 0), (1, 1)]);
    let (_, errors) = level.original_board.check_grammar();
    assert!(errors.is_empty());
}

#[test]
fn adjective_above_the_noun_is_attached() {
    let level = build(" a\nsnv");
    let found = check_from_start(&level.original_board.symbols, (0, 1)).unwrap();
    assert_eq!(found, vec![(0, 1), (1, 1), (2, 1), (1, 0)]);
}

#[test]
fn modifier_of_the_wrong_depth_is_an_error() {
    let level = build("snv\n n");
    assert_eq!(
        check_from_start(&level.original_board.symbols, (0, 0)),
        Err(GrammarError::ModifierDepth { at: (1, 1) })
    );
}

#[test]
fn modifier_of_the_wrong_kind_is_an_error() {
    let level = build("snv\n  a");
    assert_eq!(
        check_from_start(&level.original_board.symbols, (0, 0)),
        Err(GrammarError::ModifierKind { at: (2, 1) })
    );
}

#[test]
fn modifier_with_other_island_count_is_an_error() {
    // a depth-1 noun with one island hangs off a noun with two
    let mut level = raw("snv\n m");
    level.symbols.push(('m', ".....\n.....\n..#..\n.....\n.....".to_string()));
    let level = level.to_level("t".to_string()).unwrap();
    let m = level.original_board.symbols[&(1, 1)].part_of_speech;
    match m {
        PartOfSpeech::Noun { islands, depth: 1 } if islands != 2 => {
            assert_eq!(
                check_from_start(&level.original_board.symbols, (0, 0)),
                Err(GrammarError::ModifierIslands { at: (1, 1) })
            );
        }
        other => panic!("unexpected glyph {:?}", other),
    }
}

#[test]
fn verb_right_after_start_is_unexpected() {
    let level = build("sv");
    assert_eq!(
        check_from_start(&level.original_board.symbols, (0, 0)),
        Err(GrammarError::UnexpectedToken { at: (1, 0) })
    );
}

#[test]
fn sentence_without_verb_is_unexpected_at_its_end() {
    let level = build("sn");
    assert_eq!(
        check_from_start(&level.original_board.symbols, (0, 0)),
        Err(GrammarError::UnexpectedToken { at: (2, 0) })
    );
}

#[test]
fn modifier_on_the_spine_is_an_error() {
    let level = build("sav");
    assert_eq!(
        check_from_start(&level.original_board.symbols, (0, 0)),
        Err(GrammarError::ModifierOnSpine { at: (1, 0) })
    );
}

#[test]
fn start_with_two_neighbours_is_ambiguous() {
    let level = build("snv\nn");
    assert_eq!(
        check_from_start(&level.original_board.symbols, (0, 0)),
        Err(GrammarError::AmbiguousDirection { at: (0, 0), occupied: 2 })
    );
}

#[test]
fn lone_start_is_ambiguous() {
    let level = build("s");
    let (ok, errors) = level.original_board.check_grammar();
    assert!(ok.is_empty());
    assert_eq!(errors.len(), 2);
    assert!(errors.contains(&GrammarError::AmbiguousDirection { at: (0, 0), occupied: 0 }));
    assert!(errors.contains(&GrammarError::Leftover { at: vec![(0, 0)] }));
}

#[test]
fn glyphs_outside_sentences_are_leftover() {
    let level = build("snv\n\n   o");
    let (ok, errors) = level.original_board.check_grammar();
    assert_eq!(sorted(ok), vec![(0, 0), (1, 0), (2, 0)]);
    assert_eq!(errors, vec![GrammarError::Leftover { at: vec![(3, 2)] }]);
}

#[test]
fn lift_then_place_keeps_the_partition() {
    let mut board = build("snv\n\n   o").original_board;
    let idx = board.fragment_at((3, 2)).unwrap();
    assert_eq!(board.fragment_at((5, 5)), None);
    let held = board.lift(idx);
    assert_eq!(held.len(), 1);
    assert_eq!(held[0].0, (3, 2));
    assert_eq!(occupied(&board), vec![(0, 0), (1, 0), (2, 0)]);
    assert_eq!(board.fragments.len(), 1);
    // onto an occupied cell, or off the board: refused
    assert!(!board.can_place(&held, (3, 2), (1, 0)));
    assert!(!board.can_place(&held, (3, 2), (-1, 0)));
    assert!(!board.can_place(&held, (3, 2), (13, 0)));
    assert!(board.can_place(&held, (3, 2), (12, 12)));
    board.place(&held, (3, 2), (4, 4));
    assert_eq!(occupied(&board), vec![(0, 0), (1, 0), (2, 0), (4, 4)]);
    assert_eq!(board.fragments.len(), 2);
    assert_eq!(board.fragments[1].cells(), vec![(4, 4)]);
    assert_eq!(board.fragment_at((4, 4)), Some(1));
}

#[test]
fn lifting_a_missing_fragment_changes_nothing() {
    let mut board = build("snv").original_board;
    assert!(board.lift(7).is_empty());
    assert_eq!(occupied(&board), vec![(0, 0), (1, 0), (2, 0)]);
    assert_eq!(board.fragments.len(), 1);
}

#[test]
fn moving_a_noun_into_place_solves_the_board() {
    let mut board = build("s.v\n\n n").original_board;
    let (_, errors) = board.check_grammar();
    assert!(!errors.is_empty());
    let idx = board.fragment_at((1, 2)).unwrap();
    let held = board.lift(idx);
    assert!(board.can_place(&held, (1, 2), (1, 0)));
    board.place(&held, (1, 2), (1, 0));
    let (ok, errors) = board.check_grammar();
    assert!(errors.is_empty(), "{:?}", errors);
    assert_eq!(sorted(ok), occupied(&board));
}
