use glyph_grammar::levels::RawLevel;
use glyph_grammar::session::{ModePlaying, SelectState};

fn level(board: &str) -> glyph_grammar::levels::Level {
    RawLevel {
        name: "session".to_string(),
        symbols: vec![
            ('s', "#####\n#   #\n#   #\n#   #\n#####".to_string()),
            ('n', "#####\n  # #\n#   #\n# #  \n#####".to_string()),
            ('v', "# ###\n#    \n# ###\n#   #\n#####".to_string()),
        ],
        board: board.to_string(),
    }
    .to_level("session-level".to_string())
    .unwrap()
}

#[test]
fn solved_level_starts_won() {
    let play = ModePlaying::new_from_level(&level("snv"));
    assert!(play.won);
    assert_eq!(play.level_id, "session-level");
    assert!(play.valid_poses.contains(&(0, 0)));
    assert!(play.valid_poses.contains(&(2, 0)));
}

#[test]
fn picking_up_and_placing_a_noun_wins() {
    let mut play = ModePlaying::new_from_level(&level("s.v\n\n n"));
    assert!(!play.won);
    assert!(play.valid_poses.is_empty());

    // no click: nothing happens
    play.update(false, (1, 2));
    assert!(matches!(play.selection, SelectState::Nothing));

    // clicking an empty cell picks nothing up
    play.update(true, (4, 4));
    assert!(matches!(play.selection, SelectState::Nothing));

    play.update(true, (1, 2));
    match &play.selection {
        SelectState::HoldingFragment { origin, symbols } => {
            assert_eq!(*origin, (1, 2));
            assert_eq!(symbols.len(), 1);
        }
        SelectState::Nothing => panic!("nothing picked up"),
    }
    assert!(!play.board.symbols.contains_key(&(1, 2)));

    // onto the start particle: refused, still holding
    play.update(true, (0, 0));
    assert!(matches!(play.selection, SelectState::HoldingFragment { .. }));

    play.update(true, (1, 0));
    assert!(matches!(play.selection, SelectState::Nothing));
    assert!(play.won);
    assert!(play.valid_poses.contains(&(1, 0)));
}
