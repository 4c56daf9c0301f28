use std::str::FromStr;

use glyph_grammar::symbols::{FormatError, PartOfSpeech, Symbol, COLLATE_CODE, START_CODE};

#[test]
fn parse_parts_of_speech() {
    let tests = [
        (
            "#####\n#   #\n# # #\n#   #\n#####",
            PartOfSpeech::ParticleCollate,
        ),
        (
            "#####\n  # #\n#   #\n# #  \n#####",
            PartOfSpeech::Noun {
                islands: 2,
                depth: 0,
            },
        ),
        (
            " ####\n##  #\n# # #\n#  ##\n#### ",
            PartOfSpeech::Noun {
                islands: 2,
                depth: 1,
            },
        ),
        (
            "# ###\n#    \n# ###\n#   #\n#####",
            PartOfSpeech::Verb {
                islands: 2,
                depth: 0,
            },
        ),
        (
            "#####\n#   #\n# # #\n    #\n#####",
            PartOfSpeech::Verb {
                islands: 2,
                depth: 1,
            },
        ),
        (
            "## ##\n#   #\n#####\n#   #\n## ##",
            PartOfSpeech::Noun {
                islands: 1,
                depth: 0,
            },
        ),
    ];
    for (idx, (test, expect)) in tests.iter().enumerate() {
        let res = Symbol::from_str(test).unwrap().part_of_speech;
        assert_eq!(res, *expect, "testing idx {}: \n{}", idx, test);
    }
}

#[test]
fn start_pattern_is_the_start_particle() {
    let sym = Symbol::from_pattern("#####\n#   #\n#   #\n#   #\n#####").unwrap();
    assert_eq!(sym.code, START_CODE);
    assert_eq!(sym.part_of_speech, PartOfSpeech::ParticleStart);
}

#[test]
fn sentinel_codes_skip_the_analysis() {
    assert_eq!(PartOfSpeech::new_from_code(START_CODE), PartOfSpeech::ParticleStart);
    assert_eq!(PartOfSpeech::new_from_code(COLLATE_CODE), PartOfSpeech::ParticleCollate);
}

#[test]
fn empty_bitmap_is_a_bare_noun() {
    assert_eq!(PartOfSpeech::new_from_code(0), PartOfSpeech::Noun { islands: 0, depth: 0 });
    let sym = Symbol::from_pattern("").unwrap();
    assert_eq!(sym.code, 0);
    assert_eq!(Symbol::from_pattern(".....\n_____\n     ").unwrap().code, 0);
}

#[test]
fn single_cell_is_one_singleton_island() {
    // the centre cell alone is symmetric under a half turn
    assert_eq!(PartOfSpeech::new_from_code(1 << 12), PartOfSpeech::Noun { islands: 1, depth: 1 });
    // the top-left corner alone is not
    assert_eq!(PartOfSpeech::new_from_code(1), PartOfSpeech::Verb { islands: 1, depth: 1 });
}

#[test]
fn diagonal_cells_are_separate_islands() {
    // cells (0, 0) and (1, 1) touch only at a corner
    let code = 1 | (1 << 6);
    assert_eq!(PartOfSpeech::new_from_code(code), PartOfSpeech::Verb { islands: 2, depth: 2 });
}

#[test]
fn bits_follow_rows_and_columns() {
    let sym = Symbol::from_pattern("#\n.#\n..#").unwrap();
    assert_eq!(sym.code, 1 | (1 << 6) | (1 << 12));
}

#[test]
fn carriage_returns_end_lines() {
    let a = Symbol::from_pattern("#####\r\n#   #\r\n# # #\r\n#   #\r\n#####").unwrap();
    assert_eq!(a.part_of_speech, PartOfSpeech::ParticleCollate);
}

#[test]
fn too_many_lines_is_rejected() {
    assert_eq!(Symbol::from_pattern("#\n#\n#\n#\n#\n#"), Err(FormatError::PatternTooLarge));
}

#[test]
fn too_long_a_line_is_rejected() {
    assert_eq!(Symbol::from_pattern("######"), Err(FormatError::PatternTooLarge));
    assert_eq!(Symbol::from_str("#\n#    #"), Err(FormatError::PatternTooLarge));
}

#[test]
fn depth_never_exceeds_islands() {
    for code in [0u32, 1, 0b10101, 0x1ff_ffff, 0x155_5555, 0xaa_aaaa, 12345, 1 << 24] {
        match PartOfSpeech::new_from_code(code) {
            PartOfSpeech::Noun { islands, depth } | PartOfSpeech::Verb { islands, depth } => {
                assert!(depth <= islands, "code {}", code)
            }
            _ => {}
        }
    }
}

#[test]
fn checkerboard_is_all_singletons() {
    // every other cell: 13 filled cells, none touching along an edge
    let code = 0x155_5555;
    assert_eq!(PartOfSpeech::new_from_code(code), PartOfSpeech::Noun { islands: 13, depth: 13 });
}

#[test]
fn full_bitmap_is_one_island() {
    assert_eq!(PartOfSpeech::new_from_code(0x1ff_ffff), PartOfSpeech::Noun { islands: 1, depth: 0 });
}
