use rs_scrabble::{
    deserialize, find_best_word, get_str_value, get_value, Board, DeserializingError, PotentialWord, StrTree,
    WordError, WordToFill,
};

fn board_text(rows: &[&str]) -> String {
    let mut s = "".to_string();
    for r in rows {
        s.push_str(r);
    }
    s
}

const VERTICAL: [&str; 15] = [
    "6__2___6___2__6",
    "_5___3___3___5_",
    "__5___2_2___5__",
    "2__5___2___5__2",
    "____5_____5____",
    "_3___3___3___3_",
    "__2___2_2___2__",
    "6__2___a___2__6",
    "__2___2r2___2__",
    "_3___3_b_3___3_",
    "____5__R__5____",
    "2__5___e___5__2",
    "__5___2_2___5__",
    "_5___3___3___5_",
    "6__2___6___2__6",
];

const SCORING: [&str; 15] = [
    "6__2___6___2__6",
    "_5___3___3___5_",
    "__5___2_2___5__",
    "2__5___2___5__2",
    "____5_____5____",
    "_3___3___3___3_",
    "__2___2_2___2__",
    "6__2___a___2__6",
    "__2___2r2___2__",
    "_3___3_bE3___3_",
    "____5__R2_5____",
    "2__5___e___5__2",
    "__5___2_2___5__",
    "_5___3___3___5_",
    "6__2___6___2__6",
];

#[test]
fn board_serialization() {
    let mut str_board = "".to_string();
    str_board.push_str("6__2___6___2__6");
    str_board.push_str("_5___3___3___5_");
    str_board.push_str("__5___2_2___5__");
    str_board.push_str("2__5___2___5__2");
    str_board.push_str("____5_____5____");
    str_board.push_str("_3___3___3___3_");
    str_board.push_str("__2___2_2___2__");
    str_board.push_str("6__2___a___2__6");
    str_board.push_str("__2___2r2___2__");
    str_board.push_str("_3___3_b_3___3_");
    str_board.push_str("____5__R__5____");
    str_board.push_str("2__5___e___5__2");
    str_board.push_str("__5___2_2___5__");
    str_board.push_str("_5___3___3___5_");
    str_board.push_str("6__2___6___2__");

    let b = deserialize(str_board.clone()).expect_err("Unlikely Success");
    assert_eq!(b, DeserializingError::WrongLength);
    str_board.push('!');
    let b2 = deserialize(str_board.clone()).expect_err("Unlikely success");
    assert_eq!(b2, DeserializingError::UnknownSymbol);
}

#[test]
fn serialization_round_trip() {
    let board = deserialize(board_text(&SCORING)).expect("Error when deserializing board message");
    let text = board.serialize();
    assert!(text.starts_with("6 _ _ 2 "));
    assert_eq!(text.lines().count(), 15);
    let again = deserialize(text.clone()).expect("Error when deserializing board message");
    assert_eq!(again.serialize(), text);
    let spaced = Board::deserialize(&text).expect("Error when deserializing board message");
    assert_eq!(spaced.serialize(), text);
}

#[test]
fn too_many_squares() {
    let mut text = board_text(&SCORING);
    text.push('_');
    assert_eq!(deserialize(text).expect_err("Unlikely success"), DeserializingError::WrongLength);
}

#[test]
fn get_conditions_vertical() {
    let board = deserialize(board_text(&VERTICAL)).expect("Error when deserializing board message");
    let mut pw = PotentialWord::new();

    board.get_conditions(10, 0, &mut pw);
    assert_eq!(pw.get_constraint_nb_letters(), Some(vec![7, 9, 10, 11, 12, 13, 14, 15]));
    assert_eq!(pw.get_constraint_letters(), Some(vec![(7, 'r')]));
    assert_eq!(pw.get_constraint_words(), Some(Vec::<(u8, WordToFill)>::new()));

    board.get_conditions(11, 0, &mut pw);
    assert_eq!(pw.get_constraint_nb_letters(), Some(vec![7, 9, 10, 11, 12, 13, 14, 15]));
    assert_eq!(pw.get_constraint_letters(), Some(vec![(7, 'e')]));
    assert_eq!(pw.get_constraint_words(), Some(Vec::<(u8, WordToFill)>::new()));

    board.get_conditions(12, 0, &mut pw);
    assert_eq!(pw.get_constraint_nb_letters(), Some(vec![8, 9, 10, 11, 12, 13, 14, 15]));
    assert_eq!(pw.get_constraint_letters(), Some(Vec::<(u8, char)>::new()));
    assert_eq!(
        pw.get_constraint_words(),
        Some(vec![(7, WordToFill::new("arbre".to_string(), "".to_string()).unwrap())])
    );

    board.get_conditions(6, 0, &mut pw);
    assert_eq!(pw.get_constraint_nb_letters(), Some(vec![8, 9, 10, 11, 12, 13, 14, 15]));
    assert_eq!(pw.get_constraint_letters(), Some(Vec::<(u8, char)>::new()));
    assert_eq!(
        pw.get_constraint_words(),
        Some(vec![(7, WordToFill::new("".to_string(), "arbre".to_string()).unwrap())])
    );

    board.get_conditions(11, 7, &mut pw);
    assert_eq!(pw.get_constraint_nb_letters(), Some(vec![0, 2, 3, 4, 5, 6, 7, 8]));
    assert_eq!(pw.get_constraint_letters(), Some(vec![(0, 'e')]));
    assert_eq!(pw.get_constraint_words(), Some(Vec::<(u8, WordToFill)>::new()));

    board.get_conditions(11, 8, &mut pw);
    assert_eq!(pw.get_constraint_nb_letters(), Some(Vec::<u8>::new()));
    assert_eq!(pw.get_constraint_letters(), Some(Vec::<(u8, char)>::new()));
    assert_eq!(pw.get_constraint_words(), Some(Vec::<(u8, WordToFill)>::new()));
}

#[test]
fn get_conditions_horizontal() {
    let rows = [
        "6__2___6___2__6",
        "_5___3___3___5_",
        "__5___2_2___5__",
        "2__5___2___5__2",
        "____5_____5____",
        "_3___3___3___3_",
        "__2___2_2___2__",
        "6__2___arbre__6",
        "__2___2_2___2__",
        "_3___3___3___3_",
        "____5_____5____",
        "2__5___2___5__2",
        "__5___2_2___5__",
        "_5___3___3___5_",
        "6__2___6___2__6",
    ];
    let board = deserialize(board_text(&rows)).expect("Error when deserializing board message");
    let mut pw = PotentialWord::new();

    board.get_conditions(10, 0, &mut pw);
    assert_eq!(pw.get_constraint_nb_letters(), Some(Vec::<u8>::new()));
    assert_eq!(pw.get_constraint_letters(), Some(Vec::<(u8, char)>::new()));
    assert_eq!(pw.get_constraint_words(), Some(Vec::<(u8, WordToFill)>::new()));

    board.get_conditions(7, 0, &mut pw);
    assert_eq!(pw.get_constraint_nb_letters(), Some(vec![7, 13, 14, 15]));
    assert_eq!(
        pw.get_constraint_letters(),
        Some(vec![(7, 'a'), (8, 'r'), (9, 'b'), (10, 'r'), (11, 'e')])
    );
    assert_eq!(pw.get_constraint_words(), Some(Vec::<(u8, WordToFill)>::new()));

    board.get_conditions(8, 10, &mut pw);
    assert_eq!(pw.get_constraint_nb_letters(), Some(vec![1, 2, 3, 4, 5]));
    assert_eq!(pw.get_constraint_letters(), Some(Vec::<(u8, char)>::new()));
    assert_eq!(
        pw.get_constraint_words(),
        Some(vec![
            (0, WordToFill::new("r".to_string(), "".to_string()).unwrap()),
            (1, WordToFill::new("e".to_string(), "".to_string()).unwrap())
        ])
    );
}

#[test]
fn anchor_right_after_a_letter_has_no_conditions() {
    let board = deserialize(board_text(&VERTICAL)).expect("Error when deserializing board message");
    let mut pw = PotentialWord::new();
    board.get_conditions(8, 8, &mut pw);
    assert_eq!(pw.get_constraint_nb_letters(), Some(Vec::<u8>::new()));
    assert_eq!(pw.get_constraint_letters(), Some(Vec::<(u8, char)>::new()));
    assert_eq!(pw.get_constraint_words(), Some(Vec::<(u8, WordToFill)>::new()));
}

#[test]
fn get_score() {
    let board = deserialize(board_text(&SCORING)).expect("Error when deserializing board message");
    println!("{}", board.serialize());

    assert_eq!(7, board.get_score("te_se", 10, 5).unwrap());
    assert_eq!(6, board.get_score("tE_se", 10, 5).unwrap());
    assert_eq!(3, board.get_score("te_Se", 10, 5).unwrap());
    assert_eq!(14, board.get_score("te_ses", 10, 5).unwrap());
    assert_eq!(8, board.get_score("te_Ses", 10, 5).unwrap());
    assert_eq!(32, board.get_score("te_fes", 10, 5).unwrap());
}

#[test]
fn placed_letter_counts_in_score() {
    let board = deserialize(board_text(&SCORING)).expect("Error when deserializing board message");
    assert_eq!(2, board.get_score("a_", 7, 6).unwrap());
    assert_eq!(3, board.get_score("_", 9, 7).unwrap());
    assert_eq!(0, board.get_score("_", 10, 7).unwrap());
    assert_eq!(Err(WordError::TileOccupied), board.get_score("_E", 9, 7));
}

#[test]
fn get_score_errors() {
    let board = deserialize(board_text(&SCORING)).expect("Error when deserializing board message");
    println!("{}", board.serialize());

    assert_eq!(Err(WordError::TileOccupied), board.get_score("terse", 10, 5));
    assert_eq!(Err(WordError::UnexpectedUnderscore), board.get_score("tE_s_", 10, 5));
    assert_eq!(Err(WordError::UnknownChar), board.get_score("tE_s!", 10, 5));
}

#[test]
fn letter_values() {
    assert_eq!(get_value('a').unwrap(), 1);
    assert_eq!(get_value('f').unwrap(), 4);
    assert_eq!(get_value('z').unwrap(), 10);
    assert_eq!(get_value('E').unwrap(), 0);
    assert!(get_value('!').is_err());
    assert_eq!(get_str_value(&"barre".chars().collect()).unwrap(), 7);
    assert!(get_str_value(&"ba!".chars().collect()).is_err());
}

#[test]
fn end_to_end() {
    let rows = [
        "6__2___6___2__6",
        "_5___3___3___5_",
        "__5___2_2___5__",
        "2__5___2___5__2",
        "____5_____5____",
        "_3___3___3___3_",
        "__2___2_2___2__",
        "6__2___a___2__6",
        "__2___2r2___2__",
        "_3___3_b_3___3_",
        "____5__R__5____",
        "2__5___e___5__2",
        "__5___2_2___5__",
        "_5___3___3___5_",
        "6__2___6___2__6",
    ];
    let board = deserialize(board_text(&rows)).expect("Error when deserializing board message");
    let mut tree = StrTree::init();
    for w in ["arbre", "bar", "barre", "mes", "sept", "systeme", "tes", "este", "semer", "mer", "mere", "ers"] {
        tree.add_word(w);
    }
    let best = find_best_word("systeme", &board, &tree).unwrap().expect("a play");
    assert!(best.score > 0);
    let oriented = if best.vertical {
        board.oriented(true)
    } else {
        board.oriented(false)
    };
    let (x, y) = if best.vertical { (best.coord.1, best.coord.0) } else { best.coord };
    assert_eq!(oriented.get_score(&best.word, x, y).unwrap(), best.score);
}

#[test]
fn empty_rack_finds_nothing() {
    let board = deserialize(board_text(&VERTICAL)).expect("Error when deserializing board message");
    let mut tree = StrTree::init();
    tree.add_word("bar");
    assert_eq!(find_best_word("", &board, &tree), Ok(None));
}

#[test]
fn empty_board_and_edges() {
    let board = Board::new_empty();
    assert_eq!(board.at_nopanic(15, 0), None);
    assert_eq!(board.at_nopanic(0, 15), None);
    assert!(board.at_nopanic(14, 14).is_some());
    let text = board.serialize();
    assert_eq!(text.chars().filter(|c| *c == '_').count(), 225);
    let board2 = deserialize(board_text(&VERTICAL)).expect("Error when deserializing board message");
    assert_eq!(board2.at(7, 7), rs_scrabble::Tile::Played(rs_scrabble::PlayedTile::LetterTile('a')));
    assert_eq!(board2.oriented(true).at(7, 7), board2.at(7, 7));
    assert_eq!(board2.oriented(true).at(7, 10), board2.at(10, 7));
}

#[test]
fn first_word_wins_a_tie() {
    let board = deserialize(board_text(&SCORING)).expect("Error when deserializing board message");
    let words = vec!["te_se".to_string(), "te_Ses".to_string(), "te_ses".to_string(), "te_fes".to_string()];
    assert_eq!(rs_scrabble::best_word_among(&board, &words, 10, 5), Ok(Some((3, 32))));
    let tied = vec!["tE_se".to_string(), "te_se".to_string(), "te_Se".to_string(), "ta_se".to_string()];
    assert_eq!(rs_scrabble::best_word_among(&board, &tied, 10, 5), Ok(Some((1, 7))));
    let errs = vec!["te_se".to_string(), "terse".to_string()];
    assert_eq!(rs_scrabble::best_word_among(&board, &errs, 10, 5), Err(WordError::TileOccupied));
}
