//! Tests for the textual puzzle parser and the CLI argument reader.

use sokoban::question::{Position, Question, QuestionCollection, Square};
use sokoban::reader::{parse_usize, Config};

fn parse_ok(s: &str) -> Question {
    match Question::from_str(s) {
        Ok(q) => q,
        Err(_) => panic!("expected the puzzle to parse"),
    }
}

#[test]
fn test() {}

#[test]
fn parses_trivial_puzzle() {
    let q = parse_ok("#####\n#@$.#\n#####");
    assert_eq!(q.width(), 5);
    assert_eq!(q.height(), 3);
    assert_eq!(q.start(), Position(1, 1));
    assert_eq!(q.boxes().len(), 1);
    assert_eq!(q.boxes()[0], Position(2, 1));
    assert_eq!(q.targets().len(), 1);
    assert_eq!(q.targets()[0], Position(3, 1));
}

#[test]
fn crate_on_target_counts_twice() {
    let q = parse_ok("#####\n#@*.#\n#####");
    assert_eq!(q.boxes().len(), 1);
    assert_eq!(q.boxes()[0], Position(2, 1));
    assert_eq!(q.targets().len(), 2);
}

#[test]
fn leading_space_is_wall() {
    // The space and the crate before the first wall of a row are out of the
    // map and read as walls.
    let q = parse_ok("  ####\n  #@.#\n$ ####");
    assert_eq!(q.height(), 3);
    assert_eq!(q.boxes().len(), 0);
    let rows = q.rows();
    assert!(matches!(rows[0][0], Square::Wall));
    assert!(matches!(rows[1][1], Square::Wall));
    assert!(matches!(rows[2][0], Square::Wall));
    assert!(matches!(rows[1][3], Square::Space));
}

#[test]
fn short_rows_are_padded_with_walls() {
    let q = parse_ok("#####\n#@.#\n#####");
    assert_eq!(q.width(), 5);
    let rows = q.rows();
    assert_eq!(rows[1].len(), 5);
    assert!(matches!(rows[1][4], Square::Wall));
}

#[test]
fn empty_puzzle_is_rejected() {
    assert!(Question::from_str("").is_err());
}

#[test]
fn unknown_character_is_rejected() {
    assert!(Question::from_str("#####\n#@x.#\n#####").is_err());
}

#[test]
fn missing_start_is_rejected() {
    assert!(Question::from_str("#####\n# $.#\n#####").is_err());
}

#[test]
fn second_start_is_rejected() {
    assert!(Question::from_str("#####\n#@@.#\n#####").is_err());
}

#[test]
fn start_before_first_wall_is_out_of_map() {
    // The '@' before the first wall is a wall cell, so no start remains.
    assert!(Question::from_str("@####\n# $.#\n#####").is_err());
}

#[test]
fn collection_splits_on_blank_lines() {
    let text = "#####\n#@$.#\n#####\n\n#####\n#.$@#\n#####";
    let c = match QuestionCollection::from_str(text) {
        Ok(c) => c,
        Err(_) => panic!("expected the collection to parse"),
    };
    assert_eq!(c.len(), 2);
    assert!(!c.is_empty());
    assert_eq!(c.iter()[0].start(), Position(1, 1));
    assert_eq!(c.iter()[1].start(), Position(3, 1));
}

#[test]
fn collection_error_names_the_failing_grid() {
    let text = "#####\n#@$.#\n#####\n\n#####\n#x$.#\n#####";
    match QuestionCollection::from_str(text) {
        Ok(_) => panic!("expected the second grid to fail"),
        Err(sokoban::question::ParseError::Text(msg)) => {
            assert!(msg.starts_with("error on grid 2, "));
        }
    }
}

#[test]
fn collection_rejects_double_blank_line() {
    let text = "#####\n#@$.#\n#####\n\n\n#####\n#.$@#\n#####";
    assert!(QuestionCollection::from_str(text).is_err());
}

#[test]
fn collection_of_empty_text_is_empty() {
    let c = match QuestionCollection::from_str("") {
        Ok(c) => c,
        Err(_) => panic!("expected the empty collection to parse"),
    };
    assert_eq!(c.len(), 0);
    assert!(c.is_empty());
}

#[test]
fn position_flattens_row_major() {
    let p = Position(3, 2);
    assert_eq!(p.to_usize(5), 13);
}

#[test]
fn parse_usize_accepts_digits() {
    assert_eq!(parse_usize(b"0"), Some(0));
    assert_eq!(parse_usize(b"42"), Some(42));
    assert_eq!(parse_usize(b"007"), Some(7));
    assert_eq!(parse_usize(b"+2"), Some(2));
    assert_eq!(parse_usize(b"+0"), Some(0));
}

#[test]
fn parse_usize_rejects_bad_input() {
    assert_eq!(parse_usize(b""), None);
    assert_eq!(parse_usize(b"4a"), None);
    assert_eq!(parse_usize(b"-3"), None);
    assert_eq!(parse_usize(b"+"), None);
    assert_eq!(parse_usize(b"++2"), None);
    assert_eq!(parse_usize(b"99999999999999999999999999999999"), None);
}

#[test]
fn config_takes_filename_and_number() {
    let args = vec![
        String::from("prog"),
        String::from("puzzles.txt"),
        String::from("2"),
    ];
    let c = Config::new(&args).unwrap();
    assert_eq!(c.filename, "puzzles.txt");
    assert_eq!(c.question_number, Some(2));
}

#[test]
fn config_accepts_plus_signed_number() {
    let args = vec![
        String::from("prog"),
        String::from("puzzles.txt"),
        String::from("+2"),
    ];
    let c = Config::new(&args).unwrap();
    assert_eq!(c.question_number, Some(2));
}

#[test]
fn config_number_is_optional() {
    let args = vec![String::from("prog"), String::from("puzzles.txt")];
    let c = Config::new(&args).unwrap();
    assert_eq!(c.filename, "puzzles.txt");
    assert_eq!(c.question_number, None);
}

#[test]
fn config_rejects_wrong_arity() {
    assert!(Config::new(&vec![String::from("prog")]).is_err());
    let four = vec![
        String::from("prog"),
        String::from("a"),
        String::from("1"),
        String::from("x"),
    ];
    assert!(Config::new(&four).is_err());
}

#[test]
fn config_rejects_non_numeric_index() {
    let args = vec![
        String::from("prog"),
        String::from("puzzles.txt"),
        String::from("two"),
    ];
    assert!(Config::new(&args).is_err());
}
