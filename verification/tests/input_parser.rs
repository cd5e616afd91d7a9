use npuzzle_lib::input_parser::{is_puzzle_correct, parse_atom, parse_line, parse_puzzle,
    parse_puzzle_size};
use npuzzle_lib::types::{Atom, ParseError, ParsedPuzzle, Puzzle};

#[test]
fn parse_puzzle_size_ok() {
    let mut size: Atom = 0;
    let vec_test: Vec<String> = vec!["3".to_string()];
    let vec_err: Option<Vec<ParseError>> = parse_puzzle_size(&mut size, &vec_test);

    assert_eq!(vec_err, None);
    assert_eq!(size, 3);
}

#[test]
fn parse_puzzle_size_too_small() {
    let mut size: Atom = 0;
    let vec_test: Vec<String> = vec!["2".to_string()];
    let vec_err: Option<Vec<ParseError>> = parse_puzzle_size(&mut size, &vec_test);

    assert_ne!(vec_err, None);
    assert_eq!(vec_err.unwrap(), vec![ParseError::SizeInvalid]);
    assert_eq!(size, 0);
}

#[test]
fn parse_puzzle_size_negative() {
    let mut size: Atom = 0;
    let vec_test: Vec<String> = vec!["-2".to_string()];
    let vec_err: Option<Vec<ParseError>> = parse_puzzle_size(&mut size, &vec_test);

    assert_ne!(vec_err, None);
    assert_eq!(vec_err.unwrap(), vec![ParseError::NumberInvalid]);
    assert_eq!(size, 0);
}

#[test]
fn parse_puzzle_size_invalid_word() {
    let mut size: Atom = 0;
    let vec_test: Vec<String> = vec!["toto".to_string()];
    let vec_err: Option<Vec<ParseError>> = parse_puzzle_size(&mut size, &vec_test);

    assert_ne!(vec_err, None);
    assert_eq!(vec_err.unwrap(), vec![ParseError::NumberInvalid]);
    assert_eq!(size, 0);
}

#[test]
fn parse_puzzle_size_too_much_args() {
    let mut size: Atom = 0;
    let vec_test: Vec<String> = vec!["3".to_string(), "4".to_string()];
    let vec_err: Option<Vec<ParseError>> = parse_puzzle_size(&mut size, &vec_test);

    assert_ne!(vec_err, None);
    assert_eq!(vec_err.unwrap(), vec![ParseError::SizeSyntax]);
    assert_eq!(size, 3);
}

#[test]
fn parse_puzzle_ok() {
    let mut puzzle: Puzzle = Vec::new();
    let size: Atom = 3;

    let vec_test: Vec<String> = vec!["3".to_string(), "4".to_string(), "5".to_string()];
    let vec_expected: Puzzle = vec![3, 4, 5];
    let vec_err: Option<Vec<ParseError>> = parse_puzzle(&mut puzzle, &size, &vec_test);

    assert_eq!(vec_err, None);
    assert_eq!(puzzle, vec_expected);
}

#[test]
fn parse_puzzle_invalid_size() {
    let mut puzzle: Puzzle = Vec::new();
    let size: Atom = 5;

    let vec_test: Vec<String> = vec!["3".to_string(), "4".to_string(), "5".to_string()];
    let vec_expected: Puzzle = vec![];
    let vec_err: Option<Vec<ParseError>> = parse_puzzle(&mut puzzle, &size, &vec_test);

    assert_ne!(vec_err, None);
    assert_eq!(vec_err.unwrap(), vec![ParseError::NumberPerLine]);
    assert_eq!(puzzle, vec_expected);
}

#[test]
fn parse_puzzle_invalid_char() {
    let mut puzzle: Puzzle = Vec::new();
    let size: Atom = 3;

    let vec_test: Vec<String> = vec!["titi".to_string(), "4".to_string(), "toto".to_string()];
    let vec_expected: Puzzle = vec![];
    let vec_err: Option<Vec<ParseError>> = parse_puzzle(&mut puzzle, &size, &vec_test);

    assert_ne!(vec_err, None);
    assert_eq!(
        vec_err.unwrap(),
        vec![ParseError::NumberInvalid, ParseError::NumberInvalid]
    );
    assert_eq!(puzzle, vec_expected);
}

#[test]
fn is_puzzle_correct_ok() {
    let puzzle = ParsedPuzzle {
        container: vec![0, 1, 2, 3, 4, 5, 6, 7, 8],
        size: 3,
    };

    assert_eq!(is_puzzle_correct(&puzzle), None);
}

#[test]
fn is_puzzle_correct_line_failed_number_of_line() {
    let puzzle = ParsedPuzzle {
        container: vec![0, 1, 2, 3, 4, 5],
        size: 3,
    };

    assert_eq!(is_puzzle_correct(&puzzle), Some(ParseError::NumberOfLines));
}

#[test]
fn is_puzzle_correct_failed_superior_to_max_number() {
    let puzzle = ParsedPuzzle {
        container: vec![0, 1, 2, 3, 4, 5, 6, 11, 10],
        size: 3,
    };

    assert_eq!(is_puzzle_correct(&puzzle), Some(ParseError::InvalidElement));
}

#[test]
fn is_puzzle_correct_failed_duplicated_value() {
    let puzzle = ParsedPuzzle {
        container: vec![0, 1, 2, 3, 4, 3, 6, 7, 8],
        size: 3,
    };

    assert_eq!(is_puzzle_correct(&puzzle), Some(ParseError::DuplicatedValue));
}

#[test]
fn is_puzzle_correct_failed_small_size() {
    let puzzle = ParsedPuzzle {
        container: vec![0, 1, 2, 3],
        size: 2,
    };

    assert_eq!(is_puzzle_correct(&puzzle), Some(ParseError::Size));
}

#[test]
fn parse_line_size_ok() {
    let mut puzzle = ParsedPuzzle {
        container: vec![],
        size: 0,
    };
    let test_line = String::from("3              #toto");
    let vec_err: Option<Vec<ParseError>> = parse_line(&mut puzzle, &test_line);

    assert_eq!(vec_err, None);
}

#[test]
fn parse_line_size_fail() {
    let mut puzzle = ParsedPuzzle {
        container: vec![],
        size: 0,
    };
    let test_line = String::from("-3              #toto");
    let vec_err: Option<Vec<ParseError>> = parse_line(&mut puzzle, &test_line);

    assert_ne!(vec_err, None);
    assert_eq!(vec_err.unwrap(), vec![ParseError::NumberInvalid]);
}

#[test]
fn parse_line_line_ok() {
    let mut puzzle = ParsedPuzzle {
        container: vec![],
        size: 3,
    };
    let test_line = String::from("1     0               4            #toto");
    let vec_err: Option<Vec<ParseError>> = parse_line(&mut puzzle, &test_line);

    assert_eq!(vec_err, None);
}

#[test]
fn parse_line_line_fail() {
    let mut puzzle = ParsedPuzzle {
        container: vec![],
        size: 3,
    };
    let test_line = String::from("1     0               caca            #toto");
    let vec_err: Option<Vec<ParseError>> = parse_line(&mut puzzle, &test_line);

    assert_ne!(vec_err, None);
    assert_eq!(vec_err.unwrap(), vec![ParseError::NumberInvalid]);
}

#[test]
fn parse_atom_accepts_a_plus_sign() {
    assert_eq!(parse_atom("+3"), Some(3));
    assert_eq!(parse_atom("65535"), Some(65535));
    assert_eq!(parse_atom("0"), Some(0));
}

#[test]
fn parse_atom_rejects_junk() {
    assert_eq!(parse_atom(""), None);
    assert_eq!(parse_atom("+"), None);
    assert_eq!(parse_atom("65536"), None);
    assert_eq!(parse_atom("12a"), None);
    assert_eq!(parse_atom("-1"), None);
}

#[test]
fn parse_line_assembles_a_grid() {
    let mut puzzle = ParsedPuzzle {
        container: vec![],
        size: 0,
    };
    assert_eq!(parse_line(&mut puzzle, "3 # side"), None);
    assert_eq!(parse_line(&mut puzzle, "1 2 3"), None);
    assert_eq!(parse_line(&mut puzzle, "8 0 4"), None);
    assert_eq!(parse_line(&mut puzzle, "7 6 5"), None);
    assert_eq!(puzzle.size, 3);
    assert_eq!(puzzle.container, vec![1, 2, 3, 8, 0, 4, 7, 6, 5]);
    assert_eq!(is_puzzle_correct(&puzzle), None);
}
