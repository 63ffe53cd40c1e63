use word_search::io::{chars_of, parse_character_matrix, parse_input, parse_words};
use word_search::solver::Solver;
use word_search::types::{Direction, Point};

#[test]
fn chars_of_lists_the_characters() {
    assert_eq!(chars_of("abc"), vec!['a', 'b', 'c']);
    assert_eq!(chars_of(""), Vec::<char>::new());
}

#[test]
fn parse_words_splits_on_crlf() {
    assert_eq!(parse_words("CAT\r\nDOG"), vec!["CAT", "DOG"]);
    assert_eq!(parse_words("ONE"), vec!["ONE"]);
    assert_eq!(parse_words(""), vec![""]);
    assert_eq!(parse_words("A\r\n\r\nB"), vec!["A", "", "B"]);
}

#[test]
fn parse_character_matrix_reads_a_grid() {
    let m = parse_character_matrix("C A T\r\nX X X").expect("grid should parse");
    assert_eq!(m.rows, 2);
    assert_eq!(m.cols, 3);
    assert_eq!(*m.get(0, 0), Some('C'));
    assert_eq!(*m.get(0, 1), Some('A'));
    assert_eq!(*m.get(0, 2), Some('T'));
    assert_eq!(*m.get(1, 0), Some('X'));
}

#[test]
fn parse_character_matrix_rejects_wide_cells() {
    assert!(parse_character_matrix("AB C").is_none());
    assert!(parse_character_matrix("A B\r\nC DE").is_none());
}

#[test]
fn parse_character_matrix_rejects_rows_wider_than_the_first() {
    assert!(parse_character_matrix("A B\r\nC D E").is_none());
}

#[test]
fn parse_character_matrix_leaves_short_rows_empty() {
    let m = parse_character_matrix("A B\r\nC").expect("grid should parse");
    assert_eq!(m.rows, 2);
    assert_eq!(m.cols, 2);
    assert_eq!(*m.get(1, 0), Some('C'));
    assert!(m.get(1, 1).is_none());
}

#[test]
fn parse_input_splits_grid_and_words() {
    let text = "C A T\r\nX X X\r\nX X X\r\n\r\nCAT\r\nDOG".to_string();
    let (m, words) = parse_input(&text).expect("puzzle should parse");
    assert_eq!(m.rows, 3);
    assert_eq!(m.cols, 3);
    assert_eq!(*m.get(0, 2), Some('T'));
    assert_eq!(words, vec!["CAT", "DOG"]);
}

#[test]
fn parse_input_wants_exactly_two_blocks() {
    assert!(parse_input(&"A B".to_string()).is_none());
    assert!(parse_input(&"A\r\n\r\nB\r\n\r\nC".to_string()).is_none());
}

#[test]
fn parsed_grid_feeds_the_solver() {
    let text = "C A T\r\nX X X\r\nX X X\r\n\r\nCAT".to_string();
    let (m, words) = parse_input(&text).expect("puzzle should parse");
    let mut solver = Solver::new(&m);
    let res = solver.search(&words[0].to_string());
    assert_eq!(res.found_at, Point::new(0, 0));
    assert!(matches!(res.dir, Direction::Rightwards));
}
