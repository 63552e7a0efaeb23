use sudoku::grid::SudokuCell;
use sudoku::parsing::chars_reader::{CharReader, CharReaderError};
use sudoku::parsing::sudoku::{cell_from_token, parse};
use sudoku::parsing::{decimal_string, eof_ok, parse_decimal, with_default_err_msgs, ParseError, Parser};

fn parser(text: &str) -> Parser {
    Parser::new(text.chars().collect())
}

fn read(text: &str) -> Result<sudoku::grid::Sudoku, String> {
    parse(CharReader::new(text.as_bytes().to_vec()))
}

#[test]
fn next_tracks_lines_and_columns() {
    let mut p = parser("ab\nc");
    assert_eq!(p.next().ok(), Some('a'));
    assert_eq!((p.line(), p.column()), (0, 1));
    assert_eq!(p.next().ok(), Some('b'));
    assert_eq!(p.next().ok(), Some('\n'));
    assert_eq!((p.line(), p.column()), (1, 0));
    assert_eq!(p.next().ok(), Some('c'));
    assert!(matches!(p.next(), Err(ParseError::UnexpectedEof)));
}

#[test]
fn expect_reports_the_expected_character() {
    let mut p = parser("xy");
    assert!(p.expect('x').is_ok());
    assert!(matches!(p.expect('z'), Err(ParseError::UnexpectedChar('z'))));
    assert!(matches!(p.expect('z'), Err(ParseError::UnexpectedEof)));
}

#[test]
fn expect_str_and_eof() {
    let mut p = parser("--help");
    assert!(p.expect_str("--").is_ok());
    assert!(p.expect_str("help").is_ok());
    assert!(p.expect_eof().is_ok());
    let mut p = parser("ab");
    assert!(p.expect_str("ax").is_err());
    let mut p = parser("a");
    assert!(matches!(p.expect_eof(), Err(ParseError::ExpectedEof)));
}

#[test]
fn try_match_family() {
    let mut p = parser("--rate");
    assert_eq!(p.try_match('-').ok(), Some(true));
    assert_eq!(p.try_match('x').ok(), Some(false));
    assert_eq!(p.try_match_str("-ra").ok(), Some(true));
    assert_eq!(p.try_match_str("tx").ok(), Some(false));
    assert_eq!(p.try_match_eof().ok(), Some(false));
    assert_eq!(p.try_match_predicate(|c| c == 'e').ok(), Some(Some('e')));
    assert_eq!(p.try_match_eof().ok(), Some(true));
    assert_eq!(p.try_match('e').ok(), Some(false));
}

#[test]
fn predicates_collect_and_discard() {
    let mut p = parser("123abc  \tz\nq");
    assert_eq!(p.collect_predicate(|c: &char| c.is_ascii_digit()).ok(), Some("123".to_string()));
    assert!(p.discard_predicate(|c: &char| c.is_alphabetic()).is_ok());
    assert_eq!(p.eat_space().ok(), Some(true));
    assert_eq!(p.eat_space().ok(), Some(false));
    assert_eq!(p.expect_predicate(|c| c == 'z').ok(), Some('z'));
    assert_eq!(p.eat_space().ok(), Some(false));
    assert!(matches!(p.expect_predicate(|c| c == 'z'), Err(ParseError::UnexpectedChar('\n'))));
}

#[test]
fn integers() {
    let mut p = parser("4096 x");
    assert_eq!(p.expect_integer().ok(), Some(4096));
    assert_eq!(p.column(), 4);
    let mut p = parser("x");
    assert!(matches!(p.expect_integer(), Err(ParseError::UnexpectedEof)));
    let mut p = parser("99999999999999999999999");
    assert!(p.expect_integer().is_err());
    assert_eq!(parse_decimal(&"0071".to_string()), Some(71));
    assert_eq!(parse_decimal(&String::new()), None);
    assert_eq!(decimal_string(0), "0");
    assert_eq!(decimal_string(1203), "1203");
}

#[test]
fn messages_carry_the_position() {
    let mut p = parser("a\nbc");
    let _ = p.next();
    let _ = p.next();
    let _ = p.next();
    assert_eq!(p.err("Oops".to_string()), "Oops\nAt 1:1.");
    assert_eq!(p.default_err_msg(ParseError::UnexpectedEof), "Unexpected end of file.");
    assert_eq!(
        p.default_err_msg(ParseError::UnexpectedChar('q')),
        "Found unexpected character 'q'\nAt 1:1."
    );
    assert_eq!(p.default_err_msg(ParseError::NotUtf8), "Found non-UTF-8 character.\nAt 1:1.");
    assert_eq!(
        p.default_err_msg(ParseError::IoError("broken pipe".to_string())),
        "Failed to read input, with error broken pipe."
    );
    assert_eq!(
        p.default_err_msg(ParseError::ExpectedEof),
        "Found trailing content, when expecting end of file."
    );
    assert_eq!(
        with_default_err_msgs::<()>(Err(ParseError::UnexpectedEof), &p).err(),
        Some("Unexpected end of file.".to_string())
    );
    assert_eq!(with_default_err_msgs(Ok::<u8, ParseError>(3), &p).ok(), Some(3));
}

#[test]
fn eof_becomes_none() {
    assert_eq!(eof_ok(Ok::<u8, ParseError>(1)).ok(), Some(Some(1)));
    assert_eq!(eof_ok(Err::<u8, ParseError>(ParseError::UnexpectedEof)).ok(), Some(None));
    assert!(matches!(eof_ok(Err::<u8, ParseError>(ParseError::ExpectedEof)), Err(ParseError::ExpectedEof)));
}

#[test]
fn char_reader_decodes_utf8() {
    let mut r = CharReader::new("aé€😀".as_bytes().to_vec());
    assert_eq!(r.next(), Some(Ok('a')));
    assert_eq!(r.next(), Some(Ok('é')));
    assert_eq!(r.next(), Some(Ok('€')));
    assert_eq!(r.next(), Some(Ok('😀')));
    assert_eq!(r.next(), None);
    let mut r = CharReader::new(vec![0x80, b'a', 0xE2, 0x82]);
    assert_eq!(r.next(), Some(Err(CharReaderError::NotUtf8)));
    assert_eq!(r.next(), Some(Ok('a')));
    assert_eq!(r.next(), Some(Err(CharReaderError::NotUtf8)));
    assert_eq!(r.next(), None);
}

#[test]
fn parser_over_bad_bytes_reports_not_utf8() {
    let mut p = Parser::from_reader(CharReader::new(vec![b'1', 0xFF]));
    assert_eq!(p.next().ok(), Some('1'));
    assert!(matches!(p.next(), Err(ParseError::NotUtf8)));
    assert!(matches!(p.next(), Err(ParseError::UnexpectedEof)));
}

#[test]
fn tokens_to_cells() {
    assert_eq!(cell_from_token(&"_".to_string()), Some(SudokuCell::Empty));
    assert_eq!(cell_from_token(&"___".to_string()), Some(SudokuCell::Empty));
    assert_eq!(cell_from_token(&"12".to_string()), Some(SudokuCell::Digit(12)));
    assert_eq!(cell_from_token(&"1_".to_string()), None);
}

#[test]
fn parses_a_board() {
    let s = read("1 _ 3 _\n_ 4 _ 2\r\n2 _ 4 _\n  _ 3 _ 1  \n").ok().unwrap();
    assert_eq!(s.side(), 4);
    assert_eq!(s.box_side(), 2);
    assert_eq!(*s.get(0, 0), SudokuCell::Digit(1));
    assert!(s.get(0, 1).is_empty());
    assert_eq!(*s.get(1, 3), SudokuCell::Digit(2));
    assert_eq!(*s.get(3, 1), SudokuCell::Digit(3));
}

#[test]
fn rejects_malformed_boards() {
    assert!(read("1 2 3\n").err().unwrap().contains("perfect square"));
    assert!(read("1 2 3 5\n_ _ _ _\n_ _ _ _\n_ _ _ _\n").err().unwrap().contains("Please use values from 1 to 4"));
    assert!(read("1 _ _ _\n_ _ _ _\n").err().unwrap().contains("the file ended"));
    assert!(read("1 _ _ _\n_ _ _ _ _\n_ _ _ _\n_ _ _ _\n").err().unwrap().contains("too many elements on line 1"));
    assert!(read("1 _ _ _\n_ _ _ _\n_ _ _ _\n_ _ _ _\nx").err().unwrap().contains("non-whitespace remaining"));
    assert!(read("1 x _ _\n").err().unwrap().contains("Expected a space"));
    assert!(read("1 _ _ _\n_ _ a_ _\n").err().unwrap().contains("Expected a space"));
}

#[test]
fn partial_string_match_stays_read() {
    let mut p = parser("--rat!");
    assert_eq!(p.try_match_str("--rate").ok(), Some(false));
    assert_eq!(p.column(), 5);
    assert_eq!(p.next().ok(), Some('!'));
}

#[test]
fn integer_without_digits_reads_nothing() {
    let mut p = parser("-12");
    assert!(matches!(p.expect_integer(), Err(ParseError::UnexpectedEof)));
    assert_eq!(p.column(), 0);
    assert_eq!(p.next().ok(), Some('-'));
    assert_eq!(p.expect_integer().ok(), Some(12));
}

#[test]
fn short_rows_leave_cells_empty() {
    let s = read("1 2 3 4\n3\n_ _ _ _\n_ _ _ _\n").ok().unwrap();
    assert_eq!(*s.get(1, 0), SudokuCell::Digit(3));
    assert!(s.get(1, 1).is_empty());
    assert!(s.get(1, 3).is_empty());
}
