use std::collections::VecDeque;

use min_turns::dijkstra_speed::Solver1;
use min_turns::input::{
    header_faults, parse_header, parse_number, read_row, HeaderError, NumberError, RowError,
};
use min_turns::text::{chars_of, copy_range, is_whitespace, trimmed, trimmed_len};
use min_turns::{solver_factory, Solver};

fn chars(s: &str) -> Vec<char> {
    s.chars().collect()
}

#[test]
fn chars_of_gives_every_character() {
    assert_eq!(chars_of(""), Vec::<char>::new());
    assert_eq!(chars_of("9,8\n"), vec!['9', ',', '8', '\n']);
    assert_eq!(chars_of("a\u{e9}\u{3000}z"), vec!['a', '\u{e9}', '\u{3000}', 'z']);
}

#[test]
fn white_space_is_what_std_calls_white_space() {
    for u in 0..=0x11_0000u32 {
        if let Some(c) = char::from_u32(u) {
            assert_eq!(is_whitespace(c), c.is_whitespace(), "at {:x}", u);
        }
    }
}

#[test]
fn trimming_follows_std() {
    for s in ["", " ", "abc", "  a b \t", "\n", "1,2\r\n", "\u{a0}x\u{2003}", " \u{3000} "] {
        assert_eq!(trimmed(&chars(s)), chars(s.trim()), "trim {:?}", s);
        assert_eq!(trimmed_len(&chars(s)), s.trim_end().chars().count(), "trim_end {:?}", s);
    }
}

#[test]
fn copy_range_takes_the_places_asked_for() {
    let text = chars("abcdef");
    assert_eq!(copy_range(&text, 0, 6), text);
    assert_eq!(copy_range(&text, 2, 4), vec!['c', 'd']);
    assert_eq!(copy_range(&text, 3, 3), Vec::<char>::new());
    assert_eq!(copy_range(&text, 6, 6), Vec::<char>::new());
}

#[test]
fn numbers_are_read_like_std_reads_them() {
    assert_eq!(parse_number(&chars("0")), Ok(0));
    assert_eq!(parse_number(&chars("9")), Ok(9));
    assert_eq!(parse_number(&chars("+17")), Ok(17));
    assert_eq!(parse_number(&chars("00042")), Ok(42));
    assert_eq!(parse_number(&chars("65535")), Ok(65535));
    assert_eq!(parse_number(&chars("0000065535")), Ok(65535));
    assert_eq!(parse_number(&chars("")), Err(NumberError::Empty));
    assert_eq!(parse_number(&chars("+")), Err(NumberError::InvalidDigit));
    assert_eq!(parse_number(&chars("-")), Err(NumberError::InvalidDigit));
    assert_eq!(parse_number(&chars("-5")), Err(NumberError::InvalidDigit));
    assert_eq!(parse_number(&chars("++5")), Err(NumberError::InvalidDigit));
    assert_eq!(parse_number(&chars("1_0")), Err(NumberError::InvalidDigit));
    assert_eq!(parse_number(&chars("12a")), Err(NumberError::InvalidDigit));
    assert_eq!(parse_number(&chars(" 12")), Err(NumberError::InvalidDigit));
    assert_eq!(parse_number(&chars("65536")), Err(NumberError::PosOverflow));
    assert_eq!(parse_number(&chars("99999")), Err(NumberError::PosOverflow));
    assert_eq!(parse_number(&chars("70000x")), Err(NumberError::PosOverflow));
    assert_eq!(parse_number(&chars("7000x")), Err(NumberError::InvalidDigit));
    for s in ["", "+", "-", "0", "+0", "65535", "65536", "655350", "12x", "x12", "99999x", "+-1", "\u{661}"] {
        let std_kind = match s.parse::<u16>() {
            Ok(v) => Ok(v),
            Err(e) => Err(match e.kind() {
                std::num::IntErrorKind::Empty => NumberError::Empty,
                std::num::IntErrorKind::InvalidDigit => NumberError::InvalidDigit,
                _ => NumberError::PosOverflow,
            }),
        };
        assert_eq!(parse_number(&chars(s)), std_kind, "number {:?}", s);
    }
}

#[test]
fn header_gives_columns_then_rows() {
    assert_eq!(parse_header("9,8\n"), Ok((9, 8)));
    assert_eq!(parse_header(" 9 , 8 \r\n"), Ok((9, 8)));
    assert_eq!(parse_header("+2,65535"), Ok((2, 65535)));
    assert_eq!(parse_header("10000,10000,"), Ok((10000, 10000)));
    assert_eq!(parse_header("3,4,five"), Ok((3, 4)));
}

#[test]
fn header_without_comma_has_too_few_elements() {
    assert_eq!(parse_header(""), Err(HeaderError::TooFewElements));
    assert_eq!(parse_header("\n"), Err(HeaderError::TooFewElements));
    assert_eq!(parse_header("98"), Err(HeaderError::TooFewElements));
    assert_eq!(parse_header("x"), Err(HeaderError::TooFewElements));
}

#[test]
fn header_with_a_bad_number() {
    assert_eq!(parse_header(","), Err(HeaderError::Number(NumberError::Empty)));
    assert_eq!(parse_header("9,"), Err(HeaderError::Number(NumberError::Empty)));
    assert_eq!(parse_header(",8"), Err(HeaderError::Number(NumberError::Empty)));
    assert_eq!(parse_header("9;8,7"), Err(HeaderError::Number(NumberError::InvalidDigit)));
    assert_eq!(parse_header("9,8 7"), Err(HeaderError::Number(NumberError::InvalidDigit)));
    assert_eq!(parse_header("65536,8"), Err(HeaderError::Number(NumberError::PosOverflow)));
    assert_eq!(parse_header("9,70000"), Err(HeaderError::Number(NumberError::PosOverflow)));
    // the first element is looked at first
    assert_eq!(parse_header("x,70000"), Err(HeaderError::Number(NumberError::InvalidDigit)));
}

#[test]
fn row_opens_the_cells_marked_one() {
    let mut solv = Solver1::new_rc(3, 5).unwrap();
    assert_eq!(read_row(&mut solv, 1, 5, "10110\n"), Ok(()));
    assert_eq!(read_row(&mut solv, 2, 5, "00001"), Ok(()));
    for r in 0..3u16 {
        for c in 0..5u16 {
            let expected = matches!((r, c), (1, 0) | (1, 2) | (1, 3) | (2, 4));
            assert_eq!(solv.is_passage(r, c), expected);
        }
    }
    // a row read again never blocks a cell
    assert_eq!(read_row(&mut solv, 1, 5, "00000 \t\r\n"), Ok(()));
    assert!(solv.is_passage(1, 0));
}

#[test]
fn row_of_wrong_length_changes_nothing() {
    let mut solv = Solver1::new_rc(3, 5).unwrap();
    assert_eq!(read_row(&mut solv, 1, 5, "1111\n"), Err(RowError::Length { found: 4 }));
    assert_eq!(read_row(&mut solv, 1, 5, "111111"), Err(RowError::Length { found: 6 }));
    assert_eq!(read_row(&mut solv, 1, 5, ""), Err(RowError::Length { found: 0 }));
    assert_eq!(read_row(&mut solv, 1, 5, " 11111"), Err(RowError::Length { found: 6 }));
    // the length is counted in bytes
    assert_eq!(read_row(&mut solv, 1, 5, "11\u{e9}11"), Err(RowError::Length { found: 6 }));
    for c in 0..5u16 {
        assert!(!solv.is_passage(1, c));
    }
}

#[test]
fn row_with_a_stray_character_is_read_up_to_it() {
    let mut solv = Solver1::new_rc(3, 5).unwrap();
    assert_eq!(read_row(&mut solv, 0, 5, "11x11\n"), Err(RowError::InvalidCharacter { ch: 'x' }));
    assert!(solv.is_passage(0, 0));
    assert!(solv.is_passage(0, 1));
    assert!(!solv.is_passage(0, 3));
    assert!(!solv.is_passage(0, 4));
    // five bytes, four characters
    assert_eq!(
        read_row(&mut solv, 2, 5, "1\u{e9}11"),
        Err(RowError::InvalidCharacter { ch: '\u{e9}' })
    );
    assert_eq!(read_row(&mut solv, 2, 5, "1 0 1"), Err(RowError::InvalidCharacter { ch: ' ' }));
    assert_eq!(read_row(&mut solv, 2, 5, "00002"), Err(RowError::InvalidCharacter { ch: '2' }));
}

#[test]
fn maze_read_from_text_is_solved() {
    let text = "9,8\n\
                000000000\n\
                111101110\n\
                010101010\n\
                010111010\n\
                010000010\n\
                011110010\n\
                010011111\n\
                000000000\n";
    let mut lines = text.lines();
    let (x, y) = parse_header(lines.next().unwrap()).unwrap();
    assert_eq!((x, y), (9, 8));
    let mut solver = solver_factory(y, x).unwrap();
    for line_no in 0..y {
        assert_eq!(read_row(&mut solver, line_no, x, lines.next().unwrap()), Ok(()));
    }
    assert!(solver.is_valid());
    assert_eq!(solver.solve(false), Some((4, VecDeque::new())));
}

#[test]
fn every_part_of_the_header_is_looked_at() {
    assert_eq!(header_faults("9,8\n"), vec![]);
    assert_eq!(header_faults(""), vec![NumberError::Empty]);
    assert_eq!(header_faults("98"), vec![]);
    assert_eq!(header_faults("x"), vec![NumberError::InvalidDigit]);
    assert_eq!(header_faults("9,"), vec![NumberError::Empty]);
    assert_eq!(header_faults(","), vec![NumberError::Empty, NumberError::Empty]);
    assert_eq!(
        header_faults("70000, 8 ,five,,+3"),
        vec![NumberError::PosOverflow, NumberError::InvalidDigit, NumberError::Empty]
    );
    for s in ["", ",", "1,2,3", "a,b", " 7 ,x, 65536 ,\n", ",,,"] {
        let by_std: Vec<bool> = s.split(',').map(|p| p.trim().parse::<u16>().is_err()).collect();
        assert_eq!(header_faults(s).len(), by_std.iter().filter(|e| **e).count(), "header {:?}", s);
    }
}
