use rust_sudoku_solver::{Error, Sudoku};
use std::str::FromStr;

fn place_and_render(input: &str, idx: usize, digit: usize) -> Result<(String, bool), Error> {
    let mut sudoku = Sudoku::from_str(input)?;
    sudoku.place(idx, digit);
    Ok((sudoku.to_string(), sudoku.is_solved()))
}

#[test]
fn place_on_empty_board() -> Result<(), Error> {
    let (text, solved) = place_and_render(
        ".................................................................................",
        0,
        5,
    )?;
    assert_eq!(
        text,
        "500000000000000000000000000000000000000000000000000000000000000000000000000000000"
    );
    assert!(!solved);
    Ok(())
}

#[test]
fn place_next_to_a_clue() -> Result<(), Error> {
    let (text, solved) = place_and_render(
        "5................................................................................",
        1,
        4,
    )?;
    assert_eq!(
        text,
        "540000000000000000000000000000000000000000000000000000000000000000000000000000000"
    );
    assert!(!solved);
    Ok(())
}

#[test]
fn place_over_a_clue() -> Result<(), Error> {
    let (text, solved) = place_and_render(
        "5................................................................................",
        0,
        4,
    )?;
    assert_eq!(
        text,
        "400000000000000000000000000000000000000000000000000000000000000000000000000000000"
    );
    assert!(!solved);
    Ok(())
}

#[test]
fn place_last_cell_solves() -> Result<(), Error> {
    let (text, solved) = place_and_render(
        "97856231413649782552431876974965318238572194661284957389723645146198523725317469.",
        80,
        8,
    )?;
    assert_eq!(
        text,
        "978562314136497825524318769749653182385721946612849573897236451461985237253174698"
    );
    assert!(solved);
    Ok(())
}

#[test]
fn place_removes_the_digit_from_peers_only() -> Result<(), Error> {
    let mut sudoku = Sudoku::default();
    sudoku.place(40, 7);
    assert_eq!(sudoku.digits[40], 7);
    assert_eq!(sudoku.bitboard[40], 0);
    // same row, column and box
    assert_eq!(sudoku.bitboard[36] & (1 << 7), 0);
    assert_eq!(sudoku.bitboard[4] & (1 << 7), 0);
    assert_eq!(sudoku.bitboard[30] & (1 << 7), 0);
    // not a peer
    assert_eq!(sudoku.bitboard[0], 0b11_1111_1110);
    assert_eq!(sudoku.bitboard[36], 0b11_1111_1110 ^ (1 << 7));
    Ok(())
}

#[test]
fn default_board_is_blank() {
    let sudoku = Sudoku::default();
    assert!(sudoku.digits.iter().all(|&d| d == 0));
    assert!(sudoku.bitboard.iter().all(|&b| b == 0b11_1111_1110));
    assert_eq!(sudoku.num_recursions, 0);
    assert_eq!(sudoku.guesses, 0);
    assert!(!sudoku.is_solved());
}

#[test]
fn parse_rejects_a_bad_character() {
    let r = Sudoku::from_str("12x");
    assert!(matches!(r, Err(Error::ParseError)));
}

#[test]
fn parse_rejects_a_string_longer_than_the_board() {
    let long = "0".repeat(82);
    assert!(matches!(Sudoku::parse(&long), Err(Error::ParseError)));
}

#[test]
fn parse_accepts_a_short_string() -> Result<(), Error> {
    let sudoku = Sudoku::parse("1.3")?;
    assert_eq!(sudoku.digits[0], 1);
    assert_eq!(sudoku.digits[1], 0);
    assert_eq!(sudoku.digits[2], 3);
    assert!(sudoku.digits[3..].iter().all(|&d| d == 0));
    // cell 1 lost 1 and 3 as candidates
    assert_eq!(sudoku.bitboard[1], 0b11_1111_1110 ^ (1 << 1) ^ (1 << 3));
    Ok(())
}

#[test]
fn to_string_writes_blanks_as_zero() -> Result<(), Error> {
    let input =
        "..3.............................................................................9";
    let sudoku = Sudoku::from_str(input)?;
    assert_eq!(
        sudoku.to_string(),
        "003000000000000000000000000000000000000000000000000000000000000000000000000000009"
    );
    Ok(())
}
