use rust_sudoku_solver::{check_locked_candidates, place_all_hidden_singles, Error, Sudoku};
use std::str::FromStr;

#[test]
fn locked_candidates_then_hidden_singles() -> Result<(), Error> {
    let input =
        ".........12345...745619..........................................................";
    let expected =
        "000000000123458007456197000000000000000000000000000000000000000000000000000000000";
    let mut sudoku = Sudoku::from_str(input)?;
    check_locked_candidates(&mut sudoku)?;
    place_all_hidden_singles(&mut sudoku)?;
    assert_eq!(sudoku.to_string(), expected);
    Ok(())
}

#[test]
fn test_manual() -> Result<(), Error> {
    let input =
        "057000300300801000081703000600030090020070000800000000400607000000000207700000050";
    let mut sudoku = Sudoku::from_str(input)?;
    check_locked_candidates(&mut sudoku)?;
    assert_eq!(sudoku.bitboard[58] & (1 << 5), 0);
    place_all_hidden_singles(&mut sudoku)?;
    assert_eq!(5, sudoku.digits[56]);
    Ok(())
}

#[test]
fn test_manual_2() -> Result<(), Error> {
    let input =
        "000000036030000052200000000000067820700000400000053000000706210060900000001000000";
    let mut sudoku = Sudoku::from_str(input)?;
    assert_eq!((1 << 6) | (1 << 9), sudoku.bitboard[43]);
    check_locked_candidates(&mut sudoku)?;
    assert_eq!(0, sudoku.bitboard[43]);
    Ok(())
}

#[test]
fn locked_candidates_leave_a_full_board_alone() -> Result<(), Error> {
    let input =
        "978562314136497825524318769749653182385721946612849573897236451461985237253174698";
    let mut sudoku = Sudoku::from_str(input)?;
    let before = sudoku.clone();
    check_locked_candidates(&mut sudoku)?;
    assert_eq!(sudoku.digits, before.digits);
    assert_eq!(sudoku.bitboard, before.bitboard);
    Ok(())
}
