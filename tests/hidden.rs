use rust_sudoku_solver::{check_all_hidden_zeroes, place_all_hidden_singles, Error, Sudoku};
use std::str::FromStr;

fn hidden_zeroes_ok(input: &str) -> Result<bool, Error> {
    let sudoku = Sudoku::from_str(input)?;
    Ok(check_all_hidden_zeroes(&sudoku).is_ok())
}

#[test]
fn hidden_zeroes_on_empty_board() -> Result<(), Error> {
    assert!(hidden_zeroes_ok(
        "................................................................................."
    )?);
    Ok(())
}

#[test]
fn hidden_zeroes_with_a_full_row() -> Result<(), Error> {
    assert!(hidden_zeroes_ok(
        "123456789........................................................................"
    )?);
    Ok(())
}

#[test]
fn hidden_zeroes_finds_a_digit_without_a_place() -> Result<(), Error> {
    let sudoku = Sudoku::from_str(
        ".234567891.......................................................................",
    )?;
    let r = check_all_hidden_zeroes(&sudoku);
    assert_eq!(r, Err(Error::NoSolution { num_recursions: 0, guesses: 0 }));
    Ok(())
}

#[test]
fn hidden_zeroes_on_nearly_full_board() -> Result<(), Error> {
    assert!(hidden_zeroes_ok(
        "64931528713248769558729641387312956495176432826453817939685274141867395272594183."
    )?);
    Ok(())
}

fn hidden_singles(input: &str) -> Result<String, Error> {
    let mut sudoku = Sudoku::from_str(input)?;
    place_all_hidden_singles(&mut sudoku)?;
    Ok(sudoku.to_string())
}

#[test]
fn hidden_singles_on_empty_board() -> Result<(), Error> {
    assert_eq!(
        hidden_singles(
            "................................................................................."
        )?,
        "000000000000000000000000000000000000000000000000000000000000000000000000000000000"
    );
    Ok(())
}

#[test]
fn hidden_single_in_a_row() -> Result<(), Error> {
    assert_eq!(
        hidden_singles(
            "123...789.....................5............................5....................."
        )?,
        "123050789000000000000000000000500000000000000000000000000005000000000000000000000"
    );
    Ok(())
}

#[test]
fn hidden_singles_cascade() -> Result<(), Error> {
    assert_eq!(
        hidden_singles(
            "123...789.....................5........6...................5....................."
        )?,
        "123456789000000000000000000000500000000600000000000000000005000000000000000000000"
    );
    Ok(())
}
