use rust_sudoku_solver::{check_constraints, solve, solver, Error, Sudoku};
use std::str::FromStr;

fn solve_str(input: &str) -> Result<Sudoku, Error> {
    solver::solve(Sudoku::from_str(input)?)
}

/// Every row, column and box holds each digit once.
fn is_complete(s: &Sudoku) -> bool {
    let units = (0..9).flat_map(|k| {
        [
            (0..9).map(|t| 9 * k + t).collect::<Vec<_>>(),
            (0..9).map(|t| 9 * t + k).collect::<Vec<_>>(),
            (0..9)
                .map(|t| 27 * (k / 3) + 3 * (k % 3) + 9 * (t / 3) + t % 3)
                .collect::<Vec<_>>(),
        ]
    });
    units.into_iter().all(|unit| {
        let mut seen = [false; 10];
        unit.iter().all(|&c| {
            let d = s.digits[c];
            (1..=9).contains(&d) && !std::mem::replace(&mut seen[d], true)
        })
    })
}

#[test]
fn solves_puzzle_one() -> Result<(), Error> {
    let solution = solve_str(
        "000000010400000000020000000000050407008000300001090000300400200050100000000806000",
    )?;
    assert_eq!(
        solution.to_string(),
        "693784512487512936125963874932651487568247391741398625319475268856129743274836159"
    );
    Ok(())
}

#[test]
fn solves_puzzle_two() -> Result<(), Error> {
    let solution = solve_str(
        "000000032040000000900000000302700050000100800600000000070000100080060000000030006",
    )?;
    assert_eq!(
        solution.to_string(),
        "861475932247398615935612748392786451754123869618954327576249183183567294429831576"
    );
    Ok(())
}

#[test]
fn solves_puzzle_with_dots() -> Result<(), Error> {
    let solution = solve_str(
        "........8..3...4...9..2..6.....79.......612...6.5.2.7...8...5...1.....2.4.5.....3",
    )?;
    assert_eq!(
        solution.to_string(),
        "621943758783615492594728361142879635357461289869532174238197546916354827475286913"
    );
    Ok(())
}

#[test]
fn solves_empty_board() -> Result<(), Error> {
    let solution = solve_str(
        ".................................................................................",
    )?;
    assert_eq!(
        solution.to_string(),
        "123456789456789123789123456231674895875912364694538217317265948542897631968341572"
    );
    assert!(is_complete(&solution));
    assert!(solution.is_solved());
    Ok(())
}

#[test]
fn solves_with_three_recursions() -> Result<(), Error> {
    let solution = solve_str(
        "057000300000801000001000000600030090020070000800000000400600000000000207000000050",
    )?;
    assert_eq!(
        &solution.to_string(),
        "957264381346851972281793645614532798529478136873916524435627819198345267762189453"
    );
    assert_eq!(3, solution.num_recursions);
    Ok(())
}

#[test]
fn solves_seventeen_clues_with_recorded_recursions() -> Result<(), Error> {
    let solution = solve_str(
        "000000036030000050200000000000060800700000400000053000000700210060900000001000000",
    )?;
    assert_eq!(
        &solution.to_string(),
        "148572936637894152295631748314267895756189423829453671583746219462915387971328564"
    );
    assert_eq!(318, solution.num_recursions);
    assert!(solution.guesses <= solution.num_recursions);
    assert!(is_complete(&solution));
    Ok(())
}

#[test]
fn solution_keeps_the_clues() -> Result<(), Error> {
    let input = "000000010400000000020000000000050407008000300001090000300400200050100000000806000";
    let puzzle = Sudoku::from_str(input)?;
    let solution = solve(puzzle.clone())?;
    for i in 0..81 {
        if puzzle.digits[i] != 0 {
            assert_eq!(puzzle.digits[i], solution.digits[i]);
        }
    }
    assert!(is_complete(&solution));
    Ok(())
}

#[test]
fn solve_is_deterministic() -> Result<(), Error> {
    let input = "000000036030000050200000000000060800700000400000053000000700210060900000001000000";
    let a = solve_str(input)?;
    let b = solve_str(input)?;
    assert_eq!(a.digits, b.digits);
    assert_eq!(a.bitboard, b.bitboard);
    assert_eq!(a.num_recursions, b.num_recursions);
    assert_eq!(a.guesses, b.guesses);
    Ok(())
}

#[test]
fn duplicate_clue_in_a_row_is_a_contradiction() -> Result<(), Error> {
    let puzzle = Sudoku::from_str(
        "55...............................................................................",
    )?;
    let r = solve(puzzle);
    assert_eq!(r.err(), Some(Error::NoSolution { num_recursions: 0, guesses: 0 }));
    Ok(())
}

#[test]
fn unsolvable_puzzle_reports_no_solution() -> Result<(), Error> {
    // Cell 0 can hold no digit: 2..9 in its row, 1 in its column.
    let puzzle = Sudoku::from_str(
        ".234567891.......................................................................",
    )?;
    let r = solve(puzzle);
    assert!(matches!(r, Err(Error::NoSolution { .. })));
    Ok(())
}

#[test]
fn check_constraints_twice_on_a_solved_board() -> Result<(), Error> {
    let input = "978562314136497825524318769749653182385721946612849573897236451461985237253174698";
    let mut sudoku = Sudoku::from_str(input)?;
    let digits = sudoku.digits;
    assert_eq!(check_constraints(&mut sudoku), Ok(()));
    assert_eq!(check_constraints(&mut sudoku), Ok(()));
    assert_eq!(sudoku.digits, digits);
    Ok(())
}

#[test]
fn check_constraints_keeps_the_solution_possible() -> Result<(), Error> {
    let input = "000000036030000050200000000000060800700000400000053000000700210060900000001000000";
    let solution = "148572936637894152295631748314267895756189423829453671583746219462915387971328564";
    let answer = Sudoku::from_str(solution)?;
    let mut sudoku = Sudoku::from_str(input)?;
    check_constraints(&mut sudoku)?;
    for i in 0..81 {
        let g = answer.digits[i];
        if sudoku.digits[i] == 0 {
            assert_ne!(sudoku.bitboard[i] & (1 << g), 0);
        } else {
            assert_eq!(sudoku.digits[i], g);
        }
    }
    Ok(())
}

#[test]
fn check_constraints_resolves_a_naked_single() -> Result<(), Error> {
    // One blank cell: the check places its only candidate, so digits change.
    let input = "97856231413649782552431876974965318238572194661284957389723645146198523725317469.";
    let mut sudoku = Sudoku::from_str(input)?;
    check_constraints(&mut sudoku)?;
    assert_eq!(sudoku.digits[80], 8);
    assert!(sudoku.is_solved());
    Ok(())
}

#[test]
fn check_constraints_on_a_broken_full_board_fails() -> Result<(), Error> {
    // Full, but the first row holds 1 twice and no 2.
    let input = "113456789456789123789123456231674895875912364694538217317265948542897631968341572";
    let mut sudoku = Sudoku::from_str(input)?;
    let r = check_constraints(&mut sudoku);
    assert_eq!(r, Err(Error::NoSolution { num_recursions: 0, guesses: 0 }));
    Ok(())
}
