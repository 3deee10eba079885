use rust_sudoku_solver::{pretty_print, pretty_print_alternatives, Error, Sudoku};
use std::str::FromStr;

#[test]
fn pretty_print_frames_the_grid() -> Result<(), Error> {
    let sudoku = Sudoku::from_str(
        "123456789.......................................................................5",
    )?;
    let frame = "+---+---+---+\n";
    let blank = "|   |   |   |\n";
    let mut expected = String::new();
    expected.push_str(frame);
    expected.push_str("|123|456|789|\n");
    expected.push_str(blank);
    expected.push_str(blank);
    expected.push_str(frame);
    for _ in 0..3 {
        expected.push_str(blank);
    }
    expected.push_str(frame);
    expected.push_str(blank);
    expected.push_str(blank);
    expected.push_str("|   |   |  5|\n");
    expected.push_str(frame);
    assert_eq!(pretty_print(&sudoku), Some(expected));
    Ok(())
}

#[test]
fn pretty_print_alternatives_shows_candidates() -> Result<(), Error> {
    let sudoku = Sudoku::from_str("5")?;
    let text = pretty_print_alternatives(&sudoku).expect("digits are in range");
    let lines: Vec<&str> = text.lines().collect();
    assert_eq!(lines.len(), 27 + 10);
    let frame = "+---+---+---+---+---+---+---+---+---+";
    assert_eq!(lines[0], frame);
    assert_eq!(lines[36], frame);
    // the resolved cell, then its row, which lost 5 everywhere
    assert_eq!(lines[1], "|xxx|123|123|123|123|123|123|123|123|");
    assert_eq!(lines[2], "|x5x|4 6|4 6|4 6|4 6|4 6|4 6|4 6|4 6|");
    assert_eq!(lines[3], "|xxx|789|789|789|789|789|789|789|789|");
    assert_eq!(lines[4], frame);
    // the second row: its box and column lost 5, the rest did not
    assert_eq!(lines[5], "|123|123|123|123|123|123|123|123|123|");
    assert_eq!(lines[6], "|4 6|4 6|4 6|456|456|456|456|456|456|");
    Ok(())
}
