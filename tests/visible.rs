use rust_sudoku_solver::{check_all_visible_doubles, place_all_visible_singles, Error, Sudoku};
use std::str::FromStr;

fn singles_solve(input: &str) -> Result<bool, Error> {
    let mut sudoku = Sudoku::from_str(input)?;
    let _ = place_all_visible_singles(&mut sudoku);
    Ok(sudoku.is_solved())
}

#[test]
fn visible_singles_fill_the_last_cell() -> Result<(), Error> {
    let inputs = [
        "69387541214563279878219435635742186981695723442936817527451968396874352153128694.",
        "38741952625976341864152837971628594359463178282397416547239685113584269796815723.",
        "38261947559473862117642593886394175245726318992185736473859421624517689361938254.",
        "53641972891782543624873695178156429369537281442398167537914856285269314716425738.",
        "46831597279582416313269748581945372625718634934697285192476153858324961767153829.",
        "51342697898735164264298751383164925727951836445627389179813542636479218512586473.",
        "36954287172189346554876132941295863783761459295623718418532974669347521827418695.",
        "27451863936194287585963724198237615414528936773615492851876349269742158342389571.",
        "57342816962491387519857624383164592794523761876218935428736459131975248645689173.",
        "73521896441836975262945731885762419394187352636219584728354167919473628557698243.",
        "43851967221647895395732614816275438984593276179368152432186549767429381558914723.",
        "36579824198123457674215638943681592721947386557862941319734265885496713262358179.",
        "96781354241375296852864973135219768467943812584152639778436125919628547323597481.",
        "13847965272531689469482573154163892728395741697624138586759214345916327831278456.",
    ];
    for input in inputs {
        assert!(singles_solve(input)?, "{input}");
    }
    Ok(())
}

#[test]
fn visible_singles_cascade_through_peers() -> Result<(), Error> {
    // Two blanks in the last row: filling one leaves the other a single.
    let mut sudoku = Sudoku::from_str(
        "978562314136497825524318769749653182385721946612849573897236451461985237253174...",
    )?;
    place_all_visible_singles(&mut sudoku)?;
    assert_eq!(
        sudoku.to_string(),
        "978562314136497825524318769749653182385721946612849573897236451461985237253174698"
    );
    Ok(())
}

fn doubles(input: &str) -> Result<String, Error> {
    let mut sudoku = Sudoku::from_str(input)?;
    check_all_visible_doubles(&mut sudoku)?;
    Ok(sudoku.to_string())
}

#[test]
fn visible_doubles_on_empty_board() -> Result<(), Error> {
    assert_eq!(
        doubles(
            "................................................................................."
        )?,
        "000000000000000000000000000000000000000000000000000000000000000000000000000000000"
    );
    Ok(())
}

#[test]
fn visible_doubles_with_a_full_row() -> Result<(), Error> {
    assert_eq!(
        doubles(
            "123456789........................................................................"
        )?,
        "123456789000000000000000000000000000000000000000000000000000000000000000000000000"
    );
    Ok(())
}

#[test]
fn visible_doubles_with_a_pair() -> Result<(), Error> {
    assert_eq!(
        doubles(
            "1.34.67.9...................5..............5....................................."
        )?,
        "103456709000000000000000000050000000000000050000000000000000000000000000000000000"
    );
    Ok(())
}

#[test]
fn visible_doubles_with_two_pairs() -> Result<(), Error> {
    assert_eq!(
        doubles(
            "1.34.67.9...................5..............5............................234..7891"
        )?,
        "103456709000000000000000000050000000000000050000000000000000000000000000234567891"
    );
    Ok(())
}
