//! Hidden singles, and the check that every digit still has a place in every
//! unit.
use vstd::prelude::*;

use crate::bits::{
    count_candidates, has_digit, is_digit, is_mask, lemma_below_mask, lemma_bit_ops,
    lemma_count_zero, lemma_empty_mask, lemma_mask_closed, lemma_single_bit, lowest_candidate,
    MASK,
};
use crate::error::Error;
use crate::geometry::{get_unit, is_cell, is_peer, unit_of, unit_peers, Unit, SIZE, WIDTH};
use crate::grid::{is_solution, lemma_solution_units_complete, unit_holds};
use crate::solver::{
    lemma_sound_pass_chain, lemma_sound_pass_refl, place_and_propagate, solvable, sound_pass,
};
use crate::sudoku::{no_solution, Sudoku};

verus! {

/// On board `s`, digit `d` is a candidate of unresolved cell `i` and of none
/// of the cell's unit peers of kind `u`.
pub open spec fn hidden_single_at(s: Sudoku, u: Unit, i: int, d: usize) -> bool {
    &&& is_cell(i)
    &&& is_digit(d)
    &&& s.digits[i] == 0
    &&& has_digit(s.bitboard[i], d)
    &&& forall|c: int| #[trigger] unit_peers(u, i, c) ==> !has_digit(s.bitboard[c], d)
}

/// A hidden single of a solvable board stays one on every board that a sound
/// pass makes of it, until its cell is resolved; and every admitted grid puts
/// its digit there.
pub proof fn lemma_hidden_single_persists(s0: Sudoku, s: Sudoku, u: Unit, i: int, d: usize, g: Seq<usize>)
    requires
        s0.wf(),
        sound_pass(s0, s, Ok(())),
        hidden_single_at(s0, u, i, d),
        is_solution(g),
        s0.admits(g),
    ensures
        g[i] == d,
        s.digits[i] == 0 ==> hidden_single_at(s, u, i, d),
{
    lemma_hidden_single_forced(s0, i, u, d, g);
    assert(s.admits_at(i, g[i]));
    assert(s.refines_at(s0, i));
    if s.digits[i] == 0 {
        assert forall|c: int| #[trigger] unit_peers(u, i, c) implies !has_digit(s.bitboard[c], d) by {
            assert(s.refines_at(s0, c));
            if s.digits[c] != 0 {
                crate::bits::lemma_zero_has_none();
            }
        }
    }
}

/// Places every hidden single: a digit that, within the row (then the column,
/// then the box) of a cell, no other cell can hold.
pub fn place_all_hidden_singles(sudoku: &mut Sudoku) -> (r: Result<(), Error>)
    requires
        old(sudoku).wf(),
    ensures
        sound_pass(*old(sudoku), *final(sudoku), r),
        old(sudoku).is_full() ==> *final(sudoku) == *old(sudoku) && r is Ok,
        solvable(*old(sudoku)) ==> forall|u: Unit, i: int, d: usize|
            #[trigger] hidden_single_at(*old(sudoku), u, i, d) ==> final(sudoku).digits[i] != 0,
{
    let ghost s0 = *sudoku;
    let r = place_hidden_singles(sudoku, Unit::Row);
    if r.is_err() {
        return r;
    }
    let ghost s1 = *sudoku;
    let r = place_hidden_singles(sudoku, Unit::Col);
    proof {
        lemma_sound_pass_chain(s0, s1, *sudoku, Ok(()), r);
    }
    if r.is_err() {
        return r;
    }
    let ghost s2 = *sudoku;
    let r = place_hidden_singles(sudoku, Unit::Box);
    proof {
        lemma_sound_pass_chain(s0, s2, *sudoku, Ok(()), r);
        if solvable(s0) {
            let g = choose|g: Seq<usize>| is_solution(g) && #[trigger] s0.admits(g);
            assert(s1.admits(g));
            assert(s2.admits(g));
            assert forall|u: Unit, i: int, d: usize| #[trigger] hidden_single_at(s0, u, i, d) implies sudoku.digits[i]
                != 0 by {
                lemma_hidden_single_persists(s0, s1, u, i, d, g);
                lemma_hidden_single_persists(s0, s2, u, i, d, g);
                assert(s2.refines_at(s1, i));
                assert(sudoku.refines_at(s2, i));
                match u {
                    Unit::Row => {},
                    Unit::Col => {
                        if s1.digits[i] == 0 {
                            assert(hidden_single_at(s1, Unit::Col, i, d));
                        }
                    },
                    Unit::Box => {
                        if s2.digits[i] == 0 {
                            assert(hidden_single_at(s2, Unit::Box, i, d));
                        }
                    },
                }
            }
        }
    }
    r
}

/// Hidden singles in the units of kind `u`, cell by cell.
fn place_hidden_singles(sudoku: &mut Sudoku, u: Unit) -> (r: Result<(), Error>)
    requires
        old(sudoku).wf(),
    ensures
        sound_pass(*old(sudoku), *final(sudoku), r),
        old(sudoku).is_full() ==> *final(sudoku) == *old(sudoku) && r is Ok,
        solvable(*old(sudoku)) ==> forall|i: int, d: usize|
            #[trigger] hidden_single_at(*old(sudoku), u, i, d) ==> final(sudoku).digits[i] != 0,
{
    let ghost s0 = *sudoku;
    proof {
        lemma_sound_pass_refl(s0);
    }
    let mut idx: usize = 0;
    while idx < SIZE
        invariant
            idx <= SIZE,
            s0 == *old(sudoku),
            s0.wf(),
            sound_pass(s0, *sudoku, Ok(())),
            s0.is_full() ==> *sudoku == s0,
            solvable(s0) ==> forall|i: int, d: usize|
                0 <= i < idx && #[trigger] hidden_single_at(s0, u, i, d) ==> sudoku.digits[i] != 0,
        decreases SIZE - idx,
    {
        let ghost before = *sudoku;
        let r = place_hidden_single(sudoku, idx, u);
        proof {
            lemma_sound_pass_chain(s0, before, *sudoku, Ok(()), r);
            if solvable(s0) && r is Ok {
                let g = choose|g: Seq<usize>| is_solution(g) && #[trigger] s0.admits(g);
                assert(before.admits(g));
                assert forall|i: int, d: usize|
                    0 <= i < idx + 1 && #[trigger] hidden_single_at(s0, u, i, d) implies sudoku.digits[i]
                    != 0 by {
                    if i < idx {
                        assert(sudoku.refines_at(before, i));
                    } else {
                        lemma_hidden_single_persists(s0, before, u, i, d, g);
                        if before.digits[i] == 0 {
                            assert(hidden_single_at(before, u, idx as int, d));
                        } else {
                            assert(sudoku.refines_at(before, i));
                        }
                    }
                }
            }
        }
        if r.is_err() {
            return r;
        }
        idx = idx + 1;
    }
    Ok(())
}

/// Places the digit of cell `idx` that no unit peer of kind `u` can hold, when
/// there is exactly one such digit.
fn place_hidden_single(sudoku: &mut Sudoku, idx: usize, u: Unit) -> (r: Result<(), Error>)
    requires
        old(sudoku).wf(),
        idx < SIZE,
    ensures
        sound_pass(*old(sudoku), *final(sudoku), r),
        old(sudoku).is_full() ==> *final(sudoku) == *old(sudoku) && r is Ok,
        forall|d: usize|
            #[trigger] hidden_single_at(*old(sudoku), u, idx as int, d) && solvable(*old(sudoku))
                ==> final(sudoku).digits[idx as int] != 0,
{
    let ghost s0 = *sudoku;
    let mask = get_hidden_singles_mask(sudoku, idx, u);
    let bitboard = sudoku.bitboard[idx];
    let value = (mask ^ MASK) & bitboard;
    proof {
        lemma_sound_pass_refl(s0);
        assert forall|d: usize| is_digit(d) implies #[trigger] has_digit(value, d) == (!has_digit(
            mask,
            d,
        ) && has_digit(bitboard, d)) by {
            lemma_bit_ops(mask ^ MASK, bitboard, d);
            lemma_bit_ops(mask, 0, d);
        }
        lemma_mask_closed(bitboard, mask ^ MASK);
        assert(is_mask(value)) by {
            lemma_mask_closed(mask, 0);
            lemma_mask_closed(mask ^ MASK, bitboard);
        }
        if s0.is_full() {
            assert(s0.digits[idx as int] != 0);
            lemma_empty_mask(value);
            lemma_empty_mask(0);
            lemma_count_zero(value, 9);
        }
        if exists|d: usize| #[trigger] hidden_single_at(s0, u, idx as int, d) && solvable(s0) {
            let d = choose|d: usize| #[trigger] hidden_single_at(s0, u, idx as int, d) && solvable(s0);
            let g = choose|g: Seq<usize>| is_solution(g) && #[trigger] s0.admits(g);
            if has_digit(mask, d) {
                let c = choose|c: int|
                    unit_peers(u, idx as int, c) && #[trigger] has_digit(s0.bitboard[c], d);
            }
            assert forall|e: usize| 1 <= e <= 9 && #[trigger] has_digit(value, e) implies e == d by {
                assert forall|c: int| #[trigger] unit_peers(u, idx as int, c) implies !has_digit(
                    s0.bitboard[c],
                    e,
                ) by {}
                lemma_hidden_single_forced(s0, idx as int, u, e, g);
                lemma_hidden_single_forced(s0, idx as int, u, d, g);
            }
            crate::bits::lemma_count_exactly_one(value, 9, d);
        }
    }
    if count_candidates(value) == 1 {
        proof {
            lemma_count_zero(value, 9);
        }
        let digit = lowest_candidate(value);
        proof {
            lemma_empty_mask(0);
            assert(has_digit(bitboard, digit));
            assert(s0.digits[idx as int] == 0);
            assert forall|c: int| #[trigger] unit_peers(u, idx as int, c) implies !has_digit(
                s0.bitboard[c],
                digit,
            ) by {}
            assert(hidden_single_at(s0, u, idx as int, digit));
            assert forall|g: Seq<usize>| is_solution(g) && #[trigger] s0.admits(g) implies g[idx as int]
                == digit by {
                lemma_hidden_single_forced(s0, idx as int, u, digit, g);
            }
        }
        place_and_propagate(sudoku, idx, digit)
    } else {
        Ok(())
    }
}

/// A hidden single's digit stands in its cell in every grid the board
/// admits.
proof fn lemma_hidden_single_forced(s: Sudoku, idx: int, u: Unit, digit: usize, g: Seq<usize>)
    requires
        s.wf(),
        hidden_single_at(s, u, idx, digit),
        is_solution(g),
        s.admits(g),
    ensures
        g[idx] == digit,
{
    lemma_solution_units_complete(g);
    assert(unit_holds(g, u, unit_of(u, idx), digit));
    let c = choose|c: int| is_cell(c) && unit_of(u, c) == unit_of(u, idx) && #[trigger] g[c] == digit;
    if c != idx {
        assert(s.admits_at(c, g[c]));
        assert(unit_peers(u, idx, c));
        assert(is_peer(idx, c));
        if s.digits[c] != 0 {
            assert(!has_digit(s.bitboard[idx], s.digits[c]));
        }
    }
}

/// The union of the candidates of the unit peers of kind `u` of cell `idx`.
fn get_hidden_singles_mask(sudoku: &Sudoku, idx: usize, u: Unit) -> (m: usize)
    requires
        sudoku.wf(),
        idx < SIZE,
    ensures
        is_mask(m),
        forall|c: int, d: usize|
            unit_peers(u, idx as int, c) && d <= 9 && #[trigger] has_digit(sudoku.bitboard[c], d)
                ==> has_digit(m, d),
        forall|d: usize|
            d <= 9 && #[trigger] has_digit(m, d) ==> exists|c: int|
                unit_peers(u, idx as int, c) && #[trigger] has_digit(sudoku.bitboard[c], d),
{
    let unit = get_unit(u, idx);
    let mut m: usize = 0;
    proof {
        lemma_mask_closed(0, 0);
        crate::bits::lemma_zero_has_none();
    }
    let mut j: usize = 0;
    while j < SIZE
        invariant
            j <= SIZE,
            idx < SIZE,
            unit == unit_of(u, idx as int),
            sudoku.wf(),
            is_mask(m),
            forall|c: int, d: usize|
                unit_peers(u, idx as int, c) && c < j && d <= 9 && #[trigger] has_digit(
                    sudoku.bitboard[c],
                    d,
                ) ==> has_digit(m, d),
            forall|d: usize|
                d <= 9 && #[trigger] has_digit(m, d) ==> exists|c: int|
                    unit_peers(u, idx as int, c) && #[trigger] has_digit(sudoku.bitboard[c], d),
        decreases SIZE - j,
    {
        if j != idx && get_unit(u, j) == unit {
            let ghost m0 = m;
            m = m | sudoku.bitboard[j];
            proof {
                lemma_mask_closed(m0, sudoku.bitboard[j as int]);
                assert forall|c: int, d: usize|
                    unit_peers(u, idx as int, c) && c < j + 1 && d <= 9 && #[trigger] has_digit(
                        sudoku.bitboard[c],
                        d,
                    ) implies has_digit(m, d) by {
                    lemma_bit_ops(m0, sudoku.bitboard[j as int], d);
                }
                assert forall|d: usize| d <= 9 && #[trigger] has_digit(m, d) implies exists|c: int|
                    unit_peers(u, idx as int, c) && #[trigger] has_digit(sudoku.bitboard[c], d) by {
                    lemma_bit_ops(m0, sudoku.bitboard[j as int], d);
                    if !has_digit(m0, d) {
                        assert(unit_peers(u, idx as int, j as int));
                    }
                }
            }
        }
        j = j + 1;
    }
    m
}

/// Cell `c` holds digit `d`, or has it among its candidates.
pub open spec fn offers(s: Sudoku, c: int, d: usize) -> bool {
    s.digits[c] == d || has_digit(s.bitboard[c], d)
}

/// Some cell of the `k`-th unit of kind `u`, among the first `n` cells of the
/// board, offers digit `d`.
pub open spec fn offered_upto(s: Sudoku, u: Unit, k: int, d: usize, n: int) -> bool {
    exists|c: int| 0 <= c < n && unit_of(u, c) == k && #[trigger] offers(s, c, d)
}

/// Every digit has a place in the `k`-th unit of kind `u`: some cell holds
/// it, or has it among its candidates.
pub open spec fn unit_coverable(s: Sudoku, u: Unit, k: int) -> bool {
    forall|d: usize| is_digit(d) ==> #[trigger] offered_upto(s, u, k, d, 81)
}

/// Every digit has a place in every row, column and box.
pub open spec fn all_units_coverable(s: Sudoku) -> bool {
    forall|u: Unit, k: int| 0 <= k < 9 ==> #[trigger] unit_coverable(s, u, k)
}

/// A board that admits a completed grid leaves every digit a place in every
/// unit.
pub proof fn lemma_admitted_coverable(s: Sudoku, g: Seq<usize>)
    requires
        s.wf(),
        is_solution(g),
        s.admits(g),
    ensures
        all_units_coverable(s),
{
    lemma_solution_units_complete(g);
    assert forall|u: Unit, k: int| 0 <= k < 9 implies #[trigger] unit_coverable(s, u, k) by {
        assert forall|d: usize| is_digit(d) implies #[trigger] offered_upto(s, u, k, d, 81) by {
            assert(unit_holds(g, u, k, d));
            let c = choose|c: int| is_cell(c) && unit_of(u, c) == k && #[trigger] g[c] == d;
            assert(s.admits_at(c, g[c]));
            assert(offers(s, c, d));
        }
    }
}

/// Checks that in every row, column and box each digit is placed or still a
/// candidate somewhere. Does not change the board.
pub fn check_all_hidden_zeroes(sudoku: &Sudoku) -> (r: Result<(), Error>)
    requires
        sudoku.wf(),
    ensures
        r is Ok <==> all_units_coverable(*sudoku),
        r is Err ==> r == Err::<(), Error>(no_solution(*sudoku)),
        forall|g: Seq<usize>| is_solution(g) && #[trigger] sudoku.admits(g) ==> r is Ok,
{
    proof {
        assert forall|g: Seq<usize>| is_solution(g) && #[trigger] sudoku.admits(g) implies all_units_coverable(
            *sudoku,
        ) by {
            lemma_admitted_coverable(*sudoku, g);
        }
    }
    let r = validate_hidden_zeroes(sudoku, Unit::Row);
    if r.is_err() {
        return r;
    }
    let r = validate_hidden_zeroes(sudoku, Unit::Col);
    if r.is_err() {
        return r;
    }
    let r = validate_hidden_zeroes(sudoku, Unit::Box);
    proof {
        if r is Ok {
            assert forall|u: Unit, k: int| 0 <= k < 9 implies #[trigger] unit_coverable(
                *sudoku,
                u,
                k,
            ) by {
                match u {
                    Unit::Row => {},
                    Unit::Col => {},
                    Unit::Box => {},
                }
            }
        }
    }
    r
}

/// Checks the nine units of kind `u`.
fn validate_hidden_zeroes(sudoku: &Sudoku, u: Unit) -> (r: Result<(), Error>)
    requires
        sudoku.wf(),
    ensures
        r is Ok <==> forall|k: int| 0 <= k < 9 ==> #[trigger] unit_coverable(*sudoku, u, k),
        r is Err ==> r == Err::<(), Error>(no_solution(*sudoku)),
{
    let mut k: usize = 0;
    while k < WIDTH
        invariant
            k <= WIDTH,
            sudoku.wf(),
            forall|k2: int| 0 <= k2 < k ==> #[trigger] unit_coverable(*sudoku, u, k2),
        decreases WIDTH - k,
    {
        let r = validate_mask(sudoku, u, k);
        if r.is_err() {
            return r;
        }
        k = k + 1;
    }
    Ok(())
}

/// Fails when some digit has no place in the `k`-th unit of kind `u`.
fn validate_mask(sudoku: &Sudoku, u: Unit, k: usize) -> (r: Result<(), Error>)
    requires
        sudoku.wf(),
        k < WIDTH,
    ensures
        r is Ok <==> unit_coverable(*sudoku, u, k as int),
        r is Err ==> r == Err::<(), Error>(no_solution(*sudoku)),
{
    let m = get_hidden_zeroes_mask(sudoku, u, k);
    proof {
        lemma_below_mask(m);
    }
    if m < MASK {
        Err(Error::from(sudoku))
    } else {
        Ok(())
    }
}

/// The union, over the cells of the `k`-th unit of kind `u`, of their
/// candidates and of the bit of their digit.
fn get_hidden_zeroes_mask(sudoku: &Sudoku, u: Unit, k: usize) -> (m: usize)
    requires
        sudoku.wf(),
        k < WIDTH,
    ensures
        m & 0x3ff == m,
        forall|d: usize|
            is_digit(d) ==> (#[trigger] has_digit(m, d) <==> offered_upto(
                *sudoku,
                u,
                k as int,
                d,
                81,
            )),
{
    let mut m: usize = 0;
    proof {
        assert(0usize & 0x3ff == 0) by (bit_vector);
        crate::bits::lemma_zero_has_none();
    }
    let mut j: usize = 0;
    while j < SIZE
        invariant
            j <= SIZE,
            k < WIDTH,
            sudoku.wf(),
            m & 0x3ff == m,
            forall|d: usize|
                is_digit(d) ==> (#[trigger] has_digit(m, d) <==> offered_upto(
                    *sudoku,
                    u,
                    k as int,
                    d,
                    j as int,
                )),
        decreases SIZE - j,
    {
        let ghost m0 = m;
        if get_unit(u, j) == k {
            let digit = sudoku.digits[j];
            let bitboard = sudoku.bitboard[j];
            let cell = bitboard | (1usize << digit);
            m = m | cell;
            proof {
                lemma_mask_closed(bitboard, 0);
                assert(m0 & 0x3ff == m0 && bitboard & 0x3fe == bitboard && digit <= 9 ==> (m0 | (
                bitboard | (1usize << digit))) & 0x3ff == m0 | (bitboard | (1usize << digit)))
                    by (bit_vector);
            }
        }
        proof {
            assert forall|d: usize| is_digit(d) implies (#[trigger] has_digit(m, d) <==> offered_upto(
                *sudoku,
                u,
                k as int,
                d,
                j + 1,
            )) by {
                if unit_of(u, j as int) == k {
                    let bitboard = sudoku.bitboard[j as int];
                    let digit = sudoku.digits[j as int];
                    lemma_bit_ops(m0, bitboard | (1usize << digit), d);
                    lemma_bit_ops(bitboard, 1usize << digit, d);
                    lemma_single_bit(digit, d);
                    if has_digit(m, d) && !has_digit(m0, d) {
                        assert(offers(*sudoku, j as int, d));
                    }
                }
                if offered_upto(*sudoku, u, k as int, d, j + 1) && !offered_upto(
                    *sudoku,
                    u,
                    k as int,
                    d,
                    j as int,
                ) {
                    let c = choose|c: int|
                        0 <= c < j + 1 && unit_of(u, c) == k && #[trigger] offers(*sudoku, c, d);
                    assert(c == j);
                }
            }
        }
        j = j + 1;
    }
    m
}

} // verus!
