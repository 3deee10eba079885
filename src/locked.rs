//! Locked candidates (pointing pairs): a digit that, within a box, can only go
//! in one of the box's rows (or columns) cannot go in the rest of that row (or
//! column).
use vstd::prelude::*;

use crate::bits::{
    count_candidates, has_digit, is_digit, is_mask, lemma_bit_ops, lemma_count_zero,
    lemma_empty_mask, lemma_has_digit_bits, lemma_mask_closed, lemma_single_bit,
    lemma_zero_has_none, lowest_candidate, MASK,
};
use crate::error::Error;
use crate::geometry::{
    box_of, get_box, get_unit, is_cell, is_peer, lemma_line_in_box, line_base, unit_of, Unit, SIZE,
    WIDTH,
};
use crate::grid::{is_solution, lemma_solution_units_complete, unit_holds};
use crate::solver::{
    lemma_clear_settled, lemma_empty_blocks, lemma_single_forced, lemma_sound_pass_chain,
    lemma_sound_pass_refl, place_and_propagate, solvable, sound_pass,
};
use crate::sudoku::{lemma_clear_effects, lemma_refines_admits, Sudoku};
use crate::visible::lemma_absent_persists;

verus! {

/// Runs the locked-candidates deduction for every box, first along rows, then
/// along columns.
pub fn check_locked_candidates(sudoku: &mut Sudoku) -> (r: Result<(), Error>)
    requires
        old(sudoku).wf(),
    ensures
        sound_pass(*old(sudoku), *final(sudoku), r),
        old(sudoku).is_full() ==> *final(sudoku) == *old(sudoku) && r is Ok,
        solvable(*old(sudoku)) ==> forall|u: Unit, b: int, d: usize, r: int|
            u != Unit::Box && #[trigger] locked_at(*old(sudoku), u, b, d, r) ==> line_cleared(
                *final(sudoku),
                u,
                b,
                line_base(u, b) + r,
                d,
            ),
{
    let ghost s0 = *sudoku;
    let r = check_locked_rows_or_cols(sudoku, Unit::Row);
    if r.is_err() {
        return r;
    }
    let ghost s1 = *sudoku;
    let r = check_locked_rows_or_cols(sudoku, Unit::Col);
    proof {
        lemma_sound_pass_chain(s0, s1, *sudoku, Ok(()), r);
        if solvable(s0) {
            let g = choose|g: Seq<usize>| is_solution(g) && #[trigger] s0.admits(g);
            assert(s1.admits(g));
            assert forall|u: Unit, b: int, d: usize, r: int|
                u != Unit::Box && #[trigger] locked_at(s0, u, b, d, r) implies line_cleared(
                *sudoku,
                u,
                b,
                line_base(u, b) + r,
                d,
            ) by {
                if u == Unit::Row {
                    lemma_line_cleared_persists(s1, *sudoku, u, b, line_base(u, b) + r, d);
                } else {
                    lemma_locked_after_pass(s0, s1, u, b, d, r, g);
                    if line_cleared(s1, u, b, line_base(u, b) + r, d) {
                        lemma_line_cleared_persists(s1, *sudoku, u, b, line_base(u, b) + r, d);
                    }
                }
            }
        }
    }
    r
}

/// Some cell of box `b`, among the first `n` cells of the board, whose line of
/// kind `u` is the `k`-th line of the box, has candidate `d` on board `s`.
pub open spec fn box_line_has(s: Sudoku, u: Unit, b: int, k: int, d: usize, n: int) -> bool {
    exists|c: int|
        0 <= c < n && box_of(c) == b && unit_of(u, c) % 3 == k && #[trigger] has_digit(
            s.bitboard[c],
            d,
        )
}

/// `cache[k]` is the union of the candidates of the `k`-th line of kind `u` of
/// box `b`, counting only cells before `n`.
pub open spec fn cache_describes(cache: [usize; 3], s: Sudoku, u: Unit, b: int, n: int) -> bool {
    &&& forall|k: int| 0 <= k < 3 ==> is_mask(#[trigger] cache[k])
    &&& forall|k: int, d: usize|
        0 <= k < 3 && d <= 9 ==> (#[trigger] has_digit(cache[k], d) <==> box_line_has(
            s,
            u,
            b,
            k,
            d,
            n,
        ))
}

/// Digit `d` appears in line `r` of the cache and in no other.
pub open spec fn only_line(cache: [usize; 3], r: int, d: usize) -> bool {
    &&& 0 <= r < 3
    &&& has_digit(cache[r], d)
    &&& forall|r2: int| 0 <= r2 < 3 && r2 != r ==> !#[trigger] has_digit(cache[r2], d)
}

/// On board `s`, digit `d` is a candidate in box `b`, and only in cells of the
/// box's `r`-th line of kind `u`.
pub open spec fn locked_at(s: Sudoku, u: Unit, b: int, d: usize, r: int) -> bool {
    &&& 0 <= b < 9
    &&& 0 <= r < 3
    &&& is_digit(d)
    &&& box_line_has(s, u, b, r, d, 81)
    &&& forall|c: int|
        is_cell(c) && box_of(c) == b && #[trigger] has_digit(s.bitboard[c], d) ==> unit_of(u, c) % 3
            == r
}

/// On board `s`, no cell of line `line` of kind `u` outside box `b` has
/// candidate `d`.
pub open spec fn line_cleared(s: Sudoku, u: Unit, b: int, line: int, d: usize) -> bool {
    forall|j: int|
        is_cell(j) && unit_of(u, j) == line && box_of(j) != b ==> !#[trigger] has_digit(
            s.bitboard[j],
            d,
        )
}

pub proof fn lemma_line_cleared_persists(s: Sudoku, t: Sudoku, u: Unit, b: int, line: int, d: usize)
    requires
        t.wf(),
        t.refines(s),
        is_digit(d),
        line_cleared(s, u, b, line, d),
    ensures
        line_cleared(t, u, b, line, d),
{
    assert forall|j: int| is_cell(j) && unit_of(u, j) == line && box_of(j) != b implies !#[trigger] has_digit(
        t.bitboard[j],
        d,
    ) by {
        assert(t.refines_at(s, j));
        if t.digits[j] != 0 {
            lemma_zero_has_none();
        }
    }
}

/// After a sound pass on a solvable board, a digit locked to one line of a box
/// is still locked there, or is gone from the rest of that line.
pub proof fn lemma_locked_after_pass(
    s0: Sudoku,
    s: Sudoku,
    u: Unit,
    b: int,
    d: usize,
    r: int,
    g: Seq<usize>,
)
    requires
        s0.wf(),
        u != Unit::Box,
        locked_at(s0, u, b, d, r),
        sound_pass(s0, s, Ok(())),
        is_solution(g),
        s0.admits(g),
    ensures
        locked_at(s, u, b, d, r) || line_cleared(s, u, b, line_base(u, b) + r, d),
{
    assert(s.admits(g));
    assert forall|c: int| is_cell(c) && box_of(c) == b && #[trigger] has_digit(s.bitboard[c], d) implies unit_of(
        u,
        c,
    ) % 3 == r by {
        assert(s.refines_at(s0, c));
        if s.digits[c] != 0 {
            lemma_zero_has_none();
        }
    }
    if !box_line_has(s, u, b, r, d, 81) {
        lemma_solution_units_complete(g);
        assert(unit_holds(g, Unit::Box, b, d));
        let c = choose|c: int| is_cell(c) && unit_of(Unit::Box, c) == b && #[trigger] g[c] == d;
        assert(s.admits_at(c, g[c]));
        assert(s0.admits_at(c, g[c]));
        lemma_line_in_box(u, c);
        if s.digits[c] == 0 {
            assert(unit_of(u, c) % 3 == r);
            assert(box_line_has(s, u, b, r, d, 81));
        }
        if s0.digits[c] != 0 {
            let c2 = choose|c2: int|
                0 <= c2 < 81 && box_of(c2) == b && unit_of(u, c2) % 3 == r && #[trigger] has_digit(
                    s0.bitboard[c2],
                    d,
                );
            lemma_zero_has_none();
            assert(s0.digits[c2] == 0);
            assert(is_peer(c2, c));
        }
        assert(unit_of(u, c) == line_base(u, b) + r);
        assert forall|j: int|
            is_cell(j) && unit_of(u, j) == line_base(u, b) + r && box_of(j) != b implies !#[trigger] has_digit(
            s.bitboard[j],
            d,
        ) by {
            assert(is_peer(j, c));
            if s.digits[j] != 0 {
                lemma_zero_has_none();
            }
        }
    }
}

/// In box `b`, along lines of kind `u`.
fn check_locked_rows_or_cols(sudoku: &mut Sudoku, u: Unit) -> (r: Result<(), Error>)
    requires
        old(sudoku).wf(),
        u != Unit::Box,
    ensures
        sound_pass(*old(sudoku), *final(sudoku), r),
        old(sudoku).is_full() ==> *final(sudoku) == *old(sudoku) && r is Ok,
        solvable(*old(sudoku)) ==> forall|b: int, d: usize, r: int|
            #[trigger] locked_at(*old(sudoku), u, b, d, r) ==> line_cleared(
                *final(sudoku),
                u,
                b,
                line_base(u, b) + r,
                d,
            ),
{
    let ghost s0 = *sudoku;
    proof {
        lemma_sound_pass_refl(s0);
    }
    let mut b: usize = 0;
    while b < WIDTH
        invariant
            b <= WIDTH,
            u != Unit::Box,
            s0 == *old(sudoku),
            s0.wf(),
            sound_pass(s0, *sudoku, Ok(())),
            s0.is_full() ==> *sudoku == s0,
            solvable(s0) ==> forall|b2: int, d: usize, r: int|
                0 <= b2 < b && #[trigger] locked_at(s0, u, b2, d, r) ==> line_cleared(
                    *sudoku,
                    u,
                    b2,
                    line_base(u, b2) + r,
                    d,
                ),
        decreases WIDTH - b,
    {
        let base = match u {
            Unit::Row => (b / 3) * 3,
            _ => (b % 3) * 3,
        };
        let mut cache: [usize; 3] = [0; 3];
        let ghost s_box = *sudoku;
        proof {
            lemma_mask_closed(0, 0);
            lemma_zero_has_none();
        }
        let mut j: usize = 0;
        while j < SIZE
            invariant
                j <= SIZE,
                b < WIDTH,
                u != Unit::Box,
                s_box == *sudoku,
                sudoku.wf(),
                cache_describes(cache, s_box, u, b as int, j as int),
            decreases SIZE - j,
        {
            if get_box(j) == b {
                let line = get_unit(u, j) % 3;
                let ghost c0 = cache;
                cache[line] = cache[line] | sudoku.bitboard[j];
                proof {
                    lemma_mask_closed(c0[line as int], sudoku.bitboard[j as int]);
                    assert forall|k: int, d: usize| 0 <= k < 3 && d <= 9 implies (#[trigger] has_digit(
                        cache[k],
                        d,
                    ) <==> box_line_has(s_box, u, b as int, k, d, j + 1)) by {
                        if k == line {
                            lemma_bit_ops(c0[k], sudoku.bitboard[j as int], d);
                        }
                        lemma_box_line_step(s_box, u, b as int, k, d, j as int);
                    }
                }
            } else {
                proof {
                    assert forall|k: int, d: usize| 0 <= k < 3 && d <= 9 implies (#[trigger] has_digit(
                        cache[k],
                        d,
                    ) <==> box_line_has(s_box, u, b as int, k, d, j + 1)) by {
                        lemma_box_line_step(s_box, u, b as int, k, d, j as int);
                    }
                }
            }
            j = j + 1;
        }
        let ghost s_digits = *sudoku;
        proof {
            if solvable(s0) {
                let g = choose|g: Seq<usize>| is_solution(g) && #[trigger] s0.admits(g);
                assert forall|d: usize, r: int| #[trigger] locked_at(s0, u, b as int, d, r) implies locked_at(
                    s_box,
                    u,
                    b as int,
                    d,
                    r,
                ) || line_cleared(s_box, u, b as int, line_base(u, b as int) + r, d) by {
                    lemma_locked_after_pass(s0, s_box, u, b as int, d, r, g);
                }
            }
        }
        let mut digit: usize = 1;
        while digit <= 9
            invariant
                1 <= digit <= 10,
                b < WIDTH,
                u != Unit::Box,
                base == line_base(u, b as int),
                s0 == *old(sudoku),
                s_box == s_digits,
                s_box.wf(),
                sound_pass(s0, s_box, Ok(())),
                sound_pass(s_box, *sudoku, Ok(())),
                cache_describes(cache, s_box, u, b as int, 81),
                s0.is_full() ==> *sudoku == s0 && s_box == s0,
                s0.wf(),
                solvable(s0) ==> forall|d: usize, r: int|
                    #[trigger] locked_at(s0, u, b as int, d, r) ==> locked_at(s_box, u, b as int, d, r)
                        || line_cleared(s_box, u, b as int, line_base(u, b as int) + r, d),
                solvable(s0) ==> forall|d: usize, r: int|
                    1 <= d < digit && #[trigger] locked_at(s0, u, b as int, d, r) ==> line_cleared(
                        *sudoku,
                        u,
                        b as int,
                        line_base(u, b as int) + r,
                        d,
                    ),
                solvable(s0) ==> forall|b2: int, d: usize, r: int|
                    0 <= b2 < b && #[trigger] locked_at(s0, u, b2, d, r) ==> line_cleared(
                        *sudoku,
                        u,
                        b2,
                        line_base(u, b2) + r,
                        d,
                    ),
            decreases 10 - digit,
        {
            let ghost before = *sudoku;
            proof {
                assert forall|g: Seq<usize>, r: int, j: int|
                    #![trigger before.admits(g), only_line(cache, r, digit), g[j]]
                    is_solution(g) && before.admits(g) && only_line(cache, r, digit)
                        && is_cell(j) && unit_of(u, j) == base + r && box_of(j) != b implies g[j]
                    != digit by {
                    lemma_refines_admits(s_box, before, g);
                    lemma_locked_sound(s_box, u, b as int, cache, digit, g, r, j);
                }
                if s0.is_full() {
                    assert forall|r: int| 0 <= r < 3 implies !#[trigger] has_digit(cache[r], digit) by {
                        if box_line_has(s_box, u, b as int, r, digit, 81) {
                            let c = choose|c: int|
                                0 <= c < 81 && box_of(c) == b && unit_of(u, c) % 3 == r
                                    && #[trigger] has_digit(s_box.bitboard[c], digit);
                            assert(s0.digits[c] != 0);
                            assert(s_box.bitboard[c] == 0);
                            lemma_zero_has_none();
                        }
                    }
                }
            }
            let r = check_digit(sudoku, digit, &cache, base, b, u);
            proof {
                lemma_sound_pass_chain(s_box, before, *sudoku, Ok(()), r);
            }
            if r.is_err() {
                proof {
                    lemma_sound_pass_chain(s0, s_box, *sudoku, Ok(()), r);
                }
                return r;
            }
            proof {
                if solvable(s0) {
                    assert forall|d: usize, r: int|
                        1 <= d < digit + 1 && #[trigger] locked_at(s0, u, b as int, d, r) implies line_cleared(
                        *sudoku,
                        u,
                        b as int,
                        line_base(u, b as int) + r,
                        d,
                    ) by {
                        if d < digit {
                            lemma_line_cleared_persists(before, *sudoku, u, b as int, line_base(u, b as int) + r, d);
                        } else if line_cleared(s_box, u, b as int, line_base(u, b as int) + r, d) {
                            lemma_line_cleared_persists(s_box, *sudoku, u, b as int, line_base(u, b as int) + r, d);
                        } else {
                            assert(locked_at(s_box, u, b as int, d, r));
                            assert forall|r2: int| 0 <= r2 < 3 && r2 != r implies !#[trigger] has_digit(cache[r2], d) by {
                                if has_digit(cache[r2], d) {
                                    let c = choose|c: int|
                                        0 <= c < 81 && box_of(c) == b && unit_of(u, c) % 3 == r2
                                            && #[trigger] has_digit(s_box.bitboard[c], d);
                                }
                            }
                            assert(only_line(cache, r, d));
                        }
                    }
                    assert forall|b2: int, d: usize, r: int|
                        0 <= b2 < b && #[trigger] locked_at(s0, u, b2, d, r) implies line_cleared(
                        *sudoku,
                        u,
                        b2,
                        line_base(u, b2) + r,
                        d,
                    ) by {
                        lemma_line_cleared_persists(before, *sudoku, u, b2, line_base(u, b2) + r, d);
                    }
                }
            }
            digit = digit + 1;
        }
        proof {
            lemma_sound_pass_chain(s0, s_box, *sudoku, Ok(()), Ok(()));
        }
        b = b + 1;
    }
    Ok(())
}

proof fn lemma_box_line_step(s: Sudoku, u: Unit, b: int, k: int, d: usize, j: int)
    requires
        0 <= j < 81,
    ensures
        box_line_has(s, u, b, k, d, j + 1) <==> (box_line_has(s, u, b, k, d, j) || (box_of(j) == b
            && unit_of(u, j) % 3 == k && has_digit(s.bitboard[j], d))),
{
    if box_line_has(s, u, b, k, d, j + 1) {
        let c = choose|c: int|
            0 <= c < j + 1 && box_of(c) == b && unit_of(u, c) % 3 == k && #[trigger] has_digit(
                s.bitboard[c],
                d,
            );
        if c < j {
            assert(box_line_has(s, u, b, k, d, j));
        }
    }
    if box_line_has(s, u, b, k, d, j) {
        let c = choose|c: int|
            0 <= c < j && box_of(c) == b && unit_of(u, c) % 3 == k && #[trigger] has_digit(
                s.bitboard[c],
                d,
            );
        assert(0 <= c < j + 1);
    }
}

/// When, on board `s`, digit `digit` is a candidate in only one line `r` of
/// box `b`, no grid that `s` admits puts that digit in line `r` outside the
/// box.
proof fn lemma_locked_sound(
    s: Sudoku,
    u: Unit,
    b: int,
    cache: [usize; 3],
    digit: usize,
    g: Seq<usize>,
    r: int,
    j: int,
)
    requires
        s.wf(),
        u != Unit::Box,
        0 <= b < 9,
        is_digit(digit),
        cache_describes(cache, s, u, b, 81),
        is_solution(g),
        s.admits(g),
        only_line(cache, r, digit),
        is_cell(j),
        unit_of(u, j) == line_base(u, b) + r,
        box_of(j) != b,
    ensures
        g[j] != digit,
{
    lemma_solution_units_complete(g);
    assert(unit_holds(g, Unit::Box, b, digit));
    let c = choose|c: int| is_cell(c) && unit_of(Unit::Box, c) == b && #[trigger] g[c] == digit;
    assert(s.admits_at(c, g[c]));
    lemma_line_in_box(u, c);
    if s.digits[c] == 0 {
        assert(has_digit(s.bitboard[c], digit));
        assert(box_line_has(s, u, b, unit_of(u, c) % 3, digit, 81));
        assert(has_digit(cache[unit_of(u, c) % 3], digit));
        assert(unit_of(u, c) % 3 == r);
        assert(is_peer(c, j));
    } else {
        assert(box_line_has(s, u, b, r, digit, 81));
        let c2 = choose|c2: int|
            0 <= c2 < 81 && box_of(c2) == b && unit_of(u, c2) % 3 == r && #[trigger] has_digit(
                s.bitboard[c2],
                digit,
            );
        lemma_zero_has_none();
        assert(s.digits[c2] == 0);
        assert(is_peer(c2, c));
    }
}

/// Looks at digit `digit` in box `b`: when `cache` shows it in exactly one of
/// the box's lines, clears it from the rest of that line.
fn check_digit(
    sudoku: &mut Sudoku,
    digit: usize,
    cache: &[usize; 3],
    base: usize,
    b: usize,
    u: Unit,
) -> (r: Result<(), Error>)
    requires
        old(sudoku).wf(),
        is_digit(digit),
        b < WIDTH,
        u != Unit::Box,
        base == line_base(u, b as int),
        forall|g: Seq<usize>, r: int, j: int|
            #![trigger old(sudoku).admits(g), only_line(*cache, r, digit), g[j]]
            is_solution(g) && old(sudoku).admits(g) && only_line(*cache, r, digit)
                && is_cell(j) && unit_of(u, j) == base + r && box_of(j) != b ==> g[j] != digit,
    ensures
        sound_pass(*old(sudoku), *final(sudoku), r),
        (forall|r: int| 0 <= r < 3 ==> !#[trigger] has_digit(cache[r], digit)) ==> *final(sudoku)
            == *old(sudoku) && r is Ok,
        (exists|r1: int, r2: int|
            0 <= r1 < r2 < 3 && #[trigger] has_digit(cache[r1], digit) && #[trigger] has_digit(
                cache[r2],
                digit,
            )) ==> *final(sudoku) == *old(sudoku) && r is Ok,
        r is Ok ==> forall|r2: int|
            #[trigger] only_line(*cache, r2, digit) ==> line_cleared(
                *final(sudoku),
                u,
                b as int,
                base + r2,
                digit,
            ),
{
    let bitmask = 1usize << digit;
    let mut matching: usize = 0;
    let mut row_idx: usize = 0;
    let mut k: usize = 0;
    while k < 3
        invariant
            k <= 3,
            matching <= k,
            bitmask == 1usize << digit,
            matching == 0 ==> forall|r: int| 0 <= r < k ==> !#[trigger] has_digit(cache[r], digit),
            matching == 1 ==> row_idx < k && has_digit(cache[row_idx as int], digit) && forall|r: int|
                0 <= r < k && r != row_idx ==> !#[trigger] has_digit(cache[r], digit),
            matching >= 2 ==> row_idx < k && has_digit(cache[row_idx as int], digit) && exists|r1: int|
                0 <= r1 < row_idx && #[trigger] has_digit(cache[r1], digit),
        decreases 3 - k,
    {
        proof {
            lemma_has_digit_bits(cache[k as int], digit);
        }
        let ghost prev_idx = row_idx;
        if cache[k] & bitmask != 0 {
            matching = matching + 1;
            row_idx = k;
            proof {
                if matching >= 2 {
                    if matching == 2 {
                        assert(has_digit(cache[prev_idx as int], digit));
                    } else {
                        let r1 = choose|r1: int| 0 <= r1 < prev_idx && #[trigger] has_digit(cache[r1], digit);
                        assert(has_digit(cache[r1], digit));
                    }
                }
            }
        }
        k = k + 1;
    }
    if matching == 1 {
        proof {
            assert(only_line(*cache, row_idx as int, digit));
        }
        clear_locked_line(sudoku, digit, base, row_idx, b, u)
    } else {
        proof {
            lemma_sound_pass_refl(*sudoku);
            if matching >= 2 {
                let r1 = choose|r1: int| 0 <= r1 < row_idx && #[trigger] has_digit(cache[r1], digit);
                assert forall|r2: int| #[trigger] only_line(*cache, r2, digit) implies false by {
                    if r2 == row_idx {
                        assert(has_digit(cache[r1], digit));
                    } else {
                        assert(has_digit(cache[row_idx as int], digit));
                    }
                }
            }
        }
        Ok(())
    }
}

/// Clears `digit` from every cell of line `base + row_idx` of kind `u` that
/// lies outside box `b`.
fn clear_locked_line(
    sudoku: &mut Sudoku,
    digit: usize,
    base: usize,
    row_idx: usize,
    b: usize,
    u: Unit,
) -> (r: Result<(), Error>)
    requires
        old(sudoku).wf(),
        is_digit(digit),
        base < 9,
        row_idx < 3,
        b < WIDTH,
        forall|g: Seq<usize>, j: int|
            #![trigger old(sudoku).admits(g), g[j]]
            is_solution(g) && old(sudoku).admits(g) && is_cell(j) && unit_of(u, j) == base
                + row_idx && box_of(j) != b ==> g[j] != digit,
    ensures
        sound_pass(*old(sudoku), *final(sudoku), r),
        r is Ok ==> line_cleared(*final(sudoku), u, b as int, base + row_idx, digit),
{
    let ghost s0 = *sudoku;
    let line = base + row_idx;
    let mask = MASK ^ (1usize << digit);
    proof {
        lemma_sound_pass_refl(s0);
        lemma_single_bit(digit, 0);
        lemma_mask_closed(1usize << digit, 0);
    }
    let mut j: usize = 0;
    while j < SIZE
        invariant
            j <= SIZE,
            is_digit(digit),
            b < WIDTH,
            line == base + row_idx,
            mask == MASK ^ (1usize << digit),
            is_mask(mask),
            s0 == *old(sudoku),
            sound_pass(s0, *sudoku, Ok(())),
            forall|g: Seq<usize>, j2: int|
                #![trigger s0.admits(g), g[j2]]
                is_solution(g) && s0.admits(g) && is_cell(j2) && unit_of(u, j2) == base
                    + row_idx && box_of(j2) != b ==> g[j2] != digit,
            forall|j2: int|
                0 <= j2 < j && unit_of(u, j2) == line && box_of(j2) != b ==> !#[trigger] has_digit(
                    sudoku.bitboard[j2],
                    digit,
                ),
        decreases SIZE - j,
    {
        if get_unit(u, j) == line && get_box(j) != b {
            let ghost before = *sudoku;
            sudoku.bitboard[j] = sudoku.bitboard[j] & mask;
            proof {
                lemma_clear_effects(before, *sudoku, j as int, mask);
                assert forall|g: Seq<usize>| is_solution(g) && #[trigger] before.admits(g) implies has_digit(
                    mask,
                    g[j as int],
                ) by {
                    lemma_refines_admits(s0, before, g);
                    lemma_bit_ops(1usize << digit, 0, g[j as int]);
                    lemma_single_bit(digit, g[j as int]);
                }
            }
            let ghost cleared = *sudoku;
            let r = place_locked_cell(sudoku, j);
            proof {
                lemma_clear_settled(before, cleared, *sudoku, j as int, r);
                lemma_sound_pass_chain(s0, before, *sudoku, Ok(()), r);
            }
            if r.is_err() {
                return r;
            }
            proof {
                assert forall|j2: int|
                    0 <= j2 < j + 1 && unit_of(u, j2) == line && box_of(j2) != b implies !#[trigger] has_digit(
                    sudoku.bitboard[j2],
                    digit,
                ) by {
                    if j2 < j {
                        assert(!has_digit(before.bitboard[j2], digit));
                        assert(cleared.bitboard[j2] == before.bitboard[j2]);
                        lemma_absent_persists(cleared, *sudoku, j2, digit);
                    } else {
                        lemma_bit_ops(before.bitboard[j2], mask, digit);
                        lemma_bit_ops(1usize << digit, 0, digit);
                        lemma_single_bit(digit, digit);
                        if sudoku.digits[j2] != 0 {
                            lemma_zero_has_none();
                        }
                    }
                }
            }
        }
        j = j + 1;
    }
    Ok(())
}

/// After candidates were removed from cell `idx`: an unresolved cell without
/// candidates is a contradiction, and one with a single candidate is placed.
fn place_locked_cell(sudoku: &mut Sudoku, idx: usize) -> (r: Result<(), Error>)
    requires
        old(sudoku).wf(),
        idx < SIZE,
    ensures
        sound_pass(*old(sudoku), *final(sudoku), r),
        r is Ok ==> final(sudoku).digits[idx as int] != 0 || crate::bits::num_candidates(
            final(sudoku).bitboard[idx as int],
        ) >= 2,
        final(sudoku).digits[idx as int] == 0 ==> final(sudoku).bitboard[idx as int] == old(
            sudoku,
        ).bitboard[idx as int],
{
    let ghost s0 = *sudoku;
    proof {
        lemma_sound_pass_refl(s0);
    }
    if sudoku.digits[idx] == 0 && sudoku.bitboard[idx] == 0 {
        proof {
            assert forall|g: Seq<usize>| is_solution(g) && #[trigger] s0.admits(g) implies false by {
                lemma_empty_blocks(s0, idx as int, g);
            }
        }
        Err(Error::from(&*sudoku))
    } else if count_candidates(sudoku.bitboard[idx]) == 1 {
        proof {
            lemma_count_zero(sudoku.bitboard[idx as int], 9);
            if sudoku.digits[idx as int] != 0 {
                lemma_count_zero(0, 9);
                lemma_empty_mask(0);
            }
        }
        let digit = lowest_candidate(sudoku.bitboard[idx]);
        proof {
            assert forall|g: Seq<usize>| is_solution(g) && #[trigger] s0.admits(g) implies g[idx as int]
                == digit by {
                lemma_single_forced(s0, idx as int, digit, g);
            }
        }
        place_and_propagate(sudoku, idx, digit)
    } else {
        proof {
            if sudoku.digits[idx as int] == 0 {
                lemma_count_zero(sudoku.bitboard[idx as int], 9);
                lemma_empty_mask(sudoku.bitboard[idx as int]);
            }
        }
        Ok(())
    }
}

} // verus!
