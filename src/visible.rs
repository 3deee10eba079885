//! Naked singles and naked pairs: deductions from the candidates of one cell,
//! or of two cells with the same two candidates.
use vstd::prelude::*;

use crate::bits::{
    count_candidates, has_digit, is_digit, is_mask, lemma_bit_ops, lemma_count_one,
    lemma_count_subset, lemma_count_two, lemma_count_zero, lemma_empty_mask, lemma_mask_closed,
    lemma_mask_ext, lemma_single_bit, lowest_candidate, num_candidates, MASK,
};
use crate::error::Error;
use crate::geometry::{get_unit, is_cell, unit_of, unit_peers, Unit, SIZE};
use crate::grid::is_solution;
use crate::solver::{
    lemma_clear_settled, lemma_empty_blocks, lemma_single_forced, lemma_sound_pass_chain,
    lemma_sound_pass_refl, place_and_propagate, solvable, sound_pass,
};
use crate::sudoku::{lemma_clear_effects, lemma_refines_admits, Sudoku};

verus! {

/// On board `s`, unit peers `i` and `n` of kind `u` share the same two
/// candidates.
pub open spec fn naked_pair_at(s: Sudoku, u: Unit, i: int, n: int) -> bool {
    &&& unit_peers(u, i, n)
    &&& num_candidates(s.bitboard[i]) == 2
    &&& s.bitboard[i] == s.bitboard[n]
}

/// No cell of the unit of kind `u` of cell `i`, other than `i` and `n`, has a
/// digit of `pair` among its candidates on board `s`.
pub open spec fn pair_cleared(s: Sudoku, u: Unit, i: int, n: int, pair: usize) -> bool {
    forall|c: int, d: usize|
        unit_peers(u, i, c) && c != n && is_digit(d) && has_digit(pair, d) ==> !#[trigger] has_digit(
            s.bitboard[c],
            d,
        )
}

/// A candidate that is gone stays gone.
pub proof fn lemma_absent_persists(s: Sudoku, t: Sudoku, c: int, d: usize)
    requires
        t.wf(),
        t.refines(s),
        is_cell(c),
        is_digit(d),
        !has_digit(s.bitboard[c], d),
    ensures
        !has_digit(t.bitboard[c], d),
{
    assert(t.refines_at(s, c));
    if t.digits[c] != 0 {
        crate::bits::lemma_zero_has_none();
    }
}

pub proof fn lemma_cleared_persists(s: Sudoku, t: Sudoku, u: Unit, i: int, n: int, pair: usize)
    requires
        t.wf(),
        t.refines(s),
        pair_cleared(s, u, i, n, pair),
    ensures
        pair_cleared(t, u, i, n, pair),
{
    assert forall|c: int, d: usize|
        unit_peers(u, i, c) && c != n && is_digit(d) && has_digit(pair, d) implies !#[trigger] has_digit(
        t.bitboard[c],
        d,
    ) by {
        lemma_absent_persists(s, t, c, d);
    }
}

/// The two digits of a naked pair are those that an admitted grid puts in
/// its two cells.
proof fn lemma_pair_digits(s: Sudoku, u: Unit, i: int, n: int, g: Seq<usize>, d: usize)
    requires
        s.wf(),
        naked_pair_at(s, u, i, n),
        is_solution(g),
        s.admits(g),
        is_digit(d),
    ensures
        s.digits[i] == 0,
        s.digits[n] == 0,
        has_digit(s.bitboard[i], g[i]),
        has_digit(s.bitboard[i], g[n]),
        g[i] != g[n],
        has_digit(s.bitboard[i], d) <==> (d == g[i] || d == g[n]),
{
    let pair = s.bitboard[i];
    lemma_count_zero(pair, 9);
    lemma_empty_mask(pair);
    lemma_count_zero(0, 9);
    crate::bits::lemma_zero_has_none();
    assert(s.digits[i] == 0);
    assert(s.digits[n] == 0);
    assert(s.admits_at(i, g[i]));
    assert(s.admits_at(n, g[n]));
    assert(crate::geometry::is_peer(i, n));
    if has_digit(pair, d) {
        lemma_count_two(pair, 9, g[i], g[n], d);
    }
}

/// A solvable board has at most one naked-pair partner per cell and kind.
proof fn lemma_pair_partner_unique(s: Sudoku, u: Unit, i: int, n1: int, n2: int, g: Seq<usize>)
    requires
        s.wf(),
        naked_pair_at(s, u, i, n1),
        naked_pair_at(s, u, i, n2),
        is_solution(g),
        s.admits(g),
    ensures
        n1 == n2,
{
    lemma_pair_digits(s, u, i, n1, g, g[n2]);
    assert(s.admits_at(n2, g[n2]));
    lemma_count_zero(s.bitboard[n2], 9);
    lemma_empty_mask(s.bitboard[n2]);
    lemma_count_zero(0, 9);
    crate::bits::lemma_zero_has_none();
    assert(s.digits[n2] == 0);
    if n1 != n2 {
        assert(crate::geometry::is_peer(i, n2));
        assert(crate::geometry::is_peer(n1, n2));
    }
}

/// After a sound pass on a solvable board, a naked pair of the start is either
/// still a naked pair with the same candidates, or its two cells are resolved
/// and its digits are gone from the rest of the unit.
pub proof fn lemma_pair_after_pass(s0: Sudoku, s: Sudoku, u: Unit, i: int, n: int, g: Seq<usize>)
    requires
        s0.wf(),
        naked_pair_at(s0, u, i, n),
        sound_pass(s0, s, Ok(())),
        is_solution(g),
        s0.admits(g),
    ensures
        (naked_pair_at(s, u, i, n) && s.bitboard[i] == s0.bitboard[i]) || pair_cleared(
            s,
            u,
            i,
            n,
            s0.bitboard[i],
        ),
{
    let pair = s0.bitboard[i];
    lemma_pair_digits(s0, u, i, n, g, 1);
    assert(s.admits(g));
    assert(crate::geometry::is_peer(i, n));
    assert(crate::geometry::is_peer(n, i));
    lemma_mask_closed(0, 0);
    lemma_cell_keeps_pair(s0, s, u, i, n, g, i);
    lemma_cell_keeps_pair(s0, s, u, i, n, g, n);
    if s.digits[i] != 0 && s.digits[n] != 0 {
        assert(s.admits_at(i, g[i]));
        assert(s.admits_at(n, g[n]));
        assert forall|c: int, d: usize|
            unit_peers(u, i, c) && c != n && is_digit(d) && has_digit(pair, d) implies !#[trigger] has_digit(
            s.bitboard[c],
            d,
        ) by {
            lemma_pair_digits(s0, u, i, n, g, d);
            assert(crate::geometry::is_peer(c, i));
            assert(crate::geometry::is_peer(c, n));
            if s.digits[c] != 0 {
                crate::bits::lemma_zero_has_none();
            }
        }
    } else if s.digits[i] == 0 && s.digits[n] == 0 {
    } else if s.digits[i] == 0 {
        assert(s.admits_at(n, g[n]));
        assert(!has_digit(s.bitboard[i], s.digits[n]));
    } else {
        assert(s.admits_at(i, g[i]));
        assert(!has_digit(s.bitboard[n], s.digits[i]));
    }
}

/// A cell of a naked pair that a sound pass leaves unresolved keeps the pair.
proof fn lemma_cell_keeps_pair(
    s0: Sudoku,
    s: Sudoku,
    u: Unit,
    i: int,
    n: int,
    g: Seq<usize>,
    x: int,
)
    requires
        s0.wf(),
        naked_pair_at(s0, u, i, n),
        sound_pass(s0, s, Ok(())),
        is_solution(g),
        s0.admits(g),
        x == i || x == n,
    ensures
        s.digits[x] == 0 ==> s.bitboard[x] == s0.bitboard[i],
{
    let pair = s0.bitboard[i];
    lemma_pair_digits(s0, u, i, n, g, 1);
    if s.digits[x] == 0 && s.bitboard[x] != pair {
        assert(s.admits(g));
        assert(s.refines_at(s0, x));
        assert(s.admits_at(x, g[x]));
        let b = s.bitboard[x];
        let other = if x == i {
            g[n]
        } else {
            g[i]
        };
        assert forall|d: usize| is_digit(d) && #[trigger] has_digit(b, d) implies has_digit(
            pair,
            d,
        ) by {}
        if has_digit(b, other) {
            assert forall|d: usize| is_digit(d) implies #[trigger] has_digit(b, d) == has_digit(
                pair,
                d,
            ) by {
                lemma_pair_digits(s0, u, i, n, g, d);
            }
            lemma_mask_ext(b, pair);
        }
        let only = g[x];
        lemma_single_bit(only, 0);
        assert forall|d: usize| 1 <= d <= 9 && has_digit(b, d) implies has_digit(1usize << only, d) by {
            lemma_pair_digits(s0, u, i, n, g, d);
            lemma_single_bit(only, d);
        }
        lemma_count_subset(b, 1usize << only, 9);
        assert forall|e: usize| 1 <= e <= 9 && #[trigger] has_digit(1usize << only, e) implies e
            == only by {
            lemma_single_bit(only, e);
        }
        lemma_single_bit(only, only);
        crate::bits::lemma_count_exactly_one(1usize << only, 9, only);
    }
}

/// The cells with exactly one candidate, each with that candidate, in cell
/// order.
fn get_placements(sudoku: &Sudoku) -> (v: Vec<(usize, usize)>)
    requires
        sudoku.wf(),
    ensures
        forall|k: int|
            0 <= k < v.len() ==> {
                let (idx, digit) = #[trigger] v[k];
                &&& idx < SIZE
                &&& sudoku.digits[idx as int] == 0
                &&& num_candidates(sudoku.bitboard[idx as int]) == 1
                &&& is_digit(digit)
                &&& has_digit(sudoku.bitboard[idx as int], digit)
            },
        forall|i: int|
            is_cell(i) && num_candidates(#[trigger] sudoku.bitboard[i]) == 1 ==> exists|k: int|
                0 <= k < v.len() && (#[trigger] v[k]).0 == i,
{
    let mut v: Vec<(usize, usize)> = Vec::new();
    let mut i: usize = 0;
    while i < SIZE
        invariant
            i <= SIZE,
            sudoku.wf(),
            forall|k: int|
                0 <= k < v.len() ==> {
                    let (idx, digit) = #[trigger] v[k];
                    &&& idx < SIZE
                    &&& sudoku.digits[idx as int] == 0
                    &&& num_candidates(sudoku.bitboard[idx as int]) == 1
                    &&& is_digit(digit)
                    &&& has_digit(sudoku.bitboard[idx as int], digit)
                },
            forall|j: int|
                0 <= j < i && num_candidates(#[trigger] sudoku.bitboard[j]) == 1 ==> exists|k: int|
                    0 <= k < v.len() && (#[trigger] v[k]).0 == j,
        decreases SIZE - i,
    {
        let bitboard = sudoku.bitboard[i];
        if count_candidates(bitboard) == 1 {
            proof {
                lemma_count_zero(bitboard, 9);
                lemma_mask_closed(0, 0);
                if sudoku.digits[i as int] != 0 {
                    lemma_count_zero(0, 9);
                    lemma_empty_mask(0);
                }
            }
            let digit = lowest_candidate(bitboard);
            let ghost old_v = v@;
            v.push((i, digit));
            proof {
                assert forall|j: int|
                    0 <= j < i + 1 && num_candidates(#[trigger] sudoku.bitboard[j]) == 1 implies exists|k: int|
                    0 <= k < v.len() && (#[trigger] v[k]).0 == j by {
                    if j == i {
                        assert(v[v.len() - 1].0 == j);
                    } else {
                        let k = choose|k: int| 0 <= k < old_v.len() && (#[trigger] old_v[k]).0 == j;
                        assert(v[k].0 == j);
                    }
                }
            }
        }
        i = i + 1;
    }
    v
}

/// Places every naked single: each cell whose only candidate is one digit.
/// The cells and digits are collected before any placement; a collected cell
/// that has been resolved meanwhile is skipped, and one that has lost its last
/// candidate meanwhile is a contradiction.
pub fn place_all_visible_singles(sudoku: &mut Sudoku) -> (r: Result<(), Error>)
    requires
        old(sudoku).wf(),
    ensures
        sound_pass(*old(sudoku), *final(sudoku), r),
        r is Ok ==> forall|i: int|
            is_cell(i) && num_candidates(#[trigger] old(sudoku).bitboard[i]) == 1
                ==> final(sudoku).digits[i] != 0,
        old(sudoku).is_full() ==> *final(sudoku) == *old(sudoku) && r is Ok,
{
    let ghost s0 = *sudoku;
    let placements = get_placements(sudoku);
    proof {
        lemma_sound_pass_refl(s0);
        if s0.is_full() {
            assert forall|i: int| is_cell(i) implies num_candidates(#[trigger] s0.bitboard[i]) != 1 by {
                assert(s0.digits[i] != 0);
                lemma_count_zero(0, 9);
                lemma_empty_mask(0);
            }
            if placements.len() > 0 {
                assert(placements[0].0 < SIZE);
            }
        }
    }
    let mut k: usize = 0;
    while k < placements.len()
        invariant
            k <= placements.len(),
            s0 == *old(sudoku),
            s0.wf(),
            sound_pass(s0, *sudoku, Ok(())),
            s0.is_full() ==> *sudoku == s0 && placements.len() == 0,
            forall|k2: int|
                0 <= k2 < placements.len() ==> {
                    let (idx, digit) = #[trigger] placements[k2];
                    &&& idx < SIZE
                    &&& s0.digits[idx as int] == 0
                    &&& num_candidates(s0.bitboard[idx as int]) == 1
                    &&& is_digit(digit)
                    &&& has_digit(s0.bitboard[idx as int], digit)
                },
            forall|i: int|
                is_cell(i) && num_candidates(#[trigger] s0.bitboard[i]) == 1 ==> exists|k2: int|
                    0 <= k2 < placements.len() && (#[trigger] placements[k2]).0 == i,
            forall|k2: int| 0 <= k2 < k ==> sudoku.digits[(#[trigger] placements[k2]).0 as int] != 0,
        decreases placements.len() - k,
    {
        let (idx, digit) = placements[k];
        let ghost before = *sudoku;
        if sudoku.digits[idx] == 0 {
            proof {
                assert(sudoku.refines_at(s0, idx as int));
            }
            if sudoku.bitboard[idx] == 0 {
                proof {
                    assert forall|g: Seq<usize>| is_solution(g) && #[trigger] s0.admits(g) implies false by {
                        lemma_empty_blocks(before, idx as int, g);
                    }
                }
                return Err(Error::from(&*sudoku));
            }
            proof {
                let b = sudoku.bitboard[idx as int];
                lemma_empty_mask(b);
                let e = choose|e: usize| is_digit(e) && has_digit(b, e);
                assert(has_digit(s0.bitboard[idx as int], e));
                lemma_count_one(s0.bitboard[idx as int], 9, e, digit);
                assert forall|g: Seq<usize>| is_solution(g) && #[trigger] before.admits(g) implies g[idx as int]
                    == digit by {
                    assert(before.admits_at(idx as int, g[idx as int]));
                    assert(has_digit(s0.bitboard[idx as int], g[idx as int]));
                    lemma_count_one(s0.bitboard[idx as int], 9, g[idx as int], digit);
                }
            }
            let r = place_and_propagate(sudoku, idx, digit);
            proof {
                lemma_sound_pass_chain(s0, before, *sudoku, Ok(()), r);
            }
            if r.is_err() {
                return r;
            }
        }
        proof {
            assert forall|k2: int| 0 <= k2 < k + 1 implies sudoku.digits[(#[trigger] placements[k2]).0 as int]
                != 0 by {
                if k2 < k {
                    assert(sudoku.refines_at(before, placements[k2].0 as int));
                }
            }
        }
        k = k + 1;
    }
    proof {
        assert forall|i: int| is_cell(i) && num_candidates(#[trigger] s0.bitboard[i]) == 1 implies sudoku.digits[i]
            != 0 by {
            let k2 = choose|k2: int| 0 <= k2 < placements.len() && (#[trigger] placements[k2]).0 == i;
        }
    }
    Ok(())
}

/// Runs the naked-pair deduction over rows, then columns, then boxes.
pub fn check_all_visible_doubles(sudoku: &mut Sudoku) -> (r: Result<(), Error>)
    requires
        old(sudoku).wf(),
    ensures
        sound_pass(*old(sudoku), *final(sudoku), r),
        old(sudoku).is_full() ==> *final(sudoku) == *old(sudoku) && r is Ok,
        solvable(*old(sudoku)) ==> forall|u: Unit, i: int, n: int|
            #[trigger] naked_pair_at(*old(sudoku), u, i, n) ==> pair_cleared(
                *final(sudoku),
                u,
                i,
                n,
                old(sudoku).bitboard[i],
            ),
{
    let ghost s0 = *sudoku;
    let r = check_visible_doubles(sudoku, Unit::Row);
    if r.is_err() {
        return r;
    }
    let ghost s1 = *sudoku;
    let r = check_visible_doubles(sudoku, Unit::Col);
    proof {
        lemma_sound_pass_chain(s0, s1, *sudoku, Ok(()), r);
    }
    if r.is_err() {
        return r;
    }
    let ghost s2 = *sudoku;
    let r = check_visible_doubles(sudoku, Unit::Box);
    proof {
        lemma_sound_pass_chain(s0, s2, *sudoku, Ok(()), r);
        if solvable(s0) {
            let g = choose|g: Seq<usize>| is_solution(g) && #[trigger] s0.admits(g);
            assert(s1.admits(g));
            assert(s2.admits(g));
            assert forall|u: Unit, i: int, n: int| #[trigger] naked_pair_at(s0, u, i, n) implies pair_cleared(
                *sudoku,
                u,
                i,
                n,
                s0.bitboard[i],
            ) by {
                match u {
                    Unit::Row => {
                        lemma_cleared_persists(s1, s2, u, i, n, s0.bitboard[i]);
                        lemma_cleared_persists(s2, *sudoku, u, i, n, s0.bitboard[i]);
                    },
                    Unit::Col => {
                        lemma_pair_after_pass(s0, s1, u, i, n, g);
                        if pair_cleared(s1, u, i, n, s0.bitboard[i]) {
                            lemma_cleared_persists(s1, s2, u, i, n, s0.bitboard[i]);
                        } else {
                            assert(naked_pair_at(s1, u, i, n));
                        }
                        lemma_cleared_persists(s2, *sudoku, u, i, n, s0.bitboard[i]);
                    },
                    Unit::Box => {
                        lemma_pair_after_pass(s0, s2, u, i, n, g);
                        if pair_cleared(s2, u, i, n, s0.bitboard[i]) {
                            lemma_cleared_persists(s2, *sudoku, u, i, n, s0.bitboard[i]);
                        } else {
                            assert(naked_pair_at(s2, u, i, n));
                        }
                    },
                }
            }
        }
    }
    r
}

/// Naked pairs in the units of kind `u`: for each cell with exactly two
/// candidates, looks for a unit peer with the same two.
fn check_visible_doubles(sudoku: &mut Sudoku, u: Unit) -> (r: Result<(), Error>)
    requires
        old(sudoku).wf(),
    ensures
        sound_pass(*old(sudoku), *final(sudoku), r),
        old(sudoku).is_full() ==> *final(sudoku) == *old(sudoku) && r is Ok,
        solvable(*old(sudoku)) ==> forall|i: int, n: int|
            #[trigger] naked_pair_at(*old(sudoku), u, i, n) ==> pair_cleared(
                *final(sudoku),
                u,
                i,
                n,
                old(sudoku).bitboard[i],
            ),
{
    let ghost s0 = *sudoku;
    proof {
        lemma_sound_pass_refl(s0);
    }
    let mut idx: usize = 0;
    while idx < SIZE
        invariant
            idx <= SIZE,
            s0 == *old(sudoku),
            s0.wf(),
            sound_pass(s0, *sudoku, Ok(())),
            s0.is_full() ==> *sudoku == s0,
            solvable(s0) ==> forall|i: int, n: int|
                0 <= i < idx && #[trigger] naked_pair_at(s0, u, i, n) ==> pair_cleared(
                    *sudoku,
                    u,
                    i,
                    n,
                    s0.bitboard[i],
                ),
        decreases SIZE - idx,
    {
        proof {
            if s0.is_full() {
                assert(sudoku.digits[idx as int] != 0);
                lemma_count_zero(0, 9);
                lemma_empty_mask(0);
            }
        }
        let ghost before = *sudoku;
        proof {
            if solvable(s0) {
                let g = choose|g: Seq<usize>| is_solution(g) && #[trigger] s0.admits(g);
                assert(before.admits(g));
                assert forall|n: int| #[trigger] naked_pair_at(s0, u, idx as int, n) implies (naked_pair_at(
                    before,
                    u,
                    idx as int,
                    n,
                ) && before.bitboard[idx as int] == s0.bitboard[idx as int]) || pair_cleared(
                    before,
                    u,
                    idx as int,
                    n,
                    s0.bitboard[idx as int],
                ) by {
                    lemma_pair_after_pass(s0, before, u, idx as int, n, g);
                }
            }
        }
        if count_candidates(sudoku.bitboard[idx]) == 2 {
            let r = check_visible_double_pairs(sudoku, idx, u);
            proof {
                lemma_sound_pass_chain(s0, before, *sudoku, Ok(()), r);
            }
            if r.is_err() {
                return r;
            }
        }
        proof {
            if solvable(s0) {
                let g = choose|g: Seq<usize>| is_solution(g) && #[trigger] s0.admits(g);
                assert(before.admits(g));
                assert forall|i: int, n: int|
                    0 <= i < idx + 1 && #[trigger] naked_pair_at(s0, u, i, n) implies pair_cleared(
                    *sudoku,
                    u,
                    i,
                    n,
                    s0.bitboard[i],
                ) by {
                    if i < idx {
                        lemma_cleared_persists(before, *sudoku, u, i, n, s0.bitboard[i]);
                    } else if pair_cleared(before, u, i, n, s0.bitboard[i]) {
                        lemma_cleared_persists(before, *sudoku, u, i, n, s0.bitboard[i]);
                    } else {
                        assert(naked_pair_at(before, u, i, n));
                    }
                }
            }
        }
        idx = idx + 1;
    }
    Ok(())
}

/// Looks among the unit peers of `idx` for cells whose candidates equal those
/// of `idx`, and clears that pair from the rest of the unit.
fn check_visible_double_pairs(sudoku: &mut Sudoku, idx: usize, u: Unit) -> (r: Result<(), Error>)
    requires
        old(sudoku).wf(),
        idx < SIZE,
        num_candidates(old(sudoku).bitboard[idx as int]) == 2,
    ensures
        sound_pass(*old(sudoku), *final(sudoku), r),
        solvable(*old(sudoku)) ==> forall|n: int|
            #[trigger] naked_pair_at(*old(sudoku), u, idx as int, n) ==> pair_cleared(
                *final(sudoku),
                u,
                idx as int,
                n,
                old(sudoku).bitboard[idx as int],
            ),
{
    let ghost s0 = *sudoku;
    proof {
        lemma_sound_pass_refl(s0);
    }
    let unit = get_unit(u, idx);
    let mut n: usize = 0;
    while n < SIZE
        invariant
            n <= SIZE,
            idx < SIZE,
            unit == unit_of(u, idx as int),
            s0 == *old(sudoku),
            num_candidates(s0.bitboard[idx as int]) == 2,
            sound_pass(s0, *sudoku, Ok(())),
            s0.wf(),
            (forall|n2: int| 0 <= n2 < n ==> !#[trigger] naked_pair_at(s0, u, idx as int, n2))
                ==> *sudoku == s0,
            solvable(s0) ==> forall|n2: int|
                0 <= n2 < n && #[trigger] naked_pair_at(s0, u, idx as int, n2) ==> pair_cleared(
                    *sudoku,
                    u,
                    idx as int,
                    n2,
                    s0.bitboard[idx as int],
                ),
        decreases SIZE - n,
    {
        let ghost before = *sudoku;
        proof {
            if solvable(s0) && naked_pair_at(s0, u, idx as int, n as int) {
                let g = choose|g: Seq<usize>| is_solution(g) && #[trigger] s0.admits(g);
                assert forall|n2: int| 0 <= n2 < n implies !#[trigger] naked_pair_at(
                    s0,
                    u,
                    idx as int,
                    n2,
                ) by {
                    if naked_pair_at(s0, u, idx as int, n2) {
                        lemma_pair_partner_unique(s0, u, idx as int, n2, n as int, g);
                    }
                }
            }
        }
        if n != idx && get_unit(u, n) == unit && sudoku.bitboard[idx] == sudoku.bitboard[n] {
            proof {
                assert(sudoku.refines_at(s0, idx as int));
                if sudoku.digits[idx as int] == 0 {
                    lemma_count_subset(sudoku.bitboard[idx as int], s0.bitboard[idx as int], 9);
                } else {
                    lemma_count_zero(0, 9);
                    lemma_empty_mask(0);
                }
            }
            let r = check_visible_double_pair(sudoku, idx, n, u);
            proof {
                lemma_sound_pass_chain(s0, before, *sudoku, Ok(()), r);
            }
            if r.is_err() {
                return r;
            }
            proof {
                if *sudoku != before {
                    assert(before == s0 ==> naked_pair_at(s0, u, idx as int, n as int));
                }
                if solvable(s0) {
                    assert forall|n2: int|
                        0 <= n2 < n + 1 && #[trigger] naked_pair_at(s0, u, idx as int, n2) implies pair_cleared(
                        *sudoku,
                        u,
                        idx as int,
                        n2,
                        s0.bitboard[idx as int],
                    ) by {
                        if n2 < n {
                            lemma_cleared_persists(before, *sudoku, u, idx as int, n2, s0.bitboard[idx as int]);
                        }
                    }
                }
            }
        } else {
            proof {
                if solvable(s0) && naked_pair_at(s0, u, idx as int, n as int) {
                    assert(before == s0);
                }
            }
        }
        n = n + 1;
    }
    Ok(())
}

/// Cells `idx` and `n` of one unit have the same candidates, at most two:
/// those digits belong to these two cells, and are cleared from every other
/// cell of the unit.
fn check_visible_double_pair(sudoku: &mut Sudoku, idx: usize, n: usize, u: Unit) -> (r: Result<
    (),
    Error,
>)
    requires
        old(sudoku).wf(),
        idx < SIZE,
        n < SIZE,
        unit_peers(u, idx as int, n as int),
        old(sudoku).bitboard[idx as int] == old(sudoku).bitboard[n as int],
        num_candidates(old(sudoku).bitboard[idx as int]) <= 2,
    ensures
        sound_pass(*old(sudoku), *final(sudoku), r),
        r is Ok ==> pair_cleared(
            *final(sudoku),
            u,
            idx as int,
            n as int,
            old(sudoku).bitboard[idx as int],
        ),
{
    let ghost s0 = *sudoku;
    let pair = sudoku.bitboard[idx];
    let mask = MASK ^ pair;
    proof {
        lemma_sound_pass_refl(s0);
        lemma_mask_closed(pair, 0);
        assert forall|g: Seq<usize>, c: int|
            is_solution(g) && #[trigger] s0.admits(g) && unit_peers(u, idx as int, c) && c != n
                implies #[trigger] has_digit(mask, g[c]) by {
            lemma_bit_ops(pair, 0, g[c]);
            if has_digit(pair, g[c]) {
                assert(s0.admits_at(idx as int, g[idx as int]));
                assert(s0.admits_at(n as int, g[n as int]));
                lemma_empty_mask(pair);
                assert(s0.digits[idx as int] == 0);
                assert(s0.digits[n as int] == 0);
                assert(crate::geometry::is_peer(idx as int, n as int));
                lemma_count_two(pair, 9, g[idx as int], g[n as int], g[c]);
                assert(crate::geometry::is_peer(idx as int, c));
                assert(crate::geometry::is_peer(n as int, c));
            }
        }
    }
    let unit = get_unit(u, idx);
    let mut c: usize = 0;
    while c < SIZE
        invariant
            c <= SIZE,
            idx < SIZE,
            n < SIZE,
            unit == unit_of(u, idx as int),
            is_mask(mask),
            s0 == *old(sudoku),
            sound_pass(s0, *sudoku, Ok(())),
            forall|g: Seq<usize>, c2: int|
                is_solution(g) && #[trigger] s0.admits(g) && unit_peers(u, idx as int, c2) && c2 != n
                    ==> #[trigger] has_digit(mask, g[c2]),
            pair == s0.bitboard[idx as int],
            mask == MASK ^ pair,
            forall|c2: int, d: usize|
                unit_peers(u, idx as int, c2) && c2 != n && c2 < c && is_digit(d) && has_digit(pair, d)
                    ==> !#[trigger] has_digit(sudoku.bitboard[c2], d),
        decreases SIZE - c,
    {
        if c != idx && c != n && get_unit(u, c) == unit {
            let ghost before = *sudoku;
            proof {
                assert forall|g: Seq<usize>| is_solution(g) && #[trigger] before.admits(g) implies has_digit(
                    mask,
                    g[c as int],
                ) by {
                    lemma_refines_admits(s0, before, g);
                }
            }
            let r = check_visible_double(sudoku, c, mask);
            proof {
                lemma_sound_pass_chain(s0, before, *sudoku, Ok(()), r);
            }
            if r.is_err() {
                return r;
            }
            proof {
                assert forall|c2: int, d: usize|
                    unit_peers(u, idx as int, c2) && c2 != n && c2 < c + 1 && is_digit(d) && has_digit(
                        pair,
                        d,
                    ) implies !#[trigger] has_digit(sudoku.bitboard[c2], d) by {
                    lemma_bit_ops(pair, 0, d);
                    if c2 < c {
                        lemma_absent_persists(before, *sudoku, c2, d);
                    }
                }
            }
        } else {
            proof {
                assert forall|c2: int, d: usize|
                    unit_peers(u, idx as int, c2) && c2 != n && c2 < c + 1 && is_digit(d) && has_digit(
                        pair,
                        d,
                    ) implies !#[trigger] has_digit(sudoku.bitboard[c2], d) by {
                    if c2 == c {
                        assert(c == idx || c == n || !unit_peers(u, idx as int, c2));
                    }
                }
            }
        }
        c = c + 1;
    }
    Ok(())
}

/// Keeps only the candidates of cell `c` that lie in `mask`; an unresolved cell
/// left without candidates is a contradiction, and one left with a single
/// candidate is placed.
fn check_visible_double(sudoku: &mut Sudoku, c: usize, mask: usize) -> (r: Result<(), Error>)
    requires
        old(sudoku).wf(),
        c < SIZE,
        is_mask(mask),
        forall|g: Seq<usize>|
            is_solution(g) && #[trigger] old(sudoku).admits(g) ==> has_digit(mask, g[c as int]),
    ensures
        sound_pass(*old(sudoku), *final(sudoku), r),
        forall|d: usize|
            is_digit(d) && !has_digit(mask, d) ==> !#[trigger] has_digit(final(sudoku).bitboard[c as int], d),
{
    let ghost s0 = *sudoku;
    sudoku.bitboard[c] = sudoku.bitboard[c] & mask;
    proof {
        lemma_clear_effects(s0, *sudoku, c as int, mask);
        assert forall|d: usize| is_digit(d) && !has_digit(mask, d) implies !#[trigger] has_digit(
            sudoku.bitboard[c as int],
            d,
        ) by {
            lemma_bit_ops(s0.bitboard[c as int], mask, d);
        }
    }
    let ghost s1 = *sudoku;
    let possible = check_visible_double_possible(sudoku, c);
    if possible.is_err() {
        proof {
            assert forall|g: Seq<usize>| is_solution(g) && #[trigger] s0.admits(g) implies false by {
                lemma_empty_blocks(s1, c as int, g);
            }
            assert forall|g: Seq<usize>| is_solution(g) && #[trigger] s1.admits(g) implies false by {
                lemma_empty_blocks(s1, c as int, g);
            }
            lemma_sound_pass_refl(s1);
            lemma_clear_settled(s0, s1, *sudoku, c as int, possible);
        }
        return possible;
    }
    if count_candidates(sudoku.bitboard[c]) == 1 {
        proof {
            lemma_count_zero(sudoku.bitboard[c as int], 9);
            if sudoku.digits[c as int] != 0 {
                lemma_count_zero(0, 9);
                lemma_empty_mask(0);
            }
        }
        let digit = lowest_candidate(sudoku.bitboard[c]);
        proof {
            assert forall|g: Seq<usize>| is_solution(g) && #[trigger] s1.admits(g) implies g[c as int]
                == digit by {
                lemma_single_forced(s1, c as int, digit, g);
            }
        }
        let r = place_and_propagate(sudoku, c, digit);
        proof {
            lemma_clear_settled(s0, s1, *sudoku, c as int, r);
            assert forall|d: usize| is_digit(d) && !has_digit(mask, d) implies !#[trigger] has_digit(
                sudoku.bitboard[c as int],
                d,
            ) by {
                crate::bits::lemma_zero_has_none();
            }
        }
        r
    } else {
        proof {
            lemma_sound_pass_refl(s1);
            if sudoku.digits[c as int] == 0 {
                lemma_count_zero(sudoku.bitboard[c as int], 9);
                lemma_empty_mask(sudoku.bitboard[c as int]);
            }
            lemma_clear_settled(s0, s1, *sudoku, c as int, Ok(()));
        }
        Ok(())
    }
}

/// An unresolved cell without candidates is a contradiction.
fn check_visible_double_possible(sudoku: &Sudoku, c: usize) -> (r: Result<(), Error>)
    requires
        c < SIZE,
    ensures
        r is Err <==> sudoku.digits[c as int] == 0 && sudoku.bitboard[c as int] == 0,
        r is Err ==> r == Err::<(), Error>(crate::sudoku::no_solution(*sudoku)),
{
    if sudoku.digits[c] == 0 && sudoku.bitboard[c] == 0 {
        Err(Error::from(sudoku))
    } else {
        Ok(())
    }
}

} // verus!
