//! Placement with cascading propagation, the constraint-check cycle and the
//! backtracking search.
use vstd::prelude::*;

use crate::bits::{
    count_candidates, has_digit, is_digit, lemma_count_one, lemma_count_zero, lemma_empty_mask,
    lowest_candidate, num_candidates,
};
use crate::error::Error;
use crate::geometry::{is_cell, is_peer, line_base, peers, Unit, SIZE};
use crate::grid::{is_solution, lemma_solution_units_complete, units_complete};
use crate::hidden::{
    all_units_coverable, check_all_hidden_zeroes, hidden_single_at, lemma_admitted_coverable,
    lemma_hidden_single_persists, place_all_hidden_singles,
};
use crate::locked::{
    check_locked_candidates, lemma_line_cleared_persists, line_cleared, locked_at,
};
use crate::sudoku::{
    lemma_blanks_none, lemma_full_board_solution, lemma_refines_refl, lemma_refines_trans,
    no_solution, Sudoku,
};
use crate::visible::{
    check_all_visible_doubles, lemma_cleared_persists, lemma_pair_after_pass, naked_pair_at,
    pair_cleared, place_all_visible_singles,
};

verus! {

/// The board admits some completed grid: the puzzle, as it stands, has a
/// solution.
pub open spec fn solvable(s: Sudoku) -> bool {
    exists|g: Seq<usize>| is_solution(g) && #[trigger] s.admits(g)
}

/// Every cell whose candidates differ between `pre` and `post` and that is
/// unresolved in `post` keeps at least two candidates: no naked single, and no
/// empty cell, is left behind.
pub open spec fn no_new_singles(pre: Sudoku, post: Sudoku) -> bool {
    forall|j: int|
        is_cell(j) && post.digits[j] == 0 && #[trigger] post.bitboard[j] != pre.bitboard[j]
            ==> num_candidates(post.bitboard[j]) >= 2
}

/// Every cell placed between `pre` and `post` has no unresolved peer left in
/// `post` with fewer than two candidates: each placement was propagated.
pub open spec fn settled_around(pre: Sudoku, post: Sudoku) -> bool {
    forall|j: int, k: int|
        #[trigger] is_peer(j, k) && pre.digits[j] == 0 && post.digits[j] != 0 && post.digits[k] == 0
            ==> num_candidates(post.bitboard[k]) >= 2
}

/// From `pre` to `post` the search made at most `extra` more guesses than it
/// visited nodes, as long as the node count has not reached its cap.
pub open spec fn guesses_bounded(pre: Sudoku, post: Sudoku, extra: int) -> bool {
    post.num_recursions < i32::MAX ==> post.guesses - pre.guesses <= post.num_recursions
        - pre.num_recursions + extra
}

/// What every deduction pass guarantees when it turns board `pre` into `post`
/// with result `r`: the board invariant holds; digits were only placed where
/// they were candidates and candidates only removed; counters are unchanged;
/// consistency is kept; an error reports a contradiction on `pre`; on success
/// no changed cell and no peer of a newly placed cell is left unresolved with
/// fewer than two candidates; and every completed grid that `pre` admits is
/// still admitted by `post`, with success.
pub open spec fn sound_pass(pre: Sudoku, post: Sudoku, r: Result<(), Error>) -> bool {
    &&& post.wf()
    &&& post.refines(pre)
    &&& post.blanks() <= pre.blanks()
    &&& post.num_recursions == pre.num_recursions
    &&& post.guesses == pre.guesses
    &&& pre.consistent() ==> post.consistent()
    &&& r is Err ==> r == Err::<(), Error>(no_solution(pre))
    &&& r is Ok ==> no_new_singles(pre, post)
    &&& r is Ok ==> settled_around(pre, post)
    &&& forall|g: Seq<usize>| is_solution(g) && #[trigger] pre.admits(g) ==> r is Ok && post.admits(g)
}

/// Passes chain: a sound pass followed by a sound pass is sound.
pub proof fn lemma_sound_pass_chain(
    a: Sudoku,
    b: Sudoku,
    c: Sudoku,
    r1: Result<(), Error>,
    r2: Result<(), Error>,
)
    requires
        sound_pass(a, b, r1),
        r1 is Ok,
        sound_pass(b, c, r2),
        a.num_recursions == b.num_recursions,
        a.guesses == b.guesses,
    ensures
        sound_pass(a, c, r2),
{
    lemma_refines_trans(a, b, c);
    if r2 is Ok {
        assert forall|j: int, k: int|
            #[trigger] is_peer(j, k) && a.digits[j] == 0 && c.digits[j] != 0 && c.digits[k] == 0 implies num_candidates(
            c.bitboard[k],
        ) >= 2 by {
            assert(c.refines_at(b, j));
            assert(c.refines_at(b, k));
            if c.bitboard[k] == b.bitboard[k] && b.digits[j] != 0 {
                assert(b.digits[k] == 0);
            }
        }
        assert forall|j: int|
            is_cell(j) && c.digits[j] == 0 && #[trigger] c.bitboard[j] != a.bitboard[j] implies num_candidates(
            c.bitboard[j],
        ) >= 2 by {
            assert(c.refines_at(b, j));
            if c.bitboard[j] == b.bitboard[j] {
                assert(b.bitboard[j] != a.bitboard[j]);
            }
        }
    }
}

/// Removing candidates from one cell and then settling that cell (placing it
/// when one candidate is left, failing when none is) is a sound pass.
pub proof fn lemma_clear_settled(s0: Sudoku, s1: Sudoku, s2: Sudoku, c: int, r: Result<(), Error>)
    requires
        s0.wf(),
        is_cell(c),
        s1.wf(),
        s1.refines(s0),
        s1.blanks() == s0.blanks(),
        s1.num_recursions == s0.num_recursions,
        s1.guesses == s0.guesses,
        s0.consistent() ==> s1.consistent(),
        s1.digits == s0.digits,
        forall|j: int| is_cell(j) && j != c ==> #[trigger] s1.bitboard[j] == s0.bitboard[j],
        forall|g: Seq<usize>| is_solution(g) && #[trigger] s0.admits(g) ==> s1.admits(g),
        sound_pass(s1, s2, r),
        r is Ok ==> s2.digits[c] != 0 || num_candidates(s2.bitboard[c]) >= 2,
    ensures
        sound_pass(s0, s2, r),
{
    lemma_refines_trans(s0, s1, s2);
    if r is Ok {
        assert forall|j: int|
            is_cell(j) && s2.digits[j] == 0 && #[trigger] s2.bitboard[j] != s0.bitboard[j] implies num_candidates(
            s2.bitboard[j],
        ) >= 2 by {
            if s2.bitboard[j] == s1.bitboard[j] && j != c {
                assert(s1.bitboard[j] == s0.bitboard[j]);
            }
        }
    }
}

/// On a solvable board, a cell with a single candidate keeps it through a
/// sound pass until it is resolved.
pub proof fn lemma_single_after_pass(s0: Sudoku, s: Sudoku, i: int, g: Seq<usize>)
    requires
        s0.wf(),
        is_cell(i),
        num_candidates(s0.bitboard[i]) == 1,
        sound_pass(s0, s, Ok(())),
        is_solution(g),
        s0.admits(g),
    ensures
        s.digits[i] != 0 || s.bitboard[i] == s0.bitboard[i],
{
    if s.digits[i] == 0 && s.bitboard[i] != s0.bitboard[i] {
        assert(s.refines_at(s0, i));
        crate::bits::lemma_count_subset(s.bitboard[i], s0.bitboard[i], 9);
    }
}

/// A pass that did nothing is sound.
pub proof fn lemma_sound_pass_refl(s: Sudoku)
    requires
        s.wf(),
    ensures
        sound_pass(s, s, Ok(())),
{
    lemma_refines_refl(s);
}

/// A board whose unresolved cell `j` has `d` as its only candidate admits
/// only grids that put `d` there.
pub proof fn lemma_single_forced(s: Sudoku, j: int, d: usize, g: Seq<usize>)
    requires
        s.wf(),
        is_cell(j),
        s.digits[j] == 0,
        crate::bits::num_candidates(s.bitboard[j]) == 1,
        is_digit(d),
        has_digit(s.bitboard[j], d),
        is_solution(g),
        s.admits(g),
    ensures
        g[j] == d,
{
    assert(s.admits_at(j, g[j]));
    lemma_count_one(s.bitboard[j], 9, d, g[j]);
}

/// An unresolved cell without candidates admits no grid.
pub proof fn lemma_empty_blocks(s: Sudoku, j: int, g: Seq<usize>)
    requires
        s.wf(),
        is_cell(j),
        s.digits[j] == 0,
        s.bitboard[j] == 0,
        is_solution(g),
    ensures
        !s.admits(g),
{
    lemma_empty_mask(0);
    if s.admits(g) {
        assert(s.admits_at(j, g[j]));
    }
}

/// Places `digit` in the unresolved cell `idx`, where it is a candidate, then
/// places every peer that is left with a single candidate, and so on.
/// Fails when a peer is left without candidates.
pub(crate) fn place_and_propagate(sudoku: &mut Sudoku, idx: usize, digit: usize) -> (r: Result<
    (),
    Error,
>)
    requires
        old(sudoku).wf(),
        idx < SIZE,
        is_digit(digit),
        old(sudoku).digits[idx as int] == 0,
        has_digit(old(sudoku).bitboard[idx as int], digit),
    ensures
        final(sudoku).wf(),
        final(sudoku).refines(*old(sudoku)),
        final(sudoku).digits[idx as int] == digit,
        final(sudoku).blanks() < old(sudoku).blanks(),
        final(sudoku).num_recursions == old(sudoku).num_recursions,
        final(sudoku).guesses == old(sudoku).guesses,
        old(sudoku).consistent() ==> final(sudoku).consistent(),
        r is Err ==> r == Err::<(), Error>(no_solution(*old(sudoku))),
        r is Ok ==> no_new_singles(*old(sudoku), *final(sudoku)),
        r is Ok ==> settled_around(*old(sudoku), *final(sudoku)),
        r is Ok ==> forall|k: int|
            #[trigger] is_peer(idx as int, k) && final(sudoku).digits[k] == 0 ==> num_candidates(
                final(sudoku).bitboard[k],
            ) >= 2,
        r is Err ==> exists|k: int|
            is_cell(k) && #[trigger] final(sudoku).digits[k] == 0 && final(sudoku).bitboard[k] == 0,
        forall|g: Seq<usize>|
            is_solution(g) && #[trigger] old(sudoku).admits(g) && g[idx as int] == digit ==> r is Ok
                && final(sudoku).admits(g),
    decreases old(sudoku).blanks(), 1nat,
{
    let ghost s0 = *sudoku;
    sudoku.place(idx, digit);
    let ghost s1 = *sudoku;
    let r = unit_propagate(sudoku, idx, Ghost(s0));
    proof {
        assert(sudoku.refines_at(s1, idx as int));
        lemma_refines_trans(s0, s1, *sudoku);
        assert forall|j: int| is_cell(j) && j != idx implies #[trigger] s1.digits[j] == s0.digits[j] by {
            assert(s1.digits@[j] == s0.digits@[j]);
        }
    }
    r
}

/// Looks at every peer of `idx`: an unresolved peer without candidates is a
/// contradiction, and one with a single candidate is placed and propagated.
fn unit_propagate(sudoku: &mut Sudoku, idx: usize, pre: Ghost<Sudoku>) -> (r: Result<(), Error>)
    requires
        old(sudoku).wf(),
        idx < SIZE,
        forall|j: int|
            is_cell(j) && old(sudoku).digits[j] == 0 && #[trigger] old(sudoku).bitboard[j]
                != pre@.bitboard[j] && num_candidates(old(sudoku).bitboard[j]) < 2 ==> is_peer(
                idx as int,
                j,
            ),
        old(sudoku).digits[idx as int] != 0,
        forall|j: int| is_cell(j) && j != idx ==> #[trigger] old(sudoku).digits[j] == pre@.digits[j],
    ensures
        r is Ok ==> no_new_singles(pre@, *final(sudoku)),
        r is Ok ==> settled_around(pre@, *final(sudoku)),
        r is Ok ==> forall|k: int|
            #[trigger] is_peer(idx as int, k) && final(sudoku).digits[k] == 0 ==> num_candidates(
                final(sudoku).bitboard[k],
            ) >= 2,
        r is Err ==> exists|k: int|
            is_cell(k) && #[trigger] final(sudoku).digits[k] == 0 && final(sudoku).bitboard[k] == 0,
        final(sudoku).wf(),
        final(sudoku).refines(*old(sudoku)),
        final(sudoku).blanks() <= old(sudoku).blanks(),
        final(sudoku).num_recursions == old(sudoku).num_recursions,
        final(sudoku).guesses == old(sudoku).guesses,
        old(sudoku).consistent() ==> final(sudoku).consistent(),
        r is Err ==> r == Err::<(), Error>(no_solution(*old(sudoku))),
        forall|g: Seq<usize>|
            is_solution(g) && #[trigger] old(sudoku).admits(g) ==> r is Ok && final(sudoku).admits(
                g,
            ),
    decreases old(sudoku).blanks(), 2nat,
{
    let ghost s0 = *sudoku;
    proof {
        lemma_refines_refl(s0);
    }
    let mut j: usize = 0;
    while j < SIZE
        invariant
            j <= SIZE,
            idx < SIZE,
            s0 == *old(sudoku),
            sudoku.wf(),
            sudoku.refines(s0),
            sudoku.blanks() <= s0.blanks(),
            sudoku.num_recursions == s0.num_recursions,
            sudoku.guesses == s0.guesses,
            s0.consistent() ==> sudoku.consistent(),
            forall|g: Seq<usize>| is_solution(g) && #[trigger] s0.admits(g) ==> sudoku.admits(g),
            forall|j2: int|
                is_cell(j2) && sudoku.digits[j2] == 0 && #[trigger] sudoku.bitboard[j2]
                    != pre@.bitboard[j2] && num_candidates(sudoku.bitboard[j2]) < 2 ==> is_peer(
                    idx as int,
                    j2,
                ) && j2 >= j,
            forall|j2: int, k: int|
                #[trigger] is_peer(j2, k) && j2 != idx && pre@.digits[j2] == 0 && sudoku.digits[j2]
                    != 0 && sudoku.digits[k] == 0 ==> num_candidates(sudoku.bitboard[k]) >= 2,
            forall|k: int|
                #[trigger] is_peer(idx as int, k) && k < j && sudoku.digits[k] == 0 ==> num_candidates(
                    sudoku.bitboard[k],
                ) >= 2,
            forall|k: int| is_cell(k) && k != idx ==> #[trigger] s0.digits[k] == pre@.digits[k],
            s0.digits[idx as int] != 0,
        decreases SIZE - j,
    {
        if peers(idx, j) {
            let current_digit = sudoku.digits[j];
            let bitboard = sudoku.bitboard[j];
            if current_digit == 0 && bitboard == 0 {
                proof {
                    assert forall|g: Seq<usize>| is_solution(g) && #[trigger] s0.admits(g) implies false by {
                        lemma_empty_blocks(*sudoku, j as int, g);
                    }
                }
                return Err(Error::from(&*sudoku));
            } else if current_digit == 0 && count_candidates(bitboard) == 1 {
                proof {
                    lemma_count_zero(bitboard, 9);
                }
                let digit = lowest_candidate(bitboard);
                let ghost before = *sudoku;
                proof {
                    assert forall|g: Seq<usize>| is_solution(g) && #[trigger] s0.admits(g) implies g[j as int]
                        == digit by {
                        lemma_single_forced(before, j as int, digit, g);
                    }
                }
                match place_and_propagate(sudoku, j, digit) {
                    Ok(()) => {},
                    Err(e) => {
                        proof {
                            lemma_refines_trans(s0, before, *sudoku);
                        }
                        return Err(e);
                    },
                }
                proof {
                    lemma_refines_trans(s0, before, *sudoku);
                    assert forall|j2: int|
                        is_cell(j2) && sudoku.digits[j2] == 0 && #[trigger] sudoku.bitboard[j2]
                            != pre@.bitboard[j2] && num_candidates(sudoku.bitboard[j2]) < 2 implies is_peer(
                        idx as int,
                        j2,
                    ) && j2 >= j + 1 by {
                        assert(sudoku.refines_at(before, j2));
                        if sudoku.bitboard[j2] == before.bitboard[j2] {
                            assert(before.bitboard[j2] != pre@.bitboard[j2]);
                        }
                    }
                    assert forall|j2: int, k: int|
                        #[trigger] is_peer(j2, k) && j2 != idx && pre@.digits[j2] == 0 && sudoku.digits[j2]
                            != 0 && sudoku.digits[k] == 0 implies num_candidates(sudoku.bitboard[k]) >= 2 by {
                        assert(sudoku.refines_at(before, k));
                        assert(sudoku.refines_at(before, j2));
                        assert(sudoku.refines_at(s0, j2));
                        if sudoku.bitboard[k] == before.bitboard[k] && before.digits[j2] != 0 {
                            if j2 != idx {
                                assert(before.refines_at(s0, j2));
                            }
                        }
                    }
                    assert forall|k: int|
                        #[trigger] is_peer(idx as int, k) && k < j + 1 && sudoku.digits[k] == 0 implies num_candidates(
                        sudoku.bitboard[k],
                    ) >= 2 by {
                        assert(sudoku.refines_at(before, k));
                    }
                }
            } else {
                proof {
                    if current_digit == 0 {
                        lemma_count_zero(bitboard, 9);
                        lemma_empty_mask(bitboard);
                    }
                }
            }
        }
        j = j + 1;
    }
    proof {
        assert forall|j2: int, k: int|
            #[trigger] is_peer(j2, k) && pre@.digits[j2] == 0 && sudoku.digits[j2] != 0
                && sudoku.digits[k] == 0 implies num_candidates(sudoku.bitboard[k]) >= 2 by {
            if j2 == idx {
                assert(is_peer(idx as int, k));
            }
        }
    }
    Ok(())
}

/// Solves a puzzle: the deduction passes first, then the backtracking
/// search. Returns the first solution found. Fails when two peers of the
/// given board hold the same digit, and whenever the board admits no
/// completed grid.
pub fn solve(sudoku: Sudoku) -> (r: Result<Sudoku, Error>)
    requires
        sudoku.wf(),
    ensures
        r is Ok <==> solvable(sudoku),
        r matches Ok(s) ==> s.wf() && s.is_full() && is_solution(s.digits@) && units_complete(
            s.digits@,
        ) && sudoku.admits(s.digits@) && s.refines(sudoku),
        forall|g: Seq<usize>|
            is_solution(g) && #[trigger] sudoku.admits(g) && (forall|h: Seq<usize>|
                is_solution(h) && #[trigger] sudoku.admits(h) ==> h == g) ==> (r is Ok && r->Ok_0.digits@
                == g),
        r is Err ==> r->Err_0 is NoSolution,
        r is Err ==> r->Err_0->num_recursions >= sudoku.num_recursions && r->Err_0->guesses
            >= sudoku.guesses,
        r matches Ok(s) ==> s.num_recursions >= sudoku.num_recursions && s.guesses >= sudoku.guesses
            && guesses_bounded(sudoku, s, 0),
{
    let mut sudoku = sudoku;
    let ghost s0 = sudoku;
    if !check_placed_digits(&sudoku) {
        proof {
            assert forall|g: Seq<usize>| is_solution(g) && #[trigger] s0.admits(g) implies false by {
                lemma_admits_consistent(s0, g);
            }
        }
        return Err(Error::from(&sudoku));
    }
    proof {
        lemma_sound_pass_refl(s0);
    }
    let r = place_all_visible_singles(&mut sudoku);
    if let Err(e) = r {
        return Err(e);
    }
    if sudoku.is_solved() {
        proof {
            lemma_solved_result(s0, sudoku);
        }
        return Ok(sudoku);
    }
    let ghost s1 = sudoku;
    let r = place_all_hidden_singles(&mut sudoku);
    proof {
        lemma_sound_pass_chain(s0, s1, sudoku, Ok(()), r);
    }
    if let Err(e) = r {
        return Err(e);
    }
    if sudoku.is_solved() {
        proof {
            lemma_solved_result(s0, sudoku);
        }
        return Ok(sudoku);
    }
    let ghost s2 = sudoku;
    let r = check_locked_candidates(&mut sudoku);
    proof {
        lemma_sound_pass_chain(s0, s2, sudoku, Ok(()), r);
    }
    if let Err(e) = r {
        return Err(e);
    }
    let ghost s3 = sudoku;
    let r = check_all_visible_doubles(&mut sudoku);
    proof {
        lemma_sound_pass_chain(s0, s3, sudoku, Ok(()), r);
    }
    if let Err(e) = r {
        return Err(e);
    }
    let ghost s4 = sudoku;
    let r = place_all_hidden_singles(&mut sudoku);
    proof {
        lemma_sound_pass_chain(s0, s4, sudoku, Ok(()), r);
    }
    if let Err(e) = r {
        return Err(e);
    }
    let ghost s5 = sudoku;
    let r = place_all_visible_singles(&mut sudoku);
    proof {
        lemma_sound_pass_chain(s0, s5, sudoku, Ok(()), r);
    }
    if let Err(e) = r {
        return Err(e);
    }
    if sudoku.is_solved() {
        proof {
            lemma_solved_result(s0, sudoku);
        }
        return Ok(sudoku);
    }
    let ghost s6 = sudoku;
    let r = solve_recursive(&mut sudoku);
    proof {
        if r is Ok {
            lemma_refines_trans(s0, s6, r->Ok_0);
            lemma_full_board_solution(r->Ok_0, s0);
            lemma_solution_units_complete(r->Ok_0.digits@);
        }
        if exists|g: Seq<usize>| is_solution(g) && #[trigger] s0.admits(g) {
            let g = choose|g: Seq<usize>| is_solution(g) && #[trigger] s0.admits(g);
            assert(s6.admits(g));
        }
    }
    r
}

/// A board that sound passes turned into a full one from a consistent start
/// is a solution of the start.
proof fn lemma_solved_result(s0: Sudoku, s: Sudoku)
    requires
        s0.wf(),
        s0.consistent(),
        sound_pass(s0, s, Ok(())),
        s.placed() == 81,
    ensures
        s.wf() && s.is_full() && is_solution(s.digits@) && units_complete(s.digits@) && s0.admits(
            s.digits@,
        ) && s.refines(s0),
        exists|g: Seq<usize>| is_solution(g) && #[trigger] s0.admits(g),
{
    lemma_blanks_none(s.digits@, 81);
    lemma_full_board_solution(s, s0);
    lemma_solution_units_complete(s.digits@);
}

/// A board that admits a completed grid holds no digit twice among peers; so
/// a board with a repeated digit in a row, column or box has no solution.
pub proof fn lemma_admits_consistent(s: Sudoku, g: Seq<usize>)
    requires
        is_solution(g),
        s.admits(g),
    ensures
        s.consistent(),
{
    assert forall|i: int, j: int|
        #![trigger is_peer(i, j), s.digits[i], s.digits[j]]
        is_peer(i, j) && s.digits[i] != 0 implies s.digits[i] != s.digits[j] by {
        assert(s.admits_at(i, g[i]));
        assert(s.admits_at(j, g[j]));
    }
}

/// Boards with the same digits and candidates admit the same grids.
proof fn lemma_same_board_admits(a: Sudoku, b: Sudoku, g: Seq<usize>)
    requires
        a.digits == b.digits,
        a.bitboard == b.bitboard,
    ensures
        a.admits(g) == b.admits(g),
{
    assert forall|i: int| is_cell(i) implies #[trigger] a.admits_at(i, g[i]) == b.admits_at(i, g[i]) by {
    }
    if a.admits(g) {
        assert forall|i: int| is_cell(i) implies #[trigger] b.admits_at(i, g[i]) by {
            assert(a.admits_at(i, g[i]));
        }
    }
    if b.admits(g) {
        assert forall|i: int| is_cell(i) implies #[trigger] a.admits_at(i, g[i]) by {
            assert(b.admits_at(i, g[i]));
        }
    }
}

/// Whether no two peers hold the same digit.
fn check_placed_digits(sudoku: &Sudoku) -> (r: bool)
    ensures
        r == sudoku.consistent(),
{
    let mut i: usize = 0;
    while i < SIZE
        invariant
            i <= SIZE,
            forall|i2: int, j: int|
                #![trigger is_peer(i2, j), sudoku.digits[i2], sudoku.digits[j]]
                0 <= i2 < i && is_peer(i2, j) && sudoku.digits[i2] != 0 ==> sudoku.digits[i2]
                    != sudoku.digits[j],
        decreases SIZE - i,
    {
        let mut j: usize = 0;
        while j < SIZE
            invariant
                i < SIZE,
                j <= SIZE,
                forall|i2: int, j2: int|
                    #![trigger is_peer(i2, j2), sudoku.digits[i2], sudoku.digits[j2]]
                    (0 <= i2 < i || (i2 == i && 0 <= j2 < j)) && is_peer(i2, j2) && sudoku.digits[i2]
                        != 0 ==> sudoku.digits[i2] != sudoku.digits[j2],
            decreases SIZE - j,
        {
            if peers(i, j) && sudoku.digits[i] != 0 && sudoku.digits[i] == sudoku.digits[j] {
                return false;
            }
            j = j + 1;
        }
        i = i + 1;
    }
    true
}

/// Runs the deduction passes once, in the order the search uses: locked
/// candidates, naked singles, the unit check, hidden singles, naked pairs.
/// On a full board it changes nothing, and succeeds exactly when every unit
/// holds every digit; so on a solved board it succeeds, and a second call
/// does the same. On a solvable board it succeeds, and every naked single,
/// hidden single, locked candidate and naked pair of the input has been
/// applied when it returns.
pub fn check_constraints(sudoku: &mut Sudoku) -> (r: Result<(), Error>)
    requires
        old(sudoku).wf(),
    ensures
        sound_pass(*old(sudoku), *final(sudoku), r),
        old(sudoku).is_full() ==> *final(sudoku) == *old(sudoku) && (r is Ok <==> all_units_coverable(
            *old(sudoku),
        )),
        old(sudoku).is_full() && old(sudoku).consistent() ==> *final(sudoku) == *old(sudoku) && r is Ok,
        r is Ok && (forall|i: int|
            is_cell(i) && #[trigger] old(sudoku).digits[i] == 0 ==> old(sudoku).bitboard[i] != 0)
            ==> forall|i: int|
            is_cell(i) && #[trigger] final(sudoku).digits[i] == 0 ==> num_candidates(
                final(sudoku).bitboard[i],
            ) >= 2,
        solvable(*old(sudoku)) ==> {
            &&& forall|i: int|
                is_cell(i) && num_candidates(#[trigger] old(sudoku).bitboard[i]) == 1
                    ==> final(sudoku).digits[i] != 0
            &&& forall|u: Unit, i: int, d: usize|
                #[trigger] hidden_single_at(*old(sudoku), u, i, d) ==> final(sudoku).digits[i] != 0
            &&& forall|u: Unit, b: int, d: usize, k: int|
                u != Unit::Box && #[trigger] locked_at(*old(sudoku), u, b, d, k) ==> line_cleared(
                    *final(sudoku),
                    u,
                    b,
                    line_base(u, b) + k,
                    d,
                )
            &&& forall|u: Unit, i: int, n: int|
                #[trigger] naked_pair_at(*old(sudoku), u, i, n) ==> pair_cleared(
                    *final(sudoku),
                    u,
                    i,
                    n,
                    old(sudoku).bitboard[i],
                )
        },
{
    let ghost s0 = *sudoku;
    proof {
        if s0.is_full() && s0.consistent() {
            lemma_refines_refl(s0);
            lemma_full_board_solution(s0, s0);
            lemma_admitted_coverable(s0, s0.digits@);
        }
    }
    let r = check_locked_candidates(sudoku);
    if r.is_err() {
        return r;
    }
    let ghost s1 = *sudoku;
    let r = place_all_visible_singles(sudoku);
    proof {
        lemma_sound_pass_chain(s0, s1, *sudoku, Ok(()), r);
    }
    if r.is_err() {
        return r;
    }
    let ghost s2 = *sudoku;
    let r = check_all_hidden_zeroes(sudoku);
    proof {
        lemma_sound_pass_refl(s2);
        lemma_sound_pass_chain(s0, s2, *sudoku, Ok(()), Ok(()));
        if r is Err {
            assert forall|g: Seq<usize>| is_solution(g) && #[trigger] s0.admits(g) implies false by {
                assert(s2.admits(g));
            }
        }
    }
    if r.is_err() {
        return r;
    }
    let r = place_all_hidden_singles(sudoku);
    proof {
        lemma_sound_pass_chain(s0, s2, *sudoku, Ok(()), r);
    }
    if r.is_err() {
        return r;
    }
    let ghost s3 = *sudoku;
    let r = check_all_visible_doubles(sudoku);
    proof {
        lemma_sound_pass_chain(s0, s3, *sudoku, Ok(()), r);
        if solvable(s0) && r is Ok {
            lemma_check_constraints_progress(s0, s1, s2, s3, *sudoku);
        }
        if r is Ok {
            lemma_refines_trans(s2, s3, *sudoku);
            lemma_no_singles_left(s0, s1, s2, *sudoku);
        }
    }
    r
}

/// After the passes, an input without empty cells leaves no unresolved cell
/// with fewer than two candidates: a cell whose candidates never changed and
/// had only one was placed by the naked-singles pass.
proof fn lemma_no_singles_left(s0: Sudoku, s1: Sudoku, s2: Sudoku, s4: Sudoku)
    requires
        s0.wf(),
        sound_pass(s0, s1, Ok(())),
        sound_pass(s0, s4, Ok(())),
        s2.refines(s1),
        s4.refines(s2),
        forall|i: int| is_cell(i) && num_candidates(#[trigger] s1.bitboard[i]) == 1 ==> s2.digits[i] != 0,
    ensures
        (forall|i: int| is_cell(i) && #[trigger] s0.digits[i] == 0 ==> s0.bitboard[i] != 0)
            ==> forall|i: int|
            is_cell(i) && #[trigger] s4.digits[i] == 0 ==> num_candidates(s4.bitboard[i]) >= 2,
{
    if forall|i: int| is_cell(i) && #[trigger] s0.digits[i] == 0 ==> s0.bitboard[i] != 0 {
        assert forall|i: int| is_cell(i) && #[trigger] s4.digits[i] == 0 implies num_candidates(
            s4.bitboard[i],
        ) >= 2 by {
            if s4.bitboard[i] == s0.bitboard[i] {
                assert(s4.refines_at(s0, i));
                assert(s4.refines_at(s2, i));
                assert(s2.digits[i] == 0);
                assert(s0.bitboard[i] != 0);
                lemma_empty_mask(s0.bitboard[i]);
                lemma_count_zero(s0.bitboard[i], 9);
                if num_candidates(s0.bitboard[i]) == 1 {
                    assert(s1.refines_at(s0, i));
                    if s1.digits[i] == 0 {
                        if s1.bitboard[i] != s0.bitboard[i] {
                            crate::bits::lemma_count_subset(s1.bitboard[i], s0.bitboard[i], 9);
                        }
                    } else {
                        assert(s2.refines_at(s1, i));
                    }
                }
            }
        }
    }
}

/// The deductions present on a solvable board before the passes of
/// [`check_constraints`] have all been applied after them.
proof fn lemma_check_constraints_progress(s0: Sudoku, s1: Sudoku, s2: Sudoku, s3: Sudoku, s4: Sudoku)
    requires
        s0.wf(),
        solvable(s0),
        sound_pass(s0, s1, Ok(())),
        sound_pass(s1, s2, Ok(())),
        sound_pass(s0, s2, Ok(())),
        sound_pass(s2, s3, Ok(())),
        sound_pass(s0, s3, Ok(())),
        sound_pass(s3, s4, Ok(())),
        solvable(s0) ==> forall|u: Unit, b: int, d: usize, k: int|
            u != Unit::Box && #[trigger] locked_at(s0, u, b, d, k) ==> line_cleared(
                s1,
                u,
                b,
                line_base(u, b) + k,
                d,
            ),
        forall|i: int| is_cell(i) && num_candidates(#[trigger] s1.bitboard[i]) == 1 ==> s2.digits[i] != 0,
        solvable(s2) ==> forall|u: Unit, i: int, d: usize|
            #[trigger] hidden_single_at(s2, u, i, d) ==> s3.digits[i] != 0,
        solvable(s3) ==> forall|u: Unit, i: int, n: int|
            #[trigger] naked_pair_at(s3, u, i, n) ==> pair_cleared(s4, u, i, n, s3.bitboard[i]),
    ensures
        forall|i: int|
            is_cell(i) && num_candidates(#[trigger] s0.bitboard[i]) == 1 ==> s4.digits[i] != 0,
        forall|u: Unit, i: int, d: usize| #[trigger] hidden_single_at(s0, u, i, d) ==> s4.digits[i] != 0,
        forall|u: Unit, b: int, d: usize, k: int|
            u != Unit::Box && #[trigger] locked_at(s0, u, b, d, k) ==> line_cleared(
                s4,
                u,
                b,
                line_base(u, b) + k,
                d,
            ),
        forall|u: Unit, i: int, n: int|
            #[trigger] naked_pair_at(s0, u, i, n) ==> pair_cleared(s4, u, i, n, s0.bitboard[i]),
{
    let g = choose|g: Seq<usize>| is_solution(g) && #[trigger] s0.admits(g);
    assert(s1.admits(g));
    assert(s2.admits(g));
    assert(s3.admits(g));
    lemma_sound_pass_chain(s0, s3, s4, Ok(()), Ok(()));
    lemma_sound_pass_chain(s2, s3, s4, Ok(()), Ok(()));
    lemma_sound_pass_chain(s1, s2, s4, Ok(()), Ok(()));
    assert forall|i: int| is_cell(i) && num_candidates(#[trigger] s0.bitboard[i]) == 1 implies s4.digits[i]
        != 0 by {
        lemma_single_after_pass(s0, s1, i, g);
        assert(s4.refines_at(s2, i));
        if s1.digits[i] != 0 {
            assert(s2.refines_at(s1, i));
        }
    }
    assert forall|u: Unit, i: int, d: usize| #[trigger] hidden_single_at(s0, u, i, d) implies s4.digits[i]
        != 0 by {
        lemma_hidden_single_persists(s0, s2, u, i, d, g);
        assert(s4.refines_at(s3, i));
        if s2.digits[i] != 0 {
            assert(s3.refines_at(s2, i));
        }
    }
    assert forall|u: Unit, b: int, d: usize, k: int|
        u != Unit::Box && #[trigger] locked_at(s0, u, b, d, k) implies line_cleared(
        s4,
        u,
        b,
        line_base(u, b) + k,
        d,
    ) by {
        lemma_line_cleared_persists(s1, s4, u, b, line_base(u, b) + k, d);
    }
    assert forall|u: Unit, i: int, n: int| #[trigger] naked_pair_at(s0, u, i, n) implies pair_cleared(
        s4,
        u,
        i,
        n,
        s0.bitboard[i],
    ) by {
        lemma_pair_after_pass(s0, s3, u, i, n, g);
        if pair_cleared(s3, u, i, n, s0.bitboard[i]) {
            lemma_cleared_persists(s3, s4, u, i, n, s0.bitboard[i]);
        } else {
            assert(naked_pair_at(s3, u, i, n));
        }
    }
}

/// One node of the search: counts itself, runs the deduction passes, and
/// either finds the board solved or branches on the unresolved cell with the
/// fewest candidates.
fn solve_recursive(sudoku: &mut Sudoku) -> (r: Result<Sudoku, Error>)
    requires
        old(sudoku).wf(),
        old(sudoku).consistent(),
    ensures
        r matches Ok(s) ==> s.wf() && s.is_full() && s.consistent() && s.refines(*old(sudoku)),
        (exists|g: Seq<usize>| is_solution(g) && #[trigger] old(sudoku).admits(g)) ==> r is Ok,
        r is Err ==> r == Err::<Sudoku, Error>(no_solution(*final(sudoku))),
        final(sudoku).num_recursions >= old(sudoku).num_recursions,
        final(sudoku).guesses >= old(sudoku).guesses,
        old(sudoku).num_recursions < i32::MAX ==> final(sudoku).num_recursions > old(sudoku).num_recursions,
        guesses_bounded(*old(sudoku), *final(sudoku), 0),
        r matches Ok(s) ==> s.num_recursions >= final(sudoku).num_recursions && s.guesses >= final(sudoku).guesses && guesses_bounded(*old(sudoku), s, 0),
    decreases old(sudoku).blanks(), 3nat,
{
    let ghost s0 = *sudoku;
    if sudoku.num_recursions < i32::MAX {
        sudoku.num_recursions = sudoku.num_recursions + 1;
    }
    let ghost s1 = *sudoku;
    proof {
        assert(s1.refines(s0)) by {
            lemma_refines_refl(s0);
        }
        assert forall|g: Seq<usize>| is_solution(g) && #[trigger] s0.admits(g) implies s1.admits(g) by {
            assert forall|i: int| is_cell(i) implies #[trigger] s1.admits_at(i, g[i]) by {
                assert(s0.admits_at(i, g[i]));
            }
        }
    }
    let r = check_constraints(sudoku);
    if let Err(e) = r {
        proof {
            lemma_refines_trans(s0, s1, *sudoku);
        }
        return Err(e);
    }
    proof {
        lemma_refines_trans(s0, s1, *sudoku);
    }
    if sudoku.is_solved() {
        proof {
            lemma_blanks_none(sudoku.digits@, 81);
        }
        return Ok(sudoku.clone());
    }
    match get_next_idx(sudoku) {
        Some(idx) => {
            let ghost s2 = *sudoku;
            let r = branch_possibilities(sudoku, idx);
            proof {
                if r is Ok {
                    lemma_refines_trans(s0, s2, r->Ok_0);
                }
            }
            r
        },
        None => {
            proof {
                lemma_blanks_none(sudoku.digits@, 81);
            }
            Err(Error::from(&*sudoku))
        },
    }
}

/// Tries each candidate of cell `idx` in increasing order on a copy of the
/// board, and returns the first solution found. A branch on a cell with more
/// than one candidate counts as a guess; the counters of failed branches are
/// kept.
fn branch_possibilities(sudoku: &mut Sudoku, idx: usize) -> (r: Result<Sudoku, Error>)
    requires
        old(sudoku).wf(),
        old(sudoku).consistent(),
        idx < SIZE,
        old(sudoku).digits[idx as int] == 0,
    ensures
        r matches Ok(s) ==> s.wf() && s.is_full() && s.consistent() && s.refines(*old(sudoku)),
        (exists|g: Seq<usize>| is_solution(g) && #[trigger] old(sudoku).admits(g)) ==> r is Ok,
        r is Err ==> r == Err::<Sudoku, Error>(no_solution(*final(sudoku))),
        final(sudoku).digits == old(sudoku).digits,
        final(sudoku).bitboard == old(sudoku).bitboard,
        final(sudoku).num_digits == old(sudoku).num_digits,
        final(sudoku).num_recursions >= old(sudoku).num_recursions,
        final(sudoku).guesses >= old(sudoku).guesses,
        num_candidates(old(sudoku).bitboard[idx as int]) > 1 && old(sudoku).guesses < i32::MAX
            ==> final(sudoku).guesses > old(sudoku).guesses,
        guesses_bounded(*old(sudoku), *final(sudoku), 1),
        r matches Ok(s) ==> s.num_recursions >= final(sudoku).num_recursions && s.guesses >= final(sudoku).guesses && guesses_bounded(*old(sudoku), s, 1),
        r matches Ok(s) ==> forall|g: Seq<usize>|
            is_solution(g) && #[trigger] old(sudoku).admits(g) ==> s.digits[idx as int] <= g[idx as int],
    decreases old(sudoku).blanks(), 2nat,
{
    let ghost s0 = *sudoku;
    let bitboard = sudoku.bitboard[idx];
    if count_candidates(bitboard) > 1 && sudoku.guesses < i32::MAX {
        sudoku.guesses = sudoku.guesses + 1;
    }
    let mut digit: usize = 1;
    while digit <= 9
        invariant
            1 <= digit <= 10,
            idx < SIZE,
            s0 == *old(sudoku),
            s0.digits[idx as int] == 0,
            bitboard == s0.bitboard[idx as int],
            sudoku.wf(),
            sudoku.consistent(),
            sudoku.digits == s0.digits,
            sudoku.bitboard == s0.bitboard,
            sudoku.num_digits == s0.num_digits,
            sudoku.num_recursions >= s0.num_recursions,
            sudoku.guesses >= s0.guesses,
            num_candidates(s0.bitboard[idx as int]) > 1 && s0.guesses < i32::MAX ==> sudoku.guesses
                > s0.guesses,
            guesses_bounded(s0, *sudoku, 1),
            forall|g: Seq<usize>| is_solution(g) && #[trigger] s0.admits(g) ==> g[idx as int] >= digit,
        decreases 10 - digit,
    {
        proof {
            crate::bits::lemma_has_digit_bits(bitboard, digit);
            assert(sudoku.bitboard[idx as int] == bitboard);
        }
        let ghost before = *sudoku;
        if bitboard & (1usize << digit) != 0 {
            match check_branch(sudoku, idx, digit) {
                Ok(solution) => {
                    proof {
                        assert forall|i: int| is_cell(i) implies #[trigger] solution.refines_at(s0, i) by {
                            assert(solution.refines_at(before, i));
                        }
                    }
                    return Ok(solution);
                },
                Err(_) => {},
            }
        }
        proof {
            assert forall|g: Seq<usize>| is_solution(g) && #[trigger] s0.admits(g) implies g[idx as int]
                >= digit + 1 by {
                assert(s0.admits_at(idx as int, g[idx as int]));
                if g[idx as int] == digit {
                    lemma_same_board_admits(s0, before, g);
                }
            }
        }
        digit = digit + 1;
    }
    proof {
        assert forall|g: Seq<usize>| is_solution(g) && #[trigger] s0.admits(g) implies false by {
            assert(is_cell(idx as int));
        }
    }
    Err(Error::from(&*sudoku))
}

/// Places `digit` in cell `idx` of a copy of the board and searches on from
/// there. On failure the board takes over the copy's counters.
fn check_branch(sudoku: &mut Sudoku, idx: usize, digit: usize) -> (r: Result<Sudoku, Error>)
    requires
        old(sudoku).wf(),
        old(sudoku).consistent(),
        idx < SIZE,
        is_digit(digit),
        old(sudoku).digits[idx as int] == 0,
        has_digit(old(sudoku).bitboard[idx as int], digit),
    ensures
        r matches Ok(s) ==> s.wf() && s.is_full() && s.consistent() && s.refines(*old(sudoku)),
        (exists|g: Seq<usize>|
            is_solution(g) && #[trigger] old(sudoku).admits(g) && g[idx as int] == digit) ==> r is Ok,
        r is Err ==> r == Err::<Sudoku, Error>(no_solution(*final(sudoku))),
        final(sudoku).digits == old(sudoku).digits,
        final(sudoku).bitboard == old(sudoku).bitboard,
        final(sudoku).num_digits == old(sudoku).num_digits,
        final(sudoku).num_recursions >= old(sudoku).num_recursions,
        final(sudoku).guesses >= old(sudoku).guesses,
        r is Ok ==> *final(sudoku) == *old(sudoku),
        guesses_bounded(*old(sudoku), *final(sudoku), 0),
        r matches Ok(s) ==> s.digits[idx as int] == digit && s.num_recursions >= old(sudoku).num_recursions && s.guesses >= old(sudoku).guesses && guesses_bounded(*old(sudoku), s, 0),
    decreases old(sudoku).blanks(), 1nat,
{
    let ghost s0 = *sudoku;
    let mut cloned_board = sudoku.clone();
    if let Err(e) = place_and_propagate(&mut cloned_board, idx, digit) {
        return Err(e);
    }
    let ghost c1 = cloned_board;
    match solve_recursive(&mut cloned_board) {
        Ok(solution) => {
            proof {
                lemma_refines_trans(s0, c1, solution);
                assert(solution.refines_at(c1, idx as int));
            }
            Ok(solution)
        },
        Err(error) => {
            proof {
                if exists|g: Seq<usize>|
                    is_solution(g) && #[trigger] s0.admits(g) && g[idx as int] == digit {
                    let g = choose|g: Seq<usize>|
                        is_solution(g) && #[trigger] s0.admits(g) && g[idx as int] == digit;
                    assert(c1.admits(g));
                }
            }
            Err(sudoku.store_stats(error))
        },
    }
}

/// The unresolved cell with the fewest candidates, the first one in cell
/// order among equals; `None` when every cell holds a digit.
fn get_next_idx(sudoku: &Sudoku) -> (r: Option<usize>)
    requires
        sudoku.wf(),
    ensures
        r is None <==> forall|i: int| is_cell(i) ==> #[trigger] sudoku.digits[i] != 0,
        r matches Some(idx) ==> {
            &&& idx < SIZE
            &&& sudoku.digits[idx as int] == 0
            &&& forall|j: int|
                is_cell(j) && #[trigger] sudoku.digits[j] == 0 ==> crate::bits::num_candidates(
                    sudoku.bitboard[idx as int],
                ) <= crate::bits::num_candidates(sudoku.bitboard[j])
            &&& forall|j: int|
                0 <= j < idx && #[trigger] sudoku.digits[j] == 0 ==> crate::bits::num_candidates(
                    sudoku.bitboard[idx as int],
                ) < crate::bits::num_candidates(sudoku.bitboard[j])
        },
{
    let mut best: Option<usize> = None;
    let mut best_count: u32 = 0;
    let mut i: usize = 0;
    while i < SIZE
        invariant
            i <= SIZE,
            sudoku.wf(),
            best is None <==> forall|j: int| 0 <= j < i ==> #[trigger] sudoku.digits[j] != 0,
            best matches Some(idx) ==> {
                &&& idx < i
                &&& sudoku.digits[idx as int] == 0
                &&& best_count == crate::bits::num_candidates(sudoku.bitboard[idx as int])
                &&& forall|j: int|
                    0 <= j < i && #[trigger] sudoku.digits[j] == 0 ==> best_count
                        <= crate::bits::num_candidates(sudoku.bitboard[j])
                &&& forall|j: int|
                    0 <= j < idx && #[trigger] sudoku.digits[j] == 0 ==> best_count
                        < crate::bits::num_candidates(sudoku.bitboard[j])
            },
        decreases SIZE - i,
    {
        if sudoku.digits[i] == 0 {
            let count = count_candidates(sudoku.bitboard[i]);
            match best {
                None => {
                    best = Some(i);
                    best_count = count;
                },
                Some(_) => {
                    if count < best_count {
                        best = Some(i);
                        best_count = count;
                    }
                },
            }
        }
        i = i + 1;
    }
    best
}

} // verus!
