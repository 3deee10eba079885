//! The board: placed digits, candidate bitmasks and search counters.
use vstd::prelude::*;
use vstd::string::{StrSliceExecFns, StringExecFns};

use crate::bits::{
    has_digit, is_digit, is_mask, lemma_bit_ops, lemma_mask_closed, lemma_single_bit, MASK,
};
use crate::error::Error;
use crate::geometry::{is_cell, is_peer, peers, SIZE};
use crate::grid::is_solution;

verus! {

/// The number of zeroes among the first `n` entries of `d`.
pub open spec fn blanks_upto(d: Seq<usize>, n: int) -> nat
    decreases n,
{
    if n <= 0 {
        0
    } else {
        blanks_upto(d, n - 1) + if d[n - 1] == 0 {
            1nat
        } else {
            0nat
        }
    }
}

proof fn lemma_blanks_update(d: Seq<usize>, n: int, k: int, v: usize)
    requires
        0 <= k < d.len(),
        n <= d.len(),
        d[k] == 0,
        v != 0,
    ensures
        k < n ==> blanks_upto(d.update(k, v), n) + 1 == blanks_upto(d, n),
        k >= n ==> blanks_upto(d.update(k, v), n) == blanks_upto(d, n),
    decreases n,
{
    if n > 0 {
        lemma_blanks_update(d, n - 1, k, v);
    }
}

proof fn lemma_blank_counted(d: Seq<usize>, n: int, k: int)
    requires
        0 <= k < n <= d.len(),
        d[k] == 0,
    ensures
        blanks_upto(d, n) >= 1,
    decreases n,
{
    if k < n - 1 {
        lemma_blank_counted(d, n - 1, k);
    }
}

pub proof fn lemma_blanks_none(d: Seq<usize>, n: int)
    requires
        0 <= n <= d.len(),
    ensures
        blanks_upto(d, n) == 0 <==> forall|i: int| 0 <= i < n ==> #[trigger] d[i] != 0,
    decreases n,
{
    if n > 0 {
        lemma_blanks_none(d, n - 1);
    }
    if blanks_upto(d, n) == 0 {
        assert forall|i: int| 0 <= i < n implies #[trigger] d[i] != 0 by {
            if d[i] == 0 {
                lemma_blank_counted(d, n, i);
            }
        }
    }
}

proof fn lemma_blanks_all(d: Seq<usize>, n: int)
    requires
        0 <= n <= d.len(),
        forall|i: int| 0 <= i < n ==> #[trigger] d[i] == 0,
    ensures
        blanks_upto(d, n) == n,
    decreases n,
{
    if n > 0 {
        lemma_blanks_all(d, n - 1);
    }
}

/// A 9×9 board. Cell `i` (0 to 80, row by row) holds digit `digits[i]`, or 0
/// while unresolved; bit `d` of `bitboard[i]` is set while digit `d` is still
/// possible there.
#[derive(Debug)]
pub struct Sudoku {
    /// The candidate mask of each cell.
    pub bitboard: [usize; 81],
    /// The digit of each cell, 0 for an unresolved one.
    pub digits: [usize; 81],
    /// How many placements were made: the number of resolved cells.
    pub num_digits: usize,
    /// Search nodes visited; stops counting at `i32::MAX`.
    pub num_recursions: i32,
    /// Branches taken on cells with more than one candidate; stops counting
    /// at `i32::MAX`.
    pub guesses: i32,
}

impl Clone for Sudoku {
    fn clone(&self) -> (r: Self)
        ensures
            r == *self,
    {
        Sudoku {
            bitboard: self.bitboard,
            digits: self.digits,
            num_digits: self.num_digits,
            num_recursions: self.num_recursions,
            guesses: self.guesses,
        }
    }
}

impl Default for Sudoku {
    /// The empty board: no digit placed, every digit possible everywhere.
    fn default() -> (r: Self)
        ensures
            r.wf(),
            r.consistent(),
            r.placed() == 0,
            forall|i: int| is_cell(i) ==> #[trigger] r.digits[i] == 0 && r.bitboard[i] == MASK,
            r.num_recursions == 0,
            r.guesses == 0,
    {
        let r = Sudoku {
            bitboard: [MASK; 81],
            digits: [0; 81],
            num_digits: 0,
            num_recursions: 0,
            guesses: 0,
        };
        proof {
            lemma_mask_closed(0, 0);
            lemma_blanks_all(r.digits@, 81);
        }
        r
    }
}

impl Sudoku {
    /// How many placements the board has counted.
    pub open spec fn placed(&self) -> nat {
        self.num_digits as nat
    }

    /// The number of unresolved cells.
    pub open spec fn blanks(&self) -> nat {
        blanks_upto(self.digits@, 81)
    }

    /// Every cell holds a digit.
    pub open spec fn is_full(&self) -> bool {
        forall|i: int| is_cell(i) ==> #[trigger] self.digits[i] != 0
    }

    /// The board's invariant: digits are 0 to 9, masks hold only digit bits, a
    /// resolved cell has no candidates left, an unresolved cell has none of the
    /// digits placed in its peers, and the placement count is the number of
    /// resolved cells.
    pub open spec fn wf(&self) -> bool {
        &&& forall|i: int| is_cell(i) ==> #[trigger] self.digits[i] <= 9
        &&& forall|i: int| is_cell(i) ==> is_mask(#[trigger] self.bitboard[i])
        &&& forall|i: int| is_cell(i) && #[trigger] self.digits[i] != 0 ==> self.bitboard[i] == 0
        &&& forall|i: int, j: int|
            #![trigger is_peer(i, j), self.digits[i], self.digits[j]]
            #![trigger has_digit(self.bitboard[i], self.digits[j])]
            is_peer(i, j) && self.digits[i] == 0 && self.digits[j] != 0 ==> !has_digit(
                self.bitboard[i],
                self.digits[j],
            )
        &&& self.placed() + self.blanks() == 81
    }

    /// No two peers hold the same digit.
    pub open spec fn consistent(&self) -> bool {
        forall|i: int, j: int|
            #![trigger is_peer(i, j), self.digits[i], self.digits[j]]
            is_peer(i, j) && self.digits[i] != 0 ==> self.digits[i] != self.digits[j]
    }

    /// Cell `i` is compatible with digit `v`: it holds `v`, or it is unresolved
    /// and `v` is still among its candidates.
    pub open spec fn admits_at(&self, i: int, v: usize) -> bool {
        if self.digits[i] != 0 {
            self.digits[i] == v
        } else {
            has_digit(self.bitboard[i], v)
        }
    }

    /// The board is compatible with the completed grid `g` in every cell.
    pub open spec fn admits(&self, g: Seq<usize>) -> bool {
        forall|i: int| is_cell(i) ==> #[trigger] self.admits_at(i, g[i])
    }

    /// Cell `i` of `self` arises from cell `i` of `prev` by placing one of its
    /// candidates or by removing candidates.
    pub open spec fn refines_at(&self, prev: Sudoku, i: int) -> bool {
        &&& prev.digits[i] != 0 ==> self.digits[i] == prev.digits[i]
        &&& prev.digits[i] == 0 && self.digits[i] != 0 ==> is_digit(self.digits[i]) && has_digit(
            prev.bitboard[i],
            self.digits[i],
        )
        &&& self.digits[i] == 0 ==> prev.digits[i] == 0 && forall|d: usize|
            is_digit(d) && #[trigger] has_digit(self.bitboard[i], d) ==> has_digit(
                prev.bitboard[i],
                d,
            )
    }

    /// `self` arises from `prev` by placing candidates and removing candidates.
    pub open spec fn refines(&self, prev: Sudoku) -> bool {
        forall|i: int| is_cell(i) ==> #[trigger] self.refines_at(prev, i)
    }

    /// `self` is `prev` after digit `digit` was placed in cell `idx`: the cell
    /// holds the digit and no candidate, each peer lost the digit as a
    /// candidate, and one more placement is counted.
    pub open spec fn is_placement(&self, prev: Sudoku, idx: int, digit: usize) -> bool {
        &&& self.digits@ == prev.digits@.update(idx, digit)
        &&& self.bitboard[idx] == 0
        &&& forall|j: int|
            is_cell(j) && j != idx ==> #[trigger] self.bitboard[j] == if is_peer(idx, j) {
                prev.bitboard[j] & (MASK ^ (1usize << digit))
            } else {
                prev.bitboard[j]
            }
        &&& self.placed() == prev.placed() + 1
        &&& self.num_recursions == prev.num_recursions
        &&& self.guesses == prev.guesses
    }

    /// Whether every cell holds a digit.
    pub fn is_solved(&self) -> (r: bool)
        ensures
            r == (self.placed() == 81),
            self.wf() ==> (r <==> self.is_full()),
    {
        proof {
            if self.wf() {
                lemma_blanks_none(self.digits@, 81);
            }
        }
        self.num_digits == SIZE
    }

    /// Places `digit` in cell `idx` and removes it from the candidates of the
    /// cell's 20 peers. Contradictions among the peers are not looked for here.
    pub fn place(&mut self, idx: usize, digit: usize)
        requires
            old(self).wf(),
            idx < SIZE,
            is_digit(digit),
        ensures
            final(self).is_placement(*old(self), idx as int, digit),
            old(self).digits[idx as int] == 0 ==> final(self).wf(),
            old(self).digits[idx as int] == 0 && has_digit(old(self).bitboard[idx as int], digit)
                ==> final(self).refines(*old(self)),
            old(self).digits[idx as int] == 0 && has_digit(old(self).bitboard[idx as int], digit)
                && old(self).consistent() ==> final(self).consistent(),
            forall|g: Seq<usize>|
                is_solution(g) && #[trigger] old(self).admits(g) && g[idx as int] == digit
                    ==> final(self).admits(g),
    {
        let ghost prev = *self;
        self.digits[idx] = digit;
        self.bitboard[idx] = 0;
        self.num_digits = self.num_digits + 1;
        let mask = MASK ^ (1usize << digit);
        let mut j: usize = 0;
        while j < SIZE
            invariant
                j <= SIZE,
                idx < SIZE,
                mask == MASK ^ (1usize << digit),
                self.digits@ == prev.digits@.update(idx as int, digit),
                self.bitboard[idx as int] == 0,
                self.placed() == prev.placed() + 1,
                self.num_recursions == prev.num_recursions,
                self.guesses == prev.guesses,
                forall|k: int|
                    is_cell(k) && k != idx ==> #[trigger] self.bitboard[k] == if k < j && is_peer(
                        idx as int,
                        k,
                    ) {
                        prev.bitboard[k] & mask
                    } else {
                        prev.bitboard[k]
                    },
            decreases SIZE - j,
        {
            if peers(idx, j) {
                self.bitboard[j] = self.bitboard[j] & mask;
            }
            j = j + 1;
        }
        proof {
            lemma_placement_effects(*self, prev, idx as int, digit);
        }
    }

    /// Reads a board from one character per cell, row by row: '1' to '9'
    /// place that digit as a clue, '.' and '0' leave the cell blank. A string
    /// shorter than the board leaves the remaining cells blank. Clues are
    /// placed without propagation.
    pub fn parse(s: &str) -> (r: Result<Sudoku, Error>)
        ensures
            r is Ok <==> s@.len() <= 81 && forall|i: int| 0 <= i < s@.len() ==> is_board_char(#[trigger] s@[i]),
            r is Err ==> r == Err::<Sudoku, Error>(Error::ParseError),
            r matches Ok(b) ==> {
                &&& b.wf()
                &&& from_clues(b)
                &&& b.num_recursions == 0
                &&& b.guesses == 0
                &&& forall|i: int| 0 <= i < s@.len() ==> #[trigger] b.digits[i] == char_digit(s@[i])
                &&& forall|i: int| s@.len() <= i < 81 ==> #[trigger] b.digits[i] == 0
            },
    {
        let n = s.unicode_len();
        if n > SIZE {
            return Err(Error::ParseError);
        }
        let mut sudoku = Sudoku::default();
        proof {
            lemma_bit_ops(MASK, MASK, 0);
            assert forall|i: int, d: usize|
                is_cell(i) && sudoku.digits[i] == 0 && is_digit(d) implies (#[trigger] has_digit(
                sudoku.bitboard[i],
                d,
            ) <==> forall|j: int| #[trigger] is_peer(i, j) ==> sudoku.digits[j] != d) by {
                lemma_bit_ops(MASK, MASK, d);
            }
        }
        let mut i: usize = 0;
        while i < n
            invariant
                i <= n,
                n == s@.len(),
                n <= SIZE,
                sudoku.wf(),
                from_clues(sudoku),
                sudoku.num_recursions == 0,
                sudoku.guesses == 0,
                forall|k: int| 0 <= k < i ==> is_board_char(#[trigger] s@[k]),
                forall|k: int| 0 <= k < i ==> #[trigger] sudoku.digits[k] == char_digit(s@[k]),
                forall|k: int| i <= k < 81 ==> #[trigger] sudoku.digits[k] == 0,
            decreases n - i,
        {
            let c = s.get_char(i);
            if c != '.' && c != '0' {
                if '1' <= c && c <= '9' {
                    let digit = (c as u32 - '0' as u32) as usize;
                    let ghost p = sudoku;
                    sudoku.place(i, digit);
                    proof {
                        lemma_clue_placement(p, sudoku, i as int, digit);
                    }
                } else {
                    return Err(Error::ParseError);
                }
            }
            i = i + 1;
        }
        Ok(sudoku)
    }

    /// The board as 81 characters, row by row: each cell's digit, '0' for a
    /// blank.
    pub fn to_string(&self) -> (r: String)
        ensures
            r@.len() == 81,
            forall|i: int| 0 <= i < 81 ==> #[trigger] r@[i] == digit_char(self.digits[i]),
    {
        let mut r = String::new();
        let mut i: usize = 0;
        while i < SIZE
            invariant
                i <= SIZE,
                r@.len() == i,
                forall|k: int| 0 <= k < i ==> #[trigger] r@[k] == digit_char(self.digits[k]),
            decreases SIZE - i,
        {
            let c = digit_str(self.digits[i]);
            r.append(c);
            i = i + 1;
        }
        r
    }

    /// Takes over the search counters that a failed branch reported in
    /// `error`, and hands the error back.
    pub(crate) fn store_stats(&mut self, error: Error) -> (r: Error)
        ensures
            r == error,
            final(self).digits == old(self).digits,
            final(self).bitboard == old(self).bitboard,
            final(self).num_digits == old(self).num_digits,
            error is NoSolution ==> final(self).num_recursions == error->num_recursions
                && final(self).guesses == error->guesses,
            !(error is NoSolution) ==> final(self).num_recursions == old(self).num_recursions
                && final(self).guesses == old(self).guesses,
    {
        if let Error::NoSolution { num_recursions, guesses } = error {
            self.num_recursions = num_recursions;
            self.guesses = guesses;
        }
        error
    }
}

impl std::str::FromStr for Sudoku {
    type Err = Error;

    /// See [`Sudoku::parse`].
    fn from_str(s: &str) -> Result<Sudoku, Error> {
        Sudoku::parse(s)
    }
}

/// The one-character text of cell value `d`.
pub fn digit_str(d: usize) -> (r: &'static str)
    ensures
        r@ == seq![digit_char(d)],
{
    proof {
        reveal_strlit("0");
        reveal_strlit("1");
        reveal_strlit("2");
        reveal_strlit("3");
        reveal_strlit("4");
        reveal_strlit("5");
        reveal_strlit("6");
        reveal_strlit("7");
        reveal_strlit("8");
        reveal_strlit("9");
        reveal_strlit(".");
    }
    match d {
        0 => "0",
        1 => "1",
        2 => "2",
        3 => "3",
        4 => "4",
        5 => "5",
        6 => "6",
        7 => "7",
        8 => "8",
        9 => "9",
        _ => ".",
    }
}

/// The error that reports a contradiction on board `s`, with its counters.
pub open spec fn no_solution(s: Sudoku) -> Error {
    Error::NoSolution { num_recursions: s.num_recursions, guesses: s.guesses }
}

impl<'a> From<&'a Sudoku> for Error {
    /// A contradiction on the given board, carrying its search counters.
    fn from(sudoku: &'a Sudoku) -> Error {
        Error::NoSolution { num_recursions: sudoku.num_recursions, guesses: sudoku.guesses }
    }
}

impl<'a> vstd::std_specs::convert::FromSpecImpl<&'a Sudoku> for Error {
    open spec fn obeys_from_spec() -> bool {
        true
    }

    open spec fn from_spec(v: &'a Sudoku) -> Error {
        no_solution(*v)
    }
}

/// Refinement holds of a board and itself.
pub proof fn lemma_refines_refl(s: Sudoku)
    ensures
        s.refines(s),
{
}

/// Refinement chains: placing and removing candidates in two steps is
/// placing and removing candidates.
pub proof fn lemma_refines_trans(a: Sudoku, b: Sudoku, c: Sudoku)
    requires
        b.refines(a),
        c.refines(b),
    ensures
        c.refines(a),
{
    assert forall|i: int| is_cell(i) implies #[trigger] c.refines_at(a, i) by {
        assert(b.refines_at(a, i));
        assert(c.refines_at(b, i));
        if a.digits[i] == 0 && c.digits[i] != 0 && b.digits[i] == 0 {
            assert(has_digit(b.bitboard[i], c.digits[i]));
        }
        if c.digits[i] == 0 {
            assert forall|d: usize| is_digit(d) && #[trigger] has_digit(c.bitboard[i], d) implies has_digit(
                a.bitboard[i],
                d,
            ) by {
                assert(has_digit(b.bitboard[i], d));
            }
        }
    }
}

/// The digit that character `c` stands for in a board string: '1' to '9'
/// give their digit, anything else 0.
pub open spec fn char_digit(c: char) -> usize {
    if '1' <= c <= '9' {
        (c as u32 - '0' as u32) as usize
    } else {
        0
    }
}

/// A character allowed in a board string: a digit, or '.' for a blank.
pub open spec fn is_board_char(c: char) -> bool {
    c == '.' || ('0' <= c <= '9')
}

/// The character that stands for cell value `d`: its decimal digit, or '.'
/// for a value above 9.
pub open spec fn digit_char(d: usize) -> char {
    if d <= 9 {
        (d + '0' as u32) as char
    } else {
        '.'
    }
}

/// The cells hold the given clues and every unresolved cell has exactly the
/// candidates that no peer holds.
pub open spec fn from_clues(s: Sudoku) -> bool {
    &&& forall|i: int| is_cell(i) && #[trigger] s.digits[i] != 0 ==> s.bitboard[i] == 0
    &&& forall|i: int, d: usize|
        is_cell(i) && s.digits[i] == 0 && is_digit(d) ==> (#[trigger] has_digit(s.bitboard[i], d)
            <==> forall|j: int| #[trigger] is_peer(i, j) ==> s.digits[j] != d)
}

/// A board built from clues that agree with a completed grid admits that
/// grid: whichever cells of a solution are blanked, the solution stays
/// possible.
pub proof fn lemma_clues_admit_solution(s: Sudoku, g: Seq<usize>)
    requires
        from_clues(s),
        is_solution(g),
        forall|i: int| is_cell(i) && #[trigger] s.digits[i] != 0 ==> s.digits[i] == g[i],
    ensures
        s.admits(g),
{
    assert forall|i: int| is_cell(i) implies #[trigger] s.admits_at(i, g[i]) by {
        if s.digits[i] == 0 {
            assert forall|j: int| #[trigger] is_peer(i, j) implies s.digits[j] != g[i] by {
                if s.digits[j] != 0 {
                    assert(s.digits[j] == g[j]);
                }
            }
        }
    }
}

proof fn lemma_clue_placement(p: Sudoku, s: Sudoku, idx: int, digit: usize)
    requires
        p.wf(),
        from_clues(p),
        is_cell(idx),
        is_digit(digit),
        p.digits[idx] == 0,
        s.is_placement(p, idx, digit),
    ensures
        from_clues(s),
{
    let m = MASK ^ (1usize << digit);
    assert forall|i: int| is_cell(i) && #[trigger] s.digits[i] != 0 implies s.bitboard[i] == 0 by {
        if i != idx {
            lemma_mask_closed(p.bitboard[i], m);
        }
    }
    assert forall|i: int, d: usize|
        is_cell(i) && s.digits[i] == 0 && is_digit(d) implies (#[trigger] has_digit(s.bitboard[i], d)
        <==> forall|j: int| #[trigger] is_peer(i, j) ==> s.digits[j] != d) by {
        assert(i != idx);
        lemma_bit_ops(p.bitboard[i], m, d);
        lemma_bit_ops(1usize << digit, 0, d);
        lemma_single_bit(digit, d);
        if forall|j: int| #[trigger] is_peer(i, j) ==> s.digits[j] != d {
            assert forall|j: int| #[trigger] is_peer(i, j) implies p.digits[j] != d by {
                if j != idx {
                    assert(s.digits[j] == p.digits[j]);
                }
            }
            if is_peer(idx, i) {
                assert(is_peer(i, idx));
                assert(s.digits[idx] == digit);
            }
        }
        if has_digit(s.bitboard[i], d) {
            assert forall|j: int| #[trigger] is_peer(i, j) implies s.digits[j] != d by {
                if j == idx {
                    assert(is_peer(idx, i));
                } else {
                    assert(s.digits[j] == p.digits[j]);
                }
            }
        }
    }
}

/// A full, consistent board that satisfies the invariant is a completed grid,
/// and any board that it refines admits it.
pub proof fn lemma_full_board_solution(s: Sudoku, prev: Sudoku)
    requires
        s.wf(),
        s.is_full(),
        s.consistent(),
        s.refines(prev),
    ensures
        is_solution(s.digits@),
        prev.admits(s.digits@),
{
    assert forall|i: int| is_cell(i) implies is_digit(#[trigger] s.digits@[i]) by {
        assert(s.digits[i] != 0);
    }
    assert forall|i: int, j: int| #[trigger] is_peer(i, j) implies s.digits@[i] != s.digits@[j] by {
        assert(s.digits[i] != 0);
    }
    assert forall|i: int| is_cell(i) implies #[trigger] prev.admits_at(i, s.digits@[i]) by {
        assert(s.refines_at(prev, i));
        assert(s.digits[i] != 0);
    }
}

/// A board admits no grid that the board it refines does not admit.
pub proof fn lemma_refines_admits(prev: Sudoku, s: Sudoku, g: Seq<usize>)
    requires
        s.refines(prev),
        is_solution(g),
        s.admits(g),
    ensures
        prev.admits(g),
{
    assert forall|i: int| is_cell(i) implies #[trigger] prev.admits_at(i, g[i]) by {
        assert(s.refines_at(prev, i));
        assert(s.admits_at(i, g[i]));
    }
}

/// Removing from cell `c` the candidates outside `mask` keeps the board
/// invariant, refines the board, and keeps every grid whose digit in `c` is in
/// `mask`.
pub proof fn lemma_clear_effects(s0: Sudoku, s1: Sudoku, c: int, mask: usize)
    requires
        s0.wf(),
        is_cell(c),
        is_mask(mask),
        s1.digits == s0.digits,
        s1.bitboard@ == s0.bitboard@.update(c, s0.bitboard[c] & mask),
        s1.num_digits == s0.num_digits,
        s1.num_recursions == s0.num_recursions,
        s1.guesses == s0.guesses,
    ensures
        s1.wf(),
        s1.refines(s0),
        s1.blanks() == s0.blanks(),
        s0.consistent() ==> s1.consistent(),
        forall|g: Seq<usize>|
            is_solution(g) && #[trigger] s0.admits(g) && (s0.digits[c] != 0 || has_digit(mask, g[c]))
                ==> s1.admits(g),
{
    assert(s1.digits@ == s0.digits@);
    lemma_mask_closed(s0.bitboard[c], mask);
    assert forall|d: usize| is_digit(d) implies #[trigger] has_digit(s1.bitboard[c], d) == (has_digit(
        s0.bitboard[c],
        d,
    ) && has_digit(mask, d)) by {
        lemma_bit_ops(s0.bitboard[c], mask, d);
    }
    assert forall|i: int| is_cell(i) implies is_mask(#[trigger] s1.bitboard[i]) by {
        if i == c {
        } else {
            assert(s1.bitboard[i] == s0.bitboard[i]);
        }
    }
    assert forall|i: int| is_cell(i) && #[trigger] s1.digits[i] != 0 implies s1.bitboard[i] == 0 by {
        if i != c {
            assert(s1.bitboard[i] == s0.bitboard[i]);
        }
    }
    assert forall|i: int, j: int|
        #![trigger is_peer(i, j), s1.digits[i], s1.digits[j]]
        #![trigger has_digit(s1.bitboard[i], s1.digits[j])]
        is_peer(i, j) && s1.digits[i] == 0 && s1.digits[j] != 0 implies !has_digit(
            s1.bitboard[i],
            s1.digits[j],
        ) by {
        assert(s0.digits[j] <= 9);
        if i != c {
            assert(s1.bitboard[i] == s0.bitboard[i]);
        } else {
            assert(!has_digit(s0.bitboard[i], s0.digits[j]));
        }
    }
    assert forall|i: int| is_cell(i) implies #[trigger] s1.refines_at(s0, i) by {
        if i != c {
            assert(s1.bitboard[i] == s0.bitboard[i]);
        }
    }
    assert forall|g: Seq<usize>|
        is_solution(g) && #[trigger] s0.admits(g) && (s0.digits[c] != 0 || has_digit(mask, g[c])) implies s1.admits(
        g,
    ) by {
        assert forall|i: int| is_cell(i) implies #[trigger] s1.admits_at(i, g[i]) by {
            assert(s0.admits_at(i, g[i]));
            if i != c {
                assert(s1.bitboard[i] == s0.bitboard[i]);
            }
        }
    }
}

proof fn lemma_placement_effects(s: Sudoku, p: Sudoku, idx: int, digit: usize)
    requires
        p.wf(),
        is_cell(idx),
        is_digit(digit),
        s.is_placement(p, idx, digit),
    ensures
        p.digits[idx] == 0 ==> s.wf(),
        p.digits[idx] == 0 && has_digit(p.bitboard[idx], digit) ==> s.refines(p),
        p.digits[idx] == 0 && has_digit(p.bitboard[idx], digit) && p.consistent()
            ==> s.consistent(),
        forall|g: Seq<usize>|
            is_solution(g) && #[trigger] p.admits(g) && g[idx] == digit ==> s.admits(g),
{
    let m = MASK ^ (1usize << digit);
    lemma_single_bit(digit, digit);
    lemma_mask_closed(1usize << digit, 0);
    assert forall|j: int, d: usize| is_cell(j) && j != idx && is_digit(d) implies #[trigger] has_digit(
        s.bitboard[j],
        d,
    ) == (has_digit(p.bitboard[j], d) && (is_peer(idx, j) ==> (is_digit(d) && d != digit))) by {
        lemma_bit_ops(p.bitboard[j], m, d);
        lemma_bit_ops(1usize << digit, 0, d);
        lemma_single_bit(digit, d);
    }
    if p.digits[idx] == 0 {
        assert forall|i: int| is_cell(i) implies is_mask(#[trigger] s.bitboard[i]) by {
            if i != idx {
                lemma_mask_closed(p.bitboard[i], m);
            }
        }
        assert forall|i: int| is_cell(i) && #[trigger] s.digits[i] != 0 implies s.bitboard[i]
            == 0 by {
            if i != idx {
                lemma_mask_closed(p.bitboard[i], m);
            }
        }
        assert forall|i: int, j: int|
            #![trigger is_peer(i, j), s.digits[i], s.digits[j]]
            #![trigger has_digit(s.bitboard[i], s.digits[j])]
            is_peer(i, j) && s.digits[i] == 0 && s.digits[j] != 0 implies !has_digit(
                s.bitboard[i],
                s.digits[j],
            ) by {
            if j != idx {
                assert(p.digits[j] == s.digits[j]);
                if has_digit(s.bitboard[i], s.digits[j]) {
                    assert(has_digit(p.bitboard[i], p.digits[j]));
                }
            }
        }
        lemma_blanks_update(p.digits@, 81, idx, digit);
        assert(s.digits@ == p.digits@.update(idx, digit));
    }
    if p.digits[idx] == 0 && has_digit(p.bitboard[idx], digit) {
        assert forall|i: int| is_cell(i) implies #[trigger] s.refines_at(p, i) by {
            if i != idx && s.digits[i] == 0 {
                assert forall|d: usize| is_digit(d) && #[trigger] has_digit(s.bitboard[i], d) implies has_digit(
                    p.bitboard[i],
                    d,
                ) by {
                }
            }
        }
    }
    if p.digits[idx] == 0 && has_digit(p.bitboard[idx], digit) && p.consistent() {
        assert forall|i: int, j: int|
            #![trigger is_peer(i, j), s.digits[i], s.digits[j]]
            is_peer(i, j) && s.digits[i] != 0 implies s.digits[i] != s.digits[j] by {
            if i == idx && s.digits[j] != 0 {
                assert(!has_digit(p.bitboard[idx], p.digits[j]));
            } else if j == idx {
                assert(is_peer(j, i));
                assert(!has_digit(p.bitboard[idx], p.digits[i]));
            }
        }
    }
    assert forall|g: Seq<usize>| is_solution(g) && #[trigger] p.admits(g) && g[idx] == digit implies s.admits(
        g,
    ) by {
        assert forall|i: int| is_cell(i) implies #[trigger] s.admits_at(i, g[i]) by {
            assert(p.admits_at(i, g[i]));
            if i != idx && s.digits[i] == 0 && is_peer(idx, i) {
                assert(g[i] != g[idx]);
            }
        }
    }
}

} // verus!
