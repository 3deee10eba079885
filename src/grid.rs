//! Completed grids: what it means for 81 digits to solve the puzzle.
use vstd::prelude::*;
use vstd::set_lib::{lemma_int_range, lemma_map_size, lemma_subset_equality, set_int_range};

use crate::bits::is_digit;
use crate::geometry::{box_of, col_of, is_cell, is_peer, row_of, unit_of, Unit};

verus! {

/// `g` fills all 81 cells with digits 1 to 9, and no two peers share a digit:
/// each row, column and box then holds nine different digits.
pub open spec fn is_solution(g: Seq<usize>) -> bool {
    &&& g.len() == 81
    &&& forall|i: int| is_cell(i) ==> is_digit(#[trigger] g[i])
    &&& forall|i: int, j: int| #[trigger] is_peer(i, j) ==> g[i] != g[j]
}

/// Every unit of `g` holds every digit: each row, column and box is a
/// permutation of 1 to 9.
pub open spec fn units_complete(g: Seq<usize>) -> bool {
    forall|u: Unit, k: int, d: usize|
        0 <= k < 9 && is_digit(d) ==> #[trigger] unit_holds(g, u, k, d)
}

/// Some cell of unit `k` of kind `u` holds digit `d` in `g`.
pub open spec fn unit_holds(g: Seq<usize>, u: Unit, k: int, d: usize) -> bool {
    exists|c: int| is_cell(c) && unit_of(u, c) == k && #[trigger] g[c] == d
}

/// The `t`-th cell (0 to 8) of unit `k` of kind `u`.
pub open spec fn unit_cell(u: Unit, k: int, t: int) -> int {
    match u {
        Unit::Row => 9 * k + t,
        Unit::Col => 9 * t + k,
        Unit::Box => 27 * (k / 3) + 3 * (k % 3) + 9 * (t / 3) + t % 3,
    }
}

proof fn lemma_unit_cell(u: Unit, k: int, t: int, t2: int)
    requires
        0 <= k < 9,
        0 <= t < 9,
        0 <= t2 < 9,
    ensures
        is_cell(unit_cell(u, k, t)),
        unit_of(u, unit_cell(u, k, t)) == k,
        t != t2 ==> unit_cell(u, k, t) != unit_cell(u, k, t2),
{
    let c = unit_cell(u, k, t);
    match u {
        Unit::Row => {
            assert(row_of(c) == k);
        },
        Unit::Col => {
            assert(col_of(c) == k);
        },
        Unit::Box => {
            let a = k / 3;
            let b = k % 3;
            let p = t / 3;
            let q = t % 3;
            assert(0 <= a < 3 && 0 <= b < 3 && 0 <= p < 3 && 0 <= q < 3);
            assert(c == 27 * a + 9 * p + (3 * b + q));
            assert(c / 27 == a);
            assert(c % 9 == 3 * b + q);
            assert((3 * b + q) / 3 == b);
            assert(box_of(c) == 3 * a + b);
            if t != t2 {
                let p2 = t2 / 3;
                let q2 = t2 % 3;
                assert(t == 3 * p + q && t2 == 3 * p2 + q2);
            }
        },
    }
}

/// Nine different digits from 1 to 9 take every digit: each unit of a solution
/// is a permutation of 1 to 9.
pub proof fn lemma_solution_units_complete(g: Seq<usize>)
    requires
        is_solution(g),
    ensures
        units_complete(g),
{
    assert forall|u: Unit, k: int, d: usize| 0 <= k < 9 && is_digit(d) implies #[trigger] unit_holds(
        g,
        u,
        k,
        d,
    ) by {
        let f = |t: int| g[unit_cell(u, k, t)] as int;
        let x = set_int_range(0, 9);
        let y = set_int_range(1, 10);
        lemma_int_range(0, 9);
        lemma_int_range(1, 10);
        assert forall|t1: int, t2: int| x.contains(t1) && x.contains(t2) && f(t1) == f(t2) implies t1
            == t2 by {
            lemma_unit_cell(u, k, t1, t2);
            lemma_unit_cell(u, k, t2, t1);
            if t1 != t2 {
                assert(is_peer(unit_cell(u, k, t1), unit_cell(u, k, t2)));
            }
        }
        assert(vstd::relations::injective_on(f, x));
        lemma_map_size(x, x.map(f), f);
        assert forall|v: int| x.map(f).contains(v) implies y.contains(v) by {
            let t = choose|t: int| x.contains(t) && f(t) == v;
            lemma_unit_cell(u, k, t, t);
        }
        lemma_subset_equality(x.map(f), y);
        assert(y.contains(d as int));
        let t = choose|t: int| x.contains(t) && f(t) == d as int;
        lemma_unit_cell(u, k, t, t);
        assert(g[unit_cell(u, k, t)] == d);
    }
}

} // verus!
