//! Candidate bitmasks: bit `d` of a mask is set when digit `d` (1 to 9) is
//! still possible in a cell.
use vstd::prelude::*;

verus! {

/// The mask with the bits of all nine digits set.
pub const MASK: usize = 0b11_1111_1110;

/// Digit `d` is among the candidates of bitmask `b`.
#[verifier::opaque]
pub open spec fn has_digit(b: usize, d: usize) -> bool {
    b & (1usize << d) != 0
}

/// Every set bit of `b` stands for one of the digits 1 to 9.
pub open spec fn is_mask(b: usize) -> bool {
    b & MASK == b
}

pub open spec fn is_digit(d: usize) -> bool {
    1 <= d <= 9
}

/// The number of digits among `1..=k` that `b` holds.
pub open spec fn count_upto(b: usize, k: nat) -> nat
    decreases k,
{
    if k == 0 {
        0
    } else {
        count_upto(b, (k - 1) as nat) + if has_digit(b, k as usize) {
            1nat
        } else {
            0nat
        }
    }
}

/// The number of candidate digits held by `b`.
pub open spec fn num_candidates(b: usize) -> nat {
    count_upto(b, 9)
}

/// A bitmask is known by the digits 1 to 9 that it holds.
pub proof fn lemma_mask_ext(a: usize, b: usize)
    requires
        is_mask(a),
        is_mask(b),
        forall|d: usize| is_digit(d) ==> #[trigger] has_digit(a, d) == has_digit(b, d),
    ensures
        a == b,
{
    assert(has_digit(a, 1) == has_digit(b, 1));
    assert(has_digit(a, 2) == has_digit(b, 2));
    assert(has_digit(a, 3) == has_digit(b, 3));
    assert(has_digit(a, 4) == has_digit(b, 4));
    assert(has_digit(a, 5) == has_digit(b, 5));
    assert(has_digit(a, 6) == has_digit(b, 6));
    assert(has_digit(a, 7) == has_digit(b, 7));
    assert(has_digit(a, 8) == has_digit(b, 8));
    assert(has_digit(a, 9) == has_digit(b, 9));
    lemma_nine_digits_equal(a, b);
}

proof fn lemma_nine_digits_equal(a: usize, b: usize)
    requires
        is_mask(a),
        is_mask(b),
        has_digit(a, 1) == has_digit(b, 1),
        has_digit(a, 2) == has_digit(b, 2),
        has_digit(a, 3) == has_digit(b, 3),
        has_digit(a, 4) == has_digit(b, 4),
        has_digit(a, 5) == has_digit(b, 5),
        has_digit(a, 6) == has_digit(b, 6),
        has_digit(a, 7) == has_digit(b, 7),
        has_digit(a, 8) == has_digit(b, 8),
        has_digit(a, 9) == has_digit(b, 9),
    ensures
        a == b,
{
    reveal(has_digit);
    assert(a == b) by (bit_vector)
        requires
            a & 0x3fe == a,
            b & 0x3fe == b,
            (a & (1usize << 1) != 0) == (b & (1usize << 1) != 0),
            (a & (1usize << 2) != 0) == (b & (1usize << 2) != 0),
            (a & (1usize << 3) != 0) == (b & (1usize << 3) != 0),
            (a & (1usize << 4) != 0) == (b & (1usize << 4) != 0),
            (a & (1usize << 5) != 0) == (b & (1usize << 5) != 0),
            (a & (1usize << 6) != 0) == (b & (1usize << 6) != 0),
            (a & (1usize << 7) != 0) == (b & (1usize << 7) != 0),
            (a & (1usize << 8) != 0) == (b & (1usize << 8) != 0),
            (a & (1usize << 9) != 0) == (b & (1usize << 9) != 0),
    ;
}

/// The bit test behind [`has_digit`].
pub proof fn lemma_has_digit_bits(b: usize, d: usize)
    ensures
        has_digit(b, d) == (b & (1usize << d) != 0),
{
    reveal(has_digit);
}

/// A mask is empty exactly when it holds no digit.
pub proof fn lemma_empty_mask(b: usize)
    requires
        is_mask(b),
    ensures
        b == 0 <==> forall|d: usize| is_digit(d) ==> !has_digit(b, d),
        forall|d: usize| d <= 9 ==> !has_digit(0, d),
{
    lemma_zero_has_none();
    assert(is_mask(0)) by (bit_vector);
    if forall|d: usize| is_digit(d) ==> !has_digit(b, d) {
        lemma_mask_ext(b, 0);
    }
}

pub proof fn lemma_zero_has_none()
    ensures
        forall|d: usize| d <= 9 ==> !has_digit(0, d),
{
    reveal(has_digit);
    assert(forall|d: usize| d <= 9 ==> #[trigger] (0usize & (1usize << d)) == 0) by (bit_vector);
}

/// What `&`, `|` and the complement within [`MASK`] do to the digits of masks.
pub proof fn lemma_bit_ops(a: usize, b: usize, d: usize)
    requires
        d <= 9,
    ensures
        has_digit(a & b, d) == (has_digit(a, d) && has_digit(b, d)),
        has_digit(a | b, d) == (has_digit(a, d) || has_digit(b, d)),
        has_digit(a ^ MASK, d) == (has_digit(MASK, d) != has_digit(a, d)),
        has_digit(MASK ^ a, d) == (has_digit(MASK, d) != has_digit(a, d)),
        has_digit(MASK, d) == is_digit(d),
{
    reveal(has_digit);
    assert((a & b) & (1usize << d) != 0 <==> (a & (1usize << d) != 0 && b & (1usize << d) != 0))
        by (bit_vector)
        requires
            d <= 9,
    ;
    assert((a | b) & (1usize << d) != 0 <==> (a & (1usize << d) != 0 || b & (1usize << d) != 0))
        by (bit_vector)
        requires
            d <= 9,
    ;
    assert((a ^ 0x3fe) & (1usize << d) != 0 <==> ((0x3fe & (1usize << d) != 0) != (a & (1usize
        << d) != 0))) by (bit_vector)
        requires
            d <= 9,
    ;
    assert((0x3fe ^ a) & (1usize << d) != 0 <==> ((0x3fe & (1usize << d) != 0) != (a & (1usize
        << d) != 0))) by (bit_vector)
        requires
            d <= 9,
    ;
    assert(0x3feusize & (1usize << d) != 0 <==> 1 <= d <= 9) by (bit_vector)
        requires
            d <= 9,
    ;
}

/// `&`, `|` and `^` keep values inside [`MASK`].
pub proof fn lemma_mask_closed(a: usize, b: usize)
    ensures
        is_mask(a) ==> is_mask(a & b),
        is_mask(a) && is_mask(b) ==> is_mask(a | b),
        is_mask(a) ==> is_mask(MASK ^ a),
        is_mask(a) ==> is_mask(a ^ MASK),
        is_mask(MASK),
        is_mask(0),
        0usize & b == 0,
{
    assert(a & 0x3fe == a ==> (a & b) & 0x3fe == a & b) by (bit_vector);
    assert(a & 0x3fe == a && b & 0x3fe == b ==> (a | b) & 0x3fe == a | b) by (bit_vector);
    assert(a & 0x3fe == a ==> (0x3fe ^ a) & 0x3fe == 0x3fe ^ a) by (bit_vector);
    assert(a & 0x3fe == a ==> (a ^ 0x3fe) & 0x3fe == a ^ 0x3fe) by (bit_vector);
    assert(0x3feusize & 0x3fe == 0x3fe) by (bit_vector);
    assert(0usize & 0x3fe == 0) by (bit_vector);
    assert(0usize & b == 0) by (bit_vector);
}

/// The single bit of a digit.
pub proof fn lemma_single_bit(e: usize, d: usize)
    requires
        e <= 9,
        d <= 9,
    ensures
        has_digit(1usize << e, d) == (d == e),
        1 <= e ==> is_mask(1usize << e),
{
    reveal(has_digit);
    assert(((1usize << e) & (1usize << d) != 0) == (d == e)) by (bit_vector)
        requires
            e <= 9,
            d <= 9,
    ;
    assert(1 <= e ==> (1usize << e) & 0x3fe == (1usize << e)) by (bit_vector)
        requires
            e <= 9,
    ;
}

/// A union of digit bits and candidate masks lies below [`MASK`] exactly when
/// one of the nine digits is missing from it.
pub proof fn lemma_below_mask(u: usize)
    requires
        u & 0x3ff == u,
    ensures
        u < MASK <==> !(forall|d: usize| is_digit(d) ==> has_digit(u, d)),
{
    if forall|d: usize| is_digit(d) ==> #[trigger] has_digit(u, d) {
        assert(has_digit(u, 1) && has_digit(u, 2) && has_digit(u, 3) && has_digit(u, 4)
            && has_digit(u, 5) && has_digit(u, 6) && has_digit(u, 7) && has_digit(u, 8)
            && has_digit(u, 9));
        lemma_nine_digits_full(u);
    } else {
        let d = choose|d: usize| is_digit(d) && !has_digit(u, d);
        lemma_missing_digit_below(u, d);
    }
}

proof fn lemma_nine_digits_full(u: usize)
    requires
        has_digit(u, 1) && has_digit(u, 2) && has_digit(u, 3) && has_digit(u, 4) && has_digit(u, 5)
            && has_digit(u, 6) && has_digit(u, 7) && has_digit(u, 8) && has_digit(u, 9),
    ensures
        u >= MASK,
{
    reveal(has_digit);
    assert(u >= 0x3fe) by (bit_vector)
        requires
            u & (1usize << 1) != 0,
            u & (1usize << 2) != 0,
            u & (1usize << 3) != 0,
            u & (1usize << 4) != 0,
            u & (1usize << 5) != 0,
            u & (1usize << 6) != 0,
            u & (1usize << 7) != 0,
            u & (1usize << 8) != 0,
            u & (1usize << 9) != 0,
    ;
}

proof fn lemma_missing_digit_below(u: usize, d: usize)
    requires
        u & 0x3ff == u,
        is_digit(d),
        !has_digit(u, d),
    ensures
        u < MASK,
{
    reveal(has_digit);
    assert(u < 0x3fe) by (bit_vector)
        requires
            u & 0x3ff == u,
            1 <= d <= 9,
            u & (1usize << d) == 0,
    ;
}

/// Within the first `k` digits, a mask holding none has count zero, and a count
/// of zero means it holds none.
pub proof fn lemma_count_zero(b: usize, k: nat)
    requires
        k <= 9,
    ensures
        count_upto(b, k) == 0 <==> forall|d: usize| 1 <= d <= k ==> !has_digit(b, d),
    decreases k,
{
    if k > 0 {
        lemma_count_zero(b, (k - 1) as nat);
        assert forall|d: usize| 1 <= d <= k && count_upto(b, k) == 0 implies !has_digit(b, d) by {
            if d < k {
            }
        }
    }
}

/// A count of one means one digit, and any digit held is that one.
pub proof fn lemma_count_one(b: usize, k: nat, d: usize, e: usize)
    requires
        k <= 9,
        count_upto(b, k) == 1,
        1 <= d <= k,
        1 <= e <= k,
        has_digit(b, d),
        has_digit(b, e),
    ensures
        d == e,
    decreases k,
{
    lemma_count_zero(b, (k - 1) as nat);
    if d != k && e != k {
        if has_digit(b, k as usize) {
        } else {
            lemma_count_one(b, (k - 1) as nat, d, e);
        }
    }
}

/// A mask with at most two candidates that holds two different digits holds
/// no third one.
pub proof fn lemma_count_two(b: usize, k: nat, p: usize, q: usize, r: usize)
    requires
        k <= 9,
        count_upto(b, k) <= 2,
        1 <= p <= k,
        1 <= q <= k,
        1 <= r <= k,
        p != q,
        has_digit(b, p),
        has_digit(b, q),
        has_digit(b, r),
    ensures
        r == p || r == q,
    decreases k,
{
    if r != p && r != q {
        lemma_count_three(b, k, p, q, r);
    }
}

proof fn lemma_count_three(b: usize, k: nat, p: usize, q: usize, r: usize)
    requires
        k <= 9,
        1 <= p <= k,
        1 <= q <= k,
        1 <= r <= k,
        p != q,
        p != r,
        q != r,
        has_digit(b, p),
        has_digit(b, q),
        has_digit(b, r),
    ensures
        count_upto(b, k) >= 3,
    decreases k,
{
    if p == k {
        lemma_count_pair(b, (k - 1) as nat, q, r);
    } else if q == k {
        lemma_count_pair(b, (k - 1) as nat, p, r);
    } else if r == k {
        lemma_count_pair(b, (k - 1) as nat, p, q);
    } else {
        lemma_count_three(b, (k - 1) as nat, p, q, r);
    }
}

proof fn lemma_count_pair(b: usize, k: nat, p: usize, q: usize)
    requires
        k <= 9,
        1 <= p <= k,
        1 <= q <= k,
        p != q,
        has_digit(b, p),
        has_digit(b, q),
    ensures
        count_upto(b, k) >= 2,
    decreases k,
{
    if p == k {
        lemma_count_some(b, (k - 1) as nat, q);
    } else if q == k {
        lemma_count_some(b, (k - 1) as nat, p);
    } else {
        lemma_count_pair(b, (k - 1) as nat, p, q);
    }
}

proof fn lemma_count_some(b: usize, k: nat, p: usize)
    requires
        k <= 9,
        1 <= p <= k,
        has_digit(b, p),
    ensures
        count_upto(b, k) >= 1,
    decreases k,
{
    if p != k {
        lemma_count_some(b, (k - 1) as nat, p);
    }
}

/// A mask whose only digit among the first `k` is `d` counts one there.
pub proof fn lemma_count_exactly_one(b: usize, k: nat, d: usize)
    requires
        k <= 9,
        1 <= d <= k,
        has_digit(b, d),
        forall|e: usize| 1 <= e <= k && #[trigger] has_digit(b, e) ==> e == d,
    ensures
        count_upto(b, k) == 1,
    decreases k,
{
    if d < k {
        lemma_count_exactly_one(b, (k - 1) as nat, d);
    } else {
        lemma_count_zero(b, (k - 1) as nat);
    }
}

/// A mask whose digits are among those of another has no more candidates.
pub proof fn lemma_count_subset(a: usize, b: usize, k: nat)
    requires
        k <= 9,
        forall|d: usize| 1 <= d <= k && has_digit(a, d) ==> has_digit(b, d),
    ensures
        count_upto(a, k) <= count_upto(b, k),
    decreases k,
{
    if k > 0 {
        lemma_count_subset(a, b, (k - 1) as nat);
    }
}

/// The number of candidate digits of `b`.
pub fn count_candidates(b: usize) -> (n: u32)
    ensures
        n == num_candidates(b),
{
    proof {
        reveal(has_digit);
    }
    let mut n: u32 = 0;
    let mut d: usize = 1;
    while d <= 9
        invariant
            1 <= d <= 10,
            n == count_upto(b, (d - 1) as nat),
            n <= d - 1,
        decreases 10 - d,
    {
        proof {
            reveal(has_digit);
        }
        if b & (1usize << d) != 0 {
            n = n + 1;
        }
        d = d + 1;
    }
    n
}

/// The smallest candidate digit of a mask that holds at least one.
pub fn lowest_candidate(b: usize) -> (d: usize)
    requires
        num_candidates(b) > 0,
    ensures
        is_digit(d),
        has_digit(b, d),
        forall|e: usize| 1 <= e < d ==> !has_digit(b, e),
{
    proof {
        lemma_count_zero(b, 9);
        reveal(has_digit);
    }
    let mut d: usize = 1;
    while d < 9
        invariant
            1 <= d <= 9,
            forall|e: usize| 1 <= e < d ==> !has_digit(b, e),
            exists|e: usize| d <= e <= 9 && has_digit(b, e),
        decreases 9 - d,
    {
        proof {
            reveal(has_digit);
        }
        if b & (1usize << d) != 0 {
            return d;
        }
        d = d + 1;
    }
    d
}

} // verus!
