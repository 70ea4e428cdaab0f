//! The mixed-radix counter behind the product enumerator.
//!
//! A counter is a vector of digits, one per row, with the row lengths as
//! radices; digit 0 is the most significant.  [`countup`] advances it in
//! place.  The spec model ranks each digit vector by its position in
//! odometer enumeration order; the lemmas here prove that ranks and digit
//! vectors are in bijection over the index space and that rank order is
//! lexicographic order on the digits.

use vstd::arithmetic::div_mod::{
    lemma_div_pos_is_pos, lemma_fundamental_div_mod, lemma_fundamental_div_mod_converse,
    lemma_mod_division_less_than_divisor,
};
use vstd::prelude::*;

use crate::rows::{row_views, AsSlice};

verus! {

/// The radices: the length of each row.
pub open spec fn row_lens<T>(rows: Seq<Seq<T>>) -> Seq<int> {
    rows.map(|k: int, r: Seq<T>| r.len() as int)
}

/// A counter's digits as mathematical integers.
pub open spec fn digit_view(s: Seq<usize>) -> Seq<int> {
    s.map(|k: int, d: usize| d as int)
}

/// One digit per radix; every digit non-negative; every digit after the
/// first strictly below its radix.  The leading digit may pass its radix:
/// that overflow is the enumerator's termination signal.
pub open spec fn tail_in_bounds(c: Seq<int>, lens: Seq<int>) -> bool {
    &&& c.len() == lens.len()
    &&& forall|k: int| 0 <= k < c.len() ==> c[k] >= 0
    &&& forall|k: int| 1 <= k < c.len() ==> c[k] < lens[k]
}

/// Every digit is a valid index into its row.
pub open spec fn in_bounds(c: Seq<int>, lens: Seq<int>) -> bool {
    &&& c.len() == lens.len()
    &&& forall|k: int| 0 <= k < c.len() ==> 0 <= #[trigger] c[k] && c[k] < lens[k]
}

/// Product of the radices from position `k` on; 1 past the end.
/// `weight(lens, k + 1)` is how much a unit step of digit `k` is worth.
pub open spec fn weight(lens: Seq<int>, k: int) -> int
    decreases lens.len() - k,
{
    if k < 0 || k >= lens.len() {
        1
    } else {
        lens[k] * weight(lens, k + 1)
    }
}

/// Number of points in the whole index space: the product of all radices.
pub open spec fn total(lens: Seq<int>) -> int {
    weight(lens, 0)
}

/// Mixed-radix value of the digits from position `k` on.
pub open spec fn rank_from(c: Seq<int>, lens: Seq<int>, k: int) -> int
    decreases c.len() - k,
{
    if k < 0 || k >= c.len() {
        0
    } else {
        c[k] * weight(lens, k + 1) + rank_from(c, lens, k + 1)
    }
}

/// Position of a digit vector in odometer enumeration order.
pub open spec fn rank(c: Seq<int>, lens: Seq<int>) -> int {
    rank_from(c, lens, 0)
}

/// The digit vector at position `n` of the enumeration (the leading digit
/// absorbs whatever does not fit, so this is defined for every `n >= 0`).
pub open spec fn unrank(lens: Seq<int>, n: int) -> Seq<int>
    decreases lens.len(),
{
    if lens.len() == 0 {
        Seq::empty()
    } else if lens.len() == 1 {
        seq![n]
    } else {
        unrank(lens.drop_last(), n / lens.last()).push(n % lens.last())
    }
}

/// Strict lexicographic order on equal-length digit vectors, digit 0
/// compared first.
pub open spec fn lex_less(c: Seq<int>, d: Seq<int>) -> bool {
    exists|k: int|
        #![auto]
        0 <= k < c.len() && k < d.len() && c[k] < d[k] && (forall|j: int|
            0 <= j < k ==> c[j] == d[j])
}

/// With all digits from `k` on valid, their mixed-radix value ranges over
/// exactly `[0, weight(lens, k))`.
pub proof fn lemma_rank_from_range(c: Seq<int>, lens: Seq<int>, k: int)
    requires
        c.len() == lens.len(),
        forall|j: int| k <= j < c.len() ==> 0 <= #[trigger] c[j] && c[j] < lens[j],
    ensures
        0 <= rank_from(c, lens, k) < weight(lens, k),
    decreases c.len() - k,
{
    if 0 <= k < c.len() {
        lemma_rank_from_range(c, lens, k + 1);
        let w: int = weight(lens, k + 1);
        assert(0 <= c[k] * w) by (nonlinear_arith)
            requires
                0 <= c[k],
                0 <= w,
        ;
        assert(c[k] * w + w == (c[k] + 1) * w) by (nonlinear_arith);
        assert((c[k] + 1) * w <= lens[k] * w) by (nonlinear_arith)
            requires
                c[k] + 1 <= lens[k],
                0 <= w,
        ;
    }
}

/// The mixed-radix value only reads the digits from `k` on.
proof fn lemma_rank_from_congruence(a: Seq<int>, b: Seq<int>, lens: Seq<int>, k: int)
    requires
        a.len() == b.len(),
        forall|j: int| k <= j < a.len() ==> a[j] == b[j],
    ensures
        rank_from(a, lens, k) == rank_from(b, lens, k),
    decreases a.len() - k,
{
    if 0 <= k < a.len() {
        lemma_rank_from_congruence(a, b, lens, k + 1);
    }
}

/// Writing `x` into digit `k` moves the value by `(x - c[k])` times that
/// digit's weight.
proof fn lemma_rank_from_update(c: Seq<int>, lens: Seq<int>, k: int, x: int, j: int)
    requires
        c.len() == lens.len(),
        0 <= j <= k < c.len(),
    ensures
        rank_from(c.update(k, x), lens, j) == rank_from(c, lens, j) + (x - c[k]) * weight(
            lens,
            k + 1,
        ),
    decreases k - j,
{
    let u = c.update(k, x);
    if j == k {
        lemma_rank_from_congruence(u, c, lens, k + 1);
        assert(x * weight(lens, k + 1) - c[k] * weight(lens, k + 1) == (x - c[k]) * weight(
            lens,
            k + 1,
        )) by (nonlinear_arith);
    } else {
        lemma_rank_from_update(c, lens, k, x, j + 1);
    }
}

/// Stepping a digit up by one raises the rank by that digit's weight.
pub proof fn lemma_rank_bump(c: Seq<int>, lens: Seq<int>, k: int, x: int)
    requires
        c.len() == lens.len(),
        0 <= k < c.len(),
        x == c[k] + 1,
    ensures
        rank(c.update(k, x), lens) == rank(c, lens) + weight(lens, k + 1),
{
    lemma_rank_from_update(c, lens, k, x, 0);
    assert((x - c[k]) * weight(lens, k + 1) == weight(lens, k + 1)) by (nonlinear_arith)
        requires
            x - c[k] == 1,
    ;
}

/// A carry leaves the rank unchanged: resetting a full digit `j` to zero
/// and stepping digit `j - 1` up by one cancel out exactly.
pub proof fn lemma_rank_carry(c: Seq<int>, lens: Seq<int>, j: int)
    requires
        c.len() == lens.len(),
        1 <= j < c.len(),
        c[j] == lens[j],
    ensures
        rank(c.update(j, 0).update(j - 1, c[j - 1] + 1), lens) == rank(c, lens),
{
    let c1 = c.update(j, 0);
    lemma_rank_from_update(c, lens, j, 0, 0);
    lemma_rank_from_update(c1, lens, j - 1, c1[j - 1] + 1, 0);
    assert((c1[j - 1] + 1 - c1[j - 1]) * weight(lens, j) == weight(lens, j)) by (nonlinear_arith);
    assert(weight(lens, j) == lens[j] * weight(lens, j + 1));
    assert((0 - lens[j]) * weight(lens, j + 1) + lens[j] * weight(lens, j + 1) == 0)
        by (nonlinear_arith);
}

proof fn lemma_weight_drop_last(lens: Seq<int>, k: int)
    requires
        lens.len() >= 1,
        0 <= k <= lens.len() - 1,
    ensures
        weight(lens, k) == weight(lens.drop_last(), k) * lens.last(),
    decreases lens.len() - k,
{
    let m: int = lens.last();
    let lp = lens.drop_last();
    if k == lens.len() - 1 {
        assert(weight(lens, k + 1) == 1);
        assert(weight(lp, k) == 1);
    } else {
        lemma_weight_drop_last(lens, k + 1);
        assert(lens[k] * (weight(lp, k + 1) * m) == (lens[k] * weight(lp, k + 1)) * m)
            by (nonlinear_arith);
    }
}

proof fn lemma_rank_from_drop_last(c: Seq<int>, lens: Seq<int>, k: int)
    requires
        c.len() == lens.len(),
        c.len() >= 1,
        0 <= k <= c.len() - 1,
    ensures
        rank_from(c, lens, k) == rank_from(c.drop_last(), lens.drop_last(), k) * lens.last()
            + c.last(),
    decreases c.len() - k,
{
    let m: int = lens.last();
    let cp = c.drop_last();
    let lp = lens.drop_last();
    if k == c.len() - 1 {
        assert(rank_from(cp, lp, k) == 0);
        assert(weight(lens, k + 1) == 1);
        assert(rank_from(c, lens, k + 1) == 0);
    } else {
        lemma_rank_from_drop_last(c, lens, k + 1);
        lemma_weight_drop_last(lens, k + 1);
        assert(c[k] * (weight(lp, k + 1) * m) + rank_from(cp, lp, k + 1) * m == (c[k] * weight(
            lp,
            k + 1,
        ) + rank_from(cp, lp, k + 1)) * m) by (nonlinear_arith);
    }
}

/// Splitting off the least significant digit: the rank is the rank of the
/// remaining digits, scaled by the last radix, plus the last digit.
pub proof fn lemma_rank_drop_last(c: Seq<int>, lens: Seq<int>)
    requires
        c.len() == lens.len(),
        c.len() >= 1,
    ensures
        rank(c, lens) == rank(c.drop_last(), lens.drop_last()) * lens.last() + c.last(),
{
    lemma_rank_from_drop_last(c, lens, 0);
}

/// A counter whose tail digits are valid has a non-negative rank.
pub proof fn lemma_rank_nonneg(c: Seq<int>, lens: Seq<int>)
    requires
        tail_in_bounds(c, lens),
    ensures
        rank(c, lens) >= 0,
{
    if c.len() >= 1 {
        lemma_rank_from_range(c, lens, 1);
        let w: int = weight(lens, 1);
        assert(c[0] * w >= 0) by (nonlinear_arith)
            requires
                c[0] >= 0,
                w >= 1,
        ;
    }
}

/// Cardinality: a fully valid counter sits at a position in `[0, total)`,
/// so the enumeration of an index space with these radices has exactly
/// `total(lens)` positions, the product of all row lengths.
pub proof fn lemma_rank_range(c: Seq<int>, lens: Seq<int>)
    requires
        in_bounds(c, lens),
    ensures
        0 <= rank(c, lens) < total(lens),
{
    lemma_rank_from_range(c, lens, 0);
}

/// The fresh all-zero counter sits at position 0.
pub proof fn lemma_rank_all_zero(c: Seq<int>, lens: Seq<int>)
    requires
        forall|k: int| 0 <= k < c.len() ==> c[k] == 0,
    ensures
        rank(c, lens) == 0,
{
    lemma_rank_from_zero(c, lens, 0);
}

proof fn lemma_rank_from_zero(c: Seq<int>, lens: Seq<int>, k: int)
    requires
        forall|j: int| k <= j < c.len() ==> c[j] == 0,
    ensures
        rank_from(c, lens, k) == 0,
    decreases c.len() - k,
{
    if 0 <= k < c.len() {
        lemma_rank_from_zero(c, lens, k + 1);
        assert(c[k] * weight(lens, k + 1) == 0) by (nonlinear_arith)
            requires
                c[k] == 0,
        ;
    }
}

/// Termination: with the tail digits valid, the leading digit has passed
/// its radix exactly when the rank has reached the total count.
pub proof fn lemma_exhausted_iff(c: Seq<int>, lens: Seq<int>)
    requires
        tail_in_bounds(c, lens),
        c.len() >= 1,
    ensures
        c[0] >= lens[0] <==> rank(c, lens) >= total(lens),
{
    lemma_rank_from_range(c, lens, 1);
    let w1: int = weight(lens, 1);
    let r1: int = rank_from(c, lens, 1);
    assert(rank(c, lens) == c[0] * w1 + r1);
    assert(total(lens) == lens[0] * w1);
    if c[0] >= lens[0] {
        assert(c[0] * w1 >= lens[0] * w1) by (nonlinear_arith)
            requires
                c[0] >= lens[0],
                w1 >= 1,
        ;
    } else {
        assert(c[0] * w1 + w1 == (c[0] + 1) * w1) by (nonlinear_arith);
        assert((c[0] + 1) * w1 <= lens[0] * w1) by (nonlinear_arith)
            requires
                c[0] + 1 <= lens[0],
                w1 >= 0,
        ;
    }
}

/// Completeness: every position `n` of the enumeration is held by a digit
/// vector, namely `unrank(lens, n)`, and positions inside the index space
/// are held by fully valid digit vectors.
pub proof fn lemma_rank_unrank(lens: Seq<int>, n: int)
    requires
        lens.len() >= 1,
        n >= 0,
        forall|k: int| 1 <= k < lens.len() ==> lens[k] >= 1,
    ensures
        unrank(lens, n).len() == lens.len(),
        tail_in_bounds(unrank(lens, n), lens),
        rank(unrank(lens, n), lens) == n,
        n < total(lens) ==> in_bounds(unrank(lens, n), lens),
    decreases lens.len(),
{
    let u = unrank(lens, n);
    if lens.len() == 1 {
        assert(u == seq![n]);
        assert(weight(lens, 1) == 1);
        assert(rank_from(u, lens, 1) == 0);
        assert(rank(u, lens) == n * 1 + 0);
        assert(total(lens) == lens[0] * 1);
    } else {
        let m: int = lens.last();
        let lp = lens.drop_last();
        let q: int = n / m;
        let r: int = n % m;
        lemma_fundamental_div_mod(n, m);
        lemma_mod_division_less_than_divisor(n, m);
        lemma_div_pos_is_pos(n, m);
        lemma_rank_unrank(lp, q);
        let up = unrank(lp, q);
        assert(u == up.push(r));
        assert(u.drop_last() =~= up);
        assert(u.last() == r);
        lemma_rank_drop_last(u, lens);
        assert(rank(u, lens) == q * m + r);
        assert(q * m + r == m * q + r) by (nonlinear_arith);
        lemma_weight_drop_last(lens, 0);
        assert(total(lens) == total(lp) * m);
        if n < total(lens) {
            assert(q < total(lp)) by (nonlinear_arith)
                requires
                    n == m * q + r,
                    0 <= r < m,
                    n < total(lp) * m,
                    m >= 1,
            ;
        }
    }
}

/// Uniqueness: a digit vector with valid tail digits is recovered from its
/// rank, so no two of them share a position in the enumeration.
pub proof fn lemma_unrank_rank(c: Seq<int>, lens: Seq<int>)
    requires
        tail_in_bounds(c, lens),
    ensures
        unrank(lens, rank(c, lens)) == c,
    decreases lens.len(),
{
    if lens.len() == 0 {
        assert(rank(c, lens) == 0);
        assert(unrank(lens, 0) =~= c);
    } else if lens.len() == 1 {
        assert(weight(lens, 1) == 1);
        assert(rank_from(c, lens, 1) == 0);
        assert(rank(c, lens) == c[0] * 1 + 0);
        assert(unrank(lens, c[0]) == seq![c[0]]);
        assert(seq![c[0]] =~= c);
    } else {
        let m: int = lens.last();
        let cp = c.drop_last();
        let lp = lens.drop_last();
        lemma_rank_drop_last(c, lens);
        let q: int = rank(cp, lp);
        lemma_rank_nonneg(cp, lp);
        assert(rank(c, lens) == q * m + c.last());
        lemma_fundamental_div_mod_converse(rank(c, lens), m, q, c.last());
        lemma_unrank_rank(cp, lp);
        assert(unrank(lens, rank(c, lens)) == unrank(lp, q).push(c.last()));
        assert(cp.push(c.last()) =~= c);
    }
}

/// No duplicates: two counters with valid tail digits and the same rank are
/// the same counter.
pub proof fn lemma_rank_injective(c: Seq<int>, d: Seq<int>, lens: Seq<int>)
    requires
        tail_in_bounds(c, lens),
        tail_in_bounds(d, lens),
        rank(c, lens) == rank(d, lens),
    ensures
        c == d,
{
    lemma_unrank_rank(c, lens);
    lemma_unrank_rank(d, lens);
}

proof fn lemma_rank_from_lex(c: Seq<int>, d: Seq<int>, lens: Seq<int>, j: int, k: int)
    requires
        tail_in_bounds(c, lens),
        tail_in_bounds(d, lens),
        0 <= j <= k < c.len(),
        forall|i: int| j <= i < k ==> c[i] == d[i],
        c[k] < d[k],
    ensures
        rank_from(c, lens, j) < rank_from(d, lens, j),
    decreases k - j,
{
    if j == k {
        lemma_rank_from_range(c, lens, k + 1);
        lemma_rank_from_range(d, lens, k + 1);
        let w: int = weight(lens, k + 1);
        assert(c[k] * w + w == (c[k] + 1) * w) by (nonlinear_arith);
        assert((c[k] + 1) * w <= d[k] * w) by (nonlinear_arith)
            requires
                c[k] + 1 <= d[k],
                w >= 0,
        ;
    } else {
        lemma_rank_from_lex(c, d, lens, j + 1, k);
    }
}

/// Lexicographic order implies enumeration order.
pub proof fn lemma_lex_rank(c: Seq<int>, d: Seq<int>, lens: Seq<int>)
    requires
        tail_in_bounds(c, lens),
        tail_in_bounds(d, lens),
        lex_less(c, d),
    ensures
        rank(c, lens) < rank(d, lens),
{
    let k: int = choose|k: int|
        #![auto]
        0 <= k < c.len() && k < d.len() && c[k] < d[k] && (forall|j: int|
            0 <= j < k ==> c[j] == d[j]);
    lemma_rank_from_lex(c, d, lens, 0, k);
}

proof fn lemma_lex_total_from(c: Seq<int>, d: Seq<int>, i: int)
    requires
        c.len() == d.len(),
        0 <= i <= c.len(),
        forall|j: int| 0 <= j < i ==> c[j] == d[j],
    ensures
        c == d || lex_less(c, d) || lex_less(d, c),
    decreases c.len() - i,
{
    if i == c.len() {
        assert(c =~= d);
    } else if c[i] < d[i] {
        assert(lex_less(c, d));
    } else if d[i] < c[i] {
        assert(lex_less(d, c));
    } else {
        lemma_lex_total_from(c, d, i + 1);
    }
}

/// Enumeration order implies lexicographic order: of two counters with
/// valid tail digits, the one of smaller rank is lexicographically smaller.
pub proof fn lemma_rank_lex(c: Seq<int>, d: Seq<int>, lens: Seq<int>)
    requires
        tail_in_bounds(c, lens),
        tail_in_bounds(d, lens),
        rank(c, lens) < rank(d, lens),
    ensures
        lex_less(c, d),
{
    lemma_lex_total_from(c, d, 0);
    if c == d {
        assert(false);
    } else if lex_less(d, c) {
        lemma_lex_rank(d, c, lens);
        assert(false);
    }
}

/// Lexicographic order of the produced combinations: of two positions of
/// the enumeration, the earlier one holds the lexicographically smaller
/// digit vector, digit 0 compared first.
pub proof fn lemma_enumeration_order(lens: Seq<int>, n1: int, n2: int)
    requires
        lens.len() >= 1,
        forall|k: int| 1 <= k < lens.len() ==> lens[k] >= 1,
        0 <= n1 < n2,
    ensures
        lex_less(unrank(lens, n1), unrank(lens, n2)),
{
    lemma_rank_unrank(lens, n1);
    lemma_rank_unrank(lens, n2);
    lemma_rank_lex(unrank(lens, n1), unrank(lens, n2), lens);
}

/// Advances the counter to the next combination: the last digit steps up
/// by one, and every digit that thereby reaches its row's length resets to
/// zero and carries into the digit to its left.  The leading digit absorbs
/// the final carry and may thereby pass its row's length; that overflow is
/// the signal the enumerator reads as end of enumeration.
///
/// The counter moves to the position of rank exactly one higher.
#[verifier::loop_isolation(false)]
pub fn countup<T, I: AsSlice<Item = T>>(i: &mut Vec<usize>, v: &[I])
    requires
        old(i)@.len() == v@.len(),
        v@.len() >= 1,
        forall|k: int| 0 <= k < old(i)@.len() ==> old(i)@[k] < v@[k].items().len(),
    ensures
        final(i)@.len() == old(i)@.len(),
        forall|k: int| 1 <= k < final(i)@.len() ==> final(i)@[k] < v@[k].items().len(),
        old(i)@[0] <= final(i)@[0] <= old(i)@[0] + 1,
        rank(digit_view(final(i)@), row_lens(row_views(v@))) == rank(
            digit_view(old(i)@),
            row_lens(row_views(v@)),
        ) + 1,
{
    let ghost lens = row_lens(row_views(v@));
    let ghost c0 = digit_view(old(i)@);
    let last: usize = i.len() - 1;
    let _last_len: usize = slice_len_of(v, last);
    let x: usize = i[last];
    i.set(last, x + 1);
    proof {
        assert(digit_view(i@) =~= c0.update(last as int, x + 1));
        lemma_rank_bump(c0, lens, last as int, x + 1);
        assert(weight(lens, last as int + 1) == 1);
    }
    let mut j: usize = last;
    let mut carry: bool = true;
    while carry && j >= 1
        invariant
            i@.len() == v@.len(),
            j < i@.len(),
            forall|k: int| 0 <= k < j ==> i@[k] == old(i)@[k],
            i@[j as int] == old(i)@[j as int] + 1,
            forall|k: int| j < k < i@.len() ==> i@[k] < v@[k].items().len(),
            !carry ==> 1 <= j && i@[j as int] < v@[j as int].items().len(),
            rank(digit_view(i@), lens) == rank(c0, lens) + 1,
        decreases j + (if carry { 1int } else { 0int }),
    {
        let ghost prev = digit_view(i@);
        if i[j] >= slice_len_of(v, j) {
            i.set(j, 0);
            let _left_len: usize = slice_len_of(v, j - 1);
            let y: usize = i[j - 1];
            i.set(j - 1, y + 1);
            proof {
                assert(lens[j as int] == v@[j as int].items().len());
                assert(prev[j as int] == lens[j as int]);
                assert(digit_view(i@) =~= prev.update(j as int, 0).update(
                    j as int - 1,
                    prev[j as int - 1] + 1,
                ));
                lemma_rank_carry(prev, lens, j as int);
            }
            j -= 1;
        } else {
            carry = false;
        }
    }
    proof {
        assert forall|k: int| 1 <= k < i@.len() implies i@[k] < v@[k].items().len() by {
            if k < j {
                assert(i@[k] == old(i)@[k]);
            } else if k == j {
                assert(!carry || j == 0);
            }
        }
    }
}

/// Length of the row at position `j` of the slice of rows.
fn slice_len_of<T, I: AsSlice<Item = T>>(v: &[I], j: usize) -> (n: usize)
    requires
        j < v@.len(),
    ensures
        n == v@[j as int].items().len(),
{
    vstd::slice::slice_index_get(v, j).len()
}

} // verus!
