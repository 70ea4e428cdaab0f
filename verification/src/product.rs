//! The product enumerator: a lazy walk over the cartesian product.

use vstd::prelude::*;
use vstd::slice::slice_index_get;

use crate::counter::{
    countup, digit_view, lemma_exhausted_iff, rank, row_lens, tail_in_bounds, total,
};
use crate::rows::{row_views, AsSlice};

verus! {

/// An enumerator that yields the combinations of the given rows one at a
/// time, in odometer order: the last row's index advances fastest.
///
/// It borrows the rows and owns only the mixed-radix counter; combinations
/// hold references into the rows.  An empty collection of rows yields no
/// combinations.  Rows after the first must be non-empty for enumeration
/// (see [`DynProduct::wf`]): a later row of length zero leaves no valid
/// position for its digit, and the advance algorithm is not defined on it.
#[verifier::reject_recursive_types(T)]
#[verifier::reject_recursive_types(I)]
pub struct DynProduct<'a, T, I: AsSlice<Item = T>> {
    v: &'a [I],
    i: Vec<usize>,
}

impl<'a, T, I: AsSlice<Item = T>> DynProduct<'a, T, I> {
    /// The rows being enumerated, each as a sequence of items.
    pub closed spec fn rows(&self) -> Seq<Seq<T>> {
        row_views(self.v@)
    }

    /// The counter: the currently selected index into each row.
    pub closed spec fn counter(&self) -> Seq<int> {
        digit_view(self.i@)
    }

    /// Well-formed: one digit per row, and every digit after the first is a
    /// valid index into its row (so those rows are non-empty).  The leading
    /// digit may sit at or past its row's length: that is the finished
    /// state.
    pub open spec fn wf(&self) -> bool {
        tail_in_bounds(self.counter(), row_lens(self.rows()))
    }

    /// Finished: no rows at all, or the leading digit has passed the first
    /// row's length.
    pub open spec fn is_done(&self) -> bool {
        self.rows().len() == 0 || self.counter()[0] >= self.rows()[0].len()
    }

    /// Builds an enumerator over the borrowed rows, with every digit of the
    /// counter at zero.  Well-formedness follows whenever every row after
    /// the first is non-empty; a first row of length zero merely starts the
    /// enumerator in the finished state.
    pub fn from(value: &'a [I]) -> (p: Self)
        ensures
            p.rows() == row_views(value@),
            p.counter().len() == value@.len(),
            forall|k: int| 0 <= k < p.counter().len() ==> p.counter()[k] == 0,
            (forall|k: int| 1 <= k < value@.len() ==> value@[k].items().len() >= 1) ==> p.wf(),
    {
        let n: usize = value.len();
        let mut z: Vec<usize> = Vec::new();
        while z.len() < n
            invariant
                z@.len() <= n,
                forall|k: int| 0 <= k < z@.len() ==> z@[k] == 0,
            decreases n - z@.len(),
        {
            z.push(0);
        }
        DynProduct { v: value, i: z }
    }

    /// Builds an enumerator from a borrowed vector of rows; same contract
    /// as [`DynProduct::from`], only the caller's storage form differs.
    pub fn from_vec(value: &'a Vec<I>) -> (p: Self)
        ensures
            p.rows() == row_views(value@),
            p.counter().len() == value@.len(),
            forall|k: int| 0 <= k < p.counter().len() ==> p.counter()[k] == 0,
            (forall|k: int| 1 <= k < value@.len() ==> value@[k].items().len() >= 1) ==> p.wf(),
    {
        Self::from(value.as_slice())
    }

    /// Produces the next combination, or `None` when the enumeration is
    /// finished; once finished it stays finished.  The combination picks,
    /// for each row, the element the counter's digit selects at the moment
    /// of production; the counter then advances to the position of rank one
    /// higher.
    #[verifier::loop_isolation(false)]
    pub fn next(&mut self) -> (r: Option<Vec<&'a T>>)
        requires
            old(self).wf(),
        ensures
            final(self).wf(),
            final(self).rows() == old(self).rows(),
            old(self).is_done() ==> r is None && final(self).counter() == old(self).counter(),
            !old(self).is_done() ==> r is Some && {
                &&& (r->0)@.len() == old(self).rows().len()
                &&& forall|k: int|
                    0 <= k < old(self).rows().len() ==> *(r->0)@[k] == old(self).rows()[k][old(
                        self,
                    ).counter()[k]]
                &&& rank(final(self).counter(), row_lens(old(self).rows())) == rank(
                    old(self).counter(),
                    row_lens(old(self).rows()),
                ) + 1
                &&& old(self).counter()[0] <= final(self).counter()[0] <= old(self).counter()[0]
                    + 1
                &&& final(self).is_done() <==> rank(
                    final(self).counter(),
                    row_lens(old(self).rows()),
                ) >= total(row_lens(old(self).rows()))
            },
    {
        let n: usize = self.v.len();
        if n == 0 {
            return None;
        }
        let first_len: usize = slice_index_get(self.v, 0).len();
        if self.i[0] >= first_len {
            return None;
        }
        let mut ret: Vec<&'a T> = Vec::new();
        let mut k: usize = 0;
        while k < n
            invariant
                k <= n,
                ret@.len() == k,
                forall|t: int| 0 <= t < k ==> *ret@[t] == self.rows()[t][self.counter()[t]],
            decreases n - k,
        {
            let row: &'a [T] = slice_index_get(self.v, k).as_slice();
            let idx: usize = self.i[k];
            proof {
                assert(self.rows()[k as int] == self.v@[k as int].items());
                assert(self.counter()[k as int] == self.i@[k as int]);
                if k >= 1 {
                    assert(self.counter()[k as int] < row_lens(self.rows())[k as int]);
                    assert(row_lens(self.rows())[k as int] == self.rows()[k as int].len());
                }
            }
            ret.push(slice_index_get(row, idx));
            k += 1;
        }
        proof {
            assert forall|t: int| 0 <= t < self.i@.len() implies self.i@[t] < self.v@[
                t
            ].items().len() by {
                assert(self.counter()[t] == self.i@[t]);
                assert(self.rows()[t] == self.v@[t].items());
                if t >= 1 {
                    assert(self.counter()[t] < row_lens(self.rows())[t]);
                    assert(row_lens(self.rows())[t] == self.rows()[t].len());
                }
            }
        }
        countup(&mut self.i, self.v);
        proof {
            lemma_exhausted_iff(self.counter(), row_lens(self.rows()));
            assert(row_lens(self.rows())[0] == self.rows()[0].len());
        }
        Some(ret)
    }
}

/// Finished exactly at the end: a well-formed enumerator with at least one
/// row is finished if and only if its counter's rank has reached the total
/// count, the product of all row lengths.  Together with the contract of
/// [`DynProduct::next`] — the rank is zero at construction and rises by one
/// per combination — this pins the number of combinations produced to that
/// product.
pub proof fn lemma_done_iff_rank<'a, T, I: AsSlice<Item = T>>(p: &DynProduct<'a, T, I>)
    requires
        p.wf(),
        p.rows().len() >= 1,
    ensures
        p.is_done() <==> rank(p.counter(), row_lens(p.rows())) >= total(row_lens(p.rows())),
{
    lemma_exhausted_iff(p.counter(), row_lens(p.rows()));
    assert(row_lens(p.rows())[0] == p.rows()[0].len());
}

} // verus!
