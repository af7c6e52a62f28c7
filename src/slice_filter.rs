//! Projection of a sequence onto an ordered set of row intervals.
use std::collections::VecDeque;
use vstd::prelude::*;

use crate::error::Error;
use crate::interval::Interval;

verus! {

/// Whether `rows` are intervals of at least one row each, ascending and
/// disjoint, that start at `lo` or later and end at `hi` or earlier.
pub open spec fn valid_selection(rows: Seq<Interval>, lo: nat, hi: nat) -> bool {
    &&& forall|i: int| 0 <= i < rows.len() ==> #[trigger] rows[i].length >= 1
    &&& forall|i: int| 0 <= i < rows.len() ==> lo <= #[trigger] rows[i].start
    &&& forall|i: int| 0 <= i < rows.len() ==> #[trigger] rows[i].start + rows[i].length <= hi
    &&& forall|i: int, j: int|
        0 <= i < j < rows.len() ==> #[trigger] rows[i].start + rows[i].length <= #[trigger] rows[j].start
}

/// Total number of rows in `rows`.
pub open spec fn total_rows(rows: Seq<Interval>) -> nat
    decreases rows.len(),
{
    if rows.len() == 0 {
        0
    } else {
        (rows[0].length + total_rows(rows.drop_first())) as nat
    }
}

/// The items of `source` whose position falls in one of `rows`, in order;
/// `source[0]` stands at position `base`.
pub open spec fn selected<T>(source: Seq<T>, base: nat, rows: Seq<Interval>) -> Seq<T>
    decreases rows.len(),
{
    if rows.len() == 0 {
        Seq::empty()
    } else {
        source.subrange(rows[0].start - base, rows[0].start + rows[0].length - base) + selected(
            source,
            base,
            rows.drop_first(),
        )
    }
}

proof fn lemma_valid_drop_first(rows: Seq<Interval>, lo: nat, hi: nat)
    requires
        valid_selection(rows, lo, hi),
        rows.len() > 0,
    ensures
        valid_selection(rows.drop_first(), (rows[0].start + rows[0].length) as nat, hi),
{
    let rest = rows.drop_first();
    assert forall|i: int| 0 <= i < rest.len() implies (rows[0].start + rows[0].length) as nat
        <= #[trigger] rest[i].start by {
        assert(rest[i] == rows[i + 1]);
    }
    assert forall|i: int, j: int| 0 <= i < j < rest.len() implies #[trigger] rest[i].start
        + rest[i].length <= #[trigger] rest[j].start by {
        assert(rest[i] == rows[i + 1] && rest[j] == rows[j + 1]);
    }
    assert forall|i: int| 0 <= i < rest.len() implies #[trigger] rest[i].start + rest[i].length
        <= hi by {
        assert(rest[i] == rows[i + 1]);
    }
    assert forall|i: int| 0 <= i < rest.len() implies #[trigger] rest[i].length >= 1 by {
        assert(rest[i] == rows[i + 1]);
    }
}

/// Dropping the first `k` items of the source, none of them selected, keeps
/// the selection.
proof fn lemma_selected_skip<T>(source: Seq<T>, base: nat, rows: Seq<Interval>, k: nat)
    requires
        valid_selection(rows, base + k, base + source.len()),
        k <= source.len(),
    ensures
        selected(source.skip(k as int), base + k, rows) == selected(source, base, rows),
    decreases rows.len(),
{
    if rows.len() > 0 {
        let v = rows[0];
        lemma_valid_drop_first(rows, base + k, base + source.len());
        lemma_selected_skip(source, base, rows.drop_first(), k);
        assert(source.skip(k as int).subrange(v.start - (base + k), v.start + v.length - (base + k))
            =~= source.subrange(v.start - base, v.start + v.length - base));
    }
}

/// The length of a selection is its number of rows.
proof fn lemma_selected_len<T>(source: Seq<T>, base: nat, rows: Seq<Interval>)
    requires
        valid_selection(rows, base, base + source.len()),
    ensures
        selected(source, base, rows).len() == total_rows(rows),
    decreases rows.len(),
{
    if rows.len() > 0 {
        lemma_valid_drop_first(rows, base, base + source.len());
        lemma_selected_len(source, base, rows.drop_first());
    }
}

/// The positions that `rows` select, interval by interval, in order.
pub open spec fn row_positions(rows: Seq<Interval>) -> Seq<int>
    decreases rows.len(),
{
    if rows.len() == 0 {
        Seq::empty()
    } else {
        Seq::new(rows[0].length as nat, |i: int| rows[0].start + i) + row_positions(
            rows.drop_first(),
        )
    }
}

/// Projecting a source onto a valid selection yields the source's items at
/// the selected positions, in order, as many as the selection has rows.
pub proof fn lemma_projection<T>(source: Seq<T>, rows: Seq<Interval>)
    requires
        valid_selection(rows, 0, source.len()),
    ensures
        selected(source, 0, rows) == row_positions(rows).map_values(|i: int| source[i]),
        selected(source, 0, rows).len() == total_rows(rows),
    decreases rows.len(),
{
    lemma_selected_len(source, 0, rows);
    if rows.len() > 0 {
        let v = rows[0];
        lemma_valid_drop_first(rows, 0, source.len());
        lemma_valid_weaken(rows.drop_first(), (v.start + v.length) as nat, 0, source.len());
        lemma_projection(source, rows.drop_first());
        let head = Seq::new(v.length as nat, |i: int| v.start + i);
        let tail = row_positions(rows.drop_first());
        assert((head + tail).map_values(|i: int| source[i]) =~= head.map_values(|i: int| source[i])
            + tail.map_values(|i: int| source[i]));
        assert(head.map_values(|i: int| source[i]) =~= source.subrange(
            v.start as int,
            v.start + v.length,
        ));
    } else {
        assert(row_positions(rows).map_values(|i: int| source[i]) =~= Seq::<T>::empty());
    }
}

/// Iterator adapter that keeps, of a source, the items whose position lies
/// in one of an ordered set of row intervals, skipping the others in bulk.
pub struct SliceFilteredIter<T> {
    /// The source items not yet consumed, last item first.
    iter: Vec<T>,
    selected_rows: VecDeque<Interval>,
    /// Number of items still to come.
    total: usize,
    current_remaining: usize,
    /// Position in the source just past the interval being emitted.
    current: usize,
}

impl<T> SliceFilteredIter<T> {
    /// The source items not yet consumed, in order.
    pub closed spec fn source(&self) -> Seq<T> {
        self.iter@.reverse()
    }

    /// The intervals not yet started.
    pub closed spec fn rows(&self) -> Seq<Interval> {
        self.selected_rows@
    }

    /// Position in the original source of the next source item.
    pub closed spec fn base(&self) -> nat {
        (self.current - self.current_remaining) as nat
    }

    /// The items still to come.
    pub closed spec fn rest(&self) -> Seq<T> {
        self.source().take(self.current_remaining as int) + selected(
            self.source(),
            self.base(),
            self.rows(),
        )
    }

    /// The adapter's internal state is consistent.
    pub closed spec fn wf(&self) -> bool {
        &&& self.current_remaining <= self.current
        &&& self.current_remaining <= self.iter@.len()
        &&& self.base() + self.iter@.len() <= usize::MAX
        &&& valid_selection(self.rows(), self.current as nat, self.base() + self.iter@.len())
        &&& self.total == self.current_remaining + total_rows(self.rows())
    }

    /// Returns the projection of `iter` onto `selected_rows`, or
    /// `Error::InvalidSelection` where the intervals are empty, out of order,
    /// overlapping or reach past the end of `iter`.
    pub fn new(iter: Vec<T>, selected_rows: VecDeque<Interval>) -> (r: Result<Self, Error>)
        ensures
            match r {
                Ok(s) => {
                    &&& valid_selection(selected_rows@, 0, iter@.len())
                    &&& s.wf()
                    &&& s.rest() == selected(iter@, 0, selected_rows@)
                },
                Err(e) => {
                    &&& e == Error::InvalidSelection
                    &&& !valid_selection(selected_rows@, 0, iter@.len())
                },
            },
    {
        let n = iter.len();
        let mut lo: usize = 0;
        let mut total: usize = 0;
        let mut i: usize = 0;
        while i < selected_rows.len()
            invariant
                i <= selected_rows@.len(),
                lo <= n,
                valid_selection(selected_rows@.take(i as int), 0, lo as nat),
                total == total_rows(selected_rows@.take(i as int)),
                total <= lo,
                n == iter@.len(),
                i == 0 ==> lo == 0,
                i > 0 ==> lo == selected_rows@[i - 1].start + selected_rows@[i - 1].length,
            decreases selected_rows@.len() - i,
        {
            let v = selected_rows[i];
            if v.length == 0 || v.start < lo || v.start > n || v.length > n - v.start {
                proof {
                    assert(selected_rows@[i as int] == v);
                    if valid_selection(selected_rows@, 0, n as nat) {
                        if i > 0 {
                            lemma_last_end(selected_rows@, i as int, n as nat);
                        }
                    }
                }
                return Err(Error::InvalidSelection);
            }
            proof {
                lemma_total_rows_push(selected_rows@.take(i as int), v);
                assert(selected_rows@.take(i + 1) =~= selected_rows@.take(i as int).push(v));
            }
            lo = v.start + v.length;
            total = total + v.length;
            i = i + 1;
        }
        assert(selected_rows@.take(i as int) =~= selected_rows@);
        let mut reversed: Vec<T> = Vec::new();
        let mut source = iter;
        let ghost original = source@;
        while source.len() > 0
            invariant
                source@ + reversed@.reverse() == original,
            decreases source@.len(),
        {
            let ghost before = source@;
            let ghost old_rev = reversed@;
            let x = source.pop().unwrap();
            assert(old_rev.push(x).reverse() =~= seq![x] + old_rev.reverse());
            reversed.push(x);
            assert(source@ + reversed@.reverse() =~= before + old_rev.reverse());
        }
        assert(source@.len() == 0);
        assert(reversed@.reverse() =~= original);
        let s = SliceFilteredIter {
            iter: reversed,
            selected_rows,
            total,
            current_remaining: 0,
            current: 0,
        };
        assert(s.source().take(0) =~= Seq::<T>::empty());
        assert(s.rest() =~= selected(original, 0, selected_rows@));
        Ok(s)
    }

    /// Returns the next selected item, or `None` once every interval is done.
    pub fn next(&mut self) -> (r: Option<T>)
        requires
            old(self).wf(),
        ensures
            final(self).wf(),
            old(self).rest().len() == 0 ==> r.is_none() && final(self).rest() == old(self).rest(),
            old(self).rest().len() > 0 ==> r == Some(old(self).rest()[0]) && final(self).rest()
                == old(self).rest().drop_first(),
    {
        let ghost src = self.source();
        let ghost base = self.base();
        let ghost hi = base + self.iter@.len();
        proof {
            lemma_valid_weaken(self.rows(), self.current as nat, base, hi);
            lemma_selected_len(src, base, self.rows());
        }
        if self.current_remaining == 0 {
            let ghost rows = self.rows();
            match self.selected_rows.pop_front() {
                Some(interval) => {
                    proof {
                        assert(rows[0] == interval);
                        lemma_valid_drop_first(rows, self.current as nat, hi);
                        lemma_valid_weaken(
                            rows.drop_first(),
                            (interval.start + interval.length) as nat,
                            (interval.start + 1) as nat,
                            hi,
                        );
                    }
                    let skip = interval.start - self.current;
                    let len = self.iter.len();
                    self.iter.truncate(len - skip);
                    assert(self.iter@.reverse() =~= src.skip(skip as int));
                    let item = self.iter.pop();
                    assert(self.iter@.reverse() =~= src.skip(skip + 1));
                    self.current = interval.start + interval.length;
                    self.current_remaining = interval.length - 1;
                    self.total = self.total - 1;
                    proof {
                        lemma_selected_skip(src, base, rows.drop_first(), (skip + 1) as nat);
                        assert(self.source().take(self.current_remaining as int) =~= src.subrange(
                            skip + 1,
                            skip + interval.length as int,
                        ));
                        assert(self.rest() =~= old(self).rest().drop_first());
                    }
                    item
                },
                None => None,
            }
        } else {
            proof {
                lemma_valid_weaken(self.rows(), self.current as nat, base + 1, hi);
                lemma_selected_skip(src, base, self.rows(), 1);
            }
            self.current_remaining = self.current_remaining - 1;
            self.total = self.total - 1;
            let item = self.iter.pop();
            proof {
                assert(self.iter@.reverse() =~= src.skip(1));
                assert(self.rest() =~= old(self).rest().drop_first());
            }
            item
        }
    }

    /// Returns the number of items still to come, as lower and upper bound.
    pub fn size_hint(&self) -> (r: (usize, Option<usize>))
        requires
            self.wf(),
        ensures
            r == (self.rest().len() as usize, Some(self.rest().len() as usize)),
    {
        proof {
            lemma_valid_weaken(
                self.rows(),
                self.current as nat,
                self.base(),
                self.base() + self.iter@.len(),
            );
            lemma_selected_len(self.source(), self.base(), self.rows());
            lemma_total_rows_bound(self.rows(), self.current as nat, self.base() + self.iter@.len());
        }
        let n = self.iter.len();
        let lower = if n < self.total {
            n
        } else {
            self.total
        };
        (lower, Some(lower))
    }

    /// Returns every selected item still to come, in order.
    pub fn collect_remaining(&mut self) -> (r: Vec<T>)
        requires
            old(self).wf(),
        ensures
            final(self).wf(),
            r@ == old(self).rest(),
            final(self).rest().len() == 0,
    {
        let mut out: Vec<T> = Vec::new();
        proof {
            lemma_rest_len(self);
        }
        while self.total > 0
            invariant
                self.wf(),
                out@ + self.rest() == old(self).rest(),
                self.rest().len() == self.total,
            decreases self.total,
        {
            let v = self.next();
            proof {
                lemma_rest_len(self);
            }
            out.push(v.unwrap());
            assert(out@ + self.rest() =~= old(self).rest());
        }
        assert(out@ =~= old(self).rest());
        out
    }
}

proof fn lemma_rest_len<T>(s: &SliceFilteredIter<T>)
    requires
        s.wf(),
    ensures
        s.rest().len() == s.total,
{
    lemma_valid_weaken(s.rows(), s.current as nat, s.base(), s.base() + s.iter@.len());
    lemma_selected_len(s.source(), s.base(), s.rows());
}

proof fn lemma_valid_weaken(rows: Seq<Interval>, lo: nat, lo2: nat, hi: nat)
    requires
        valid_selection(rows, lo, hi),
        lo2 <= lo,
    ensures
        valid_selection(rows, lo2, hi),
{
}

/// The rows of a valid selection between `lo` and `hi` number at most `hi - lo`.
proof fn lemma_total_rows_bound(rows: Seq<Interval>, lo: nat, hi: nat)
    requires
        valid_selection(rows, lo, hi),
    ensures
        total_rows(rows) + lo <= hi || rows.len() == 0,
        total_rows(rows) <= hi,
    decreases rows.len(),
{
    if rows.len() > 0 {
        lemma_valid_drop_first(rows, lo, hi);
        lemma_total_rows_bound(rows.drop_first(), (rows[0].start + rows[0].length) as nat, hi);
    }
}


proof fn lemma_total_rows_push(rows: Seq<Interval>, v: Interval)
    ensures
        total_rows(rows.push(v)) == total_rows(rows) + v.length,
    decreases rows.len(),
{
    if rows.len() > 0 {
        lemma_total_rows_push(rows.drop_first(), v);
        assert(rows.push(v).drop_first() =~= rows.drop_first().push(v));
        assert(rows.push(v)[0] == rows[0]);
    } else {
        assert(rows.push(v).drop_first() =~= Seq::<Interval>::empty());
        assert(total_rows(rows.push(v).drop_first()) == 0);
        assert(total_rows(rows) == 0);
    }
}

proof fn lemma_last_end(rows: Seq<Interval>, i: int, hi: nat)
    requires
        valid_selection(rows, 0, hi),
        0 < i < rows.len(),
    ensures
        rows[i - 1].start + rows[i - 1].length <= rows[i].start,
{
}

} // verus!
