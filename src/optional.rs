//! Merging of a validity sequence with the sequence of the values that are
//! present, into a sequence of optional values.
use std::collections::VecDeque;
use vstd::prelude::*;

verus! {

/// Number of `true` entries of `validity`.
pub open spec fn count_valid(validity: Seq<bool>) -> nat
    decreases validity.len(),
{
    if validity.len() == 0 {
        0
    } else {
        (if validity[0] { 1nat } else { 0nat }) + count_valid(validity.drop_first())
    }
}

/// The optional values that `validity` and `values` describe: for each entry
/// of `validity`, the next unused value where it is `true` (`None` once
/// `values` is used up), and `None` where it is `false`.
pub open spec fn merged<T>(validity: Seq<bool>, values: Seq<T>) -> Seq<Option<T>>
    decreases validity.len(),
{
    if validity.len() == 0 {
        Seq::empty()
    } else if validity[0] {
        if values.len() > 0 {
            seq![Some(values[0])] + merged(validity.drop_first(), values.drop_first())
        } else {
            seq![None] + merged(validity.drop_first(), values)
        }
    } else {
        seq![None] + merged(validity.drop_first(), values)
    }
}

/// There are as many optional values as validity entries; entry `i` holds,
/// where `validity[i]` is `true`, the value that follows the ones taken by the
/// `true` entries before it, and `None` elsewhere.
pub proof fn lemma_merged<T>(validity: Seq<bool>, values: Seq<T>)
    requires
        count_valid(validity) <= values.len(),
    ensures
        merged(validity, values).len() == validity.len(),
        forall|i: int|
            0 <= i < validity.len() ==> #[trigger] merged(validity, values)[i] == if validity[i] {
                Some(values[count_valid(validity.take(i)) as int])
            } else {
                None
            },
    decreases validity.len(),
{
    if validity.len() > 0 {
        let rest_validity = validity.drop_first();
        let rest_values = if validity[0] { values.drop_first() } else { values };
        lemma_merged(rest_validity, rest_values);
        assert forall|i: int| 0 <= i < validity.len() implies #[trigger] merged(validity, values)[i]
            == if validity[i] {
            Some(values[count_valid(validity.take(i)) as int])
        } else {
            None
        } by {
            if i > 0 {
                assert(validity.take(i).drop_first() =~= rest_validity.take(i - 1));
                assert(validity.take(i)[0] == validity[0]);
                lemma_count_valid_prefix(rest_validity, i - 1);
            } else {
                assert(validity.take(0) =~= Seq::<bool>::empty());
            }
        }
    }
}

proof fn lemma_count_valid_prefix(validity: Seq<bool>, i: int)
    requires
        0 <= i <= validity.len(),
    ensures
        count_valid(validity.take(i)) <= count_valid(validity),
        i < validity.len() && validity[i] ==> count_valid(validity.take(i)) < count_valid(validity),
    decreases validity.len(),
{
    if i > 0 {
        lemma_count_valid_prefix(validity.drop_first(), i - 1);
        assert(validity.take(i).drop_first() =~= validity.drop_first().take(i - 1));
    } else {
        assert(validity.take(0) =~= Seq::<bool>::empty());
        if validity.len() > 0 && validity[0] {
        }
    }
}

/// Iterator adapter that turns a validity sequence and the sequence of the
/// values present into a sequence of optional values.
pub struct OptionalValues<T> {
    validity: VecDeque<bool>,
    values: VecDeque<T>,
}

impl<T> OptionalValues<T> {
    /// The validity entries still to be read.
    pub closed spec fn validity(&self) -> Seq<bool> {
        self.validity@
    }

    /// The values still to be handed out.
    pub closed spec fn values(&self) -> Seq<T> {
        self.values@
    }

    /// The optional values still to come.
    pub open spec fn rest(&self) -> Seq<Option<T>> {
        merged(self.validity(), self.values())
    }

    /// Returns the adapter over `validity` and `values`.
    pub fn new(validity: VecDeque<bool>, values: VecDeque<T>) -> (r: Self)
        ensures
            r.validity() == validity@,
            r.values() == values@,
            r.rest() == merged(validity@, values@),
    {
        OptionalValues { validity, values }
    }

    /// Returns the next optional value, or `None` once validity is exhausted.
    pub fn next(&mut self) -> (r: Option<Option<T>>)
        ensures
            old(self).rest().len() == 0 ==> r.is_none(),
            old(self).rest().len() > 0 ==> r == Some(old(self).rest()[0]),
            final(self).rest() == if old(self).rest().len() == 0 {
                old(self).rest()
            } else {
                old(self).rest().drop_first()
            },
            final(self).validity() == if old(self).validity().len() == 0 {
                old(self).validity()
            } else {
                old(self).validity().drop_first()
            },
    {
        proof {
            lemma_merged_len(self.validity@, self.values@);
        }
        match self.validity.pop_front() {
            Some(valid) => {
                if valid {
                    Some(self.values.pop_front())
                } else {
                    Some(None)
                }
            },
            None => None,
        }
    }

    /// Returns the number of optional values still to come, as lower and upper bound.
    pub fn size_hint(&self) -> (r: (usize, Option<usize>))
        ensures
            r == (self.rest().len() as usize, Some(self.rest().len() as usize)),
    {
        proof {
            lemma_merged_len(self.validity@, self.values@);
        }
        (self.validity.len(), Some(self.validity.len()))
    }

    /// Returns every optional value still to come, in order.
    pub fn collect_remaining(&mut self) -> (r: Vec<Option<T>>)
        ensures
            r@ == old(self).rest(),
            r@.len() == old(self).validity().len(),
            final(self).rest().len() == 0,
    {
        proof {
            lemma_merged_len(self.validity@, self.values@);
        }
        let mut out: Vec<Option<T>> = Vec::new();
        while self.validity.len() > 0
            invariant
                out@ + self.rest() == old(self).rest(),
                self.rest().len() == self.validity().len(),
            decreases self.validity@.len(),
        {
            let v = self.next();
            proof {
                lemma_merged_len(self.validity@, self.values@);
            }
            match v {
                Some(x) => out.push(x),
                None => {},
            }
            assert(out@ + self.rest() =~= old(self).rest());
        }
        assert(out@ =~= old(self).rest());
        out
    }
}

/// There are as many optional values as validity entries.
proof fn lemma_merged_len<T>(validity: Seq<bool>, values: Seq<T>)
    ensures
        merged(validity, values).len() == validity.len(),
    decreases validity.len(),
{
    if validity.len() > 0 {
        if validity[0] && values.len() > 0 {
            lemma_merged_len(validity.drop_first(), values.drop_first());
        } else {
            lemma_merged_len(validity.drop_first(), values);
        }
    }
}

} // verus!
