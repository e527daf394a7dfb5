//! The values of a map handed out to be changed in place.

use super::IntervalMap;
use crate::interval::Interval;
use vstd::prelude::*;

verus! {

impl<K, V> IntervalMap<K, V> {
    /// The values of all entries, each to be changed in place, in the
    /// ascending order of their ranges. The ranges stay as they are.
    pub fn values_mut(&mut self) -> (r: Vec<&mut V>)
        ensures
            r@.len() == old(self)@.len(),
            final(self)@.len() == old(self)@.len(),
            forall|i: int| 0 <= i < r@.len() ==> *(#[trigger] r@[i]) == old(self)@[i].1,
            forall|i: int|
                0 <= i < r@.len() ==> #[trigger] final(self)@[i] == (
                    old(self)@[i].0,
                    *final(r@[i]),
                ),
    {
        values_of(self.sorted_vec.as_mut_slice())
    }

    /// All entries in ascending order, each with its range to be read and
    /// its value to be changed in place.
    pub fn iter_mut(&mut self) -> (r: Vec<(&Interval<K>, &mut V)>)
        ensures
            r@.len() == old(self)@.len(),
            final(self)@.len() == old(self)@.len(),
            forall|i: int|
                0 <= i < r@.len() ==> *(#[trigger] r@[i]).0 == old(self)@[i].0 && *r@[i].1
                    == old(self)@[i].1,
            forall|i: int|
                0 <= i < r@.len() ==> #[trigger] final(self)@[i] == (
                    old(self)@[i].0,
                    *final(r@[i].1),
                ),
    {
        pairs_of(self.sorted_vec.as_mut_slice())
    }
}

/// The values of the entries of a slice, each to be changed in place.
fn values_of<'a, K, V>(slice: &'a mut [(Interval<K>, V)]) -> (r: Vec<&'a mut V>)
    ensures
        r@.len() == old(slice)@.len(),
        final(slice)@.len() == old(slice)@.len(),
        forall|i: int| 0 <= i < r@.len() ==> *(#[trigger] r@[i]) == old(slice)@[i].1,
        forall|i: int|
            0 <= i < r@.len() ==> #[trigger] final(slice)@[i] == (
                old(slice)@[i].0,
                *final(r@[i]),
            ),
{
    let ghost given = slice@;
    let ghost fin = final(slice)@;
    let ghost mut settled: Seq<(Interval<K>, V)> = final(slice)@.take(0);
    let mut out: Vec<&mut V> = Vec::new();
    let mut rest: &mut [(Interval<K>, V)] = slice;
    assert(fin =~= settled + final(rest)@);
    assert(rest@ =~= given.skip(0));
    while rest.len() > 0
        invariant
            out@.len() + rest@.len() == given.len(),
            rest@ == given.skip(out@.len() as int),
            settled.len() == out@.len(),
            fin == settled + final(rest)@,
            forall|i: int| 0 <= i < out@.len() ==> *(#[trigger] out@[i]) == given[i].1,
            forall|i: int|
                0 <= i < out@.len() ==> #[trigger] settled[i] == (given[i].0, *final(out@[i])),
        decreases rest@.len(),
    {
        let ghost n = out@.len() as int;
        let ghost before = settled;
        let ghost remaining = rest@;
        let whole = rest;
        let (head, tail) = whole.split_at_mut(1);
        let ghost head_fin = final(head)@;
        let ghost tail_fin = final(tail)@;
        let first = head.first_mut().unwrap();
        let value = &mut first.1;
        proof {
            assert(remaining[0] == given[n]);
            settled = settled.push((given[n].0, *final(value)));
            assert(tail@ =~= given.skip(n + 1));
            assert(head_fin =~= seq![(given[n].0, *final(value))]);
            assert(before + (head_fin + tail_fin) =~= settled + tail_fin);
        }
        out.push(value);
        rest = tail;
    }
    assert(final(rest)@ =~= Seq::empty());
    assert(fin =~= settled);
    out
}

/// The entries of a slice, each with its range to be read and its value
/// to be changed in place.
pub(super) fn pairs_of<'a, K, V>(slice: &'a mut [(Interval<K>, V)]) -> (r: Vec<
    (&'a Interval<K>, &'a mut V),
>)
    ensures
        r@.len() == old(slice)@.len(),
        final(slice)@.len() == old(slice)@.len(),
        forall|i: int|
            0 <= i < r@.len() ==> *(#[trigger] r@[i]).0 == old(slice)@[i].0 && *r@[i].1
                == old(slice)@[i].1,
        forall|i: int|
            0 <= i < r@.len() ==> #[trigger] final(slice)@[i] == (
                old(slice)@[i].0,
                *final(r@[i].1),
            ),
{
    let ghost given = slice@;
    let ghost fin = final(slice)@;
    let ghost mut settled: Seq<(Interval<K>, V)> = final(slice)@.take(0);
    let mut out: Vec<(&Interval<K>, &mut V)> = Vec::new();
    let mut rest: &mut [(Interval<K>, V)] = slice;
    assert(fin =~= settled + final(rest)@);
    assert(rest@ =~= given.skip(0));
    while rest.len() > 0
        invariant
            out@.len() + rest@.len() == given.len(),
            rest@ == given.skip(out@.len() as int),
            settled.len() == out@.len(),
            fin == settled + final(rest)@,
            forall|i: int|
                0 <= i < out@.len() ==> *(#[trigger] out@[i]).0 == given[i].0 && *out@[i].1
                    == given[i].1,
            forall|i: int|
                0 <= i < out@.len() ==> #[trigger] settled[i] == (given[i].0, *final(out@[i].1)),
        decreases rest@.len(),
    {
        let ghost n = out@.len() as int;
        let ghost before = settled;
        let ghost remaining = rest@;
        let whole = rest;
        let (head, tail) = whole.split_at_mut(1);
        let ghost head_fin = final(head)@;
        let ghost tail_fin = final(tail)@;
        let first = head.first_mut().unwrap();
        let range = &first.0;
        let value = &mut first.1;
        proof {
            assert(remaining[0] == given[n]);
            settled = settled.push((given[n].0, *final(value)));
            assert(tail@ =~= given.skip(n + 1));
            assert(head_fin =~= seq![(given[n].0, *final(value))]);
            assert(before + (head_fin + tail_fin) =~= settled + tail_fin);
        }
        out.push((range, value));
        rest = tail;
    }
    assert(final(rest)@ =~= Seq::empty());
    assert(fin =~= settled);
    out
}

} // verus!
