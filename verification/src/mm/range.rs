//! Half-open ranges of steppable values (page numbers) and their iterators.
use vstd::prelude::*;
use vstd::std_specs::cmp::PartialOrdIs;
use vstd::std_specs::cmp::PartialOrdSpec;

use super::address::VirtPageNum;

verus! {

/// A value that can move to its successor.
pub trait StepOne: Sized {
    /// The successor exists.
    spec fn step_req(&self) -> bool;

    /// The successor.
    spec fn stepped(&self) -> Self;

    fn step(&mut self)
        requires
            old(self).step_req(),
        ensures
            *final(self) == old(self).stepped(),
    ;
}

impl StepOne for VirtPageNum {
    open spec fn step_req(&self) -> bool {
        self.0 < usize::MAX
    }

    open spec fn stepped(&self) -> Self {
        VirtPageNum((self.0 + 1) as usize)
    }

    fn step(&mut self) {
        self.0 += 1;
    }
}

/// The values from `l` (included) to `r` (excluded).
#[derive(Clone, Copy)]
pub struct SimpleRange<T> where T: StepOne + Copy + PartialEq + PartialOrd {
    l: T,
    r: T,
}

impl<T> SimpleRange<T> where T: StepOne + Copy + PartialEq + PartialOrd {
    pub closed spec fn start(&self) -> T {
        self.l
    }

    pub closed spec fn end(&self) -> T {
        self.r
    }

    /// The range from `start` to `end`, which must not lie below `start`.
    pub fn new(start: T, end: T) -> (r: Self)
        requires
            start.is_le(&end),
        ensures
            r.start() == start,
            r.end() == end,
    {
        Self { l: start, r: end }
    }

    pub fn get_start(&self) -> (r: T)
        ensures
            r == self.start(),
    {
        self.l
    }

    pub fn get_end(&self) -> (r: T)
        ensures
            r == self.end(),
    {
        self.r
    }

    /// An iterator over the values of the range, from its start.
    pub fn iter(&self) -> (it: SimpleRangeIterator<T>)
        ensures
            it.current() == self.start(),
            it.end() == self.end(),
    {
        SimpleRangeIterator { cur: self.l, end: self.r }
    }
}

/// Walks a range: `cur` is the next value to hand out, `end` the end of the range.
pub struct SimpleRangeIterator<T> where T: StepOne + Copy + PartialEq + PartialOrd {
    cur: T,
    end: T,
}

impl<T> SimpleRangeIterator<T> where T: StepOne + Copy + PartialEq + PartialOrd {
    pub closed spec fn current(&self) -> T {
        self.cur
    }

    pub closed spec fn end(&self) -> T {
        self.end
    }

    /// The next value, or `None` once the end is reached.
    pub fn next(&mut self) -> (r: Option<T>)
        requires
            T::obeys_partial_cmp_spec(),
            old(self).current().is_lt(&old(self).end()) ==> old(self).current().step_req(),
        ensures
            final(self).end() == old(self).end(),
            old(self).current().is_lt(&old(self).end()) ==> r == Some(old(self).current())
                && final(self).current() == old(self).current().stepped(),
            !old(self).current().is_lt(&old(self).end()) ==> r is None && final(self).current() == old(self).current(),
    {
        if self.cur < self.end {
            let item = self.cur;
            self.cur.step();
            Some(item)
        } else {
            None
        }
    }
}

/// A range of virtual pages.
pub type VPNRange = SimpleRange<VirtPageNum>;

} // verus!
