//! A value that is cut in two by a function of the caller's choice.

use vstd::prelude::*;

verus! {

/// Some data together with the function that cuts it in two and the function
/// that measures it.
#[verifier::reject_recursive_types(D)]
pub struct Split<D, S, L> where S: Fn(D) -> (D, D) + Copy, L: Fn(&D) -> usize + Copy {
    pub data: D,
    pub splitter: S,
    pub length: L,
}

impl<D, S, L> Split<D, S, L> where S: Fn(D) -> (D, D) + Copy, L: Fn(&D) -> usize + Copy {
    /// The size of the data, as the measuring function gives it.
    pub fn base_length(&self) -> (r: Option<usize>)
        requires
            call_requires(self.length, (&self.data,)),
        ensures
            r matches Some(n) && call_ensures(self.length, (&self.data,), n),
    {
        Some((self.length)(&self.data))
    }

    /// Cuts the data with the splitter. The two parts keep the splitter and
    /// the measuring function. The index is not looked at: the splitter
    /// alone decides where the cut falls.
    pub fn divide_at(self, index: usize) -> (r: (Self, Self))
        requires
            call_requires(self.splitter, (self.data,)),
        ensures
            call_ensures(self.splitter, (self.data,), (r.0.data, r.1.data)),
            r.0.splitter == self.splitter,
            r.1.splitter == self.splitter,
            r.0.length == self.length,
            r.1.length == self.length,
    {
        let (d1, d2) = (self.splitter)(self.data);
        (
            Split { data: d1, splitter: self.splitter, length: self.length },
            Split { data: d2, splitter: self.splitter, length: self.length },
        )
    }

    /// Gives the data up as it is, to be worked on without further cuts.
    pub fn to_sequential(self) -> (r: D)
        ensures
            r == self.data,
    {
        self.data
    }
}

/// Packs data with its splitter and its measuring function.
pub fn split<D, S, L>(data: D, splitter: S, length: L) -> (r: Split<D, S, L>) where
    S: Fn(D) -> (D, D) + Copy,
    L: Fn(&D) -> usize + Copy,

    ensures
        r.data == data,
        r.splitter == splitter,
        r.length == length,
{
    Split { data: data, splitter: splitter, length: length }
}

} // verus!
