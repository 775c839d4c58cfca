//! The collector: the one place where the statistics of all resamples come
//! together. It only grows, and the order of its values means nothing.
use vstd::prelude::*;

verus! {

/// The values collected so far.
pub struct Distribution<O> {
    values: Vec<O>,
}

impl<O> View for Distribution<O> {
    type V = Seq<O>;

    closed spec fn view(&self) -> Seq<O> {
        self.values@
    }
}

impl<O> Distribution<O> {
    /// A collector that holds nothing.
    pub fn new() -> (distribution: Self)
        ensures
            distribution@ == Seq::<O>::empty(),
    {
        Distribution { values: Vec::new() }
    }

    /// How many values have been collected.
    pub fn len(&self) -> (len: usize)
        ensures
            len == self@.len(),
    {
        self.values.len()
    }

    /// Adds one value. What was collected before stays as it was.
    pub fn append(&mut self, value: O)
        ensures
            final(self)@ == old(self)@.push(value),
    {
        self.values.push(value);
    }

    /// Adds all the values of one worker. Each comes in once, and what was
    /// collected before stays as it was.
    pub fn absorb(&mut self, batch: Vec<O>)
        ensures
            final(self)@ == old(self)@ + batch@,
    {
        let mut batch = batch;
        self.values.append(&mut batch);
    }

    /// Hands the collected values over.
    pub fn into_values(self) -> (values: Vec<O>)
        ensures
            values@ == self@,
    {
        self.values
    }
}

} // verus!
