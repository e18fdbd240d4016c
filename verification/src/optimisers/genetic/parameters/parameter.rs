use vstd::prelude::*;

verus! {

/// A parameter that keeps its value in every generation.
pub struct ConstParameter<T: Clone> {
    value: T,
}

impl<T: Clone> ConstParameter<T> {
    /// A parameter that always takes `value`.
    pub fn new(value: T) -> (r: Self)
        ensures
            r.value() == value,
    {
        ConstParameter { value }
    }

    /// The value the parameter keeps.
    pub closed spec fn value(&self) -> T {
        self.value
    }

    /// The value for the first generation.
    pub fn initial(&self) -> (r: T)
        ensures
            cloned::<T>(self.value(), r),
    {
        self.value.clone()
    }

    /// The value for the next generation, whatever the population.
    pub fn next<P>(&self, population: &P) -> (r: T)
        ensures
            cloned::<T>(self.value(), r),
    {
        self.value.clone()
    }
}

} // verus!
