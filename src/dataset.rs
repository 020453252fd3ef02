//! Descriptions of the reference data sets used to exercise the library: a
//! name, and the numbers of prefixes and of ranges that the set of its
//! entries holds.
use vstd::prelude::*;

verus! {

/// A named data set of items of type `T`, with the numbers of prefixes and
/// ranges expected of the set built from it.
pub struct DataSet<T> {
    name: &'static str,
    prefixes: usize,
    ranges: usize,
    kind: core::marker::PhantomData<T>,
}

/// Describe a data set.
pub fn data_set<T>(name: &'static str, prefixes: usize, ranges: usize) -> (r: DataSet<T>)
    ensures
        r.spec_name() == name@,
        r.spec_prefixes() == prefixes,
        r.spec_ranges() == ranges,
{
    DataSet { name, prefixes, ranges, kind: core::marker::PhantomData }
}

impl<T> DataSet<T> {
    pub closed spec fn spec_name(&self) -> Seq<char> {
        self.name@
    }

    pub closed spec fn spec_prefixes(&self) -> usize {
        self.prefixes
    }

    pub closed spec fn spec_ranges(&self) -> usize {
        self.ranges
    }

    /// The name of the data set.
    pub fn name(&self) -> (r: &str)
        ensures
            r@ == self.spec_name(),
    {
        self.name
    }

    /// The number of prefixes the set built from the data holds.
    pub fn prefixes(&self) -> (r: usize)
        ensures
            r == self.spec_prefixes(),
    {
        self.prefixes
    }

    /// The number of ranges the set built from the data holds.
    pub fn ranges(&self) -> (r: usize)
        ensures
            r == self.spec_ranges(),
    {
        self.ranges
    }
}

} // verus!
