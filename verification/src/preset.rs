//! A preset: a ready-made filter configuration that can be applied to a
//! dependency, either merged into its own filters or replacing them.

use crate::deps::Dependency;
use crate::filters::Filters;
use vstd::prelude::*;

verus! {

/// Ready-made filters for dependencies, with a flag that decides whether a
/// dependency's own filters are discarded before the preset's are merged in.
pub struct Preset {
    pub force_filters: bool,
    pub filters: Filters,
}

impl Preset {
    /// A preset carrying the given filters.
    pub fn new(force_filters: bool, filters: Filters) -> (r: Preset)
        ensures
            r.force_filters == force_filters,
            r.filters@ == filters@,
    {
        Preset { force_filters, filters }
    }

    /// The filter patterns this preset contributes to a dependency.
    pub fn dependency_filters(&self, _dep: &Dependency) -> (r: Filters)
        ensures
            r@ == self.filters@,
    {
        self.filters.duplicate()
    }
}

} // verus!
