//! The vendor spec: destination path, default filters, and the declared
//! dependencies; read-only for the duration of a run.

use crate::deps::{Dependency, DependencyView};
use crate::filters::{Filters, FiltersView};
use vstd::prelude::*;

verus! {

/// Mathematical model of a [`VendorSpec`].
#[verifier::ext_equal]
pub ghost struct VendorSpecView {
    pub vendor: Seq<char>,
    pub filters: FiltersView,
    pub deps: Seq<DependencyView>,
}

/// The configuration a run works from: where to vendor into, the default
/// filter patterns, and the dependencies to vendor.
#[derive(Debug)]
pub struct VendorSpec {
    pub vendor: String,
    pub filters: Filters,
    pub deps: Vec<Dependency>,
}

impl View for VendorSpec {
    type V = VendorSpecView;

    open spec fn view(&self) -> VendorSpecView {
        VendorSpecView {
            vendor: self.vendor@,
            filters: self.filters@,
            deps: self.deps.deep_view(),
        }
    }
}

impl VendorSpec {
    /// A spec with the given destination, default filters and dependencies.
    pub fn new(vendor: &str, filters: Filters, deps: Vec<Dependency>) -> (r: VendorSpec)
        ensures
            r@.vendor == vendor@,
            r@.filters == filters@,
            r@.deps == deps.deep_view(),
    {
        VendorSpec { vendor: vendor.to_owned(), filters, deps }
    }
}

} // verus!
