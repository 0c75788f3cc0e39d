//! Dependencies as declared in a vendor spec, and the locked form that
//! records the concrete reference a job resolved.

use crate::filters::{concat_filters, empty_filters, Filters, FiltersView};
use crate::preset::Preset;
use vstd::prelude::*;

verus! {

/// Mathematical model of a [`Dependency`].
#[verifier::ext_equal]
pub ghost struct DependencyView {
    pub url: Seq<char>,
    pub refname: Seq<char>,
    pub filters: FiltersView,
}

/// One external source: its remote identity, the desired reference
/// expression, and filter overrides added to the spec-level defaults.
#[derive(Debug, Clone, PartialEq, Eq)]
pub struct Dependency {
    pub url: String,
    pub refname: String,
    pub filters: Filters,
}

impl View for Dependency {
    type V = DependencyView;

    open spec fn view(&self) -> DependencyView {
        DependencyView { url: self.url@, refname: self.refname@, filters: self.filters@ }
    }
}

impl DeepView for Dependency {
    type V = DependencyView;

    open spec fn deep_view(&self) -> DependencyView {
        self@
    }
}

/// Mathematical model of a [`LockedDependency`].
#[verifier::ext_equal]
pub ghost struct LockedDependencyView {
    pub url: Seq<char>,
    pub refname: Seq<char>,
}

/// The record a successful job produces: the remote identity together with
/// the concrete reference that was actually checked out.
#[derive(Debug, Clone, PartialEq, Eq)]
pub struct LockedDependency {
    pub url: String,
    pub refname: String,
}

impl View for LockedDependency {
    type V = LockedDependencyView;

    open spec fn view(&self) -> LockedDependencyView {
        LockedDependencyView { url: self.url@, refname: self.refname@ }
    }
}

impl DeepView for LockedDependency {
    type V = LockedDependencyView;

    open spec fn deep_view(&self) -> LockedDependencyView {
        self@
    }
}

impl Dependency {
    /// A dependency with no filter overrides of its own.
    pub fn new(url: &str, refname: &str) -> (r: Dependency)
        ensures
            r@.url == url@,
            r@.refname == refname@,
            r@.filters == empty_filters(),
    {
        Dependency { url: url.to_owned(), refname: refname.to_owned(), filters: Filters::new() }
    }

    /// The lock record for this dependency under the given concrete reference.
    pub fn to_locked_dependency(&self, refname: &str) -> (r: LockedDependency)
        ensures
            r@.url == self@.url,
            r@.refname == refname@,
    {
        LockedDependency::new(self.url.as_str(), refname)
    }

    /// Takes the reference and filters of `other`, keeping the identity.
    pub fn update_from(&mut self, other: &Dependency)
        ensures
            final(self)@.url == old(self)@.url,
            final(self)@.refname == other@.refname,
            final(self)@.filters == other@.filters,
    {
        self.refname = other.refname.clone();
        self.filters = other.filters.duplicate();
    }

    /// Merges a preset's filters into this dependency's; a forcing preset
    /// first discards the dependency's own filters.
    pub fn apply_preset(&mut self, preset: &Preset)
        ensures
            final(self)@.url == old(self)@.url,
            final(self)@.refname == old(self)@.refname,
            final(self)@.filters == concat_filters(
                if preset.force_filters {
                    empty_filters()
                } else {
                    old(self)@.filters
                },
                preset.filters@,
            ),
    {
        let extra = preset.dependency_filters(self);
        if preset.force_filters {
            self.filters.clear();
        }
        self.filters.merge(&extra);
        proof {
            assert(self@.filters =~= concat_filters(
                if preset.force_filters {
                    empty_filters()
                } else {
                    old(self)@.filters
                },
                preset.filters@,
            ));
        }
    }

    /// An element-by-element copy.
    pub fn duplicate(&self) -> (r: Dependency)
        ensures
            r@ == self@,
    {
        let r = Dependency {
            url: self.url.clone(),
            refname: self.refname.clone(),
            filters: self.filters.duplicate(),
        };
        proof {
            assert(r@ =~= self@);
        }
        r
    }
}

impl LockedDependency {
    /// A lock record for the given identity and concrete reference.
    pub fn new(url: &str, refname: &str) -> (r: LockedDependency)
        ensures
            r@.url == url@,
            r@.refname == refname@,
    {
        LockedDependency { url: url.to_owned(), refname: refname.to_owned() }
    }

    /// An element-by-element copy.
    pub fn duplicate(&self) -> (r: LockedDependency)
        ensures
            r@ == self@,
    {
        let r = LockedDependency { url: self.url.clone(), refname: self.refname.clone() };
        proof {
            assert(r@ =~= self@);
        }
        r
    }
}

} // verus!
