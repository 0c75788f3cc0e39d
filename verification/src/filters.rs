//! Pattern lists that decide which files of a working copy are vendored:
//! path-prefix targets, path-prefix ignores, and file extensions.

use vstd::prelude::*;

verus! {

/// Mathematical model of a [`Filters`] value.
#[verifier::ext_equal]
pub ghost struct FiltersView {
    pub targets: Seq<Seq<char>>,
    pub ignores: Seq<Seq<char>>,
    pub extensions: Seq<Seq<char>>,
}

/// Three pattern lists; a path is vendored when it matches a target prefix,
/// matches no ignore prefix, and carries an allowed extension.
#[derive(Debug, Clone, PartialEq, Eq)]
pub struct Filters {
    pub targets: Vec<String>,
    pub ignores: Vec<String>,
    pub extensions: Vec<String>,
}

impl View for Filters {
    type V = FiltersView;

    open spec fn view(&self) -> FiltersView {
        FiltersView {
            targets: self.targets.deep_view(),
            ignores: self.ignores.deep_view(),
            extensions: self.extensions.deep_view(),
        }
    }
}

/// The union of two filter sets: the patterns of `a` followed by those of `b`.
pub open spec fn concat_filters(a: FiltersView, b: FiltersView) -> FiltersView {
    FiltersView {
        targets: a.targets + b.targets,
        ignores: a.ignores + b.ignores,
        extensions: a.extensions + b.extensions,
    }
}

/// The model of a filter set with no patterns at all.
pub open spec fn empty_filters() -> FiltersView {
    FiltersView {
        targets: Seq::empty(),
        ignores: Seq::empty(),
        extensions: Seq::empty(),
    }
}

/// Appends the views of `items` to `dst`'s elementwise view.
fn push_all(dst: &mut Vec<String>, items: &Vec<String>)
    ensures
        final(dst).deep_view() == old(dst).deep_view() + items.deep_view(),
{
    let ghost orig = dst.deep_view();
    let ghost dlen0 = dst@.len() as int;
    let mut i: usize = 0;
    while i < items.len()
        invariant
            i <= items.len(),
            dst@.len() == dlen0 + i,
            orig.len() == dlen0,
            forall|k: int| 0 <= k < dlen0 ==> dst@[k]@ == orig[k],
            forall|k: int| 0 <= k < i ==> dst@[dlen0 + k]@ == items.deep_view()[k],
        decreases items.len() - i,
    {
        let item = items[i].clone();
        proof {
            assert(item@ == items.deep_view()[i as int]);
        }
        dst.push(item);
        i += 1;
    }
    proof {
        assert(dst.deep_view() =~= orig + items.deep_view());
    }
}

impl Filters {
    /// A filter set with no patterns; nothing is targeted by it.
    pub fn new() -> (r: Filters)
        ensures
            r@ == empty_filters(),
    {
        let r = Filters { targets: Vec::new(), ignores: Vec::new(), extensions: Vec::new() };
        proof {
            assert(r@ =~= empty_filters());
        }
        r
    }

    /// Appends target patterns.
    pub fn add_targets(&mut self, items: &Vec<String>)
        ensures
            final(self)@.targets == old(self)@.targets + items.deep_view(),
            final(self)@.ignores == old(self)@.ignores,
            final(self)@.extensions == old(self)@.extensions,
    {
        push_all(&mut self.targets, items);
    }

    /// Appends ignore patterns.
    pub fn add_ignores(&mut self, items: &Vec<String>)
        ensures
            final(self)@.ignores == old(self)@.ignores + items.deep_view(),
            final(self)@.targets == old(self)@.targets,
            final(self)@.extensions == old(self)@.extensions,
    {
        push_all(&mut self.ignores, items);
    }

    /// Appends extension patterns.
    pub fn add_extensions(&mut self, items: &Vec<String>)
        ensures
            final(self)@.extensions == old(self)@.extensions + items.deep_view(),
            final(self)@.targets == old(self)@.targets,
            final(self)@.ignores == old(self)@.ignores,
    {
        push_all(&mut self.extensions, items);
    }

    /// Removes every pattern.
    pub fn clear(&mut self)
        ensures
            final(self)@ == empty_filters(),
    {
        self.targets.clear();
        self.ignores.clear();
        self.extensions.clear();
        proof {
            assert(self@ =~= empty_filters());
        }
    }

    /// Appends every pattern of `other`; a pattern can be added, never removed.
    pub fn merge(&mut self, other: &Filters)
        ensures
            final(self)@.targets == old(self)@.targets + other@.targets,
            final(self)@.ignores == old(self)@.ignores + other@.ignores,
            final(self)@.extensions == old(self)@.extensions + other@.extensions,
    {
        push_all(&mut self.targets, &other.targets);
        push_all(&mut self.ignores, &other.ignores);
        push_all(&mut self.extensions, &other.extensions);
    }

    /// An element-by-element copy.
    pub fn duplicate(&self) -> (r: Filters)
        ensures
            r@ == self@,
    {
        let mut r = Filters::new();
        r.merge(self);
        proof {
            assert(r@ =~= self@);
        }
        r
    }
}

} // verus!
