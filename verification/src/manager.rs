//! One dependency's install or update: which reference to check out, which
//! version-control steps to drive the cache through, and which of the
//! working copy's files to copy.

use crate::deps::{Dependency, DependencyView, LockedDependency, LockedDependencyView};
use crate::filters::{Filters, FiltersView};
use crate::text::{ci_equal, eq_ignore_ascii_case, extension_of, path_has_prefix, path_matcher, spec_extension};
use crate::vendor_spec::VendorSpec;
use vstd::prelude::*;

verus! {

/// One step a job asks the version-control cache to perform, in order.
#[derive(Debug)]
pub enum VcsOp {
    /// Guarantee a usable working copy (clone if absent).
    Ensure,
    /// Update remote-tracking state for the reference, leaving files alone.
    Fetch(String),
    /// Forcibly move the working copy to the reference.
    Reset(String),
    /// Move the working copy to the reference.
    Checkout(String),
}

/// What the filter matcher decides for one discovered file.
#[derive(Debug, Clone, Copy, PartialEq, Eq, Structural)]
pub enum FileDecision {
    /// An ignore pattern matched; checked before anything else.
    Ignored,
    /// No target pattern matched.
    NotTarget,
    /// The path has no extension, or none of the allowed ones.
    WrongExtension,
    /// The file is copied.
    Copy,
}

/// Whether some pattern of `pats` is a component-wise prefix of `path`.
pub open spec fn matches_any(pats: Seq<Seq<char>>, path: Seq<char>) -> bool {
    exists|k: int| 0 <= k < pats.len() && path_has_prefix(path, pats[k])
}

/// Whether some pattern of `pats` equals `ext` up to ASCII case.
pub open spec fn ext_matches_any(pats: Seq<Seq<char>>, ext: Seq<char>) -> bool {
    exists|k: int| 0 <= k < pats.len() && ci_equal(ext, pats[k])
}

/// An ignore pattern (spec-level or dependency-level) prefixes `path`.
pub open spec fn is_ignored_spec(sf: FiltersView, df: FiltersView, path: Seq<char>) -> bool {
    matches_any(sf.ignores + df.ignores, path)
}

/// A target pattern (spec-level or dependency-level) prefixes `path`; with
/// no target patterns configured anywhere this is false for every path.
pub open spec fn is_target_spec(sf: FiltersView, df: FiltersView, path: Seq<char>) -> bool {
    matches_any(sf.targets + df.targets, path)
}

/// `path` has an extension and it is allowed, compared case-insensitively;
/// extensionless paths are never allowed.
pub open spec fn ext_allowed_spec(sf: FiltersView, df: FiltersView, path: Seq<char>) -> bool {
    match spec_extension(path) {
        None => false,
        Some(e) => ext_matches_any(sf.extensions + df.extensions, e),
    }
}

/// A path is copied exactly when it is not ignored, is targeted, and has an
/// allowed extension.
pub open spec fn eligible_spec(sf: FiltersView, df: FiltersView, path: Seq<char>) -> bool {
    &&& !is_ignored_spec(sf, df, path)
    &&& is_target_spec(sf, df, path)
    &&& ext_allowed_spec(sf, df, path)
}

/// The matcher's decision for `path`, ignores first, then targeting, then
/// the extension.
pub open spec fn classify_spec(sf: FiltersView, df: FiltersView, path: Seq<char>) -> FileDecision {
    if is_ignored_spec(sf, df, path) {
        FileDecision::Ignored
    } else if !is_target_spec(sf, df, path) {
        FileDecision::NotTarget
    } else if !ext_allowed_spec(sf, df, path) {
        FileDecision::WrongExtension
    } else {
        FileDecision::Copy
    }
}

/// The paths of `paths`, in order, that [`eligible_spec`] admits.
pub open spec fn selected_paths(
    sf: FiltersView,
    df: FiltersView,
    paths: Seq<Seq<char>>,
) -> Seq<Seq<char>>
    decreases paths.len(),
{
    if paths.len() == 0 {
        Seq::empty()
    } else {
        let rest = selected_paths(sf, df, paths.drop_last());
        if eligible_spec(sf, df, paths.last()) {
            rest.push(paths.last())
        } else {
            rest
        }
    }
}

/// The reference an install checks out: the locked one when a lock entry
/// exists, else the declared one.
pub open spec fn locked_refname_spec(
    dep: DependencyView,
    lock: Option<LockedDependencyView>,
) -> Seq<char> {
    match lock {
        Some(l) => l.refname,
        None => dep.refname,
    }
}

/// Whether some pattern in `a` then `b` is a component-wise prefix of `path`.
fn any_prefix_match(a: &Vec<String>, b: &Vec<String>, path: &str) -> (r: bool)
    ensures
        r == matches_any(a.deep_view() + b.deep_view(), path@),
{
    let ghost pats = a.deep_view() + b.deep_view();
    let mut i: usize = 0;
    while i < a.len()
        invariant
            i <= a@.len(),
            pats == a.deep_view() + b.deep_view(),
            forall|k: int| 0 <= k < i ==> !path_has_prefix(path@, pats[k]),
        decreases a@.len() - i,
    {
        let hit = path_matcher(path, a[i].as_str());
        proof {
            assert(pats[i as int] == a@[i as int]@);
        }
        if hit {
            return true;
        }
        i += 1;
    }
    let mut j: usize = 0;
    while j < b.len()
        invariant
            j <= b@.len(),
            pats == a.deep_view() + b.deep_view(),
            forall|k: int| 0 <= k < a@.len() + j ==> !path_has_prefix(path@, pats[k]),
        decreases b@.len() - j,
    {
        let hit = path_matcher(path, b[j].as_str());
        proof {
            assert(pats[a@.len() + j] == b@[j as int]@);
        }
        if hit {
            return true;
        }
        j += 1;
    }
    false
}

/// Whether some pattern in `a` then `b` equals `ext` up to ASCII case.
fn any_ext_match(a: &Vec<String>, b: &Vec<String>, ext: &str) -> (r: bool)
    ensures
        r == ext_matches_any(a.deep_view() + b.deep_view(), ext@),
{
    let ghost pats = a.deep_view() + b.deep_view();
    let mut i: usize = 0;
    while i < a.len()
        invariant
            i <= a@.len(),
            pats == a.deep_view() + b.deep_view(),
            forall|k: int| 0 <= k < i ==> !ci_equal(ext@, pats[k]),
        decreases a@.len() - i,
    {
        let hit = eq_ignore_ascii_case(ext, a[i].as_str());
        proof {
            assert(pats[i as int] == a@[i as int]@);
        }
        if hit {
            return true;
        }
        i += 1;
    }
    let mut j: usize = 0;
    while j < b.len()
        invariant
            j <= b@.len(),
            pats == a.deep_view() + b.deep_view(),
            forall|k: int| 0 <= k < a@.len() + j ==> !ci_equal(ext@, pats[k]),
        decreases b@.len() - j,
    {
        let hit = eq_ignore_ascii_case(ext, b[j].as_str());
        proof {
            assert(pats[a@.len() + j] == b@[j as int]@);
        }
        if hit {
            return true;
        }
        j += 1;
    }
    false
}

/// Plans and decides one dependency's install or update: the spec-level
/// default filters, the dependency itself, and its prior lock entry if any.
#[derive(Debug)]
pub struct DependencyManager {
    pub spec_filters: Filters,
    pub dependency: Dependency,
    pub dependency_lock: Option<LockedDependency>,
}

impl DependencyManager {
    /// A manager for one dependency under the spec's default filters.
    pub fn new(
        vendor_spec: &VendorSpec,
        dependency: Dependency,
        dependency_lock: Option<LockedDependency>,
    ) -> (r: DependencyManager)
        ensures
            r.spec_filters@ == vendor_spec@.filters,
            r.dependency@ == dependency@,
            r.dependency_lock.deep_view() == dependency_lock.deep_view(),
    {
        DependencyManager {
            spec_filters: vendor_spec.filters.duplicate(),
            dependency,
            dependency_lock,
        }
    }

    /// The reference an install checks out: the locked reference when a
    /// prior lock entry exists, else the dependency's declared reference.
    pub fn get_locked_refname(&self) -> (r: &String)
        ensures
            r@ == locked_refname_spec(self.dependency@, self.dependency_lock.deep_view()),
    {
        match &self.dependency_lock {
            Some(l) => &l.refname,
            None => &self.dependency.refname,
        }
    }

    /// The steps of an install: ensure the working copy, then check out the
    /// locked reference if one exists, else the declared one.
    pub fn install(&self) -> (ops: Vec<VcsOp>)
        ensures
            ops@.len() == 2,
            ops@[0] is Ensure,
            (ops@[1] matches VcsOp::Checkout(r) && r@ == locked_refname_spec(
                self.dependency@,
                self.dependency_lock.deep_view(),
            )),
    {
        let refname = self.get_locked_refname().clone();
        let mut ops: Vec<VcsOp> = Vec::new();
        ops.push(VcsOp::Ensure);
        ops.push(VcsOp::Checkout(refname));
        ops
    }

    /// The steps of an update: ensure the working copy, then fetch and
    /// hard-reset to the declared reference; any lock entry is ignored.
    pub fn update(&self) -> (ops: Vec<VcsOp>)
        ensures
            ops@.len() == 3,
            ops@[0] is Ensure,
            (ops@[1] matches VcsOp::Fetch(r) && r@ == self.dependency@.refname),
            (ops@[2] matches VcsOp::Reset(r) && r@ == self.dependency@.refname),
    {
        let mut ops: Vec<VcsOp> = Vec::new();
        ops.push(VcsOp::Ensure);
        ops.push(VcsOp::Fetch(self.dependency.refname.clone()));
        ops.push(VcsOp::Reset(self.dependency.refname.clone()));
        ops
    }

    /// Whether an ignore pattern prefixes `path`.
    pub fn is_ignored(&self, path: &str) -> (r: bool)
        ensures
            r == is_ignored_spec(self.spec_filters@, self.dependency@.filters, path@),
    {
        any_prefix_match(&self.spec_filters.ignores, &self.dependency.filters.ignores, path)
    }

    /// Whether a target pattern prefixes `path`.
    pub fn is_target(&self, path: &str) -> (r: bool)
        ensures
            r == is_target_spec(self.spec_filters@, self.dependency@.filters, path@),
    {
        any_prefix_match(&self.spec_filters.targets, &self.dependency.filters.targets, path)
    }

    /// Whether `path` carries an allowed extension, compared
    /// case-insensitively; an extensionless path never does.
    pub fn is_extension(&self, path: &str) -> (r: bool)
        ensures
            r == ext_allowed_spec(self.spec_filters@, self.dependency@.filters, path@),
    {
        match extension_of(path) {
            None => false,
            Some(e) => any_ext_match(
                &self.spec_filters.extensions,
                &self.dependency.filters.extensions,
                e,
            ),
        }
    }

    /// The matcher's decision for `path`: ignores win, then targeting, then
    /// the extension.
    pub fn classify(&self, path: &str) -> (r: FileDecision)
        ensures
            r == classify_spec(self.spec_filters@, self.dependency@.filters, path@),
            r is Copy == eligible_spec(self.spec_filters@, self.dependency@.filters, path@),
    {
        if self.is_ignored(path) {
            FileDecision::Ignored
        } else if !self.is_target(path) {
            FileDecision::NotTarget
        } else if !self.is_extension(path) {
            FileDecision::WrongExtension
        } else {
            FileDecision::Copy
        }
    }

    /// Of the given working-copy-relative paths, those to copy, in order.
    pub fn select_files(&self, relative_paths: &Vec<String>) -> (r: Vec<String>)
        ensures
            r.deep_view() == selected_paths(
                self.spec_filters@,
                self.dependency@.filters,
                relative_paths.deep_view(),
            ),
    {
        let ghost sf = self.spec_filters@;
        let ghost df = self.dependency@.filters;
        let ghost dv = relative_paths.deep_view();
        let mut r: Vec<String> = Vec::new();
        proof {
            assert(r.deep_view() =~= selected_paths(sf, df, dv.take(0)));
        }
        let mut i: usize = 0;
        while i < relative_paths.len()
            invariant
                i <= relative_paths@.len(),
                dv == relative_paths.deep_view(),
                sf == self.spec_filters@,
                df == self.dependency@.filters,
                r.deep_view() == selected_paths(sf, df, dv.take(i as int)),
            decreases relative_paths@.len() - i,
        {
            let d = self.classify(relative_paths[i].as_str());
            proof {
                assert(dv[i as int] == relative_paths@[i as int]@);
                assert(dv.take(i + 1).drop_last() =~= dv.take(i as int));
                assert(dv.take(i + 1).last() == dv[i as int]);
            }
            let ghost rdv0 = r.deep_view();
            if matches!(d, FileDecision::Copy) {
                let p = relative_paths[i].clone();
                r.push(p);
                proof {
                    assert(r.deep_view() =~= rdv0.push(dv[i as int]));
                }
            }
            proof {
                assert(selected_paths(sf, df, dv.take(i + 1)) == (if eligible_spec(sf, df, dv[i as int]) {
                    selected_paths(sf, df, dv.take(i as int)).push(dv[i as int])
                } else {
                    selected_paths(sf, df, dv.take(i as int))
                }));
            }
            i += 1;
        }
        proof {
            assert(dv.take(relative_paths@.len() as int) =~= dv);
        }
        r
    }

    /// The lock record for this dependency and the concrete reference the
    /// cache reports after checkout.
    pub fn get_locked_dependency(&self, resolved_refname: &str) -> (r: LockedDependency)
        ensures
            r@.url == self.dependency@.url,
            r@.refname == resolved_refname@,
    {
        LockedDependency::new(self.dependency.url.as_str(), resolved_refname)
    }

    /// What remains of a job once the cache stands at the right reference:
    /// the paths to copy and the lock record to report.
    pub fn import(&self, relative_paths: &Vec<String>, resolved_refname: &str) -> (r: (
        Vec<String>,
        LockedDependency,
    ))
        ensures
            r.0.deep_view() == selected_paths(
                self.spec_filters@,
                self.dependency@.filters,
                relative_paths.deep_view(),
            ),
            r.1@.url == self.dependency@.url,
            r.1@.refname == resolved_refname@,
    {
        (self.select_files(relative_paths), self.get_locked_dependency(resolved_refname))
    }
}

/// Law: with no target patterns configured anywhere, no path is targeted
/// and none is eligible.
pub proof fn lemma_empty_targets_select_nothing(sf: FiltersView, df: FiltersView, path: Seq<char>)
    requires
        sf.targets.len() == 0,
        df.targets.len() == 0,
    ensures
        !is_target_spec(sf, df, path),
        !eligible_spec(sf, df, path),
{
    assert((sf.targets + df.targets).len() == 0);
}

/// Law: a path one of whose ignore patterns prefixes it is never eligible,
/// whatever the target and extension configuration.
pub proof fn lemma_ignored_never_eligible(sf: FiltersView, df: FiltersView, path: Seq<char>, k: int)
    requires
        0 <= k < (sf.ignores + df.ignores).len(),
        path_has_prefix(path, (sf.ignores + df.ignores)[k]),
    ensures
        is_ignored_spec(sf, df, path),
        !eligible_spec(sf, df, path),
        classify_spec(sf, df, path) == FileDecision::Ignored,
{
}

/// Law: extension matching is case-insensitive. Two paths whose extensions
/// are equal up to ASCII case are allowed under exactly the same filters.
pub proof fn lemma_extension_matching_case_insensitive(
    sf: FiltersView,
    df: FiltersView,
    p1: Seq<char>,
    p2: Seq<char>,
)
    requires
        spec_extension(p1) is Some,
        spec_extension(p2) is Some,
        ci_equal(spec_extension(p1)->Some_0, spec_extension(p2)->Some_0),
    ensures
        ext_allowed_spec(sf, df, p1) == ext_allowed_spec(sf, df, p2),
{
    let e1 = spec_extension(p1)->Some_0;
    let e2 = spec_extension(p2)->Some_0;
    let pats = sf.extensions + df.extensions;
    assert forall|k: int| 0 <= k < pats.len() && ci_equal(e1, pats[k]) implies ci_equal(
        e2,
        pats[k],
    ) by {}
    assert forall|k: int| 0 <= k < pats.len() && ci_equal(e2, pats[k]) implies ci_equal(
        e1,
        pats[k],
    ) by {}
}

} // verus!
