//! The vendor run: one job per declared dependency, and the serialized
//! merge of job results into the shared lock store, isolating failures.

use crate::deps::{LockedDependency, LockedDependencyView};
use crate::errors::VendorError;
use crate::lock::{upsert_spec, VendorLock};
use crate::manager::DependencyManager;
use crate::vendor_spec::VendorSpec;
use vstd::prelude::*;

verus! {

/// The result views of a job list: a lock record for each success, nothing
/// for each failure.
pub open spec fn results_model(s: Seq<Result<LockedDependency, VendorError>>) -> Seq<
    Option<LockedDependencyView>,
> {
    Seq::new(s.len(), |i: int| match s[i] {
        Ok(d) => Some(d@),
        Err(_) => None,
    })
}

/// The lock contents after merging job results in order: each success is
/// upserted, each failure changes nothing.
pub open spec fn merge_spec(
    deps: Seq<LockedDependencyView>,
    rs: Seq<Option<LockedDependencyView>>,
) -> Seq<LockedDependencyView>
    decreases rs.len(),
{
    if rs.len() == 0 {
        deps
    } else {
        let next = match rs[0] {
            Some(d) => upsert_spec(deps, d),
            None => deps,
        };
        merge_spec(next, rs.skip(1))
    }
}

/// The successful results, in order, failures dropped.
pub open spec fn successes(rs: Seq<Option<LockedDependencyView>>) -> Seq<
    Option<LockedDependencyView>,
>
    decreases rs.len(),
{
    if rs.len() == 0 {
        Seq::empty()
    } else if rs[0] is Some {
        seq![rs[0]] + successes(rs.skip(1))
    } else {
        successes(rs.skip(1))
    }
}

/// Law: failed jobs contribute nothing to the merge. Merging a result list
/// leaves exactly what merging its successes alone leaves, so one job's
/// failure never blocks another's entry.
pub proof fn lemma_merge_ignores_failures(
    deps: Seq<LockedDependencyView>,
    rs: Seq<Option<LockedDependencyView>>,
)
    ensures
        merge_spec(deps, rs) == merge_spec(deps, successes(rs)),
    decreases rs.len(),
{
    if rs.len() == 0 {
    } else if rs[0] is Some {
        let d = rs[0]->Some_0;
        lemma_merge_ignores_failures(upsert_spec(deps, d), rs.skip(1));
        let tail = successes(rs.skip(1));
        assert((seq![rs[0]] + tail).skip(1) =~= tail);
        assert(merge_spec(deps, seq![rs[0]] + tail) == merge_spec(upsert_spec(deps, d), tail));
    } else {
        lemma_merge_ignores_failures(deps, rs.skip(1));
    }
}

/// A whole run: the cache directory the version-control backend works in,
/// the spec, and the lock store the results are merged into.
#[derive(Debug)]
pub struct VendorManager {
    pub cache: String,
    pub spec: VendorSpec,
    pub lock: VendorLock,
}

impl VendorManager {
    /// A run over the given spec and prior lock store.
    pub fn new(cache: &str, spec: VendorSpec, lock: VendorLock) -> (r: VendorManager)
        ensures
            r.cache@ == cache@,
            r.spec@ == spec@,
            r.lock@ == lock@,
    {
        VendorManager { cache: cache.to_owned(), spec, lock }
    }

    /// One install job per declared dependency, in order: each carries the
    /// spec's default filters and the prior lock entry found for its
    /// identity, so a locked reference takes precedence on checkout.
    pub fn install(&self) -> (jobs: Vec<DependencyManager>)
        ensures
            jobs@.len() == self.spec@.deps.len(),
            forall|i: int|
                0 <= i < jobs@.len() ==> {
                    &&& (#[trigger] jobs@[i]).spec_filters@ == self.spec@.filters
                    &&& jobs@[i].dependency@ == self.spec@.deps[i]
                    &&& jobs@[i].dependency_lock.deep_view() == crate::lock::find_dep_spec(
                        self.lock@.deps,
                        self.spec@.deps[i].url,
                    )
                },
    {
        let mut jobs: Vec<DependencyManager> = Vec::new();
        let mut i: usize = 0;
        while i < self.spec.deps.len()
            invariant
                i <= self.spec@.deps.len(),
                jobs@.len() == i,
                forall|k: int|
                    0 <= k < i ==> {
                        &&& (#[trigger] jobs@[k]).spec_filters@ == self.spec@.filters
                        &&& jobs@[k].dependency@ == self.spec@.deps[k]
                        &&& jobs@[k].dependency_lock.deep_view() == crate::lock::find_dep_spec(
                            self.lock@.deps,
                            self.spec@.deps[k].url,
                        )
                    },
            decreases self.spec@.deps.len() - i,
        {
            let dep = self.spec.deps[i].duplicate();
            proof {
                assert(self.spec@.deps[i as int] == self.spec.deps@[i as int]@);
            }
            let prior = self.lock.find_dep(dep.url.as_str());
            let job = DependencyManager::new(&self.spec, dep, prior);
            jobs.push(job);
            i += 1;
        }
        jobs
    }

    /// One update job per declared dependency, in order: each carries the
    /// spec's default filters and no lock entry, so the declared reference
    /// is always resolved afresh.
    pub fn update(&self) -> (jobs: Vec<DependencyManager>)
        ensures
            jobs@.len() == self.spec@.deps.len(),
            forall|i: int|
                0 <= i < jobs@.len() ==> {
                    &&& (#[trigger] jobs@[i]).spec_filters@ == self.spec@.filters
                    &&& jobs@[i].dependency@ == self.spec@.deps[i]
                    &&& jobs@[i].dependency_lock is None
                },
    {
        let mut jobs: Vec<DependencyManager> = Vec::new();
        let mut i: usize = 0;
        while i < self.spec.deps.len()
            invariant
                i <= self.spec@.deps.len(),
                jobs@.len() == i,
                forall|k: int|
                    0 <= k < i ==> {
                        &&& (#[trigger] jobs@[k]).spec_filters@ == self.spec@.filters
                        &&& jobs@[k].dependency@ == self.spec@.deps[k]
                        &&& jobs@[k].dependency_lock is None
                    },
            decreases self.spec@.deps.len() - i,
        {
            let dep = self.spec.deps[i].duplicate();
            proof {
                assert(self.spec@.deps[i as int] == self.spec.deps@[i as int]@);
            }
            let job = DependencyManager::new(&self.spec, dep, None);
            jobs.push(job);
            i += 1;
        }
        jobs
    }

    /// Applies one job result to the lock store: a success is upserted, a
    /// failure leaves the store untouched.
    pub fn update_lock(&mut self, result: Result<LockedDependency, VendorError>)
        ensures
            final(self).cache == old(self).cache,
            final(self).spec == old(self).spec,
            final(self).lock@.version == old(self).lock@.version,
            (result matches Ok(d) ==> final(self).lock@.deps == upsert_spec(
                old(self).lock@.deps,
                d@,
            )),
            (result is Err ==> final(self).lock == old(self).lock),
    {
        match result {
            Ok(d) => self.lock.add(d),
            Err(_) => (),
        }
    }

    /// Merges every job result, in completion order, into the lock store;
    /// failures are passed over and never block another entry.
    pub fn merge_results(&mut self, results: Vec<Result<LockedDependency, VendorError>>)
        ensures
            final(self).cache == old(self).cache,
            final(self).spec == old(self).spec,
            final(self).lock@.version == old(self).lock@.version,
            final(self).lock@.deps == merge_spec(old(self).lock@.deps, results_model(results@)),
    {
        let ghost rs = results_model(results@);
        let ghost d0 = self.lock@.deps;
        let mut rest = results;
        while rest.len() > 0
            invariant
                self.cache == old(self).cache,
                self.spec == old(self).spec,
                self.lock@.version == old(self).lock@.version,
                merge_spec(d0, rs) == merge_spec(self.lock@.deps, results_model(rest@)),
            decreases rest@.len(),
        {
            let ghost rest0 = rest@;
            let ghost deps0 = self.lock@.deps;
            let r = rest.remove(0);
            proof {
                assert(results_model(rest@) =~= results_model(rest0).skip(1));
            }
            self.update_lock(r);
            proof {
                assert(results_model(rest0)[0] == (match rest0[0] {
                    Ok(d) => Some(d@),
                    Err(_) => None,
                }));
                assert(merge_spec(deps0, results_model(rest0)) == merge_spec(
                    self.lock@.deps,
                    results_model(rest@),
                ));
            }
        }
        proof {
            assert(results_model(rest@).len() == 0);
        }
    }
}

} // verus!
