//! The lock store: previously resolved references, keyed case-insensitively
//! by remote identity, with at most one entry per identity.

use crate::deps::{LockedDependency, LockedDependencyView};
use crate::text::{ci_equal, eq_ignore_ascii_case, str_le, str_le_exec};
use crate::VERSION;
use vstd::prelude::*;

verus! {

/// Mathematical model of a [`VendorLock`].
#[verifier::ext_equal]
pub ghost struct VendorLockView {
    pub version: Seq<char>,
    pub deps: Seq<LockedDependencyView>,
    pub updated_at: int,
}

/// The lock store: the version that wrote it, the locked dependencies, and
/// the time of the last change, in whole seconds since the Unix epoch.
#[derive(Debug, PartialEq, Eq)]
pub struct VendorLock {
    pub version: String,
    pub deps: Vec<LockedDependency>,
    pub updated_at: i64,
}

impl View for VendorLock {
    type V = VendorLockView;

    open spec fn view(&self) -> VendorLockView {
        VendorLockView {
            version: self.version@,
            deps: self.deps.deep_view(),
            updated_at: self.updated_at as int,
        }
    }
}

/// The first entry whose identity equals `url` up to ASCII case, if any.
pub open spec fn find_dep_spec(s: Seq<LockedDependencyView>, url: Seq<char>) -> Option<
    LockedDependencyView,
>
    decreases s.len(),
{
    if s.len() == 0 {
        None
    } else if ci_equal(s[0].url, url) {
        Some(s[0])
    } else {
        find_dep_spec(s.skip(1), url)
    }
}

/// The store's contents after an upsert: the first entry whose identity
/// equals `entry.url` up to ASCII case has its reference replaced; if there
/// is none, `entry` is appended.
pub open spec fn upsert_spec(
    s: Seq<LockedDependencyView>,
    entry: LockedDependencyView,
) -> Seq<LockedDependencyView>
    decreases s.len(),
{
    if s.len() == 0 {
        seq![entry]
    } else if ci_equal(s[0].url, entry.url) {
        seq![LockedDependencyView { url: s[0].url, refname: entry.refname }] + s.skip(1)
    } else {
        seq![s[0]] + upsert_spec(s.skip(1), entry)
    }
}

/// At most one entry per identity, identities compared up to ASCII case.
pub open spec fn unique_identities(s: Seq<LockedDependencyView>) -> bool {
    forall|i: int, j: int|
        0 <= i < j < s.len() ==> !ci_equal(s[i].url, s[j].url)
}

/// Where the first case-insensitive match for `e.url` sits at `i`, upsert
/// rewrites exactly that entry's reference.
proof fn lemma_upsert_at(s: Seq<LockedDependencyView>, e: LockedDependencyView, i: int)
    requires
        0 <= i < s.len(),
        ci_equal(s[i].url, e.url),
        forall|j: int| 0 <= j < i ==> !ci_equal(s[j].url, e.url),
    ensures
        upsert_spec(s, e) == s.update(
            i,
            LockedDependencyView { url: s[i].url, refname: e.refname },
        ),
    decreases i,
{
    if i == 0 {
        assert(upsert_spec(s, e) =~= s.update(
            0,
            LockedDependencyView { url: s[0].url, refname: e.refname },
        ));
    } else {
        assert(!ci_equal(s[0].url, e.url));
        lemma_upsert_at(s.skip(1), e, i - 1);
        assert(seq![s[0]] + s.skip(1).update(
            i - 1,
            LockedDependencyView { url: s[i].url, refname: e.refname },
        ) =~= s.update(i, LockedDependencyView { url: s[i].url, refname: e.refname }));
    }
}

/// Where no entry matches `e.url`, upsert appends `e`.
proof fn lemma_upsert_append(s: Seq<LockedDependencyView>, e: LockedDependencyView)
    requires
        forall|j: int| 0 <= j < s.len() ==> !ci_equal(s[j].url, e.url),
    ensures
        upsert_spec(s, e) == s.push(e),
    decreases s.len(),
{
    if s.len() == 0 {
        assert(upsert_spec(s, e) =~= s.push(e));
    } else {
        lemma_upsert_append(s.skip(1), e);
        assert(seq![s[0]] + s.skip(1).push(e) =~= s.push(e));
    }
}

/// Where the first case-insensitive match for `url` sits at `i`, the lookup
/// returns that entry.
proof fn lemma_find_at(s: Seq<LockedDependencyView>, url: Seq<char>, i: int)
    requires
        0 <= i < s.len(),
        ci_equal(s[i].url, url),
        forall|j: int| 0 <= j < i ==> !ci_equal(s[j].url, url),
    ensures
        find_dep_spec(s, url) == Some(s[i]),
    decreases i,
{
    if i == 0 {
    } else {
        lemma_find_at(s.skip(1), url, i - 1);
    }
}

/// Where no entry matches `url`, the lookup returns nothing.
proof fn lemma_find_none(s: Seq<LockedDependencyView>, url: Seq<char>)
    requires
        forall|j: int| 0 <= j < s.len() ==> !ci_equal(s[j].url, url),
    ensures
        find_dep_spec(s, url) is None,
    decreases s.len(),
{
    if s.len() == 0 {
    } else {
        lemma_find_none(s.skip(1), url);
    }
}

/// Law: upsert is idempotent. Applying the same entry twice leaves exactly
/// what one application leaves.
pub proof fn lemma_upsert_idempotent(s: Seq<LockedDependencyView>, e: LockedDependencyView)
    ensures
        upsert_spec(upsert_spec(s, e), e) == upsert_spec(s, e),
    decreases s.len(),
{
    if s.len() == 0 {
        let u = upsert_spec(s, e);
        assert(ci_equal(e.url, e.url));
        assert(upsert_spec(u, e) =~= u);
    } else if ci_equal(s[0].url, e.url) {
        let u = upsert_spec(s, e);
        assert(u[0] == LockedDependencyView { url: s[0].url, refname: e.refname });
        assert(u.skip(1) =~= s.skip(1));
        assert(upsert_spec(u, e) =~= u);
    } else {
        lemma_upsert_idempotent(s.skip(1), e);
        let u = upsert_spec(s, e);
        assert(u[0] == s[0]);
        assert(u.skip(1) =~= upsert_spec(s.skip(1), e));
        assert(upsert_spec(u, e) =~= u);
    }
}

/// Law: in a store with unique identities, an upsert whose identity is
/// already present replaces that entry's reference and touches nothing
/// else; no duplicate appears and the length is unchanged.
pub proof fn lemma_upsert_replaces(s: Seq<LockedDependencyView>, e: LockedDependencyView, i: int)
    requires
        unique_identities(s),
        0 <= i < s.len(),
        ci_equal(s[i].url, e.url),
    ensures
        upsert_spec(s, e).len() == s.len(),
        upsert_spec(s, e)[i] == (LockedDependencyView { url: s[i].url, refname: e.refname }),
        forall|j: int| 0 <= j < s.len() && j != i ==> upsert_spec(s, e)[j] == s[j],
        unique_identities(upsert_spec(s, e)),
{
    assert forall|j: int| 0 <= j < i implies !ci_equal(s[j].url, e.url) by {
        if ci_equal(s[j].url, e.url) {
            assert(ci_equal(s[j].url, s[i].url));
        }
    }
    lemma_upsert_at(s, e, i);
    let u = upsert_spec(s, e);
    assert forall|p: int, q: int| 0 <= p < q < u.len() implies !ci_equal(u[p].url, u[q].url) by {
        assert(u[p].url == s[p].url);
        assert(u[q].url == s[q].url);
    }
}

/// Law: in a store with unique identities, an upsert keeps identities
/// unique, and afterwards some entry carries the upserted identity.
pub proof fn lemma_upsert_unique(s: Seq<LockedDependencyView>, e: LockedDependencyView)
    requires
        unique_identities(s),
    ensures
        unique_identities(upsert_spec(s, e)),
        (exists|i: int| 0 <= i < upsert_spec(s, e).len() && ci_equal(
            upsert_spec(s, e)[i].url,
            e.url,
        )),
{
    if exists|i: int| 0 <= i < s.len() && ci_equal(s[i].url, e.url) {
        let i = choose|i: int| 0 <= i < s.len() && ci_equal(s[i].url, e.url);
        lemma_upsert_replaces(s, e, i);
        assert(ci_equal(upsert_spec(s, e)[i].url, e.url));
    } else {
        assert(forall|j: int| 0 <= j < s.len() ==> !ci_equal(s[j].url, e.url));
        lemma_upsert_append(s, e);
        let u = upsert_spec(s, e);
        assert(ci_equal(e.url, e.url));
        assert(ci_equal(u[s.len() as int].url, e.url));
        assert forall|p: int, q: int| 0 <= p < q < u.len() implies !ci_equal(u[p].url, u[q].url) by {
            if q < s.len() {
            } else {
                assert(u[q] == e);
                if ci_equal(u[p].url, e.url) {
                    assert(ci_equal(s[p].url, e.url));
                }
            }
        }
    }
}

/// `s` with `e` placed after every entry whose identity is `str_le`-below
/// or equal to `e`'s; later equal entries therefore keep their order.
pub open spec fn insert_sorted(
    e: LockedDependencyView,
    s: Seq<LockedDependencyView>,
) -> Seq<LockedDependencyView>
    decreases s.len(),
{
    if s.len() == 0 {
        seq![e]
    } else if str_le(s[0].url, e.url) {
        seq![s[0]] + insert_sorted(e, s.skip(1))
    } else {
        seq![e] + s
    }
}

/// Stable sort of the entries by identity in `str_le` order.
pub open spec fn sort_by_url(s: Seq<LockedDependencyView>) -> Seq<LockedDependencyView>
    decreases s.len(),
{
    if s.len() == 0 {
        Seq::empty()
    } else {
        insert_sorted(s.last(), sort_by_url(s.drop_last()))
    }
}

/// `s` with every entry dropped whose identity equals, up to ASCII case,
/// that of the entry kept last (`prev` at the start).
pub open spec fn dedup_go(
    prev: Seq<char>,
    s: Seq<LockedDependencyView>,
) -> Seq<LockedDependencyView>
    decreases s.len(),
{
    if s.len() == 0 {
        Seq::empty()
    } else if ci_equal(s[0].url, prev) {
        dedup_go(prev, s.skip(1))
    } else {
        seq![s[0]] + dedup_go(s[0].url, s.skip(1))
    }
}

/// Adjacent case-insensitive duplicates removed, the first of each run kept.
pub open spec fn dedup_adjacent(s: Seq<LockedDependencyView>) -> Seq<LockedDependencyView> {
    if s.len() == 0 {
        s
    } else {
        seq![s[0]] + dedup_go(s[0].url, s.skip(1))
    }
}

/// Sorted by identity, earlier entries `str_le`-below or equal to later ones.
pub open spec fn sorted_by_url(s: Seq<LockedDependencyView>) -> bool {
    forall|i: int, j: int| 0 <= i < j < s.len() ==> str_le(s[i].url, s[j].url)
}

/// Every entry of a sorted insertion is the inserted one or one of the list.
proof fn lemma_insert_sorted_elems(e: LockedDependencyView, s: Seq<LockedDependencyView>)
    ensures
        forall|i: int|
            0 <= i < insert_sorted(e, s).len() ==> insert_sorted(e, s)[i] == e || s.contains(
                #[trigger] insert_sorted(e, s)[i],
            ),
    decreases s.len(),
{
    if s.len() > 0 && str_le(s[0].url, e.url) {
        lemma_insert_sorted_elems(e, s.skip(1));
        assert forall|i: int| 0 <= i < insert_sorted(e, s).len() implies insert_sorted(e, s)[i]
            == e || s.contains(#[trigger] insert_sorted(e, s)[i]) by {
            if i > 0 {
                let x = insert_sorted(e, s)[i];
                assert(x == insert_sorted(e, s.skip(1))[i - 1]);
                if x != e {
                    let k = choose|k: int| 0 <= k < s.skip(1).len() && s.skip(1)[k] == x;
                    assert(s[k + 1] == x);
                }
            }
        }
    }
}

/// Sorted insertion keeps a sorted list sorted.
proof fn lemma_insert_sorted_keeps_sorted(e: LockedDependencyView, s: Seq<LockedDependencyView>)
    requires
        sorted_by_url(s),
    ensures
        sorted_by_url(insert_sorted(e, s)),
    decreases s.len(),
{
    if s.len() == 0 {
    } else if str_le(s[0].url, e.url) {
        assert(sorted_by_url(s.skip(1)));
        lemma_insert_sorted_keeps_sorted(e, s.skip(1));
        lemma_insert_sorted_elems(e, s.skip(1));
        let t = insert_sorted(e, s);
        assert forall|i: int, j: int| 0 <= i < j < t.len() implies str_le(t[i].url, t[j].url) by {
            if i == 0 {
                let x = t[j];
                assert(x == insert_sorted(e, s.skip(1))[j - 1]);
                if x == e {
                } else {
                    let k = choose|k: int| 0 <= k < s.skip(1).len() && s.skip(1)[k] == x;
                    assert(s[k + 1] == x);
                    assert(str_le(s[0].url, s[k + 1].url));
                }
            } else {
                assert(t[i] == insert_sorted(e, s.skip(1))[i - 1]);
                assert(t[j] == insert_sorted(e, s.skip(1))[j - 1]);
            }
        }
    } else {
        crate::text::lemma_str_le_total(s[0].url, e.url);
        let t = insert_sorted(e, s);
        assert forall|i: int, j: int| 0 <= i < j < t.len() implies str_le(t[i].url, t[j].url) by {
            if i == 0 && j > 1 {
                crate::text::lemma_str_le_trans(e.url, s[0].url, s[j - 1].url);
            }
        }
    }
}

/// Law: the normalization sort really sorts by identity.
pub proof fn lemma_sort_by_url_sorted(s: Seq<LockedDependencyView>)
    ensures
        sorted_by_url(sort_by_url(s)),
    decreases s.len(),
{
    if s.len() > 0 {
        lemma_sort_by_url_sorted(s.drop_last());
        lemma_insert_sorted_keeps_sorted(s.last(), sort_by_url(s.drop_last()));
    }
}

/// Where the first `j` entries are `str_le`-below or equal to `e` and the
/// next is not, the sorted insertion puts `e` exactly at `j`.
proof fn lemma_insert_sorted_at(s: Seq<LockedDependencyView>, e: LockedDependencyView, j: int)
    requires
        0 <= j <= s.len(),
        forall|k: int| 0 <= k < j ==> str_le(s[k].url, e.url),
        j < s.len() ==> !str_le(s[j].url, e.url),
    ensures
        insert_sorted(e, s) == s.take(j) + seq![e] + s.skip(j),
    decreases j,
{
    if j == 0 {
        assert(insert_sorted(e, s) =~= s.take(0) + seq![e] + s.skip(0));
    } else {
        assert(str_le(s[0].url, e.url));
        lemma_insert_sorted_at(s.skip(1), e, j - 1);
        assert(seq![s[0]] + (s.skip(1).take(j - 1) + seq![e] + s.skip(1).skip(j - 1)) =~= s.take(
            j,
        ) + seq![e] + s.skip(j));
    }
}

/// The position in `v` before which `e` belongs: past every entry whose
/// identity is `str_le`-below or equal to `e`'s.
fn insertion_point(v: &Vec<LockedDependency>, e: &LockedDependency) -> (j: usize)
    ensures
        j <= v@.len(),
        forall|k: int| 0 <= k < j ==> str_le(v.deep_view()[k].url, e@.url),
        j < v@.len() ==> !str_le(v.deep_view()[j as int].url, e@.url),
{
    let mut j: usize = 0;
    while j < v.len()
        invariant
            j <= v@.len(),
            forall|k: int| 0 <= k < j ==> str_le(v.deep_view()[k].url, e@.url),
        decreases v@.len() - j,
    {
        let le = str_le_exec(v[j].url.as_str(), e.url.as_str());
        proof {
            assert(v.deep_view()[j as int] == v@[j as int]@);
        }
        if !le {
            return j;
        }
        j += 1;
    }
    j
}

/// Inserts `e` into a vector kept in `str_le` order by identity.
fn insert_in_order(v: &mut Vec<LockedDependency>, e: LockedDependency)
    ensures
        final(v).deep_view() == insert_sorted(e@, old(v).deep_view()),
{
    let ghost dv = v.deep_view();
    let ghost ev = e@;
    let j = insertion_point(v, &e);
    v.insert(j, e);
    proof {
        lemma_insert_sorted_at(dv, ev, j as int);
        assert(v.deep_view() =~= dv.take(j as int) + seq![ev] + dv.skip(j as int));
    }
}

/// Sorts the entries by identity in `str_le` order, stably.
fn sort_deps(v: &mut Vec<LockedDependency>)
    ensures
        final(v).deep_view() == sort_by_url(old(v).deep_view()),
{
    let ghost dv = v.deep_view();
    let mut sorted: Vec<LockedDependency> = Vec::new();
    proof {
        assert(v.deep_view() =~= dv.skip(0));
        assert(sorted.deep_view() =~= sort_by_url(dv.take(0)));
    }
    while v.len() > 0
        invariant
            v@.len() <= dv.len(),
            v.deep_view() == dv.skip(dv.len() - v@.len()),
            sorted.deep_view() == sort_by_url(dv.take(dv.len() - v@.len())),
        decreases v@.len(),
    {
        let ghost p = dv.len() - v@.len();
        let ghost rest0 = v.deep_view();
        let ghost va0 = v@;
        let e = v.remove(0);
        proof {
            assert(e@ == rest0[0]);
            assert(v.deep_view() =~= rest0.skip(1));
            assert(rest0.skip(1) =~= dv.skip(p + 1));
            assert(e@ == dv.skip(p)[0]);
            assert(e@ == dv[p]);
        }
        insert_in_order(&mut sorted, e);
        proof {
            assert(dv.take(p + 1).drop_last() =~= dv.take(p));
            assert(dv.take(p + 1).last() == dv[p]);
            assert(sorted.deep_view() == sort_by_url(dv.take(p + 1)));
        }
    }
    proof {
        assert(dv.take(dv.len() as int) =~= dv);
    }
    *v = sorted;
}

/// Removes adjacent case-insensitive duplicates by identity, keeping the
/// first of each run; meant for entries already sorted by identity.
fn dedup_ci(v: &mut Vec<LockedDependency>)
    ensures
        final(v).deep_view() == dedup_adjacent(old(v).deep_view()),
{
    let ghost dv = v.deep_view();
    if v.len() == 0 {
        return ;
    }
    let mut out: Vec<LockedDependency> = Vec::new();
    let first = v.remove(0);
    out.push(first);
    proof {
        assert(out.deep_view() =~= seq![dv[0]]);
        assert(v.deep_view() =~= dv.skip(1));
    }
    while v.len() > 0
        invariant
            out@.len() > 0,
            dedup_adjacent(dv) == out.deep_view() + dedup_go(
                out.deep_view().last().url,
                v.deep_view(),
            ),
        decreases v@.len(),
    {
        let ghost rest0 = v.deep_view();
        let ghost outdv0 = out.deep_view();
        let ghost prev = outdv0.last().url;
        let e = v.remove(0);
        proof {
            assert(e@ == rest0[0]);
            assert(v.deep_view() =~= rest0.skip(1));
        }
        let last_index = out.len() - 1;
        if !eq_ignore_ascii_case(e.url.as_str(), out[last_index].url.as_str()) {
            proof {
                assert(out.deep_view()[last_index as int] == outdv0.last());
            }
            out.push(e);
            proof {
                assert(out.deep_view() =~= outdv0.push(rest0[0]));
                assert(out.deep_view().last() == rest0[0]);
                assert(outdv0 + (seq![rest0[0]] + dedup_go(rest0[0].url, rest0.skip(1))) =~= out
                    .deep_view() + dedup_go(rest0[0].url, rest0.skip(1)));
            }
        } else {
            proof {
                assert(out.deep_view()[last_index as int] == outdv0.last());
                assert(ci_equal(rest0[0].url, prev));
            }
        }
    }
    proof {
        assert(dedup_go(out.deep_view().last().url, v.deep_view()) =~= Seq::<
            LockedDependencyView,
        >::empty());
        assert(out.deep_view() + Seq::<LockedDependencyView>::empty() =~= out.deep_view());
    }
    *v = out;
}

/// Relies on chrono::Utc::now, read through chrono::DateTime::timestamp, for
/// the current time as whole seconds since the Unix epoch. Nothing is
/// assumed of the value.
#[verifier::external_body]
fn now_timestamp() -> i64 {
    chrono::Utc::now().timestamp()
}

impl VendorLock {
    /// An empty store stamped with this crate's version.
    pub fn new() -> (r: VendorLock)
        ensures
            r@.version == VERSION@,
            r@.deps.len() == 0,
    {
        let r = VendorLock {
            version: VERSION.to_owned(),
            deps: Vec::new(),
            updated_at: now_timestamp(),
        };
        proof {
            assert(r@.deps =~= Seq::<LockedDependencyView>::empty());
        }
        r
    }

    /// Index of the first entry whose identity equals `url` up to ASCII case.
    fn find_dep_index(&self, url: &str) -> (r: Option<usize>)
        ensures
            match r {
                None => forall|j: int|
                    0 <= j < self@.deps.len() ==> !ci_equal(self@.deps[j].url, url@),
                Some(i) => i < self@.deps.len() && ci_equal(self@.deps[i as int].url, url@)
                    && forall|j: int| 0 <= j < i ==> !ci_equal(self@.deps[j].url, url@),
            },
    {
        let mut i: usize = 0;
        while i < self.deps.len()
            invariant
                i <= self.deps.len(),
                forall|j: int| 0 <= j < i ==> !ci_equal(self@.deps[j].url, url@),
            decreases self.deps.len() - i,
        {
            if eq_ignore_ascii_case(self.deps[i].url.as_str(), url) {
                return Some(i);
            }
            i += 1;
        }
        None
    }

    /// The first entry for `url`, compared case-insensitively, if any.
    pub fn find_dep(&self, url: &str) -> (r: Option<LockedDependency>)
        ensures
            match r {
                None => find_dep_spec(self@.deps, url@) is None,
                Some(d) => find_dep_spec(self@.deps, url@) == Some(d@),
            },
    {
        match self.find_dep_index(url) {
            None => {
                proof {
                    lemma_find_none(self@.deps, url@);
                }
                None
            },
            Some(i) => {
                proof {
                    lemma_find_at(self@.deps, url@, i as int);
                }
                Some(self.deps[i].duplicate())
            },
        }
    }

    /// Upserts `dep` by identity: replaces the reference of the first entry
    /// with the same identity, or appends; the timestamp is refreshed.
    pub fn add(&mut self, dep: LockedDependency)
        ensures
            final(self)@.version == old(self)@.version,
            final(self)@.deps == upsert_spec(old(self)@.deps, dep@),
    {
        let ghost dv0 = self@.deps;
        let ghost entry = dep@;
        match self.find_dep_index(dep.url.as_str()) {
            Some(i) => {
                let ghost va0 = self.deps@;
                let old_entry = self.deps.remove(i);
                let updated = LockedDependency::new(old_entry.url.as_str(), dep.refname.as_str());
                self.deps.insert(i, updated);
                proof {
                    assert(self.deps@ =~= va0.update(i as int, self.deps@[i as int]));
                    assert(self.deps.deep_view() =~= dv0.update(
                        i as int,
                        LockedDependencyView { url: dv0[i as int].url, refname: entry.refname },
                    ));
                    lemma_upsert_at(dv0, entry, i as int);
                }
            },
            None => {
                let ghost va0 = self.deps@;
                self.deps.push(dep);
                proof {
                    assert(self.deps.deep_view() =~= dv0.push(entry));
                    lemma_upsert_append(dv0, entry);
                }
            },
        }
        self.updated_at = now_timestamp();
    }

    /// Sorts the entries by identity and removes adjacent case-insensitive
    /// duplicates, keeping the first; run after loading persisted state.
    pub fn lint(&mut self)
        ensures
            final(self)@.version == old(self)@.version,
            final(self)@.updated_at == old(self)@.updated_at,
            final(self)@.deps == dedup_adjacent(sort_by_url(old(self)@.deps)),
    {
        sort_deps(&mut self.deps);
        dedup_ci(&mut self.deps);
    }
}

} // verus!
