//! Tests for the filter matcher, job planning and the run-level merge.

use vendor::deps::{Dependency, LockedDependency};
use vendor::errors::VendorError;
use vendor::filters::Filters;
use vendor::lock::VendorLock;
use vendor::manager::{DependencyManager, FileDecision, VcsOp};
use vendor::orchestrator::VendorManager;
use vendor::text::{eq_ignore_ascii_case, extension_of, path_matcher};
use vendor::vendor_spec::VendorSpec;

fn svec(items: &[&str]) -> Vec<String> {
    items.iter().map(|s| s.to_string()).collect()
}

fn spec_with_filters(targets: &[&str], ignores: &[&str], extensions: &[&str]) -> VendorSpec {
    let mut filters = Filters::new();
    filters.add_targets(&svec(targets));
    filters.add_ignores(&svec(ignores));
    filters.add_extensions(&svec(extensions));
    VendorSpec::new("vendor", filters, Vec::new())
}

fn manager_for(spec: &VendorSpec, dep: Dependency, lock: Option<LockedDependency>) -> DependencyManager {
    DependencyManager::new(spec, dep, lock)
}

#[test]
fn test_path_matcher_components() {
    assert!(path_matcher("a/x.proto", "a"));
    assert!(path_matcher("a/x.proto", "a/"));
    assert!(path_matcher("a/x.proto", "a/x.proto"));
    assert!(path_matcher("anything", ""));
    assert!(!path_matcher("ab/x.proto", "a"));
    assert!(!path_matcher("a", "a/x"));
}

#[test]
fn test_extension_of() {
    assert_eq!(Some("proto"), extension_of("a/x.proto"));
    assert_eq!(Some("PROTO"), extension_of("a/x.PROTO"));
    assert_eq!(Some("gz"), extension_of("a/x.tar.gz"));
    assert_eq!(None, extension_of("a/Makefile"));
    assert_eq!(None, extension_of("a/.hidden"));
    assert_eq!(None, extension_of("dir.d/file"));
}

#[test]
fn test_eq_ignore_ascii_case() {
    assert!(eq_ignore_ascii_case("proto", "PROTO"));
    assert!(eq_ignore_ascii_case("Proto", "pROTO"));
    assert!(!eq_ignore_ascii_case("proto", "protos"));
    assert!(!eq_ignore_ascii_case("proto", "prota"));
}

#[test]
fn test_no_targets_selects_nothing() {
    let spec = spec_with_filters(&[], &[], &["proto"]);
    let dep = Dependency::new("u", "r");
    let sut = manager_for(&spec, dep, None);

    assert!(!sut.is_target("a/x.proto"));
    assert_eq!(FileDecision::NotTarget, sut.classify("a/x.proto"));
    assert!(sut.select_files(&svec(&["a/x.proto", "b/y.proto"])).is_empty());
}

#[test]
fn test_ignore_wins_over_target_and_extension() {
    let spec = spec_with_filters(&["ignored"], &["ignored"], &["proto"]);
    let dep = Dependency::new("u", "r");
    let sut = manager_for(&spec, dep, None);

    assert!(sut.is_ignored("ignored/y.proto"));
    assert_eq!(FileDecision::Ignored, sut.classify("ignored/y.proto"));
    assert!(sut.select_files(&svec(&["ignored/y.proto"])).is_empty());
}

#[test]
fn test_extension_matching_is_case_insensitive() {
    let spec = spec_with_filters(&["a"], &[], &["proto"]);
    let dep = Dependency::new("u", "r");
    let sut = manager_for(&spec, dep, None);

    assert!(sut.is_extension("a/x.PROTO"));
    assert_eq!(FileDecision::Copy, sut.classify("a/x.PROTO"));
}

#[test]
fn test_dependency_filters_extend_spec_filters() {
    let spec = spec_with_filters(&["a"], &[], &["proto"]);
    let mut dep = Dependency::new("u", "r");
    dep.filters.add_targets(&svec(&["b"]));
    dep.filters.add_extensions(&svec(&["txt"]));
    let sut = manager_for(&spec, dep, None);

    assert!(sut.is_target("b/y.txt"));
    assert!(sut.is_extension("b/y.txt"));
    assert_eq!(FileDecision::Copy, sut.classify("b/y.txt"));
}

#[test]
fn test_select_files_end_to_end() {
    let spec = spec_with_filters(&["a"], &["ignored"], &["proto"]);
    let dep = Dependency::new("u", "r");
    let sut = manager_for(&spec, dep, None);

    let files = svec(&["a/x.proto", "a/x.txt", "ignored/y.proto"]);
    let selected = sut.select_files(&files);

    assert_eq!(svec(&["a/x.proto"]), selected);
    assert_eq!(FileDecision::WrongExtension, sut.classify("a/x.txt"));
    assert_eq!(FileDecision::Ignored, sut.classify("ignored/y.proto"));
}

#[test]
fn test_install_checks_out_locked_reference() {
    let spec = spec_with_filters(&["a"], &[], &["proto"]);
    let dep = Dependency::new("https://example.com/a", "main");
    let lock = LockedDependency::new("https://example.com/a", "abc123");
    let sut = manager_for(&spec, dep, Some(lock));

    assert_eq!("abc123", sut.get_locked_refname());
    let ops = sut.install();
    assert_eq!(2, ops.len());
    assert!(matches!(ops[0], VcsOp::Ensure));
    assert!(matches!(&ops[1], VcsOp::Checkout(r) if r == "abc123"));
}

#[test]
fn test_install_without_lock_uses_declared_reference() {
    let spec = spec_with_filters(&["a"], &[], &["proto"]);
    let dep = Dependency::new("https://example.com/a", "main");
    let sut = manager_for(&spec, dep, None);

    assert_eq!("main", sut.get_locked_refname());
    let ops = sut.install();
    assert!(matches!(&ops[1], VcsOp::Checkout(r) if r == "main"));
}

#[test]
fn test_update_ignores_lock_entry() {
    let spec = spec_with_filters(&["a"], &[], &["proto"]);
    let dep = Dependency::new("https://example.com/a", "main");
    let lock = LockedDependency::new("https://example.com/a", "abc123");
    let sut = manager_for(&spec, dep, Some(lock));

    let ops = sut.update();
    assert_eq!(3, ops.len());
    assert!(matches!(ops[0], VcsOp::Ensure));
    assert!(matches!(&ops[1], VcsOp::Fetch(r) if r == "main"));
    assert!(matches!(&ops[2], VcsOp::Reset(r) if r == "main"));
}

#[test]
fn test_import_reports_resolved_reference() {
    let spec = spec_with_filters(&["a"], &[], &["proto"]);
    let dep = Dependency::new("https://example.com/a", "main");
    let sut = manager_for(&spec, dep, None);

    let (files, locked) = sut.import(&svec(&["a/x.proto", "a/no_ext"]), "deadbeef");
    assert_eq!(svec(&["a/x.proto"]), files);
    assert_eq!("https://example.com/a", locked.url);
    assert_eq!("deadbeef", locked.refname);
}

#[test]
fn test_orchestrator_install_jobs_carry_prior_lock() {
    let mut filters = Filters::new();
    filters.add_targets(&svec(&["a"]));
    let deps = vec![
        Dependency::new("https://example.com/a", "main"),
        Dependency::new("https://example.com/b", "main"),
    ];
    let spec = VendorSpec::new("vendor", filters, deps);
    let mut lock = VendorLock::new();
    lock.add(LockedDependency::new("https://example.com/a", "pinned"));
    let sut = VendorManager::new("cache", spec, lock);

    let jobs = sut.install();
    assert_eq!(2, jobs.len());
    assert_eq!("pinned", jobs[0].get_locked_refname());
    assert_eq!("main", jobs[1].get_locked_refname());

    let updates = sut.update();
    assert_eq!("main", updates[0].get_locked_refname());
}

#[test]
fn test_one_failure_does_not_block_other_merges() {
    let spec = VendorSpec::new("vendor", Filters::new(), Vec::new());
    let mut sut = VendorManager::new("cache", spec, VendorLock::new());

    let results = vec![
        Ok(LockedDependency::new("https://example.com/a", "v1")),
        Err(VendorError::Cache("unreachable remote".to_string())),
        Ok(LockedDependency::new("https://example.com/c", "v3")),
    ];
    sut.merge_results(results);

    assert_eq!(2, sut.lock.deps.len());
    assert_eq!("https://example.com/a", sut.lock.deps[0].url);
    assert_eq!("v1", sut.lock.deps[0].refname);
    assert_eq!("https://example.com/c", sut.lock.deps[1].url);
    assert!(sut.lock.find_dep("https://example.com/b").is_none());
}

#[test]
fn test_error_messages_carry_cause() {
    assert_eq!("remote down", VendorError::Cache("remote down".to_string()).message());
    assert_eq!("disk full", VendorError::Filesystem("disk full".to_string()).message());
    assert_eq!(
        "vendor path is a file",
        VendorError::Config("vendor path is a file".to_string()).message()
    );
}
