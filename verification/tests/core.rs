//! Tests for dependencies, filters, presets and the lock store.

use vendor::deps::{Dependency, LockedDependency};
use vendor::filters::Filters;
use vendor::lock::VendorLock;
use vendor::preset::Preset;
use vendor::VERSION;

fn svec(items: &[&str]) -> Vec<String> {
    items.iter().map(|s| s.to_string()).collect()
}

fn get_dep_filters() -> Filters {
    let mut filters = Filters::new();
    filters.add_targets(&svec(&["some-target"]));
    filters.add_ignores(&svec(&["some-ignore"]));
    filters.add_extensions(&svec(&["some-ext"]));
    filters
}

fn build_preset(force_filters: bool) -> Preset {
    let mut filters = Filters::new();
    filters.add_targets(&svec(&["preset-target"]));
    filters.add_extensions(&svec(&["preset-ext"]));
    Preset::new(force_filters, filters)
}

#[test]
fn test_dependency_apply_preset_without_force_filters() {
    let preset = &build_preset(false);
    let sut = &mut Dependency::new("some-url", "some-refname");
    sut.filters = get_dep_filters();

    let mut expected = sut.filters.clone();
    expected.merge(&preset.dependency_filters(sut));
    assert_ne!(expected, sut.filters);
    sut.apply_preset(preset);
    assert_eq!(expected, sut.filters);
}

#[test]
fn test_dependency_apply_preset_with_force_filters() {
    let preset = &build_preset(true);
    let sut = &mut Dependency::new("some-url", "some-refname");
    sut.filters = get_dep_filters();

    assert_ne!(preset.dependency_filters(sut), sut.filters);
    sut.apply_preset(preset);
    assert_eq!(preset.dependency_filters(sut), sut.filters);
}

#[test]
fn test_dependency_to_locked_dependency() {
    let sut = Dependency::new("some-url", "some-refname");
    let locked = sut.to_locked_dependency("other-refname");

    assert_eq!(sut.url, locked.url);
    assert_eq!("other-refname", locked.refname);
}

#[test]
fn test_dependency_update_from() {
    let mut original = Dependency::new("url-a", "refname-a");
    original.filters.add_extensions(&svec(&["a"]));
    original.filters.add_targets(&svec(&["b"]));
    original.filters.add_ignores(&svec(&["c"]));

    let mut other = Dependency::new("url-b", "refname-b");
    other.filters.add_extensions(&svec(&["1"]));
    other.filters.add_targets(&svec(&["2"]));
    other.filters.add_ignores(&svec(&["3"]));

    let mut actual = original.clone();
    actual.update_from(&other);

    assert_eq!("refname-b", actual.refname);
    assert_eq!(actual.filters, other.filters);
}

#[test]
fn test_new_default_instance() {
    let sut = VendorLock::new();

    assert_eq!(
        VERSION, sut.version,
        "default instance version should be crate version"
    );
    assert_eq!(0, sut.deps.len(), "default instance should have no deps");
}

#[test]
fn test_add_dependency() {
    let mut sut = VendorLock::new();
    let dep = LockedDependency::new("some url", "some ref");

    sut.add(dep.clone());

    assert_eq!(1, sut.deps.len());
    assert_eq!(dep, sut.deps.first().unwrap().to_owned());
}

#[test]
fn test_initialise_save_then_load() {
    let dep = LockedDependency::new("some url", "some ref");
    let mut sut = VendorLock::new();
    sut.add(dep);

    let saved = sut.save_to_string();
    let actual = VendorLock::load_from_string(&saved).unwrap();

    assert_eq!(sut, actual);
}

#[test]
fn test_cannot_load_invalid_file() {
    let actual = VendorLock::load_from_string("bf");
    assert!(actual.is_none(), "there should be an error");
}

#[test]
fn test_save_format_is_line_based() {
    let mut sut = VendorLock::new();
    sut.version = "1.0.0".to_string();
    sut.add(LockedDependency::new("u", "r"));
    sut.updated_at = -5;

    let saved = sut.save_to_string();
    assert_eq!("version 1.0.0\nupdated -5\ndep u\nref r\n", saved);
}

#[test]
fn test_add_same_identity_is_idempotent() {
    let mut sut = VendorLock::new();
    sut.add(LockedDependency::new("https://example.com/a", "v1"));
    sut.add(LockedDependency::new("https://example.com/a", "v1"));

    assert_eq!(1, sut.deps.len());
    assert_eq!("v1", sut.deps[0].refname);
}

#[test]
fn test_add_differing_reference_replaces_entry() {
    let mut sut = VendorLock::new();
    sut.add(LockedDependency::new("https://example.com/a", "v1"));
    sut.add(LockedDependency::new("HTTPS://EXAMPLE.COM/A", "v2"));

    assert_eq!(1, sut.deps.len());
    assert_eq!("https://example.com/a", sut.deps[0].url);
    assert_eq!("v2", sut.deps[0].refname);
}

#[test]
fn test_find_dep_is_case_insensitive() {
    let mut sut = VendorLock::new();
    sut.add(LockedDependency::new("https://example.com/a", "v1"));

    let found = sut.find_dep("HTTPS://Example.COM/A").unwrap();
    assert_eq!("https://example.com/a", found.url);
    assert_eq!("v1", found.refname);
    assert!(sut.find_dep("https://example.com/b").is_none());
}

#[test]
fn test_lint_sorts_and_dedups() {
    let mut sut = VendorLock::new();
    sut.deps = vec![
        LockedDependency::new("b-url", "v3"),
        LockedDependency::new("a-url", "v1"),
        LockedDependency::new("a-url", "v2"),
    ];

    sut.lint();

    assert_eq!(2, sut.deps.len());
    assert_eq!("a-url", sut.deps[0].url);
    assert_eq!("v1", sut.deps[0].refname);
    assert_eq!("b-url", sut.deps[1].url);
}

#[test]
fn test_filters_merge_appends() {
    let mut a = Filters::new();
    a.add_targets(&svec(&["x"]));
    let mut b = Filters::new();
    b.add_targets(&svec(&["y"]));
    b.add_ignores(&svec(&["z"]));

    a.merge(&b);

    assert_eq!(svec(&["x", "y"]), a.targets);
    assert_eq!(svec(&["z"]), a.ignores);
    assert!(a.extensions.is_empty());
}
