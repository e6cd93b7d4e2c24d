use pie::{
    find_package_by_content, less_than, resolve_dependencies, stage_conflicts, Artifact, Catalog,
    InstalledPackage, Ledger, Package, PieError,
};

fn strings(v: &[&str]) -> Vec<String> {
    v.iter().map(|s| s.to_string()).collect()
}

fn artifact(arch: &str, contents: &[&str]) -> Artifact {
    Artifact {
        arch: arch.to_string(),
        url: format!("https://example.org/{arch}.tar.zst"),
        sha256: "00".to_string(),
        size: 10,
        uncompressed_size: 20,
        contents: strings(contents),
    }
}

fn package(name: &str, deps: &[&str], conflicts: &[&str], contents: &[&str]) -> Package {
    Package {
        name: name.to_string(),
        version: "1.0".to_string(),
        min_api: None,
        dependencies: strings(deps),
        conflicts: strings(conflicts),
        architectures: vec![artifact("arm64-v8a", contents)],
    }
}

fn installed(name: &str, contents: &[&str]) -> InstalledPackage {
    InstalledPackage {
        name: name.to_string(),
        version: "0.9".to_string(),
        contents: strings(contents),
    }
}

#[test]
fn no_dependencies_resolve_to_nothing() {
    let catalog = Catalog { packages: vec![package("curl", &[], &[], &["usr/bin/curl"])] };
    let ledger = Ledger::new();
    assert_eq!(resolve_dependencies(&catalog, "curl", &ledger), Ok(vec![]));
}

#[test]
fn diamond_dependency_comes_once_before_dependents() {
    let catalog = Catalog {
        packages: vec![
            package("a", &["b", "c"], &[], &[]),
            package("b", &["d"], &[], &[]),
            package("c", &["d"], &[], &[]),
            package("d", &[], &[], &[]),
        ],
    };
    let ledger = Ledger::new();
    assert_eq!(resolve_dependencies(&catalog, "a", &ledger), Ok(strings(&["d", "b", "c"])));
}

#[test]
fn cyclic_dependencies_terminate() {
    let catalog = Catalog {
        packages: vec![package("a", &["b"], &[], &[]), package("b", &["a"], &[], &[])],
    };
    let ledger = Ledger::new();
    assert_eq!(resolve_dependencies(&catalog, "a", &ledger), Ok(strings(&["b"])));
}

#[test]
fn longer_cycle_schedules_each_once() {
    let catalog = Catalog {
        packages: vec![
            package("a", &["b"], &[], &[]),
            package("b", &["c"], &[], &[]),
            package("c", &["b", "d"], &[], &[]),
            package("d", &[], &[], &[]),
        ],
    };
    let ledger = Ledger::new();
    assert_eq!(resolve_dependencies(&catalog, "a", &ledger), Ok(strings(&["d", "c", "b"])));
}

#[test]
fn installed_dependencies_are_skipped() {
    let catalog = Catalog {
        packages: vec![
            package("a", &["b", "c"], &[], &[]),
            package("b", &["x"], &[], &[]),
            package("c", &[], &[], &[]),
        ],
    };
    let mut ledger = Ledger::new();
    ledger.insert(installed("b", &[]));
    assert_eq!(resolve_dependencies(&catalog, "a", &ledger), Ok(strings(&["c"])));
}

#[test]
fn missing_dependency_fails_resolution() {
    let catalog = Catalog {
        packages: vec![package("a", &["b"], &[], &[]), package("b", &["ghost"], &[], &[])],
    };
    let ledger = Ledger::new();
    assert_eq!(
        resolve_dependencies(&catalog, "a", &ledger),
        Err(PieError::NotFound("ghost".to_string()))
    );
}

#[test]
fn missing_target_fails_resolution() {
    let catalog = Catalog { packages: vec![] };
    let ledger = Ledger::new();
    assert_eq!(
        resolve_dependencies(&catalog, "nope", &ledger),
        Err(PieError::NotFound("nope".to_string()))
    );
}

#[test]
fn busybox_found_by_binary_name() {
    let catalog = Catalog {
        packages: vec![
            package("libs", &[], &[], &["usr/lib/libbusybox.so", "usr/share/busybox.txt"]),
            package("busybox", &[], &[], &["system/bin/busybox"]),
        ],
    };
    assert_eq!(
        find_package_by_content(&catalog, "busybox", "arm64-v8a"),
        Some("busybox".to_string())
    );
    let without = Catalog {
        packages: vec![package("libs", &[], &[], &["usr/lib/libbusybox.so"])],
    };
    assert_eq!(find_package_by_content(&without, "busybox", "arm64-v8a"), None);
}

#[test]
fn locator_matches_whole_paths_and_bin_entries() {
    let catalog = Catalog {
        packages: vec![package("tools", &[], &[], &["bin/ls", "etc/tools.conf"])],
    };
    assert_eq!(find_package_by_content(&catalog, "ls", "arm64-v8a"), Some("tools".to_string()));
    assert_eq!(
        find_package_by_content(&catalog, "etc/tools.conf", "arm64-v8a"),
        Some("tools".to_string())
    );
    assert_eq!(find_package_by_content(&catalog, "s", "arm64-v8a"), None);
    assert_eq!(find_package_by_content(&catalog, "ls", "x86"), None);
}

#[test]
fn locator_picks_first_in_catalog_order() {
    let catalog = Catalog {
        packages: vec![
            package("alpha", &[], &[], &["bin/sh"]),
            package("beta", &[], &[], &["xbin/sh"]),
        ],
    };
    assert_eq!(find_package_by_content(&catalog, "sh", "arm64-v8a"), Some("alpha".to_string()));
}

#[test]
fn conflicts_staged_only_when_installed() {
    let p = package("new", &[], &["old", "other", "older"], &[]);
    let mut ledger = Ledger::new();
    ledger.insert(installed("older", &[]));
    ledger.insert(installed("old", &[]));
    assert_eq!(stage_conflicts(&p, &ledger), strings(&["old", "older"]));
    assert_eq!(stage_conflicts(&p, &Ledger::new()), Vec::<String>::new());
}

#[test]
fn catalog_needs_ascending_unique_names() {
    let sorted = vec![package("a", &[], &[], &[]), package("b", &[], &[], &[])];
    assert!(Catalog::new(sorted).is_some());
    let unsorted = vec![package("b", &[], &[], &[]), package("a", &[], &[], &[])];
    assert!(Catalog::new(unsorted).is_none());
    let twice = vec![package("a", &[], &[], &[]), package("a", &[], &[], &[])];
    assert!(Catalog::new(twice).is_none());
    assert!(Catalog::new(vec![]).is_some());
}

#[test]
fn names_order_by_code_point() {
    assert!(less_than("abc", "abd"));
    assert!(less_than("ab", "abc"));
    assert!(!less_than("abc", "ab"));
    assert!(!less_than("abc", "abc"));
    assert!(less_than("Z", "a"));
    assert!(less_than("", "a"));
    assert!(!less_than("", ""));
}
