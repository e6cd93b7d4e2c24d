use pie::{
    accept_download, check_api_compatibility, check_architecture, digest_matches, parse_api_level,
    plan_install, prepare_install, resolve_install_target, resolve_uninstall_target, select_artifact,
    Artifact, Catalog, InstallPlan, InstalledPackage, Ledger, Package, PieError, Preparation,
};
use sha2::Digest;

fn strings(v: &[&str]) -> Vec<String> {
    v.iter().map(|s| s.to_string()).collect()
}

fn sha_hex(data: &[u8]) -> String {
    hex::encode(sha2::Sha256::digest(data))
}

fn curl_catalog(sha: &str) -> Catalog {
    Catalog {
        packages: vec![Package {
            name: "curl".to_string(),
            version: "8.1".to_string(),
            min_api: None,
            dependencies: vec![],
            conflicts: vec![],
            architectures: vec![Artifact {
                arch: "arm64-v8a".to_string(),
                url: "https://example.org/curl.tar.zst".to_string(),
                sha256: sha.to_string(),
                size: 100,
                uncompressed_size: 300,
                contents: strings(&["usr/bin/curl"]),
            }],
        }],
    }
}

fn simple(name: &str, deps: &[&str], size: u64, uncompressed: u64) -> Package {
    Package {
        name: name.to_string(),
        version: "1".to_string(),
        min_api: None,
        dependencies: strings(deps),
        conflicts: vec![],
        architectures: vec![Artifact {
            arch: "x86".to_string(),
            url: String::new(),
            sha256: String::new(),
            size,
            uncompressed_size: uncompressed,
            contents: vec![],
        }],
    }
}

fn with_min_api(min_api: Option<&str>) -> Package {
    let mut p = curl_catalog("").packages.remove(0);
    p.min_api = min_api.map(|s| s.to_string());
    p
}

#[test]
fn curl_install_records_ledger_entry() {
    let archive = b"curl archive bytes".to_vec();
    let catalog = curl_catalog(&sha_hex(&archive));
    let mut ledger = Ledger::new();
    let prep = prepare_install(&catalog, &ledger, "curl", 30).unwrap();
    assert_eq!(prep, Preparation::Proceed { conflicts: vec![] });
    let plan = plan_install(&catalog, &ledger, "curl", "arm64-v8a").unwrap();
    assert_eq!(plan, InstallPlan { dependencies: vec![], download_size: 100, installed_size: 300 });
    let (package, artifact) = select_artifact(&catalog, "curl", "arm64-v8a").unwrap();
    let entry = accept_download(package, artifact, &archive).unwrap();
    assert_eq!(
        entry,
        InstalledPackage {
            name: "curl".to_string(),
            version: "8.1".to_string(),
            contents: strings(&["usr/bin/curl"]),
        }
    );
    ledger.insert(entry);
    assert_eq!(ledger.len(), 1);
    assert_eq!(ledger.get("curl").unwrap().contents, strings(&["usr/bin/curl"]));
}

#[test]
fn checksum_mismatch_refuses_download() {
    let catalog = curl_catalog(&sha_hex(b"the real archive"));
    let (package, artifact) = select_artifact(&catalog, "curl", "arm64-v8a").unwrap();
    assert_eq!(
        accept_download(package, artifact, b"a tampered archive"),
        Err(PieError::ChecksumMismatch("curl".to_string()))
    );
}

#[test]
fn checksum_comparison_is_exact() {
    let catalog = curl_catalog(&sha_hex(b"x").to_uppercase());
    let (package, artifact) = select_artifact(&catalog, "curl", "arm64-v8a").unwrap();
    assert!(accept_download(package, artifact, b"x").is_err());
}

#[test]
fn digest_is_compared_as_lowercase_hex() {
    assert!(digest_matches(&[0xab, 0x01, 0xf0], "ab01f0"));
    assert!(!digest_matches(&[0xab, 0x01, 0xf0], "AB01F0"));
    assert!(!digest_matches(&[0xab], "ab01"));
    assert!(digest_matches(&[], ""));
}

#[test]
fn already_installed_is_a_no_op() {
    let catalog = curl_catalog("00");
    let mut ledger = Ledger::new();
    ledger.insert(InstalledPackage {
        name: "curl".to_string(),
        version: "8.0".to_string(),
        contents: strings(&["usr/bin/curl"]),
    });
    assert_eq!(prepare_install(&catalog, &ledger, "curl", 30), Ok(Preparation::AlreadyInstalled));
    assert_eq!(ledger.len(), 1);
    assert_eq!(ledger.get("curl").unwrap().version, "8.0");
}

#[test]
fn newer_api_requirement_is_refused() {
    let mut catalog = curl_catalog("00");
    catalog.packages[0].min_api = Some("24".to_string());
    let ledger = Ledger::new();
    assert_eq!(
        prepare_install(&catalog, &ledger, "curl", 21),
        Err(PieError::IncompatibleApi { required: 24, device: 21 })
    );
    assert_eq!(
        check_api_compatibility(&catalog.packages[0], 21),
        Err(PieError::IncompatibleApi { required: 24, device: 21 })
    );
    assert_eq!(check_api_compatibility(&catalog.packages[0], 24), Ok(()));
}

#[test]
fn api_requirement_forms() {
    assert_eq!(check_api_compatibility(&with_min_api(None), 1), Ok(()));
    assert_eq!(check_api_compatibility(&with_min_api(Some("")), 1), Ok(()));
    assert_eq!(check_api_compatibility(&with_min_api(Some(" ")), 1), Ok(()));
    assert_eq!(check_api_compatibility(&with_min_api(Some("\t\n\u{3000}")), 1), Ok(()));
    assert_eq!(
        check_api_compatibility(&with_min_api(Some(" 24")), 30),
        Err(PieError::InvalidMinApi(" 24".to_string()))
    );
    assert_eq!(
        check_api_compatibility(&with_min_api(Some("abc")), 1),
        Err(PieError::InvalidMinApi("abc".to_string()))
    );
    assert_eq!(
        check_api_compatibility(&with_min_api(Some("-3")), 1),
        Err(PieError::InvalidMinApi("-3".to_string()))
    );
}

#[test]
fn api_levels_parse_like_u32() {
    assert_eq!(parse_api_level("21"), Some(21));
    assert_eq!(parse_api_level("+7"), Some(7));
    assert_eq!(parse_api_level("0034"), Some(34));
    assert_eq!(parse_api_level("4294967295"), Some(4294967295));
    assert_eq!(parse_api_level("4294967296"), None);
    assert_eq!(parse_api_level("99999999999999999999999"), None);
    assert_eq!(parse_api_level(""), None);
    assert_eq!(parse_api_level("+"), None);
    assert_eq!(parse_api_level(" 21"), None);
    assert_eq!(parse_api_level("2a"), None);
}

#[test]
fn supported_architectures() {
    for arch in ["arm64-v8a", "armeabi-v7a", "x86", "x86_64", "riscv64"] {
        assert_eq!(check_architecture(arch), Ok(()));
    }
    assert_eq!(
        check_architecture("mips"),
        Err(PieError::UnsupportedArchitecture("mips".to_string()))
    );
}

#[test]
fn plan_adds_sizes_of_target_and_dependencies() {
    let mut no_x86 = simple("c", &[], 0, 0);
    no_x86.architectures[0].arch = "arm64-v8a".to_string();
    no_x86.architectures[0].size = 999;
    let catalog = Catalog {
        packages: vec![
            simple("a", &["b", "c"], 10, 100),
            simple("b", &[], 5, 50),
            no_x86,
        ],
    };
    let plan = plan_install(&catalog, &Ledger::new(), "a", "x86").unwrap();
    assert_eq!(plan.dependencies, strings(&["b", "c"]));
    assert_eq!(plan.download_size, 15);
    assert_eq!(plan.installed_size, 150);
}

#[test]
fn plan_sizes_saturate() {
    let catalog = Catalog {
        packages: vec![simple("a", &["b"], u64::MAX, 1), simple("b", &[], 2, 2)],
    };
    let plan = plan_install(&catalog, &Ledger::new(), "a", "x86").unwrap();
    assert_eq!(plan.download_size, u64::MAX);
    assert_eq!(plan.installed_size, 3);
}

#[test]
fn artifact_selection_errors() {
    let catalog = curl_catalog("00");
    assert_eq!(
        select_artifact(&catalog, "wget", "arm64-v8a").err(),
        Some(PieError::NotFound("wget".to_string()))
    );
    assert_eq!(
        select_artifact(&catalog, "curl", "x86").err(),
        Some(PieError::ArchitectureUnavailable {
            package: "curl".to_string(),
            arch: "x86".to_string()
        })
    );
}

#[test]
fn unknown_install_target_not_found() {
    let catalog = curl_catalog("00");
    let ledger = Ledger::new();
    assert_eq!(
        prepare_install(&catalog, &ledger, "wget", 30),
        Err(PieError::NotFound("wget".to_string()))
    );
    assert_eq!(
        resolve_install_target(&catalog, "wget", "arm64-v8a"),
        Err(PieError::NotFound("wget".to_string()))
    );
}

#[test]
fn install_target_by_name_or_content() {
    let catalog = curl_catalog("00");
    assert_eq!(
        resolve_install_target(&catalog, "curl", "arm64-v8a"),
        Ok(("curl".to_string(), false))
    );
    assert_eq!(
        resolve_install_target(&catalog, "usr/bin/curl", "arm64-v8a"),
        Ok(("curl".to_string(), true))
    );
}

#[test]
fn uninstall_removes_recorded_paths_once() {
    let catalog = curl_catalog("00");
    let mut ledger = Ledger::new();
    ledger.insert(InstalledPackage {
        name: "curl".to_string(),
        version: "8.1".to_string(),
        contents: strings(&["usr/bin/curl", "usr/lib/libcurl.so"]),
    });
    ledger.insert(InstalledPackage {
        name: "zlib".to_string(),
        version: "1.3".to_string(),
        contents: strings(&["usr/lib/libz.so"]),
    });
    assert_eq!(
        resolve_uninstall_target(&catalog, &ledger, "curl", "arm64-v8a"),
        Ok(("curl".to_string(), false))
    );
    let removed = ledger.remove("curl").unwrap();
    assert_eq!(removed.contents, strings(&["usr/bin/curl", "usr/lib/libcurl.so"]));
    assert_eq!(ledger.len(), 1);
    assert_eq!(ledger.get("zlib").unwrap().contents, strings(&["usr/lib/libz.so"]));
    assert_eq!(ledger.remove("curl"), None);
    assert_eq!(ledger.len(), 1);
    assert_eq!(
        resolve_uninstall_target(&catalog, &ledger, "curl", "arm64-v8a"),
        Err(PieError::NotInstalled("curl".to_string()))
    );
    assert_eq!(
        resolve_uninstall_target(&catalog, &ledger, "wget", "arm64-v8a"),
        Err(PieError::NotInstalled("wget".to_string()))
    );
}

#[test]
fn uninstall_target_by_content() {
    let catalog = curl_catalog("00");
    let mut ledger = Ledger::new();
    ledger.insert(InstalledPackage {
        name: "curl".to_string(),
        version: "8.1".to_string(),
        contents: strings(&["usr/bin/curl"]),
    });
    assert_eq!(
        resolve_uninstall_target(&catalog, &ledger, "curl", "arm64-v8a"),
        Ok(("curl".to_string(), false))
    );
    assert_eq!(
        resolve_uninstall_target(&catalog, &ledger, "bin/curl", "arm64-v8a"),
        Ok(("curl".to_string(), true))
    );
}

#[test]
fn ledger_insert_replaces_same_name() {
    let mut ledger = Ledger::new();
    ledger.insert(InstalledPackage { name: "a".to_string(), version: "1".to_string(), contents: vec![] });
    ledger.insert(InstalledPackage { name: "a".to_string(), version: "2".to_string(), contents: vec![] });
    assert_eq!(ledger.len(), 1);
    assert_eq!(ledger.get("a").unwrap().version, "2");
    assert!(ledger.contains("a"));
    assert!(!ledger.contains("b"));
}

#[test]
fn declared_min_api() {
    assert!(!with_min_api(None).declares_min_api());
    assert!(!with_min_api(Some("")).declares_min_api());
    assert!(!with_min_api(Some("  ")).declares_min_api());
    assert!(with_min_api(Some("21")).declares_min_api());
}

#[test]
fn content_named_target_is_checked_when_found() {
    let mut catalog = curl_catalog("00");
    catalog.packages[0].min_api = Some("x1".to_string());
    assert_eq!(
        prepare_install(&catalog, &Ledger::new(), "curl", 30),
        Err(PieError::InvalidMinApi("x1".to_string()))
    );
}

#[test]
fn conflicts_reported_by_prepare() {
    let mut catalog = curl_catalog("00");
    catalog.packages[0].conflicts = strings(&["wget", "busybox-curl"]);
    let mut ledger = Ledger::new();
    ledger.insert(InstalledPackage {
        name: "busybox-curl".to_string(),
        version: "1".to_string(),
        contents: strings(&["bin/curl"]),
    });
    assert_eq!(
        prepare_install(&catalog, &ledger, "curl", 30),
        Ok(Preparation::Proceed { conflicts: strings(&["busybox-curl"]) })
    );
}

#[test]
fn uninstall_by_content_picks_installed_provider() {
    let mut catalog = curl_catalog("00");
    let mut other = catalog.packages[0].clone();
    other.name = "curl-lite".to_string();
    catalog.packages.push(other);
    let mut ledger = Ledger::new();
    ledger.insert(InstalledPackage {
        name: "curl-lite".to_string(),
        version: "1".to_string(),
        contents: strings(&["usr/bin/curl"]),
    });
    assert_eq!(
        resolve_uninstall_target(&catalog, &ledger, "bin/curl", "arm64-v8a"),
        Ok(("curl-lite".to_string(), true))
    );
}
