use pie::{
    Action, Artifact, Catalog, InstallPlan, InstallSession, InstalledPackage, Ledger, Outcome,
    Package, Phase, PieError,
};
use sha2::Digest;

fn strings(v: &[&str]) -> Vec<String> {
    v.iter().map(|s| s.to_string()).collect()
}

fn sha_hex(data: &[u8]) -> String {
    hex::encode(sha2::Sha256::digest(data))
}

fn pkg(name: &str, deps: &[&str], conflicts: &[&str], archive: &[u8], contents: &[&str]) -> Package {
    Package {
        name: name.to_string(),
        version: "8.1".to_string(),
        min_api: None,
        dependencies: strings(deps),
        conflicts: strings(conflicts),
        architectures: vec![Artifact {
            arch: "arm64-v8a".to_string(),
            url: format!("https://example.org/{name}.tar.zst"),
            sha256: sha_hex(archive),
            size: 100,
            uncompressed_size: 300,
            contents: strings(contents),
        }],
    }
}

fn entry(name: &str, version: &str, contents: &[&str]) -> InstalledPackage {
    InstalledPackage { name: name.to_string(), version: version.to_string(), contents: strings(contents) }
}

#[test]
fn session_installs_curl_unattended() {
    let catalog = Catalog { packages: vec![pkg("curl", &[], &[], b"curl-archive", &["usr/bin/curl"])] };
    let mut s = InstallSession::new("curl".to_string(), "arm64-v8a".to_string(), true, Ledger::new());
    assert_eq!(
        s.start(&catalog),
        Action::Fetch {
            package: "curl".to_string(),
            url: "https://example.org/curl.tar.zst".to_string()
        }
    );
    assert_eq!(s.fetched(&catalog, b"curl-archive"), Action::Unpack { package: "curl".to_string() });
    assert_eq!(s.ledger.len(), 0);
    assert_eq!(s.unpacked(&catalog), Action::Persist);
    assert_eq!(s.ledger.get("curl"), Some(&entry("curl", "8.1", &["usr/bin/curl"])));
    assert_eq!(s.ledger.len(), 1);
    assert_eq!(s.persisted(), Action::Finish(Outcome::Installed));
    assert_eq!(s.phase, Phase::Done);
}

#[test]
fn session_stops_on_checksum_mismatch() {
    let catalog = Catalog { packages: vec![pkg("curl", &[], &[], b"curl-archive", &["usr/bin/curl"])] };
    let mut s = InstallSession::new("curl".to_string(), "arm64-v8a".to_string(), true, Ledger::new());
    assert!(matches!(s.start(&catalog), Action::Fetch { .. }));
    assert_eq!(
        s.fetched(&catalog, b"tampered"),
        Action::Abort(PieError::ChecksumMismatch("curl".to_string()))
    );
    assert_eq!(s.phase, Phase::Aborted);
    assert_eq!(s.ledger.len(), 0);
    assert_eq!(s.pending, None);
    assert_eq!(s.unpacked(&catalog), Action::OutOfOrder);
}

#[test]
fn session_already_installed_fetches_nothing() {
    let catalog = Catalog { packages: vec![pkg("curl", &[], &[], b"a", &["usr/bin/curl"])] };
    let mut ledger = Ledger::new();
    ledger.insert(entry("curl", "8.0", &["usr/bin/curl"]));
    let mut s = InstallSession::new("curl".to_string(), "arm64-v8a".to_string(), true, ledger);
    assert_eq!(s.start(&catalog), Action::Finish(Outcome::AlreadyInstalled));
    assert_eq!(s.ledger.get("curl"), Some(&entry("curl", "8.0", &["usr/bin/curl"])));
    assert_eq!(s.ledger.len(), 1);
}

#[test]
fn session_refuses_newer_api_before_fetching() {
    let mut curl = pkg("curl", &[], &[], b"a", &["usr/bin/curl"]);
    curl.min_api = Some("24".to_string());
    let catalog = Catalog { packages: vec![curl] };
    let mut s = InstallSession::new("curl".to_string(), "arm64-v8a".to_string(), true, Ledger::new());
    assert_eq!(s.start(&catalog), Action::QueryApiLevel);
    assert_eq!(
        s.api_level(&catalog, 21),
        Action::Abort(PieError::IncompatibleApi { required: 24, device: 21 })
    );
    assert_eq!(s.phase, Phase::Aborted);
}

#[test]
fn session_asks_before_each_step() {
    let catalog = Catalog {
        packages: vec![
            pkg("app", &["lib"], &["old"], b"app", &["bin/app"]),
            pkg("lib", &[], &[], b"lib", &["lib/libx.so"]),
        ],
    };
    let mut ledger = Ledger::new();
    ledger.insert(entry("old", "1", &["bin/app"]));
    let mut s = InstallSession::new("bin/app".to_string(), "arm64-v8a".to_string(), false, ledger);
    assert_eq!(s.start(&catalog), Action::ConfirmTarget { package: "app".to_string() });
    assert_eq!(s.answer(&catalog, true), Action::ConfirmConflicts { conflicts: strings(&["old"]) });
    assert_eq!(
        s.answer(&catalog, true),
        Action::RemoveFiles { removed: vec![entry("old", "1", &["bin/app"])] }
    );
    assert_eq!(s.ledger.len(), 0);
    assert_eq!(
        s.files_removed(&catalog),
        Action::ConfirmPlan {
            plan: InstallPlan {
                dependencies: strings(&["lib"]),
                download_size: 200,
                installed_size: 600
            }
        }
    );
    assert_eq!(
        s.answer(&catalog, true),
        Action::Fetch { package: "lib".to_string(), url: "https://example.org/lib.tar.zst".to_string() }
    );
    assert_eq!(s.fetched(&catalog, b"lib"), Action::Unpack { package: "lib".to_string() });
    assert_eq!(
        s.unpacked(&catalog),
        Action::Fetch { package: "app".to_string(), url: "https://example.org/app.tar.zst".to_string() }
    );
    assert_eq!(s.fetched(&catalog, b"app"), Action::Unpack { package: "app".to_string() });
    assert_eq!(s.unpacked(&catalog), Action::Persist);
    assert_eq!(s.ledger.len(), 2);
    assert_eq!(s.persisted(), Action::Finish(Outcome::Installed));
}

#[test]
fn session_declines() {
    let catalog = Catalog {
        packages: vec![pkg("app", &[], &["old"], b"app", &["bin/app"])],
    };
    let mut ledger = Ledger::new();
    ledger.insert(entry("old", "1", &["bin/old"]));
    let mut s = InstallSession::new("app".to_string(), "arm64-v8a".to_string(), false, ledger);
    assert_eq!(s.start(&catalog), Action::ConfirmConflicts { conflicts: strings(&["old"]) });
    assert_eq!(s.answer(&catalog, false), Action::Abort(PieError::Cancelled));
    assert_eq!(s.ledger.len(), 1);

    let mut t = InstallSession::new("bin/app".to_string(), "arm64-v8a".to_string(), false, Ledger::new());
    assert_eq!(t.start(&catalog), Action::ConfirmTarget { package: "app".to_string() });
    assert_eq!(t.answer(&catalog, false), Action::Abort(PieError::Cancelled));

    let mut u = InstallSession::new("app".to_string(), "arm64-v8a".to_string(), false, Ledger::new());
    assert!(matches!(u.start(&catalog), Action::ConfirmPlan { .. }));
    assert_eq!(u.answer(&catalog, false), Action::Abort(PieError::Cancelled));
    assert_eq!(u.ledger.len(), 0);
}

#[test]
fn session_reports_missing_target_and_arch() {
    let catalog = Catalog { packages: vec![pkg("app", &[], &[], b"app", &["bin/app"])] };
    let mut s = InstallSession::new("nope".to_string(), "arm64-v8a".to_string(), true, Ledger::new());
    assert_eq!(s.start(&catalog), Action::Abort(PieError::NotFound("nope".to_string())));
    let mut t = InstallSession::new("app".to_string(), "x86".to_string(), true, Ledger::new());
    assert_eq!(
        t.start(&catalog),
        Action::Abort(PieError::ArchitectureUnavailable {
            package: "app".to_string(),
            arch: "x86".to_string()
        })
    );
    assert_eq!(t.start(&catalog), Action::OutOfOrder);
}
