use pie::{contains_text, search_by_name, Catalog, Package};

fn named(name: &str) -> Package {
    Package {
        name: name.to_string(),
        version: "1".to_string(),
        min_api: None,
        dependencies: vec![],
        conflicts: vec![],
        architectures: vec![],
    }
}

#[test]
fn search_ignores_case_and_keeps_order() {
    let catalog = Catalog {
        packages: vec![named("curl"), named("libcurl"), named("wget"), named("Curlew")],
    };
    assert_eq!(
        search_by_name(&catalog, "CURL"),
        vec!["curl".to_string(), "libcurl".to_string(), "Curlew".to_string()]
    );
    assert_eq!(search_by_name(&catalog, "zz"), Vec::<String>::new());
    assert_eq!(search_by_name(&catalog, "").len(), 4);
}

#[test]
fn substring_search() {
    assert!(contains_text("libcurl", "curl"));
    assert!(contains_text("curl", "curl"));
    assert!(contains_text("abc", ""));
    assert!(!contains_text("cur", "curl"));
    assert!(!contains_text("cxurl", "curl"));
    assert!(contains_text("aab", "ab"));
}
