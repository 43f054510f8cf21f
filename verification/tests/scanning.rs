//! The scanner and the resolver on concrete directory trees.

use cargo_3pl::metadata::Dependency;
use cargo_3pl::resolve::find_packages;
use cargo_3pl::resolve::resolve_package;
use cargo_3pl::scan::find_license_files;
use cargo_3pl::scan::FsEntry;

fn file(name: &str) -> FsEntry {
    FsEntry::File { name: name.to_string() }
}

fn dir(name: &str, entries: Vec<FsEntry>) -> FsEntry {
    FsEntry::Dir { name: name.to_string(), entries }
}

fn dep(name: &str, version: &str, source_dir: &str) -> Dependency {
    Dependency {
        name: name.to_string(),
        version: version.to_string(),
        source_dir: source_dir.to_string(),
        license: None,
        license_file: None,
        url: None,
    }
}

#[test]
fn nonexistent_directory_yields_empty() {
    let found = find_license_files("/src/a", &None);
    assert!(found.is_empty());
}

#[test]
fn empty_directory_yields_empty() {
    let found = find_license_files("/src/a", &Some(vec![]));
    assert!(found.is_empty());
}

#[test]
fn scan_finds_nested_license_files() {
    let tree = Some(vec![
        file("LICENSE.txt"),
        dir("sub", vec![file("NOTICE.md"), file("readme.txt")]),
    ]);
    let found = find_license_files("/src/a", &tree);
    assert_eq!(found, vec!["/src/a/LICENSE.txt", "/src/a/sub/NOTICE.md"]);
}

#[test]
fn resolved_files_are_sorted_by_full_path() {
    let tree = Some(vec![
        dir("sub", vec![file("NOTICE.md")]),
        file("LICENSE.txt"),
        file("COPYING"),
    ]);
    let p = resolve_package(&dep("a", "1.0.0", "/src/a"), &tree, false);
    let paths: Vec<&str> = p.license_files.iter().map(|f| f.path.as_str()).collect();
    assert_eq!(paths, vec!["/src/a/COPYING", "/src/a/LICENSE.txt", "/src/a/sub/NOTICE.md"]);
    let rels: Vec<&str> = p.license_files.iter().map(|f| f.relative_path.as_str()).collect();
    assert_eq!(rels, vec!["COPYING", "LICENSE.txt", "sub/NOTICE.md"]);
}

#[test]
fn hint_already_scanned_is_not_duplicated() {
    let tree = Some(vec![file("LICENSE.txt"), file("COPYING")]);
    let mut d = dep("a", "1.0.0", "/src/a");
    d.license_file = Some("LICENSE.txt".to_string());
    let p = resolve_package(&d, &tree, false);
    let paths: Vec<&str> = p.license_files.iter().map(|f| f.path.as_str()).collect();
    assert_eq!(paths, vec!["/src/a/COPYING", "/src/a/LICENSE.txt"]);
}

#[test]
fn new_hint_is_appended_after_sorted_scan_results() {
    let tree = Some(vec![file("NOTICE.md"), file("COPYING")]);
    let mut d = dep("a", "1.0.0", "/src/a");
    d.license_file = Some("AGREEMENT".to_string());
    let p = resolve_package(&d, &tree, false);
    let paths: Vec<&str> = p.license_files.iter().map(|f| f.path.as_str()).collect();
    assert_eq!(paths, vec!["/src/a/COPYING", "/src/a/NOTICE.md", "/src/a/AGREEMENT"]);
    assert_eq!(p.license_files[2].relative_path, "AGREEMENT");
}

#[test]
fn hint_may_point_into_a_subdirectory() {
    let tree = Some(vec![file("COPYING")]);
    let mut d = dep("a", "1.0.0", "/src/a");
    d.license_file = Some("docs/LICENSE.rst".to_string());
    let p = resolve_package(&d, &tree, false);
    let paths: Vec<&str> = p.license_files.iter().map(|f| f.path.as_str()).collect();
    assert_eq!(paths, vec!["/src/a/COPYING", "/src/a/docs/LICENSE.rst"]);
    assert_eq!(p.license_files[1].relative_path, "docs/LICENSE.rst");
}

#[test]
fn deeply_nested_files_are_found() {
    let tree = Some(vec![dir(
        "a",
        vec![dir("b", vec![file("COPYING.md"), file("build.rs")]), file("notes.txt")],
    )]);
    let found = find_license_files("/r", &tree);
    assert_eq!(found, vec!["/r/a/b/COPYING.md"]);
}

#[test]
fn multiple_versions_marked_across_the_set() {
    let deps = vec![
        dep("foo", "1.0.0", "/src/foo-1.0.0"),
        dep("bar", "1.0.0", "/src/bar-1.0.0"),
        dep("foo", "2.0.0", "/src/foo-2.0.0"),
    ];
    let trees = vec![None, None, None];
    let packages = find_packages(&deps, &trees);
    assert_eq!(packages.len(), 3);
    assert!(packages[0].multiple_versions);
    assert!(!packages[1].multiple_versions);
    assert!(packages[2].multiple_versions);
    assert_eq!(packages[0].name, "foo");
    assert_eq!(packages[0].version, "1.0.0");
    assert_eq!(packages[2].version, "2.0.0");
}

#[test]
fn resolver_keeps_input_order_and_fields() {
    let mut d = dep("serde", "1.0.0", "/src/serde-1.0.0");
    d.license = Some("MIT OR Apache-2.0".to_string());
    d.url = Some("https://serde.rs".to_string());
    let packages = find_packages(&vec![d], &vec![None]);
    assert_eq!(packages.len(), 1);
    assert_eq!(packages[0].license.as_deref(), Some("MIT OR Apache-2.0"));
    assert_eq!(packages[0].url.as_deref(), Some("https://serde.rs"));
    assert!(packages[0].license_files.is_empty());
}
