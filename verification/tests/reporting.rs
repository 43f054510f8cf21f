//! The report assembler and the run decisions.

use cargo_3pl::colorize;
use cargo_3pl::report::header_block;
use cargo_3pl::report::render_sections;
use cargo_3pl::report::render_summary;
use cargo_3pl::report::Color;
use cargo_3pl::report::RunError;
use cargo_3pl::resolve::LicenseFile;
use cargo_3pl::resolve::Package;
use cargo_3pl::run;

fn package(name: &str, version: &str) -> Package {
    Package {
        name: name.to_string(),
        version: version.to_string(),
        url: None,
        license: None,
        license_files: vec![],
        multiple_versions: false,
    }
}

fn with_file(mut p: Package, path: &str, relative: &str) -> Package {
    p.license_files.push(LicenseFile::new(path.to_string(), &path[..path.len() - relative.len() - 1]));
    p
}

const DELIM: &str = "================================================================================";

#[test]
fn colorize_wraps_in_escape_codes() {
    assert_eq!(colorize("boom".to_string(), Color::Red), "\u{1b}[31mboom\u{1b}[0m");
    assert_eq!(colorize("careful".to_string(), Color::Yellow), "\u{1b}[33mcareful\u{1b}[0m");
}

#[test]
fn header_block_is_three_lines() {
    assert_eq!(header_block("Summary"), format!("{}\nSummary\n{}", DELIM, DELIM));
    assert_eq!(DELIM.len(), 80);
}

#[test]
fn full_and_display_names() {
    let mut p = package("foo", "1.0.0");
    assert_eq!(p.full_name(), "foo v1.0.0");
    assert_eq!(p.display_name(), "foo");
    p.multiple_versions = true;
    assert_eq!(p.display_name(), "foo v1.0.0");
}

#[test]
fn summary_lists_display_identifiers_in_order() {
    let mut a = package("foo", "1.0.0");
    a.url = Some("https://example.org/foo".to_string());
    a.license = Some("MIT".to_string());
    let mut b = package("bar", "2.0.0");
    b.multiple_versions = true;
    let lines = render_summary(&vec![a, b]);
    assert_eq!(
        lines,
        vec![
            format!("{}\nSummary\n{}", DELIM, DELIM),
            "".to_string(),
            "foo".to_string(),
            "https://example.org/foo".to_string(),
            "MIT".to_string(),
            "".to_string(),
            "bar v2.0.0".to_string(),
        ]
    );
}

#[test]
fn sections_follow_file_order_and_display_names() {
    let mut p = package("foo", "1.0.0");
    p.multiple_versions = true;
    let p = with_file(p, "/src/foo/LICENSE", "LICENSE");
    let p = with_file(p, "/src/foo/sub/NOTICE.md", "sub/NOTICE.md");
    let sections = render_sections(&vec![p]);
    assert_eq!(sections.len(), 2);
    assert_eq!(sections[0].title, "foo v1.0.0 LICENSE");
    assert_eq!(sections[0].path, "/src/foo/LICENSE");
    assert_eq!(sections[1].title, "foo v1.0.0 sub/NOTICE.md");
    assert_eq!(sections[1].path, "/src/foo/sub/NOTICE.md");
}

#[test]
fn empty_set_is_the_no_dependencies_error() {
    let outcome = run(&vec![], false, false);
    assert!(matches!(outcome.result, Err(RunError::NoDependencies)));
    assert!(outcome.warnings.is_empty());
}

#[test]
fn missing_license_and_files_give_two_warnings_and_success() {
    let p = package("foo", "1.0.0");
    let outcome = run(&vec![p], false, false);
    assert_eq!(
        outcome.warnings,
        vec!["No license field: foo v1.0.0", "No license files found: foo v1.0.0"]
    );
    assert!(outcome.result.is_ok());
}

#[test]
fn strict_mode_fails_after_the_same_warnings() {
    let p = package("foo", "1.0.0");
    let outcome = run(&vec![p], true, false);
    assert_eq!(
        outcome.warnings,
        vec!["No license field: foo v1.0.0", "No license files found: foo v1.0.0"]
    );
    assert!(matches!(outcome.result, Err(RunError::MissingLicenseFiles)));
}

#[test]
fn show_url_adds_the_suffix_to_file_warnings() {
    let mut p = package("foo", "1.0.0");
    p.url = Some("https://example.org/foo".to_string());
    p.license = Some("MIT".to_string());
    let outcome = run(&vec![p], false, true);
    assert_eq!(
        outcome.warnings,
        vec!["No license files found: foo v1.0.0 (https://example.org/foo)"]
    );
    assert!(outcome.result.is_ok());
}

#[test]
fn satisfied_packages_warn_nothing() {
    let mut p = package("foo", "1.0.0");
    p.license = Some("MIT".to_string());
    let p = with_file(p, "/src/foo/LICENSE", "LICENSE");
    let outcome = run(&vec![p], true, false);
    assert!(outcome.warnings.is_empty());
    let report = outcome.result.ok().unwrap();
    assert_eq!(report.sections.len(), 1);
    assert_eq!(report.summary[2], "foo");
}
