//! The filename heuristic on concrete names.

use cargo_3pl::license_ext;
use cargo_3pl::license_file;
use cargo_3pl::license_filename;

#[test]
fn marker_substrings_match() {
    assert!(license_filename("license"));
    assert!(license_filename("licence-apache"));
    assert!(license_filename("third-party-notices"));
    assert!(license_filename("copying"));
    assert!(license_filename("unlicensed"));
    assert!(!license_filename("readme"));
    assert!(!license_filename("contributing"));
}

#[test]
fn filename_expects_lowercased_input() {
    assert!(!license_filename("LICENSE"));
}

#[test]
fn extensions_accepted() {
    assert!(license_ext(""));
    assert!(license_ext("txt"));
    assert!(license_ext("md"));
    assert!(!license_ext("rst"));
    assert!(!license_ext("html"));
    assert!(!license_ext("TXT"));
}

#[test]
fn license_mit_txt_matches() {
    assert!(license_file("LICENSE-MIT.txt"));
}

#[test]
fn license_rst_does_not_match() {
    assert!(!license_file("LICENSE.rst"));
}

#[test]
fn notice_without_extension_matches() {
    assert!(license_file("notice"));
}

#[test]
fn unlicensed_txt_matches_by_substring() {
    assert!(license_file("unlicensed.txt"));
}

#[test]
fn mixed_case_and_markdown_match() {
    assert!(license_file("THIRD-PARTY-NOTICES.md"));
    assert!(license_file("CoPyInG"));
    assert!(license_file("LiCeNsE.TXT"));
}

#[test]
fn stem_and_extension_split_at_last_dot() {
    assert!(license_file("license.foo.txt"));
    assert!(!license_file("license.txt.rst"));
    assert!(license_file("license."));
}

#[test]
fn leading_dot_is_no_extension() {
    assert!(license_file(".license"));
    assert!(!license_file(".gitignore"));
}

#[test]
fn plain_names_do_not_match() {
    assert!(!license_file("readme.txt"));
    assert!(!license_file("Cargo.toml"));
    assert!(!license_file(""));
}
