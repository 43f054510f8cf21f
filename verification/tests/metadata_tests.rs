//! Extraction of dependency descriptors from the structured metadata.

use cargo_3pl::metadata::extract_metadata;
use cargo_3pl::metadata::JsonValue;
use cargo_3pl::metadata::MetaError;

fn s(v: &str) -> JsonValue {
    JsonValue::Str(v.to_string())
}

fn obj(pairs: Vec<(&str, JsonValue)>) -> JsonValue {
    JsonValue::Obj(pairs.into_iter().map(|(k, v)| (k.to_string(), v)).collect())
}

fn pkg(name: &str, version: &str, manifest: &str, extra: Vec<(&str, JsonValue)>) -> JsonValue {
    let mut pairs = vec![
        ("name", s(name)),
        ("version", s(version)),
        ("manifest_path", s(manifest)),
    ];
    pairs.extend(extra);
    obj(pairs)
}

fn metadata(ws: &str, pkgs: Vec<JsonValue>) -> JsonValue {
    obj(vec![("workspace_root", s(ws)), ("packages", JsonValue::Arr(pkgs))])
}

#[test]
fn happy_path_extracts_all_fields() {
    let m = metadata(
        "/home/me/proj",
        vec![pkg(
            "serde",
            "1.0.0",
            "/reg/serde-1.0.0/Cargo.toml",
            vec![
                ("license", s("MIT")),
                ("license_file", s("LICENSE")),
                ("homepage", s("https://serde.rs")),
                ("repository", s("https://github.com/serde-rs/serde")),
            ],
        )],
    );
    let deps = extract_metadata(&m).unwrap();
    assert_eq!(deps.len(), 1);
    assert_eq!(deps[0].name, "serde");
    assert_eq!(deps[0].version, "1.0.0");
    assert_eq!(deps[0].source_dir, "/reg/serde-1.0.0");
    assert_eq!(deps[0].license.as_deref(), Some("MIT"));
    assert_eq!(deps[0].license_file.as_deref(), Some("LICENSE"));
    assert_eq!(deps[0].url.as_deref(), Some("https://serde.rs"));
}

#[test]
fn repository_is_the_url_fallback() {
    let m = metadata(
        "/proj",
        vec![pkg(
            "a",
            "0.1.0",
            "/reg/a-0.1.0/Cargo.toml",
            vec![("repository", s("https://example.org/a"))],
        )],
    );
    let deps = extract_metadata(&m).unwrap();
    assert_eq!(deps[0].url.as_deref(), Some("https://example.org/a"));
    assert!(deps[0].license.is_none());
    assert!(deps[0].license_file.is_none());
}

#[test]
fn workspace_members_are_filtered_out() {
    let m = metadata(
        "/home/me/proj",
        vec![
            pkg("mine", "0.1.0", "/home/me/proj/Cargo.toml", vec![]),
            pkg("sub", "0.1.0", "/home/me/proj/sub/Cargo.toml", vec![]),
            pkg("serde", "1.0.0", "/reg/serde-1.0.0/Cargo.toml", vec![]),
        ],
    );
    let deps = extract_metadata(&m).unwrap();
    assert_eq!(deps.len(), 1);
    assert_eq!(deps[0].name, "serde");
}

#[test]
fn prefix_must_end_at_a_component_boundary() {
    let m = metadata(
        "/home/me/proj",
        vec![pkg("other", "0.1.0", "/home/me/proj-extras/Cargo.toml", vec![])],
    );
    let deps = extract_metadata(&m).unwrap();
    assert_eq!(deps.len(), 1);
}

#[test]
fn missing_workspace_root_is_fatal() {
    let m = obj(vec![("packages", JsonValue::Arr(vec![]))]);
    assert!(matches!(extract_metadata(&m), Err(MetaError::MissingWorkspaceRoot)));
}

#[test]
fn missing_packages_is_fatal() {
    let m = obj(vec![("workspace_root", s("/proj"))]);
    assert!(matches!(extract_metadata(&m), Err(MetaError::MissingPackages)));
    let m2 = obj(vec![("workspace_root", s("/proj")), ("packages", s("nope"))]);
    assert!(matches!(extract_metadata(&m2), Err(MetaError::MissingPackages)));
}

#[test]
fn missing_required_package_fields_are_fatal() {
    let no_manifest = metadata("/proj", vec![obj(vec![("name", s("a")), ("version", s("1"))])]);
    assert!(matches!(extract_metadata(&no_manifest), Err(MetaError::MissingManifestPath)));

    let no_name = metadata(
        "/proj",
        vec![obj(vec![("manifest_path", s("/reg/a/Cargo.toml")), ("version", s("1"))])],
    );
    assert!(matches!(extract_metadata(&no_name), Err(MetaError::MissingName)));

    let no_version = metadata(
        "/proj",
        vec![obj(vec![("manifest_path", s("/reg/a/Cargo.toml")), ("name", s("a"))])],
    );
    assert!(matches!(extract_metadata(&no_version), Err(MetaError::MissingVersion)));
}

#[test]
fn a_member_missing_other_fields_is_still_filtered() {
    let m = metadata("/proj", vec![obj(vec![("manifest_path", s("/proj/Cargo.toml"))])]);
    let deps = extract_metadata(&m).unwrap();
    assert!(deps.is_empty());
}

#[test]
fn non_string_optional_fields_count_as_absent() {
    let m = metadata(
        "/proj",
        vec![pkg(
            "a",
            "1.0.0",
            "/reg/a-1.0.0/Cargo.toml",
            vec![("license", JsonValue::Null), ("homepage", JsonValue::Bool(true))],
        )],
    );
    let deps = extract_metadata(&m).unwrap();
    assert!(deps[0].license.is_none());
    assert!(deps[0].url.is_none());
}
