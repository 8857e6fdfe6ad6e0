use psvm::check::{check_dependencies, CheckError};
use psvm::mapping::VersionMapping;
use psvm::rewrite::{
    remove_keys_from_table, rename_deps, rewrite, update_dependencies_impl, Declaration, FieldKind,
    RewriteError, RewriteOutcome,
};

fn mapping(pairs: &[(&str, &str)]) -> VersionMapping {
    let mut m = VersionMapping::new();
    for (k, v) in pairs {
        m.insert(k.to_string(), v.to_string());
    }
    m
}

fn changed(content: &str, m: &VersionMapping, overwrite: bool) -> String {
    match rewrite(content, m, overwrite).unwrap() {
        RewriteOutcome::Changed(t) => t,
        RewriteOutcome::Unchanged => panic!("expected a change"),
    }
}

const INPUT: &str = r#"[package]
name = "demo"

[dependencies]
# the runtime
frame-support = "27.0.0"
sp-core = { git = "https://github.com/paritytech/polkadot-sdk", branch = "master", default-features = false, features = ["std"] }
local-crate = { path = "../local", version = "0.1.0" }
serde = { version = "1.0", features = ["derive"] }   # not managed
my-io = { package = "sp-io", version = "29.0.0", tag = "v1" }

[dev-dependencies]
sp-runtime = { version = "30.0.0", rev = "abc" }
"#;

const OUTPUT: &str = r#"[package]
name = "demo"

[dependencies]
# the runtime
frame-support = "28.0.0"
sp-core = { version = "31.0.0", default-features = false, features = ["std"] }
local-crate = { path = "../local", version = "0.1.0" }
serde = { version = "1.0", features = ["derive"] }   # not managed
my-io = { version = "30.0.0", package = "sp-io" }

[dev-dependencies]
sp-runtime = { version = "31.0.0" }
"#;

fn sdk_mapping() -> VersionMapping {
    mapping(&[
        ("frame-support", "28.0.0"),
        ("sp-core", "31.0.0"),
        ("local-crate", "9.9.9"),
        ("sp-io", "30.0.0"),
        ("my-io", "1.0.0"),
        ("sp-runtime", "31.0.0"),
    ])
}

#[test]
fn rewrites_to_canonical_form() {
    assert_eq!(changed(INPUT, &sdk_mapping(), false), OUTPUT);
}

#[test]
fn rewriting_twice_is_unchanged() {
    let m = sdk_mapping();
    let once = changed(INPUT, &m, false);
    assert!(matches!(rewrite(&once, &m, false).unwrap(), RewriteOutcome::Unchanged));
}

#[test]
fn unmapped_document_is_unchanged() {
    let m = mapping(&[("tokio", "1.0.0")]);
    assert!(matches!(rewrite(INPUT, &m, false).unwrap(), RewriteOutcome::Unchanged));
    assert!(matches!(rewrite(INPUT, &VersionMapping::new(), true).unwrap(), RewriteOutcome::Unchanged));
}

#[test]
fn overwrite_replaces_local_paths() {
    let content = "[dependencies]\nlocal-crate = { path = \"../local\", version = \"0.1.0\" }\n";
    let m = mapping(&[("local-crate", "9.9.9")]);
    assert!(matches!(rewrite(content, &m, false).unwrap(), RewriteOutcome::Unchanged));
    assert_eq!(changed(content, &m, true), "[dependencies]\nlocal-crate = { version = \"9.9.9\" }\n");
}

#[test]
fn renamed_dependency_uses_package_version() {
    let content = "[dependencies]\nfoo = { package = \"bar\", version = \"1.0.0\" }\n";
    let m = mapping(&[("foo", "5.0.0"), ("bar", "2.0.0")]);
    assert_eq!(
        changed(content, &m, false),
        "[dependencies]\nfoo = { version = \"2.0.0\", package = \"bar\" }\n"
    );
    let only_key = mapping(&[("foo", "5.0.0")]);
    assert!(matches!(rewrite(content, &only_key, false).unwrap(), RewriteOutcome::Unchanged));
}

#[test]
fn workspace_dependencies_take_precedence() {
    let content = "[workspace.dependencies]\nsp-core = \"1.0.0\"\n\n[dependencies]\nsp-core = \"1.0.0\"\n";
    let m = mapping(&[("sp-core", "2.0.0")]);
    assert_eq!(
        changed(content, &m, false),
        "[workspace.dependencies]\nsp-core = \"2.0.0\"\n\n[dependencies]\nsp-core = \"1.0.0\"\n"
    );
}

#[test]
fn build_dependencies_are_rewritten() {
    let content = "[build-dependencies]\nsubstrate-wasm-builder = { git = \"https://example.com\" }\n";
    let m = mapping(&[("substrate-wasm-builder", "24.0.0")]);
    assert_eq!(
        changed(content, &m, false),
        "[build-dependencies]\nsubstrate-wasm-builder = { version = \"24.0.0\" }\n"
    );
}

#[test]
fn other_value_shapes_are_skipped() {
    let content = "[dependencies]\nweird = 5\n";
    let m = mapping(&[("weird", "1.0.0")]);
    assert!(matches!(rewrite(content, &m, false).unwrap(), RewriteOutcome::Unchanged));
}

#[test]
fn malformed_document_is_an_error() {
    let m = mapping(&[("a", "1")]);
    assert!(matches!(rewrite("[dependencies\n", &m, false), Err(RewriteError::Malformed(_))));
    assert!(matches!(
        update_dependencies_impl("= nope", &m, false, false),
        Err(RewriteError::Malformed(_))
    ));
}

#[test]
fn update_returns_new_text_or_nothing() {
    let m = sdk_mapping();
    assert_eq!(update_dependencies_impl(INPUT, &m, false, false).unwrap(), Some(OUTPUT.to_string()));
    assert_eq!(update_dependencies_impl(OUTPUT, &m, false, false).unwrap(), None);
    assert_eq!(update_dependencies_impl(OUTPUT, &m, false, true).unwrap(), None);
}

#[test]
fn check_mode_reports_outdated_dependencies() {
    let m = sdk_mapping();
    let err = update_dependencies_impl(INPUT, &m, false, true).unwrap_err();
    assert!(matches!(err, RewriteError::NotUpToDate));
    assert_eq!(err.message(), "Dependencies are not up to date");
}

#[test]
fn check_accepts_up_to_date_document() {
    assert!(check_dependencies(OUTPUT, &sdk_mapping(), false).is_ok());
}

#[test]
fn check_reports_mismatch() {
    let err = check_dependencies(INPUT, &sdk_mapping(), false).unwrap_err();
    assert!(matches!(err, CheckError::InvalidDependencyFormat));
    let content = "[dependencies]\nframe-support = \"27.0.0\"\n";
    let err = check_dependencies(content, &sdk_mapping(), false).unwrap_err();
    assert!(matches!(err, CheckError::Mismatch));
    assert_eq!(err.message(), "One or More Dependency version mismatch found");
}

#[test]
fn check_reports_record_without_version() {
    let content = "[dev-dependencies]\nsp-runtime = { git = \"https://example.com\" }\n";
    let err = check_dependencies(content, &sdk_mapping(), false).unwrap_err();
    assert!(matches!(err, CheckError::InvalidDependencyFormat));
    assert_eq!(err.message(), "Invalid Dependency Format");
}

#[test]
fn check_skips_local_paths_unless_overwriting() {
    let content = "[dependencies]\nlocal-crate = { path = \"../local\", version = \"0.1.0\" }\n";
    assert!(check_dependencies(content, &sdk_mapping(), false).is_ok());
    assert!(matches!(
        check_dependencies(content, &sdk_mapping(), true),
        Err(CheckError::Mismatch)
    ));
}

#[test]
fn check_malformed_document() {
    assert!(matches!(
        check_dependencies("[[x", &sdk_mapping(), false),
        Err(CheckError::Malformed(_))
    ));
}

#[test]
fn standard_table_record_becomes_inline() {
    let content = "[dependencies]\nserde = \"1\"\n\n[dependencies.sp-core]\ngit = \"https://example.com\"\ndefault-features = false\n";
    let out = changed(content, &sdk_mapping(), false);
    assert!(out.contains("{ version = \"31.0.0\", default-features = false }"));
    assert!(!out.contains("git"));
    assert!(out.starts_with("[dependencies]\nserde = \"1\"\n"));
}

#[test]
fn source_fields_are_removed_in_order() {
    let mut fields = vec![
        ("git".to_string(), FieldKind::Text("https://example.com".to_string())),
        ("version".to_string(), FieldKind::Text("1.0.0".to_string())),
        ("branch".to_string(), FieldKind::Text("main".to_string())),
        ("features".to_string(), FieldKind::Value("[\"std\"]".to_string())),
        ("path".to_string(), FieldKind::Text("../x".to_string())),
        ("package".to_string(), FieldKind::Text("bar".to_string())),
        ("rev".to_string(), FieldKind::Text("abc".to_string())),
        ("tag".to_string(), FieldKind::Text("v1".to_string())),
    ];
    remove_keys_from_table(&mut fields);
    let keys: Vec<&str> = fields.iter().map(|(k, _)| k.as_str()).collect();
    assert_eq!(keys, vec!["version", "features", "package"]);
    let decl = Declaration::Record(fields, true);
    assert_eq!(rename_deps(&decl, &"foo".to_string()), "bar");
    assert_eq!(rename_deps(&Declaration::Text("1".to_string()), &"foo".to_string()), "foo");
}

#[test]
fn layout_only_change_is_reported() {
    let content = "[dependencies]\nfoo = {version=\"1.0\"}\n";
    let m = mapping(&[("foo", "1.0")]);
    assert_eq!(changed(content, &m, false), "[dependencies]\nfoo = { version = \"1.0\" }\n");
    assert!(matches!(
        update_dependencies_impl(content, &m, false, true),
        Err(RewriteError::NotUpToDate)
    ));
}

#[test]
fn untouched_layout_round_trips() {
    let content = "# top\n[package]\nname=\"x\"   # odd spacing\n\n[workspace.dependencies]\nserde   =   \"1\"  # keep\n[dependencies]\nsp-core = \"1.0.0\"\n";
    let m = mapping(&[("sp-core", "2.0.0")]);
    assert!(matches!(rewrite(content, &m, false).unwrap(), RewriteOutcome::Unchanged));
    assert_eq!(update_dependencies_impl(content, &m, false, true).unwrap(), None);
}
