use psvm::mapping::VersionMapping;
use psvm::sources::{
    get_cargo_packages, get_plan_packages, include_orml_crates_in_version_mapping, plan_includes,
    public_crate_names, CargoLock, Crate, Metadata, Orml, OrmlToml, Package, PlanToml,
    RegistryCrate, Workspace,
};
use psvm::versions::{
    first_source, get_repository_info, has_prefix, next_step, replace_with_empty, orml_manifest_url,
    orml_release_exists, release_ref_for, release_versions_from_branches, source_url,
    stable_tag_versions, version_to_url, Repository, ResolveError, ResolveStep, SourceKind,
};

fn s(v: &str) -> String {
    v.to_string()
}

fn plan_crate(name: &str, from: &str, to: &str, publish: Option<bool>) -> Crate {
    Crate { name: s(name), from: s(from), to: s(to), publish }
}

fn sample_plan() -> PlanToml {
    PlanToml {
        crates: vec![
            plan_crate("package_minor", "0.1.0", "0.1.1", None),
            plan_crate("package_major", "1.0.0", "2.0.0", None),
            plan_crate("package_no_publish", "0.1.0", "0.1.0", Some(false)),
        ],
    }
}

fn sample_lock() -> CargoLock {
    CargoLock {
        package: vec![
            Package { name: s("local_package"), version: s("0.1.0"), source: None },
            Package {
                name: s("remote_package"),
                version: s("0.1.0"),
                source: Some(s("registry+https://github.com/rust-lang/crates.io-index")),
            },
        ],
    }
}

fn orml(members: &[&str], version: &str) -> OrmlToml {
    OrmlToml {
        workspace: Workspace {
            members: members.iter().map(|m| s(m)).collect(),
            metadata: Metadata { orml: Orml { crates_version: s(version) } },
        },
    }
}

#[test]
fn test_parse_version_mapping_from_plan_toml() {
    let mapping = get_plan_packages(&sample_plan(), &vec![]);
    assert_eq!(mapping.len(), 2);
    assert_eq!(mapping.get("package_minor"), Some(&"0.1.1".to_string()));
    assert_eq!(mapping.get("package_major"), Some(&"2.0.0".to_string()));
    assert_eq!(mapping.get("package_no_publish"), None);
}

#[test]
fn test_parse_version_mapping_from_cargo_lock() {
    let mapping = get_cargo_packages(&sample_lock());
    assert_eq!(mapping.len(), 1);
    assert_eq!(mapping.get("local_package"), Some(&"0.1.0".to_string()));
    assert_eq!(mapping.get("remote_package"), None);
}

#[test]
fn failed_plan_falls_back_to_lock_file() {
    assert_eq!(first_source(), SourceKind::PlanToml);
    let step = next_step(SourceKind::PlanToml, Err(ResolveError::Fetch(s("404 Not Found"))));
    assert!(matches!(step, ResolveStep::Fetch(SourceKind::CargoLock)));
    let step = next_step(SourceKind::CargoLock, Ok(get_cargo_packages(&sample_lock())));
    match step {
        ResolveStep::Done(Ok(mapping)) => {
            assert_eq!(mapping.len(), 1);
            assert_eq!(mapping.get("local_package"), Some(&"0.1.0".to_string()));
        }
        _ => panic!("expected a resolved mapping"),
    }
}

#[test]
fn successful_plan_is_final() {
    let step = next_step(SourceKind::PlanToml, Ok(get_plan_packages(&sample_plan(), &vec![])));
    match step {
        ResolveStep::Done(Ok(mapping)) => assert_eq!(mapping.len(), 2),
        _ => panic!("expected the plan mapping"),
    }
}

#[test]
fn failed_lock_file_is_final() {
    let step = next_step(SourceKind::CargoLock, Err(ResolveError::MalformedInput(s("bad"))));
    assert!(matches!(step, ResolveStep::Done(Err(ResolveError::MalformedInput(_)))));
}

#[test]
fn unpublished_public_crate_is_included() {
    let owners = vec![s("package_no_publish"), s("placeholder")];
    let bumped = plan_crate("package_no_publish", "0.1.0", "0.2.0", Some(false));
    assert!(plan_includes(&bumped, &owners));
    let placeholder = plan_crate("placeholder", "0.0.0", "0.0.0", Some(false));
    assert!(!plan_includes(&placeholder, &owners));
    let private = plan_crate("private", "0.1.0", "0.2.0", Some(false));
    assert!(!plan_includes(&private, &owners));
    let published = plan_crate("private", "0.1.0", "0.2.0", Some(true));
    assert!(plan_includes(&published, &owners));
    let mapping = get_plan_packages(&sample_plan(), &vec![s("package_no_publish")]);
    assert_eq!(mapping.len(), 3);
    assert_eq!(mapping.get("package_no_publish"), Some(&"0.1.0".to_string()));
}

#[test]
fn later_lock_entry_replaces_earlier() {
    let lock = CargoLock {
        package: vec![
            Package { name: s("a"), version: s("1.0.0"), source: None },
            Package { name: s("a"), version: s("2.0.0"), source: None },
        ],
    };
    let mapping = get_cargo_packages(&lock);
    assert_eq!(mapping.len(), 1);
    assert_eq!(mapping.get("a"), Some(&"2.0.0".to_string()));
}

#[test]
fn empty_manifests_give_empty_mappings() {
    assert!(get_cargo_packages(&CargoLock { package: vec![] }).is_empty());
    assert!(get_plan_packages(&PlanToml { crates: vec![] }, &vec![]).is_empty());
}

#[test]
fn orml_crates_overwrite_primary_entries() {
    let mut mapping = VersionMapping::new();
    mapping.insert(s("orml-tokens"), s("0.1.0"));
    mapping.insert(s("frame-support"), s("28.0.0"));
    include_orml_crates_in_version_mapping(&mut mapping, Some(orml(&["tokens", "traits"], "0.7.0")));
    assert_eq!(mapping.len(), 3);
    assert_eq!(mapping.get("orml-tokens"), Some(&"0.7.0".to_string()));
    assert_eq!(mapping.get("orml-traits"), Some(&"0.7.0".to_string()));
    assert_eq!(mapping.get("frame-support"), Some(&"28.0.0".to_string()));
}

#[test]
fn no_orml_manifest_leaves_mapping() {
    let mut mapping = VersionMapping::new();
    mapping.insert(s("frame-support"), s("28.0.0"));
    include_orml_crates_in_version_mapping(&mut mapping, None);
    assert_eq!(mapping.len(), 1);
    assert_eq!(mapping.get("orml-tokens"), None);
}

#[test]
fn urls_for_release_versions() {
    assert_eq!(
        version_to_url("https://raw.githubusercontent.com", "1.5.0", "Plan.toml"),
        "https://raw.githubusercontent.com/paritytech/polkadot-sdk/release-crates-io-v1.5.0/Plan.toml"
    );
    assert_eq!(
        version_to_url("http://127.0.0.1:1234", "N.N.N", "Cargo.lock"),
        "http://127.0.0.1:1234/paritytech/polkadot-sdk/release-crates-io-vN.N.N/Cargo.lock"
    );
    assert_eq!(
        source_url("base", "1.3.0", SourceKind::CargoLock),
        "base/paritytech/polkadot-sdk/release-crates-io-v1.3.0/Cargo.lock"
    );
}

#[test]
fn urls_for_stable_versions() {
    assert_eq!(
        version_to_url("base", "stable2407", "Plan.toml"),
        "base/paritytech/polkadot-sdk/polkadot-stable2407/Plan.toml"
    );
    assert_eq!(
        version_to_url("base", "polkadot-stable2407-1", "Plan.toml"),
        "base/paritytech/polkadot-sdk/polkadot-stable2407-1/Plan.toml"
    );
    assert_eq!(
        version_to_url("base", "polkadot-stable", "Plan.toml"),
        "base/paritytech/polkadot-sdk/release-crates-io-vpolkadot-stable/Plan.toml"
    );
    assert_eq!(release_ref_for("1.2.0", true), "1.2.0");
    assert_eq!(release_ref_for("1.2.0", false), "release-crates-io-v1.2.0");
    assert_eq!(release_ref_for("stable2409", true), "polkadot-stable2409");
}

#[test]
fn source_kinds_by_file_name() {
    assert_eq!(SourceKind::from_file_name("Plan.toml").unwrap(), SourceKind::PlanToml);
    assert_eq!(SourceKind::from_file_name("Cargo.lock").unwrap(), SourceKind::CargoLock);
    assert!(matches!(
        SourceKind::from_file_name("Cargo.toml"),
        Err(ResolveError::UnsupportedSource(_))
    ));
    assert_eq!(SourceKind::PlanToml.file_name(), "Plan.toml");
}

#[test]
fn release_branches_name_versions() {
    let psdk = vec![s("release-crates-io-v1.5.0"), s("master"), s("release-crates-io-v1.6.0")];
    assert_eq!(release_versions_from_branches(&Repository::Psdk, &psdk), vec![s("1.5.0"), s("1.6.0")]);
    let orml_branches = vec![s("polkadot-v1.0.0"), s("polkadot-v1.6.0"), s("master"), s("polkadot-v0.9.43")];
    assert_eq!(release_versions_from_branches(&Repository::Orml, &orml_branches), vec![s("1.6.0")]);
    assert!(release_versions_from_branches(&Repository::Psdk, &vec![]).is_empty());
}

#[test]
fn stable_tags_are_selected() {
    let tags = vec![
        s("polkadot-stable2407"),
        s("polkadot-stable2407-1"),
        s("polkadot-v1.0.0"),
        s("polkadot-stable"),
        s("polkadot-stable2407-"),
        s("polkadot-stable2407-rc1"),
    ];
    assert_eq!(stable_tag_versions(&tags), vec![s("polkadot-stable2407"), s("polkadot-stable2407-1")]);
}

#[test]
fn repository_info_per_repository() {
    let info = get_repository_info(&Repository::Orml);
    assert_eq!(info.version_filter_string, "polkadot-v1");
    assert_eq!(info.version_replace_string, "polkadot-v");
    let info = get_repository_info(&Repository::Psdk);
    assert_eq!(
        info.branches_url,
        "https://api.github.com/repos/paritytech/polkadot-sdk/branches?per_page=100&page="
    );
    assert_eq!(info.gh_cmd_url, "/repos/paritytech/polkadot-sdk/branches?per_page=100&page=");
}

#[test]
fn orml_release_lookup_and_url() {
    let versions = vec![s("1.6.0"), s("1.7.0")];
    assert!(orml_release_exists(&versions, "1.6.0"));
    assert!(!orml_release_exists(&versions, "1.14.0"));
    assert_eq!(
        orml_manifest_url("base", "1.6.0"),
        "base/open-web3-stack/open-runtime-module-library/polkadot-v1.6.0/Cargo.dev.toml"
    );
}

#[test]
fn prefixes() {
    assert!(has_prefix("stable2407", "stable"));
    assert!(!has_prefix("stab", "stable"));
    assert!(has_prefix("x", ""));
}

#[test]
fn placeholder_crates_are_not_public() {
    let page = vec![
        RegistryCrate { id: s("sp-core"), max_version: s("34.0.0") },
        RegistryCrate { id: s("reserved"), max_version: s("0.0.0") },
    ];
    assert_eq!(public_crate_names(&page), vec![s("sp-core")]);
}

#[test]
fn mapping_insert_replaces() {
    let mut m = VersionMapping::new();
    assert!(m.is_empty());
    m.insert(s("a"), s("1"));
    m.insert(s("a"), s("2"));
    assert_eq!(m.len(), 1);
    assert!(m.contains_key("a"));
    assert_eq!(m.get("a"), Some(&s("2")));
}

#[test]
fn every_occurrence_of_the_prefix_is_removed() {
    let names = vec![s("polkadot-v1.6.0-polkadot-vx")];
    assert_eq!(release_versions_from_branches(&Repository::Orml, &names), vec![s("1.6.0-x")]);
}

#[test]
fn empty_versions_are_not_taken() {
    let lock = CargoLock {
        package: vec![
            Package { name: s("a"), version: s(""), source: None },
            Package { name: s("b"), version: s("1.0.0"), source: None },
        ],
    };
    let mapping = get_cargo_packages(&lock);
    assert_eq!(mapping.len(), 1);
    assert_eq!(mapping.get("a"), None);
    let plan = PlanToml { crates: vec![plan_crate("c", "0.1.0", "", None)] };
    assert!(get_plan_packages(&plan, &vec![]).is_empty());
    let mut m = VersionMapping::new();
    include_orml_crates_in_version_mapping(&mut m, Some(orml(&["tokens"], "")));
    assert!(m.is_empty());
}

#[test]
fn resolve_error_messages() {
    assert_eq!(ResolveError::Fetch(s("404 Not Found")).message(), "404 Not Found");
    assert_eq!(ResolveError::MalformedInput(s("bad")).message(), "bad");
    assert_eq!(ResolveError::UnsupportedSource(s("x.toml")).message(), "Unknown source: x.toml");
}

#[test]
fn removing_a_pattern() {
    assert_eq!(replace_with_empty("aXbXXc", "X"), "abc");
    assert_eq!(replace_with_empty("abab", "ab"), "");
    assert_eq!(replace_with_empty("aaa", "aa"), "a");
    assert_eq!(replace_with_empty("abc", ""), "abc");
}
