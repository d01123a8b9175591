use qipi::client::build_registry_url;
use qipi::commands::AddCommand;
use qipi::logger::{format_log_line, timestamp_for};
use qipi::registry::{Dist, DistInfo, NpmPackage, PackageVersion, RequestPackage};
use qipi::resolver::{ResolvedPackage, ResolverError};
use qipi::shared::{Package, Semver};
use qipi::store::{
    keys_from_dir_names, list_entries, parse_index, render_index, sanitize_package_key,
    store_root, unsanitize_name, Store, STORE_CACHE_TTL_SECS,
};

fn manifest(name: &str, version: &str) -> PackageVersion {
    PackageVersion {
        name: name.to_string(),
        version: version.to_string(),
        dependencies: None,
        dev_dependencies: None,
        peer_dependencies: None,
        optional_dependencies: None,
        dist: DistInfo {
            tarball: format!("https://registry.npmjs.org/{name}/-/{name}-{version}.tgz"),
            shasum: "0000000000000000000000000000000000000000".to_string(),
            integrity: None,
            file_count: None,
            unpacked_size: None,
        },
        engines: None,
        bin: None,
        deprecated: None,
    }
}

fn store_with(keys: &[&str]) -> Store {
    Store::new(
        "/home/user/.qipi/store".to_string(),
        keys.iter().map(|k| k.to_string()).collect(),
        0,
    )
}

#[test]
fn sanitisation_escapes_slashes_both_ways() {
    assert_eq!(sanitize_package_key("@types/node@20.0.0"), "@types+node@20.0.0");
    assert_eq!(sanitize_package_key("left-pad@1.3.0"), "left-pad@1.3.0");
    assert_eq!(unsanitize_name("@types+node"), "@types/node");
    let key = "@scope/pkg@1.0.0";
    assert_eq!(unsanitize_name(&sanitize_package_key(key)), key);
}

#[test]
fn index_round_trip_keeps_the_key_set() {
    let keys = vec![
        "left-pad@1.3.0".to_string(),
        "@types/node@20.0.0".to_string(),
        "lodash@4.17.21".to_string(),
    ];
    let text = render_index(&keys);
    assert_eq!(text, "left-pad@1.3.0\n@types/node@20.0.0\nlodash@4.17.21");
    let back = parse_index(&text);
    assert_eq!(back, keys);
}

#[test]
fn index_parse_trims_dedups_and_drops_blanks() {
    let text = "  a@1.0.0 \n\nb@2.0.0\na@1.0.0\n   \n";
    let keys = parse_index(text);
    assert_eq!(keys, vec!["a@1.0.0".to_string(), "b@2.0.0".to_string()]);
    assert_eq!(parse_index(""), Vec::<String>::new());
}

#[test]
fn filter_missing_by_exact_key_and_prefix() {
    let store = store_with(&["lodash@4.17.21", "@types/node@20.0.0"]);
    let requested = vec![
        RequestPackage { name: "lodash".to_string(), version: Some("4.17.21".to_string()) },
        RequestPackage { name: "lodash".to_string(), version: Some("4.17.20".to_string()) },
        RequestPackage { name: "@types/node".to_string(), version: None },
        RequestPackage { name: "left-pad".to_string(), version: None },
    ];
    let (missing, existing) = store.filter_missing_packages(&requested);
    assert_eq!(existing, 2);
    assert_eq!(missing.len(), 2);
    assert_eq!(missing[0].name, "lodash");
    assert_eq!(missing[0].version.as_deref(), Some("4.17.20"));
    assert_eq!(missing[1].name, "left-pad");
}

#[test]
fn install_plan_skips_present_keys() {
    let store = store_with(&["a@1.0.0"]);
    let plan = store.plan_install(&vec![manifest("a", "1.0.0"), manifest("b", "2.0.0")]);
    assert_eq!(plan.len(), 1);
    assert_eq!(plan[0].name, "b");
}

#[test]
fn install_twice_changes_nothing() {
    // First install records the keys; planning the same manifests again
    // finds nothing left to do.
    let mut store = store_with(&[]);
    let packages = vec![manifest("a", "1.0.0"), manifest("b", "2.0.0")];
    let plan = store.plan_install(&packages);
    assert_eq!(plan.len(), 2);
    let installed: Vec<String> = vec!["a@1.0.0".to_string(), "b@2.0.0".to_string()];
    let index = store.commit_install(&installed, 1);
    assert_eq!(index, "a@1.0.0\nb@2.0.0");
    let again = store.plan_install(&packages);
    assert!(again.is_empty());
    let index2 = store.commit_install(&Vec::new(), 2);
    assert_eq!(index2, index);
}

#[test]
fn exact_install_store_state() {
    let mut store = store_with(&[]);
    let plan = store.plan_install(&vec![manifest("left-pad", "1.3.0")]);
    assert_eq!(plan.len(), 1);
    assert_eq!(sanitize_package_key("left-pad@1.3.0"), "left-pad@1.3.0");
    let index = store.commit_install(&vec!["left-pad@1.3.0".to_string()], 1);
    assert_eq!(index, "left-pad@1.3.0");
    let (missing, existing) = store.filter_missing_packages(&vec![RequestPackage {
        name: "left-pad".to_string(),
        version: Some("1.3.0".to_string()),
    }]);
    assert!(missing.is_empty());
    assert_eq!(existing, 1);
}

#[test]
fn scoped_install_uses_escaped_directory() {
    let mut store = store_with(&[]);
    let index = store.commit_install(&vec!["@types/node@20.0.0".to_string()], 1);
    assert_eq!(index, "@types/node@20.0.0");
    assert_eq!(sanitize_package_key("@types/node@20.0.0"), "@types+node@20.0.0");
    let rows = list_entries(&vec![("@types+node@20.0.0".to_string(), Some(5u64))]);
    assert_eq!(rows.len(), 1);
    assert_eq!(rows[0].0, "@types/node");
    assert_eq!(rows[0].1, "20.0.0");
    assert_eq!(rows[0].2.as_deref(), Some("5"));
}

#[test]
fn remove_drops_exactly_the_key() {
    let mut store = store_with(&["a@1.0.0", "b@2.0.0"]);
    let dir = store.remove("a", "1.0.0");
    assert_eq!(dir, "a@1.0.0");
    assert_eq!(store.index_content(), "b@2.0.0");
    let scoped_dir = store.remove("@s/x", "1.0.0");
    assert_eq!(scoped_dir, "@s+x@1.0.0");
}

#[test]
fn clear_empties_the_key_set() {
    let mut store = store_with(&["a@1.0.0", "b@2.0.0"]);
    store.clear(5);
    assert_eq!(store.index_content(), "");
    let (missing, existing) = store.filter_missing_packages(&vec![RequestPackage {
        name: "a".to_string(),
        version: Some("1.0.0".to_string()),
    }]);
    assert_eq!(existing, 0);
    assert_eq!(missing.len(), 1);
}

#[test]
fn cached_keys_expire_after_the_ttl() {
    let store = store_with(&["a@1.0.0"]);
    assert!(store.get_cached_packages(STORE_CACHE_TTL_SECS - 1).is_some());
    assert!(store.get_cached_packages(STORE_CACHE_TTL_SECS).is_none());
}

#[test]
fn listing_skips_names_without_a_marker() {
    let rows = list_entries(&vec![
        ("left-pad@1.3.0".to_string(), None),
        ("stray-file".to_string(), Some(3u64)),
    ]);
    assert_eq!(rows.len(), 1);
    assert_eq!(rows[0].0, "left-pad");
    assert_eq!(rows[0].1, "1.3.0");
    assert!(rows[0].2.is_none());
}

#[test]
fn store_root_hangs_off_the_home_directory() {
    assert_eq!(store_root("/home/user"), "/home/user/.qipi/store");
}

#[test]
fn directory_scan_recovers_keys() {
    let names = vec![
        "left-pad@1.3.0".to_string(),
        "@types+node@20.0.0".to_string(),
        "stray".to_string(),
    ];
    let keys = keys_from_dir_names(&names);
    assert_eq!(
        keys,
        vec![
            "left-pad@1.3.0".to_string(),
            "@types/node@20.0.0".to_string(),
            "stray".to_string()
        ]
    );
}

#[test]
fn log_lines_carry_stamp_indent_and_symbol() {
    assert_eq!(format_log_line(None, 0, "i", "ready"), "i ready");
    assert_eq!(format_log_line(None, 1, "-", "detail"), "  - detail");
    assert_eq!(format_log_line(Some(42), 0, "+", "done"), "[42] + done");
    assert_eq!(timestamp_for(0), "[0]");
    assert_eq!(timestamp_for(1234567890), "[1234567890]");
}

#[test]
fn registry_url_for_plain_and_scoped_requests() {
    let plain = Package {
        author: None,
        name: "lodash".to_string(),
        version: None,
    };
    assert_eq!(
        build_registry_url(&plain),
        "https://registry.npmjs.org/lodash/latest"
    );
    let scoped = Package {
        author: Some("types".to_string()),
        name: "node".to_string(),
        version: Some(Semver::parse_str("20.0.0").unwrap()),
    };
    assert_eq!(
        build_registry_url(&scoped),
        "https://registry.npmjs.org/@types/node/20.0.0"
    );
}

#[test]
fn resolver_errors_describe_themselves() {
    let missing = ResolverError::MissingPackage {
        name: "left-pad".to_string(),
        version: "9.0.0".to_string(),
    };
    assert_eq!(missing.message(), "missing package left-pad@9.0.0");
    let invalid = ResolverError::InvalidVersion("nope".to_string());
    assert_eq!(invalid.message(), "invalid version nope");
    let conflict = ResolverError::VersionConflict {
        package: "x".to_string(),
        requested: "1".to_string(),
        existing: "2".to_string(),
    };
    assert_eq!(conflict.message(), "version conflict for x");
    let cyclic = ResolverError::CyclicDependency { cycle: vec!["a".to_string()] };
    assert_eq!(cyclic.message(), "cyclic dependency");
    let net = ResolverError::NetworkError("timed out".to_string());
    assert_eq!(net.message(), "network error: timed out");

    let settled = ResolvedPackage {
        package: NpmPackage {
            name: "left-pad".to_string(),
            version: "1.3.0".to_string(),
            description: None,
            dist: Dist {
                tarball: "https://registry.npmjs.org/left-pad/-/left-pad-1.3.0.tgz".to_string(),
                integrity: String::new(),
                shasum: String::new(),
            },
            dependencies: None,
            dev_dependencies: None,
            peer_dependencies: None,
            optional_dependencies: None,
        },
        id: "left-pad@1.3.0".to_string(),
        dependencies: Vec::new(),
        dependent_packages: Vec::new(),
    };
    assert_eq!(settled.id, "left-pad@1.3.0");
}

#[test]
fn add_command_keeps_its_arguments() {
    let cmd = AddCommand::new(true, vec!["lodash@^4.17.0".to_string()]);
    assert!(cmd.global);
    assert_eq!(cmd.packages, vec!["lodash@^4.17.0".to_string()]);
}
