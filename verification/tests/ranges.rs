use qipi::semver::{
    format_version, satisfies_composite, select_version, semver_satisfies, u64_to_string, SemVer,
};

fn v(s: &str) -> SemVer {
    SemVer::parse(s).expect("version should parse")
}

#[test]
fn parse_plain_version() {
    let p = v("1.2.3");
    assert_eq!(p.major, 1);
    assert_eq!(p.minor, 2);
    assert_eq!(p.patch, 3);
    assert!(p.pre.is_none());
}

#[test]
fn parse_prerelease_version() {
    let p = v("4.17.22-beta");
    assert_eq!(p.major, 4);
    assert_eq!(p.minor, 17);
    assert_eq!(p.patch, 22);
    assert_eq!(p.pre.as_deref(), Some("beta"));
}

#[test]
fn parse_rejects_bad_shapes() {
    assert!(SemVer::parse("").is_none());
    assert!(SemVer::parse("1.2").is_none());
    assert!(SemVer::parse("1.2.3.4").is_none());
    assert!(SemVer::parse("1.2.x").is_none());
    assert!(SemVer::parse("1.2.3-").is_none());
    assert!(SemVer::parse("1.2.3-beta!").is_none());
    assert!(SemVer::parse("v1.2.3").is_none());
    assert!(SemVer::parse("^1.2.3").is_none());
}

#[test]
fn parse_accepts_leading_zeros() {
    let p = v("01.02.003");
    assert_eq!(p.major, 1);
    assert_eq!(p.minor, 2);
    assert_eq!(p.patch, 3);
}

#[test]
fn parse_rejects_overflowing_numbers() {
    assert!(SemVer::parse("99999999999999999999.0.0").is_none());
}

#[test]
fn ordering_release_above_prerelease() {
    assert!(v("1.0.0-alpha").lt(&v("1.0.0")));
    assert!(!v("1.0.0").lt(&v("1.0.0-alpha")));
    assert!(v("1.0.0-alpha").lt(&v("1.0.0-beta")));
    assert!(v("1.2.3").lt(&v("1.2.4")));
    assert!(v("1.9.9").lt(&v("2.0.0")));
}

#[test]
fn equality_by_fields() {
    assert_eq!(v("1.2.3"), v("1.2.3"));
    assert_ne!(v("1.2.3"), v("1.2.4"));
    assert_ne!(v("1.2.3-a"), v("1.2.3"));
}

#[test]
fn satisfies_wildcards() {
    assert!(semver_satisfies(&v("0.0.1"), "*"));
    assert!(semver_satisfies(&v("9.9.9"), "latest"));
    assert!(semver_satisfies(&v("1.0.0"), "  latest  "));
}

#[test]
fn satisfies_exact() {
    assert!(semver_satisfies(&v("1.2.3"), "1.2.3"));
    assert!(!semver_satisfies(&v("1.2.4"), "1.2.3"));
    assert!(!semver_satisfies(&v("1.2.3-a"), "1.2.3"));
}

#[test]
fn satisfies_caret_same_major() {
    assert!(semver_satisfies(&v("4.17.21"), "^4.17.0"));
    assert!(!semver_satisfies(&v("5.0.0"), "^4.17.0"));
    assert!(!semver_satisfies(&v("4.16.9"), "^4.17.0"));
}

#[test]
fn satisfies_tilde_same_minor() {
    assert!(semver_satisfies(&v("1.2.9"), "~1.2.3"));
    assert!(!semver_satisfies(&v("1.3.0"), "~1.2.3"));
    assert!(!semver_satisfies(&v("1.2.2"), "~1.2.3"));
}

#[test]
fn satisfies_comparators() {
    assert!(semver_satisfies(&v("2.0.0"), ">1.2.3"));
    assert!(!semver_satisfies(&v("1.2.3"), ">1.2.3"));
    assert!(semver_satisfies(&v("1.2.3"), ">=1.2.3"));
    assert!(semver_satisfies(&v("1.2.2"), "<1.2.3"));
    assert!(!semver_satisfies(&v("1.2.3"), "<1.2.3"));
    assert!(semver_satisfies(&v("1.2.3"), "<=1.2.3"));
    assert!(!semver_satisfies(&v("9.9.9"), "not-a-range"));
}

#[test]
fn composite_any_clause() {
    assert!(satisfies_composite(&v("1.0.0"), "1.0.0 || 2.0.0"));
    assert!(satisfies_composite(&v("2.0.0"), "1.0.0 || 2.0.0"));
    assert!(!satisfies_composite(&v("3.0.0"), "1.0.0 || 2.0.0"));
}

#[test]
fn composite_gates_prereleases() {
    // A prerelease version matches no composite without a dash, wildcard
    // included.
    assert!(!satisfies_composite(&v("2.0.0-rc.1"), "*"));
    assert!(!satisfies_composite(&v("2.0.0-rc.1"), ">=1.0.0"));
    assert!(satisfies_composite(&v("2.0.0-rc.1"), ">=2.0.0-rc.0"));
    assert!(satisfies_composite(&v("2.0.0"), "*"));
}

#[test]
fn select_prefers_greatest_satisfying() {
    // Caret range over the catalogue of the duplicate-root scenario.
    let picked = select_version(
        "^4.17.0",
        vec!["4.16.9", "4.17.0", "4.17.21", "5.0.0", "4.17.22-beta"],
    );
    assert_eq!(picked.as_deref(), Some("4.17.21"));
}

#[test]
fn select_skips_unparseable_candidates() {
    let picked = select_version("*", vec!["nonsense", "1.0.0", "also-bad"]);
    assert_eq!(picked.as_deref(), Some("1.0.0"));
}

#[test]
fn select_none_when_nothing_satisfies() {
    assert_eq!(select_version("^9.0.0", vec!["8.5.0"]), None);
    assert_eq!(select_version("*", Vec::new()), None);
}

#[test]
fn select_reserialises_canonically() {
    let picked = select_version("*", vec!["01.002.0003"]);
    assert_eq!(picked.as_deref(), Some("1.2.3"));
}

#[test]
fn format_round_trips_through_parse() {
    for s in ["0.0.0", "1.2.3", "10.20.30", "1.0.0-alpha.1"] {
        let parsed = v(s);
        let formatted = format_version(&parsed);
        assert_eq!(formatted, s);
        assert_eq!(v(&formatted), parsed);
    }
}

#[test]
fn decimal_rendering() {
    assert_eq!(u64_to_string(0), "0");
    assert_eq!(u64_to_string(7), "7");
    assert_eq!(u64_to_string(1234567890), "1234567890");
    assert_eq!(u64_to_string(u64::MAX), "18446744073709551615");
}
