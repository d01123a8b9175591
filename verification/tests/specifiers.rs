use qipi::parser;
use qipi::parsers::parse_package;
use qipi::registry::RequestPackage;
use qipi::shared::Semver;
use qipi::specifier::{format_request, parse_package_str, partition_by_version, ParseError};

fn parsed(s: &str) -> RequestPackage {
    parse_package_str(s.to_string()).expect("specifier should parse")
}

#[test]
fn plain_name_has_no_range() {
    let p = parsed("lodash");
    assert_eq!(p.name, "lodash");
    assert!(p.version.is_none());
}

#[test]
fn name_with_range_splits_at_last_at() {
    let p = parsed("lodash@^4.17.0");
    assert_eq!(p.name, "lodash");
    assert_eq!(p.version.as_deref(), Some("^4.17.0"));

    let q = parsed("a@1@2");
    assert_eq!(q.name, "a@1");
    assert_eq!(q.version.as_deref(), Some("2"));
}

#[test]
fn scoped_name_without_further_at_is_whole() {
    let p = parsed("@types/node");
    assert_eq!(p.name, "@types/node");
    assert!(p.version.is_none());
}

#[test]
fn scoped_name_with_range() {
    let p = parsed("@types/node@20.0.0");
    assert_eq!(p.name, "@types/node");
    assert_eq!(p.version.as_deref(), Some("20.0.0"));
}

#[test]
fn parse_errors() {
    assert!(matches!(
        parse_package_str(String::new()),
        Err(ParseError::EmptyName)
    ));
    assert!(matches!(
        parse_package_str(" lodash".to_string()),
        Err(ParseError::SurroundingWhitespace)
    ));
    assert!(matches!(
        parse_package_str("lodash ".to_string()),
        Err(ParseError::SurroundingWhitespace)
    ));
    assert!(matches!(
        parse_package_str("lodash@".to_string()),
        Err(ParseError::EmptyRange)
    ));
}

#[test]
fn format_after_parse_is_identity() {
    // Rendering a parsed specifier gives the text back, so parsing again
    // gives the same request.
    for s in ["lodash", "lodash@^4.17.0", "@types/node", "@types/node@20.0.0", "a@1@2"] {
        let once = parsed(s);
        let text = format_request(&once);
        assert_eq!(text, s);
        let twice = parse_package_str(text).expect("round trip should parse");
        assert_eq!(twice.name, once.name);
        assert_eq!(twice.version, once.version);
    }
}

#[test]
fn partition_keeps_order_and_sides() {
    let reqs = vec![parsed("a@1.0.0"), parsed("b"), parsed("c@2.0.0")];
    let (with, without) = partition_by_version(&reqs);
    assert_eq!(with.len(), 2);
    assert_eq!(without.len(), 1);
    assert_eq!(with[0].name, "a");
    assert_eq!(with[1].name, "c");
    assert_eq!(without[0].name, "b");
}

#[test]
fn shared_semver_reads_comparator_runs() {
    let s = Semver::parse_str("^1.2.3").expect("should parse");
    assert_eq!(s.operator.as_deref(), Some("^"));
    assert_eq!((s.major, s.minor, s.patch), (1, 2, 3));
    assert_eq!(s.complete, "^1.2.3");

    let plain = Semver::parse_str("1.2.3").expect("should parse");
    assert_eq!(plain.operator.as_deref(), Some(""));

    let multi = Semver::parse_str(">=10.0.1").expect("should parse");
    assert_eq!(multi.operator.as_deref(), Some(">="));
    assert_eq!(multi.major, 10);

    assert!(Semver::parse_str("1.2").is_err());
    assert!(Semver::parse_str("^1.2.3-beta").is_err());
    assert!("5.6.7".parse::<Semver>().is_ok());
}

#[test]
fn plain_grammar_recognises_authors() {
    let p = parse_package("author/name@1.2.3".to_string()).expect("should parse");
    assert_eq!(p.author.as_deref(), Some("author"));
    assert_eq!(p.name, "name");
    let sv = p.version.expect("version should parse");
    assert_eq!((sv.major, sv.minor, sv.patch), (1, 2, 3));

    let scoped = parse_package("@scope/pkg".to_string()).expect("should parse");
    assert_eq!(scoped.author.as_deref(), Some("scope"));
    assert_eq!(scoped.name, "pkg");
    assert!(scoped.version.is_none());
}

#[test]
fn plain_grammar_falls_back_when_author_cannot_match() {
    // The tail after the slash has an empty name, so the slash belongs to
    // the name instead.
    let p = parse_package("a/@x".to_string()).expect("should parse");
    assert!(p.author.is_none());
    assert_eq!(p.name, "a/");
    assert!(p.version.is_none());

    assert!(parse_package("@@bad/x".to_string()).is_err());
    assert!(parse_package(String::new()).is_err());
}

#[test]
fn rich_grammar_reads_tags_and_build() {
    let p = parser::Package::parse("@a/b@>=1.2.3-beta.1+build.5").expect("should parse");
    assert_eq!(p.author.as_deref(), Some("a"));
    assert_eq!(p.name, "b");
    assert_eq!(p.version_constraint.as_deref(), Some(">="));
    let pv = p.version.expect("version should parse");
    assert_eq!(pv.complete, "1.2.3-beta.1+build.5");
    assert_eq!(pv.major, Some(1));
    assert_eq!(pv.minor, Some(2));
    assert_eq!(pv.patch, Some(3));
    assert_eq!(pv.prerelease.as_deref(), Some("beta.1"));
    assert_eq!(pv.build.as_deref(), Some("build.5"));
}

#[test]
fn rich_grammar_reads_partial_versions() {
    let p = parser::Package::parse("x@1.4").expect("should parse");
    let pv = p.version.expect("version should parse");
    assert_eq!(pv.major, Some(1));
    assert_eq!(pv.minor, Some(4));
    assert_eq!(pv.patch, None);
    assert!(pv.prerelease.is_none());

    let single = parser::Package::parse("x@2").expect("should parse");
    let sv = single.version.expect("version should parse");
    assert_eq!(sv.major, Some(2));
    assert_eq!(sv.minor, None);
}

#[test]
fn rich_grammar_keeps_free_text_as_constraint() {
    let p = parser::Package::parse("x@next").expect("should parse");
    assert!(p.version.is_none());
    assert_eq!(p.version_constraint.as_deref(), Some("next"));

    // A lone comparator character survives as the constraint text.
    let q = parser::Package::parse("x@^").expect("should parse");
    assert!(q.version.is_none());
    assert_eq!(q.version_constraint.as_deref(), Some("^"));
}

#[test]
fn rich_grammar_rejects_bad_shapes() {
    assert!(parser::Package::parse("@scope").is_err());
    assert!(parser::Package::parse("@/x").is_err());
    assert!(parser::Package::parse("").is_err());
    // The full shape matched but its numbers overflow the fields.
    assert!(parser::Package::parse("x@99999999999.0.0").is_err());
}
