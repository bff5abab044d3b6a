use deps::version::{Version, SemVerError};
use deps::utils::{at_version, clean_version};
use deps::nv;

fn parse_error(e: &str) -> Result<Version, SemVerError> {
    return Err(SemVerError::ParseError(e.to_string()));
}

#[test]
fn version_parse_error() {
    assert_eq!(Version::parse(""), parse_error("expected more input"));
}

#[test]
fn version_parse_ok() {
    assert_eq!(Version::parse(""), parse_error("expected more input"));
}

#[test]
fn version_serialization() {}

#[test]
fn prefix_is_ignored_by_equality() {
    let a = Version::parse("v1.0.0").unwrap();
    let b = Version::parse("1.0.0").unwrap();
    assert!(a == b);
    assert_eq!(a.display(), "v1.0.0");
    assert_eq!(b.display(), "1.0.0");
}

#[test]
fn at_wrapper_extracts_version() {
    let v = Version::parse("pkg@v2.1.0").unwrap();
    assert_eq!(v.semver().major, 2);
    assert_eq!(v.semver().minor, 1);
    assert_eq!(v.semver().patch, 0);
    assert_eq!(v.display(), "v2.1.0");
}

#[test]
fn last_at_wins() {
    let v = Version::parse("scope@pkg@3.2.1").unwrap();
    assert_eq!(v.display(), "3.2.1");
}

#[test]
fn parse_trims_whitespace() {
    let v = Version::parse("  1.2.3 ").unwrap();
    assert_eq!(v.display(), "1.2.3");
}

#[test]
fn parse_keeps_prerelease_and_build() {
    let v = Version::parse("1.2.3-alpha.1+build.7").unwrap();
    assert_eq!(v.display(), "1.2.3-alpha.1+build.7");
}

#[test]
fn parse_rejects_garbage() {
    assert!(Version::parse("not-a-version").is_err());
    assert!(Version::parse("1.0").is_err());
    assert!(Version::parse("1.0.0junk").is_err());
}

#[test]
fn equality_ignores_build_metadata() {
    let a = Version::parse("1.0.0+one").unwrap();
    let b = Version::parse("1.0.0+two").unwrap();
    assert!(a == b);
}

#[test]
fn ordering_follows_precedence() {
    let order = ["1.0.0-alpha", "1.0.0-alpha.1", "1.0.0-beta", "1.0.0", "1.0.1", "1.1.0", "2.0.0"];
    for i in 0..order.len() {
        for j in (i + 1)..order.len() {
            let a = Version::parse(order[i]).unwrap();
            let b = Version::parse(order[j]).unwrap();
            assert!(
                deps::order::version_lt(&a, &b),
                "expected {} < {}",
                order[i],
                order[j]
            );
            assert!(!deps::order::version_lt(&b, &a));
        }
    }
}

#[test]
fn numeric_identifiers_order_numerically() {
    let a = Version::parse("1.0.0-2").unwrap();
    let b = Version::parse("1.0.0-10").unwrap();
    assert!(deps::order::version_lt(&a, &b));
}

#[test]
fn clean_version_strips_single_v() {
    assert_eq!(clean_version("v1.0.0"), "1.0.0");
    assert_eq!(clean_version("1.0.0"), "1.0.0");
    assert_eq!(clean_version("vv1.0.0"), "v1.0.0");
    assert_eq!(clean_version(""), "");
}

#[test]
fn at_version_takes_piece_after_first_at() {
    assert_eq!(at_version("pkg@v1.0.0"), Some("1.0.0"));
    assert_eq!(at_version("pkg@1.0.0"), Some("1.0.0"));
    assert_eq!(at_version("a@b@c"), Some("b"));
    assert_eq!(at_version("noat"), None);
    assert_eq!(at_version("tail@"), Some(""));
}

#[test]
fn nv_version_keeps_piece_as_written() {
    assert_eq!(nv::version("pkg@v1.0.0"), Some("v1.0.0"));
    assert_eq!(nv::version("a@b@c"), Some("b"));
    assert_eq!(nv::version("noat"), None);
}
