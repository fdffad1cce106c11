use mi7::version::{Version, VersionParseError};

#[test]
fn test_version_creation() {
    let v = Version::new(1, 2, 3);
    assert_eq!(v.major, 1);
    assert_eq!(v.minor, 2);
    assert_eq!(v.patch, 3);
}

#[test]
fn test_initial_version() {
    let v = Version::initial();
    assert_eq!(v, Version::new(0, 0, 0));
}

#[test]
fn test_v1_version() {
    let v = Version::v1();
    assert_eq!(v, Version::new(1, 0, 0));
}

#[test]
fn test_version_comparison() {
    let v1 = Version::new(1, 0, 0);
    let v2 = Version::new(1, 0, 1);
    let v3 = Version::new(1, 1, 0);
    let v4 = Version::new(2, 0, 0);

    assert!(v1 < v2);
    assert!(v2 < v3);
    assert!(v3 < v4);
    assert!(v1 < v4);
}

#[test]
fn test_version_equality() {
    let v1 = Version::new(1, 2, 3);
    let v2 = Version::new(1, 2, 3);
    let v3 = Version::new(1, 2, 4);

    assert_eq!(v1, v2);
    assert_ne!(v1, v3);
}

#[test]
fn test_version_bump() {
    let mut v = Version::new(1, 2, 3);

    v.bump_patch();
    assert_eq!(v, Version::new(1, 2, 4));

    v.bump_minor();
    assert_eq!(v, Version::new(1, 3, 0));

    v.bump_major();
    assert_eq!(v, Version::new(2, 0, 0));
}

#[test]
fn test_version_display() {
    let v = Version::new(1, 2, 3);
    assert_eq!(v.to_string(), "1.2.3");
}

#[test]
fn test_version_from_str() {
    let v: Version = "1.2.3".parse().unwrap();
    assert_eq!(v, Version::new(1, 2, 3));

    let v: Version = "0.1.0".parse().unwrap();
    assert_eq!(v, Version::new(0, 1, 0));
}

#[test]
fn test_version_parse_errors() {
    assert!("1.2".parse::<Version>().is_err());
    assert!("1.2.3.4".parse::<Version>().is_err());
    assert!("a.b.c".parse::<Version>().is_err());
    assert!("1.2.c".parse::<Version>().is_err());
}

#[test]
fn test_is_prerelease() {
    assert!(Version::new(0, 1, 0).is_prerelease());
    assert!(!Version::new(1, 0, 0).is_prerelease());
}

#[test]
fn test_is_compatible_with() {
    let v1_0_0 = Version::new(1, 0, 0);
    let v1_1_0 = Version::new(1, 1, 0);
    let v1_2_0 = Version::new(1, 2, 0);
    let v2_0_0 = Version::new(2, 0, 0);

    assert!(v1_2_0.is_compatible_with(&v1_0_0));
    assert!(v1_2_0.is_compatible_with(&v1_1_0));
    assert!(!v1_1_0.is_compatible_with(&v1_2_0));
    assert!(!v2_0_0.is_compatible_with(&v1_0_0));
}

#[test]
fn version_parse_error_kinds() {
    assert_eq!(Version::parse("1.2"), Err(VersionParseError::InvalidFormat));
    assert_eq!(Version::parse("1.2.3.4"), Err(VersionParseError::InvalidFormat));
    assert_eq!(Version::parse("a.b.c"), Err(VersionParseError::InvalidNumber));
    assert_eq!(Version::parse("1.2.4294967296"), Err(VersionParseError::InvalidNumber));
    assert_eq!(Version::parse("  4.5.6\n"), Ok(Version::new(4, 5, 6)));
    assert_eq!(Version::parse("+1.2.3"), Ok(Version::new(1, 2, 3)));
    assert_eq!(Version::parse("1..3"), Err(VersionParseError::InvalidNumber));
    assert_eq!(Version::parse(""), Err(VersionParseError::InvalidFormat));
}

#[test]
fn version_text_round_trip() {
    let v = Version::new(4294967295, 0, 17);
    let text = v.to_string();
    assert_eq!(text, "4294967295.0.17");
    assert_eq!(Version::parse(&text), Ok(v));
}

#[test]
fn version_order_and_compatibility() {
    let a = Version::new(1, 2, 3);
    assert_eq!(a.compare(&a), std::cmp::Ordering::Equal);
    assert!(a.is_compatible_with(&a));
    let mut b = a;
    b.bump_minor();
    assert!(b.is_compatible_with(&a));
    let mut c = a;
    c.bump_major();
    assert!(!c.is_compatible_with(&a));
    assert!(a < c);
}

#[test]
fn version_error_messages() {
    assert_eq!(VersionParseError::InvalidNumber.message(), "版本号包含无效数字");
    assert_eq!(
        VersionParseError::InvalidFormat.message(),
        "版本格式无效，应为 major.minor.patch 格式"
    );
}

#[test]
fn surrounding_white_space_parses_as_trimmed() {
    for text in ["1.2.3", " 1.2.3", "1.2.3\n", "\t 4.5.6  ", " 1.2 ", "  x.1.2 "] {
        assert_eq!(text.parse::<Version>(), text.trim().parse::<Version>());
    }
    assert_eq!("\t 4.5.6  ".parse::<Version>(), Ok(Version::new(4, 5, 6)));
}
