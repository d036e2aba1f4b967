use config_migrator::schema_version::{PinnedVersion, SchemaVersion, SchemaVersionError};

#[test]
fn test_schema_version_creation() {
    let version = SchemaVersion::new(5, 0, 10);
    assert_eq!(version.major, 5);
    assert_eq!(version.minor, 0);
    assert_eq!(version.patch, 10);
}

#[test]
fn test_schema_version_display() {
    let version = SchemaVersion::new(25, 2, 9);
    assert_eq!(version.to_string(), "25.2.9");
}

#[test]
fn test_schema_version_from_str() {
    let version: SchemaVersion = "23.2.24".parse().unwrap();
    assert_eq!(version, SchemaVersion::new(23, 2, 24));
}

#[test]
fn test_schema_version_ordering() {
    let v1 = SchemaVersion::new(5, 0, 10);
    let v2 = SchemaVersion::new(23, 2, 24);
    let v3 = SchemaVersion::new(25, 2, 9);

    assert!(v1 < v2);
    assert!(v2 < v3);
    assert!(v1 < v3);
}

#[test]
fn test_invalid_version_format() {
    assert!("invalid".parse::<SchemaVersion>().is_err());
    assert!("1.2".parse::<SchemaVersion>().is_err());
    assert!("1.2.3.4".parse::<SchemaVersion>().is_err());
}

#[test]
fn version_order_agrees_with_is_before() {
    let a = SchemaVersion::new(1, 9, 9);
    let b = SchemaVersion::new(2, 0, 0);
    assert!(a.is_before(&b));
    assert!(!b.is_before(&a));
    assert!(!a.is_before(&a));
}

#[test]
fn version_text_of_largest_parts() {
    let v = SchemaVersion::new(0, 0, u32::MAX);
    assert_eq!(v.to_string(), "0.0.4294967295");
    assert_eq!(SchemaVersion::parse("0.0.4294967295").unwrap(), v);
}

#[test]
fn version_parts_read_as_u32_numbers() {
    assert!(SchemaVersion::parse("4294967296.0.0").is_err());
    assert_eq!(SchemaVersion::parse("01.2.3").unwrap(), SchemaVersion::new(1, 2, 3));
    assert_eq!(SchemaVersion::parse("+1.2.03").unwrap(), SchemaVersion::new(1, 2, 3));
    assert!(SchemaVersion::parse("1..3").is_err());
    assert!(SchemaVersion::parse("+.1.2").is_err());
    assert!(SchemaVersion::parse("-1.2.3").is_err());
    assert!(SchemaVersion::parse("").is_err());
    match SchemaVersion::parse("x.y.z") {
        Err(SchemaVersionError::InvalidFormat(s)) => assert_eq!(s, "x.y.z"),
        Ok(_) => panic!("accepted a malformed version"),
    }
}

#[test]
fn version_error_message() {
    let e = SchemaVersionError::InvalidFormat("1.2".to_string());
    assert_eq!(e.message(), "Invalid version format: 1.2");
}

#[test]
fn pinned_version_round_trip_plain() {
    let p = PinnedVersion::parse("v24.1.1").unwrap();
    assert_eq!(p.version, SchemaVersion::new(24, 1, 1));
    assert!(p.suffix.is_none());
    assert_eq!(p.to_string(), "v24.1.1");
}

#[test]
fn pinned_version_round_trip_with_suffix() {
    for s in ["v1.2.3-rc1", "v0.0.0-a-b.c", "v25.2.9-beta"] {
        let p = PinnedVersion::parse(s).unwrap();
        assert_eq!(p.to_string(), s);
    }
    let p = PinnedVersion::parse("v1.2.3-rc1").unwrap();
    assert_eq!(p.suffix.as_deref(), Some("rc1"));
}

#[test]
fn pinned_version_refuses_malformed() {
    for s in ["24.1.1", "v1.2", "v1.2.3.4", "v01.2.3", "v1.2.3-", "", "v", "vx.y.z"] {
        assert!(PinnedVersion::parse(s).is_err(), "accepted {}", s);
    }
}
