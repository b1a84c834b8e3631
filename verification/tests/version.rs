use vulkano::version::{Version, VersionParseError};

#[test]
fn into_vk_version() {
    let version = Version {
        major: 1,
        minor: 0,
        patch: 0,
    };
    assert_eq!(u32::try_from(version).unwrap(), 0x400000);
}

#[test]
fn greater_major() {
    let v1 = Version {
        major: 1,
        minor: 0,
        patch: 0,
    };
    let v2 = Version {
        major: 2,
        minor: 0,
        patch: 0,
    };
    assert!(v2 > v1);
}

#[test]
fn greater_minor() {
    let v1 = Version {
        major: 1,
        minor: 1,
        patch: 0,
    };
    let v2 = Version {
        major: 1,
        minor: 3,
        patch: 0,
    };
    assert!(v2 > v1);
}

#[test]
fn greater_patch() {
    let v1 = Version {
        major: 1,
        minor: 0,
        patch: 4,
    };
    let v2 = Version {
        major: 1,
        minor: 0,
        patch: 5,
    };
    assert!(v2 > v1);
}

#[test]
fn version_parse() {
    assert!(matches!(
        "1.1.1".parse::<Version>(),
        Ok(Version {
            major: 1,
            minor: 1,
            patch: 1,
        })
    ));
    assert!(matches!(
        "1.1".parse::<Version>(),
        Ok(Version {
            major: 1,
            minor: 1,
            patch: 0,
        })
    ));
    assert!(matches!(
        "1".parse::<Version>(),
        Ok(Version {
            major: 1,
            minor: 0,
            patch: 0,
        })
    ));

    assert!("".parse::<Version>().is_err());
    assert!("1.1.1.1".parse::<Version>().is_err());
    assert!("foobar".parse::<Version>().is_err());
    assert!("1.bar".parse::<Version>().is_err());
}

#[test]
fn version_parse_edges() {
    // A leading plus sign is accepted on a component, as an unsigned
    // integer parse accepts it.
    assert_eq!(
        "+1.2".parse::<Version>(),
        Ok(Version {
            major: 1,
            minor: 2,
            patch: 0,
        })
    );
    // A lone sign, an empty component, or a trailing dot is not a numeral.
    assert!("+".parse::<Version>().is_err());
    assert!("1.".parse::<Version>().is_err());
    assert!(".1".parse::<Version>().is_err());
    // Leading zeroes are plain digits.
    assert_eq!(
        "007.0".parse::<Version>(),
        Ok(Version {
            major: 7,
            minor: 0,
            patch: 0,
        })
    );
    // The largest 32-bit value parses; one more does not.
    assert_eq!(
        "4294967295".parse::<Version>(),
        Ok(Version {
            major: 4294967295,
            minor: 0,
            patch: 0,
        })
    );
    assert!("4294967296".parse::<Version>().is_err());
    assert_eq!("1.x".parse::<Version>(), Err(VersionParseError));
}

#[test]
fn version_constructors() {
    assert_eq!(
        Version::major_minor(3, 7),
        Version {
            major: 3,
            minor: 7,
            patch: 0,
        }
    );
    assert_eq!(
        Version::default(),
        Version {
            major: 1,
            minor: 0,
            patch: 0,
        }
    );
}

#[test]
fn version_from_packed_word() {
    // 1.2.3 packed: (1 << 22) | (2 << 12) | 3.
    let packed: u32 = (1 << 22) | (2 << 12) | 3;
    assert_eq!(
        Version::from(packed),
        Version {
            major: 1,
            minor: 2,
            patch: 3,
        }
    );
    let v = Version {
        major: 1,
        minor: 2,
        patch: 3,
    };
    assert_eq!(u32::try_from(v).unwrap(), packed);
    // A field too large for its bit width is refused.
    let too_big = Version {
        major: 1,
        minor: 1024,
        patch: 0,
    };
    assert!(u32::try_from(too_big).is_err());
}
