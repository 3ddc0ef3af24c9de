use proofhouse_rust_lib::version;

/// Whether `part` reads as one component of a version: at least one
/// character, every one of them a digit.
fn is_numeric_component(part: &str) -> bool {
    !part.is_empty() && part.chars().all(|ch| ch.is_ascii_digit())
}

#[test]
fn version_is_three_numeric_parts() {
    let parts: Vec<&str> = version().split('.').collect();
    assert_eq!(parts.len(), 3, "version is not a three-part semver");
    for part in parts {
        assert!(
            is_numeric_component(part),
            "version component `{part}` is not all digits"
        );
    }
}

#[test]
fn a_component_is_digits_and_at_least_one_of_them() {
    let cases = [("0", true), ("142", true), ("", false), ("1a", false)];
    for (part, expected) in cases {
        assert_eq!(
            is_numeric_component(part),
            expected,
            "component `{part}` read the wrong way"
        );
    }
}

#[test]
fn version_is_the_declared_one() {
    assert_eq!(version(), "0.1.0");
}
