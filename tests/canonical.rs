use spm_ingest::canonical::{canonical_request, canonicalize, checksum};

fn strings(v: &[&str]) -> Vec<String> {
    v.iter().map(|s| s.to_string()).collect()
}

#[test]
fn checksum_of_empty_text() {
    assert_eq!(
        "e3b0c44298fc1c149afbf4c8996fb92427ae41e4649b934ca495991b7852b855",
        checksum("")
    );
}

#[test]
fn canonical_request_escapes_quotes() {
    assert_eq!(
        "{\"package_list\":[\"a\\\"b\"]}",
        canonical_request(&strings(&["a\"b"]))
    );
    assert_eq!("{\"package_list\":[]}", canonical_request(&Vec::new()));
    assert_eq!(
        "{\"package_list\":[\"a\\tb\\u001f\\\\\"]}",
        canonical_request(&strings(&["a\tb\u{1f}\\"]))
    );
    assert_eq!(
        "{\"package_list\":[\"x\",\"y\"]}",
        canonical_request(&strings(&["x", "y"]))
    );
}

#[test]
fn foreign_arch_packages_are_dropped() {
    let (req, sum) = canonicalize("x86_64", &strings(&["foo-1.0-1.x86_64", "bar-2.0-1.noarch"])).unwrap();
    assert_eq!("{\"package_list\":[\"foo-1.0-1.x86_64\"]}", req);
    assert_eq!(
        "5e3e31db5e0c2b969a2e26e22565223e5ee0e87d9b909b815c04692aaf36aed7",
        sum
    );
}

#[test]
fn foreign_arch_package_does_not_change_checksum() {
    let with = canonicalize("x86_64", &strings(&["bar-2.0-1.noarch", "foo-1.0-1.x86_64", "baz-1-1.i686"])).unwrap();
    let without = canonicalize("x86_64", &strings(&["foo-1.0-1.x86_64"])).unwrap();
    assert_eq!(with, without);
}

#[test]
fn canonicalize_is_deterministic() {
    let pkgs = strings(&["foo-1.0-1.x86_64", "zlib-1.2.11-1.x86_64"]);
    assert_eq!(canonicalize("x86_64", &pkgs).unwrap(), canonicalize("x86_64", &pkgs).unwrap());
}

#[test]
fn order_is_significant() {
    let a = canonicalize("x86_64", &strings(&["a-1-1.x86_64", "b-1-1.x86_64"])).unwrap();
    let b = canonicalize("x86_64", &strings(&["b-1-1.x86_64", "a-1-1.x86_64"])).unwrap();
    assert_ne!(a.1, b.1);
}

#[test]
fn nothing_kept_gives_empty_list() {
    let (req, sum) = canonicalize("s390x", &strings(&["foo-1.0-1.x86_64"])).unwrap();
    assert_eq!("{\"package_list\":[]}", req);
    assert_eq!(
        "7abd7db283f9dc905f30ca93bd875209b368f3597977102735babcfa518fef4f",
        sum
    );
}

#[test]
fn first_invalid_package_is_reported() {
    let err = canonicalize("x86_64", &strings(&["foo-1.0-1.x86_64", "broken", "also bad"])).unwrap_err();
    assert_eq!(1, err.index);
}

#[test]
fn checksum_has_sixty_four_lowercase_hex_digits() {
    let sum = checksum("{\"package_list\":[]}");
    assert_eq!(64, sum.len());
    assert!(sum.chars().all(|c| c.is_ascii_digit() || ('a'..='f').contains(&c)));
}

#[test]
fn several_foreign_arch_packages_change_nothing() {
    let base = canonicalize("x86_64", &strings(&["a-1-1.x86_64", "b-1-1.x86_64"])).unwrap();
    let mixed = canonicalize(
        "x86_64",
        &strings(&["z-1-1.noarch", "a-1-1.x86_64", "y-1-1.i686", "x-1-1.src", "b-1-1.x86_64", "w-1-1.aarch64"]),
    )
    .unwrap();
    assert_eq!(base, mixed);
}
