use spm_ingest::nevra::Nevra;

#[test]
fn test_nevra() {
    let nevra = Nevra::from_str("389-ds-base-1.3.7.8-1.fc27.src").unwrap();
    assert_eq!("389-ds-base", nevra.name);
    assert_eq!("1.3.7.8", nevra.version);
    assert_eq!("1.fc27", nevra.release);
    assert_eq!("src", nevra.arch);
}

#[test]
fn parse_without_epoch_leaves_it_absent() {
    let nevra = Nevra::from_str("389-ds-base-1.3.7.8-1.fc27.src").unwrap();
    assert_eq!(None, nevra.epoch);
}

#[test]
fn parse_takes_an_epoch() {
    let nevra = Nevra::from_str("perl-Net-SSLeay-4:1.85-6.el8.x86_64").unwrap();
    assert_eq!("perl-Net-SSLeay", nevra.name);
    assert_eq!(Some("4".to_string()), nevra.epoch);
    assert_eq!("1.85", nevra.version);
    assert_eq!("6.el8", nevra.release);
    assert_eq!("x86_64", nevra.arch);
}

#[test]
fn colon_without_version_after_it_stays_in_the_version() {
    let nevra = Nevra::from_str("foo-12:-1.noarch").unwrap();
    assert_eq!(None, nevra.epoch);
    assert_eq!("12:", nevra.version);
    let nevra = Nevra::from_str("foo-a1:2-1.noarch").unwrap();
    assert_eq!(None, nevra.epoch);
    assert_eq!("a1:2", nevra.version);
}

#[test]
fn round_trip_reproduces_the_input() {
    for s in [
        "389-ds-base-1.3.7.8-1.fc27.src",
        "perl-Net-SSLeay-4:1.85-6.el8.x86_64",
        "kernel-core-5.14.0-70.el9.aarch64",
        "a-b-c-d-1-2.noarch",
    ] {
        assert_eq!(s, Nevra::from_str(s).unwrap().to_string());
    }
}

#[test]
fn rejects_identifiers_that_do_not_match() {
    for s in [
        "",
        "foo",
        "foo-1.0.x86_64",
        "foo-1.0-1",
        "foo-1.0-1.X86_64",
        "foo-1.0-1.",
        "foo-1.0-.x86_64",
        "foo--1.x86_64",
        "foo-1.0-1.x86-64",
        "fo\no-1.0-1.x86_64",
    ] {
        assert!(Nevra::from_str(s).is_err(), "{:?}", s);
    }
}

#[test]
fn empty_name_is_rejected() {
    assert!(Nevra::from_str("-1.0-1.x86_64").is_err());
}

#[test]
fn name_with_forbidden_characters_is_rejected() {
    for s in [
        "fo:o-1.0-1.x86_64",
        "fo(o-1.0-1.x86_64",
        "fo/o-1.0-1.x86_64",
        "fo=o-1.0-1.x86_64",
        "fo<o-1.0-1.x86_64",
        "fo>o-1.0-1.x86_64",
        "fo o-1.0-1.x86_64",
    ] {
        assert!(Nevra::from_str(s).is_err(), "{:?}", s);
    }
}
