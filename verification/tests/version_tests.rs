use cargo_bump::config::{ModifierType, VersionModifier};
use cargo_bump::error::ErrorKind;
use cargo_bump::version::{parse_version, render, update_version, Identifier};

fn parsed(s: &str) -> cargo_bump::version::Version {
    parse_version(s.as_bytes()).expect("version should parse")
}

fn rendered(v: &cargo_bump::version::Version) -> String {
    String::from_utf8(render(v)).expect("rendered version is text")
}

#[test]
fn parse_plain_version() {
    let v = parsed("1.2.3");
    assert_eq!(v.major, 1);
    assert_eq!(v.minor, 2);
    assert_eq!(v.patch, 3);
    assert!(v.pre.is_empty());
    assert!(v.build.is_empty());
}

#[test]
fn parse_pre_and_build() {
    let v = parsed("1.2.3-alpha.7+exp.sha.5114f85");
    assert_eq!(v.pre.len(), 2);
    assert!(matches!(v.pre[0], Identifier::AlphaNumeric(ref b) if b.as_slice() == b"alpha".as_slice()));
    assert!(matches!(v.pre[1], Identifier::Numeric(7)));
    assert_eq!(v.build.len(), 3);
    assert!(matches!(v.build[0], Identifier::AlphaNumeric(ref b) if b.as_slice() == b"exp".as_slice()));
    assert!(matches!(v.build[1], Identifier::AlphaNumeric(ref b) if b.as_slice() == b"sha".as_slice()));
    assert!(matches!(v.build[2], Identifier::AlphaNumeric(ref b) if b.as_slice() == b"5114f85".as_slice()));
}

#[test]
fn render_round_trips_version_strings() {
    for s in [
        "0.0.0",
        "1.2.3",
        "10.20.30",
        "1.0.0-alpha",
        "1.0.0-alpha.1",
        "1.0.0-0.3.7",
        "1.0.0+20130313144700",
        "1.0.0-beta+exp.sha.5114f85",
        "1.0.0+0001",
        "18446744073709551615.0.0",
    ] {
        assert_eq!(rendered(&parsed(s)), s);
    }
}

#[test]
fn parse_rejects_malformed_versions() {
    for s in [
        "",
        "1",
        "1.2",
        "1.2.3.4",
        "01.2.3",
        "1.02.3",
        "1.2.03",
        "a.b.c",
        "1.2.3-",
        "1.2.3+",
        "1.2.3-alpha..1",
        "1.2.3-01",
        "1.2.3-al_pha",
        "1.2.3 ",
        " 1.2.3",
        "18446744073709551616.0.0",
    ] {
        let r = parse_version(s.as_bytes());
        assert!(
            matches!(r, Err(ErrorKind::InvalidVersionError)),
            "{:?} should be rejected",
            s
        );
    }
}

#[test]
fn build_keeps_leading_zero_digits_verbatim() {
    let v = parsed("1.0.0+0001");
    assert!(matches!(v.build[0], Identifier::AlphaNumeric(ref b) if b.as_slice() == b"0001".as_slice()));
    assert_eq!(rendered(&v), "1.0.0+0001");
}

#[test]
fn patch_bump_increments_patch_only() {
    let mut v = parsed("1.2.3");
    update_version(&mut v, VersionModifier::from_mod_type(ModifierType::Patch));
    assert_eq!(rendered(&v), "1.2.4");
}

#[test]
fn minor_bump_resets_patch() {
    let mut v = parsed("1.2.3");
    update_version(&mut v, VersionModifier::from_mod_type(ModifierType::Minor));
    assert_eq!(rendered(&v), "1.3.0");
}

#[test]
fn major_bump_resets_minor_patch_and_pre() {
    let mut v = parsed("1.2.3-beta.2+77");
    update_version(&mut v, VersionModifier::from_mod_type(ModifierType::Major));
    assert_eq!(rendered(&v), "2.0.0+77");
}

#[test]
fn replace_ignores_current_version() {
    let mut v = parsed("9.9.9-rc.1");
    let w = parsed("3.1.4");
    update_version(&mut v, VersionModifier::from_mod_type(ModifierType::Replace(w)));
    assert_eq!(rendered(&v), "3.1.4");
}

#[test]
fn side_channels_overwrite_after_every_rule() {
    let mut v = parsed("1.0.0");
    update_version(
        &mut v,
        VersionModifier::new(ModifierType::Major, Some("RC".as_bytes()), None),
    );
    assert_eq!(rendered(&v), "2.0.0-RC");

    let mut v = parsed("1.0.0-old+old");
    let w = parsed("5.0.0");
    update_version(
        &mut v,
        VersionModifier::new(
            ModifierType::Replace(w),
            Some("beta.3".as_bytes()),
            Some("2230".as_bytes()),
        ),
    );
    assert_eq!(rendered(&v), "5.0.0-beta.3+2230");
}

#[test]
fn patch_twice_advances_by_two() {
    let mut v = parsed("0.1.7");
    update_version(&mut v, VersionModifier::from_mod_type(ModifierType::Patch));
    update_version(&mut v, VersionModifier::from_mod_type(ModifierType::Patch));
    assert_eq!(rendered(&v), "0.1.9");
}

#[test]
fn bump_saturates_at_the_largest_component() {
    let mut v = parsed("1.0.18446744073709551615");
    update_version(&mut v, VersionModifier::from_mod_type(ModifierType::Patch));
    assert_eq!(rendered(&v), "1.0.18446744073709551615");
}
