use cargo_bump::config::{parse_identifiers, ModifierType, VersionModifier};
use cargo_bump::error::ErrorKind;
use cargo_bump::version::Identifier;

#[test]
fn config_bump_arg_only() {
    // a missing version argument means a patch bump
    let mod_type = ModifierType::from_str("patch".as_bytes()).expect("rule word");
    let config = VersionModifier::from_mod_type(mod_type);
    assert!(matches!(config.mod_type, ModifierType::Patch));
    assert!(config.pre_release.is_none());
    assert!(config.build_metadata.is_none());
}

#[test]
fn config_version_arg_minor() {
    let mod_type = ModifierType::from_str("minor".as_bytes()).expect("rule word");
    let config = VersionModifier::from_mod_type(mod_type);
    assert!(matches!(config.mod_type, ModifierType::Minor));
}

#[test]
fn version_arg_string_good() {
    let mod_type = ModifierType::from_str("1.2.3".as_bytes()).expect("rule word");
    match mod_type {
        ModifierType::Replace(v) => {
            assert_eq!(v.major, 1);
            assert_eq!(v.minor, 2);
            assert_eq!(v.patch, 3);
        }
        other => panic!("expected a replacement, got {:?}", other),
    }
}

#[test]
fn version_arg_string_bad() {
    let r = ModifierType::from_str("not a version".as_bytes());
    assert!(matches!(r, Err(ErrorKind::InvalidRuleError)));
}

#[test]
fn version_bump_and_build() {
    let version_mod =
        VersionModifier::new(ModifierType::Major, None, Some("1999".as_bytes()));
    assert!(matches!(version_mod.mod_type, ModifierType::Major));
    assert!(version_mod.pre_release.is_none());
    let build = version_mod.build_metadata.expect("build metadata present");
    assert_eq!(build.len(), 1);
    assert!(matches!(build[0], Identifier::Numeric(1999)));
}

#[test]
fn version_bump_and_pre() {
    let mod_type = ModifierType::from_str("2.0.0".as_bytes()).expect("rule word");
    let version_mod = VersionModifier::new(mod_type, Some("beta".as_bytes()), None);
    assert!(matches!(version_mod.mod_type, ModifierType::Replace(_)));
    assert!(version_mod.build_metadata.is_none());
    let pre = version_mod.pre_release.expect("pre-release present");
    assert_eq!(pre.len(), 1);
    assert!(matches!(pre[0], Identifier::AlphaNumeric(ref b) if b.as_slice() == b"beta".as_slice()));
}

#[test]
fn identifiers_split_on_dots() {
    let ids = parse_identifiers("beta.1.x-y".as_bytes());
    assert_eq!(ids.len(), 3);
    assert!(matches!(ids[0], Identifier::AlphaNumeric(ref b) if b.as_slice() == b"beta".as_slice()));
    assert!(matches!(ids[1], Identifier::Numeric(1)));
    assert!(matches!(ids[2], Identifier::AlphaNumeric(ref b) if b.as_slice() == b"x-y".as_slice()));
}

#[test]
fn identifiers_with_leading_zeros_become_numeric() {
    let ids = parse_identifiers("007".as_bytes());
    assert_eq!(ids.len(), 1);
    assert!(matches!(ids[0], Identifier::Numeric(7)));
}
