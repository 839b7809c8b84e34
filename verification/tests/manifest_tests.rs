use cargo_bump::config::{ModifierType, VersionModifier};
use cargo_bump::error::ErrorKind;
use cargo_bump::manifest::Manifest;
use cargo_bump::update_toml_with_version;

const PACKAGE: &[u8] = b"package";
const VERSION_KEY: &[u8] = b"version";

#[test]
fn parse_serialize_round_trip() {
    let input = "#before header\n  [package]   # trailing\n\nname = \"demo\"\nversion = \"1.2.3\"\n\n[dependencies]\nfoo = { version = \"1\" }\n";
    let doc = Manifest::parse(input.as_bytes()).expect("document should parse");
    assert_eq!(doc.serialize(), input.as_bytes().to_vec());
}

#[test]
fn set_field_with_same_value_is_byte_identical() {
    let input = "  [package]\nversion =    \"1.0.0\"      \nother = 3\n";
    let mut doc = Manifest::parse(input.as_bytes()).expect("document should parse");
    doc.set_field(PACKAGE, VERSION_KEY, b"1.0.0")
        .expect("field should be found");
    assert_eq!(doc.serialize(), input.as_bytes().to_vec());
}

#[test]
fn get_field_reads_the_version_string() {
    let input = "[package]\nversion = \"0.4.7-rc.1\" # note\n";
    let doc = Manifest::parse(input.as_bytes()).expect("document should parse");
    let value = doc.get_field(PACKAGE, VERSION_KEY).expect("field present");
    assert_eq!(value, b"0.4.7-rc.1".to_vec());
}

#[test]
fn set_field_replaces_only_the_value_token() {
    let input = "[package]\nversion = \"1.0.0\" # keep me\nafter = true\n";
    let expected = "[package]\nversion = \"2.0.0\" # keep me\nafter = true\n";
    let mut doc = Manifest::parse(input.as_bytes()).expect("document should parse");
    doc.set_field(PACKAGE, VERSION_KEY, b"2.0.0")
        .expect("field should be found");
    assert_eq!(doc.serialize(), expected.as_bytes().to_vec());
}

#[test]
fn parse_fails_on_unterminated_string() {
    let input = "[package]\nversion = \"1.0.0\n";
    assert!(matches!(
        Manifest::parse(input.as_bytes()),
        Err(ErrorKind::ParseError)
    ));
    let r = update_toml_with_version(
        input.as_bytes(),
        VersionModifier::from_mod_type(ModifierType::Patch),
    );
    assert!(matches!(r, Err(ErrorKind::ParseError)));
}

#[test]
fn parse_fails_on_a_shapeless_line() {
    let input = "[package]\nversion = \"1.0.0\"\nwhat is this\n";
    assert!(matches!(
        Manifest::parse(input.as_bytes()),
        Err(ErrorKind::ParseError)
    ));
}

#[test]
fn missing_version_field_is_reported() {
    let input = "[package]\nname = \"demo\"\n";
    let doc = Manifest::parse(input.as_bytes()).expect("document should parse");
    assert!(matches!(
        doc.get_field(PACKAGE, VERSION_KEY),
        Err(ErrorKind::MissingFieldError)
    ));
}

#[test]
fn missing_package_table_is_reported() {
    let input = "[other]\nversion = \"1.0.0\"\n";
    let doc = Manifest::parse(input.as_bytes()).expect("document should parse");
    assert!(matches!(
        doc.get_field(PACKAGE, VERSION_KEY),
        Err(ErrorKind::MissingFieldError)
    ));
    let r = update_toml_with_version(
        input.as_bytes(),
        VersionModifier::from_mod_type(ModifierType::Patch),
    );
    assert!(matches!(r, Err(ErrorKind::MissingFieldError)));
}

#[test]
fn non_string_version_is_a_type_error() {
    let input = "[package]\nversion = 100\n";
    let doc = Manifest::parse(input.as_bytes()).expect("document should parse");
    assert!(matches!(
        doc.get_field(PACKAGE, VERSION_KEY),
        Err(ErrorKind::TypeError)
    ));
}

#[test]
fn commented_out_version_line_is_skipped() {
    let input = "[package]\n# version = \"9.9.9\"\nversion = \"1.0.0\"\n";
    let doc = Manifest::parse(input.as_bytes()).expect("document should parse");
    let value = doc.get_field(PACKAGE, VERSION_KEY).expect("field present");
    assert_eq!(value, b"1.0.0".to_vec());
}

#[test]
fn version_key_outside_package_table_does_not_match() {
    let input = "version = \"0.0.1\"\n[tool]\nversion = \"0.0.2\"\n[package]\nversion = \"1.0.0\"\n";
    let doc = Manifest::parse(input.as_bytes()).expect("document should parse");
    let value = doc.get_field(PACKAGE, VERSION_KEY).expect("field present");
    assert_eq!(value, b"1.0.0".to_vec());
}

#[test]
fn non_version_value_in_field_is_invalid_version() {
    let input = "[package]\nversion = \"not-sem-ver\"\n";
    let r = update_toml_with_version(
        input.as_bytes(),
        VersionModifier::from_mod_type(ModifierType::Patch),
    );
    assert!(matches!(r, Err(ErrorKind::InvalidVersionError)));
}

#[test]
fn unusable_side_channel_is_an_invalid_rule() {
    let input = "[package]\nversion = \"1.0.0\"\n";
    let r = update_toml_with_version(
        input.as_bytes(),
        VersionModifier::new(ModifierType::Patch, Some("bad identifier!".as_bytes()), None),
    );
    assert!(matches!(r, Err(ErrorKind::InvalidRuleError)));
}

#[test]
fn leading_comment_and_indent_survive_a_minor_bump() {
    let input = "#before header\n  [package]\n    version = \"1.4.9\"\n";
    let expected = "#before header\n  [package]\n    version = \"1.5.0\"\n";
    let out = update_toml_with_version(
        input.as_bytes(),
        VersionModifier::from_mod_type(ModifierType::Minor),
    )
    .expect("update should succeed");
    assert_eq!(out.text, expected.as_bytes().to_vec());
    assert_eq!(out.version, b"1.5.0".to_vec());
}
