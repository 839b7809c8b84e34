use cargo_bump::config::{ModifierType, VersionModifier};
use cargo_bump::update_toml_with_version;

fn toml_test_wrapper(
    template: &str,
    version_modifier: VersionModifier,
    start_version: &str,
    end_version: &str,
) {
    let input = template.replace("$VERSION", &format!("\"{}\"", start_version));
    let expected_output = template.replace("$VERSION", &format!("\"{}\"", end_version));
    let output = update_toml_with_version(input.as_bytes(), version_modifier)
        .expect("update should succeed");
    assert_eq!(
        expected_output.as_bytes(),
        output.text.as_slice(),
        "toml output should be same with new version"
    );
}

#[test]
fn toml_test_simple() {
    let input = "[package]
version = $VERSION";
    let mod_type = ModifierType::from_str("1.0.0".as_bytes()).expect("version modifier");
    toml_test_wrapper(
        input,
        VersionModifier::from_mod_type(mod_type),
        "1.0.0",
        "1.0.0",
    );
    let mod_type = ModifierType::Patch;
    toml_test_wrapper(
        input,
        VersionModifier::from_mod_type(mod_type),
        "1.0.0",
        "1.0.1",
    );
    let mod_type = ModifierType::Minor;
    toml_test_wrapper(
        input,
        VersionModifier::from_mod_type(mod_type),
        "1.0.0",
        "1.1.0",
    );
    let mod_type = ModifierType::Major;
    toml_test_wrapper(
        input,
        VersionModifier::from_mod_type(mod_type),
        "1.0.0",
        "2.0.0",
    );
    let version_mod = VersionModifier::new(ModifierType::Major, Some("RC".as_bytes()), None);
    toml_test_wrapper(input, version_mod, "1.0.0", "2.0.0-RC");
    let version_mod = VersionModifier::new(
        ModifierType::Major,
        None,
        Some("ac44f1f8f31acf4728bd2055d716776b".as_bytes()),
    );
    toml_test_wrapper(
        input,
        version_mod,
        "1.0.0",
        "2.0.0+ac44f1f8f31acf4728bd2055d716776b",
    );
    let version_mod = VersionModifier::new(
        ModifierType::Major,
        Some("alpha".as_bytes()),
        Some("2230".as_bytes()),
    );
    toml_test_wrapper(input, version_mod, "1.0.0", "2.0.0-alpha+2230");
}

#[test]
fn toml_test_formatting_preserved_spaces() {
    let input = "  [package]
    version = $VERSION";
    let mod_type = ModifierType::from_str("1.0.0".as_bytes()).expect("version modifier");
    toml_test_wrapper(
        input,
        VersionModifier::from_mod_type(mod_type),
        "1.1.0",
        "1.0.0",
    );
    let mod_type = ModifierType::Patch;
    toml_test_wrapper(
        input,
        VersionModifier::from_mod_type(mod_type),
        "1.1.0",
        "1.1.1",
    );
    let mod_type = ModifierType::Minor;
    toml_test_wrapper(
        input,
        VersionModifier::from_mod_type(mod_type),
        "1.1.0",
        "1.2.0",
    );
    let mod_type = ModifierType::Major;
    toml_test_wrapper(
        input,
        VersionModifier::from_mod_type(mod_type),
        "1.1.0",
        "2.0.0",
    );

    let input = "  [package]
version= $VERSION";
    let mod_type = ModifierType::from_str("1.0.0".as_bytes()).expect("version modifier");
    toml_test_wrapper(
        input,
        VersionModifier::from_mod_type(mod_type),
        "1.1.0",
        "1.0.0",
    );
    let mod_type = ModifierType::Patch;
    toml_test_wrapper(
        input,
        VersionModifier::from_mod_type(mod_type),
        "1.1.0",
        "1.1.1",
    );
    let mod_type = ModifierType::Minor;
    toml_test_wrapper(
        input,
        VersionModifier::from_mod_type(mod_type),
        "1.1.0",
        "1.2.0",
    );
    let mod_type = ModifierType::Major;
    toml_test_wrapper(
        input,
        VersionModifier::from_mod_type(mod_type),
        "1.1.0",
        "2.0.0",
    );

    let input = "  [package]
version       = $VERSION";
    let mod_type = ModifierType::from_str("1.0.0".as_bytes()).expect("version modifier");
    toml_test_wrapper(
        input,
        VersionModifier::from_mod_type(mod_type),
        "1.1.0",
        "1.0.0",
    );
    let mod_type = ModifierType::Patch;
    toml_test_wrapper(
        input,
        VersionModifier::from_mod_type(mod_type),
        "1.1.0",
        "1.1.1",
    );
    let mod_type = ModifierType::Minor;
    toml_test_wrapper(
        input,
        VersionModifier::from_mod_type(mod_type),
        "1.1.0",
        "1.2.0",
    );
    let mod_type = ModifierType::Major;
    toml_test_wrapper(
        input,
        VersionModifier::from_mod_type(mod_type),
        "1.1.0",
        "2.0.0",
    );
}

#[test]
fn toml_test_formatting_preserved_space_around_replaced_value() {
    let input = "  [package]
version =$VERSION";
    let mod_type = ModifierType::from_str("1.0.0".as_bytes()).expect("version modifier");
    toml_test_wrapper(
        input,
        VersionModifier::from_mod_type(mod_type),
        "1.1.0",
        "1.0.0",
    );
    let mod_type = ModifierType::Patch;
    toml_test_wrapper(
        input,
        VersionModifier::from_mod_type(mod_type),
        "1.1.0",
        "1.1.1",
    );
    let mod_type = ModifierType::Minor;
    toml_test_wrapper(
        input,
        VersionModifier::from_mod_type(mod_type),
        "1.1.0",
        "1.2.0",
    );
    let mod_type = ModifierType::Major;
    toml_test_wrapper(
        input,
        VersionModifier::from_mod_type(mod_type),
        "1.1.0",
        "2.0.0",
    );

    let input = "  [package]
version =    $VERSION";
    let mod_type = ModifierType::from_str("1.0.0".as_bytes()).expect("version modifier");
    toml_test_wrapper(
        input,
        VersionModifier::from_mod_type(mod_type),
        "1.1.0",
        "1.0.0",
    );
    let mod_type = ModifierType::Patch;
    toml_test_wrapper(
        input,
        VersionModifier::from_mod_type(mod_type),
        "1.1.0",
        "1.1.1",
    );
    let mod_type = ModifierType::Minor;
    toml_test_wrapper(
        input,
        VersionModifier::from_mod_type(mod_type),
        "1.1.0",
        "1.2.0",
    );
    let mod_type = ModifierType::Major;
    toml_test_wrapper(
        input,
        VersionModifier::from_mod_type(mod_type),
        "1.1.0",
        "2.0.0",
    );

    let input = "  [package]
version = $VERSION      ";
    let mod_type = ModifierType::from_str("1.0.0".as_bytes()).expect("version modifier");
    toml_test_wrapper(
        input,
        VersionModifier::from_mod_type(mod_type),
        "1.1.0",
        "1.0.0",
    );
    let mod_type = ModifierType::Patch;
    toml_test_wrapper(
        input,
        VersionModifier::from_mod_type(mod_type),
        "1.1.0",
        "1.1.1",
    );
    let mod_type = ModifierType::Minor;
    toml_test_wrapper(
        input,
        VersionModifier::from_mod_type(mod_type),
        "1.1.0",
        "1.2.0",
    );
    let mod_type = ModifierType::Major;
    toml_test_wrapper(
        input,
        VersionModifier::from_mod_type(mod_type),
        "1.1.0",
        "2.0.0",
    );
}

#[test]
fn toml_test_formatting_preserved_header_spaces() {
    let input = "  [package]
    version = $VERSION
[     other]
a = true";
    let mod_type = ModifierType::from_str("1.0.0".as_bytes()).expect("version modifier");
    toml_test_wrapper(
        input,
        VersionModifier::from_mod_type(mod_type),
        "1.1.0",
        "1.0.0",
    );
    let mod_type = ModifierType::Patch;
    toml_test_wrapper(
        input,
        VersionModifier::from_mod_type(mod_type),
        "1.1.0",
        "1.1.1",
    );
    let mod_type = ModifierType::Minor;
    toml_test_wrapper(
        input,
        VersionModifier::from_mod_type(mod_type),
        "1.1.0",
        "1.2.0",
    );
    let mod_type = ModifierType::Major;
    toml_test_wrapper(
        input,
        VersionModifier::from_mod_type(mod_type),
        "1.1.0",
        "2.0.0",
    );

    let input = "  [  package   ]
    version= $VERSION";
    let mod_type = ModifierType::from_str("1.0.0".as_bytes()).expect("version modifier");
    toml_test_wrapper(
        input,
        VersionModifier::from_mod_type(mod_type),
        "1.1.1",
        "1.0.0",
    );
    let mod_type = ModifierType::Patch;
    toml_test_wrapper(
        input,
        VersionModifier::from_mod_type(mod_type),
        "1.1.1",
        "1.1.2",
    );
    let mod_type = ModifierType::Minor;
    toml_test_wrapper(
        input,
        VersionModifier::from_mod_type(mod_type),
        "1.1.1",
        "1.2.0",
    );
    let mod_type = ModifierType::Major;
    toml_test_wrapper(
        input,
        VersionModifier::from_mod_type(mod_type),
        "1.1.1",
        "2.0.0",
    );

    let input = "  [  package   ]



    version= $VERSION

    ";
    let mod_type = ModifierType::from_str("4.0.0".as_bytes()).expect("version modifier");
    toml_test_wrapper(
        input,
        VersionModifier::from_mod_type(mod_type),
        "2.0.0",
        "4.0.0",
    );
    let mod_type = ModifierType::Patch;
    toml_test_wrapper(
        input,
        VersionModifier::from_mod_type(mod_type),
        "2.0.0",
        "2.0.1",
    );
    let mod_type = ModifierType::Minor;
    toml_test_wrapper(
        input,
        VersionModifier::from_mod_type(mod_type),
        "2.0.0",
        "2.1.0",
    );
    let mod_type = ModifierType::Major;
    toml_test_wrapper(
        input,
        VersionModifier::from_mod_type(mod_type),
        "2.0.0",
        "3.0.0",
    );
}

#[test]
fn toml_test_formatting_preserved_comments() {
    let input = "#before header
[package]
version = $VERSION";
    let mod_type = ModifierType::from_str("1.0.0".as_bytes()).expect("version modifier");
    toml_test_wrapper(
        input,
        VersionModifier::from_mod_type(mod_type),
        "1.0.0",
        "1.0.0",
    );
    let mod_type = ModifierType::Patch;
    toml_test_wrapper(
        input,
        VersionModifier::from_mod_type(mod_type),
        "1.0.0",
        "1.0.1",
    );
    let mod_type = ModifierType::Minor;
    toml_test_wrapper(
        input,
        VersionModifier::from_mod_type(mod_type),
        "1.0.0",
        "1.1.0",
    );
    let mod_type = ModifierType::Major;
    toml_test_wrapper(
        input,
        VersionModifier::from_mod_type(mod_type),
        "1.0.0",
        "2.0.0",
    );

    let input = "[package]# end of header
version = $VERSION";
    let mod_type = ModifierType::from_str("1.0.0".as_bytes()).expect("version modifier");
    toml_test_wrapper(
        input,
        VersionModifier::from_mod_type(mod_type),
        "1.0.0",
        "1.0.0",
    );
    let mod_type = ModifierType::Patch;
    toml_test_wrapper(
        input,
        VersionModifier::from_mod_type(mod_type),
        "1.0.0",
        "1.0.1",
    );
    let mod_type = ModifierType::Minor;
    toml_test_wrapper(
        input,
        VersionModifier::from_mod_type(mod_type),
        "1.0.0",
        "1.1.0",
    );
    let mod_type = ModifierType::Major;
    toml_test_wrapper(
        input,
        VersionModifier::from_mod_type(mod_type),
        "1.0.0",
        "2.0.0",
    );

    let input = "[package]
# version = \"2.0.0\"
version = $VERSION";
    let mod_type = ModifierType::from_str("1.0.0".as_bytes()).expect("version modifier");
    toml_test_wrapper(
        input,
        VersionModifier::from_mod_type(mod_type),
        "1.0.0",
        "1.0.0",
    );
    let mod_type = ModifierType::Patch;
    toml_test_wrapper(
        input,
        VersionModifier::from_mod_type(mod_type),
        "1.0.0",
        "1.0.1",
    );
    let mod_type = ModifierType::Minor;
    toml_test_wrapper(
        input,
        VersionModifier::from_mod_type(mod_type),
        "1.0.0",
        "1.1.0",
    );
    let mod_type = ModifierType::Major;
    toml_test_wrapper(
        input,
        VersionModifier::from_mod_type(mod_type),
        "1.0.0",
        "2.0.0",
    );
}

#[test]
fn toml_test_dotted_headers() {
    let input = "[package]
version = $VERSION

[a]
d = false

[a.b]
c = true";
    let mod_type = ModifierType::from_str("1.0.0".as_bytes()).expect("version modifier");
    toml_test_wrapper(
        input,
        VersionModifier::from_mod_type(mod_type),
        "1.0.0",
        "1.0.0",
    );
    let mod_type = ModifierType::Patch;
    toml_test_wrapper(
        input,
        VersionModifier::from_mod_type(mod_type),
        "1.0.0",
        "1.0.1",
    );
    let mod_type = ModifierType::Minor;
    toml_test_wrapper(
        input,
        VersionModifier::from_mod_type(mod_type),
        "1.0.0",
        "1.1.0",
    );
    let mod_type = ModifierType::Major;
    toml_test_wrapper(
        input,
        VersionModifier::from_mod_type(mod_type),
        "1.0.0",
        "2.0.0",
    );
}
