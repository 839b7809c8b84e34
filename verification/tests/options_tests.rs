use cargo_bump::options::{get_options, NewVersion};

#[test]
fn options_bump_arg_only() {
    let options = get_options(
        None,
        false,
        None,
        true,
        String::from("/work/demo"),
        String::from("/work/demo/Cargo.toml"),
    );
    assert!(matches!(options.version, NewVersion::Patch));
    assert!(options.git_tag);
    assert_eq!(options.message, "tagging version %s");
    assert_eq!(options.root, "/work/demo");
    assert_eq!(options.manifest, "/work/demo/Cargo.toml");
}

#[test]
fn options_version_arg_minor() {
    let options = get_options(
        Some("minor"),
        false,
        None,
        true,
        String::from("/work/demo"),
        String::from("/work/demo/Cargo.toml"),
    );
    assert!(matches!(options.version, NewVersion::Minor));
    assert!(options.git_tag);
    assert_eq!(options.message, "tagging version %s");
}

#[test]
fn git_tag_version_set() {
    let options = get_options(
        None,
        true,
        None,
        true,
        String::from("/work/demo"),
        String::from("/work/demo/Cargo.toml"),
    );
    assert!(matches!(options.version, NewVersion::Patch));
    assert!(!options.git_tag);
    assert_eq!(options.message, "tagging version %s");
}

#[test]
fn commit_message_set() {
    let options = get_options(
        None,
        false,
        Some("stuff and things"),
        true,
        String::from("/work/demo"),
        String::from("/work/demo/Cargo.toml"),
    );
    assert!(matches!(options.version, NewVersion::Patch));
    assert!(options.git_tag);
    assert_eq!(options.message, "stuff and things");
}

#[test]
fn no_repository_disables_tagging() {
    let options = get_options(
        None,
        false,
        None,
        false,
        String::from("/work/demo"),
        String::from("/work/demo/Cargo.toml"),
    );
    assert!(!options.git_tag);
}

#[test]
fn explicit_version_argument_is_kept() {
    let version = NewVersion::from_str("2.0.0-rc.1");
    assert!(matches!(version, NewVersion::String(ref s) if s == "2.0.0-rc.1"));
    assert!(matches!(NewVersion::from_str("major"), NewVersion::Major));
    assert!(matches!(NewVersion::from_str("minor"), NewVersion::Minor));
    assert!(matches!(NewVersion::from_str("patch"), NewVersion::Patch));
}
