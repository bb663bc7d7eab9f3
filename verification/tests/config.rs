use m3::config::{join_path, Config, ConfigError};

const SAMPLE: &str = r#"
install {
    target "/games/foo"
    mount at="/data" parent="/mods" {
        dir "a"
        dir "/abs" {
            "file1.txt"
            "file2.txt"
        }
        note "ignored"
    }
    mount {
        dir "plain"
    }
}
other "x"
install {
    target 5
}
install
"#;

#[test]
fn installs_are_the_nodes_named_install() {
    let cfg = Config::parse(SAMPLE).ok().unwrap();
    let installs = cfg.installs();
    assert_eq!(installs.len(), 3);
    assert_eq!(installs[0].target(), Some("/games/foo".to_string()));
    assert_eq!(installs[1].target(), None);
    assert_eq!(installs[2].target(), None);
}

#[test]
fn mounts_carry_their_properties() {
    let cfg = Config::parse(SAMPLE).ok().unwrap();
    let installs = cfg.installs();
    let mounts = installs[0].mounts().unwrap();
    assert_eq!(mounts.len(), 2);
    assert_eq!(mounts[0].at(), Some("/data"));
    assert_eq!(mounts[0].parent(), Some("/mods"));
    assert_eq!(mounts[1].at(), None);
    assert_eq!(mounts[1].parent(), None);
    assert!(installs[2].mounts().is_none());
    assert_eq!(installs[1].mounts().map(|m| m.len()), Some(0));
}

#[test]
fn mount_dirs_are_joined_with_the_parent() {
    let cfg = Config::parse(SAMPLE).ok().unwrap();
    let installs = cfg.installs();
    let mounts = installs[0].mounts().unwrap();
    let dirs = mounts[0].dirs().unwrap();
    assert_eq!(dirs.len(), 2);
    assert_eq!(dirs[0].dir(), Some("/mods/a".to_string()));
    assert_eq!(dirs[1].dir(), Some("/abs".to_string()));
    assert!(dirs[0].files().is_none());
    assert_eq!(dirs[1].files(), Some(vec!["file1.txt", "file2.txt"]));
    let plain = mounts[1].dirs().unwrap();
    assert_eq!(plain[0].dir(), Some("plain".to_string()));
}

#[test]
fn a_broken_document_is_a_parse_error() {
    match Config::parse("install {") {
        Err(ConfigError::Parse(_)) => {}
        Ok(_) => panic!("a broken document parsed"),
    }
}

#[test]
fn an_empty_document_has_no_installs() {
    let cfg = Config::parse("").ok().unwrap();
    assert!(cfg.installs().is_empty());
}

#[test]
fn last_property_wins() {
    let cfg = Config::parse("install {\n    mount at=\"/one\" at=\"/two\"\n}\n").ok().unwrap();
    let installs = cfg.installs();
    let mounts = installs[0].mounts().unwrap();
    assert_eq!(mounts[0].at(), Some("/two"));
}

#[test]
fn join_path_follows_path_join() {
    assert_eq!(join_path("/mods", "a"), "/mods/a");
    assert_eq!(join_path("/mods/", "a"), "/mods/a");
    assert_eq!(join_path("/mods", "/abs"), "/abs");
    assert_eq!(join_path("", "a"), "a");
    assert_eq!(join_path("/mods", ""), "/mods/");
}
