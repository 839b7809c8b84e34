use cargo_bump::git::{check, commit, commit_and_tag, tag};

#[test]
fn clean_tree_means_no_status_output() {
    assert!(check(b""));
    assert!(!check(b" M src/lib.rs\n"));
}

#[test]
fn commit_command_arguments() {
    let c = commit("1.2.3");
    assert_eq!(c.args, vec!["commit", "-am", "1.2.3"]);
}

#[test]
fn tag_command_arguments() {
    let c = tag("1.2.3");
    assert_eq!(c.args, vec!["tag", "-am", "1.2.3", "1.2.3"]);
}

#[test]
fn commit_and_tag_runs_commit_first() {
    let cmds = commit_and_tag("0.9.0");
    assert_eq!(cmds.len(), 2);
    assert_eq!(cmds[0].args, vec!["commit", "-am", "0.9.0"]);
    assert_eq!(cmds[1].args, vec!["tag", "-am", "0.9.0", "0.9.0"]);
}
