//! Version-control decisions.  The library decides what to run — whether
//! the working tree counts as clean, and which commands, in which order,
//! record a new version — and the surrounding program performs them.

use vstd::prelude::*;

verus! {

use vstd::string::StringExecFns;

/// One invocation of the version-control tool: the arguments to hand it.
pub struct GitCommand {
    pub args: Vec<String>,
}

impl View for GitCommand {
    type V = Seq<Seq<char>>;

    open spec fn view(&self) -> Seq<Seq<char>> {
        self.args.deep_view()
    }
}

/// Decides whether the working tree is clean from the bytes the status
/// query printed: clean means it printed nothing.
pub fn check(status_output: &[u8]) -> (clean: bool)
    ensures
        clean == (status_output@.len() == 0),
{
    status_output.len() == 0
}

pub open spec fn spec_commit_args(version: Seq<char>) -> Seq<Seq<char>> {
    seq!["commit"@, "-am"@, version]
}

pub open spec fn spec_tag_args(version: Seq<char>) -> Seq<Seq<char>> {
    seq!["tag"@, "-am"@, version, version]
}

/// The command that commits everything with the version as its message.
pub fn commit(version: &str) -> (c: GitCommand)
    ensures
        c@ == spec_commit_args(version@),
{
    let mut args: Vec<String> = Vec::new();
    args.push(String::from_str("commit"));
    args.push(String::from_str("-am"));
    args.push(String::from_str(version));
    proof {
        assert(args.deep_view() =~= spec_commit_args(version@));
    }
    GitCommand { args }
}

/// The command that creates an annotated tag named after the version.
pub fn tag(version: &str) -> (c: GitCommand)
    ensures
        c@ == spec_tag_args(version@),
{
    let mut args: Vec<String> = Vec::new();
    args.push(String::from_str("tag"));
    args.push(String::from_str("-am"));
    args.push(String::from_str(version));
    args.push(String::from_str(version));
    proof {
        assert(args.deep_view() =~= spec_tag_args(version@));
    }
    GitCommand { args }
}

/// Recording a version is a commit followed by a tag, in that order.
pub fn commit_and_tag(version: &str) -> (cmds: Vec<GitCommand>)
    ensures
        cmds@.len() == 2,
        cmds@[0]@ == spec_commit_args(version@),
        cmds@[1]@ == spec_tag_args(version@),
{
    let mut cmds: Vec<GitCommand> = Vec::new();
    cmds.push(commit(version));
    cmds.push(tag(version));
    cmds
}

} // verus!
