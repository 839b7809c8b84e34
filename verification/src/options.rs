//! Run options: which version change was asked for and how the run
//! should behave.  The surrounding program gathers the raw inputs (the
//! command line, where the manifest lies, whether version control is
//! available); building the options from them is decided here.

use vstd::prelude::*;

verus! {

use vstd::string::StringExecFns;

/// The requested change: a bump word or an explicit version string.
pub enum NewVersion {
    String(String),
    Major,
    Minor,
    Patch,
}

/// The value of a requested change.
pub ghost enum NewVersionView {
    String(Seq<char>),
    Major,
    Minor,
    Patch,
}

impl View for NewVersion {
    type V = NewVersionView;

    open spec fn view(&self) -> NewVersionView {
        match self {
            NewVersion::String(s) => NewVersionView::String(s@),
            NewVersion::Major => NewVersionView::Major,
            NewVersion::Minor => NewVersionView::Minor,
            NewVersion::Patch => NewVersionView::Patch,
        }
    }
}

/// What a version argument denotes: one of the bump words, or itself.
pub open spec fn spec_new_version_of(s: Seq<char>) -> NewVersionView {
    if s == "major"@ {
        NewVersionView::Major
    } else if s == "minor"@ {
        NewVersionView::Minor
    } else if s == "patch"@ {
        NewVersionView::Patch
    } else {
        NewVersionView::String(s)
    }
}

/// Whether two strings hold the same characters.
fn str_eq(a: &str, b: &str) -> (r: bool)
    ensures
        r == (a@ == b@),
{
    String::from_str(a) == String::from_str(b)
}

impl NewVersion {
    /// Reads a version argument.
    pub fn from_str(input: &str) -> (r: NewVersion)
        ensures
            r@ == spec_new_version_of(input@),
    {
        if str_eq(input, "major") {
            NewVersion::Major
        } else if str_eq(input, "minor") {
            NewVersion::Minor
        } else if str_eq(input, "patch") {
            NewVersion::Patch
        } else {
            NewVersion::String(String::from_str(input))
        }
    }
}

/// How one run behaves: the requested change, whether to commit and tag,
/// the commit message, and where the project and its manifest lie.
pub struct Options {
    pub version: NewVersion,
    pub git_tag: bool,
    pub message: String,
    pub root: String,
    pub manifest: String,
}

/// Builds the run options from the raw inputs the surrounding program
/// gathered: the optional version argument (a missing one means a patch
/// bump), the flag disabling version control, the optional commit
/// message (`%s` stands for the new version), whether a repository was
/// found, and the project paths.
pub fn get_options(
    version_arg: Option<&str>,
    no_git_tag: bool,
    message_arg: Option<&str>,
    has_git: bool,
    root: String,
    manifest: String,
) -> (o: Options)
    ensures
        o.version@ == (match version_arg {
            Some(s) => spec_new_version_of(s@),
            None => NewVersionView::Patch,
        }),
        o.git_tag == (has_git && !no_git_tag),
        o.message@ == (match message_arg {
            Some(m) => m@,
            None => "tagging version %s"@,
        }),
        o.root@ == root@,
        o.manifest@ == manifest@,
{
    let version = match version_arg {
        Some(s) => NewVersion::from_str(s),
        None => NewVersion::Patch,
    };
    let message = match message_arg {
        Some(m) => String::from_str(m),
        None => String::from_str("tagging version %s"),
    };
    Options { version, git_tag: has_git && !no_git_tag, message, root, manifest }
}

} // verus!
