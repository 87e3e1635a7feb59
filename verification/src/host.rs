//! What a merge is allowed to reach outside itself, and who hands it over.

use vstd::prelude::*;
use crate::text::strs;

verus! {

broadcast use vstd::string::group_string_axioms;

/// Which spelling of a line-level merge the caller is being asked for.
#[derive(Debug, Clone, Copy, PartialEq, Eq, Structural)]
pub enum LineMergeStyle {
    /// Content only, and only when it merges cleanly.
    Plain,
    /// Sections labelled `ours`, `base` and `theirs`, whether the merge was clean or
    /// not.
    Labelled,
}

/// The answer a line-level merge gave.
#[derive(Debug, Clone, PartialEq, Eq)]
pub struct LineMerged {
    /// The merged text, with conflict markers where it is not clean.
    pub content: String,
    /// Whether it resolved without conflict.
    pub clean: bool,
}

/// A line-level merge that the caller has granted.
#[derive(Debug, Clone, Copy, PartialEq, Eq, Structural)]
pub enum LineMerge {
    /// `git merge-file`, as a second opinion on what the line merge in this process
    /// refused.
    GitMergeFile,
}

/// The outside world a merge may touch, granted by whoever starts the program.
#[derive(Debug, Clone, Copy, PartialEq, Eq, Structural)]
pub struct Host {
    /// How often one name may repeat before identity stops meaning anything in a
    /// file.
    pub max_duplicates: usize,
    /// The line-level merge this run may use, if the caller granted one.
    pub line_merge: Option<LineMerge>,
}

impl Default for Host {
    /// Grants nothing: a merge run against this host is a function of its inputs.
    fn default() -> (r: Self)
        ensures
            r.line_merge is None,
            r.max_duplicates == 10,
    {
        Host { max_duplicates: 10, line_merge: None }
    }
}

/// How a run of `git merge-file` ended: whether it was clean, and what it printed,
/// as text where it was valid and with the invalid parts replaced.
#[derive(Debug, Clone)]
pub struct MergeFileRun {
    pub success: bool,
    pub stdout: Option<String>,
    pub stdout_lossy: String,
}

/// The arguments of `git merge-file`, in front of the three files.
pub open spec fn merge_file_query(style: LineMergeStyle) -> Seq<Seq<char>> {
    match style {
        LineMergeStyle::Plain => seq!["merge-file"@, "-p"@],
        LineMergeStyle::Labelled => seq![
            "merge-file"@, "-p"@, "--diff3"@, "-L"@, "ours"@, "-L"@, "base"@, "-L"@, "theirs"@,
        ],
    }
}

/// The arguments of `git merge-file`, in front of ours, base and theirs.
pub fn merge_file_args(style: LineMergeStyle) -> (r: Vec<String>)
    ensures
        strs(r@) == merge_file_query(style),
{
    let mut out: Vec<String> = Vec::new();
    out.push("merge-file".to_owned());
    out.push("-p".to_owned());
    match style {
        LineMergeStyle::Plain => {},
        LineMergeStyle::Labelled => {
            out.push("--diff3".to_owned());
            out.push("-L".to_owned());
            out.push("ours".to_owned());
            out.push("-L".to_owned());
            out.push("base".to_owned());
            out.push("-L".to_owned());
            out.push("theirs".to_owned());
        },
    }
    proof {
        assert(strs(out@) =~= merge_file_query(style));
    }
    out
}

/// The answer of `git merge-file`, read off its run. The plain style has no answer
/// for a conflict, nor for what is not text.
pub fn git_line_merge(style: LineMergeStyle, run: &MergeFileRun) -> (r: Option<LineMerged>)
    ensures
        match style {
            LineMergeStyle::Plain => {
                &&& r is Some <==> run.success && run.stdout is Some
                &&& r matches Some(m) ==> m.clean && m.content@ == run.stdout->0@
            },
            LineMergeStyle::Labelled => r matches Some(m) && m.clean == run.success && m.content@
                == run.stdout_lossy@,
        },
{
    match style {
        LineMergeStyle::Plain => {
            if !run.success {
                return None;
            }
            match &run.stdout {
                Some(s) => Some(LineMerged { content: s.clone(), clean: true }),
                None => None,
            }
        },
        LineMergeStyle::Labelled => Some(
            LineMerged { content: run.stdout_lossy.clone(), clean: run.success },
        ),
    }
}

} // verus!
