//! The queries that are asked of `git`, and the ways one can fail.
//!
//! A query is a list of arguments, and its answer is read off the outcome of the
//! run: what was printed, and how it ended. The run itself belongs to the caller.

use vstd::prelude::*;
use crate::text::{
    add_sorted, chars_of, join, join_strings, lines, push_sorted, push_text, split_lines,
    string_of, strs, texts, texts_have, trim, trimmed,
};
use crate::v2::render::fed;

verus! {

broadcast use vstd::string::group_string_axioms;

/// Why a query did not produce an answer.
#[derive(Debug, Clone, PartialEq, Eq)]
pub enum GitError {
    /// `git` itself could not be started.
    NotRunnable { argv: String, source: String },
    /// The directory is not inside a repository.
    NotARepository { dir: String },
    /// Two refs with no common ancestor.
    NoMergeBase { head: String, branch: String },
    /// `git` ran and declined.
    Refused { argv: String, status: i32, stderr: String },
    /// A file operation on top of git's answer failed.
    Io { path: String, source: String },
}

/// A [`GitError`] with its strings read as texts.
pub enum GitErrorView {
    NotRunnable { argv: Seq<char>, source: Seq<char> },
    NotARepository { dir: Seq<char> },
    NoMergeBase { head: Seq<char>, branch: Seq<char> },
    Refused { argv: Seq<char>, status: i32, stderr: Seq<char> },
    Io { path: Seq<char>, source: Seq<char> },
}

impl View for GitError {
    type V = GitErrorView;

    open spec fn view(&self) -> GitErrorView {
        match *self {
            GitError::NotRunnable { argv, source } => GitErrorView::NotRunnable {
                argv: argv@,
                source: source@,
            },
            GitError::NotARepository { dir } => GitErrorView::NotARepository { dir: dir@ },
            GitError::NoMergeBase { head, branch } => GitErrorView::NoMergeBase {
                head: head@,
                branch: branch@,
            },
            GitError::Refused { argv, status, stderr } => GitErrorView::Refused {
                argv: argv@,
                status,
                stderr: stderr@,
            },
            GitError::Io { path, source } => GitErrorView::Io { path: path@, source: source@ },
        }
    }
}

impl GitErrorView {
    /// The error in words.
    pub open spec fn phrase(self) -> Seq<char> {
        match self {
            GitErrorView::NotRunnable { argv, source } => "could not run `git "@ + argv + "`: "@
                + source,
            GitErrorView::NotARepository { dir } => "not inside a git repository: "@ + dir,
            GitErrorView::NoMergeBase { head, branch } => "no merge base between '"@ + head
                + "' and '"@ + branch + "'"@,
            GitErrorView::Refused { argv, status, stderr } => "`git "@ + argv + "` exited with "@
                + signed(status as int) + ": "@ + stderr,
            GitErrorView::Io { path, source } => "could not update "@ + path + ": "@ + source,
        }
    }
}

/// A whole number in decimal digits.
pub open spec fn signed(n: int) -> Seq<char> {
    if n < 0 {
        "-"@ + crate::text::decimal((-n) as nat)
    } else {
        crate::text::decimal(n as nat)
    }
}

fn push_signed(out: &mut Vec<char>, n: i32)
    ensures
        final(out)@ == old(out)@ + signed(n as int),
{
    let ghost held = out@;
    if n < 0 {
        push_text(out, "-");
        let m: usize = (-(n as i64)) as usize;
        crate::text::push_number(out, m);
        proof {
            assert(out@ =~= held + signed(n as int));
        }
    } else {
        crate::text::push_number(out, n as usize);
    }
}

impl GitError {
    /// The error in words.
    pub fn to_text(&self) -> (r: String)
        ensures
            r@ == self@.phrase(),
    {
        let mut out: Vec<char> = Vec::new();
        match self {
            GitError::NotRunnable { argv, source } => {
                push_text(&mut out, "could not run `git ");
                push_text(&mut out, argv.as_str());
                push_text(&mut out, "`: ");
                push_text(&mut out, source.as_str());
            },
            GitError::NotARepository { dir } => {
                push_text(&mut out, "not inside a git repository: ");
                push_text(&mut out, dir.as_str());
            },
            GitError::NoMergeBase { head, branch } => {
                push_text(&mut out, "no merge base between '");
                push_text(&mut out, head.as_str());
                push_text(&mut out, "' and '");
                push_text(&mut out, branch.as_str());
                push_text(&mut out, "'");
            },
            GitError::Refused { argv, status, stderr } => {
                push_text(&mut out, "`git ");
                push_text(&mut out, argv.as_str());
                push_text(&mut out, "` exited with ");
                push_signed(&mut out, *status);
                push_text(&mut out, ": ");
                push_text(&mut out, stderr.as_str());
            },
            GitError::Io { path, source } => {
                push_text(&mut out, "could not update ");
                push_text(&mut out, path.as_str());
                push_text(&mut out, ": ");
                push_text(&mut out, source.as_str());
            },
        }
        proof {
            assert(out@ =~= self@.phrase());
        }
        string_of(out.as_slice())
    }
}

/// How a run of `git` ended: what it printed, or why it could not be started.
#[derive(Debug, Clone)]
pub enum Run {
    Ended { success: bool, code: Option<i32>, stdout: String, stderr: String },
    NotStarted { source: String },
}

/// A [`Run`] with its strings read as texts.
pub enum RunView {
    Ended { success: bool, code: Option<i32>, stdout: Seq<char>, stderr: Seq<char> },
    NotStarted { source: Seq<char> },
}

impl View for Run {
    type V = RunView;

    open spec fn view(&self) -> RunView {
        match *self {
            Run::Ended { success, code, stdout, stderr } => RunView::Ended {
                success,
                code,
                stdout: stdout@,
                stderr: stderr@,
            },
            Run::NotStarted { source } => RunView::NotStarted { source: source@ },
        }
    }
}

/// The view of an answer that is one text.
pub open spec fn text_answer(r: Result<String, GitError>) -> Result<Seq<char>, GitErrorView> {
    match r {
        Ok(s) => Ok(s@),
        Err(e) => Err(e@),
    }
}

/// The view of an answer that is a list of texts.
pub open spec fn list_answer(r: Result<Vec<String>, GitError>) -> Result<
    Seq<Seq<char>>,
    GitErrorView,
> {
    match r {
        Ok(v) => Ok(strs(v@)),
        Err(e) => Err(e@),
    }
}

/// The view of an answer that may be a text.
pub open spec fn optional_answer(r: Result<Option<String>, GitError>) -> Result<
    Option<Seq<char>>,
    GitErrorView,
> {
    match r {
        Ok(Some(s)) => Ok(Some(s@)),
        Ok(None) => Ok(None),
        Err(e) => Err(e@),
    }
}

/// The error of a run in a directory that could not be started.
pub open spec fn unstarted(dir: Seq<char>, args: Seq<Seq<char>>, source: Seq<char>) -> GitErrorView {
    GitErrorView::NotRunnable { argv: "-C "@ + dir + " "@ + join(args, " "@), source }
}

fn not_runnable(dir: &str, args: &Vec<String>, source: &str) -> (r: GitError)
    ensures
        r@ == unstarted(dir@, strs(args@), source@),
{
    let mut argv: Vec<char> = Vec::new();
    push_text(&mut argv, "-C ");
    push_text(&mut argv, dir);
    push_text(&mut argv, " ");
    push_text(&mut argv, join_strings(args, " ").as_str());
    proof {
        assert(argv@ =~= "-C "@ + dir@ + " "@ + join(strs(args@), " "@));
    }
    GitError::NotRunnable { argv: string_of(argv.as_slice()), source: source.to_owned() }
}

/// The error of a run that declined.
pub open spec fn declined(args: Seq<Seq<char>>, code: Option<i32>, stderr: Seq<char>) -> GitErrorView {
    GitErrorView::Refused {
        argv: join(args, " "@),
        status: match code {
            Some(c) => c,
            None => -1i32,
        },
        stderr: trim(stderr),
    }
}

fn refusal(args: &Vec<String>, code: Option<i32>, stderr: &str) -> (r: GitError)
    ensures
        r@ == declined(strs(args@), code, stderr@),
{
    let status: i32 = match code {
        Some(c) => c,
        None => -1,
    };
    let c = chars_of(stderr);
    GitError::Refused {
        argv: join_strings(args, " "),
        status,
        stderr: string_of(trimmed(c.as_slice())),
    }
}

fn trimmed_string(s: &str) -> (r: String)
    ensures
        r@ == trim(s@),
{
    let c = chars_of(s);
    string_of(trimmed(c.as_slice()))
}

fn strings(v: &Vec<&str>) -> (r: Vec<String>)
    ensures
        strs(r@) == v@.map_values(|s: &str| s@),
{
    let mut out: Vec<String> = Vec::new();
    let mut k: usize = 0;
    while k < v.len()
        invariant
            k <= v@.len(),
            out@.len() == k,
            forall|m: int| 0 <= m < k ==> (#[trigger] out@[m])@ == v@[m]@,
        decreases v@.len() - k,
    {
        out.push(v[k].to_owned());
        k = k + 1;
    }
    proof {
        assert(strs(out@) =~= v@.map_values(|s: &str| s@));
    }
    out
}

// ---------------------------------------------------------------------------
// The root of a repository
// ---------------------------------------------------------------------------

/// The query for the root of a repository.
pub open spec fn root_query() -> Seq<Seq<char>> {
    seq!["rev-parse"@, "--show-toplevel"@]
}

/// The arguments that ask for the root of a repository.
pub fn repo_root_args() -> (r: Vec<String>)
    ensures
        strs(r@) == root_query(),
{
    let v: Vec<&str> = vec!["rev-parse", "--show-toplevel"];
    proof {
        assert(v@.map_values(|s: &str| s@) =~= root_query());
    }
    strings(&v)
}

/// The root of the repository that contains a directory, read off the run that was
/// asked for it there.
pub open spec fn root_answer(dir: Seq<char>, run: RunView) -> Result<Seq<char>, GitErrorView> {
    match run {
        RunView::NotStarted { source } => Err(unstarted(dir, root_query(), source)),
        RunView::Ended { success, code, stdout, stderr } => if success {
            Ok(trim(stdout))
        } else {
            Err(GitErrorView::NotARepository { dir })
        },
    }
}

/// Find the root of the repository that contains `dir`.
pub fn find_repo_root(dir: &str, run: &Run) -> (r: Result<String, GitError>)
    ensures
        text_answer(r) == root_answer(dir@, run@),
{
    match run {
        Run::NotStarted { source } => Err(not_runnable(dir, &repo_root_args(), source.as_str())),
        Run::Ended { success, stdout, .. } => {
            if *success {
                Ok(trimmed_string(stdout.as_str()))
            } else {
                Err(GitError::NotARepository { dir: dir.to_owned() })
            }
        },
    }
}

/// The directory to discover a repository from: the path itself where it is a
/// directory, else its parent, and the working directory where that is empty.
pub open spec fn discovery_dir(path: Seq<char>, is_dir: bool, parent: Option<Seq<char>>) -> Seq<char> {
    if is_dir {
        path
    } else {
        match parent {
            Some(p) => if p.len() == 0 {
                "."@
            } else {
                p
            },
            None => "."@,
        }
    }
}

/// The directory to ask, for the repository that contains a path.
pub fn start_dir(path: &str, is_dir: bool, parent: Option<&str>) -> (r: String)
    ensures
        r@ == discovery_dir(path@, is_dir, crate::conflict::opt_str(parent)),
{
    if is_dir {
        return path.to_owned();
    }
    match parent {
        Some(p) => {
            if chars_of(p).len() == 0 {
                ".".to_owned()
            } else {
                p.to_owned()
            }
        },
        None => ".".to_owned(),
    }
}

/// Find the root of the repository that contains the path. `run` is the run of
/// [`repo_root_args`] in [`start_dir`].
pub fn find_repo_root_from_path(path: &str, is_dir: bool, parent: Option<&str>, run: &Run) -> (r:
    Result<String, GitError>)
    ensures
        text_answer(r) == root_answer(
            discovery_dir(path@, is_dir, crate::conflict::opt_str(parent)),
            run@,
        ),
{
    let dir = start_dir(path, is_dir, parent);
    find_repo_root(dir.as_str(), run)
}

// ---------------------------------------------------------------------------
// Merge bases and contents
// ---------------------------------------------------------------------------

/// The query for a merge base.
pub open spec fn merge_base_query(head: Seq<char>, branch: Seq<char>) -> Seq<Seq<char>> {
    seq!["merge-base"@, head, branch]
}

/// The arguments that ask for a merge base.
pub fn merge_base_args(head: &str, branch: &str) -> (r: Vec<String>)
    ensures
        strs(r@) == merge_base_query(head@, branch@),
{
    let v: Vec<&str> = vec!["merge-base", head, branch];
    proof {
        assert(v@.map_values(|s: &str| s@) =~= merge_base_query(head@, branch@));
    }
    strings(&v)
}

/// The merge base of two refs, read off the run.
pub open spec fn merge_base_answer(
    repo_root: Seq<char>,
    head: Seq<char>,
    branch: Seq<char>,
    run: RunView,
) -> Result<Seq<char>, GitErrorView> {
    match run {
        RunView::NotStarted { source } => Err(
            unstarted(repo_root, merge_base_query(head, branch), source),
        ),
        RunView::Ended { success, code, stdout, stderr } => if success {
            Ok(trim(stdout))
        } else {
            Err(GitErrorView::NoMergeBase { head, branch })
        },
    }
}

/// Find the merge base of two refs, in the named repository.
pub fn find_merge_base(repo_root: &str, head: &str, branch: &str, run: &Run) -> (r: Result<
    String,
    GitError,
>)
    ensures
        text_answer(r) == merge_base_answer(repo_root@, head@, branch@, run@),
{
    match run {
        Run::NotStarted { source } => Err(
            not_runnable(repo_root, &merge_base_args(head, branch), source.as_str()),
        ),
        Run::Ended { success, stdout, .. } => {
            if *success {
                Ok(trimmed_string(stdout.as_str()))
            } else {
                Err(GitError::NoMergeBase { head: head.to_owned(), branch: branch.to_owned() })
            }
        },
    }
}

/// The query for the content of a file at a revision.
pub open spec fn show_query(rev: Seq<char>, file: Seq<char>) -> Seq<Seq<char>> {
    seq!["show"@, rev + ":"@ + file]
}

/// The arguments that ask for the content of a file at a revision.
pub fn show_args(rev: &str, file: &str) -> (r: Vec<String>)
    ensures
        strs(r@) == show_query(rev@, file@),
{
    let mut spec_text: Vec<char> = Vec::new();
    push_text(&mut spec_text, rev);
    push_text(&mut spec_text, ":");
    push_text(&mut spec_text, file);
    let mut out: Vec<String> = Vec::new();
    out.push("show".to_owned());
    out.push(string_of(spec_text.as_slice()));
    proof {
        assert(strs(out@) =~= show_query(rev@, file@));
    }
    out
}

/// The content of a file at a revision, read off the run.
pub open spec fn show_answer(
    repo_root: Seq<char>,
    rev: Seq<char>,
    file: Seq<char>,
    run: RunView,
) -> Result<Seq<char>, GitErrorView> {
    match run {
        RunView::NotStarted { source } => Err(unstarted(repo_root, show_query(rev, file), source)),
        RunView::Ended { success, code, stdout, stderr } => if success {
            Ok(stdout)
        } else {
            Err(declined(show_query(rev, file), code, stderr))
        },
    }
}

/// Show the content of a file at a revision, in the named repository.
pub fn git_show(repo_root: &str, rev: &str, file: &str, run: &Run) -> (r: Result<String, GitError>)
    ensures
        text_answer(r) == show_answer(repo_root@, rev@, file@, run@),
{
    match run {
        Run::NotStarted { source } => Err(
            not_runnable(repo_root, &show_args(rev, file), source.as_str()),
        ),
        Run::Ended { success, code, stdout, stderr } => {
            if *success {
                Ok(stdout.clone())
            } else {
                Err(refusal(&show_args(rev, file), *code, stderr.as_str()))
            }
        },
    }
}

/// The query for the entry of a file in the tree of a revision.
pub open spec fn tree_query(rev: Seq<char>, file: Seq<char>) -> Seq<Seq<char>> {
    seq!["ls-tree"@, rev, "--"@, file]
}

/// The arguments that ask for the entry of a file in the tree of a revision.
pub fn tree_args(rev: &str, file: &str) -> (r: Vec<String>)
    ensures
        strs(r@) == tree_query(rev@, file@),
{
    let v: Vec<&str> = vec!["ls-tree", rev, "--", file];
    proof {
        assert(v@.map_values(|s: &str| s@) =~= tree_query(rev@, file@));
    }
    strings(&v)
}

/// The content of a file at a revision, where the tree has it: a revision that
/// cannot be resolved, and a file that is there and cannot be shown, are errors.
pub open spec fn show_optional_answer(
    repo_root: Seq<char>,
    rev: Seq<char>,
    file: Seq<char>,
    tree: RunView,
    show: RunView,
) -> Result<Option<Seq<char>>, GitErrorView> {
    match tree {
        RunView::NotStarted { source } => Err(unstarted(repo_root, tree_query(rev, file), source)),
        RunView::Ended { success, code, stdout, stderr } => if !success {
            Err(declined(tree_query(rev, file), code, stderr))
        } else if trim(stdout).len() == 0 {
            Ok(None)
        } else {
            match show_answer(repo_root, rev, file, show) {
                Ok(s) => Ok(Some(s)),
                Err(e) => Err(e),
            }
        },
    }
}

/// Does the run on the tree say that the file is there, so that its content has to
/// be asked for?
pub fn is_listed(tree: &Run) -> (r: bool)
    ensures
        r == (tree@ matches RunView::Ended { success, code, stdout, stderr } && success && trim(
            stdout,
        ).len() > 0),
{
    match tree {
        Run::NotStarted { .. } => false,
        Run::Ended { success, stdout, .. } => {
            let c = chars_of(stdout.as_str());
            *success && trimmed(c.as_slice()).len() > 0
        },
    }
}

/// Show the content of a file at a revision, telling one that is absent apart from
/// one that `git` could not give. `tree` is the run of [`tree_args`], and `show` that
/// of [`show_args`], which is only looked at where the file is listed.
pub fn git_show_optional(repo_root: &str, rev: &str, file: &str, tree: &Run, show: &Run) -> (r: Result<
    Option<String>,
    GitError,
>)
    ensures
        optional_answer(r) == show_optional_answer(repo_root@, rev@, file@, tree@, show@),
{
    match tree {
        Run::NotStarted { source } => Err(
            not_runnable(repo_root, &tree_args(rev, file), source.as_str()),
        ),
        Run::Ended { success, code, stderr, .. } => {
            if !*success {
                return Err(refusal(&tree_args(rev, file), *code, stderr.as_str()));
            }
            if !is_listed(tree) {
                return Ok(None);
            }
            match git_show(repo_root, rev, file, show) {
                Ok(s) => Ok(Some(s)),
                Err(e) => Err(e),
            }
        },
    }
}

// ---------------------------------------------------------------------------
// Changed files
// ---------------------------------------------------------------------------

/// The query for the files that changed between two refs.
pub open spec fn diff_query(from: Seq<char>, to: Seq<char>) -> Seq<Seq<char>> {
    seq!["diff"@, "--name-only"@, from, to]
}

/// The arguments that ask for the files that changed between two refs.
pub fn diff_args(from: &str, to: &str) -> (r: Vec<String>)
    ensures
        strs(r@) == diff_query(from@, to@),
{
    let v: Vec<&str> = vec!["diff", "--name-only", from, to];
    proof {
        assert(v@.map_values(|s: &str| s@) =~= diff_query(from@, to@));
    }
    strings(&v)
}

/// Those of the first `k` lines that the other list has too, in the order of texts
/// and each once.
pub open spec fn shared_lines(a: Seq<Seq<char>>, b: Seq<Seq<char>>, k: int) -> Seq<Seq<char>>
    decreases k,
{
    if k <= 0 {
        Seq::empty()
    } else if b.contains(a[k - 1]) {
        add_sorted(shared_lines(a, b, k - 1), a[k - 1])
    } else {
        shared_lines(a, b, k - 1)
    }
}

/// The files that both branches changed since their merge base, read off two runs.
pub open spec fn changed_answer(
    repo_root: Seq<char>,
    merge_base: Seq<char>,
    head: Seq<char>,
    branch: Seq<char>,
    ours: RunView,
    theirs: RunView,
) -> Result<Seq<Seq<char>>, GitErrorView> {
    match ours {
        RunView::NotStarted { source } => Err(
            unstarted(repo_root, diff_query(merge_base, head), source),
        ),
        RunView::Ended { success: os, code: oc, stdout: oo, stderr: oe } => if !os {
            Err(declined(diff_query(merge_base, head), oc, oe))
        } else {
            match theirs {
                RunView::NotStarted { source } => Err(
                    unstarted(repo_root, diff_query(merge_base, branch), source),
                ),
                RunView::Ended { success: ts, code: tc, stdout: to, stderr: te } => if !ts {
                    Err(declined(diff_query(merge_base, branch), tc, te))
                } else {
                    Ok(shared_lines(lines(oo), lines(to), lines(oo).len() as int))
                },
            }
        },
    }
}

/// The files that changed between two refs, read off the run.
pub open spec fn names_answer(
    repo_root: Seq<char>,
    from: Seq<char>,
    to: Seq<char>,
    run: RunView,
) -> Result<Seq<char>, GitErrorView> {
    match run {
        RunView::NotStarted { source } => Err(unstarted(repo_root, diff_query(from, to), source)),
        RunView::Ended { success, code, stdout, stderr } => if success {
            Ok(stdout)
        } else {
            Err(declined(diff_query(from, to), code, stderr))
        },
    }
}

fn names_printed<'a>(repo_root: &str, from: &str, to: &str, run: &'a Run) -> (r: Result<
    &'a str,
    GitError,
>)
    ensures
        match r {
            Ok(s) => names_answer(repo_root@, from@, to@, run@) == Ok::<Seq<char>, GitErrorView>(s@),
            Err(e) => names_answer(repo_root@, from@, to@, run@) == Err::<
                Seq<char>,
                GitErrorView,
            >(e@),
        },
{
    match run {
        Run::NotStarted { source } => Err(
            not_runnable(repo_root, &diff_args(from, to), source.as_str()),
        ),
        Run::Ended { success, code, stdout, stderr } => {
            if *success {
                Ok(stdout.as_str())
            } else {
                Err(refusal(&diff_args(from, to), *code, stderr.as_str()))
            }
        },
    }
}

/// The files that both branches changed relative to their merge base, sorted.
pub fn get_changed_files(
    repo_root: &str,
    merge_base: &str,
    head: &str,
    branch: &str,
    ours: &Run,
    theirs: &Run,
) -> (r: Result<Vec<String>, GitError>)
    ensures
        list_answer(r) == changed_answer(
            repo_root@,
            merge_base@,
            head@,
            branch@,
            ours@,
            theirs@,
        ),
{
    let ours_text = match names_printed(repo_root, merge_base, head, ours) {
        Ok(s) => s,
        Err(e) => {
            return Err(e);
        },
    };
    let theirs_text = match names_printed(repo_root, merge_base, branch, theirs) {
        Ok(s) => s,
        Err(e) => {
            return Err(e);
        },
    };
    let a = split_lines(chars_of(ours_text).as_slice());
    let b = split_lines(chars_of(theirs_text).as_slice());
    let ghost av = lines(ours_text@);
    let ghost bv = lines(theirs_text@);
    let mut out: Vec<String> = Vec::new();
    let mut k: usize = 0;
    proof {
        assert(texts(a@).len() == a@.len());
        assert(strs(out@) =~= Seq::empty());
    }
    while k < a.len()
        invariant
            k <= a@.len() == av.len(),
            texts(a@) == av,
            texts(b@) == bv,
            strs(out@) == shared_lines(av, bv, k as int),
        decreases a@.len() - k,
    {
        proof {
            assert(av[k as int] == a@[k as int]@);
        }
        if texts_have(&b, a[k].as_slice()) {
            let s = string_of(a[k].as_slice());
            push_sorted(&mut out, s.as_str());
        }
        k = k + 1;
    }
    Ok(out)
}

/// Those of the first `k` lines that are not empty.
pub open spec fn filled_lines(ls: Seq<Seq<char>>, k: int) -> Seq<Seq<char>>
    decreases k,
{
    if k <= 0 {
        Seq::empty()
    } else if ls[k - 1].len() == 0 {
        filled_lines(ls, k - 1)
    } else {
        filled_lines(ls, k - 1).push(ls[k - 1])
    }
}

/// The files that changed between two refs, in the order they were printed.
pub fn diff_files(repo_root: &str, base_ref: &str, target_ref: &str, run: &Run) -> (r: Result<
    Vec<String>,
    GitError,
>)
    ensures
        list_answer(r) == match names_answer(repo_root@, base_ref@, target_ref@, run@) {
            Ok(s) => Ok::<Seq<Seq<char>>, GitErrorView>(
                filled_lines(lines(s), lines(s).len() as int),
            ),
            Err(e) => Err::<Seq<Seq<char>>, GitErrorView>(e),
        },
{
    let text = match names_printed(repo_root, base_ref, target_ref, run) {
        Ok(s) => s,
        Err(e) => {
            return Err(e);
        },
    };
    let ls = split_lines(chars_of(text).as_slice());
    let ghost all = lines(text@);
    let mut out: Vec<String> = Vec::new();
    let mut k: usize = 0;
    proof {
        assert(texts(ls@).len() == ls@.len());
        assert(strs(out@) =~= Seq::empty());
    }
    while k < ls.len()
        invariant
            k <= ls@.len() == all.len(),
            texts(ls@) == all,
            strs(out@) == filled_lines(all, k as int),
        decreases ls@.len() - k,
    {
        proof {
            assert(all[k as int] == ls@[k as int]@);
        }
        if ls[k].len() > 0 {
            let ghost held = strs(out@);
            out.push(string_of(ls[k].as_slice()));
            proof {
                assert(strs(out@) =~= held.push(all[k as int]));
            }
        }
        k = k + 1;
    }
    Ok(out)
}

// ---------------------------------------------------------------------------
// The local exclude file
// ---------------------------------------------------------------------------

/// The query for the path of the local exclude file.
pub open spec fn exclude_query() -> Seq<Seq<char>> {
    seq!["rev-parse"@, "--git-path"@, "info/exclude"@]
}

/// The arguments that ask for the path of the local exclude file.
pub fn exclude_args() -> (r: Vec<String>)
    ensures
        strs(r@) == exclude_query(),
{
    let v: Vec<&str> = vec!["rev-parse", "--git-path", "info/exclude"];
    proof {
        assert(v@.map_values(|s: &str| s@) =~= exclude_query());
    }
    strings(&v)
}

/// The path of the exclude file, where there is a repository to protect: outside of
/// one, and where `git` cannot be run at all, there is nothing to do.
pub open spec fn exclude_path_of(run: RunView) -> Option<Seq<char>> {
    match run {
        RunView::NotStarted { source } => None,
        RunView::Ended { success, code, stdout, stderr } => if success && trim(stdout).len() > 0 {
            Some(trim(stdout))
        } else {
            None
        },
    }
}

/// The path of the exclude file that the run printed, where there is one.
pub fn exclude_path(run: &Run) -> (r: Option<String>)
    ensures
        crate::v2::types::opt_view(r) == exclude_path_of(run@),
{
    match run {
        Run::NotStarted { .. } => None,
        Run::Ended { success, stdout, .. } => {
            let t = trimmed_string(stdout.as_str());
            if *success && chars_of(t.as_str()).len() > 0 {
                Some(t)
            } else {
                None
            }
        },
    }
}

/// Is the entry listed already?
pub open spec fn is_excluded(existing: Seq<char>, entry: Seq<char>) -> bool {
    exists|k: int| 0 <= k < lines(existing).len() && trim(#[trigger] lines(existing)[k]) == entry
}

/// The exclude file with the entry on a line of its own behind what it holds.
pub open spec fn with_entry(existing: Seq<char>, entry: Seq<char>) -> Seq<char> {
    fed(existing) + entry + "\n"@
}

/// What the exclude file has to be written as for the entry to be listed, or `None`
/// where it is listed already.
pub fn ensure_locally_excluded(existing: &str, entry: &str) -> (r: Option<String>)
    ensures
        match r {
            Some(s) => !is_excluded(existing@, entry@) && s@ == with_entry(existing@, entry@),
            None => is_excluded(existing@, entry@),
        },
{
    let c = chars_of(existing);
    let ls = split_lines(c.as_slice());
    let e = chars_of(entry);
    let ghost all = lines(existing@);
    proof {
        assert(texts(ls@).len() == ls@.len());
    }
    let mut k: usize = 0;
    while k < ls.len()
        invariant
            k <= ls@.len() == all.len(),
            texts(ls@) == all,
            all == lines(existing@),
            e@ == entry@,
            forall|m: int| 0 <= m < k ==> trim(#[trigger] all[m]) != entry@,
        decreases ls@.len() - k,
    {
        proof {
            assert(all[k as int] == ls@[k as int]@);
        }
        if crate::text::same(trimmed(ls[k].as_slice()), e.as_slice()) {
            proof {
                assert(trim(all[k as int]) == entry@);
            }
            return None;
        }
        k = k + 1;
    }
    let mut out = c;
    let n: usize = out.len();
    if n > 0 && out[n - 1] != '\n' {
        out.push('\n');
    }
    push_text(&mut out, entry);
    push_text(&mut out, "\n");
    Some(string_of(out.as_slice()))
}

/// Excluding is idempotent: once an entry has been added, it is listed, and nothing
/// is added again.
pub proof fn excluding_is_idempotent(existing: Seq<char>, entry: Seq<char>)
    requires
        trim(entry) == entry,
        crate::text::plain_line(entry),
    ensures
        is_excluded(with_entry(existing, entry), entry),
{
    reveal_strlit("\n");
    let a = fed(existing);
    let b = entry + "\n"@;
    assert(with_entry(existing, entry) =~= a + b);
    crate::text::lines_of_two(a, b);
    crate::text::lines_of_a_line_and_more(entry, Seq::empty());
    assert(b =~= entry + seq!['\n'] + Seq::<char>::empty());
    assert(lines(Seq::<char>::empty()) =~= Seq::empty());
    let all = lines(with_entry(existing, entry));
    assert(lines(b) =~= seq![entry]);
    assert(all[lines(a).len() as int] == entry);
    assert(trim(all[lines(a).len() as int]) == entry);
}

/// Excluding keeps every line that the file held, and adds one.
pub proof fn excluding_keeps_what_is_there(existing: Seq<char>, entry: Seq<char>)
    requires
        crate::text::plain_line(entry),
        existing.len() > 0 ==> existing.last() != '\r',
    ensures
        lines(with_entry(existing, entry)) == lines(existing).push(entry),
{
    reveal_strlit("\n");
    let a = fed(existing);
    let b = entry + "\n"@;
    assert(with_entry(existing, entry) =~= a + b);
    crate::text::lines_of_two(a, b);
    crate::text::lines_of_a_line_and_more(entry, Seq::empty());
    assert(b =~= entry + seq!['\n'] + Seq::<char>::empty());
    assert(lines(Seq::<char>::empty()) =~= Seq::empty());
    assert(lines(b) =~= seq![entry]);
    if existing.len() > 0 && existing.last() != '\n' {
        crate::text::a_closing_line_feed_adds_no_line(existing);
    }
    assert(lines(a) + seq![entry] =~= lines(existing).push(entry));
}


proof fn shared_lines_hold(a: Seq<Seq<char>>, b: Seq<Seq<char>>, k: int)
    requires
        0 <= k <= a.len(),
    ensures
        crate::text::strictly_sorted(shared_lines(a, b, k)),
        forall|x: Seq<char>| #[trigger]
            shared_lines(a, b, k).contains(x) <==> a.take(k).contains(x) && b.contains(x),
    decreases k,
{
    if k > 0 {
        shared_lines_hold(a, b, k - 1);
        crate::text::add_sorted_sorts(shared_lines(a, b, k - 1), a[k - 1]);
        let now = a.take(k);
        let was = a.take(k - 1);
        assert forall|x: Seq<char>| #[trigger] now.contains(x) <==> was.contains(x) || x == a[k
            - 1] by {
            if was.contains(x) {
                let i = choose|i: int| 0 <= i < was.len() && was[i] == x;
                assert(now[i] == x);
            }
            assert(now[k - 1] == a[k - 1]);
            if now.contains(x) && x != a[k - 1] {
                let i = choose|i: int| 0 <= i < now.len() && now[i] == x;
                assert(was[i] == x);
            }
        }
    }
}

/// The files that are reported as changed on both branches are those that both runs
/// list, in order and each once; and there is an answer exactly where both runs ended
/// well.
pub proof fn the_files_changed_are_those_both_list(
    repo_root: Seq<char>,
    merge_base: Seq<char>,
    head: Seq<char>,
    branch: Seq<char>,
    ours: RunView,
    theirs: RunView,
)
    ensures
        ({
            let r = changed_answer(repo_root, merge_base, head, branch, ours, theirs);
            let well = |run: RunView| run is Ended && run->success;
            &&& r is Ok <==> well(ours) && well(theirs)
            &&& r matches Ok(files) ==> crate::text::strictly_sorted(files) && forall|f: Seq<char>|
                #[trigger] files.contains(f) <==> lines(ours->stdout).contains(f) && lines(
                    theirs->stdout,
                ).contains(f)
        }),
{
    if ours is Ended && theirs is Ended {
        let a = lines(ours->stdout);
        let b = lines(theirs->stdout);
        shared_lines_hold(a, b, a.len() as int);
        assert(a.take(a.len() as int) =~= a);
    }
}


/// A file that is absent is told apart from one that could not be had. It is absent only
/// where the tree was listed and does not list it; it is there with what was shown; and
/// a run that was needed and failed is an error.
pub proof fn an_absent_file_is_told_from_a_failure(
    repo_root: Seq<char>,
    rev: Seq<char>,
    file: Seq<char>,
    tree: RunView,
    show: RunView,
)
    ensures
        ({
            let r = show_optional_answer(repo_root, rev, file, tree, show);
            let listing = tree is Ended && tree->success;
            let listed = listing && trim(tree->stdout).len() > 0;
            let shown = show is Ended && show->success;
            &&& r == Ok::<Option<Seq<char>>, GitErrorView>(None) <==> listing && !listed
            &&& r is Ok && r->Ok_0 is Some <==> listed && shown
            &&& r is Ok && r->Ok_0 is Some ==> r->Ok_0->0 == show->stdout
            &&& r is Err <==> !listing || (listed && !shown)
        }),
{
}

/// The files that changed are the lines that hold something, all of them, in the order
/// they were printed.
pub proof fn the_files_listed_are_the_filled_lines(ls: Seq<Seq<char>>, k: int)
    requires
        0 <= k <= ls.len(),
    ensures
        filled_lines(ls, k) == ls.take(k).filter(|l: Seq<char>| l.len() > 0),
    decreases k,
{
    reveal(Seq::filter);
    if k > 0 {
        the_files_listed_are_the_filled_lines(ls, k - 1);
        assert(ls.take(k).drop_last() =~= ls.take(k - 1));
        assert(ls.take(k).last() == ls[k - 1]);
    } else {
        assert(ls.take(0) =~= Seq::empty());
    }
}

} // verus!
