use weave_core::git::{
    diff_args, diff_files, ensure_locally_excluded, exclude_args, exclude_path, find_merge_base,
    find_repo_root, find_repo_root_from_path, get_changed_files, git_show, git_show_optional,
    is_listed, merge_base_args, repo_root_args, show_args, start_dir, tree_args, GitError, Run,
};

fn printed(stdout: &str) -> Run {
    Run::Ended {
        success: true,
        code: Some(0),
        stdout: stdout.to_string(),
        stderr: String::new(),
    }
}

fn declined(code: i32, stderr: &str) -> Run {
    Run::Ended {
        success: false,
        code: Some(code),
        stdout: String::new(),
        stderr: stderr.to_string(),
    }
}

fn missing() -> Run {
    Run::NotStarted {
        source: "No such file or directory".to_string(),
    }
}

#[test]
fn a_missing_repository_is_its_own_variant_not_a_message() {
    let outside = "/tmp";
    let run = declined(128, "fatal: not a git repository\n");
    match find_repo_root_from_path(outside, true, Some("/"), &run) {
        Err(GitError::NotARepository { dir }) => {
            assert!(dir.contains(outside));
        }
        other => panic!("expected NotARepository, got {other:?}"),
    }
}

#[test]
fn a_refusal_carries_gits_own_status_and_argv() {
    let run = declined(128, "fatal: invalid object name 'weave-no-such-rev'.\n");
    match git_show(".", "weave-no-such-rev", "no/such/file", &run) {
        Err(GitError::Refused {
            argv,
            status,
            stderr,
        }) => {
            assert!(argv.starts_with("show weave-no-such-rev:"));
            assert_ne!(status, 0);
            assert!(!stderr.is_empty());
        }
        other => panic!("expected Refused, got {other:?}"),
    }
    assert!(matches!(
        git_show(".", "weave-no-such-rev", "no/such/file", &missing()),
        Err(GitError::NotRunnable { .. })
    ));
}

#[test]
fn two_unrelated_refs_report_both_operands() {
    let run = declined(128, "fatal: Not a valid object name\n");
    match find_merge_base(".", "weave-no-such-ref-a", "weave-no-such-ref-b", &run) {
        Err(GitError::NoMergeBase { head, branch }) => {
            assert_eq!(head, "weave-no-such-ref-a");
            assert_eq!(branch, "weave-no-such-ref-b");
        }
        other => panic!("expected NoMergeBase, got {other:?}"),
    }
    assert!(matches!(
        find_merge_base(".", "a", "b", &missing()),
        Err(GitError::NotRunnable { .. })
    ));
}

#[test]
fn ensure_locally_excluded_writes_the_entry_to_info_exclude_not_gitignore() {
    let path = exclude_path(&printed(".git/info/exclude\n"));
    assert_eq!(path, Some(".git/info/exclude".to_string()));
    assert_eq!(
        exclude_args(),
        vec!["rev-parse", "--git-path", "info/exclude"]
    );
    let exclude = ensure_locally_excluded("", ".weave/").expect("something to write");
    assert!(exclude.lines().any(|l| l == ".weave/"));
}

#[test]
fn ensure_locally_excluded_is_idempotent() {
    let first = ensure_locally_excluded("", ".weave/").expect("first call");
    assert_eq!(ensure_locally_excluded(&first, ".weave/"), None);
    let hits = first.lines().filter(|l| *l == ".weave/").count();
    assert_eq!(hits, 1, "repeated calls must not duplicate the entry");
}

#[test]
fn ensure_locally_excluded_preserves_an_existing_exclude_file() {
    let exclude = ensure_locally_excluded("*.local-scratch\n", ".weave/").expect("an update");
    assert!(exclude.lines().any(|l| l == "*.local-scratch"));
    assert!(exclude.lines().any(|l| l == ".weave/"));
    assert_eq!(
        ensure_locally_excluded("*.log", ".weave/"),
        Some("*.log\n.weave/\n".to_string())
    );
}

#[test]
fn ensure_locally_excluded_is_a_silent_no_op_outside_a_repository() {
    assert_eq!(
        exclude_path(&declined(128, "fatal: not a git repository\n")),
        None,
        "must not fail just because there's no repo"
    );
    assert_eq!(exclude_path(&missing()), None);
    assert_eq!(exclude_path(&printed("\n")), None);
}

#[test]
fn a_repository_root_is_what_git_prints_trimmed() {
    assert_eq!(repo_root_args(), vec!["rev-parse", "--show-toplevel"]);
    assert_eq!(
        find_repo_root("/w/sub", &printed("/w\n")),
        Ok("/w".to_string())
    );
    assert_eq!(
        find_repo_root("/x", &declined(128, "no")),
        Err(GitError::NotARepository {
            dir: "/x".to_string()
        })
    );
    assert_eq!(start_dir("/w/a.rs", false, Some("/w")), "/w");
    assert_eq!(start_dir("/w", true, Some("/")), "/w");
    assert_eq!(start_dir("a.rs", false, Some("")), ".");
    assert_eq!(start_dir("/", false, None), ".");
}

#[test]
fn a_merge_base_is_what_git_prints_trimmed() {
    assert_eq!(merge_base_args("h", "b"), vec!["merge-base", "h", "b"]);
    assert_eq!(
        find_merge_base("/w", "h", "b", &printed("abc123\n")),
        Ok("abc123".to_string())
    );
}

#[test]
fn a_file_is_shown_as_it_is() {
    assert_eq!(show_args("HEAD", "a.rs"), vec!["show", "HEAD:a.rs"]);
    assert_eq!(
        git_show("/w", "HEAD", "a.rs", &printed("  x\n\n")),
        Ok("  x\n\n".to_string())
    );
}

#[test]
fn a_file_that_the_tree_does_not_list_is_absent() {
    assert_eq!(tree_args("r", "f"), vec!["ls-tree", "r", "--", "f"]);
    assert!(!is_listed(&printed("")));
    assert_eq!(
        git_show_optional("/w", "r", "f", &printed(""), &printed("x")),
        Ok(None)
    );
    assert_eq!(
        git_show_optional("/w", "r", "f", &printed("100644 blob 1\tf\n"), &printed("x")),
        Ok(Some("x".to_string()))
    );
    assert!(matches!(
        git_show_optional("/w", "r", "f", &declined(1, "bad"), &printed("x")),
        Err(GitError::Refused { status: 1, .. })
    ));
}

#[test]
fn the_files_both_sides_changed_are_the_shared_ones() {
    assert_eq!(
        diff_args("a", "b"),
        vec!["diff", "--name-only", "a", "b"]
    );
    assert_eq!(
        diff_files("/w", "a", "b", &printed("x\ny\n")),
        Ok(vec!["x".to_string(), "y".to_string()])
    );
    assert_eq!(
        get_changed_files("/w", "m", "h", "b", &printed("c\na\nb\n"), &printed("b\nd\nc\n")),
        Ok(vec!["b".to_string(), "c".to_string()])
    );
}

#[test]
fn each_error_says_what_went_wrong() {
    let cases = [
        (
            GitError::NotRunnable {
                argv: "show x".to_string(),
                source: "no git".to_string(),
            },
            "could not run `git show x`: no git",
        ),
        (
            GitError::NotARepository {
                dir: "/x".to_string(),
            },
            "not inside a git repository: /x",
        ),
        (
            GitError::NoMergeBase {
                head: "h".to_string(),
                branch: "b".to_string(),
            },
            "no merge base between 'h' and 'b'",
        ),
        (
            GitError::Refused {
                argv: "show x".to_string(),
                status: -1,
                stderr: "fatal".to_string(),
            },
            "`git show x` exited with -1: fatal",
        ),
        (
            GitError::Io {
                path: "p".to_string(),
                source: "full".to_string(),
            },
            "could not update p: full",
        ),
    ];
    for (error, text) in cases {
        assert_eq!(error.to_text(), text);
    }
}
