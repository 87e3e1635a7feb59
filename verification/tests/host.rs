use weave_core::host::{git_line_merge, merge_file_args, Host, LineMergeStyle, MergeFileRun};

#[test]
fn the_default_host_grants_nothing() {
    let host = Host::default();
    assert!(host.line_merge.is_none());
    assert_eq!(host.max_duplicates, 10);
}

#[test]
fn a_granted_line_merge_answers_and_says_whether_it_was_clean() {
    let clean = MergeFileRun {
        success: true,
        stdout: Some("A\nb\nc\nd\ne\nf\nG\n".to_string()),
        stdout_lossy: "A\nb\nc\nd\ne\nf\nG\n".to_string(),
    };
    let merged = git_line_merge(LineMergeStyle::Labelled, &clean).expect("an answer");
    assert!(merged.clean);
    assert_eq!(merged.content, "A\nb\nc\nd\ne\nf\nG\n");

    let text = "<<<<<<< ours\nA\n||||||| base\na\n=======\nX\n>>>>>>> theirs\nb\nc\nd\ne\nf\ng\n";
    let both = MergeFileRun {
        success: false,
        stdout: Some(text.to_string()),
        stdout_lossy: text.to_string(),
    };
    let conflicted = git_line_merge(LineMergeStyle::Labelled, &both).expect("an answer");
    assert!(!conflicted.clean);
    assert!(conflicted.content.contains("<<<<<<< ours"));
    assert!(git_line_merge(LineMergeStyle::Plain, &both).is_none());
}

#[test]
fn the_plain_style_takes_only_text() {
    assert_eq!(merge_file_args(LineMergeStyle::Plain), vec!["merge-file", "-p"]);
    assert_eq!(
        merge_file_args(LineMergeStyle::Labelled),
        vec!["merge-file", "-p", "--diff3", "-L", "ours", "-L", "base", "-L", "theirs"]
    );
    let binary = MergeFileRun {
        success: true,
        stdout: None,
        stdout_lossy: "\u{fffd}".to_string(),
    };
    assert!(git_line_merge(LineMergeStyle::Plain, &binary).is_none());
    assert_eq!(
        git_line_merge(LineMergeStyle::Labelled, &binary).map(|m| m.content),
        Some("\u{fffd}".to_string())
    );
}
