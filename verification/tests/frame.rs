use weave_core::frame::{
    frame, frame_duplicates, is_conflicted, marker_line_count, resolve_conflicts, Resolution,
};

const CONFLICTED: &str = "\
before()
<<<<<<< ours — function `f` (S, confidence: low)
// refused_by: statement_fold · collision: `body()`
ours_body()
=======
theirs_body()
>>>>>>> theirs — function `f`
after()
";

#[test]
fn the_two_resolutions_keep_the_frame_and_one_claim_each() {
    assert_eq!(
        resolve_conflicts(CONFLICTED, Resolution::Ours),
        "before()\nours_body()\nafter()\n"
    );
    assert_eq!(
        resolve_conflicts(CONFLICTED, Resolution::Theirs),
        "before()\ntheirs_body()\nafter()\n"
    );
}

#[test]
fn the_refusal_line_is_marker_furniture_and_belongs_to_neither_side() {
    assert!(!resolve_conflicts(CONFLICTED, Resolution::Ours).contains("refused_by:"));
    assert!(!frame(CONFLICTED).iter().any(|l| l.contains("refused_by:")));
}

#[test]
fn the_frame_is_what_sits_outside_every_box() {
    assert_eq!(frame(CONFLICTED), vec!["before()", "after()"]);
}

#[test]
fn the_base_section_of_a_diff3_box_is_nobody_s_claim() {
    let diff3 = "<<<<<<< ours\na()\n||||||| base\nb()\n=======\nc()\n>>>>>>> theirs\n";
    assert_eq!(resolve_conflicts(diff3, Resolution::Ours), "a()\n");
    assert_eq!(resolve_conflicts(diff3, Resolution::Theirs), "c()\n");
    assert!(frame(diff3).is_empty());
}

#[test]
fn a_frame_line_no_version_wrote_twice_is_reported_once() {
    let merged = "def alpha():\n    return 1\ndef alpha():\n    return 1\n";
    let one = "def alpha():\n    return 1\n";
    let dups = frame_duplicates(one, one, one, merged);
    assert_eq!(dups.len(), 2, "both body lines are duplicated: {dups:?}");
    assert_eq!(dups[1].line, "def alpha():");
    assert_eq!((dups[1].found, dups[1].allowed), (2, 1));
}

#[test]
fn a_line_one_version_really_does_write_twice_is_not_a_duplicate() {
    let twice = "log_it()\nlog_it()\n";
    assert!(frame_duplicates("log_it()\n", twice, "log_it()\n", twice).is_empty());
}

#[test]
fn two_sides_independently_adding_one_copy_may_both_be_kept() {
    let both = "import a\nimport a\n";
    assert!(frame_duplicates("", "import a\n", "import a\n", both).is_empty());
    assert_eq!(
        frame_duplicates(
            "",
            "import a\n",
            "import a\n",
            "import a\nimport a\nimport a\n"
        )
        .len(),
        1
    );
}

#[test]
fn without_a_box_both_resolutions_are_the_text() {
    let plain = "a\nb\n";
    assert_eq!(resolve_conflicts(plain, Resolution::Ours), plain);
    assert_eq!(resolve_conflicts(plain, Resolution::Theirs), plain);
    assert!(!is_conflicted(plain));
    assert_eq!(marker_line_count(plain), 0);
}

#[test]
fn the_marker_lines_of_a_box_are_counted() {
    assert!(is_conflicted(CONFLICTED));
    assert_eq!(marker_line_count(CONFLICTED), 3);
    assert_eq!(
        marker_line_count("<<<<<<< ours\na\n||||||| base\n=======\n>>>>>>> theirs\n"),
        3
    );
}

#[test]
fn a_side_s_own_copies_stay_within_what_is_allowed() {
    let ours = "x = 1\nx = 1\nx = 1\n";
    assert!(frame_duplicates("", ours, "", ours).is_empty());
}

#[test]
fn a_resolved_text_resolves_to_itself() {
    for take in [Resolution::Ours, Resolution::Theirs] {
        let once = resolve_conflicts(CONFLICTED, take);
        for again in [Resolution::Ours, Resolution::Theirs] {
            assert_eq!(resolve_conflicts(&once, again), once);
        }
        assert!(!is_conflicted(&once));
        assert_eq!(marker_line_count(&once), 0);
        assert_eq!(frame(&once), once.lines().collect::<Vec<_>>());
    }
}

#[test]
fn the_frame_stands_in_every_resolution_in_order() {
    for take in [Resolution::Ours, Resolution::Theirs] {
        let text = resolve_conflicts(CONFLICTED, take);
        let kept: Vec<&str> = text.lines().collect();
        let mut from = 0;
        for line in frame(CONFLICTED) {
            let at = kept[from..].iter().position(|l| *l == line);
            from += at.expect("the frame is kept") + 1;
        }
    }
}

#[test]
fn a_second_carriage_return_reads_as_part_of_the_line_feed() {
    let once = resolve_conflicts("a\r\r\n", Resolution::Ours);
    assert_eq!(once, "a\r\n");
    assert_eq!(resolve_conflicts(&once, Resolution::Ours), "a\n");
}
