use weave_core::coalesce::{coalesce_adjacent_boxes, MAX_INTERSTITIAL_LINES};
use weave_core::conflict::{
    classify_change, classify_conflict, is_teach_line, parse_weave_conflicts, refusal_line,
    teach_line, BoxSide, ConflictBox, ConflictComplexity, ConflictKind, EntityConflict,
    MarkerFormat, MergeStats,
};
use weave_core::frame::{frame, resolve_conflicts, Resolution};
use weave_core::merge::ResolutionStrategy;
use weave_core::v2::types::Tally;

fn as_strings(lines: &[Vec<char>]) -> Vec<String> {
    lines.iter().map(|l| l.iter().collect::<String>()).collect()
}

fn push_lines(out: &mut String, lines: &[Vec<char>]) {
    for l in as_strings(lines) {
        out.push_str(&l);
        out.push('\n');
    }
}

#[test]
fn the_frame_and_the_hole_tile_every_side_they_are_cut_over() {
    let cases: &[(&str, &str, &str)] = &[
        ("a\n", "b\n", "c\n"),
        ("h\nB\nt\n", "h\nO\nO2\nt\n", "h\nT\nt\n"),
        ("h\nB\nx\n", "h\nO\nt\n", "h\nT\nt\n"),
        ("a\n", "a\nb\n", "a\n"),
        ("\n", "\n\n", "\n"),
        ("", "x\n", "y\n"),
    ];
    for (b, o, t) in cases {
        for render_base in [false, true] {
            let hole = ConflictBox::cut(Some(o), render_base.then_some(*b), Some(t));
            let mut sides = vec![(BoxSide::Ours, *o), (BoxSide::Theirs, *t)];
            if render_base {
                sides.push((BoxSide::Base, *b));
            }
            for (which, text) in sides {
                let mut rebuilt = String::new();
                push_lines(&mut rebuilt, &hole.frame_prefix());
                push_lines(&mut rebuilt, &hole.side(which).expect("present side"));
                push_lines(&mut rebuilt, &hole.frame_suffix());
                let expected: String =
                    text.lines().map(|l| format!("{l}\n")).collect::<String>();
                assert_eq!(
                    rebuilt, expected,
                    "frame + hole did not tile side of ({b:?}, {o:?}, {t:?}) \
                     with render_base={render_base}"
                );
            }
        }
    }
}

#[test]
fn a_modify_delete_box_hoists_nothing_out_of_the_markers() {
    let hole = ConflictBox::cut(Some("a\nb\n"), None, None);
    assert!(hole.frame_prefix().is_empty());
    assert!(hole.frame_suffix().is_empty());
    assert_eq!(
        hole.side(BoxSide::Ours).map(|l| as_strings(&l)),
        Some(vec!["a".to_string(), "b".to_string()])
    );
    assert_eq!(hole.side(BoxSide::Theirs), None);
}

#[test]
fn a_side_nobody_renders_has_no_vote_on_where_the_box_begins() {
    let (b, o, t) = ("different\nB\n", "shared\nO\n", "shared\nT\n");
    let enhanced = ConflictBox::cut(Some(o), None, Some(t));
    assert_eq!(as_strings(&enhanced.frame_prefix()), ["shared"]);
    let standard = ConflictBox::cut(Some(o), Some(b), Some(t));
    assert!(standard.frame_prefix().is_empty());
}


fn boxes(n: usize, scope: &str) -> String {
    let mut s = String::from("head();\n");
    for i in 0..n {
        s.push_str(&format!(
            "<<<<<<< ours \u{2014} scope `{scope}` (S, confidence: low)\n\
             // refused_by: statement_fold · collision: `ours0();`\n\
             ours{i}();\n\
             =======\n\
             theirs{i}();\n\
             >>>>>>> theirs \u{2014} scope `{scope}`\n\
             }}\n\n  /**\n"
        ));
    }
    s.push_str("tail();\n");
    s
}

fn count_boxes(s: &str) -> usize {
    s.lines().filter(|l| l.starts_with("<<<<<<<")).count()
}

#[test]
fn coalescing_changes_no_resolution() {
    let fmt = MarkerFormat::default();
    for n in [2usize, 3, 20] {
        let before = boxes(n, "then");
        let after = coalesce_adjacent_boxes(&before, &fmt);
        assert!(
            count_boxes(&after) < count_boxes(&before),
            "{n} same-scope boxes three lines apart did not coalesce"
        );
        for take in [
            Resolution::Ours,
            Resolution::Theirs,
        ] {
            assert_eq!(
                resolve_conflicts(&before, take),
                resolve_conflicts(&after, take),
                "coalescing {n} boxes changed the {take:?} resolution"
            );
        }
    }
}

#[test]
fn twenty_boxes_about_one_thing_become_one_box() {
    let fmt = MarkerFormat::default();
    assert_eq!(
        count_boxes(&coalesce_adjacent_boxes(&boxes(20, "then"), &fmt)),
        1
    );
}

#[test]
fn boxes_about_different_scopes_stay_separate() {
    let fmt = MarkerFormat::default();
    let mut src = boxes(1, "alpha");
    src.push_str(&boxes(1, "bravo"));
    assert_eq!(count_boxes(&coalesce_adjacent_boxes(&src, &fmt)), 2);
}

#[test]
fn a_long_agreed_run_between_two_boxes_is_not_a_gap() {
    let fmt = MarkerFormat::default();
    let one = boxes(1, "then");
    let filler: String = (0..MAX_INTERSTITIAL_LINES + 1)
        .map(|i| format!("agreed{i}();\n"))
        .collect();
    let src = format!("{one}{filler}{one}");
    assert_eq!(count_boxes(&coalesce_adjacent_boxes(&src, &fmt)), 2);
}

#[test]
fn a_diff3_box_keeps_its_base_section_through_a_merge() {
    let fmt = MarkerFormat::standard(7);
    let one = |i: usize| {
        format!("<<<<<<< ours\no{i}\n||||||| base\nb{i}\n=======\nt{i}\n>>>>>>> theirs\ngap\n")
    };
    let src = format!("{}{}", one(1), one(2));
    let out = coalesce_adjacent_boxes(&src, &fmt);
    assert_eq!(count_boxes(&out), 1);
    assert!(
        out.contains("b1\ngap\nb2\n"),
        "base halves did not fold: {out}"
    );
    for take in [
        Resolution::Ours,
        Resolution::Theirs,
    ] {
        assert_eq!(
            resolve_conflicts(&src, take),
            resolve_conflicts(&out, take)
        );
    }
}

#[test]
fn an_unparseable_marker_leaves_the_file_untouched() {
    let fmt = MarkerFormat::default();
    let src = "a();\n<<<<<<< ours \u{2014} scope `x`\nonly_half();\nb();\n";
    assert_eq!(coalesce_adjacent_boxes(src, &fmt), src);
}

#[test]
fn test_classify_functional_conflict() {
    let base = "function foo() {\n    return 1;\n}\n";
    let ours = "function foo() {\n    return 2;\n}\n";
    let theirs = "function foo() {\n    return 3;\n}\n";
    assert_eq!(
        classify_conflict(Some(base), Some(ours), Some(theirs)),
        ConflictComplexity::Functional
    );
}

#[test]
fn test_classify_syntax_conflict() {
    let base = "function foo(a: number) {\n    return a;\n}\n";
    let ours = "function foo(a: string) {\n    return a;\n}\n";
    let theirs = "function foo(a: boolean) {\n    return a;\n}\n";
    assert_eq!(
        classify_conflict(Some(base), Some(ours), Some(theirs)),
        ConflictComplexity::Syntax
    );
}

#[test]
fn test_classify_text_conflict() {
    let base = "// old comment\n    return 1;\n";
    let ours = "// ours comment\n    return 1;\n";
    let theirs = "// theirs comment\n    return 1;\n";
    assert_eq!(
        classify_conflict(Some(base), Some(ours), Some(theirs)),
        ConflictComplexity::Text
    );
}

#[test]
fn test_classify_syntax_functional_conflict() {
    let base = "function foo(a: number) {\n    return a;\n}\n";
    let ours = "function foo(a: string) {\n    return a + 1;\n}\n";
    let theirs = "function foo(a: boolean) {\n    return a + 2;\n}\n";
    assert_eq!(
        classify_conflict(Some(base), Some(ours), Some(theirs)),
        ConflictComplexity::SyntaxFunctional
    );
}

#[test]
fn test_classify_unknown_when_identical() {
    let content = "function foo() {\n    return 1;\n}\n";
    assert_eq!(
        classify_conflict(Some(content), Some(content), Some(content)),
        ConflictComplexity::Unknown
    );
}

#[test]
fn test_classify_modify_delete() {
    let base = "function foo() {\n    return 1;\n}\n";
    let ours = "function foo() {\n    return 2;\n}\n";
    assert_eq!(
        classify_conflict(Some(base), Some(ours), None),
        ConflictComplexity::SyntaxFunctional
    );
}

#[test]
fn test_classify_both_added() {
    let ours = "function foo() {\n    return 1;\n}\n";
    let theirs = "function foo() {\n    return 2;\n}\n";
    assert_eq!(
        classify_conflict(None, Some(ours), Some(theirs)),
        ConflictComplexity::SyntaxFunctional
    );
}

#[test]
fn test_conflict_markers_include_complexity_and_refusal() {
    let conflict = EntityConflict {
        entity_name: "foo".to_string(),
        entity_type: "function".to_string(),
        kind: ConflictKind::BothModified,
        complexity: ConflictComplexity::Functional,
        ours_content: Some("return 1;".to_string()),
        theirs_content: Some("return 2;".to_string()),
        base_content: Some("return 0;".to_string()),
    };
    let markers =
        conflict.to_conflict_markers(&MarkerFormat::default(), "merge_ladder_exhausted");
    assert!(
        markers.contains("confidence: medium"),
        "Markers should contain confidence: {}",
        markers
    );
    assert!(
        markers.contains("// refused_by: merge_ladder_exhausted · collision:"),
        "Markers should carry the refusal line: {}",
        markers
    );
}

#[test]
fn the_refusal_line_is_a_comment_in_the_files_language() {
    let conflict = EntityConflict {
        entity_name: "f".to_string(),
        entity_type: "function".to_string(),
        kind: ConflictKind::BothModified,
        complexity: ConflictComplexity::Text,
        ours_content: Some("def f():\n    return 1\n".to_string()),
        theirs_content: Some("def f():\n    return 2\n".to_string()),
        base_content: Some("def f():\n    return 0\n".to_string()),
    };
    for (path, prefix) in [
        ("a.py", "#"),
        ("q.sql", "--"),
        ("core.clj", ";"),
        ("a.rs", "//"),
        ("no_extension", "//"),
    ] {
        let fmt = MarkerFormat::default().for_file(path);
        let out = conflict.to_conflict_markers(&fmt, "merge_ladder_exhausted");
        let refusal = out
            .lines()
            .find(|l| l.contains("refused_by: "))
            .unwrap_or_else(|| panic!("{path}: no refusal line in:\n{out}"));
        assert!(
            refusal.starts_with(prefix),
            "{path}: refusal must start with {prefix:?}, got {refusal:?}"
        );
        let parsed = parse_weave_conflicts(&out);
        assert_eq!(parsed.len(), 1, "{path}: {out}");
        assert!(
            !parsed[0].refusal.is_empty(),
            "{path}: refusal lost on the way back"
        );
    }
}

#[test]
fn test_resolution_hints() {
    assert!(ConflictComplexity::Text
        .resolution_hint()
        .contains("Cosmetic"));
    assert!(ConflictComplexity::Syntax
        .resolution_hint()
        .contains("Structural"));
    assert!(ConflictComplexity::Functional
        .resolution_hint()
        .contains("Logic"));
    assert!(ConflictComplexity::TextSyntax
        .resolution_hint()
        .contains("Renamed"));
    assert!(ConflictComplexity::TextFunctional
        .resolution_hint()
        .contains("Logic and cosmetic"));
    assert!(ConflictComplexity::SyntaxFunctional
        .resolution_hint()
        .contains("Structural and logic"));
    assert!(ConflictComplexity::TextSyntaxFunctional
        .resolution_hint()
        .contains("All three"));
    assert!(ConflictComplexity::Unknown
        .resolution_hint()
        .contains("Could not classify"));
}

#[test]
fn test_parse_weave_conflicts() {
    let conflict = EntityConflict {
        entity_name: "process".to_string(),
        entity_type: "function".to_string(),
        kind: ConflictKind::BothModified,
        complexity: ConflictComplexity::Functional,
        ours_content: Some("fn process() { return 1; }".to_string()),
        theirs_content: Some("fn process() { return 2; }".to_string()),
        base_content: Some("fn process() { return 0; }".to_string()),
    };
    let markers =
        conflict.to_conflict_markers(&MarkerFormat::default(), "merge_ladder_exhausted");

    let parsed = parse_weave_conflicts(&markers);
    assert_eq!(parsed.len(), 1);
    assert_eq!(parsed[0].entity_name, "process");
    assert_eq!(parsed[0].entity_kind, "function");
    assert_eq!(parsed[0].complexity, ConflictComplexity::Functional);
    assert_eq!(parsed[0].confidence, "medium");
    assert!(parsed[0].refusal.starts_with("merge_ladder_exhausted"));
    assert!(parsed[0].ours_content.contains("return 1"));
    assert!(parsed[0].theirs_content.contains("return 2"));
}

#[test]
fn test_parse_weave_conflicts_multiple() {
    let c1 = EntityConflict {
        entity_name: "foo".to_string(),
        entity_type: "function".to_string(),
        kind: ConflictKind::BothModified,
        complexity: ConflictComplexity::Text,
        ours_content: Some("// a".to_string()),
        theirs_content: Some("// b".to_string()),
        base_content: None,
    };
    let c2 = EntityConflict {
        entity_name: "Bar".to_string(),
        entity_type: "class".to_string(),
        kind: ConflictKind::BothModified,
        complexity: ConflictComplexity::SyntaxFunctional,
        ours_content: Some("class Bar { x() {} }".to_string()),
        theirs_content: Some("class Bar { y() {} }".to_string()),
        base_content: None,
    };
    let content = format!(
        "some code\n{}\nmore code\n{}\nend",
        c1.to_conflict_markers(&MarkerFormat::default(), "merge_ladder_exhausted"),
        c2.to_conflict_markers(&MarkerFormat::default(), "both_added_divergent")
    );
    let parsed = parse_weave_conflicts(&content);
    assert_eq!(parsed.len(), 2);
    assert_eq!(parsed[0].entity_name, "foo");
    assert_eq!(parsed[0].complexity, ConflictComplexity::Text);
    assert_eq!(parsed[1].entity_name, "Bar");
    assert_eq!(parsed[1].complexity, ConflictComplexity::SyntaxFunctional);
}

#[test]
fn test_standard_markers_no_metadata() {
    let conflict = EntityConflict {
        entity_name: "foo".to_string(),
        entity_type: "function".to_string(),
        kind: ConflictKind::BothModified,
        complexity: ConflictComplexity::Functional,
        ours_content: Some("return 1;".to_string()),
        theirs_content: Some("return 2;".to_string()),
        base_content: Some("return 0;".to_string()),
    };
    let markers =
        conflict.to_conflict_markers(&MarkerFormat::standard(7), "merge_ladder_exhausted");
    assert_eq!(markers, "<<<<<<< ours\nreturn 1;\n||||||| base\nreturn 0;\n=======\nreturn 2;\n>>>>>>> theirs\n");
    assert!(!markers.contains('\u{2014}'));
    assert!(!markers.contains("refused_by"));
    assert!(!markers.contains("confidence"));
}

#[test]
fn test_standard_markers_custom_length() {
    let conflict = EntityConflict {
        entity_name: "foo".to_string(),
        entity_type: "function".to_string(),
        kind: ConflictKind::BothModified,
        complexity: ConflictComplexity::Functional,
        ours_content: Some("a".to_string()),
        theirs_content: Some("b".to_string()),
        base_content: None,
    };
    let markers =
        conflict.to_conflict_markers(&MarkerFormat::standard(11), "merge_ladder_exhausted");
    assert!(markers.starts_with("<<<<<<<<<<<")); // 11 <'s
    assert!(markers.contains("===========")); // 11 ='s
    assert!(markers.contains(">>>>>>>>>>>")); // 11 >'s
}

fn conflict_about(kind: ConflictKind) -> EntityConflict {
    EntityConflict {
        entity_name: "step".to_string(),
        entity_type: "method".to_string(),
        kind,
        complexity: ConflictComplexity::Functional,
        ours_content: Some("step() { one }".to_string()),
        theirs_content: Some("step() { two }".to_string()),
        base_content: Some("step() { zero }".to_string()),
    }
}

#[test]
fn a_written_conflict_is_read_back_whole() {
    let c = conflict_about(ConflictKind::BothModified);
    let parsed = parse_weave_conflicts(&c.to_conflict_markers(&MarkerFormat::default(), "g"));
    assert_eq!(parsed.len(), 1);
    assert_eq!(parsed[0].entity_name, "step");
    assert_eq!(parsed[0].entity_kind, "method");
    assert_eq!(parsed[0].complexity, ConflictComplexity::Functional);
    assert_eq!(parsed[0].confidence, "medium");
    assert!(parsed[0].refusal.starts_with("g"));
    assert_eq!(parsed[0].ours_content, "step() { one }\n");
    assert_eq!(parsed[0].theirs_content, "step() { two }\n");
}

#[test]
fn a_written_box_opens_with_its_label() {
    let c = conflict_about(ConflictKind::BothModified);
    let out = c.to_conflict_markers(&MarkerFormat::default(), "g");
    let lines: Vec<&str> = out.lines().collect();
    assert_eq!(
        lines[0],
        "<<<<<<< ours \u{2014} method `step` (F, confidence: medium)"
    );
    assert!(lines[1].starts_with("// refused_by: g"));
    assert_eq!(lines[2], "step() { one }");
    assert_eq!(lines[3], "=======");
    assert_eq!(lines[4], "step() { two }");
    assert_eq!(lines[5], ">>>>>>> theirs \u{2014} method `step` (F, confidence: medium)");
}

#[test]
fn each_kind_has_a_tag_and_a_phrase() {
    let cases = [
        (ConflictKind::BothModified, "both_modified", "both modified"),
        (
            ConflictKind::ModifyDelete { modified_in_ours: true },
            "modify_delete",
            "modified in ours, deleted in theirs",
        ),
        (
            ConflictKind::ModifyDelete { modified_in_ours: false },
            "modify_delete",
            "deleted in ours, modified in theirs",
        ),
        (ConflictKind::BothAdded, "both_added", "both added"),
        (
            ConflictKind::RenameRename {
                base_name: "a".to_string(),
                ours_name: "b".to_string(),
                theirs_name: "c".to_string(),
            },
            "rename_rename",
            "both renamed: 'a' → ours 'b', theirs 'c'",
        ),
        (
            ConflictKind::RenameModify {
                old_name: "a".to_string(),
                new_name: "b".to_string(),
                renamed_in_ours: true,
            },
            "rename_modify",
            "renamed in ours ('a' → 'b'), modified in theirs",
        ),
        (
            ConflictKind::RenameModify {
                old_name: "a".to_string(),
                new_name: "b".to_string(),
                renamed_in_ours: false,
            },
            "rename_modify",
            "modified in ours, renamed in theirs ('a' → 'b')",
        ),
    ];
    for (kind, tag, phrase) in cases {
        assert_eq!(kind.wire_kind(), tag);
        assert_eq!(kind.to_text(), phrase);
    }
}

#[test]
fn a_teach_line_is_known_in_every_comment_syntax() {
    for prefix in ["//", "#", "--", ";"] {
        let line = teach_line(prefix, "src/a.rs");
        assert_eq!(
            line,
            format!(
                "{prefix} weave: run 'weave explain src/a.rs' for per-hunk detail, 'weave check' to verify your resolution"
            )
        );
        assert!(is_teach_line(&line));
    }
    assert!(!is_teach_line("weave: run 'weave explain a'"));
    assert!(!is_teach_line("// run 'weave explain a'"));
}

fn table(
    unchanged: usize,
    ours: usize,
    theirs: usize,
    merged: usize,
    conflicted: usize,
) -> MergeStats {
    let mut s = MergeStats::default();
    s.entities_unchanged = unchanged;
    s.entities_ours_only = ours;
    s.entities_theirs_only = theirs;
    s.entities_both_changed_merged = merged;
    s.entities_conflicted = conflicted;
    s
}

#[test]
fn totals_add_every_line_of_the_summary() {
    let mut total = table(1, 2, 3, 4, 0);
    let mut file = table(10, 20, 30, 40, 50);
    file.used_fallback = true;
    file.semantic_warnings = 6;
    file.resolved_via_diffy = 7;
    file.resolved_via_inner_merge = 8;
    file.references_rewritten = 9;
    file.entities_added_ours = 11;
    file.entities_added_theirs = 12;
    file.entities_deleted = 13;
    total.absorb(&file);
    assert_eq!(
        total,
        MergeStats {
            entities_unchanged: 11,
            entities_ours_only: 22,
            entities_theirs_only: 33,
            entities_both_changed_merged: 44,
            entities_conflicted: 50,
            entities_added_ours: 11,
            entities_added_theirs: 12,
            entities_deleted: 13,
            used_fallback: true,
            semantic_warnings: 6,
            resolved_via_diffy: 7,
            resolved_via_inner_merge: 8,
            references_rewritten: 9,
        }
    );
    assert!(total.has_conflicts());
    assert_eq!(total.auto_resolved(), 99);
    assert_eq!(
        total.to_text(),
        "unchanged: 11, ours-only: 22, theirs-only: 33, auto-merged: 44, added-ours: 11, \
         added-theirs: 12, deleted: 13, CONFLICTS: 50, semantic-warnings: 6 (line-level fallback)"
    );
}

#[test]
fn confidence_falls_with_how_deep_the_merge_had_to_go() {
    let mut s = MergeStats::default();
    assert_eq!(s.confidence(), "very_high");
    assert_eq!(s.to_text(), "unchanged: 0");
    s.record(&Tally::BothMerged, &ResolutionStrategy::DiffyMerged);
    assert_eq!(s.confidence(), "high");
    s.record(&Tally::BothMerged, &ResolutionStrategy::InnerMerged);
    assert_eq!(s.confidence(), "medium");
    s.record(&Tally::Conflicted, &ResolutionStrategy::ConflictBothModified);
    assert_eq!(s.confidence(), "conflict");
    assert_eq!(s.entities_both_changed_merged, 2);
    assert_eq!(s.resolved_via_diffy, 1);
    assert_eq!(s.resolved_via_inner_merge, 1);
    let mut f = MergeStats::default();
    f.mark_fallback();
    assert_eq!(f.confidence(), "medium");
}

#[test]
fn coalescing_keeps_the_frame_of_a_file_without_boxes() {
    let text = "a\nb\n";
    assert_eq!(coalesce_adjacent_boxes(text, &MarkerFormat::default()), text);
    assert_eq!(frame(text), vec!["a".to_string(), "b".to_string()]);
}

#[test]
fn taking_a_side_of_a_written_conflict_gives_that_side() {
    let mut c = conflict_about(ConflictKind::BothModified);
    c.ours_content = Some("fn step() {\n    one();\n    done();\n}\n".to_string());
    c.theirs_content = Some("fn step() {\n    two();\n    done();\n}\n".to_string());
    c.base_content = Some("fn step() {\n    zero();\n}\n".to_string());
    for fmt in [MarkerFormat::default(), MarkerFormat::standard(7)] {
        let out = c.to_conflict_markers(&fmt, "g");
        assert_eq!(
            resolve_conflicts(&out, Resolution::Ours),
            "fn step() {\n    one();\n    done();\n}\n"
        );
        assert_eq!(
            resolve_conflicts(&out, Resolution::Theirs),
            "fn step() {\n    two();\n    done();\n}\n"
        );
    }
}

#[test]
fn what_all_sides_agree_on_stands_outside_the_box() {
    let mut c = conflict_about(ConflictKind::BothModified);
    c.ours_content = Some("head\nours\ntail\n".to_string());
    c.theirs_content = Some("head\ntheirs\ntail\n".to_string());
    let out = c.to_conflict_markers(&MarkerFormat::default(), "g");
    assert_eq!(frame(&out), vec!["head".to_string(), "tail".to_string()]);
    assert!(out.starts_with("head\n<<<<<<< ours"));
}

#[test]
fn a_quoted_collision_keeps_its_indentation() {
    let line = refusal_line(
        "//",
        "statement_fold",
        Some("f() {\n    b();  \n}\n"),
        Some("f() {\n    o();\n}\n"),
        Some("f() {\n    t();\n}\n"),
    );
    assert_eq!(
        line,
        "// refused_by: statement_fold · collision: `    b();`\n"
    );
}

#[test]
fn a_refusal_line_ends_with_its_line_feed() {
    assert_eq!(
        refusal_line(
            "#",
            "container_member",
            Some("    b()\n"),
            Some("    o()\n"),
            Some("    t()\n"),
        ),
        "# refused_by: container_member · collision: `    b()`\n"
    );
    assert_eq!(
        refusal_line("//", "g", None, Some("o\n"), Some("t\n")),
        "// refused_by: g · collision: none (no common ancestor text)\n"
    );
}

#[test]
fn a_signature_ends_on_the_line_that_opens_the_body() {
    let c = classify_change(
        "def f():\n    if x:\n        a()\n",
        "def f():\n    if y:\n        a()\n",
    );
    assert!(c.functional && !c.syntax);
    let c = classify_change("def f():\n    a()\n", "def g():\n    a()\n");
    assert!(c.syntax && !c.functional);
}

#[test]
fn an_ordinary_conflict_is_read_back_off_its_markers() {
    let c = EntityConflict {
        entity_name: "total".to_string(),
        entity_type: "function".to_string(),
        kind: ConflictKind::BothModified,
        complexity: ConflictComplexity::Functional,
        ours_content: Some("def total():\n    return 1\n".to_string()),
        theirs_content: Some("def total():\n    return 2\n".to_string()),
        base_content: Some("def total():\n    return 0\n".to_string()),
    };
    let text = c.to_conflict_markers(&MarkerFormat::default(), "statement_fold");
    let read = parse_weave_conflicts(&format!("before()\n{text}after()\n"));
    assert_eq!(read.len(), 1);
    assert_eq!(read[0].entity_name, "total");
    assert_eq!(read[0].entity_kind, "function");
    assert_eq!(read[0].complexity, ConflictComplexity::Functional);
    assert_eq!(read[0].confidence, ConflictComplexity::Functional.confidence());
    assert!(read[0].refusal.starts_with("statement_fold"));
    assert_eq!(read[0].ours_content, "    return 1\n");
    assert_eq!(read[0].theirs_content, "    return 2\n");
}

#[test]
fn a_box_that_is_cut_short_leaves_the_file_alone() {
    let whole = "<<<<<<< ours\na\n=======\nb\n>>>>>>> theirs\nx\n";
    let text = format!("{whole}{whole}<<<<<<< ours\na\n");
    assert_eq!(coalesce_adjacent_boxes(&text, &MarkerFormat::default()), text);
    let two = format!("{whole}{whole}");
    let one = coalesce_adjacent_boxes(&two, &MarkerFormat::default());
    assert_ne!(one, two);
    for take in [Resolution::Ours, Resolution::Theirs] {
        assert_eq!(resolve_conflicts(&one, take), resolve_conflicts(&two, take));
    }
}

#[test]
fn a_claim_with_a_separator_of_its_own_still_names_its_conflict() {
    let c = EntityConflict {
        entity_name: "total".to_string(),
        entity_type: "function".to_string(),
        kind: ConflictKind::BothModified,
        complexity: ConflictComplexity::Text,
        ours_content: Some("a\n=======\r\r\nb\n".to_string()),
        theirs_content: Some("c\n".to_string()),
        base_content: None,
    };
    let text = c.to_conflict_markers(&MarkerFormat::default(), "statement_fold");
    let read = parse_weave_conflicts(&text);
    assert_eq!(read.len(), 1);
    assert_eq!(read[0].entity_name, "total");
    assert_eq!(read[0].entity_kind, "function");
    assert_eq!(read[0].complexity, ConflictComplexity::Text);
    assert!(read[0].refusal.starts_with("statement_fold"));
    assert_eq!(read[0].ours_content, "a\n");
    assert_eq!(read[0].theirs_content, "b\n=======\nc\n");
}

#[test]
fn a_carriage_return_that_no_resolution_keeps_does_no_harm() {
    let one = "<<<<<<< ours\na\n||||||| base\nx\r\r\n=======\nb\n>>>>>>> theirs\nmid\n";
    for end in ["end\n", "end\r"] {
        let two = format!("{one}{one}{end}");
        let joined = coalesce_adjacent_boxes(&two, &MarkerFormat::default());
        assert_ne!(joined, two);
        for take in [Resolution::Ours, Resolution::Theirs] {
            assert_eq!(
                resolve_conflicts(&joined, take),
                resolve_conflicts(&two, take)
            );
        }
    }
}
