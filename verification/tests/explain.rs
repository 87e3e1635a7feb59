use weave_core::conflict::{ConflictComplexity, ConflictKind, EntityConflict};
use weave_core::diagnose::diagnose;
use weave_core::explain::{explain_conflict, Explanation, Repair, SideSummary, HUNK_LIMIT};

fn conflict(kind: ConflictKind, base: &str, ours: &str, theirs: &str) -> EntityConflict {
    EntityConflict {
        entity_name: "f".to_string(),
        entity_type: "function".to_string(),
        kind,
        complexity: ConflictComplexity::Functional,
        ours_content: Some(ours.to_string()),
        theirs_content: Some(theirs.to_string()),
        base_content: Some(base.to_string()),
    }
}

#[test]
fn a_conflict_is_rendered_hunk_by_hunk() {
    let (b, o, t) = ("a\nb\nc\n", "a\nB\nc\n", "a\nX\nc\n");
    let c = conflict(ConflictKind::BothModified, b, o, t);
    let e = Explanation {
        file: "m.py".to_string(),
        clean: false,
        conflicts: vec![explain_conflict(&c, &diagnose(b, o, t), "g")],
    };
    assert_eq!(
        e.render(),
        "m.py: 1 conflicted entity\n\
         \nfunction `f` — both_modified (F), refused_by: g\n\
         \x20 1 contested hunk(s) (hunks BOTH sides wrote in; one-sided hunks are not conflicts and are not listed)\n\
         \x20 [1] base lines 2-2 — ours modified (-1/+1), theirs modified (-1/+1)\n\
         \x20     both rewrote: b\n\
         \x20     ours   +B\n\
         \x20     theirs +X\n"
    );
}

#[test]
fn a_clean_file_is_explained_in_one_sentence() {
    let e = Explanation {
        file: "m.py".to_string(),
        clean: true,
        conflicts: vec![],
    };
    assert_eq!(
        e.render(),
        "m.py: weave's merge of this file is CLEAN — no conflicted entity, nothing to explain.\n"
    );
}

#[test]
fn no_more_hunks_than_the_limit_are_listed() {
    let line = |i: usize, tag: &str| format!("keep{i}\nline{i}{tag}\n");
    let text = |tag: &str| (0..HUNK_LIMIT + 3).map(|i| line(i, tag)).collect::<String>();
    let (b, o, t) = (text(""), text("o"), text("t"));
    let c = conflict(ConflictKind::BothModified, &b, &o, &t);
    let e = explain_conflict(&c, &diagnose(&b, &o, &t), "g");
    assert_eq!(e.contested_hunks, HUNK_LIMIT + 3);
    assert_eq!(e.hunks.len(), HUNK_LIMIT);
    let whole = Explanation {
        file: "x".to_string(),
        clean: false,
        conflicts: vec![e],
    };
    assert!(whole.render().contains("  … 3 more contested hunk(s) not shown\n"));
}

#[test]
fn a_repair_follows_from_the_kind() {
    let with = |kind: ConflictKind| {
        let mut c = conflict(kind, "a\n", "b\n", "c\n");
        c.theirs_content = None;
        explain_conflict(&c, &vec![], "g").repair
    };
    assert_eq!(with(ConflictKind::BothModified), None);
    let kept = with(ConflictKind::ModifyDelete { modified_in_ours: true });
    assert_eq!(
        kept,
        Some(Repair::DecideExistence {
            kept_by: "ours".to_string()
        })
    );
    assert_eq!(
        kept.unwrap().to_text(),
        "deleted on one side, still edited by ours — decide whether it has a reason to exist before resolving"
    );
    assert_eq!(
        with(ConflictKind::BothAdded).unwrap().to_text(),
        "`f` was added independently by both sides — fold the two definitions into one, do not keep both"
    );
    assert_eq!(
        with(ConflictKind::RenameModify {
            old_name: "p".to_string(),
            new_name: "q".to_string(),
            renamed_in_ours: false,
        })
        .unwrap()
        .to_text(),
        "rename `p` -> `q` in the resolution, replay the body edit onto the new name, then rewrite every call site of `p`"
    );
}

#[test]
fn a_summary_keeps_a_sample_of_what_was_written() {
    let h = diagnose("a\n", "p\nq\nr\ns\n", "a\n");
    let s = SideSummary::of(&h[0].ours);
    assert_eq!(s.action, "modified");
    assert_eq!((s.removed_lines, s.added_lines), (1, 4));
    assert_eq!(s.added, vec!["p".to_string(), "q".to_string(), "r".to_string()]);
}
