use weave_core::diagnose::{diagnose, SideAction};

const BASE: &str = "fn f() {\n    a();\n    b();\n    c();\n}\n";

#[test]
fn two_sides_rewriting_the_same_line_collide_in_one_hunk() {
    let ours = "fn f() {\n    a();\n    b_ours();\n    c();\n}\n";
    let theirs = "fn f() {\n    a();\n    b_theirs();\n    c();\n}\n";
    let h = diagnose(BASE, ours, theirs);
    assert_eq!(h.len(), 1, "{h:#?}");
    assert_eq!((h[0].base_start, h[0].base_end), (3, 3));
    assert_eq!(h[0].ours.action, SideAction::Modified);
    assert_eq!(h[0].theirs.action, SideAction::Modified);
    assert_eq!(h[0].collision, vec!["    b();".to_string()]);
    assert_eq!(h[0].ours.tokens_added, vec!["b_ours".to_string()]);
    assert_eq!(h[0].theirs.tokens_added, vec!["b_theirs".to_string()]);
    assert_eq!(h[0].ours.tokens_removed, vec!["b".to_string()]);
}

#[test]
fn edits_far_apart_are_two_hunks_and_neither_collides() {
    let ours = "fn f() {\n    a_ours();\n    b();\n    c();\n}\n";
    let theirs = "fn f() {\n    a();\n    b();\n    c_theirs();\n}\n";
    let h = diagnose(BASE, ours, theirs);
    assert_eq!(h.len(), 2, "{h:#?}");
    assert_eq!(h[0].ours.action, SideAction::Modified);
    assert_eq!(h[0].theirs.action, SideAction::Untouched);
    assert!(h[0].collision.is_empty());
    assert_eq!(h[1].ours.action, SideAction::Untouched);
    assert_eq!(h[1].theirs.action, SideAction::Modified);
    assert!(h[1].collision.is_empty());
}

#[test]
fn a_deletion_and_an_insertion_are_named_as_what_they_are() {
    let ours = "fn f() {\n    a();\n    c();\n}\n"; // deleted b
    let theirs = "fn f() {\n    a();\n    b();\n    new();\n    c();\n}\n"; // inserted
    let h = diagnose(BASE, ours, theirs);
    assert_eq!(h.len(), 1, "adjacent edits are one hunk: {h:#?}");
    assert_eq!(h[0].ours.action, SideAction::Removed);
    assert_eq!(h[0].theirs.action, SideAction::Added);
    assert!(h[0].collision.is_empty(), "theirs deleted nothing");
    assert_eq!(h[0].theirs.tokens_added, vec!["new".to_string()]);
}

#[test]
fn an_unedited_body_has_no_hunks() {
    assert!(diagnose(BASE, BASE, BASE).is_empty());
}

#[test]
fn hunks_come_out_in_base_order() {
    let ours = "fn f() {\n    a_o();\n    b();\n    c_o();\n}\n";
    let theirs = "fn f() {\n    a_t();\n    b();\n    c_t();\n}\n";
    let h = diagnose(BASE, ours, theirs);
    assert!(
        h.windows(2).all(|w| w[0].base_start <= w[1].base_start),
        "{h:#?}"
    );
    assert_eq!(h, diagnose(BASE, ours, theirs));
}

#[test]
fn a_side_that_only_inserts_has_a_position_and_no_extent() {
    let ours = "fn f() {\n    a();\n    new();\n    b();\n    c();\n}\n";
    let h = diagnose(BASE, ours, BASE);
    assert_eq!(h.len(), 1);
    assert_eq!((h[0].base_start, h[0].base_end), (3, 2));
    assert_eq!(h[0].ours.action, SideAction::Added);
    assert_eq!(h[0].ours.added, vec!["    new();".to_string()]);
    assert_eq!(h[0].theirs.action, SideAction::Untouched);
    assert!(h[0].theirs.added.is_empty() && h[0].theirs.removed.is_empty());
}

#[test]
fn each_action_has_a_tag() {
    assert_eq!(SideAction::Untouched.wire(), "untouched");
    assert_eq!(SideAction::Added.wire(), "added");
    assert_eq!(SideAction::Removed.wire(), "removed");
    assert_eq!(SideAction::Modified.wire(), "modified");
}

#[test]
fn an_insertion_stands_in_front_of_the_line_it_pushes_down() {
    let h = diagnose("a\nb\n", "x\na\nb\n", "y\na\nb\n");
    assert_eq!(h.len(), 1, "{h:#?}");
    assert_eq!((h[0].base_start, h[0].base_end), (1, 0));
    assert_eq!(h[0].ours.action, SideAction::Added);
    assert_eq!(h[0].theirs.action, SideAction::Added);
}

#[test]
fn there_is_a_hunk_exactly_where_a_side_changed_something() {
    for (base, ours, theirs) in [
        ("a\n", "a\n", "b\n"),
        ("a\n", "a", "a\n"),
        ("", "a\n", ""),
        ("a\nb\n", "b\n", "a\n"),
    ] {
        let h = diagnose(base, ours, theirs);
        assert!(!h.is_empty());
        assert!(h.iter().all(|x| x.ours.action != SideAction::Untouched
            || x.theirs.action != SideAction::Untouched));
    }
    assert!(diagnose("", "", "").is_empty());
}
