use weave_core::v2::locals::{
    assigned_locals, bound_locals, replace_normalized_line, scope_dangling, uses_local,
};

fn has(names: &[String], name: &str) -> bool {
    names.iter().any(|n| n == name)
}

#[test]
fn assignment_detection_ignores_comparisons_and_augmentation() {
    let got = assigned_locals(
        "    raw = load()\n    const value = compute(raw)\n    if raw == 1:\n    total += 1\n",
    );
    assert!(has(&got, "raw"));
    assert!(has(&got, "value"));
    assert_eq!(got.len(), 2, "{got:?}");
}

#[test]
fn a_use_is_not_its_own_assignment() {
    assert!(!uses_local("    raw = load()\n", "raw"));
    assert!(uses_local("    audit(raw)\n", "raw"));
    assert!(!uses_local("    audit(rawest)\n", "raw"));
}

#[test]
fn a_local_that_is_no_longer_assigned_dangles() {
    let base = "def f():\n    raw = load()\n    return raw\n";
    assert_eq!(
        scope_dangling(base, "def f():\n    audit(raw)\n    return raw\n"),
        vec!["raw".to_string()]
    );
    assert!(scope_dangling(base, base).is_empty());
    assert!(scope_dangling(base, "def f():\n    return 1\n").is_empty());
    assert!(scope_dangling(base, "def f(raw):\n    return raw\n").is_empty());
    assert!(has(&bound_locals("def f(raw):\n    return raw\n"), "raw"));
}

#[test]
fn a_line_is_replaced_under_its_own_indent() {
    assert_eq!(
        replace_normalized_line("def h():\n    a()\n    b()\n", "a()", "c()"),
        "def h():\n    c()\n    b()\n"
    );
    assert_eq!(replace_normalized_line("x\n", "y", "z"), "x\n");
}
