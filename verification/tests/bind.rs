use weave_core::conflict::{ConflictKind, MarkerFormat};
use weave_core::merge::{Guards, InnerMergeResult, LicensedGap, ResolutionStrategy};
use weave_core::v2::bind::{
    bind_names, bind_scopes, delete_vs_new_caller, footprint_license, license_question,
    local_dangling, rehome_duplication, rename_repair, scope_question, shadowed_binding, Attempt,
    Scopes,
};
use weave_core::v2::extraction::{contested_extraction, extracted_edit_landing};
use weave_core::v2::match_phase::RawEntity;
use weave_core::v2::pipeline::{analyze, resolve_all, summarize, Analysis};
use weave_core::v2::resolve::{contested, ResolveCtx, Resolved, Rungs};
use weave_core::v2::types::Tally;
use weave_core::validate::WarningKind;

fn raw(name: &str, content: &str) -> RawEntity {
    RawEntity {
        name: name.to_string(),
        entity_type: "function".to_string(),
        parent: None,
        content: content.to_string(),
        src_id: format!("f::{name}"),
    }
}

fn ctx() -> ResolveCtx {
    ResolveCtx {
        marker_format: MarkerFormat::default(),
        indent_sensitive: true,
        guards: Guards::ladder_only(),
    }
}

type Version<'a> = &'a [(&'a str, &'a str)];

fn decided(base: Version, ours: Version, theirs: Version) -> (Analysis, Vec<Resolved>) {
    let read = |v: Version| v.iter().map(|(n, c)| raw(n, c)).collect::<Vec<_>>();
    let analysis = analyze(read(base), read(ours), read(theirs));
    let rungs: Vec<Rungs> = (0..analysis.len())
        .map(|i| {
            let (triple, cell) = analysis.at(i);
            let mut r = Rungs::refusing();
            if let Some(c) = contested(&analysis.matching.arena, triple, cell) {
                r.diff3 = c.line_merge();
            }
            r
        })
        .collect();
    let resolved = resolve_all(&analysis, &ctx(), &rungs);
    (analysis, resolved)
}

fn at<'a>(a: &Analysis, resolved: &'a [Resolved], name: &str) -> &'a Resolved {
    let i = (0..a.len())
        .find(|i| a.label(a.at(*i).0) == name)
        .expect("the name is there");
    &resolved[i]
}

fn plain_scopes(n: usize) -> Vec<Scopes> {
    (0..n)
        .map(|_| Scopes {
            is_container: false,
            base: None,
            out: None,
        })
        .collect()
}

const LOAD: &str = "def load(i):\n    step_one(i)\n    return step_two(i)\n";
const FETCH: &str = "def fetch(i):\n    step_one(i)\n    return step_two(i)\n";

#[test]
fn a_renamed_definition_takes_its_callers_along() {
    let use_load = "def use():\n    return load(2)\n";
    let (a, mut rs) = decided(
        &[("load", LOAD)],
        &[("fetch", FETCH)],
        &[("load", LOAD), ("use", use_load)],
    );
    let n = rename_repair(
        &a.matching.arena,
        &a.matching.triples,
        &a.cells,
        &mut rs,
        &ctx(),
    );
    assert_eq!(n, 1);
    assert_eq!(
        at(&a, &rs, "use").disposition.emitted(),
        Some("def use():\n    return fetch(2)\n")
    );
    assert_eq!(at(&a, &rs, "load").disposition.emitted(), Some(FETCH));
}

#[test]
fn a_repair_is_the_same_from_either_side() {
    let use_load = "def use():\n    return load(2)\n";
    let (a, mut rs) = decided(
        &[("load", LOAD)],
        &[("load", LOAD), ("use", use_load)],
        &[("fetch", FETCH)],
    );
    let n = bind_names(
        &a.matching.arena,
        &a.matching.triples,
        &a.cells,
        &mut rs,
        &ctx(),
    );
    assert_eq!(n, 1);
    assert_eq!(
        at(&a, &rs, "use").disposition.emitted(),
        Some("def use():\n    return fetch(2)\n")
    );
}

#[test]
fn a_deletion_is_refused_where_the_other_side_came_to_call() {
    let gone = "def gone():\n    return 1\n";
    let caller = "def caller():\n    return gone()\n";
    let (a, mut rs) = decided(&[("gone", gone)], &[], &[("gone", gone), ("caller", caller)]);
    assert!(at(&a, &rs, "gone").disposition.is_drop());
    delete_vs_new_caller(
        &a.matching.arena,
        &a.matching.triples,
        &a.cells,
        &mut rs,
        &ctx(),
    );
    let gone = at(&a, &rs, "gone");
    assert!(gone.disposition.is_conflict());
    assert_eq!(gone.tally, Tally::Conflicted);
    assert!(!at(&a, &rs, "caller").disposition.is_conflict());
}

#[test]
fn a_deletion_that_nobody_calls_stands() {
    let gone = "def gone():\n    return 1\n";
    let other = "def other():\n    return 2\n";
    let (a, mut rs) = decided(&[("gone", gone)], &[], &[("gone", gone), ("other", other)]);
    bind_names(
        &a.matching.arena,
        &a.matching.triples,
        &a.cells,
        &mut rs,
        &ctx(),
    );
    assert!(at(&a, &rs, "gone").disposition.is_drop());
    assert!(summarize(&rs).entities_conflicted == 0);
}

#[test]
fn an_addition_that_captures_the_other_side_s_call_is_refused() {
    let user = "def user():\n    return helper()\n";
    let helper = "def helper():\n    return 1\n";
    let (a, mut rs) = decided(&[], &[("helper", helper)], &[("user", user)]);
    shadowed_binding(
        &a.matching.arena,
        &a.matching.triples,
        &a.cells,
        &mut rs,
        &ctx(),
    );
    let conflicts = rs.iter().filter(|r| r.disposition.is_conflict()).count();
    assert_eq!(conflicts, 1);
}

#[test]
fn a_merge_that_leaves_a_local_unassigned_is_refused() {
    let base = "def f():\n    raw = load()\n    a()\n    b()\n    c()\n    return raw\n";
    let ours = "def f():\n    a()\n    b()\n    c()\n    return 1\n";
    let theirs = "def f():\n    raw = load()\n    a()\n    b(raw)\n    c()\n    return raw\n";
    let (a, mut rs) = decided(&[("f", base)], &[("f", ours)], &[("f", theirs)]);
    assert_eq!(
        rs[0].disposition.emitted(),
        Some("def f():\n    a()\n    b(raw)\n    c()\n    return 1\n")
    );
    let scopes = plain_scopes(rs.len());
    local_dangling(
        &a.matching.arena,
        &a.matching.triples,
        &a.cells,
        &scopes,
        &mut rs,
        &ctx(),
    );
    assert!(rs[0].disposition.is_conflict());
}

#[test]
fn a_member_that_lost_its_local_is_refused() {
    let base = "class f:\n    raw = load()\n    a()\n    b()\n    c()\n    return raw\n";
    let ours = "class f:\n    a()\n    b()\n    c()\n    return 1\n";
    let theirs = "class f:\n    raw = load()\n    a()\n    b(raw)\n    c()\n    return raw\n";
    let (a, mut rs) = decided(&[("f", base)], &[("f", ours)], &[("f", theirs)]);
    let key = ("m".to_string(), 0u32);
    let scopes = vec![Scopes {
        is_container: true,
        base: Some(vec![(key.clone(), "def m():\n    raw = load()\n    b(raw)\n".to_string())]),
        out: Some(vec![(key, "def m():\n    b(raw)\n".to_string())]),
    }];
    local_dangling(
        &a.matching.arena,
        &a.matching.triples,
        &a.cells,
        &scopes,
        &mut rs,
        &ctx(),
    );
    assert!(rs[0].disposition.is_conflict());
}

const BRAVO: &str = "def bravo():\n    prepare_the_payload()\n    value = compute_total()\n";
const CHARLIE: &str = "def charlie():\n    return settings_for_user()\n";

#[test]
fn a_body_that_moved_two_ways_is_refused() {
    let (a, mut rs) = decided(
        &[("bravo", BRAVO), ("charlie", CHARLIE)],
        &[
            ("bravo_a", "def bravo_a():\n    prepare_the_payload()\n"),
            ("bravo_b", "def bravo_b():\n    value = compute_total()\n"),
            ("charlie", CHARLIE),
        ],
        &[(
            "bravo_charlie",
            "def bravo_charlie():\n    prepare_the_payload()\n    value = compute_total()\n    return settings_for_user()\n",
        )],
    );
    assert!(!a.matching.relational.is_empty());
    rehome_duplication(
        &a.matching.arena,
        &a.matching.triples,
        &a.cells,
        &a.matching.relational,
        &mut rs,
        &ctx(),
    );
    assert!(rs.iter().any(|r| r.disposition.is_conflict()));
}

#[test]
fn an_edit_lands_in_the_helper_the_line_moved_to() {
    let helper = "def helper():\n    prepare_the_payload()\n";
    let ours = "def bravo():\n    helper()\n    value = compute_total()\n";
    let theirs = "def bravo():\n    prepare_the_payload(now)\n    value = compute_total()\n";
    let (a, mut rs) = decided(
        &[("bravo", BRAVO)],
        &[("helper", helper), ("bravo", ours)],
        &[("bravo", theirs)],
    );
    extracted_edit_landing(
        &a.matching.arena,
        &a.matching.triples,
        &a.cells,
        &a.matching.relational,
        &mut rs,
        &ctx(),
    );
    assert_eq!(
        at(&a, &rs, "helper").disposition.emitted(),
        Some("def helper():\n    prepare_the_payload(now)\n")
    );
    assert_eq!(at(&a, &rs, "bravo").disposition.emitted(), Some(ours));
}

#[test]
fn two_extractions_of_one_line_are_a_conflict() {
    let (a, mut rs) = decided(
        &[("bravo", BRAVO)],
        &[
            ("left", "def left():\n    prepare_the_payload()\n"),
            ("bravo", "def bravo():\n    left()\n    value = compute_total()\n"),
        ],
        &[
            ("right", "def right():\n    prepare_the_payload()\n"),
            ("bravo", "def bravo():\n    right()\n    value = compute_total()\n"),
        ],
    );
    let boxed = contested_extraction(
        &a.matching.arena,
        &a.matching.triples,
        &a.cells,
        &a.matching.relational,
        &mut rs,
        &ctx(),
    );
    assert!(at(&a, &rs, "bravo").disposition.is_conflict());
    let named: Vec<String> = (0..a.len())
        .filter(|i| boxed[*i])
        .map(|i| a.label(a.at(i).0))
        .collect();
    assert_eq!(named, vec!["bravo".to_string()]);
}

#[test]
fn a_license_resolves_a_conflict_and_says_so() {
    let base = "def f():\n    pass\n";
    let ours = "def f():\n    a = 1\n";
    let theirs = "def f():\n    b = 2\n";
    let (a, mut rs) = decided(&[("f", base)], &[("f", ours)], &[("f", theirs)]);
    assert!(rs[0].disposition.is_conflict());
    let both = "def f():\n    a = 1\n    b = 2\n";
    let attempts = vec![Some(Attempt {
        merged: InnerMergeResult {
            content: both.to_string(),
            has_conflicts: false,
        },
        evidence: vec![LicensedGap {
            ours_binds: vec!["a".to_string()],
            theirs_binds: vec!["b".to_string()],
        }],
    })];
    let findings = footprint_license(
        &a.matching.arena,
        &a.matching.triples,
        &a.cells,
        &attempts,
        &vec![false],
        &mut rs,
        "m.py",
        &ctx(),
    );
    assert_eq!(rs[0].disposition.emitted(), Some(both));
    assert_eq!(rs[0].tally, Tally::BothMerged);
    assert!(matches!(rs[0].strategy, ResolutionStrategy::FootprintLicensed));
    assert_eq!(findings.len(), 1);
    assert!(matches!(
        &findings[0].kind,
        WarningKind::CompositionLicensed { ours_binds, .. } if ours_binds == &vec!["a".to_string()]
    ));
}

#[test]
fn a_license_without_evidence_resolves_nothing() {
    let (a, mut rs) = decided(
        &[("f", "def f():\n    pass\n")],
        &[("f", "def f():\n    a = 1\n")],
        &[("f", "def f():\n    b = 2\n")],
    );
    let attempts = vec![Some(Attempt {
        merged: InnerMergeResult {
            content: "x".to_string(),
            has_conflicts: false,
        },
        evidence: vec![],
    })];
    let findings = footprint_license(
        &a.matching.arena,
        &a.matching.triples,
        &a.cells,
        &attempts,
        &vec![false],
        &mut rs,
        "m.py",
        &ctx(),
    );
    assert!(findings.is_empty());
    assert!(rs[0].disposition.is_conflict());
}

#[test]
fn a_rename_against_an_edit_is_a_conflict_that_keeps_both_names() {
    let (_, rs) = decided(
        &[("load", LOAD)],
        &[("fetch", FETCH)],
        &[(
            "load",
            "def load(i):\n    step_one(i)\n    audit(i)\n    return step_two(i)\n",
        )],
    );
    assert_eq!(rs.len(), 1);
    assert!(rs[0].disposition.is_conflict());
    assert_eq!(rs[0].tally, Tally::Conflicted);
    match &rs[0].disposition {
        weave_core::v2::types::Disposition::Conflict { conflict, .. } => assert_eq!(
            conflict.kind,
            ConflictKind::RenameModify {
                old_name: "load".to_string(),
                new_name: "fetch".to_string(),
                renamed_in_ours: true,
            }
        ),
        other => panic!("{other:?}"),
    }
}

fn licensed(content: &str) -> Attempt {
    Attempt {
        merged: InnerMergeResult {
            content: content.to_string(),
            has_conflicts: false,
        },
        evidence: vec![LicensedGap {
            ours_binds: vec!["a".to_string()],
            theirs_binds: vec!["b".to_string()],
        }],
    }
}

#[test]
fn a_contested_body_is_not_licensed() {
    let (a, mut rs) = decided(
        &[("bravo", BRAVO)],
        &[
            ("left", "def left():\n    prepare_the_payload()\n"),
            ("bravo", "def bravo():\n    left()\n    value = compute_total()\n"),
        ],
        &[
            ("right", "def right():\n    prepare_the_payload()\n"),
            ("bravo", "def bravo():\n    right()\n    value = compute_total()\n"),
        ],
    );
    let attempts = (0..a.len())
        .map(|i| (a.label(a.at(i).0) == "bravo").then_some(licensed("def bravo(): both\n")))
        .collect();
    let findings = bind_scopes(
        &a.matching.arena,
        &a.matching.triples,
        &a.cells,
        &a.matching.relational,
        &plain_scopes(a.len()),
        &attempts,
        &mut rs,
        "m.py",
        &ctx(),
    );
    assert!(findings.is_empty());
    assert!(at(&a, &rs, "bravo").disposition.is_conflict());
    assert!(summarize(&rs).entities_conflicted > 0);
}

#[test]
fn a_license_does_not_touch_what_is_boxed() {
    let (a, mut rs) = decided(
        &[("f", "def f():\n    pass\n")],
        &[("f", "def f():\n    a = 1\n")],
        &[("f", "def f():\n    b = 2\n")],
    );
    let findings = footprint_license(
        &a.matching.arena,
        &a.matching.triples,
        &a.cells,
        &vec![Some(licensed("x"))],
        &vec![true],
        &mut rs,
        "m.py",
        &ctx(),
    );
    assert!(findings.is_empty());
    assert!(rs[0].disposition.is_conflict());
}

#[test]
fn a_reader_is_asked_about_the_texts_of_a_triple() {
    let base = "def f():\n    pass\n";
    let ours = "def f():\n    a = 1\n";
    let (a, rs) = decided(&[("f", base)], &[("f", ours)], &[("f", base)]);
    let (triple, _) = a.at(0);
    let q = license_question(&a.matching.arena, triple).expect("every version has f");
    assert_eq!((q.base.as_str(), q.ours.as_str(), q.theirs.as_str()), (base, ours, base));
    assert_eq!((q.name.as_str(), q.entity_type.as_str()), ("f", "function"));
    assert_eq!(q.line_merge().as_deref(), Some(ours));
    let s = scope_question(&a.matching.arena, triple, &rs[0]).expect("base has f");
    assert_eq!((s.entity_type.as_str(), s.base.as_str()), ("function", base));
    assert_eq!(s.out.as_deref(), Some(ours));
    let (a, rs) = decided(&[], &[("f", base)], &[]);
    let (triple, _) = a.at(0);
    assert!(license_question(&a.matching.arena, triple).is_none());
    assert!(scope_question(&a.matching.arena, triple, &rs[0]).is_none());
}

#[test]
fn a_line_merge_joins_separate_edits_and_refuses_one_line_twice() {
    let base = "def f():\n    a\n    b\n    c\n";
    let (a, _) = decided(
        &[("f", base)],
        &[("f", "def f():\n    a1\n    b\n    c\n")],
        &[("f", "def f():\n    a\n    b\n    c1\n")],
    );
    let (triple, cell) = a.at(0);
    let c = contested(&a.matching.arena, triple, cell).expect("both changed f");
    assert_eq!(
        c.line_merge().as_deref(),
        Some("def f():\n    a1\n    b\n    c1\n")
    );
    let (a, _) = decided(
        &[("f", base)],
        &[("f", "def f():\n    a1\n    b\n    c\n")],
        &[("f", "def f():\n    a2\n    b\n    c\n")],
    );
    let (triple, cell) = a.at(0);
    let c = contested(&a.matching.arena, triple, cell).expect("both changed f");
    assert!(c.line_merge().is_none());
}
