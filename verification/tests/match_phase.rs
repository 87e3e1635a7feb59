use weave_core::v2::match_phase::{
    build_arena, erase_lifetimes, match_phase, name_the_unnameable, RawEntity,
};
use weave_core::v2::types::{Link, Matching, Relational, Side};

fn raw(name: &str, content: &str) -> RawEntity {
    RawEntity {
        name: name.to_string(),
        entity_type: "function".to_string(),
        parent: None,
        content: content.to_string(),
        src_id: format!("f::{name}"),
    }
}

fn run(b: Vec<RawEntity>, o: Vec<RawEntity>, t: Vec<RawEntity>) -> Matching {
    let (arena, claims) = build_arena(b, o, t);
    match_phase(arena, claims)
}

#[test]
fn identity_pairs_and_partitions_totally() {
    let m = run(
        vec![raw("a", "def a():\n    return 1\n")],
        vec![raw("a", "def a():\n    return 2\n")],
        vec![raw("a", "def a():\n    return 1\n")],
    );
    assert!(m.is_total_partition());
    assert_eq!(m.triples.len(), 1);
}

#[test]
fn equal_body_under_a_new_name_is_a_rename() {
    let body = "    for x in items():\n        handle(x)\n    return done()\n";
    let m = run(
        vec![raw("alpha", &format!("def alpha():\n{body}"))],
        vec![raw("alpha_v2", &format!("def alpha_v2():\n{body}"))],
        vec![raw("alpha", &format!("def alpha():\n{body}"))],
    );
    assert_eq!(m.triples.len(), 1);
    assert!(m.triples[0].evidence.ours_link.is_rename());
}

#[test]
fn a_flood_of_identical_bodies_pairs_deterministically_without_a_cap() {
    let body = "    return handle(payload)\n";
    let base: Vec<RawEntity> = (0..400)
        .map(|i| raw(&format!("h{i:03}"), &format!("def h{i:03}():\n{body}")))
        .collect();
    let ours: Vec<RawEntity> = (0..400)
        .map(|i| raw(&format!("g{i:03}"), &format!("def g{i:03}():\n{body}")))
        .collect();
    let theirs: Vec<RawEntity> = (0..400)
        .map(|i| raw(&format!("h{i:03}"), &format!("def h{i:03}():\n{body}")))
        .collect();
    let start = std::time::Instant::now();
    let m = run(base, ours, theirs);
    assert!(
        start.elapsed().as_millis() < 2000,
        "matching went quadratic: {:?}",
        start.elapsed()
    );
    assert!(m.is_total_partition());
    assert_eq!(
        m.triples.len(),
        400,
        "every base entity paired exactly once"
    );
}

#[test]
fn rename_plus_edit_is_carried_by_moved_call_sites() {
    let m = run(
        vec![
            raw("tiny", "def tiny():\n    return 1\n"),
            raw("caller", "def caller():\n    return tiny()\n"),
        ],
        vec![
            raw("tiny_v2", "def tiny_v2():\n    validated()\n    return 2\n"),
            raw("caller", "def caller():\n    return tiny_v2()\n"),
        ],
        vec![
            raw("tiny", "def tiny():\n    return 1\n"),
            raw("caller", "def caller():\n    return tiny()\n"),
        ],
    );
    let renamed = m
        .triples
        .iter()
        .find(|t| t.base.is_some() && m.arena.get(t.base_idx().unwrap()).name() == "tiny")
        .expect("tiny triple");
    assert!(
        renamed.evidence.ours_link.is_rename(),
        "rename+edit on a tiny body was not recovered: {:?}",
        renamed.evidence
    );
}

#[test]
fn split_and_absorb_are_recorded_as_rehomes() {
    let base = vec![
        raw(
            "bravo",
            "def bravo():\n    prepare_the_payload()\n    value = compute_total()\n",
        ),
        raw(
            "charlie",
            "def charlie():\n    return settings_for_user()\n",
        ),
    ];
    let ours = vec![
        raw("bravo_a", "def bravo_a():\n    prepare_the_payload()\n"),
        raw("bravo_b", "def bravo_b():\n    value = compute_total()\n"),
        raw(
            "charlie",
            "def charlie():\n    return settings_for_user()\n",
        ),
    ];
    let theirs = vec![raw(
        "bravo_charlie",
        "def bravo_charlie():\n    prepare_the_payload()\n    value = compute_total()\n    return settings_for_user()\n",
    )];
    let m = run(base, ours, theirs);
    assert!(
        !m.relational.is_empty(),
        "no re-home evidence recorded for a split+absorb"
    );
}

#[test]
fn an_extraction_that_leaves_the_source_alive_is_recorded() {
    let base = vec![raw(
        "bravo",
        "def bravo():\n    prepare_the_payload()\n    value = compute_total()\n",
    )];
    let ours = vec![
        raw("helper", "def helper():\n    prepare_the_payload()\n"),
        raw(
            "bravo",
            "def bravo():\n    helper()\n    value = compute_total()\n",
        ),
    ];
    let theirs = base
        .iter()
        .map(|r| raw(&r.name, &r.content))
        .collect::<Vec<_>>();
    let m = run(base, ours, theirs);
    let found = m.relational.iter().find_map(|r| match r {
        Relational::ExtractedInto {
            side,
            moved,
            extracted,
            ..
        } => Some((*side, moved.clone(), extracted.len())),
        _ => None,
    });
    let (side, moved, homes) = found.expect("no extraction evidence recorded");
    assert_eq!(side, Side::Ours);
    assert_eq!(moved, vec!["prepare_the_payload()".to_string()]);
    assert_eq!(homes, 1);
}

#[test]
fn an_unrelated_addition_is_not_an_extraction() {
    let base = vec![raw(
        "bravo",
        "def bravo():\n    prepare_the_payload()\n    value = compute_total()\n",
    )];
    let ours = vec![
        raw(
            "bravo",
            "def bravo():\n    prepare_the_payload()\n    value = compute_total()\n",
        ),
        raw("newcomer", "def newcomer():\n    return something_else()\n"),
    ];
    let theirs = base
        .iter()
        .map(|r| raw(&r.name, &r.content))
        .collect::<Vec<_>>();
    let m = run(base, ours, theirs);
    assert!(
        !m.relational
            .iter()
            .any(|r| matches!(r, Relational::ExtractedInto { .. })),
        "fabricated an extraction: {:?}",
        m.relational
    );
}

#[test]
fn lifetimes_are_no_part_of_a_name() {
    assert_eq!(erase_lifetimes("InferenceContext<'a, 'db>"), "InferenceContext");
    assert_eq!(erase_lifetimes("Map<'a, K>"), "Map<K>");
    assert_eq!(erase_lifetimes("Map<K>"), "Map<K>");
}

#[test]
fn an_anonymous_item_goes_by_its_text() {
    let a = name_the_unnameable("_", "const _: () = assert!(A);\n");
    let b = name_the_unnameable("_", "const _: () = assert!(B);\n");
    assert!(a.starts_with("_#") && a.len() == 18);
    assert_ne!(a, b);
    assert_eq!(a, name_the_unnameable("_", "  const _: () = assert!(A);"));
    assert_eq!(name_the_unnameable("f", "x"), "f");
}

#[test]
fn same_named_siblings_are_told_apart_by_their_place() {
    let m = run(
        vec![raw("x", "def x(): 1\n"), raw("x", "def x(): 2\n")],
        vec![raw("x", "def x(): 1\n"), raw("x", "def x(): 2\n")],
        vec![raw("x", "def x(): 1\n"), raw("x", "def x(): 2\n")],
    );
    assert!(m.is_total_partition());
    assert_eq!(m.triples.len(), 2);
    let ordinals: Vec<u32> = m
        .triples
        .iter()
        .map(|t| m.arena.get(t.representative()).key.ordinal)
        .collect();
    assert_eq!(ordinals, vec![0, 1]);
    assert_eq!(m.triples[0].evidence.ours_link, Link::Identity);
}
