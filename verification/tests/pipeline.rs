use weave_core::conflict::{ConflictComplexity, ConflictKind, EntityConflict, MarkerFormat};
use weave_core::entity::SemanticEntity;
use weave_core::explain::{explain, Repair};
use weave_core::grammar::{has_grammar, is_structural, parse};
use weave_core::json_layout::{is_laid_out, is_quiet};
use weave_core::merge::{Guards, MergeResult};
use weave_core::region::{FileRegion, MergedGap};
use weave_core::v2::bind::Scopes;
use weave_core::v2::encoding::normalize_encoding;
use weave_core::v2::file::{analyze_default, merge_file, read_version, Cut};
use weave_core::v2::pipeline::{
    check_supported, decorators_compose, indent_sensitive, Analysis, Leaves, Unsupported,
    VersionFacts,
};
use weave_core::v2::resolve::Rungs;
use weave_core::v2::types::Cell;

fn cut(text: &str, path: &str) -> Cut {
    let all = parse(text, path).unwrap_or_default();
    let top: Vec<usize> = (0..all.len())
        .filter(|i| all[*i].parent_id.is_none())
        .collect();
    let entities: Vec<SemanticEntity> = top.iter().map(|i| all[*i].clone()).collect();
    Cut {
        top,
        regions: regions(text, &entities),
        crowded: false,
    }
}

fn regions(content: &str, entities: &[SemanticEntity]) -> Vec<FileRegion> {
    let lines: Vec<&str> = content.split_inclusive('\n').collect();
    let gap = |key: String, from: usize, to: usize| FileRegion::Interstitial {
        position_key: key,
        content: lines[from..to].concat(),
    };
    if entities.is_empty() {
        return vec![gap("file_only".to_string(), 0, lines.len())];
    }
    let mut out = vec![];
    let mut at = 0;
    for (i, e) in entities.iter().enumerate() {
        let key = if i == 0 {
            "file_header".to_string()
        } else {
            format!("between:{}:{}", entities[i - 1].id, e.id)
        };
        out.push(gap(key, at, e.start_line - 1));
        out.push(FileRegion::Entity {
            entity_id: e.id.clone(),
            content: lines[e.start_line - 1..e.end_line].concat(),
        });
        at = e.end_line;
    }
    out.push(gap("file_footer".to_string(), at, lines.len()));
    out
}

fn gap_under(list: &[FileRegion], key: &str) -> Option<String> {
    list.iter().find_map(|r| match r {
        FileRegion::Interstitial {
            position_key,
            content,
        } if position_key == key => Some(content.clone()),
        _ => None,
    })
}

fn between(all: [&Vec<FileRegion>; 3]) -> (Vec<MergedGap>, Vec<EntityConflict>) {
    let mut keys: Vec<String> = vec![];
    for r in all.iter().flat_map(|v| v.iter()) {
        if let FileRegion::Interstitial { position_key, .. } = r {
            if !keys.contains(position_key) {
                keys.push(position_key.clone());
            }
        }
    }
    let text = |side: usize, key: &str| {
        gap_under(all[side], key)
            .or_else(|| match key {
                "file_footer" => gap_under(all[side], "file_only"),
                _ => None,
            })
            .unwrap_or_default()
    };
    let mut merged = vec![];
    let mut conflicts = vec![];
    for key in keys {
        let (b, o, t) = (text(0, &key), text(1, &key), text(2, &key));
        let chosen = if o == t || b == t {
            o
        } else if b == o {
            t
        } else {
            conflicts.push(EntityConflict {
                entity_name: key.clone(),
                entity_type: "interstitial".to_string(),
                kind: ConflictKind::BothModified,
                complexity: ConflictComplexity::Unknown,
                ours_content: Some(o.clone()),
                theirs_content: Some(t),
                base_content: Some(b),
            });
            o
        };
        merged.push(MergedGap { key, text: chosen });
    }
    (merged, conflicts)
}

fn answers(analysis: &Analysis) -> Leaves {
    let mut leaves = Leaves {
        rungs: vec![],
        scopes: vec![],
        attempts: vec![],
    };
    for _ in 0..analysis.len() {
        leaves.rungs.push(Rungs::refusing());
        leaves.scopes.push(Scopes {
            is_container: false,
            base: None,
            out: None,
        });
        leaves.attempts.push(None);
    }
    leaves
}

fn merged(base: &str, ours: &str, theirs: &str, path: &str) -> Result<MergeResult, Unsupported> {
    let [b, o, t] = [base, ours, theirs].map(|text| cut(&normalize_encoding(text), path));
    let leaves = match analyze_default(base, ours, theirs, path, &b, &o, &t) {
        Some(analysis) => answers(&analysis),
        None => Leaves {
            rungs: vec![],
            scopes: vec![],
            attempts: vec![],
        },
    };
    let (gaps, gap_conflicts) = between([&b.regions, &o.regions, &t.regions]);
    merge_file(
        base,
        ours,
        theirs,
        path,
        b,
        o,
        t,
        leaves,
        gaps,
        gap_conflicts,
        MarkerFormat::default().for_file(path),
        Guards::ladder_only(),
    )
    .expect("one answer for each triple")
}

#[test]
fn the_summary_cannot_disagree_with_the_decisions_it_summarises() {
    let cases: [(&str, &str, &str); 4] = [
        (
            "def a():\n    return 1\n",
            "def a():\n    return 2\n",
            "def a():\n    return 3\n",
        ),
        (
            "def load(i):\n    return i\n\n\ndef use():\n    return load(1)\n",
            "def fetch(i):\n    return i\n\n\ndef use():\n    return load(1)\n",
            "def load(i):\n    return i\n\n\ndef use():\n    return load(2)\n",
        ),
        (
            "def gone():\n    return 1\n",
            "",
            "def gone():\n    return 1\n\n\ndef caller():\n    return gone()\n",
        ),
        (
            "def keep():\n    return 1\n",
            "def keep():\n    return 1\n\n\ndef helper():\n    return 9\n",
            "def keep():\n    return 1\n\n\ndef other():\n    return helper()\n",
        ),
    ];
    for (base, ours, theirs) in cases {
        let Ok(r) = merged(base, ours, theirs, "m.py") else {
            continue;
        };
        let s = &r.stats;
        let counted = s.entities_unchanged
            + s.entities_ours_only
            + s.entities_theirs_only
            + s.entities_both_changed_merged
            + s.entities_added_ours
            + s.entities_added_theirs
            + s.entities_deleted
            + s.entities_conflicted;
        assert_eq!(
            counted,
            r.audit.len(),
            "every entity is counted exactly once\nbase: {base:?}\nstats: {s:?}"
        );
        assert_eq!(
            s.has_conflicts(),
            !r.is_clean(),
            "the counter and the typed conflicts disagree\nbase: {base:?}"
        );
    }
}

#[test]
fn shared_top_level_text_survives_when_one_side_deletes_every_entity() {
    let base = "def foo():\n    return 1\n\n\ndef bar():\n    return 1\n\n\nshared = 5\n";
    let ours = "shared = 5\n";
    let theirs = "def foo():\n    return 1\n\n\ndef bar():\n    return 2\n\n\nshared = 5\n";

    let result = merged(base, ours, theirs, "m.py")
        .expect("theirs still has entities; this must not fall back to Unsupported");

    assert!(
        result.content.contains("shared = 5"),
        "top-level statement unanimous across base/ours/theirs must survive \
         the merge, got: {:?}",
        result.content,
    );
}

const BASE: &str = "def a():\n    x = 1\n    return x\n\ndef b():\n    return 2\n";

#[test]
fn only_hunks_both_sides_wrote_in_are_counted() {
    let ours = "def a():\n    x = 11\n    return x\n\ndef b():\n    return 22\n";
    let theirs = "def a():\n    x = 33\n    return x\n\ndef b():\n    return 2\n";
    let r = merged(BASE, ours, theirs, "m.py").expect("python has a grammar");
    let e = explain(&r, "m.py", &Guards::ladder_only());
    assert!(!e.clean);
    assert_eq!(e.conflicts.len(), 1, "{e:#?}");
    let c = &e.conflicts[0];
    assert_eq!(c.entity, "a");
    assert_eq!(c.contested_hunks, 1, "{c:#?}");
    assert_eq!(c.hunks[0].collision, vec!["    x = 1".to_string()]);
}

#[test]
fn a_clean_merge_explains_itself_in_a_sentence_and_never_an_empty_list() {
    let ours = "def a():\n    x = 11\n    return x\n\ndef b():\n    return 2\n";
    let theirs = "def a():\n    x = 1\n    return x\n\ndef b():\n    return 22\n";
    let m = merged(BASE, ours, theirs, "m.py").expect("python has a grammar");
    assert_eq!(
        m.content,
        "def a():\n    x = 11\n    return x\n\ndef b():\n    return 22\n"
    );
    let e = explain(&m, "m.py", &Guards::ladder_only());
    assert!(e.clean, "{e:#?}");
    let r = e.render();
    assert!(r.contains("CLEAN"), "{r}");
    assert!(!r.trim().is_empty());
}

#[test]
fn the_guard_named_here_is_the_guard_the_marker_prints() {
    let ours = "def a():\n    x = 11\n    return x\n\ndef b():\n    return 2\n";
    let theirs = "def a():\n    x = 33\n    return x\n\ndef b():\n    return 2\n";
    let m = merged(BASE, ours, theirs, "m.py").expect("python has a grammar");
    let e = explain(&m, "m.py", &Guards::ladder_only());
    let guard = &e.conflicts[0].refused_by;
    assert!(
        m.content.contains(&format!("refused_by: {guard}")),
        "explain says {guard}, artifact says:\n{}",
        m.content
    );
}

#[test]
fn a_rename_carries_a_derivable_repair() {
    let base = "def fetch():\n    return 1\n";
    let ours = "def get():\n    return 1\n";
    let theirs = "def fetch():\n    return 99\n";
    let m = merged(base, ours, theirs, "m.py").expect("python has a grammar");
    let e = explain(&m, "m.py", &Guards::ladder_only());
    let repair = e.conflicts.iter().find_map(|c| c.repair.clone());
    assert!(
        matches!(&repair, Some(Repair::Rename { from, to }) if from == "fetch" && to == "get"),
        "{e:#?}"
    );
}

#[test]
fn a_call_follows_the_definition_the_other_side_renamed() {
    let base = "def load(i):\n    step_one(i)\n    return step_two(i)\n\n\ndef use():\n    return load(1)\n";
    let ours = "def fetch(i):\n    step_one(i)\n    return step_two(i)\n\n\ndef use():\n    return fetch(1)\n";
    let theirs = "def load(i):\n    step_one(i)\n    return step_two(i)\n\n\ndef use():\n    return load(1)\n\n\ndef more():\n    return load(2)\n";
    let m = merged(base, ours, theirs, "m.py").expect("python has a grammar");
    assert!(m.is_clean(), "{:?}", m.conflicts);
    assert!(m.content.contains("return fetch(2)"), "{}", m.content);
    assert_eq!(m.stats.references_rewritten, 1);
}

#[test]
fn deleting_what_the_other_side_came_to_call_is_a_conflict() {
    let base = "def gone():\n    return 1\n\n\ndef keep():\n    return 2\n";
    let ours = "def keep():\n    return 2\n";
    let theirs = "def gone():\n    return 1\n\n\ndef keep():\n    return 2\n\n\ndef caller():\n    return gone()\n";
    let m = merged(base, ours, theirs, "m.py").expect("python has a grammar");
    assert!(!m.is_clean());
    assert_eq!(m.conflicts[0].entity_name, "gone");
    assert!(m.stats.has_conflicts());
}

#[test]
fn an_encoding_the_three_share_comes_back() {
    let crlf = |s: &str| s.replace('\n', "\r\n");
    let ours = "def a():\n    x = 11\n    return x\n\ndef b():\n    return 2\n";
    let m = merged(&crlf(BASE), &crlf(ours), &crlf(BASE), "m.py").expect("python has a grammar");
    assert_eq!(m.content, crlf(ours));
}

#[test]
fn each_reason_to_hand_a_file_back_is_named() {
    let some = VersionFacts {
        is_blank: false,
        has_entities: true,
        has_excessive_duplicates: false,
    };
    let blank = VersionFacts {
        is_blank: true,
        has_entities: false,
        has_excessive_duplicates: false,
    };
    let prose = VersionFacts {
        has_entities: false,
        ..some
    };
    let crowded = VersionFacts {
        has_excessive_duplicates: true,
        ..some
    };
    assert_eq!(check_supported(true, some, some, some), Ok(()));
    assert_eq!(
        check_supported(false, some, some, some),
        Err(Unsupported::NoGrammar)
    );
    assert_eq!(
        check_supported(true, blank, some, some),
        Err(Unsupported::BothCreated)
    );
    assert_eq!(
        check_supported(true, prose, some, some),
        Err(Unsupported::NoEntities)
    );
    assert_eq!(
        check_supported(true, some, prose, prose),
        Err(Unsupported::NoEntities)
    );
    assert_eq!(
        check_supported(true, some, some, crowded),
        Err(Unsupported::AmbiguousIdentity)
    );
    assert_eq!(
        merged("", "a\n", "b\n", "m.py").map(|m| m.content),
        Err(Unsupported::BothCreated)
    );
}

#[test]
fn a_grammar_is_found_by_the_path() {
    assert!(has_grammar("m.py"));
    assert!(!has_grammar("notes.unheard-of"));
    assert!(!is_structural(Some("fallback")));
    assert!(!is_structural(None));
    assert!(is_structural(Some("python")));
    let found = parse(BASE, "m.py").expect("python has a grammar");
    let names: Vec<&str> = found.iter().map(|e| e.name.as_str()).collect();
    assert!(names.contains(&"a") && names.contains(&"b"), "{names:?}");
    assert!(parse(BASE, "notes.unheard-of").is_none());
}

#[test]
fn the_path_says_what_the_language_does() {
    assert!(indent_sensitive("A.PY") && indent_sensitive("c.yaml"));
    assert!(!indent_sensitive("a.rs"));
    assert!(decorators_compose("a.tsx"));
    assert!(!decorators_compose("A.java"));
}

#[test]
fn a_version_is_read_with_the_text_of_its_regions() {
    let text = "import os\n\ndef a():\n    return 1\n";
    let v = read_version(text, "m.py", &cut(text, "m.py")).expect("python has a grammar");
    let a = v.iter().find(|r| r.name == "a").expect("a is there");
    assert_eq!(a.content, "def a():\n    return 1\n");
    assert_eq!(a.entity_type, "function");
    assert!(read_version(text, "notes.unheard-of", &cut(text, "m.py")).is_none());
}

#[test]
fn an_analysis_stops_at_the_cases() {
    let ours = "def a():\n    x = 11\n    return x\n\ndef b():\n    return 2\n";
    let a = analyze_default(
        BASE,
        ours,
        BASE,
        "m.py",
        &cut(BASE, "m.py"),
        &cut(ours, "m.py"),
        &cut(BASE, "m.py"),
    )
    .expect("python has a grammar");
    assert!(a.matching.is_total_partition());
    let named: Vec<(String, Cell)> = (0..a.len())
        .map(|i| (a.label(a.at(i).0), a.at(i).1))
        .collect();
    assert_eq!(
        named,
        vec![
            (
                "a".to_string(),
                Cell::EditOneSide {
                    editor: weave_core::v2::types::Side::Ours
                }
            ),
            ("b".to_string(), Cell::UnchangedBoth),
        ]
    );
}

#[test]
fn answers_that_do_not_fit_are_not_merged() {
    let none = Leaves {
        rungs: vec![],
        scopes: vec![],
        attempts: vec![],
    };
    let c = || cut(BASE, "m.py");
    let r = merge_file(
        BASE,
        BASE,
        BASE,
        "m.py",
        c(),
        c(),
        c(),
        none,
        vec![],
        vec![],
        MarkerFormat::default(),
        Guards::ladder_only(),
    );
    assert!(r.is_none());
}

#[test]
fn a_file_without_a_grammar_is_handed_back() {
    assert_eq!(
        merged("a\n", "b\n", "c\n", "notes.unheard-of").map(|m| m.content),
        Err(Unsupported::NoGrammar)
    );
}

#[test]
fn two_functions_added_to_one_place_both_stay() {
    let base = "def head():\n    return 0\n";
    let ours = "def head():\n    return 0\n\n\ndef check_token(t):\n    return t\n";
    let theirs = "def head():\n    return 0\n\n\ndef format_date(d):\n    return d\n";
    let m = merged(base, ours, theirs, "m.py").expect("python has a grammar");
    assert!(m.is_clean());
    assert!(m.content.contains("def check_token(t):\n    return t\n"));
    assert!(m.content.contains("def format_date(d):\n    return d\n"));
    let n = merged(base, theirs, ours, "m.py").expect("python has a grammar");
    assert_eq!(m.content, n.content);
}

#[test]
fn a_function_modified_here_and_deleted_there_is_a_conflict() {
    let base = "def keep():\n    return 0\n\n\ndef check_token(t):\n    return t\n";
    let ours = "def keep():\n    return 0\n\n\ndef check_token(t):\n    return t + 1\n";
    let theirs = "def keep():\n    return 0\n";
    let m = merged(base, ours, theirs, "m.py").expect("python has a grammar");
    assert_eq!(m.conflicts.len(), 1);
    assert_eq!(
        m.conflicts[0].kind.to_text(),
        "modified in ours, deleted in theirs"
    );
}

#[test]
fn different_keys_of_one_object_both_change() {
    let base = "{\n  \"a\": 1,\n  \"b\": 2,\n  \"c\": 3\n}\n";
    let ours = "{\n  \"a\": 10,\n  \"b\": 2,\n  \"c\": 3\n}\n";
    let theirs = "{\n  \"a\": 1,\n  \"b\": 2,\n  \"c\": 30\n}\n";
    let m = merged(base, ours, theirs, "m.json").expect("json has a grammar");
    assert!(m.is_clean());
    assert_eq!(m.content, "{\n  \"a\": 10,\n  \"b\": 2,\n  \"c\": 30\n}\n");
}

#[test]
fn json_that_closes_an_object_in_the_middle_of_a_line_is_not_read() {
    let loose = "{ \"a\": {\n}\n, \"b\": 1 }\n";
    let tidy = "{\n  \"a\": {\n    \"c\": 1\n  },\n  \"b\": 1\n}\n";
    assert!(parse(loose, "m.json").is_none());
    let chars = |s: &str| s.chars().collect::<Vec<char>>();
    assert!(!is_laid_out(&chars(loose)));
    assert!(is_laid_out(&chars(tidy)));
    let names: Vec<String> = parse(tidy, "m.json")
        .expect("json has a grammar")
        .into_iter()
        .map(|e| e.name)
        .collect();
    assert!(names.iter().any(|n| n == "a") && names.iter().any(|n| n == "b"), "{names:?}");
    assert_eq!(
        merged(tidy, loose, tidy, "m.json").map(|m| m.content),
        Err(Unsupported::NoGrammar)
    );
}

#[test]
fn a_file_both_sides_created_is_named_before_it_is_read() {
    let loose = "{ \"a\": {\n}\n, \"b\": 1 }\n";
    assert_eq!(
        merged("", loose, "{\n  \"b\": 1\n}\n", "m.json").map(|m| m.content),
        Err(Unsupported::BothCreated)
    );
}

#[test]
fn templates_are_handed_back() {
    for path in ["page.erb", "page.html.erb", "page.vue", "page.svelte"] {
        assert!(parse("<p>1</p>\n", path).is_none(), "{path}");
        assert_eq!(
            merged("<p>1</p>\n", "<p>2</p>\n", "<p>3</p>\n", path).map(|m| m.content),
            Err(Unsupported::NoGrammar)
        );
    }
}

#[test]
fn a_summary_agrees_with_the_conflicts_it_reports() {
    let base = "def keep():\n    return 0\n\n\ndef f(t):\n    return t\n";
    let ours = "def keep():\n    return 0\n\n\ndef f(t):\n    return t + 1\n";
    let gone = "def keep():\n    return 0\n";
    for (theirs, conflicts) in [(gone, 1), (base, 0)] {
        let m = merged(base, ours, theirs, "m.py").expect("python has a grammar");
        assert_eq!(m.conflicts.len(), conflicts);
        assert_eq!(m.stats.entities_conflicted > 0, conflicts > 0);
    }
}

#[test]
fn two_edits_of_one_body_merge_by_their_lines() {
    let base = "def f():\n    a = 1\n    b = 2\n    c = 3\n";
    let ours = "def f():\n    a = 11\n    b = 2\n    c = 3\n";
    let theirs = "def f():\n    a = 1\n    b = 2\n    c = 33\n";
    let m = merged(base, ours, theirs, "m.py").expect("python has a grammar");
    assert!(m.is_clean());
    assert_eq!(m.content, "def f():\n    a = 11\n    b = 2\n    c = 33\n");
    assert_eq!(m.stats.resolved_via_diffy, 1);
}

#[test]
fn json_with_braces_in_its_strings_is_read() {
    let base = "{\n  \"scripts\": {\n    \"lint\": \"eslint \\\"src/**/*.{ts,tsx}\\\"\",\n    \"open\": \"echo {\"\n  },\n  \"match\": {\n    \"code\": \"^[a-z]{2,3}$\"\n  }\n}\n";
    let ours = base.replace("echo {", "echo }");
    let theirs = base.replace("{2,3}", "{2,4}");
    let m = merged(base, &ours, &theirs, "package.json").expect("json has a grammar");
    assert!(m.is_clean());
    assert_eq!(m.content, ours.replace("{2,3}", "{2,4}"));
}

#[test]
fn json_is_refused_only_where_an_entry_follows_a_lone_brace_inside() {
    let chars = |s: &str| s.chars().collect::<Vec<char>>();
    for text in [
        "{ \"a\": 1,\n  \"b\": 2 }\n",
        "{ \"a\": {\n  \"x\": 1 },\n  \"b\": 2 }\n",
        "{\"a\":\"{\",\"b\":{\"c\":1}}\n",
        "{\n  \"a\": [\n    { \"x\": 1 }\n  ],\n  \"b\": {\n    \"c\": 1\n  }\n}\n",
        "{ \"b\": 1, \"a\": {\n}\n}\n",
    ] {
        assert!(is_laid_out(&chars(text)) || is_quiet(&chars(text)), "{text}");
        assert!(parse(text, "m.json").is_some(), "{text}");
    }
    let inside = "{\n  \"q\": { \"a\": {\n  }\n  , \"b\": 1 }\n}\n";
    assert!(!is_laid_out(&chars(inside)));
    assert!(parse(inside, "m.json").is_none());
    let hidden = "{\n  \"x\": \"{\", \"y\": {\n    \"c\": {\n    }\n  },\n  \"z\": 1\n}\n";
    assert!(!is_laid_out(&chars(hidden)));
    let short = "{ \"x\": \"{\", \"y\": {\n  }\n}\n";
    assert!(!is_laid_out(&chars(short)) && is_quiet(&chars(short)));
    assert!(parse(short, "m.json").is_some());
    assert!(is_quiet(&chars("not json at all: {\n")));
    assert!(!is_quiet(&chars("{\n}\n: 1\n")));
}
