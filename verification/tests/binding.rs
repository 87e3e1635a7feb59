use weave_core::binding::{
    called_names, declared_name, footprint, footprints_disjoint, has_call_reference, has_definition,
    is_definition_line, replace_at_word_boundaries,
};

fn has(names: &[String], name: &str) -> bool {
    names.iter().any(|n| n == name)
}

#[test]
fn a_definition_line_is_not_a_call_site() {
    assert!(is_definition_line("def fetch_user(id):", "fetch_user"));
    assert!(is_definition_line(
        "    pub async fn fetch_user(id: u32) {",
        "fetch_user"
    ));
    assert!(!has_call_reference(
        "def fetch_user(id):\n    pass\n",
        "fetch_user"
    ));
}

#[test]
fn a_call_needs_a_word_boundary_and_an_open_paren() {
    assert!(has_call_reference("x = fetch_user(1)\n", "fetch_user"));
    assert!(!has_call_reference("x = fetch_user_id(1)\n", "fetch_user"));
    assert!(!has_call_reference("x = db.fetch_user(1)\n", "fetch_user"));
    assert!(!has_call_reference("x = 'fetch_user'\n", "fetch_user"));
}

#[test]
fn definers_survive_modifier_prefixes() {
    assert!(is_definition_line("export default class Foo {", "Foo"));
    assert!(!is_definition_line("export default class FooBar {", "Foo"));
}

#[test]
fn a_dollar_prefixed_identifier_is_its_own_name() {
    assert!(!has_call_reference("x = $fetch(1)\n", "fetch"));
    assert!(has_call_reference("x = $fetch(1)\n", "$fetch"));
    assert_eq!(
        replace_at_word_boundaries("$fetch(1); fetch(2)", "fetch", "grab"),
        "$fetch(1); grab(2)"
    );
}

#[test]
fn a_footprint_exists_only_where_the_effect_is_visible() {
    let fp = footprint("timeout = settings.timeout\n").expect("a declaration has one");
    assert!(has(&fp.defines, "timeout"));
    assert!(has(&fp.uses, "settings"));
    assert!(!has(&fp.uses, "timeout"), "a name is not its own use");

    let fp = footprint("def scale(v):\n    return v * factor\n").expect("a def has one");
    assert!(has(&fp.defines, "scale"));
    assert!(has(&fp.uses, "factor"));

    for opaque in [
        "flush()\n",                                // a call
        "return total\n",                           // control flow
        "if ready:\n    go()\n",                    // a branch
        "total += 1\n",                             // augmented assignment
        "self.cache[key] = v\n",                    // a field/index target
        "@register\ndef scale(v):\n    return v\n", // definition-time registration
        "",                                         // nothing bound at all
    ] {
        assert!(
            footprint(opaque).is_none(),
            "{opaque:?} should have no read/write set"
        );
    }
}

#[test]
fn disjoint_composition_is_symmetric_and_fails_on_either_edge() {
    let a = footprint("def scale(v):\n    return v * 2\n").unwrap();
    let b = footprint("def offset(v):\n    return v + 3\n").unwrap();
    assert!(footprints_disjoint(&a, &b));
    assert!(footprints_disjoint(&b, &a));

    let uses_a = footprint("def offset(v):\n    return scale(v) + 3\n").unwrap();
    assert!(!footprints_disjoint(&a, &uses_a));
    assert!(!footprints_disjoint(&uses_a, &a));

    let rival = footprint("def scale(v):\n    return v + 3\n").unwrap();
    assert!(!footprints_disjoint(&a, &rival));
}

#[test]
fn the_call_index_and_the_call_predicate_agree() {
    let text = "x = alpha(1)\ny = db.beta(2)\nz = 'gamma('\ndef delta():\n    delta_helper()\n";
    let indexed = called_names(text);
    for name in ["alpha", "beta", "gamma", "delta", "delta_helper"] {
        assert_eq!(
            has(&indexed, name),
            has_call_reference(text, name),
            "index and predicate disagree about {name}"
        );
    }
}

#[test]
fn a_name_that_only_prefixes_a_definition_is_not_defined() {
    assert!(has_definition("x = 1\nfn walk() {}\n", "walk"));
    assert!(!has_definition("fn walker() {}\n", "walk"));
    assert!(!has_definition("walk()\n", "walk"));
    assert!(!has_definition("fn walk() {}\n", ""));
}

#[test]
fn a_replacement_keeps_to_whole_words() {
    assert_eq!(
        replace_at_word_boundaries("a(b) ab(a)", "a", "xyz"),
        "xyz(b) ab(xyz)"
    );
    assert_eq!(replace_at_word_boundaries("ab", "", "z"), "ab");
}

#[test]
fn a_footprint_is_disjoint_from_itself_only_where_it_writes_nothing() {
    let a = footprint("limit = floor\n").unwrap();
    let b = footprint("width = 4\n").unwrap();
    assert_eq!(a.defines, vec!["limit".to_string()]);
    assert_eq!(a.uses, vec!["floor".to_string()]);
    assert!(!footprints_disjoint(&a, &a));
    assert_eq!(footprints_disjoint(&a, &b), footprints_disjoint(&b, &a));
    assert!(footprints_disjoint(&a, &b));
}

#[test]
fn a_replaced_name_is_no_longer_called() {
    let text = "a = load(1)\nb = reload(load (2))\nload(3)\n";
    let put = replace_at_word_boundaries(text, "load", "fetch");
    assert_eq!(put, "a = fetch(1)\nb = reload(fetch (2))\nfetch(3)\n");
    assert!(!has_call_reference(&put, "load"));
    assert!(has_call_reference(&put, "fetch"));
    assert!(has_call_reference(&put, "reload"));
}

#[test]
fn a_dollar_sign_starts_a_called_name() {
    let names = called_names("const x = $fetch(1);\n");
    assert!(has(&names, "$fetch"), "{names:?}");
    assert!(!has(&names, "fetch"), "{names:?}");
}

#[test]
fn what_steers_is_no_declaration() {
    let name = |s: &str| {
        let text: Vec<char> = s.chars().collect();
        declared_name(&text).map(|n| n.iter().collect::<String>())
    };
    assert_eq!(name("for i = 1, 10 do\n"), None);
    assert_eq!(name("let x = 1;\n").as_deref(), Some("x"));
}

#[test]
fn a_footprint_lists_its_names_in_order_and_once() {
    let fp = footprint("zeta = omega\nalpha = beta\nbeta2 = omega\n").expect("declarations");
    assert_eq!(fp.defines, vec!["alpha", "beta2", "zeta"]);
    assert_eq!(fp.uses, vec!["beta", "omega"]);
    let other = footprint("beta2 = omega\nalpha = beta\nzeta = omega\n").expect("declarations");
    assert_eq!(fp, other);
}
