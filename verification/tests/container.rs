use weave_core::container::{
    asked, container_merge, decompose, drops_unanimous_lines, member_order, member_texts,
    unnamed_spans, Answers, Decomposed, Leaf, MemberName, Question,
};
use weave_core::merge::InnerMergeResult;

fn wrapper_of(content: &str) -> Option<(String, String)> {
    let mut lines = content.lines();
    let header = lines.next()?;
    let footer = match lines.last() {
        Some("}") => "}\n",
        _ => "",
    };
    Some((format!("{header}\n"), footer.to_string()))
}

fn names_of(content: &str, spans: &[(usize, usize)]) -> Vec<MemberName> {
    let lines: Vec<&str> = content.lines().collect();
    spans
        .iter()
        .map(|(start, _)| {
            let first = lines[*start].trim();
            let first = first.strip_prefix("def ").unwrap_or(first);
            let end = first
                .find(|c: char| !c.is_alphanumeric() && c != '_')
                .unwrap_or(first.len());
            MemberName {
                line: first[..end].to_string(),
                literal: None,
            }
        })
        .collect()
}

fn decomp(content: &str) -> Decomposed {
    let wrapper = wrapper_of(content);
    let spans = unnamed_spans(content, &wrapper, &vec![], 1);
    decompose(content, &wrapper, &vec![], 1, &names_of(content, &spans)).expect("decomposes")
}

#[test]
fn a_decomposition_tiles_the_container_it_came_from() {
    for content in [
        "class A:\n    x = 1\n    y = 2\n\n    def one(self):\n        return 1\n\n    def two(self):\n        return 2\n",
        "class A {\n\tx = 1;\n\n\t// a section\n\tone() {\n\t\treturn 1;\n\t}\n\n\ttwo() {\n\t\treturn 2;\n\t}\n}\n",
    ] {
        let d = decomp(content);
        let mut rebuilt = d.header.clone();
        for m in &d.members {
            rebuilt.push_str(&m.lead);
            rebuilt.push_str(&m.text);
        }
        rebuilt.push_str(&d.tail);
        rebuilt.push_str(&d.footer);
        assert_eq!(rebuilt, content, "decomposition lost or duplicated text");
    }
}

#[test]
fn same_named_members_do_not_collapse_into_one() {
    let content = "class A:\n    @property\n    def x(self):\n        return self._x\n\n    @x.setter\n    def x(self, v):\n        self._x = v\n";
    let d = decomp(content);
    let keys = d.keys();
    assert_eq!(keys.len(), 2, "two members named x, not one: {keys:?}");
    assert_eq!(keys[0], ("x".to_string(), 0));
    assert_eq!(keys[1], ("x".to_string(), 1));
}

#[test]
fn member_order_is_the_base_order_when_nobody_moved_anything() {
    let k = |n: &str| (n.to_string(), 0u32);
    let base = vec![k("a"), k("b"), k("c")];
    let ours = vec![k("a"), k("c")]; // deleted b
    let theirs = vec![k("a"), k("b"), k("new"), k("c")];
    assert_eq!(
        member_order(&base, &ours, &theirs),
        vec![k("a"), k("b"), k("new"), k("c")],
        "the addition follows the nearest survivor it was written after"
    );
}

#[test]
fn member_order_does_not_depend_on_which_side_is_ours() {
    let k = |n: &str| (n.to_string(), 0u32);
    let base = vec![k("a"), k("b")];
    let x = vec![k("a"), k("b"), k("zed")];
    let y = vec![k("a"), k("mid"), k("b")];
    assert_eq!(member_order(&base, &x, &y), member_order(&base, &y, &x));
}

#[test]
fn members_one_side_wrote_together_keep_that_side_s_order() {
    let k = |n: &str| (n.to_string(), 0u32);
    let base = vec![k("a"), k("b")];
    let ours = vec![k("a"), k("zebra"), k("helper"), k("b")];
    let theirs = vec![k("a"), k("b")];
    assert_eq!(
        member_order(&base, &ours, &theirs),
        vec![k("a"), k("zebra"), k("helper"), k("b")]
    );
}

#[test]
fn members_no_version_orders_together_still_fall_back_to_the_name() {
    let k = |n: &str| (n.to_string(), 0u32);
    let base = vec![k("a")];
    let x = vec![k("a"), k("zed")];
    let y = vec![k("a"), k("mid")];
    assert_eq!(
        member_order(&base, &x, &y),
        vec![k("a"), k("mid"), k("zed")]
    );
    assert_eq!(member_order(&base, &x, &y), member_order(&base, &y, &x));
}

#[test]
fn a_member_both_sides_added_stands_at_the_nearer_place() {
    let k = |n: &str| (n.to_string(), 0u32);
    let base = vec![k("a"), k("b")];
    let early = vec![k("a"), k("new"), k("b")];
    let late = vec![k("a"), k("b"), k("new")];
    assert_eq!(
        member_order(&base, &early, &late),
        vec![k("a"), k("new"), k("b")]
    );
    assert_eq!(
        member_order(&base, &late, &early),
        vec![k("a"), k("new"), k("b")]
    );
}

fn silent() -> Leaf {
    Leaf {
        diff3: None,
        line: None,
        decorated: None,
        statement: None,
        evidence: vec![],
        marker: "<<<<<<<\n".to_string(),
    }
}

fn silence(n: usize) -> Answers {
    Answers {
        declaration: silent(),
        attributes: silent(),
        leads: (0..n).map(|_| silent()).collect(),
        bodies: (0..n).map(|_| silent()).collect(),
        trailing: silent(),
        closing: silent(),
    }
}

const BASE: &str = "class A:\n    def one(self):\n        return 1\n\n    def two(self):\n        return 2\n";

fn merged(ours: &str, theirs: &str, answers: impl Fn(usize) -> Answers) -> Option<InnerMergeResult> {
    let (b, o, t) = (decomp(BASE), decomp(ours), decomp(theirs));
    let n = member_order(&b.keys(), &o.keys(), &t.keys()).len();
    let mut evidence = vec![];
    container_merge(BASE, ours, theirs, &b, &o, &t, &answers(n), &mut evidence)
}

#[test]
fn edits_to_different_members_both_land() {
    let ours = "class A:\n    def one(self):\n        return 10\n\n    def two(self):\n        return 2\n";
    let theirs = "class A:\n    def one(self):\n        return 1\n\n    def two(self):\n        return 20\n";
    let r = merged(ours, theirs, silence).expect("merges");
    assert!(!r.has_conflicts);
    assert_eq!(
        r.content,
        "class A:\n    def one(self):\n        return 10\n\n    def two(self):\n        return 20\n"
    );
}

#[test]
fn a_member_both_sides_edited_gets_the_marker_it_was_handed() {
    let ours = "class A:\n    def one(self):\n        return 10\n\n    def two(self):\n        return 2\n";
    let theirs = "class A:\n    def one(self):\n        return 11\n\n    def two(self):\n        return 2\n";
    let r = merged(ours, theirs, |n| {
        let mut a = silence(n);
        a.bodies[0].marker = "    <<< one >>>\n    def one(self):\n".to_string();
        a
    })
    .expect("merges");
    assert!(r.has_conflicts);
    assert_eq!(
        r.content,
        "class A:\n    <<< one >>>\n    def one(self):\n\n    def two(self):\n        return 2\n"
    );
}

#[test]
fn a_merge_that_loses_what_everyone_kept_is_refused() {
    let ours = "class A:\n    def one(self):\n        return 10\n\n    def two(self):\n        return 2\n";
    let theirs = "class A:\n    def one(self):\n        return 11\n\n    def two(self):\n        return 2\n";
    assert!(merged(ours, theirs, silence).is_none());
    assert!(drops_unanimous_lines("a\nb\n", "a\nb\n", "a\nc\nb\n", "a\n"));
    assert!(!drops_unanimous_lines("a\nb\n", "a\nb\n", "a\n", "a\n"));
    assert!(!drops_unanimous_lines("a\nb\n", "b\na\n", "a\nb\n", "b\na\n"));
}

#[test]
fn each_member_is_a_text_of_its_own() {
    let texts = member_texts(&decomp(BASE));
    assert_eq!(
        texts,
        vec![
            (
                ("one".to_string(), 0),
                "    def one(self):\n        return 1\n".to_string()
            ),
            (
                ("two".to_string(), 0),
                "    def two(self):\n        return 2\n".to_string()
            ),
        ]
    );
}

#[test]
fn a_text_of_one_line_is_no_container() {
    assert!(decompose("class A: pass\n", &None, &vec![], 1, &vec![]).is_none());
}

#[test]
fn the_merged_members_are_those_of_either_side_each_once() {
    let k = |n: &str| (n.to_string(), 0u32);
    let base = vec![k("a"), k("b"), k("c"), k("gone")];
    let ours = vec![k("c"), k("a"), k("x")];
    let theirs = vec![k("a"), k("b"), k("y"), k("c")];
    let order = member_order(&base, &ours, &theirs);
    let mut sorted = order.clone();
    sorted.sort();
    assert_eq!(sorted, vec![k("a"), k("b"), k("c"), k("x"), k("y")]);
    let place = |n: &str| order.iter().position(|x| *x == k(n)).unwrap();
    assert!(place("c") < place("a"), "only ours moved: {order:?}");
}

#[test]
fn the_finer_merges_are_asked_about_every_segment() {
    let base = decomp("class A:\n    def one(self):\n        return 1\n");
    let ours = decomp(
        "class A(O):\n    def one(self):\n        return 1\n\n    def two(self):\n        return 2\n",
    );
    let theirs = decomp(
        "class A(T):\n    def one(self):\n        return 1\n\n\n    def two(self):\n        return 3\n",
    );
    let q = asked(&base, &ours, &theirs);
    assert_eq!(q.declaration.segment, "declaration");
    assert_eq!(
        q.declaration.contest(),
        Some(("class A:\n", "class A(O):\n", "class A(T):\n"))
    );
    assert!(q.declaration.line_merge().is_none());
    assert_eq!(q.attributes.segment, "attributes");
    assert_eq!(q.trailing.segment, "trailing members");
    assert_eq!(q.closing.segment, "closing");
    let of = |v: &[Question]| v.iter().map(|x| x.segment.clone()).collect::<Vec<_>>();
    assert_eq!(of(&q.leads), vec!["before one", "before two"]);
    assert_eq!(of(&q.bodies), vec!["one", "two"]);
    assert!(q.bodies[0].contest().is_none(), "nobody changed it");
    assert!(q.bodies[1].base.is_none());
    assert!(q.bodies[1].contest().is_none(), "base does not have it");
    assert_eq!(q.leads[1].base, q.leads[1].ours);
    assert_ne!(q.leads[1].ours, q.leads[1].theirs);
}

#[test]
fn a_contested_segment_can_merge_by_its_lines() {
    let q = Question {
        segment: "f".to_string(),
        base: Some("a\nb\nc\n".to_string()),
        ours: Some("a1\nb\nc\n".to_string()),
        theirs: Some("a\nb\nc1\n".to_string()),
    };
    assert_eq!(q.line_merge().as_deref(), Some("a1\nb\nc1\n"));
}
