use weave_core::region::{FileRegion, MergedGap};
use weave_core::v2::render::{dominant_gap, Interstitials};

fn gap(key: &str, text: &str) -> FileRegion {
    FileRegion::Interstitial {
        position_key: key.to_string(),
        content: text.to_string(),
    }
}

fn entity(id: &str) -> FileRegion {
    FileRegion::Entity {
        entity_id: id.to_string(),
        content: format!("def {id}(): pass\n"),
    }
}

#[test]
fn the_usual_gap_is_the_most_usual() {
    let file = vec![
        gap("file_header", ""),
        entity("a"),
        gap("between:a:b", "\n\n"),
        entity("b"),
        gap("between:b:c", "\n"),
        entity("c"),
        gap("between:c:d", "\n\n"),
        entity("d"),
        gap("file_footer", ""),
    ];
    assert_eq!(dominant_gap(&file), "\n\n");
    assert_eq!(dominant_gap(&vec![entity("a")]), "\n");
}

#[test]
fn a_gap_leads_the_entity_it_stands_in_front_of() {
    let file = vec![
        gap("file_header", "import os\n"),
        entity("a"),
        gap("between:a:b", "# about b\n"),
        entity("b"),
        gap("file_footer", ""),
    ];
    let merged = vec![
        MergedGap {
            key: "file_header".to_string(),
            text: "import os\n".to_string(),
        },
        MergedGap {
            key: "between:a:b".to_string(),
            text: "# about b\n".to_string(),
        },
    ];
    let all = vec![file.clone(), file.clone(), file];
    let i = Interstitials::new(merged, &all, &vec!["a".to_string(), "b".to_string()]);
    let leads: Vec<(String, Option<String>)> = i
        .leads
        .iter()
        .map(|l| (l.key.clone(), l.leads.clone()))
        .collect();
    assert_eq!(leads, vec![("between:a:b".to_string(), Some("b".to_string()))]);
}
