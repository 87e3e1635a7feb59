use std::collections::HashSet;
use weave_core::v2::types::{Action, Cell, EntityOrder, Side, Tally};

#[test]
fn all_cases_are_distinct() {
    let unique: HashSet<String> = Cell::all().iter().map(|c| format!("{c:?}")).collect();
    assert_eq!(unique.len(), 38, "the list has duplicates");
    assert_eq!(Cell::all().len(), 38);
}

#[test]
fn swapping_sides_twice_is_identity() {
    for cell in Cell::all() {
        assert_eq!(
            cell.flip().flip(),
            cell,
            "swapping sides twice changed the case at {cell:?}"
        );
    }
}

#[test]
fn swapping_sides_maps_cases_onto_cases() {
    let all: HashSet<String> = Cell::all().iter().map(|c| format!("{c:?}")).collect();
    let flipped: HashSet<String> = Cell::all()
        .iter()
        .map(|c| format!("{:?}", c.flip()))
        .collect();
    assert_eq!(all, flipped, "swap produced a case outside the set");
}

#[test]
fn swapping_sides_swaps_the_action_pair() {
    for cell in Cell::all() {
        let (o, t) = cell.actions();
        let (fo, ft) = cell.flip().actions();
        assert_eq!((o, t), (ft, fo), "actions disagree with swap at {cell:?}");
    }
}

#[test]
fn every_action_pair_has_a_case() {
    let mut seen: HashSet<(Action, Action)> = HashSet::new();
    for cell in Cell::all() {
        seen.insert(cell.actions());
    }
    let changes = [
        Action::Deleted,
        Action::Unchanged,
        Action::Edited,
        Action::Renamed,
        Action::RenameEdited,
    ];
    for a in changes {
        for b in changes {
            assert!(seen.contains(&(a, b)), "no case for ({a:?}, {b:?})");
        }
    }
    assert!(seen.contains(&(Action::Added, Action::Added)));
}

#[test]
fn the_language_table_names_the_families_it_claims() {
    for p in ["a.c", "a.h", "lib.cpp", "m.ml", "m.mli", "s.sh", "q.sql"] {
        assert_eq!(EntityOrder::of_path(p), EntityOrder::Effectful, "{p}");
    }
    for p in ["a.py", "a.rs", "a.ts", "a.go", "a.java"] {
        assert_eq!(EntityOrder::of_path(p), EntityOrder::Unordered, "{p}");
    }
}

#[test]
fn a_trivially_clean_case_stays_one_from_either_side() {
    for cell in Cell::all() {
        assert_eq!(cell.is_trivially_clean(), cell.flip().is_trivially_clean());
    }
    assert!(Cell::UnchangedBoth.is_trivially_clean());
    assert!(!Cell::EditBothDivergent.is_trivially_clean());
}

#[test]
fn a_one_sided_tally_names_its_side() {
    assert_eq!(Tally::only(Side::Ours), Tally::OursOnly);
    assert_eq!(Tally::only(Side::Theirs), Tally::TheirsOnly);
    assert_eq!(Tally::added(Side::Ours), Tally::AddedOurs);
    assert_eq!(Tally::added(Side::Theirs), Tally::AddedTheirs);
}
