//! Maps a [`Triple`] to a [`Cell`] by what each side did.
//!
//! The two sides are sorted by the rank of their action before the case is
//! built, and the orientation tag names the higher-ranked side. Exchanging ours
//! and theirs therefore changes only which side the tag names.

use vstd::prelude::*;
use crate::text::str_eq;
use crate::v2::types::{
    entity_at, triple_views, triples_wf, Action, Arena, Cell, EntityView, Side, Triple,
    TripleView,
};

verus! {

/// What one side did to the entity of a triple.
pub open spec fn action_of(arena: Seq<EntityView>, t: TripleView, side: Side) -> Action {
    match (t.base, t.side(side)) {
        (None, Some(_)) => Action::Added,
        (None, None) => Action::Absent,
        (Some(_), None) => Action::Deleted,
        (Some(b), Some(x)) => {
            let base = entity_at(arena, b);
            let branch = entity_at(arena, x);
            if base.key.name == branch.key.name {
                if base.body_hash == branch.body_hash {
                    Action::Unchanged
                } else {
                    Action::Edited
                }
            } else {
                if base.body_hash == branch.body_hash {
                    Action::Renamed
                } else {
                    Action::RenameEdited
                }
            }
        },
    }
}

/// Both sides have the entity, under one name.
pub open spec fn names_agree(arena: Seq<EntityView>, t: TripleView) -> bool {
    match (t.ours, t.theirs) {
        (Some(o), Some(u)) => entity_at(arena, o).key.name == entity_at(arena, u).key.name,
        _ => false,
    }
}

/// Both sides have the entity, with one body.
pub open spec fn bodies_agree(arena: Seq<EntityView>, t: TripleView) -> bool {
    match (t.ours, t.theirs) {
        (Some(o), Some(u)) => entity_at(arena, o).body_hash == entity_at(arena, u).body_hash,
        _ => false,
    }
}

/// The case of a pair of actions, given whether the two names and the two bodies
/// agree.
pub open spec fn cell_for(ours: Action, theirs: Action, names: bool, bodies: bool) -> Cell {
    let o = Side::Ours;
    let t = Side::Theirs;
    match (ours, theirs) {
        (Action::Added, Action::Added) => if bodies {
            Cell::AddedBothConvergent
        } else {
            Cell::AddedBothDivergent
        },
        (Action::Added, _) => Cell::AddedOneSide { adder: o },
        (_, Action::Added) => Cell::AddedOneSide { adder: t },
        (Action::Deleted, Action::Deleted) => Cell::DeletedBoth,
        (Action::Deleted, Action::Unchanged) => Cell::DeleteVsUnchanged { deleter: o },
        (Action::Unchanged, Action::Deleted) => Cell::DeleteVsUnchanged { deleter: t },
        (Action::Deleted, Action::Edited) => Cell::DeleteVsEdit { deleter: o },
        (Action::Edited, Action::Deleted) => Cell::DeleteVsEdit { deleter: t },
        (Action::Deleted, Action::Renamed) => Cell::DeleteVsRename { deleter: o },
        (Action::Renamed, Action::Deleted) => Cell::DeleteVsRename { deleter: t },
        (Action::Deleted, Action::RenameEdited) => Cell::DeleteVsRenameEdit { deleter: o },
        (Action::RenameEdited, Action::Deleted) => Cell::DeleteVsRenameEdit { deleter: t },
        (Action::Edited, Action::Unchanged) => Cell::EditOneSide { editor: o },
        (Action::Unchanged, Action::Edited) => Cell::EditOneSide { editor: t },
        (Action::Edited, Action::Edited) => if bodies {
            Cell::EditBothConvergent
        } else {
            Cell::EditBothDivergent
        },
        (Action::Renamed, Action::Unchanged) => Cell::RenameVsUnchanged { renamer: o },
        (Action::Unchanged, Action::Renamed) => Cell::RenameVsUnchanged { renamer: t },
        (Action::RenameEdited, Action::Unchanged) => Cell::RenameEditVsUnchanged { renamer: o },
        (Action::Unchanged, Action::RenameEdited) => Cell::RenameEditVsUnchanged { renamer: t },
        (Action::Renamed, Action::Edited) => Cell::RenameVsEdit { renamer: o },
        (Action::Edited, Action::Renamed) => Cell::RenameVsEdit { renamer: t },
        (Action::RenameEdited, Action::Edited) => Cell::RenameEditVsEdit {
            renamer: o,
            bodies_converge: bodies,
        },
        (Action::Edited, Action::RenameEdited) => Cell::RenameEditVsEdit {
            renamer: t,
            bodies_converge: bodies,
        },
        (Action::Renamed, Action::Renamed) => Cell::RenameBoth { names_converge: names },
        (Action::RenameEdited, Action::Renamed) => Cell::RenameEditVsRename {
            rename_editor: o,
            names_converge: names,
        },
        (Action::Renamed, Action::RenameEdited) => Cell::RenameEditVsRename {
            rename_editor: t,
            names_converge: names,
        },
        (Action::RenameEdited, Action::RenameEdited) => Cell::RenameEditBoth {
            names_converge: names,
            bodies_converge: bodies,
        },
        _ => Cell::UnchangedBoth,
    }
}

/// The case of a triple.
pub open spec fn cell_of(arena: Seq<EntityView>, t: TripleView) -> Cell {
    cell_for(
        action_of(arena, t, Side::Ours),
        action_of(arena, t, Side::Theirs),
        names_agree(arena, t),
        bodies_agree(arena, t),
    )
}

/// The cases of a list of triples.
pub open spec fn cells_of(arena: Seq<EntityView>, ts: Seq<TripleView>) -> Seq<Cell> {
    ts.map_values(|t: TripleView| cell_of(arena, t))
}

/// Classification does not prefer a side: exchanging the sides of a triple gives
/// the mirror image of its case.
pub proof fn classification_is_symmetric(arena: Seq<EntityView>, t: TripleView)
    ensures
        cell_of(arena, t.swapped()) == cell_of(arena, t).flipped(),
{
}

/// The case of a triple that holds an entity encodes exactly what the two sides
/// did to it.
pub proof fn the_case_encodes_both_actions(arena: Seq<EntityView>, t: TripleView)
    requires
        t.base is Some || t.ours is Some || t.theirs is Some,
    ensures
        cell_of(arena, t).action_pair() == (
            action_of(arena, t, Side::Ours),
            action_of(arena, t, Side::Theirs),
        ),
{
}

/// What one side did to the entity in this triple.
pub fn action(arena: &Arena, triple: &Triple, side: Side) -> (r: Action)
    requires
        triple@.wf(arena@.len()),
    ensures
        r == action_of(arena@, triple@, side),
{
    let branch = triple.side_idx(side);
    match (triple.base_idx(), branch) {
        (None, Some(_)) => Action::Added,
        (None, None) => Action::Absent,
        (Some(_), None) => Action::Deleted,
        (Some(b), Some(x)) => {
            let base = arena.get(b);
            let side_e = arena.get(x);
            let name_eq = str_eq(base.name(), side_e.name());
            let body_eq = base.body_hash == side_e.body_hash;
            match (name_eq, body_eq) {
                (true, true) => Action::Unchanged,
                (true, false) => Action::Edited,
                (false, true) => Action::Renamed,
                (false, false) => Action::RenameEdited,
            }
        },
    }
}

/// Sort order used to pick the side that the orientation tag names.
fn rank(a: Action) -> (r: u8)
    ensures
        r == match a {
            Action::Absent => 0u8,
            Action::Unchanged => 1u8,
            Action::Edited => 2u8,
            Action::Renamed => 3u8,
            Action::RenameEdited => 4u8,
            Action::Deleted => 5u8,
            Action::Added => 6u8,
        },
{
    match a {
        Action::Absent => 0,
        Action::Unchanged => 1,
        Action::Edited => 2,
        Action::Renamed => 3,
        Action::RenameEdited => 4,
        Action::Deleted => 5,
        Action::Added => 6,
    }
}

/// The case of a triple.
pub fn classify(arena: &Arena, triple: &Triple) -> (r: Cell)
    requires
        triple@.wf(arena@.len()),
    ensures
        r == cell_of(arena@, triple@),
{
    let a_ours = action(arena, triple, Side::Ours);
    let a_theirs = action(arena, triple, Side::Theirs);
    let (first, tag, second) = if rank(a_ours) >= rank(a_theirs) {
        (a_ours, Side::Ours, a_theirs)
    } else {
        (a_theirs, Side::Theirs, a_ours)
    };
    let (names_converge, bodies_converge) = match (triple.ours_idx(), triple.theirs_idx()) {
        (Some(o), Some(t)) => (
            str_eq(arena.get(o).name(), arena.get(t).name()),
            arena.get(o).body_hash == arena.get(t).body_hash,
        ),
        _ => (false, false),
    };
    match (first, second) {
        // No base: one or both sides added it.
        (Action::Added, Action::Absent) => Cell::AddedOneSide { adder: tag },
        (Action::Added, _) => if bodies_converge {
            Cell::AddedBothConvergent
        } else {
            Cell::AddedBothDivergent
        },
        // At least one side deleted it.
        (Action::Deleted, Action::Deleted) => Cell::DeletedBoth,
        (Action::Deleted, Action::Unchanged) => Cell::DeleteVsUnchanged { deleter: tag },
        (Action::Deleted, Action::Edited) => Cell::DeleteVsEdit { deleter: tag },
        (Action::Deleted, Action::Renamed) => Cell::DeleteVsRename { deleter: tag },
        (Action::Deleted, _) => Cell::DeleteVsRenameEdit { deleter: tag },
        // Both kept it, under its name.
        (Action::Edited, Action::Unchanged) => Cell::EditOneSide { editor: tag },
        (Action::Edited, _) => if bodies_converge {
            Cell::EditBothConvergent
        } else {
            Cell::EditBothDivergent
        },
        // Exactly one side renamed it.
        (Action::Renamed, Action::Unchanged) => Cell::RenameVsUnchanged { renamer: tag },
        (Action::RenameEdited, Action::Unchanged) => Cell::RenameEditVsUnchanged { renamer: tag },
        (Action::Renamed, Action::Edited) => Cell::RenameVsEdit { renamer: tag },
        (Action::RenameEdited, Action::Edited) => Cell::RenameEditVsEdit {
            renamer: tag,
            bodies_converge,
        },
        // Both sides renamed it.
        (Action::Renamed, _) => Cell::RenameBoth { names_converge },
        (Action::RenameEdited, Action::Renamed) => Cell::RenameEditVsRename {
            rename_editor: tag,
            names_converge,
        },
        (Action::RenameEdited, _) => Cell::RenameEditBoth { names_converge, bodies_converge },
        (_, _) => Cell::UnchangedBoth,
    }
}

/// The cases of the triples, in their order.
pub fn classify_all(arena: &Arena, triples: &Vec<Triple>) -> (r: Vec<Cell>)
    requires
        triples_wf(triple_views(triples@), arena@.len()),
    ensures
        r@ == cells_of(arena@, triple_views(triples@)),
{
    let mut out: Vec<Cell> = Vec::new();
    let ghost all = triple_views(triples@);
    let mut i: usize = 0;
    while i < triples.len()
        invariant
            i <= triples@.len(),
            all == triple_views(triples@),
            triples_wf(all, arena@.len()),
            out@ == cells_of(arena@, all).take(i as int),
        decreases triples@.len() - i,
    {
        proof {
            assert(all[i as int] == triples@[i as int]@);
        }
        let c = classify(arena, &triples[i]);
        out.push(c);
        i = i + 1;
        proof {
            assert(cells_of(arena@, all).take(i as int) =~= cells_of(arena@, all).take(
                i - 1,
            ).push(cells_of(arena@, all)[i - 1]));
        }
    }
    proof {
        assert(cells_of(arena@, all).take(all.len() as int) =~= cells_of(arena@, all));
    }
    out
}


/// An action says what became of the entity: whether it is there, whether its name is
/// another one, and whether its body is.
pub proof fn an_action_says_what_changed(arena: Seq<EntityView>, t: TripleView, side: Side)
    ensures
        ({
            let a = action_of(arena, t, side);
            let was = t.base is Some;
            let here = t.side(side) is Some;
            let b = entity_at(arena, t.base->0);
            let x = entity_at(arena, t.side(side)->0);
            &&& a is Added <==> !was && here
            &&& a is Deleted <==> was && !here
            &&& a is Absent <==> !was && !here
            &&& was && here ==> {
                &&& (a is Renamed || a is RenameEdited) <==> b.key.name != x.key.name
                &&& (a is Edited || a is RenameEdited) <==> b.body_hash != x.body_hash
                &&& a is Unchanged <==> b.key.name == x.key.name && b.body_hash == x.body_hash
            }
        }),
{
}

/// Where both sides have the entity, the case says whether they agree about it: a case
/// that converges in a name or a body has one name or one body on both sides, and a case
/// that diverges has two.
pub proof fn a_case_says_where_the_sides_agree(arena: Seq<EntityView>, t: TripleView)
    requires
        t.ours is Some,
        t.theirs is Some,
    ensures
        ({
            let o = entity_at(arena, t.ours->0);
            let u = entity_at(arena, t.theirs->0);
            let bodies = o.body_hash == u.body_hash;
            let names = o.key.name == u.key.name;
            match cell_of(arena, t) {
                Cell::AddedBothConvergent | Cell::EditBothConvergent => bodies,
                Cell::AddedBothDivergent | Cell::EditBothDivergent => !bodies,
                Cell::RenameEditVsEdit { renamer, bodies_converge } => bodies_converge == bodies,
                Cell::RenameBoth { names_converge } => names_converge == names,
                Cell::RenameEditVsRename { rename_editor, names_converge } => names_converge
                    == names,
                Cell::RenameEditBoth { names_converge, bodies_converge } => names_converge == names
                    && bodies_converge == bodies,
                Cell::UnchangedBoth => names && bodies,
                Cell::EditOneSide { editor } => names && !bodies,
                Cell::RenameVsUnchanged { renamer } => !names && bodies,
                Cell::RenameEditVsUnchanged { renamer } => !names && !bodies,
                Cell::RenameVsEdit { renamer } => !names && !bodies,
                _ => false,
            }
        }),
{
}

} // verus!
