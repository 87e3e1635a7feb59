//! The def/use stage: two changes can touch different entities and still fail to
//! merge, because one refers to a name that the other defines.
//!
//! Binding may turn a decision into a conflict, may rewrite calls inside a text
//! that it can justify, and may turn a conflict into a composition where the two
//! sides write nothing that the other writes or reads. It may not reorder, pair
//! anew, or invent text.

use vstd::prelude::*;
use crate::binding::{
    a_replaced_name_is_not_called, called_names, calls, has_call_reference, identifier,
    replace_at_word_boundaries, replaced,
};
use crate::conflict::{
    as_opt_str, classify_conflict, complexity_of, ConflictKind, ConflictKindView, EntityConflict,
    EntityConflictView,
};
use crate::container::{KeyText, MemberKey};
use crate::merge::{
    gap_views, GapView, InnerMergeResult, InnerView, LicensedGap, ResolutionStrategy, StrategyView,
};
use crate::order::{views, Keyed};
use crate::text::{
    chars_of, copy_strings, join, join_strings, lines, list_has, str_eq, strs, word_char,
};
use crate::validate::{SemanticWarning, WarningKind, WarningKindView, WarningView};
use crate::v2::classify::{cell_of, cells_of};
use crate::v2::locals::{
    assigned_on, bound, bound_locals, dangling_names, reads, scope_dangling,
    what_dangles_was_assigned_and_is_read,
};
use crate::v2::relational::{relational_views, RelationalView};
use crate::v2::resolve::{
    conflict_disposition, conflicted, decided, mirrors, resolved_views, swapped_conflict,
    BothChanged, Case, Contested, CtxView, ResolveCtx, Resolved, ResolvedView,
};
use crate::v2::types::{
    entity_at, idx_ok, opt_view, triple_views, triples_wf, Arena, Cell, Disposition,
    DispositionView, EntityView, Idx, Relational, Side, Tally, Triple, TripleView,
};

verus! {

broadcast use vstd::string::group_string_axioms;

/// What the passes read: the arena, the triples in it, the case of each, and how
/// conflicts are rendered.
pub struct Pass {
    pub arena: Seq<EntityView>,
    pub triples: Seq<TripleView>,
    pub cells: Seq<Cell>,
    pub ctx: CtxView,
}

impl Pass {
    /// Every entity can be named by an index, the triples lie in the arena, and there
    /// is one case and one decision for each.
    pub open spec fn wf(self, rs: Seq<ResolvedView>) -> bool {
        &&& self.arena.len() <= u32::MAX
        &&& triples_wf(self.triples, self.arena.len())
        &&& self.cells.len() == self.triples.len()
        &&& rs.len() == self.triples.len()
    }

    /// One triple with its arena.
    pub open spec fn case(self, i: int) -> Case {
        Case { arena: self.arena, triple: self.triples[i] }
    }
}

/// The pass over an arena, its triples and their cases.
pub open spec fn pass_of(
    arena: Seq<EntityView>,
    triples: Seq<Triple>,
    cells: Seq<Cell>,
    ctx: CtxView,
) -> Pass {
    Pass { arena, triples: triple_views(triples), cells, ctx }
}

// ---------------------------------------------------------------------------
// Surviving definitions
// ---------------------------------------------------------------------------

/// Does the entity, if there is one, have the name?
pub open spec fn has_name(arena: Seq<EntityView>, idx: Option<Idx>, name: Seq<char>) -> bool {
    idx matches Some(i) && entity_at(arena, i).key.name == name
}

/// Does the decision still write the name down? A conflict keeps both sides'
/// text, so both names.
pub open spec fn writes_name(
    arena: Seq<EntityView>,
    t: TripleView,
    r: ResolvedView,
    name: Seq<char>,
) -> bool {
    match r.disposition {
        DispositionView::Emit { text, name: n } => n == name,
        DispositionView::Conflict { text, conflict } => has_name(arena, t.ours, name) || has_name(
            arena,
            t.theirs,
            name,
        ),
        DispositionView::Drop => false,
    }
}

impl Pass {
    /// Does the merged output still define the name?
    pub open spec fn defined(self, rs: Seq<ResolvedView>, name: Seq<char>) -> bool {
        exists|i: int|
            0 <= i < rs.len() && writes_name(self.arena, self.triples[i], #[trigger] rs[i], name)
    }
}

fn is_named(arena: &Arena, idx: Option<Idx>, name: &str) -> (r: bool)
    requires
        idx_ok(idx, arena@.len()),
    ensures
        r == has_name(arena@, idx, name@),
{
    match idx {
        Some(i) => str_eq(arena.get(i).name(), name),
        None => false,
    }
}

fn is_defined(arena: &Arena, triples: &Vec<Triple>, resolved: &Vec<Resolved>, name: &str) -> (r: bool)
    requires
        triples_wf(triple_views(triples@), arena@.len()),
        triples@.len() == resolved@.len(),
    ensures
        forall|cells: Seq<Cell>, ctx: CtxView|
            r == #[trigger] pass_of(arena@, triples@, cells, ctx).defined(
                resolved_views(resolved@),
                name@,
            ),
{
    let ghost tv = triple_views(triples@);
    let ghost rv = resolved_views(resolved@);
    let mut i: usize = 0;
    while i < triples.len()
        invariant
            i <= triples@.len() == resolved@.len(),
            tv == triple_views(triples@),
            rv == resolved_views(resolved@),
            triples_wf(tv, arena@.len()),
            forall|k: int|
                0 <= k < i ==> !writes_name(arena@, tv[k], #[trigger] rv[k], name@),
        decreases triples@.len() - i,
    {
        proof {
            assert(tv[i as int] == triples@[i as int]@);
            assert(rv[i as int] == resolved@[i as int]@);
        }
        let found = match &resolved[i].disposition {
            Disposition::Emit { name: n, .. } => str_eq(n.as_str(), name),
            Disposition::Conflict { .. } => is_named(arena, triples[i].ours_idx(), name)
                || is_named(arena, triples[i].theirs_idx(), name),
            Disposition::Drop => false,
        };
        if found {
            proof {
                assert(writes_name(arena@, tv[i as int], rv[i as int], name@));
            }
            return true;
        }
        i = i + 1;
    }
    false
}

// ---------------------------------------------------------------------------
// A rename: the other side's calls follow the definition
// ---------------------------------------------------------------------------

/// The text a decision emits, where it is no conflict.
pub open spec fn emit_text(r: ResolvedView) -> Option<Seq<char>> {
    match r.disposition {
        DispositionView::Emit { text, name } => Some(text),
        _ => None,
    }
}

/// The decision with another text.
pub open spec fn with_text(r: ResolvedView, text: Seq<char>) -> ResolvedView {
    ResolvedView {
        disposition: match r.disposition {
            DispositionView::Emit { text: t, name } => DispositionView::Emit { text, name },
            d => d,
        },
        ..r
    }
}

/// Does the decision emit a call of the name?
pub open spec fn emits_call(r: ResolvedView, name: Seq<char>) -> bool {
    emit_text(r) matches Some(t) && calls(t, name)
}

/// Is the call rewritten? The text called the old name before anything was
/// rewritten, still does, and is not the renamed entity's own.
pub open spec fn follows(
    before: Seq<ResolvedView>,
    rs: Seq<ResolvedView>,
    owner: int,
    from: Seq<char>,
    i: int,
) -> bool {
    &&& i != owner
    &&& identifier(from)
    &&& emits_call(before[i], from)
    &&& emits_call(rs[i], from)
}

/// The decisions after one rename has been followed in the first `n` of them.
pub open spec fn followed(
    before: Seq<ResolvedView>,
    rs: Seq<ResolvedView>,
    owner: int,
    from: Seq<char>,
    to: Seq<char>,
    n: int,
) -> Seq<ResolvedView> {
    Seq::new(
        rs.len(),
        |i: int|
            if i < n && follows(before, rs, owner, from, i) {
                with_text(rs[i], replaced(emit_text(rs[i])->0, from, to))
            } else {
                rs[i]
            },
    )
}

/// How many of the first `n` decisions a rename is followed in.
pub open spec fn follow_count(
    before: Seq<ResolvedView>,
    rs: Seq<ResolvedView>,
    owner: int,
    from: Seq<char>,
    n: int,
) -> nat
    decreases n,
{
    if n <= 0 {
        0
    } else {
        follow_count(before, rs, owner, from, n - 1) + if follows(before, rs, owner, from, n - 1) {
            1nat
        } else {
            0nat
        }
    }
}

impl Pass {
    /// Is the rename of the decision to be followed? Only where nothing defines the
    /// old name any more: else the calls are not dangling.
    pub open spec fn pending(self, before: Seq<ResolvedView>, k: int) -> bool {
        before[k].rename matches Some(r) && r.0.len() > 0 && r.1.len() > 0 && r.0 != r.1
            && !self.defined(before, r.0)
    }

    /// The decisions after the renames of the first `k` of them have been followed,
    /// and how many texts were rewritten.
    pub open spec fn repaired(self, before: Seq<ResolvedView>, k: int) -> (Seq<ResolvedView>, nat)
        decreases k,
    {
        if k <= 0 {
            (before, 0)
        } else {
            let (rs, n) = self.repaired(before, k - 1);
            if self.pending(before, k - 1) {
                let r = before[k - 1].rename->0;
                (
                    followed(before, rs, k - 1, r.0, r.1, rs.len() as int),
                    n + follow_count(before, rs, k - 1, r.0, rs.len() as int),
                )
            } else {
                (rs, n)
            }
        }
    }
}

fn names_called(r: &Resolved) -> (v: Vec<String>)
    ensures
        forall|n: Seq<char>| #[trigger]
            strs(v@).contains(n) <==> identifier(n) && emits_call(r@, n),
{
    match &r.disposition {
        Disposition::Emit { text, .. } => called_names(text.as_str()),
        _ => {
            let v: Vec<String> = Vec::new();
            proof {
                assert(strs(v@) =~= Seq::empty());
            }
            v
        },
    }
}

/// Follow one rename through every text that called the old name.
fn follow_rename(
    resolved: &mut Vec<Resolved>,
    called: &Vec<Vec<String>>,
    owner: usize,
    from: &str,
    to: &str,
    before: Ghost<Seq<ResolvedView>>,
    count: u128,
) -> (r: u128)
    requires
        before@.len() == old(resolved)@.len(),
        called@.len() == old(resolved)@.len(),
        forall|i: int, n: Seq<char>|
            #![trigger strs(called@[i]@).contains(n)]
            0 <= i < called@.len() ==> (strs(called@[i]@).contains(n) <==> identifier(n)
                && emits_call(before@[i], n)),
        count + old(resolved)@.len() <= u128::MAX,
    ensures
        resolved_views(final(resolved)@) == followed(
            before@,
            resolved_views(old(resolved)@),
            owner as int,
            from@,
            to@,
            old(resolved)@.len() as int,
        ),
        r == count + follow_count(
            before@,
            resolved_views(old(resolved)@),
            owner as int,
            from@,
            old(resolved)@.len() as int,
        ),
        r <= count + old(resolved)@.len(),
        final(resolved)@.len() == old(resolved)@.len(),
{
    let ghost start = resolved_views(resolved@);
    let mut n: u128 = count;
    let mut i: usize = 0;
    proof {
        assert(start =~= followed(before@, start, owner as int, from@, to@, 0));
    }
    while i < resolved.len()
        invariant
            before@.len() == start.len() == called@.len(),
            resolved@.len() == start.len(),
            i <= start.len(),
            forall|i: int, n: Seq<char>|
                #![trigger strs(called@[i]@).contains(n)]
                0 <= i < called@.len() ==> (strs(called@[i]@).contains(n) <==> identifier(n)
                    && emits_call(before@[i], n)),
            resolved_views(resolved@) == followed(
                before@,
                start,
                owner as int,
                from@,
                to@,
                i as int,
            ),
            count + start.len() <= u128::MAX,
            n == count + follow_count(before@, start, owner as int, from@, i as int),
            n <= count + i,
        decreases start.len() - i,
    {
        let ghost held = resolved_views(resolved@);
        let ghost now = followed(before@, start, owner as int, from@, to@, i + 1);
        proof {
            assert(held[i as int] == start[i as int]);
            assert(held[i as int] == resolved@[i as int]@);
        }
        let mut rewritten: Option<Disposition> = None;
        if i != owner && list_has(&called[i], from) {
            match &resolved[i].disposition {
                Disposition::Emit { text, name } => {
                    if has_call_reference(text.as_str(), from) {
                        rewritten = Some(
                            Disposition::Emit {
                                text: replace_at_word_boundaries(text.as_str(), from, to),
                                name: name.clone(),
                            },
                        );
                    }
                },
                _ => {},
            }
        }
        match rewritten {
            Some(d) => {
                let ghost was = resolved@;
                let ghost dv = d@;
                let slot = &mut resolved[i];
                slot.disposition = d;
                n = n + 1;
                proof {
                    assert(resolved@.len() == was.len());
                    assert(forall|k: int|
                        0 <= k < was.len() && k != i ==> (#[trigger] resolved@[k]) == was[k]);
                    assert(resolved@[i as int]@ == (ResolvedView {
                        disposition: dv,
                        ..was[i as int]@
                    }));
                    assert(follows(before@, start, owner as int, from@, i as int));
                    assert(now[i as int] == resolved@[i as int]@);
                    assert forall|k: int| 0 <= k < now.len() implies now[k]
                        == resolved_views(resolved@)[k] by {
                        if k != i {
                            assert(resolved@[k] == was[k]);
                            assert(held[k] == was[k]@);
                        }
                    }
                    assert(resolved_views(resolved@) =~= now);
                }
            },
            None => {
                proof {
                    assert(resolved_views(resolved@) =~= now);
                }
            },
        }
        i = i + 1;
    }
    n
}

/// One side renamed a definition, and the other side's code still calls the old
/// name. Where nothing in the merged output defines that name, every such call is
/// rewritten. Returns how many texts were.
pub fn rename_repair(
    arena: &Arena,
    triples: &Vec<Triple>,
    cells: &Vec<Cell>,
    resolved: &mut Vec<Resolved>,
    ctx: &ResolveCtx,
) -> (r: u128)
    requires
        pass_of(arena@, triples@, cells@, ctx@).wf(resolved_views(old(resolved)@)),
    ensures
        (resolved_views(final(resolved)@), r as nat) == pass_of(
            arena@,
            triples@,
            cells@,
            ctx@,
        ).repaired(resolved_views(old(resolved)@), old(resolved)@.len() as int),
        final(resolved)@.len() == old(resolved)@.len(),
{
    let ghost p = pass_of(arena@, triples@, cells@, ctx@);
    let ghost before = resolved_views(resolved@);
    let len: usize = resolved.len();
    let mut called: Vec<Vec<String>> = Vec::new();
    let mut renames: Vec<Option<crate::v2::resolve::Rename>> = Vec::new();
    let mut k: usize = 0;
    while k < len
        invariant
            k <= len == resolved@.len() == before.len(),
            triples@.len() == len,
            before == resolved_views(resolved@),
            p == pass_of(arena@, triples@, cells@, ctx@),
            p.wf(before),
            called@.len() == k,
            renames@.len() == k,
            forall|i: int, n: Seq<char>|
                #![trigger strs(called@[i]@).contains(n)]
                0 <= i < k ==> (strs(called@[i]@).contains(n) <==> identifier(n) && emits_call(
                    before[i],
                    n,
                )),
            forall|i: int|
                #![trigger renames@[i]]
                0 <= i < k ==> match renames@[i] {
                    Some(x) => p.pending(before, i) && before[i].rename == Some(x@),
                    None => !p.pending(before, i),
                },
        decreases len - k,
    {
        proof {
            assert(before[k as int] == resolved@[k as int]@);
        }
        called.push(names_called(&resolved[k]));
        let pending = match &resolved[k].rename {
            Some(x) => {
                if chars_of(x.from.as_str()).len() > 0 && chars_of(x.to.as_str()).len() > 0
                    && !str_eq(x.from.as_str(), x.to.as_str()) && !is_defined(
                    arena,
                    triples,
                    resolved,
                    x.from.as_str(),
                ) {
                    Some(
                        crate::v2::resolve::Rename { from: x.from.clone(), to: x.to.clone() },
                    )
                } else {
                    None
                }
            },
            None => None,
        };
        renames.push(pending);
        k = k + 1;
    }
    let mut rewritten: u128 = 0;
    let mut k: usize = 0;
    while k < len
        invariant
            k <= len == resolved@.len() == before.len(),
            called@.len() == len,
            renames@.len() == len,
            p.wf(before),
            forall|i: int, n: Seq<char>|
                #![trigger strs(called@[i]@).contains(n)]
                0 <= i < len ==> (strs(called@[i]@).contains(n) <==> identifier(n) && emits_call(
                    before[i],
                    n,
                )),
            forall|i: int|
                #![trigger renames@[i]]
                0 <= i < len ==> match renames@[i] {
                    Some(x) => p.pending(before, i) && before[i].rename == Some(x@),
                    None => !p.pending(before, i),
                },
            (resolved_views(resolved@), rewritten as nat) == p.repaired(before, k as int),
            rewritten <= k * 0xffff_ffff_ffff_ffff,
        decreases len - k,
    {
        proof {
            assert(0 <= k * 0xffff_ffff_ffff_ffff <= 0xffff_ffff_ffff_fffe * 0xffff_ffff_ffff_ffff)
                by (nonlinear_arith)
                requires
                    0 <= k <= 0xffff_ffff_ffff_fffe,
            ;
            assert((k + 1) * 0xffff_ffff_ffff_ffff == k * 0xffff_ffff_ffff_ffff
                + 0xffff_ffff_ffff_ffff) by (nonlinear_arith);
        }
        match &renames[k] {
            Some(x) => {
                rewritten = follow_rename(
                    resolved,
                    &called,
                    k,
                    x.from.as_str(),
                    x.to.as_str(),
                    Ghost(before),
                    rewritten,
                );
            },
            None => {},
        }
        k = k + 1;
    }
    rewritten
}

/// The decisions of the first `k` from one list, the others from another.
pub open spec fn spliced(
    start: Seq<ResolvedView>,
    done: Seq<ResolvedView>,
    k: int,
) -> Seq<ResolvedView> {
    Seq::new(
        start.len(),
        |i: int|
            if i < k {
                done[i]
            } else {
                start[i]
            },
    )
}

pub(crate) fn put_decision(resolved: &mut Vec<Resolved>, i: usize, r: Resolved)
    requires
        i < old(resolved)@.len(),
    ensures
        resolved_views(final(resolved)@) == resolved_views(old(resolved)@).update(i as int, r@),
        final(resolved)@.len() == old(resolved)@.len(),
{
    let ghost was = resolved_views(resolved@);
    let ghost rv = r@;
    resolved[i] = r;
    proof {
        assert(resolved_views(resolved@) =~= was.update(i as int, rv));
    }
}

// ---------------------------------------------------------------------------
// A deletion that the other side's new code depends on
// ---------------------------------------------------------------------------

/// Did the side remove the entity in this case?
pub open spec fn deletes(cell: Cell, side: Side) -> bool {
    match cell {
        Cell::DeletedBoth => true,
        Cell::DeleteVsUnchanged { deleter } | Cell::DeleteVsEdit { deleter }
        | Cell::DeleteVsRename { deleter } | Cell::DeleteVsRenameEdit { deleter } => deleter
            == side,
        _ => false,
    }
}

fn is_deleting(cell: Cell, side: Side) -> (r: bool)
    ensures
        r == deletes(cell, side),
{
    match cell {
        Cell::DeletedBoth => true,
        Cell::DeleteVsUnchanged { deleter } | Cell::DeleteVsEdit { deleter }
        | Cell::DeleteVsRename { deleter } | Cell::DeleteVsRenameEdit { deleter } => deleter
            == side,
        _ => false,
    }
}

/// Did the side add the entity in this case?
pub open spec fn adds(cell: Cell, side: Side) -> bool {
    match cell {
        Cell::AddedOneSide { adder } => adder == side,
        Cell::AddedBothConvergent | Cell::AddedBothDivergent => true,
        _ => false,
    }
}

fn is_adding(cell: Cell, side: Side) -> (r: bool)
    ensures
        r == adds(cell, side),
{
    match cell {
        Cell::AddedOneSide { adder } => adder == side,
        Cell::AddedBothConvergent | Cell::AddedBothDivergent => true,
        _ => false,
    }
}

impl Pass {
    /// Did the side add the `i`th entity, with a call of the name in it?
    pub open spec fn adds_call(self, i: int, side: Side, name: Seq<char>) -> bool {
        &&& adds(self.cells[i], side)
        &&& self.triples[i].side(side) matches Some(x) && calls(
            entity_at(self.arena, x).content,
            name,
        )
    }

    /// The side of the first addition, at or after the `i`th triple, that calls the
    /// name, among the sides that did not delete.
    pub open spec fn caller(self, cell: Cell, name: Seq<char>, i: int) -> Option<Side>
        decreases self.triples.len() - i,
    {
        if i < 0 || i >= self.triples.len() {
            None
        } else if !deletes(cell, Side::Ours) && self.adds_call(i, Side::Ours, name) {
            Some(Side::Ours)
        } else if !deletes(cell, Side::Theirs) && self.adds_call(i, Side::Theirs, name) {
            Some(Side::Theirs)
        } else {
            self.caller(cell, name, i + 1)
        }
    }

    /// The deletion of the `i`th entity, where the other side's new code calls it:
    /// the author of the call never saw the deletion, and the deleter never saw the
    /// call.
    pub open spec fn undeleted(self, rs: Seq<ResolvedView>, i: int) -> ResolvedView {
        match (rs[i].disposition, self.triples[i].base) {
            (DispositionView::Drop, Some(b)) => {
                let name = entity_at(self.arena, b).key.name;
                match self.caller(self.cells[i], name, 0) {
                    Some(side) => if name.len() > 0 && !self.defined(rs, name) {
                        conflicted(
                            self.case(i).modify_delete(side.other()),
                            self.ctx,
                            StrategyView::ConflictModifyDelete,
                        )
                    } else {
                        rs[i]
                    },
                    None => rs[i],
                }
            },
            _ => rs[i],
        }
    }

    /// The decisions after deletions have been held against new calls.
    pub open spec fn after_deletions(self, rs: Seq<ResolvedView>) -> Seq<ResolvedView> {
        Seq::new(rs.len(), |i: int| self.undeleted(rs, i))
    }
}

fn is_adding_call(
    arena: &Arena,
    triples: &Vec<Triple>,
    cells: &Vec<Cell>,
    i: usize,
    side: Side,
    name: &str,
    Ghost(ctx): Ghost<CtxView>,
) -> (r: bool)
    requires
        triples_wf(triple_views(triples@), arena@.len()),
        cells@.len() == triples@.len(),
        i < triples@.len(),
    ensures
        r == pass_of(arena@, triples@, cells@, ctx).adds_call(i as int, side, name@),
{
    proof {
        assert(triple_views(triples@)[i as int] == triples@[i as int]@);
    }
    if !is_adding(cells[i], side) {
        return false;
    }
    match triples[i].side_idx(side) {
        Some(x) => has_call_reference(arena.get(x).content.as_str(), name),
        None => false,
    }
}

fn find_caller(
    arena: &Arena,
    triples: &Vec<Triple>,
    cells: &Vec<Cell>,
    cell: Cell,
    name: &str,
    Ghost(ctx): Ghost<CtxView>,
) -> (r: Option<Side>)
    requires
        triples_wf(triple_views(triples@), arena@.len()),
        cells@.len() == triples@.len(),
    ensures
        r == pass_of(arena@, triples@, cells@, ctx).caller(cell, name@, 0),
{
    let ghost p = pass_of(arena@, triples@, cells@, ctx);
    let no_ours = is_deleting(cell, Side::Ours);
    let no_theirs = is_deleting(cell, Side::Theirs);
    let mut i: usize = 0;
    while i < triples.len()
        invariant
            i <= triples@.len() == cells@.len(),
            p == pass_of(arena@, triples@, cells@, ctx),
            triples_wf(triple_views(triples@), arena@.len()),
            no_ours == deletes(cell, Side::Ours),
            no_theirs == deletes(cell, Side::Theirs),
            p.caller(cell, name@, i as int) == p.caller(cell, name@, 0),
        decreases triples@.len() - i,
    {
        if !no_ours && is_adding_call(arena, triples, cells, i, Side::Ours, name, Ghost(ctx)) {
            return Some(Side::Ours);
        }
        if !no_theirs && is_adding_call(arena, triples, cells, i, Side::Theirs, name, Ghost(ctx)) {
            return Some(Side::Theirs);
        }
        i = i + 1;
    }
    None
}

/// Hold every deletion against the calls that the other side's new code makes.
pub fn delete_vs_new_caller(
    arena: &Arena,
    triples: &Vec<Triple>,
    cells: &Vec<Cell>,
    resolved: &mut Vec<Resolved>,
    ctx: &ResolveCtx,
)
    requires
        pass_of(arena@, triples@, cells@, ctx@).wf(resolved_views(old(resolved)@)),
    ensures
        resolved_views(final(resolved)@) == pass_of(
            arena@,
            triples@,
            cells@,
            ctx@,
        ).after_deletions(resolved_views(old(resolved)@)),
        final(resolved)@.len() == old(resolved)@.len(),
{
    let ghost p = pass_of(arena@, triples@, cells@, ctx@);
    let ghost start = resolved_views(resolved@);
    let ghost done = p.after_deletions(start);
    let len: usize = resolved.len();
    let mut revised: Vec<Option<Side>> = Vec::new();
    let mut i: usize = 0;
    while i < len
        invariant
            i <= len == resolved@.len() == triples@.len() == cells@.len(),
            start == resolved_views(resolved@),
            p == pass_of(arena@, triples@, cells@, ctx@),
            p.wf(start),
            revised@.len() == i,
            forall|k: int|
                0 <= k < i ==> match #[trigger] revised@[k] {
                    Some(side) => p.undeleted(start, k) == conflicted(
                        p.case(k).modify_delete(side.other()),
                        p.ctx,
                        StrategyView::ConflictModifyDelete,
                    ) && p.triples[k].base is Some,
                    None => p.undeleted(start, k) == start[k],
                },
        decreases len - i,
    {
        proof {
            assert(start[i as int] == resolved@[i as int]@);
            assert(p.triples[i as int] == triples@[i as int]@);
        }
        let mut found: Option<Side> = None;
        if resolved[i].disposition.is_drop() {
            match triples[i].base_idx() {
                Some(b) => {
                    let name = arena.get(b).name();
                    if chars_of(name).len() > 0 && !is_defined(arena, triples, resolved, name) {
                        found = find_caller(arena, triples, cells, cells[i], name, Ghost(ctx@));
                    }
                },
                None => {},
            }
        }
        revised.push(found);
        i = i + 1;
    }
    let mut i: usize = 0;
    proof {
        assert(start =~= spliced(start, done, 0));
    }
    while i < len
        invariant
            i <= len == resolved@.len() == triples@.len() == cells@.len(),
            p == pass_of(arena@, triples@, cells@, ctx@),
            p.wf(start),
            done == p.after_deletions(start),
            resolved_views(resolved@) == spliced(start, done, i as int),
            revised@.len() == len,
            forall|k: int|
                0 <= k < len ==> match #[trigger] revised@[k] {
                    Some(side) => p.undeleted(start, k) == conflicted(
                        p.case(k).modify_delete(side.other()),
                        p.ctx,
                        StrategyView::ConflictModifyDelete,
                    ) && p.triples[k].base is Some,
                    None => p.undeleted(start, k) == start[k],
                },
        decreases len - i,
    {
        proof {
            assert(p.triples[i as int] == triples@[i as int]@);
        }
        match revised[i] {
            Some(side) => {
                let conflict = crate::v2::resolve::modify_delete(
                    arena,
                    &triples[i],
                    side.flip(),
                    Ghost(p.case(i as int)),
                );
                put_decision(
                    resolved,
                    i,
                    conflict_disposition(conflict, ctx, ResolutionStrategy::ConflictModifyDelete),
                );
            },
            None => {},
        }
        proof {
            assert(resolved_views(resolved@) =~= spliced(start, done, i + 1));
        }
        i = i + 1;
    }
    proof {
        assert(spliced(start, done, len as int) =~= done);
    }
}

// ---------------------------------------------------------------------------
// A new definition captures a name the other side was using
// ---------------------------------------------------------------------------

impl Pass {
    /// Does base define the name?
    pub open spec fn base_defines(self, name: Seq<char>) -> bool {
        exists|i: int|
            0 <= i < self.triples.len() && has_name(
                self.arena,
                (#[trigger] self.triples[i]).base,
                name,
            )
    }

    /// Does the side's new code call the name?
    pub open spec fn side_calls(self, side: Side, name: Seq<char>) -> bool {
        exists|i: int| 0 <= i < self.triples.len() && #[trigger] self.adds_call(i, side, name)
    }

    /// The conflict of an addition that captures a name.
    pub open spec fn captures(self, i: int, adder: Side) -> EntityConflictView {
        let x = entity_at(self.arena, self.triples[i].side(adder)->0);
        let ours = if adder is Ours {
            Some(x.content)
        } else {
            None
        };
        let theirs = if adder is Theirs {
            Some(x.content)
        } else {
            None
        };
        EntityConflictView {
            entity_name: x.key.name,
            entity_type: x.key.entity_type,
            kind: ConflictKindView::BothAdded,
            complexity: complexity_of(None, ours, theirs),
            ours,
            theirs,
            base: None,
        }
    }

    /// Does the `i`th entity, which one side added, capture a name that the other
    /// side's new code calls and that base did not define?
    pub open spec fn captured(self, rs: Seq<ResolvedView>, i: int, adder: Side) -> bool {
        &&& self.cells[i] == (Cell::AddedOneSide { adder })
        &&& rs[i].disposition is Emit
        &&& self.triples[i].side(adder) matches Some(x) && {
            let name = entity_at(self.arena, x).key.name;
            name.len() > 0 && !self.base_defines(name) && self.side_calls(adder.other(), name)
        }
    }

    /// The decision for an addition, once it has been held against the other side's
    /// new calls.
    pub open spec fn uncaptured(self, rs: Seq<ResolvedView>, i: int) -> ResolvedView {
        if self.captured(rs, i, Side::Ours) {
            conflicted(self.captures(i, Side::Ours), self.ctx, StrategyView::ConflictBothAdded)
        } else if self.captured(rs, i, Side::Theirs) {
            conflicted(self.captures(i, Side::Theirs), self.ctx, StrategyView::ConflictBothAdded)
        } else {
            rs[i]
        }
    }

    /// The decisions after additions have been held against new calls.
    pub open spec fn after_captures(self, rs: Seq<ResolvedView>) -> Seq<ResolvedView> {
        Seq::new(rs.len(), |i: int| self.uncaptured(rs, i))
    }
}

fn is_base_defining(
    arena: &Arena,
    triples: &Vec<Triple>,
    name: &str,
    Ghost(p): Ghost<Pass>,
) -> (r: bool)
    requires
        p.arena == arena@,
        p.triples == triple_views(triples@),
        triples_wf(p.triples, arena@.len()),
    ensures
        r == p.base_defines(name@),
{
    let mut i: usize = 0;
    while i < triples.len()
        invariant
            i <= triples@.len(),
            p.arena == arena@,
            p.triples == triple_views(triples@),
            triples_wf(p.triples, arena@.len()),
            forall|k: int|
                0 <= k < i ==> !has_name(p.arena, (#[trigger] p.triples[k]).base, name@),
        decreases triples@.len() - i,
    {
        proof {
            assert(p.triples[i as int] == triples@[i as int]@);
        }
        if is_named(arena, triples[i].base_idx(), name) {
            proof {
                assert(has_name(p.arena, p.triples[i as int].base, name@));
            }
            return true;
        }
        i = i + 1;
    }
    false
}

fn is_side_calling(
    arena: &Arena,
    triples: &Vec<Triple>,
    cells: &Vec<Cell>,
    side: Side,
    name: &str,
    Ghost(ctx): Ghost<CtxView>,
) -> (r: bool)
    requires
        triples_wf(triple_views(triples@), arena@.len()),
        cells@.len() == triples@.len(),
    ensures
        r == pass_of(arena@, triples@, cells@, ctx).side_calls(side, name@),
{
    let ghost p = pass_of(arena@, triples@, cells@, ctx);
    let mut i: usize = 0;
    while i < triples.len()
        invariant
            i <= triples@.len() == cells@.len(),
            p == pass_of(arena@, triples@, cells@, ctx),
            triples_wf(triple_views(triples@), arena@.len()),
            forall|k: int| 0 <= k < i ==> !#[trigger] p.adds_call(k, side, name@),
        decreases triples@.len() - i,
    {
        if is_adding_call(arena, triples, cells, i, side, name, Ghost(ctx)) {
            proof {
                assert(p.adds_call(i as int, side, name@));
            }
            return true;
        }
        i = i + 1;
    }
    false
}

/// Hold every one-sided addition against the calls that the other side's new code
/// makes: a call that resolved to something else would be captured.
pub fn shadowed_binding(
    arena: &Arena,
    triples: &Vec<Triple>,
    cells: &Vec<Cell>,
    resolved: &mut Vec<Resolved>,
    ctx: &ResolveCtx,
)
    requires
        pass_of(arena@, triples@, cells@, ctx@).wf(resolved_views(old(resolved)@)),
    ensures
        resolved_views(final(resolved)@) == pass_of(
            arena@,
            triples@,
            cells@,
            ctx@,
        ).after_captures(resolved_views(old(resolved)@)),
        final(resolved)@.len() == old(resolved)@.len(),
{
    let ghost p = pass_of(arena@, triples@, cells@, ctx@);
    let ghost start = resolved_views(resolved@);
    let ghost done = p.after_captures(start);
    let len: usize = resolved.len();
    let mut i: usize = 0;
    proof {
        assert(start =~= spliced(start, done, 0));
    }
    while i < len
        invariant
            i <= len == resolved@.len() == triples@.len() == cells@.len(),
            p == pass_of(arena@, triples@, cells@, ctx@),
            p.wf(start),
            done == p.after_captures(start),
            resolved_views(resolved@) == spliced(start, done, i as int),
        decreases len - i,
    {
        let ghost now = resolved_views(resolved@);
        proof {
            assert(p.triples[i as int] == triples@[i as int]@);
            assert(now[i as int] == resolved@[i as int]@);
            assert(now[i as int] == start[i as int]);
        }
        let emits = match &resolved[i].disposition {
            Disposition::Emit { .. } => true,
            _ => false,
        };
        match cells[i] {
            Cell::AddedOneSide { adder } => {
                if emits {
                    match triples[i].side_idx(adder) {
                        Some(x) => {
                            let e = arena.get(x);
                            let name = e.name();
                            if chars_of(name).len() > 0 && !is_base_defining(
                                arena,
                                triples,
                                name,
                                Ghost(p),
                            ) && is_side_calling(
                                arena,
                                triples,
                                cells,
                                adder.flip(),
                                name,
                                Ghost(ctx@),
                            ) {
                                let text = Some(e.content.clone());
                                let (ours, theirs) = match adder {
                                    Side::Ours => (text, None),
                                    Side::Theirs => (None, text),
                                };
                                let complexity = classify_conflict(
                                    None,
                                    as_opt_str(&ours),
                                    as_opt_str(&theirs),
                                );
                                let conflict = EntityConflict {
                                    entity_name: name.to_owned(),
                                    entity_type: e.entity_type().to_owned(),
                                    kind: ConflictKind::BothAdded,
                                    complexity,
                                    ours_content: ours,
                                    theirs_content: theirs,
                                    base_content: None,
                                };
                                proof {
                                    assert(conflict@ == p.captures(i as int, adder));
                                }
                                put_decision(
                                    resolved,
                                    i,
                                    conflict_disposition(
                                        conflict,
                                        ctx,
                                        ResolutionStrategy::ConflictBothAdded,
                                    ),
                                );
                            }
                        },
                        None => {},
                    }
                }
            },
            _ => {},
        }
        proof {
            assert(resolved_views(resolved@)[i as int] == done[i as int]);
            assert(resolved_views(resolved@) =~= spliced(start, done, i + 1));
        }
        i = i + 1;
    }
    proof {
        assert(spliced(start, done, len as int) =~= done);
    }
}

// ---------------------------------------------------------------------------
// A local that is still read and no longer assigned
// ---------------------------------------------------------------------------

/// The members of one container, as a reader of the language sees them: the key and
/// the text of each.
pub type MemberText = (MemberKey, String);

/// A member's key and text, read as texts.
pub type MemberTextView = (KeyText, Seq<char>);

/// What a reader of the language says of one triple: whether its base entity is a
/// container and, if so, the members of base's text and of the merged text.
#[derive(Debug)]
pub struct Scopes {
    pub is_container: bool,
    pub base: Option<Vec<MemberText>>,
    pub out: Option<Vec<MemberText>>,
}

/// A [`Scopes`] over views.
pub struct ScopesView {
    pub is_container: bool,
    pub base: Option<Seq<MemberTextView>>,
    pub out: Option<Seq<MemberTextView>>,
}

/// The view of an optional list of members.
pub open spec fn opt_members(v: Option<Vec<MemberText>>) -> Option<Seq<MemberTextView>> {
    match v {
        Some(m) => Some(views(m@)),
        None => None,
    }
}

impl View for Scopes {
    type V = ScopesView;

    open spec fn view(&self) -> ScopesView {
        ScopesView {
            is_container: self.is_container,
            base: opt_members(self.base),
            out: opt_members(self.out),
        }
    }
}

/// The words that a reader yields where a member has no name it could read.
pub open spec fn no_member_names() -> Seq<Seq<char>> {
    seq![
        "class"@, "interface"@, "enum"@, "record"@, "struct"@, "impl"@, "trait"@, "namespace"@,
        "module"@, "static"@, "new"@, "return"@, "if"@, "for"@, "while"@, "switch"@, "try"@,
    ]
}

/// Does the key name a member by more than its place?
pub open spec fn names_member(name: Seq<char>) -> bool {
    &&& forall|i: int| 0 <= i < name.len() ==> word_char(#[trigger] name[i])
    &&& !no_member_names().contains(name)
}

fn is_member_name(name: &str) -> (r: bool)
    ensures
        r == names_member(name@),
{
    let c = chars_of(name);
    let mut i: usize = 0;
    while i < c.len()
        invariant
            i <= c@.len(),
            c@ == name@,
            forall|k: int| 0 <= k < i ==> word_char(#[trigger] c@[k]),
        decreases c@.len() - i,
    {
        if !crate::text::is_word_char(c[i]) {
            return false;
        }
        i = i + 1;
    }
    let words: Vec<&str> = vec![
        "class", "interface", "enum", "record", "struct", "impl", "trait", "namespace", "module",
        "static", "new", "return", "if", "for", "while", "switch", "try",
    ];
    let ghost all = words@.map_values(|w: &str| w@);
    proof {
        assert(all =~= no_member_names());
    }
    let mut k: usize = 0;
    while k < words.len()
        invariant
            k <= words@.len(),
            all == words@.map_values(|w: &str| w@),
            all == no_member_names(),
            c@ == name@,
            forall|m: int| 0 <= m < c@.len() ==> word_char(#[trigger] c@[m]),
            forall|m: int| 0 <= m < k ==> #[trigger] all[m] != name@,
        decreases words@.len() - k,
    {
        proof {
            assert(all[k as int] == words@[k as int]@);
        }
        if str_eq(words[k], name) {
            return false;
        }
        k = k + 1;
    }
    true
}

/// The text of the first member, at or after the `i`th, with the key.
pub open spec fn member_text(v: Seq<MemberTextView>, key: KeyText, i: int) -> Option<Seq<char>>
    decreases v.len() - i,
{
    if i < 0 || i >= v.len() {
        None
    } else if v[i].0 == key {
        Some(v[i].1)
    } else {
        member_text(v, key, i + 1)
    }
}

/// Is the name that of one of the members?
pub open spec fn is_member(v: Seq<MemberTextView>, name: Seq<char>) -> bool {
    exists|i: int| 0 <= i < v.len() && (#[trigger] v[i]).0.0 == name
}

/// Is the name bound by the container as a whole: by an assignment or a declaration
/// anywhere in it, or as a member?
pub open spec fn container_binds(text: Seq<char>, out: Seq<MemberTextView>, name: Seq<char>) -> bool {
    bound(text).contains(name) || is_member(out, name)
}

/// Does one of the names escape the container?
pub open spec fn escapes(names: Seq<Seq<char>>, text: Seq<char>, out: Seq<MemberTextView>) -> bool {
    exists|n: int| 0 <= n < names.len() && !container_binds(text, out, #[trigger] names[n])
}

/// Is a local of the `i`th base member left dangling in the merged member with the
/// same key?
pub open spec fn member_dangles(
    base: Seq<MemberTextView>,
    out: Seq<MemberTextView>,
    text: Seq<char>,
    i: int,
) -> bool {
    &&& names_member(base[i].0.0)
    &&& member_text(out, base[i].0, 0) matches Some(t) && escapes(
        dangling_names(base[i].1, t),
        text,
        out,
    )
}

/// Is a local of some member left dangling?
pub open spec fn some_member_dangles(
    base: Seq<MemberTextView>,
    out: Seq<MemberTextView>,
    text: Seq<char>,
) -> bool {
    exists|i: int| 0 <= i < base.len() && #[trigger] member_dangles(base, out, text, i)
}

/// Is a local of base left dangling in the merged text? A container is asked once
/// per member: it is many scopes, not one. Where its members cannot be read, the
/// question is not asked.
pub open spec fn leaves_dangling(base: Seq<char>, text: Seq<char>, scopes: ScopesView) -> bool {
    if scopes.is_container {
        match (scopes.base, scopes.out) {
            (Some(b), Some(o)) => some_member_dangles(b, o, text),
            _ => false,
        }
    } else {
        dangling_names(base, text).len() > 0
    }
}

/// Did the merge itself compose the text?
pub open spec fn composed(strategy: StrategyView) -> bool {
    strategy is DiffyMerged || strategy is DecoratorMerged || strategy is InnerMerged || strategy
        is StatementMerged
}

impl Pass {
    /// The conflict over a whole entity that base has.
    pub open spec fn both_modified(self, i: int) -> EntityConflictView {
        let c = self.case(i);
        let t = self.triples[i];
        EntityConflictView {
            entity_name: c.name(t.base),
            entity_type: c.etype(t.base),
            kind: ConflictKindView::BothModified,
            complexity: complexity_of(c.opt_text(t.base), c.opt_text(t.ours), c.opt_text(t.theirs)),
            ours: c.opt_text(t.ours),
            theirs: c.opt_text(t.theirs),
            base: c.opt_text(t.base),
        }
    }

    /// Is a local left dangling by what the merge composed for the `i`th triple?
    pub open spec fn dangles(self, rs: Seq<ResolvedView>, scopes: Seq<ScopesView>, i: int) -> bool {
        &&& composed(rs[i].strategy)
        &&& rs[i].disposition is Emit
        &&& self.triples[i].base matches Some(b) && leaves_dangling(
            entity_at(self.arena, b).content,
            emit_text(rs[i])->0,
            scopes[i],
        )
    }

    /// The decisions after the texts that the merge composed have been asked for
    /// dangling locals.
    pub open spec fn after_locals(
        self,
        rs: Seq<ResolvedView>,
        scopes: Seq<ScopesView>,
    ) -> Seq<ResolvedView> {
        Seq::new(
            rs.len(),
            |i: int|
                if self.dangles(rs, scopes, i) {
                    conflicted(self.both_modified(i), self.ctx, StrategyView::ConflictBothModified)
                } else {
                    rs[i]
                },
        )
    }
}

fn is_composed(strategy: &ResolutionStrategy) -> (r: bool)
    ensures
        r == composed(strategy@),
{
    match strategy {
        ResolutionStrategy::DiffyMerged | ResolutionStrategy::DecoratorMerged
        | ResolutionStrategy::InnerMerged | ResolutionStrategy::StatementMerged => true,
        _ => false,
    }
}

fn find_member_text<'a>(v: &'a Vec<MemberText>, key: &MemberKey) -> (r: Option<&'a str>)
    ensures
        crate::conflict::opt_str(r) == member_text(views(v@), key@, 0),
{
    let ghost all = views(v@);
    let mut i: usize = 0;
    while i < v.len()
        invariant
            i <= v@.len(),
            all == views(v@),
            member_text(all, key@, i as int) == member_text(all, key@, 0),
        decreases v@.len() - i,
    {
        proof {
            assert(all[i as int] == v@[i as int]@);
        }
        if v[i].0.same_as(key) {
            return Some(v[i].1.as_str());
        }
        i = i + 1;
    }
    None
}

fn is_a_member(v: &Vec<MemberText>, name: &str) -> (r: bool)
    ensures
        r == is_member(views(v@), name@),
{
    let ghost all = views(v@);
    let mut i: usize = 0;
    while i < v.len()
        invariant
            i <= v@.len(),
            all == views(v@),
            forall|k: int| 0 <= k < i ==> (#[trigger] all[k]).0.0 != name@,
        decreases v@.len() - i,
    {
        proof {
            assert(all[i as int] == v@[i as int]@);
        }
        if str_eq(v[i].0.0.as_str(), name) {
            return true;
        }
        i = i + 1;
    }
    false
}

fn is_escaping(names: &Vec<String>, text: &str, bound_names: &Vec<String>, out: &Vec<MemberText>) -> (r:
    bool)
    requires
        strs(bound_names@) == bound(text@),
    ensures
        r == escapes(strs(names@), text@, views(out@)),
{
    let ghost all = strs(names@);
    let mut n: usize = 0;
    while n < names.len()
        invariant
            n <= names@.len(),
            all == strs(names@),
            strs(bound_names@) == bound(text@),
            forall|k: int|
                0 <= k < n ==> container_binds(text@, views(out@), #[trigger] all[k]),
        decreases names@.len() - n,
    {
        proof {
            assert(all[n as int] == names@[n as int]@);
        }
        if !list_has(bound_names, names[n].as_str()) && !is_a_member(out, names[n].as_str()) {
            return true;
        }
        n = n + 1;
    }
    false
}

fn is_leaving_dangling(base: &str, text: &str, scopes: &Scopes) -> (r: bool)
    ensures
        r == leaves_dangling(base@, text@, scopes@),
{
    if !scopes.is_container {
        let names = scope_dangling(base, text);
        proof {
            assert(strs(names@).len() == names@.len());
        }
        return names.len() > 0;
    }
    match (&scopes.base, &scopes.out) {
        (Some(b), Some(o)) => is_some_member_dangling(b, o, text),
        _ => false,
    }
}

fn is_some_member_dangling(b: &Vec<MemberText>, o: &Vec<MemberText>, text: &str) -> (r: bool)
    ensures
        r == some_member_dangles(views(b@), views(o@), text@),
{
    let ghost bv = views(b@);
    let ghost ov = views(o@);
    let bound_names = bound_locals(text);
    let mut i: usize = 0;
    while i < b.len()
        invariant
            i <= b@.len(),
            bv == views(b@),
            ov == views(o@),
            strs(bound_names@) == bound(text@),
            forall|k: int| 0 <= k < i ==> !#[trigger] member_dangles(bv, ov, text@, k),
        decreases b@.len() - i,
    {
        proof {
            assert(bv[i as int] == b@[i as int]@);
        }
        if is_member_name(b[i].0.0.as_str()) {
            match find_member_text(o, &b[i].0) {
                Some(t) => {
                    let names = scope_dangling(b[i].1.as_str(), t);
                    if is_escaping(&names, text, &bound_names, o) {
                        proof {
                            assert(member_dangles(bv, ov, text@, i as int));
                        }
                        return true;
                    }
                },
                None => {},
            }
        }
        i = i + 1;
    }
    false
}

/// Is a local left dangling by what the merge composed for one triple?
fn is_dangling(arena: &Arena, triple: &Triple, r: &Resolved, scopes: &Scopes) -> (d: bool)
    requires
        triple@.wf(arena@.len()),
    ensures
        d == (composed(r@.strategy) && r@.disposition is Emit && triple@.base is Some
            && leaves_dangling(
            entity_at(arena@, triple@.base->0).content,
            emit_text(r@)->0,
            scopes@,
        )),
{
    if !is_composed(&r.strategy) {
        return false;
    }
    match &r.disposition {
        Disposition::Emit { text, .. } => match triple.base_idx() {
            Some(b) => is_leaving_dangling(arena.get(b).content.as_str(), text.as_str(), scopes),
            None => false,
        },
        _ => false,
    }
}

pub(crate) fn text_at(arena: &Arena, idx: Option<Idx>, Ghost(case): Ghost<Case>) -> (r: Option<String>)
    requires
        case.arena == arena@,
        idx_ok(idx, arena@.len()),
    ensures
        opt_view(r) == case.opt_text(idx),
{
    match idx {
        Some(i) => Some(arena.get(i).content.clone()),
        None => None,
    }
}

/// The record of a conflict over a whole entity, with the given name and claims.
pub(crate) fn over_base(
    arena: &Arena,
    base: Idx,
    name: String,
    ours: Option<String>,
    theirs: Option<String>,
) -> (r: EntityConflict)
    requires
        base.0 < arena@.len(),
    ensures
        r@ == (EntityConflictView {
            entity_name: name@,
            entity_type: entity_at(arena@, base).key.entity_type,
            kind: ConflictKindView::BothModified,
            complexity: complexity_of(
                Some(entity_at(arena@, base).content),
                opt_view(ours),
                opt_view(theirs),
            ),
            ours: opt_view(ours),
            theirs: opt_view(theirs),
            base: Some(entity_at(arena@, base).content),
        }),
{
    let e = arena.get(base);
    let complexity = classify_conflict(
        Some(e.content.as_str()),
        as_opt_str(&ours),
        as_opt_str(&theirs),
    );
    EntityConflict {
        entity_name: name,
        entity_type: e.entity_type().to_owned(),
        kind: ConflictKind::BothModified,
        complexity,
        ours_content: ours,
        theirs_content: theirs,
        base_content: Some(e.content.clone()),
    }
}

/// Ask every text that the merge composed for locals that base assigned, and that
/// the text still reads and no longer assigns.
///
/// A body that one side wrote is never asked: a name that it reads and does not
/// assign is that side's own.
pub fn local_dangling(
    arena: &Arena,
    triples: &Vec<Triple>,
    cells: &Vec<Cell>,
    scopes: &Vec<Scopes>,
    resolved: &mut Vec<Resolved>,
    ctx: &ResolveCtx,
)
    requires
        pass_of(arena@, triples@, cells@, ctx@).wf(resolved_views(old(resolved)@)),
        scopes@.len() == triples@.len(),
    ensures
        resolved_views(final(resolved)@) == pass_of(
            arena@,
            triples@,
            cells@,
            ctx@,
        ).after_locals(resolved_views(old(resolved)@), views(scopes@)),
        final(resolved)@.len() == old(resolved)@.len(),
{
    let ghost p = pass_of(arena@, triples@, cells@, ctx@);
    let ghost sv = views(scopes@);
    let ghost start = resolved_views(resolved@);
    let ghost done = p.after_locals(start, sv);
    let len: usize = resolved.len();
    let mut i: usize = 0;
    proof {
        assert(start =~= spliced(start, done, 0));
    }
    while i < len
        invariant
            i <= len == resolved@.len() == triples@.len() == scopes@.len(),
            p == pass_of(arena@, triples@, cells@, ctx@),
            p.wf(start),
            sv == views(scopes@),
            done == p.after_locals(start, sv),
            resolved_views(resolved@) == spliced(start, done, i as int),
        decreases len - i,
    {
        let ghost now = resolved_views(resolved@);
        proof {
            assert(p.triples[i as int] == triples@[i as int]@);
            assert(sv[i as int] == scopes@[i as int]@);
            assert(now[i as int] == resolved@[i as int]@);
            assert(now[i as int] == start[i as int]);
        }
        let dangling = is_dangling(arena, &triples[i], &resolved[i], &scopes[i]);
        proof {
            assert(dangling == p.dangles(start, sv, i as int));
        }
        if dangling {
            match triples[i].base_idx() {
                Some(b) => {
                    let name = arena.get(b).name().to_owned();
                    let ours = text_at(arena, triples[i].ours_idx(), Ghost(p.case(i as int)));
                    let theirs = text_at(arena, triples[i].theirs_idx(), Ghost(p.case(i as int)));
                    let conflict = over_base(arena, b, name, ours, theirs);
                    proof {
                        assert(conflict@ == p.both_modified(i as int));
                    }
                    put_decision(
                        resolved,
                        i,
                        conflict_disposition(
                            conflict,
                            ctx,
                            ResolutionStrategy::ConflictBothModified,
                        ),
                    );
                },
                None => {},
            }
        }
        proof {
            assert(resolved_views(resolved@)[i as int] == done[i as int]);
            assert(resolved_views(resolved@) =~= spliced(start, done, i + 1));
        }
        i = i + 1;
    }
    proof {
        assert(spliced(start, done, len as int) =~= done);
    }
}

// ---------------------------------------------------------------------------
// A body that moved house
// ---------------------------------------------------------------------------

/// The homes that a side gave the body of a base entity, among the first `k` facts;
/// the last such fact counts.
pub open spec fn homes_for(rel: Seq<RelationalView>, b: Idx, side: Side, k: int) -> Option<
    Seq<Idx>,
>
    decreases k,
{
    if k <= 0 {
        None
    } else {
        match rel[k - 1] {
            RelationalView::RehomedInto { deleted, side: s, homes, coverage } => if deleted == b
                && s == side {
                Some(homes)
            } else {
                homes_for(rel, b, side, k - 1)
            },
            _ => homes_for(rel, b, side, k - 1),
        }
    }
}

/// Those of the first `n` homes that are not the triple's own entities.
pub open spec fn strangers(homes: Seq<Idx>, t: TripleView, n: int) -> Seq<Idx>
    decreases n,
{
    if n <= 0 {
        Seq::empty()
    } else if t.ours == Some(homes[n - 1]) || t.theirs == Some(homes[n - 1]) {
        strangers(homes, t, n - 1)
    } else {
        strangers(homes, t, n - 1).push(homes[n - 1])
    }
}

/// The second homes that a side gave the body of a triple's base entity, if any.
pub open spec fn second_homes(rel: Seq<RelationalView>, t: TripleView, b: Idx, side: Side) -> Option<
    Seq<Idx>,
> {
    match homes_for(rel, b, side, rel.len() as int) {
        Some(h) => if strangers(h, t, h.len() as int).len() > 0 {
            Some(strangers(h, t, h.len() as int))
        } else {
            None
        },
        None => None,
    }
}

/// The texts of the entities.
pub open spec fn home_texts(arena: Seq<EntityView>, homes: Seq<Idx>) -> Seq<Seq<char>> {
    homes.map_values(|h: Idx| entity_at(arena, h).content)
}

/// Do the two lists hold the same texts?
pub open spec fn same_texts(a: Seq<Seq<char>>, b: Seq<Seq<char>>) -> bool {
    forall|x: Seq<char>| #[trigger] a.contains(x) <==> b.contains(x)
}

/// The text of a side's own entity, or else the texts of the homes it gave the
/// body.
pub open spec fn own_or_homes(
    arena: Seq<EntityView>,
    own: Option<Seq<char>>,
    homes: Option<Seq<Idx>>,
) -> Option<Seq<char>> {
    match (own, homes) {
        (Some(t), _) => Some(t),
        (None, Some(h)) => Some(join(home_texts(arena, h), "\n"@)),
        (None, None) => None,
    }
}

impl Pass {
    /// Is the `i`th triple the first with its base entity?
    pub open spec fn first_with_base(self, i: int) -> bool {
        forall|j: int| 0 <= j < i ==> (#[trigger] self.triples[j]).base != self.triples[i].base
    }

    /// Would the body of the `i`th base entity come out twice? It moved house, and
    /// is still emitted under its own name, or the two sides moved it into different
    /// homes.
    pub open spec fn doubled(self, rel: Seq<RelationalView>, rs: Seq<ResolvedView>, i: int) -> bool {
        &&& self.triples[i].base matches Some(b) && {
            let o = second_homes(rel, self.triples[i], b, Side::Ours);
            let t = second_homes(rel, self.triples[i], b, Side::Theirs);
            &&& o is Some || t is Some
            &&& rs[i].disposition is Emit || (rs[i].disposition is Drop && o is Some && t is Some
                && !same_texts(home_texts(self.arena, o->0), home_texts(self.arena, t->0)))
        }
        &&& self.first_with_base(i)
    }

    /// The conflict over a body that moved house.
    pub open spec fn moved_house(self, rel: Seq<RelationalView>, i: int) -> EntityConflictView {
        let t = self.triples[i];
        let c = self.case(i);
        let b = t.base->0;
        let ours = own_or_homes(
            self.arena,
            c.opt_text(t.ours),
            second_homes(rel, t, b, Side::Ours),
        );
        let theirs = own_or_homes(
            self.arena,
            c.opt_text(t.theirs),
            second_homes(rel, t, b, Side::Theirs),
        );
        EntityConflictView {
            complexity: complexity_of(c.opt_text(t.base), ours, theirs),
            ours,
            theirs,
            ..self.both_modified(i)
        }
    }

    /// The decisions after bodies that moved house have been counted.
    pub open spec fn after_rehomes(
        self,
        rel: Seq<RelationalView>,
        rs: Seq<ResolvedView>,
    ) -> Seq<ResolvedView> {
        Seq::new(
            rs.len(),
            |i: int|
                if self.doubled(rel, rs, i) {
                    conflicted(
                        self.moved_house(rel, i),
                        self.ctx,
                        StrategyView::ConflictBothModified,
                    )
                } else {
                    rs[i]
                },
        )
    }
}

fn is_own(t: &Triple, x: Idx) -> (r: bool)
    ensures
        r == (t@.ours == Some(x) || t@.theirs == Some(x)),
{
    let o = match t.ours_idx() {
        Some(i) => i == x,
        None => false,
    };
    let u = match t.theirs_idx() {
        Some(i) => i == x,
        None => false,
    };
    o || u
}

fn find_second_homes(rel: &Vec<Relational>, t: &Triple, b: Idx, side: Side) -> (r: Option<Vec<Idx>>)
    ensures
        match r {
            Some(v) => second_homes(relational_views(rel@), t@, b, side) == Some(v@),
            None => second_homes(relational_views(rel@), t@, b, side) is None,
        },
{
    let ghost all = relational_views(rel@);
    let ghost last = homes_for(all, b, side, all.len() as int);
    let mut k: usize = rel.len();
    while k > 0
        invariant
            k <= rel@.len() == all.len(),
            all == relational_views(rel@),
            last == homes_for(all, b, side, all.len() as int),
            homes_for(all, b, side, k as int) == last,
        decreases k,
    {
        proof {
            assert(all[k - 1] == rel@[k - 1]@);
        }
        match &rel[k - 1] {
            Relational::RehomedInto { deleted, side: s, homes, .. } => {
                if *deleted == b && *s == side {
                    let mut out: Vec<Idx> = Vec::new();
                    let mut n: usize = 0;
                    proof {
                        assert(out@ =~= strangers(homes@, t@, 0));
                    }
                    while n < homes.len()
                        invariant
                            n <= homes@.len(),
                            out@ == strangers(homes@, t@, n as int),
                        decreases homes@.len() - n,
                    {
                        if !is_own(t, homes[n]) {
                            out.push(homes[n]);
                        }
                        n = n + 1;
                    }
                    if out.len() > 0 {
                        return Some(out);
                    }
                    return None;
                }
            },
            _ => {},
        }
        k = k - 1;
    }
    None
}

pub(crate) fn texts_of(arena: &Arena, homes: &Vec<Idx>) -> (r: Vec<String>)
    requires
        crate::v2::relational::all_ok(homes@, arena@.len()),
    ensures
        strs(r@) == home_texts(arena@, homes@),
{
    let mut out: Vec<String> = Vec::new();
    let mut k: usize = 0;
    while k < homes.len()
        invariant
            k <= homes@.len(),
            crate::v2::relational::all_ok(homes@, arena@.len()),
            out@.len() == k,
            forall|m: int|
                0 <= m < k ==> (#[trigger] out@[m])@ == entity_at(arena@, homes@[m]).content,
        decreases homes@.len() - k,
    {
        out.push(arena.get(homes[k]).content.clone());
        k = k + 1;
    }
    proof {
        assert(strs(out@) =~= home_texts(arena@, homes@));
    }
    out
}

pub(crate) fn holds_all(a: &Vec<String>, b: &Vec<String>) -> (r: bool)
    ensures
        r == (forall|x: Seq<char>| strs(a@).contains(x) ==> #[trigger] strs(b@).contains(x)),
{
    let ghost av = strs(a@);
    let ghost bv = strs(b@);
    let mut k: usize = 0;
    while k < a.len()
        invariant
            k <= a@.len() == av.len(),
            av == strs(a@),
            bv == strs(b@),
            forall|m: int| 0 <= m < k ==> bv.contains(#[trigger] av[m]),
        decreases a@.len() - k,
    {
        proof {
            assert(av[k as int] == a@[k as int]@);
        }
        if !list_has(b, a[k].as_str()) {
            proof {
                assert(av.contains(av[k as int]));
            }
            return false;
        }
        k = k + 1;
    }
    true
}

pub(crate) fn is_same_texts(a: &Vec<String>, b: &Vec<String>) -> (r: bool)
    ensures
        r == same_texts(strs(a@), strs(b@)),
{
    let there = holds_all(a, b);
    let back = holds_all(b, a);
    proof {
        let av = strs(a@);
        let bv = strs(b@);
        if there && back {
            assert forall|x: Seq<char>| #[trigger] av.contains(x) <==> bv.contains(x) by {
            }
        } else if same_texts(av, bv) {
            assert forall|x: Seq<char>| av.contains(x) implies #[trigger] bv.contains(x) by {
            }
            assert forall|x: Seq<char>| bv.contains(x) implies #[trigger] av.contains(x) by {
            }
        }
    }
    there && back
}

proof fn homes_are_ok(rel: Seq<RelationalView>, t: TripleView, b: Idx, side: Side, n: nat, k: int)
    requires
        crate::v2::relational::relations_ok(rel, n),
        0 <= k <= rel.len(),
    ensures
        homes_for(rel, b, side, k) matches Some(h) ==> crate::v2::relational::all_ok(h, n)
            && crate::v2::relational::all_ok(strangers(h, t, h.len() as int), n),
    decreases k,
{
    if k > 0 {
        homes_are_ok(rel, t, b, side, n, k - 1);
        assert(crate::v2::relational::relation_ok(rel[k - 1], n));
        if let Some(h) = homes_for(rel, b, side, k) {
            strangers_are_ok(h, t, n, h.len() as int);
        }
    }
}

proof fn strangers_are_ok(h: Seq<Idx>, t: TripleView, n: nat, k: int)
    requires
        crate::v2::relational::all_ok(h, n),
        0 <= k <= h.len(),
    ensures
        crate::v2::relational::all_ok(strangers(h, t, k), n),
    decreases k,
{
    if k > 0 {
        strangers_are_ok(h, t, n, k - 1);
    }
}

fn is_first_with_base(triples: &Vec<Triple>, i: usize, Ghost(p): Ghost<Pass>) -> (r: bool)
    requires
        i < triples@.len(),
        p.triples == triple_views(triples@),
    ensures
        r == p.first_with_base(i as int),
{
    proof {
        assert(p.triples[i as int] == triples@[i as int]@);
    }
    let mine = triples[i].base_idx();
    let mut j: usize = 0;
    while j < i
        invariant
            j <= i < triples@.len(),
            p.triples == triple_views(triples@),
            mine == p.triples[i as int].base,
            forall|k: int| 0 <= k < j ==> (#[trigger] p.triples[k]).base != mine,
        decreases i - j,
    {
        proof {
            assert(p.triples[j as int] == triples@[j as int]@);
        }
        let same = match (triples[j].base_idx(), mine) {
            (Some(a), Some(b)) => a == b,
            (None, None) => true,
            _ => false,
        };
        if same {
            return false;
        }
        j = j + 1;
    }
    true
}

/// The conflict over the `i`th body, where it would come out twice.
fn house_conflict(
    arena: &Arena,
    triples: &Vec<Triple>,
    relational: &Vec<Relational>,
    r: &Resolved,
    i: usize,
    Ghost(p): Ghost<Pass>,
    Ghost(rs): Ghost<Seq<ResolvedView>>,
) -> (c: Option<EntityConflict>)
    requires
        p.arena == arena@,
        p.triples == triple_views(triples@),
        p.wf(rs),
        i < triples@.len(),
        r@ == rs[i as int],
        crate::v2::relational::relations_ok(relational_views(relational@), arena@.len()),
    ensures
        c is Some <==> p.doubled(relational_views(relational@), rs, i as int),
        c matches Some(x) ==> x@ == p.moved_house(relational_views(relational@), i as int),
{
    let ghost rel = relational_views(relational@);
    proof {
        assert(p.triples[i as int] == triples@[i as int]@);
    }
    let t = &triples[i];
    let b = match t.base_idx() {
        Some(b) => b,
        None => {
            return None;
        },
    };
    if r.disposition.is_conflict() || !is_first_with_base(triples, i, Ghost(p)) {
        return None;
    }
    proof {
        homes_are_ok(rel, t@, b, Side::Ours, arena@.len(), rel.len() as int);
        homes_are_ok(rel, t@, b, Side::Theirs, arena@.len(), rel.len() as int);
    }
    let oh = find_second_homes(relational, t, b, Side::Ours);
    let th = find_second_homes(relational, t, b, Side::Theirs);
    let ours_homes = match &oh {
        Some(h) => Some(texts_of(arena, h)),
        None => None,
    };
    let theirs_homes = match &th {
        Some(h) => Some(texts_of(arena, h)),
        None => None,
    };
    if r.disposition.is_drop() {
        let differ = match (&ours_homes, &theirs_homes) {
            (Some(a), Some(b)) => !is_same_texts(a, b),
            _ => false,
        };
        if !differ {
            return None;
        }
    } else if ours_homes.is_none() && theirs_homes.is_none() {
        return None;
    }
    let ours = match text_at(arena, t.ours_idx(), Ghost(p.case(i as int))) {
        Some(x) => Some(x),
        None => match &ours_homes {
            Some(h) => Some(join_strings(h, "\n")),
            None => None,
        },
    };
    let theirs = match text_at(arena, t.theirs_idx(), Ghost(p.case(i as int))) {
        Some(x) => Some(x),
        None => match &theirs_homes {
            Some(h) => Some(join_strings(h, "\n")),
            None => None,
        },
    };
    let name = arena.get(b).name().to_owned();
    Some(over_base(arena, b, name, ours, theirs))
}

/// A base body that moved house is still the same body: where it would come out
/// twice, it is a conflict.
pub fn rehome_duplication(
    arena: &Arena,
    triples: &Vec<Triple>,
    cells: &Vec<Cell>,
    relational: &Vec<Relational>,
    resolved: &mut Vec<Resolved>,
    ctx: &ResolveCtx,
)
    requires
        pass_of(arena@, triples@, cells@, ctx@).wf(resolved_views(old(resolved)@)),
        crate::v2::relational::relations_ok(relational_views(relational@), arena@.len()),
    ensures
        resolved_views(final(resolved)@) == pass_of(
            arena@,
            triples@,
            cells@,
            ctx@,
        ).after_rehomes(relational_views(relational@), resolved_views(old(resolved)@)),
        final(resolved)@.len() == old(resolved)@.len(),
{
    let ghost p = pass_of(arena@, triples@, cells@, ctx@);
    let ghost rel = relational_views(relational@);
    let ghost start = resolved_views(resolved@);
    let ghost done = p.after_rehomes(rel, start);
    let len: usize = resolved.len();
    let mut i: usize = 0;
    proof {
        assert(start =~= spliced(start, done, 0));
    }
    while i < len
        invariant
            i <= len == resolved@.len() == triples@.len(),
            p == pass_of(arena@, triples@, cells@, ctx@),
            rel == relational_views(relational@),
            crate::v2::relational::relations_ok(rel, arena@.len()),
            p.wf(start),
            done == p.after_rehomes(rel, start),
            resolved_views(resolved@) == spliced(start, done, i as int),
        decreases len - i,
    {
        let ghost now = resolved_views(resolved@);
        proof {
            assert(now[i as int] == resolved@[i as int]@);
            assert(now[i as int] == start[i as int]);
        }
        match house_conflict(
            arena,
            triples,
            relational,
            &resolved[i],
            i,
            Ghost(p),
            Ghost(start),
        ) {
            Some(conflict) => {
                put_decision(
                    resolved,
                    i,
                    conflict_disposition(conflict, ctx, ResolutionStrategy::ConflictBothModified),
                );
            },
            None => {},
        }
        proof {
            assert(resolved_views(resolved@)[i as int] == done[i as int]);
            assert(resolved_views(resolved@) =~= spliced(start, done, i + 1));
        }
        i = i + 1;
    }
    proof {
        assert(spliced(start, done, len as int) =~= done);
    }
}

// ---------------------------------------------------------------------------
// Disjoint composition, as a license
// ---------------------------------------------------------------------------

/// What a merge with the license granted made of one triple: the text, and every
/// place where it put two blocks together on evidence.
#[derive(Debug)]
pub struct Attempt {
    pub merged: InnerMergeResult,
    pub evidence: Vec<LicensedGap>,
}

/// An [`Attempt`] over views.
pub struct AttemptView {
    pub merged: InnerView,
    pub evidence: Seq<GapView>,
}

impl View for Attempt {
    type V = AttemptView;

    open spec fn view(&self) -> AttemptView {
        AttemptView { merged: self.merged@, evidence: gap_views(self.evidence@) }
    }
}

/// The views of a list of attempts.
pub open spec fn attempt_views(v: Seq<Option<Attempt>>) -> Seq<Option<AttemptView>> {
    v.map_values(
        |a: Option<Attempt>|
            match a {
                Some(x) => Some(x@),
                None => None,
            },
    )
}

/// The attempts that may be taken: not those at a box that holds the homes of what
/// both sides took apart.
pub open spec fn permitted(
    attempts: Seq<Option<AttemptView>>,
    boxed: Seq<bool>,
) -> Seq<Option<AttemptView>> {
    Seq::new(
        attempts.len(),
        |i: int|
            if boxed[i] {
                None
            } else {
                attempts[i]
            },
    )
}

/// Is the strategy one that leaves a conflict over a whole body?
pub open spec fn licensable(strategy: StrategyView) -> bool {
    strategy is ConflictBothModified || strategy is InnerMerged || strategy
        is ConflictStatementScoped
}

impl Pass {
    /// Is the license granted? The triple conflicts after the whole ladder, all three
    /// versions are there, and the licensed merge is clean and rests on evidence.
    pub open spec fn licensed(
        self,
        rs: Seq<ResolvedView>,
        attempts: Seq<Option<AttemptView>>,
        i: int,
    ) -> bool {
        &&& licensable(rs[i].strategy)
        &&& rs[i].disposition is Conflict
        &&& self.triples[i].base is Some
        &&& self.triples[i].ours is Some
        &&& self.triples[i].theirs is Some
        &&& attempts[i] is Some
        &&& !attempts[i]->0.merged.has_conflicts
        &&& attempts[i]->0.evidence.len() > 0
    }

    /// The decisions after the licenses.
    pub open spec fn after_licenses(
        self,
        rs: Seq<ResolvedView>,
        attempts: Seq<Option<AttemptView>>,
    ) -> Seq<ResolvedView> {
        Seq::new(
            rs.len(),
            |i: int|
                if self.licensed(rs, attempts, i) {
                    decided(
                        DispositionView::Emit {
                            text: attempts[i]->0.merged.content,
                            name: self.case(i).name(self.triples[i].base),
                        },
                        StrategyView::FootprintLicensed,
                        Tally::BothMerged,
                    )
                } else {
                    rs[i]
                },
        )
    }

    /// What is reported of one triple's license: the names that each side's block
    /// binds, for every place.
    pub open spec fn license_findings(
        self,
        file_path: Seq<char>,
        attempts: Seq<Option<AttemptView>>,
        i: int,
    ) -> Seq<WarningView> {
        attempts[i]->0.evidence.map_values(
            |g: GapView|
                WarningView {
                    entity_name: self.case(i).name(self.triples[i].base),
                    entity_type: self.case(i).etype(self.triples[i].base),
                    file_path,
                    kind: WarningKindView::CompositionLicensed {
                        ours_binds: g.ours_binds,
                        theirs_binds: g.theirs_binds,
                    },
                    related: Seq::empty(),
                },
        )
    }

    /// What is reported of the licenses of the first `k` triples.
    pub open spec fn findings_upto(
        self,
        rs: Seq<ResolvedView>,
        file_path: Seq<char>,
        attempts: Seq<Option<AttemptView>>,
        k: int,
    ) -> Seq<WarningView>
        decreases k,
    {
        if k <= 0 {
            Seq::empty()
        } else if self.licensed(rs, attempts, k - 1) {
            self.findings_upto(rs, file_path, attempts, k - 1) + self.license_findings(
                file_path,
                attempts,
                k - 1,
            )
        } else {
            self.findings_upto(rs, file_path, attempts, k - 1)
        }
    }
}

fn is_licensable(strategy: &ResolutionStrategy) -> (r: bool)
    ensures
        r == licensable(strategy@),
{
    match strategy {
        ResolutionStrategy::ConflictBothModified | ResolutionStrategy::InnerMerged
        | ResolutionStrategy::ConflictStatementScoped => true,
        _ => false,
    }
}

fn report_license(
    findings: &mut Vec<SemanticWarning>,
    name: &str,
    entity_type: &str,
    file_path: &str,
    evidence: &Vec<LicensedGap>,
)
    ensures
        views(final(findings)@) == views(old(findings)@) + gap_views(evidence@).map_values(
            |g: GapView|
                WarningView {
                    entity_name: name@,
                    entity_type: entity_type@,
                    file_path: file_path@,
                    kind: WarningKindView::CompositionLicensed {
                        ours_binds: g.ours_binds,
                        theirs_binds: g.theirs_binds,
                    },
                    related: Seq::empty(),
                },
        ),
{
    let ghost before = views(findings@);
    let ghost gaps = gap_views(evidence@);
    let ghost all = gaps.map_values(
        |g: GapView|
            WarningView {
                entity_name: name@,
                entity_type: entity_type@,
                file_path: file_path@,
                kind: WarningKindView::CompositionLicensed {
                    ours_binds: g.ours_binds,
                    theirs_binds: g.theirs_binds,
                },
                related: Seq::empty(),
            },
    );
    let mut k: usize = 0;
    proof {
        assert(before =~= before + all.take(0));
    }
    while k < evidence.len()
        invariant
            k <= evidence@.len() == gaps.len() == all.len(),
            gaps == gap_views(evidence@),
            all == gaps.map_values(
                |g: GapView|
                    WarningView {
                        entity_name: name@,
                        entity_type: entity_type@,
                        file_path: file_path@,
                        kind: WarningKindView::CompositionLicensed {
                            ours_binds: g.ours_binds,
                            theirs_binds: g.theirs_binds,
                        },
                        related: Seq::empty(),
                    },
            ),
            views(findings@) == before + all.take(k as int),
        decreases evidence@.len() - k,
    {
        let gap = &evidence[k];
        let warning = SemanticWarning {
            entity_name: name.to_owned(),
            entity_type: entity_type.to_owned(),
            file_path: file_path.to_owned(),
            kind: WarningKind::CompositionLicensed {
                ours_binds: copy_strings(&gap.ours_binds),
                theirs_binds: copy_strings(&gap.theirs_binds),
            },
            related: Vec::new(),
        };
        let ghost held = views(findings@);
        let ghost wv = warning@;
        findings.push(warning);
        proof {
            assert(gaps[k as int] == gap@);
            assert(wv.related =~= Seq::empty());
            assert(wv == all[k as int]);
            assert(views(findings@) =~= held.push(wv));
            assert(all.take(k + 1) =~= all.take(k as int).push(wv));
        }
        k = k + 1;
    }
    proof {
        assert(all.take(k as int) =~= all);
    }
}

/// Resolve a conflict that the ladder refused, where the two sides write nothing
/// that the other writes or reads. `attempts` holds what the licensed merges made of
/// each triple, and `boxed` says where no license is given; every license is reported
/// with the names each side's block binds.
pub fn footprint_license(
    arena: &Arena,
    triples: &Vec<Triple>,
    cells: &Vec<Cell>,
    attempts: &Vec<Option<Attempt>>,
    boxed: &Vec<bool>,
    resolved: &mut Vec<Resolved>,
    file_path: &str,
    ctx: &ResolveCtx,
) -> (r: Vec<SemanticWarning>)
    requires
        pass_of(arena@, triples@, cells@, ctx@).wf(resolved_views(old(resolved)@)),
        attempts@.len() == triples@.len(),
        boxed@.len() == triples@.len(),
    ensures
        resolved_views(final(resolved)@) == pass_of(
            arena@,
            triples@,
            cells@,
            ctx@,
        ).after_licenses(
            resolved_views(old(resolved)@),
            permitted(attempt_views(attempts@), boxed@),
        ),
        views(r@) == pass_of(arena@, triples@, cells@, ctx@).findings_upto(
            resolved_views(old(resolved)@),
            file_path@,
            permitted(attempt_views(attempts@), boxed@),
            triples@.len() as int,
        ),
        final(resolved)@.len() == old(resolved)@.len(),
{
    let ghost p = pass_of(arena@, triples@, cells@, ctx@);
    let ghost av = permitted(attempt_views(attempts@), boxed@);
    let ghost start = resolved_views(resolved@);
    let ghost done = p.after_licenses(start, av);
    let len: usize = resolved.len();
    let mut findings: Vec<SemanticWarning> = Vec::new();
    let mut i: usize = 0;
    proof {
        assert(start =~= spliced(start, done, 0));
        assert(views(findings@) =~= Seq::empty());
    }
    while i < len
        invariant
            i <= len == resolved@.len() == triples@.len() == attempts@.len() == boxed@.len(),
            p == pass_of(arena@, triples@, cells@, ctx@),
            p.wf(start),
            av == permitted(attempt_views(attempts@), boxed@),
            done == p.after_licenses(start, av),
            resolved_views(resolved@) == spliced(start, done, i as int),
            views(findings@) == p.findings_upto(start, file_path@, av, i as int),
        decreases len - i,
    {
        let ghost now = resolved_views(resolved@);
        proof {
            assert(p.triples[i as int] == triples@[i as int]@);
            assert(now[i as int] == resolved@[i as int]@);
            assert(now[i as int] == start[i as int]);
            assert(attempts@[i as int] is Some && !boxed@[i as int] ==> av[i as int] == Some(
                attempts@[i as int]->0@,
            ));
            assert(attempts@[i as int] is None || boxed@[i as int] ==> av[i as int] is None);
        }
        if !boxed[i] && is_licensable(&resolved[i].strategy) && resolved[i].disposition.is_conflict() {
            match (triples[i].base_idx(), triples[i].ours_idx(), triples[i].theirs_idx()) {
                (Some(b), Some(_), Some(_)) => match &attempts[i] {
                    Some(a) => {
                        if !a.merged.has_conflicts && a.evidence.len() > 0 {
                            let e = arena.get(b);
                            report_license(
                                &mut findings,
                                e.name(),
                                e.entity_type(),
                                file_path,
                                &a.evidence,
                            );
                            put_decision(
                                resolved,
                                i,
                                Resolved::revised(
                                    Disposition::Emit {
                                        text: a.merged.content.clone(),
                                        name: e.name().to_owned(),
                                    },
                                    ResolutionStrategy::FootprintLicensed,
                                    Tally::BothMerged,
                                ),
                            );
                        }
                    },
                    None => {},
                },
                _ => {},
            }
        }
        proof {
            assert(resolved_views(resolved@)[i as int] == done[i as int]);
            assert(resolved_views(resolved@) =~= spliced(start, done, i + 1));
        }
        i = i + 1;
    }
    proof {
        assert(spliced(start, done, len as int) =~= done);
    }
    findings
}

// ---------------------------------------------------------------------------
// The stage
// ---------------------------------------------------------------------------

impl Pass {
    /// The decisions after the passes over names: renames are followed first, so that
    /// every rename has been consumed before anything is revised.
    pub open spec fn after_names(self, rs: Seq<ResolvedView>) -> Seq<ResolvedView> {
        self.after_captures(self.after_deletions(self.repaired(rs, rs.len() as int).0))
    }

    /// The decisions in front of the contests.
    pub open spec fn before_contests(
        self,
        rel: Seq<RelationalView>,
        rs: Seq<ResolvedView>,
        scopes: Seq<ScopesView>,
    ) -> Seq<ResolvedView> {
        self.after_landings(rel, self.after_rehomes(rel, self.after_locals(rs, scopes)))
    }

    /// The decisions after the passes over scopes and over bodies that were moved,
    /// before any license.
    pub open spec fn after_scopes(
        self,
        rel: Seq<RelationalView>,
        rs: Seq<ResolvedView>,
        scopes: Seq<ScopesView>,
    ) -> Seq<ResolvedView> {
        self.after_contests(rel, self.before_contests(rel, rs, scopes))
    }

    /// The attempts that may be taken after the passes over scopes.
    pub open spec fn open_attempts(
        self,
        rel: Seq<RelationalView>,
        rs: Seq<ResolvedView>,
        scopes: Seq<ScopesView>,
        attempts: Seq<Option<AttemptView>>,
    ) -> Seq<Option<AttemptView>> {
        permitted(attempts, self.boxed(rel, self.before_contests(rel, rs, scopes)))
    }
}

/// The passes over names. Returns how many texts had calls rewritten.
pub fn bind_names(
    arena: &Arena,
    triples: &Vec<Triple>,
    cells: &Vec<Cell>,
    resolved: &mut Vec<Resolved>,
    ctx: &ResolveCtx,
) -> (r: u128)
    requires
        pass_of(arena@, triples@, cells@, ctx@).wf(resolved_views(old(resolved)@)),
    ensures
        resolved_views(final(resolved)@) == pass_of(arena@, triples@, cells@, ctx@).after_names(
            resolved_views(old(resolved)@),
        ),
        r as nat == pass_of(arena@, triples@, cells@, ctx@).repaired(
            resolved_views(old(resolved)@),
            old(resolved)@.len() as int,
        ).1,
        final(resolved)@.len() == old(resolved)@.len(),
{
    let rewritten: u128 = rename_repair(arena, triples, cells, resolved, ctx);
    delete_vs_new_caller(arena, triples, cells, resolved, ctx);
    shadowed_binding(arena, triples, cells, resolved, ctx);
    rewritten
}

/// The passes over scopes and over bodies that were moved; the license comes last,
/// so that it is only ever granted over a conflict that survived the whole stage.
pub fn bind_scopes(
    arena: &Arena,
    triples: &Vec<Triple>,
    cells: &Vec<Cell>,
    relational: &Vec<Relational>,
    scopes: &Vec<Scopes>,
    attempts: &Vec<Option<Attempt>>,
    resolved: &mut Vec<Resolved>,
    file_path: &str,
    ctx: &ResolveCtx,
) -> (r: Vec<SemanticWarning>)
    requires
        pass_of(arena@, triples@, cells@, ctx@).wf(resolved_views(old(resolved)@)),
        crate::v2::relational::relations_ok(relational_views(relational@), arena@.len()),
        scopes@.len() == triples@.len(),
        attempts@.len() == triples@.len(),
    ensures
        ({
            let p = pass_of(arena@, triples@, cells@, ctx@);
            let before = p.after_scopes(
                relational_views(relational@),
                resolved_views(old(resolved)@),
                views(scopes@),
            );
            let open = p.open_attempts(
                relational_views(relational@),
                resolved_views(old(resolved)@),
                views(scopes@),
                attempt_views(attempts@),
            );
            &&& resolved_views(final(resolved)@) == p.after_licenses(before, open)
            &&& views(r@) == p.findings_upto(before, file_path@, open, triples@.len() as int)
        }),
        final(resolved)@.len() == old(resolved)@.len(),
{
    local_dangling(arena, triples, cells, scopes, resolved, ctx);
    rehome_duplication(arena, triples, cells, relational, resolved, ctx);
    crate::v2::extraction::extracted_edit_landing(
        arena,
        triples,
        cells,
        relational,
        resolved,
        ctx,
    );
    let boxed = crate::v2::extraction::contested_extraction(
        arena,
        triples,
        cells,
        relational,
        resolved,
        ctx,
    );
    footprint_license(arena, triples, cells, attempts, &boxed, resolved, file_path, ctx)
}

// ---------------------------------------------------------------------------
// Laws
// ---------------------------------------------------------------------------

/// The checks only refuse: a decision they change has become a conflict.
pub proof fn a_check_only_refuses(
    p: Pass,
    rel: Seq<RelationalView>,
    rs: Seq<ResolvedView>,
    scopes: Seq<ScopesView>,
    i: int,
)
    requires
        0 <= i < rs.len(),
    ensures
        p.after_deletions(rs)[i] == rs[i] || p.after_deletions(rs)[i].disposition is Conflict,
        p.after_captures(rs)[i] == rs[i] || p.after_captures(rs)[i].disposition is Conflict,
        p.after_locals(rs, scopes)[i] == rs[i] || p.after_locals(
            rs,
            scopes,
        )[i].disposition is Conflict,
        p.after_rehomes(rel, rs)[i] == rs[i] || p.after_rehomes(rel, rs)[i].disposition is Conflict,
{
}

/// A license reaches only conflicts, and can do nothing but resolve them.
pub proof fn a_license_only_resolves_conflicts(
    p: Pass,
    rs: Seq<ResolvedView>,
    attempts: Seq<Option<AttemptView>>,
    i: int,
)
    requires
        0 <= i < rs.len(),
    ensures
        p.after_licenses(rs, attempts)[i] != rs[i] ==> rs[i].disposition is Conflict
            && p.after_licenses(rs, attempts)[i].disposition is Emit,
        !(rs[i].disposition is Conflict) ==> p.after_licenses(rs, attempts)[i] == rs[i],
{
}

impl Pass {
    /// The same pass with the sides of every triple exchanged.
    pub open spec fn swapped(self) -> Pass {
        Pass { triples: self.triples.map_values(|t: TripleView| t.swapped()), ..self }
    }
}

proof fn swapped_defined(p: Pass, rs: Seq<ResolvedView>, name: Seq<char>)
    requires
        rs.len() == p.triples.len(),
    ensures
        p.swapped().defined(rs, name) == p.defined(rs, name),
{
    let q = p.swapped();
    assert forall|i: int| 0 <= i < rs.len() implies writes_name(
        q.arena,
        q.triples[i],
        #[trigger] rs[i],
        name,
    ) == writes_name(p.arena, p.triples[i], rs[i], name) by {
        assert(q.triples[i] == p.triples[i].swapped());
    }
    if p.defined(rs, name) {
        let i = choose|i: int|
            0 <= i < rs.len() && writes_name(p.arena, p.triples[i], #[trigger] rs[i], name);
        assert(writes_name(q.arena, q.triples[i], rs[i], name));
    }
    if q.defined(rs, name) {
        let i = choose|i: int|
            0 <= i < rs.len() && writes_name(q.arena, q.triples[i], #[trigger] rs[i], name);
        assert(writes_name(p.arena, p.triples[i], rs[i], name));
    }
}

/// Calls are repaired the same way whichever side did the renaming.
pub proof fn rename_repair_is_symmetric(p: Pass, rs: Seq<ResolvedView>, k: int)
    requires
        rs.len() == p.triples.len(),
    ensures
        p.swapped().repaired(rs, k) == p.repaired(rs, k),
    decreases k,
{
    if k > 0 {
        rename_repair_is_symmetric(p, rs, k - 1);
        if rs[k - 1].rename is Some {
            swapped_defined(p, rs, (rs[k - 1].rename->0).0);
        }
    }
}

/// Where a rename is followed in a text, the text no longer calls the old name.
pub proof fn a_followed_rename_leaves_no_call(
    before: Seq<ResolvedView>,
    rs: Seq<ResolvedView>,
    owner: int,
    from: Seq<char>,
    to: Seq<char>,
    i: int,
)
    requires
        0 <= i < rs.len(),
        follows(before, rs, owner, from, i),
        identifier(to),
        from != to,
    ensures
        !emits_call(followed(before, rs, owner, from, to, rs.len() as int)[i], from),
{
    a_replaced_name_is_not_called(emit_text(rs[i])->0, from, to);
}


// ---------------------------------------------------------------------------
// What a reader of the language is asked
// ---------------------------------------------------------------------------

/// What is asked about the members of one triple: the type and the text of its base
/// entity, and the text that is emitted for it.
#[derive(Debug)]
pub struct ScopeQuestion {
    pub entity_type: String,
    pub base: String,
    pub out: Option<String>,
}

/// What a reader is asked about the members of a triple, where it has a base entity.
pub fn scope_question(arena: &Arena, triple: &Triple, resolved: &Resolved) -> (r: Option<
    ScopeQuestion,
>)
    requires
        triple@.wf(arena@.len()),
    ensures
        match triple@.base {
            Some(b) => r matches Some(q) && q.entity_type@ == entity_at(
                arena@,
                b,
            ).key.entity_type && q.base@ == entity_at(arena@, b).content && opt_view(q.out)
                == resolved@.disposition.emitted(),
            None => r is None,
        },
{
    match triple.base_idx() {
        Some(b) => {
            let e = arena.get(b);
            let out = match resolved.disposition.emitted() {
                Some(text) => Some(text.to_owned()),
                None => None,
            };
            Some(
                ScopeQuestion {
                    entity_type: e.entity_type().to_owned(),
                    base: e.content.clone(),
                    out,
                },
            )
        },
        None => None,
    }
}

/// What a merge with the license granted is asked about a triple, where every version
/// has the entity: the three texts, under base's name and type.
pub fn license_question(arena: &Arena, triple: &Triple) -> (r: Option<Contested>)
    requires
        triple@.wf(arena@.len()),
    ensures
        match (triple@.base, triple@.ours, triple@.theirs) {
            (Some(b), Some(o), Some(t)) => r matches Some(q) && q@ == (BothChanged {
                base: entity_at(arena@, b).content,
                ours: entity_at(arena@, o).content,
                theirs: entity_at(arena@, t).content,
                name: entity_at(arena@, b).key.name,
                entity_type: entity_at(arena@, b).key.entity_type,
            }),
            _ => r is None,
        },
{
    match (triple.base_idx(), triple.ours_idx(), triple.theirs_idx()) {
        (Some(b), Some(o), Some(t)) => {
            let e = arena.get(b);
            Some(
                Contested {
                    base: e.content.clone(),
                    ours: arena.get(o).content.clone(),
                    theirs: arena.get(t).content.clone(),
                    name: e.name().to_owned(),
                    entity_type: e.entity_type().to_owned(),
                },
            )
        },
        _ => None,
    }
}


// ---------------------------------------------------------------------------
// What the checks promise of the merge
// ---------------------------------------------------------------------------

impl Pass {
    /// The pass with the sides exchanged.
    pub open spec fn mirrored(self) -> Pass {
        Pass {
            triples: self.triples.map_values(|t: TripleView| t.swapped()),
            cells: self.cells.map_values(|c: Cell| c.flipped()),
            ..self
        }
    }

    /// Did the side add the `j`th entity, with a call of the name in it? Base does not
    /// have it and the side does.
    pub open spec fn brings_call(self, j: int, side: Side, name: Seq<char>) -> bool {
        &&& 0 <= j < self.triples.len()
        &&& self.triples[j].base is None
        &&& self.triples[j].side(side) matches Some(x) && calls(
            entity_at(self.arena, x).content,
            name,
        )
    }

    /// Does no decision write the name down any more, neither as what it emits nor, in a
    /// conflict, as what a side has?
    pub open spec fn is_gone(self, rs: Seq<ResolvedView>, name: Seq<char>) -> bool {
        forall|k: int|
            0 <= k < rs.len() ==> match (#[trigger] rs[k]).disposition {
                DispositionView::Emit { text, name: n } => n != name,
                DispositionView::Conflict { text, conflict } => !has_name(
                    self.arena,
                    self.triples[k].ours,
                    name,
                ) && !has_name(self.arena, self.triples[k].theirs, name),
                DispositionView::Drop => true,
            }
    }
}

proof fn gone_is_not_defined(p: Pass, rs: Seq<ResolvedView>, name: Seq<char>)
    ensures
        p.is_gone(rs, name) <==> !p.defined(rs, name),
{
    if p.is_gone(rs, name) && p.defined(rs, name) {
        let i = choose|i: int|
            0 <= i < rs.len() && writes_name(p.arena, p.triples[i], #[trigger] rs[i], name);
        assert(writes_name(p.arena, p.triples[i], rs[i], name));
    }
    if !p.defined(rs, name) {
        assert forall|k: int| 0 <= k < rs.len() implies match (#[trigger] rs[k]).disposition {
            DispositionView::Emit { text, name: n } => n != name,
            DispositionView::Conflict { text, conflict } => !has_name(
                p.arena,
                p.triples[k].ours,
                name,
            ) && !has_name(p.arena, p.triples[k].theirs, name),
            DispositionView::Drop => true,
        } by {
            assert(!writes_name(p.arena, p.triples[k], rs[k], name));
        }
    }
}

proof fn cases_say_what_was_done(p: Pass, i: int, side: Side)
    requires
        p.cells == cells_of(p.arena, p.triples),
        0 <= i < p.triples.len(),
    ensures
        adds(p.cells[i], side) <==> p.triples[i].base is None && p.triples[i].side(side) is Some,
        deletes(p.cells[i], side) <==> p.triples[i].base is Some && p.triples[i].side(
            side,
        ) is None,
{
    assert(p.cells[i] == cell_of(p.arena, p.triples[i]));
}

proof fn calls_are_brought(p: Pass, i: int, side: Side, name: Seq<char>)
    requires
        p.cells == cells_of(p.arena, p.triples),
        0 <= i < p.triples.len(),
    ensures
        p.adds_call(i, side, name) <==> p.brings_call(i, side, name),
{
    cases_say_what_was_done(p, i, side);
}

proof fn a_caller_is_found(p: Pass, cell: Cell, name: Seq<char>, i: int)
    requires
        0 <= i,
    ensures
        match p.caller(cell, name, i) {
            Some(side) => !deletes(cell, side) && exists|j: int|
                i <= j < p.triples.len() && #[trigger] p.adds_call(j, side, name),
            None => forall|j: int, side: Side|
                i <= j < p.triples.len() && !deletes(cell, side) ==> !#[trigger] p.adds_call(
                    j,
                    side,
                    name,
                ),
        },
    decreases p.triples.len() - i,
{
    if i < p.triples.len() {
        if !deletes(cell, Side::Ours) && p.adds_call(i, Side::Ours, name) {
        } else if !deletes(cell, Side::Theirs) && p.adds_call(i, Side::Theirs, name) {
        } else {
            a_caller_is_found(p, cell, name, i + 1);
            if p.caller(cell, name, i) is None {
                assert forall|j: int, side: Side|
                    i <= j < p.triples.len() && !deletes(
                        cell,
                        side,
                    ) implies !#[trigger] p.adds_call(j, side, name) by {
                    match side {
                        Side::Ours => {},
                        Side::Theirs => {},
                    }
                }
            }
        }
    }
}

/// After deletions have been held against new calls, nothing that was dropped is called
/// by new code of a side that still has it: where nothing writes its name down any more,
/// no entity that such a side added calls it, whichever side that is.
pub proof fn no_new_code_calls_what_was_dropped(
    p: Pass,
    rs: Seq<ResolvedView>,
    i: int,
    j: int,
    side: Side,
)
    requires
        p.cells == cells_of(p.arena, p.triples),
        rs.len() == p.triples.len(),
        0 <= i < rs.len(),
        p.after_deletions(rs)[i].disposition is Drop,
        p.triples[i].base is Some,
        p.case(i).name(p.triples[i].base).len() > 0,
        p.is_gone(p.after_deletions(rs), p.case(i).name(p.triples[i].base)),
        p.triples[i].side(side) is Some,
    ensures
        !p.brings_call(j, side, p.case(i).name(p.triples[i].base)),
{
    let name = p.case(i).name(p.triples[i].base);
    let after = p.after_deletions(rs);
    assert(after[i] == p.undeleted(rs, i));
    gone_is_not_defined(p, after, name);
    if p.defined(rs, name) {
        let k = choose|k: int|
            0 <= k < rs.len() && writes_name(p.arena, p.triples[k], #[trigger] rs[k], name);
        assert(after[k] == p.undeleted(rs, k));
        assert(writes_name(p.arena, p.triples[k], after[k], name));
    }
    a_caller_is_found(p, p.cells[i], name, 0);
    cases_say_what_was_done(p, i, side);
    if p.brings_call(j, side, name) {
        calls_are_brought(p, j, side, name);
    }
}

/// A deletion is refused only for that reason: the decision dropped the entity, nothing
/// wrote its name down, and a side that still has it added a call of it. The conflict
/// names that side as the one that kept it, and shows what it and base have.
pub proof fn a_refused_deletion_has_a_caller(p: Pass, rs: Seq<ResolvedView>, i: int) -> (r: (
    int,
    Side,
))
    requires
        p.cells == cells_of(p.arena, p.triples),
        rs.len() == p.triples.len(),
        0 <= i < rs.len(),
        p.after_deletions(rs)[i] != rs[i],
    ensures
        ({
            let (j, side) = r;
            let t = p.triples[i];
            let c = p.case(i);
            &&& rs[i].disposition is Drop
            &&& t.base is Some
            &&& t.side(side) is Some
            &&& p.is_gone(rs, c.name(t.base))
            &&& p.brings_call(j, side, c.name(t.base))
            &&& p.after_deletions(rs)[i].tally is Conflicted
            &&& p.after_deletions(rs)[i].disposition matches DispositionView::Conflict {
                text,
                conflict,
            } && {
                &&& conflict.entity_name == c.name(t.base)
                &&& conflict.entity_type == c.etype(t.base)
                &&& conflict.kind == (ConflictKindView::ModifyDelete {
                    modified_in_ours: side is Ours,
                })
                &&& conflict.base == c.opt_text(t.base)
                &&& side is Ours ==> conflict.ours == c.opt_text(t.ours) && conflict.theirs is None
                &&& side is Theirs ==> conflict.theirs == c.opt_text(t.theirs)
                    && conflict.ours is None
            }
        }),
{
    let t = p.triples[i];
    let name = p.case(i).name(t.base);
    assert(p.after_deletions(rs)[i] == p.undeleted(rs, i));
    a_caller_is_found(p, p.cells[i], name, 0);
    gone_is_not_defined(p, rs, name);
    let side = p.caller(p.cells[i], name, 0)->0;
    let j = choose|j: int| 0 <= j < p.triples.len() && #[trigger] p.adds_call(j, side, name);
    cases_say_what_was_done(p, i, side);
    calls_are_brought(p, j, side, name);
    (j, side)
}

proof fn mirrored_calls(p: Pass, i: int, side: Side, name: Seq<char>)
    requires
        p.cells.len() == p.triples.len(),
        0 <= i < p.triples.len(),
    ensures
        p.mirrored().adds_call(i, side.other(), name) == p.adds_call(i, side, name),
        deletes(p.mirrored().cells[i], side.other()) == deletes(p.cells[i], side),
{
    assert(p.mirrored().cells[i] == p.cells[i].flipped());
    assert(p.mirrored().triples[i] == p.triples[i].swapped());
}

proof fn mirrored_caller(p: Pass, cell: Cell, name: Seq<char>, i: int)
    requires
        p.cells.len() == p.triples.len(),
        deletes(cell, Side::Ours) || deletes(cell, Side::Theirs),
        0 <= i,
    ensures
        p.mirrored().caller(cell.flipped(), name, i) == match p.caller(cell, name, i) {
            Some(side) => Some(side.other()),
            None => None,
        },
    decreases p.triples.len() - i,
{
    let q = p.mirrored();
    assert(deletes(cell.flipped(), Side::Ours) == deletes(cell, Side::Theirs));
    assert(deletes(cell.flipped(), Side::Theirs) == deletes(cell, Side::Ours));
    if i < p.triples.len() {
        mirrored_calls(p, i, Side::Ours, name);
        mirrored_calls(p, i, Side::Theirs, name);
        mirrored_caller(p, cell, name, i + 1);
    }
}

proof fn mirrored_defined(p: Pass, rs: Seq<ResolvedView>, name: Seq<char>)
    requires
        rs.len() == p.triples.len(),
    ensures
        p.mirrored().defined(rs, name) == p.defined(rs, name),
{
    swapped_defined(p, rs, name);
    let q = p.mirrored();
    let s = p.swapped();
    if q.defined(rs, name) {
        let i = choose|i: int|
            0 <= i < rs.len() && writes_name(q.arena, q.triples[i], #[trigger] rs[i], name);
        assert(writes_name(s.arena, s.triples[i], rs[i], name));
    }
    if s.defined(rs, name) {
        let i = choose|i: int|
            0 <= i < rs.len() && writes_name(s.arena, s.triples[i], #[trigger] rs[i], name);
        assert(writes_name(q.arena, q.triples[i], rs[i], name));
    }
}

/// Is the second decision the mirror image of the first, where the check changed it, and
/// the same, where it did not?
pub open spec fn mirrors_change(before: ResolvedView, a: ResolvedView, b: ResolvedView) -> bool {
    if a == before {
        b == before
    } else {
        mirrors(a, b)
    }
}

/// Exchanging ours and theirs mirrors what the check of deletions decides, for every
/// dropped entity that a side deleted.
pub proof fn the_check_of_deletions_prefers_no_side(p: Pass, rs: Seq<ResolvedView>, i: int)
    requires
        p.cells == cells_of(p.arena, p.triples),
        rs.len() == p.triples.len(),
        0 <= i < rs.len(),
        rs[i].disposition is Drop ==> p.triples[i].ours is None || p.triples[i].theirs is None,
    ensures
        mirrors_change(rs[i], p.after_deletions(rs)[i], p.mirrored().after_deletions(rs)[i]),
{
    let q = p.mirrored();
    let t = p.triples[i];
    assert(p.after_deletions(rs)[i] == p.undeleted(rs, i));
    assert(q.after_deletions(rs)[i] == q.undeleted(rs, i));
    assert(q.triples[i] == t.swapped());
    assert(q.cells[i] == p.cells[i].flipped());
    if rs[i].disposition is Drop && t.base is Some {
        let name = entity_at(p.arena, t.base->0).key.name;
        cases_say_what_was_done(p, i, Side::Ours);
        cases_say_what_was_done(p, i, Side::Theirs);
        mirrored_caller(p, p.cells[i], name, 0);
        mirrored_defined(p, rs, name);
        if let Some(side) = p.caller(p.cells[i], name, 0) {
            assert(q.case(i) == p.case(i).swapped());
            crate::v2::resolve::records_mirror(p.case(i), side.other());
            crate::v2::resolve::conflicts_mirror(
                p.case(i).modify_delete(side.other()),
                q.case(i).modify_delete(side.other().other()),
                p.ctx,
                StrategyView::ConflictModifyDelete,
            );
        }
    }
}

/// After additions have been held against new calls, no new definition captures a name:
/// an entity that one side alone added and that is emitted, under a name that base did
/// not define, is called by no entity that the other side added.
pub proof fn no_new_definition_captures_a_call(
    p: Pass,
    rs: Seq<ResolvedView>,
    i: int,
    adder: Side,
    j: int,
)
    requires
        p.cells == cells_of(p.arena, p.triples),
        rs.len() == p.triples.len(),
        0 <= i < rs.len(),
        p.triples[i].base is None,
        p.triples[i].side(adder) is Some,
        p.triples[i].side(adder.other()) is None,
        p.after_captures(rs)[i].disposition is Emit,
        p.case(i).name(p.triples[i].side(adder)).len() > 0,
        forall|k: int|
            0 <= k < p.triples.len() && (#[trigger] p.triples[k]).base is Some ==> p.case(k).name(
                p.triples[k].base,
            ) != p.case(i).name(p.triples[i].side(adder)),
    ensures
        !p.brings_call(j, adder.other(), p.case(i).name(p.triples[i].side(adder))),
{
    let name = p.case(i).name(p.triples[i].side(adder));
    assert(p.after_captures(rs)[i] == p.uncaptured(rs, i));
    assert(p.cells[i] == cell_of(p.arena, p.triples[i]));
    assert(p.cells[i] == (Cell::AddedOneSide { adder }));
    if p.base_defines(name) {
        let k = choose|k: int|
            0 <= k < p.triples.len() && has_name(p.arena, (#[trigger] p.triples[k]).base, name);
        assert(p.triples[k].base is Some);
    }
    if p.brings_call(j, adder.other(), name) {
        calls_are_brought(p, j, adder.other(), name);
        assert(p.side_calls(adder.other(), name));
        assert(p.captured(rs, i, adder));
    }
}

/// An addition is refused only for that reason, and the conflict shows the addition on
/// the side that made it, and nothing on the other.
pub proof fn a_refused_addition_has_a_caller(p: Pass, rs: Seq<ResolvedView>, i: int) -> (r: (
    Side,
    int,
))
    requires
        p.cells == cells_of(p.arena, p.triples),
        rs.len() == p.triples.len(),
        0 <= i < rs.len(),
        p.after_captures(rs)[i] != rs[i],
    ensures
        ({
            let (adder, j) = r;
            let t = p.triples[i];
            let c = p.case(i);
            let name = c.name(t.side(adder));
            &&& rs[i].disposition is Emit
            &&& t.base is None
            &&& t.side(adder) is Some
            &&& t.side(adder.other()) is None
            &&& forall|k: int|
                0 <= k < p.triples.len() && (#[trigger] p.triples[k]).base is Some ==> p.case(
                    k,
                ).name(p.triples[k].base) != name
            &&& p.brings_call(j, adder.other(), name)
            &&& p.after_captures(rs)[i].tally is Conflicted
            &&& p.after_captures(rs)[i].disposition matches DispositionView::Conflict {
                text,
                conflict,
            } && {
                &&& conflict.entity_name == name
                &&& conflict.kind is BothAdded
                &&& conflict.base is None
                &&& conflict.ours == c.opt_text(t.ours)
                &&& conflict.theirs == c.opt_text(t.theirs)
            }
        }),
{
    let t = p.triples[i];
    assert(p.after_captures(rs)[i] == p.uncaptured(rs, i));
    assert(p.cells[i] == cell_of(p.arena, t));
    let adder = if p.captured(rs, i, Side::Ours) {
        Side::Ours
    } else {
        Side::Theirs
    };
    assert(p.captured(rs, i, adder));
    let name = p.case(i).name(t.side(adder));
    assert forall|k: int| 0 <= k < p.triples.len() && (
    #[trigger] p.triples[k]).base is Some implies p.case(k).name(p.triples[k].base) != name by {
        assert(!has_name(p.arena, p.triples[k].base, name));
    }
    let j = choose|j: int|
        0 <= j < p.triples.len() && #[trigger] p.adds_call(j, adder.other(), name);
    calls_are_brought(p, j, adder.other(), name);
    (adder, j)
}

proof fn mirrored_side_calls(p: Pass, side: Side, name: Seq<char>)
    requires
        p.cells.len() == p.triples.len(),
    ensures
        p.mirrored().side_calls(side.other(), name) == p.side_calls(side, name),
        p.mirrored().base_defines(name) == p.base_defines(name),
{
    let q = p.mirrored();
    if p.side_calls(side, name) {
        let j = choose|j: int| 0 <= j < p.triples.len() && #[trigger] p.adds_call(j, side, name);
        mirrored_calls(p, j, side, name);
        assert(q.adds_call(j, side.other(), name));
    }
    if q.side_calls(side.other(), name) {
        let j = choose|j: int|
            0 <= j < q.triples.len() && #[trigger] q.adds_call(j, side.other(), name);
        mirrored_calls(p, j, side, name);
        assert(p.adds_call(j, side, name));
    }
    if p.base_defines(name) {
        let k = choose|k: int|
            0 <= k < p.triples.len() && has_name(p.arena, (#[trigger] p.triples[k]).base, name);
        assert(q.triples[k] == p.triples[k].swapped());
        assert(has_name(q.arena, q.triples[k].base, name));
    }
    if q.base_defines(name) {
        let k = choose|k: int|
            0 <= k < q.triples.len() && has_name(q.arena, (#[trigger] q.triples[k]).base, name);
        assert(q.triples[k] == p.triples[k].swapped());
        assert(has_name(p.arena, p.triples[k].base, name));
    }
}

proof fn mirrored_captures(p: Pass, rs: Seq<ResolvedView>, i: int, adder: Side)
    requires
        p.cells.len() == p.triples.len(),
        0 <= i < p.triples.len(),
    ensures
        p.mirrored().captured(rs, i, adder.other()) == p.captured(rs, i, adder),
        p.captured(rs, i, adder) ==> p.mirrored().captures(i, adder.other()) == swapped_conflict(
            p.captures(i, adder),
        ),
{
    let q = p.mirrored();
    assert(q.cells[i] == p.cells[i].flipped());
    assert(q.triples[i] == p.triples[i].swapped());
    if p.triples[i].side(adder) is Some {
        let x = entity_at(p.arena, p.triples[i].side(adder)->0);
        mirrored_side_calls(p, adder.other(), x.key.name);
        crate::conflict::complexity_is_symmetric(None, Some(x.content), None);
    }
}

/// Exchanging ours and theirs mirrors what the check of additions decides.
pub proof fn the_check_of_additions_prefers_no_side(p: Pass, rs: Seq<ResolvedView>, i: int)
    requires
        p.cells.len() == p.triples.len(),
        rs.len() == p.triples.len(),
        0 <= i < rs.len(),
    ensures
        mirrors_change(rs[i], p.after_captures(rs)[i], p.mirrored().after_captures(rs)[i]),
{
    let q = p.mirrored();
    assert(p.after_captures(rs)[i] == p.uncaptured(rs, i));
    assert(q.after_captures(rs)[i] == q.uncaptured(rs, i));
    mirrored_captures(p, rs, i, Side::Ours);
    mirrored_captures(p, rs, i, Side::Theirs);
    let strategy = StrategyView::ConflictBothAdded;
    if p.captured(rs, i, Side::Ours) {
        crate::v2::resolve::conflicts_mirror(
            p.captures(i, Side::Ours),
            q.captures(i, Side::Theirs),
            p.ctx,
            strategy,
        );
    } else if p.captured(rs, i, Side::Theirs) {
        crate::v2::resolve::conflicts_mirror(
            p.captures(i, Side::Theirs),
            q.captures(i, Side::Ours),
            p.ctx,
            strategy,
        );
    }
}

/// Following renames touches nothing but texts: a decision that it changes is emitted
/// under the same name and told the same way, and its text called a name that another
/// decision renamed and that nothing writes down any more.
pub proof fn a_repair_touches_only_calls(p: Pass, before: Seq<ResolvedView>, k: int, i: int)
    requires
        0 <= k <= before.len(),
        0 <= i < before.len(),
    ensures
        ({
            let after = p.repaired(before, k).0;
            &&& after.len() == before.len()
            &&& after[i].strategy == before[i].strategy
            &&& after[i].rename == before[i].rename
            &&& after[i].tally == before[i].tally
            &&& after[i] != before[i] ==> {
                &&& before[i].disposition is Emit
                &&& after[i].disposition is Emit
                &&& before[i].disposition->Emit_name == after[i].disposition->Emit_name
                &&& exists|m: int|
                    0 <= m < k && m != i && ((#[trigger] before[m]).rename matches Some(r)
                        && p.is_gone(before, r.0) && calls(
                        before[i].disposition->Emit_text,
                        r.0,
                    ))
            }
        }),
    decreases k,
{
    if k > 0 {
        a_repair_touches_only_calls(p, before, k - 1, i);
        let rs = p.repaired(before, k - 1).0;
        let after = p.repaired(before, k).0;
        if p.pending(before, k - 1) {
            let r = before[k - 1].rename->0;
            gone_is_not_defined(p, before, r.0);
            if after[i] != rs[i] {
                assert(follows(before, rs, k - 1, r.0, i));
                assert(before[k - 1].rename == Some(r));
            }
        }
        if rs[i] != before[i] {
            let m = choose|m: int|
                0 <= m < k - 1 && m != i && ((#[trigger] before[m]).rename matches Some(r)
                    && p.is_gone(before, r.0) && calls(before[i].disposition->Emit_text, r.0));
            assert(before[m].rename is Some);
        }
    }
}

/// The calls follow a rename: where one entity alone was renamed and nothing writes its
/// old name down any more, no other entity's emitted text calls the old name, and the
/// text of one that did is its text with the old name replaced by the new one wherever it
/// stands as a word of its own.
pub proof fn the_calls_follow_a_rename(p: Pass, before: Seq<ResolvedView>, owner: int, i: int)
    requires
        0 <= owner < before.len(),
        0 <= i < before.len(),
        i != owner,
        before[owner].rename is Some,
        identifier((before[owner].rename->0).0),
        identifier((before[owner].rename->0).1),
        (before[owner].rename->0).0 != (before[owner].rename->0).1,
        p.is_gone(before, (before[owner].rename->0).0),
        forall|m: int| 0 <= m < before.len() && m != owner ==> (#[trigger] before[m]).rename is None,
    ensures
        ({
            let r = before[owner].rename->0;
            let after = p.repaired(before, before.len() as int).0;
            &&& after[i].disposition matches DispositionView::Emit { text, name } ==> !calls(
                text,
                r.0,
            )
            &&& before[i].disposition matches DispositionView::Emit { text, name } ==> (
            after[i].disposition == if calls(text, r.0) {
                DispositionView::Emit { text: replaced(text, r.0, r.1), name }
            } else {
                before[i].disposition
            })
        }),
{
    let r = before[owner].rename->0;
    let n = before.len() as int;
    gone_is_not_defined(p, before, r.0);
    one_rename_is_followed(p, before, owner, n);
    assert(p.pending(before, owner));
    if emits_call(before[i], r.0) {
        a_followed_rename_leaves_no_call(before, before, owner, r.0, r.1, i);
    }
}

proof fn one_rename_is_followed(p: Pass, before: Seq<ResolvedView>, owner: int, k: int)
    requires
        0 <= owner < before.len(),
        0 <= k <= before.len(),
        forall|m: int| 0 <= m < before.len() && m != owner ==> (#[trigger] before[m]).rename is None,
        p.pending(before, owner),
    ensures
        p.repaired(before, k).0 == if k <= owner {
            before
        } else {
            followed(
                before,
                before,
                owner,
                (before[owner].rename->0).0,
                (before[owner].rename->0).1,
                before.len() as int,
            )
        },
    decreases k,
{
    if k > 0 {
        one_rename_is_followed(p, before, owner, k - 1);
        if k - 1 != owner {
            assert(before[k - 1].rename is None);
        }
    }
}

/// After the composed texts have been asked for dangling locals, what the merge composed
/// and emits leaves no local dangling: no name that a line of base assigns, that the text
/// reads and that nothing in it binds. In a container that is so of every member with a
/// name, and nothing in the container as a whole binds it, nor is it a member's name.
pub proof fn no_composed_text_leaves_a_local_dangling(
    p: Pass,
    rs: Seq<ResolvedView>,
    scopes: Seq<ScopesView>,
    i: int,
    n: Seq<char>,
    m: int,
)
    requires
        0 <= i < rs.len(),
        p.triples[i].base is Some,
        rs[i].strategy is DiffyMerged || rs[i].strategy is DecoratorMerged
            || rs[i].strategy is InnerMerged || rs[i].strategy is StatementMerged,
        p.after_locals(rs, scopes)[i].disposition is Emit,
    ensures
        ({
            let base = entity_at(p.arena, p.triples[i].base->0).content;
            let text = p.after_locals(rs, scopes)[i].disposition->Emit_text;
            let s = scopes[i];
            &&& !s.is_container ==> !is_left_dangling(base, text, n)
            &&& s.is_container && s.base is Some && s.out is Some && 0 <= m < s.base->0.len()
                && names_member((s.base->0)[m].0.0) && member_text(
                s.out->0,
                (s.base->0)[m].0,
                0,
            ) is Some && is_left_dangling(
                (s.base->0)[m].1,
                member_text(s.out->0, (s.base->0)[m].0, 0)->0,
                n,
            ) ==> bound(text).contains(n) || exists|q: int|
                0 <= q < s.out->0.len() && (#[trigger] (s.out->0)[q]).0.0 == n
        }),
{
    let base = entity_at(p.arena, p.triples[i].base->0).content;
    let s = scopes[i];
    assert(!p.dangles(rs, scopes, i));
    let text = emit_text(rs[i])->0;
    if !s.is_container {
        what_dangles_was_assigned_and_is_read(base, text, n);
        assert(!dangling_names(base, text).contains(n));
    } else if s.base is Some && s.out is Some && 0 <= m < s.base->0.len() {
        let b = s.base->0;
        let o = s.out->0;
        assert(!member_dangles(b, o, text, m));
        if names_member(b[m].0.0) && member_text(o, b[m].0, 0) is Some {
            let t = member_text(o, b[m].0, 0)->0;
            what_dangles_was_assigned_and_is_read(b[m].1, t, n);
            let names = dangling_names(b[m].1, t);
            if names.contains(n) {
                let k = choose|k: int| 0 <= k < names.len() && names[k] == n;
                assert(container_binds(text, o, names[k]));
                if is_member(o, n) {
                    let q = choose|q: int| 0 <= q < o.len() && (#[trigger] o[q]).0.0 == n;
                    assert(o[q].0.0 == n);
                }
            }
        }
    }
}

/// Does the name dangle? A line of base assigns it at statement level, the text reads it,
/// and nothing in the text binds it.
pub open spec fn is_left_dangling(base: Seq<char>, text: Seq<char>, n: Seq<char>) -> bool {
    &&& exists|k: int|
        0 <= k < lines(base).len() && #[trigger] assigned_on(lines(base), false, k) == Some(n)
    &&& reads(text, n)
    &&& !bound(text).contains(n)
}

/// A composed text is refused only for that reason, as a conflict over the three texts.
pub proof fn a_refused_text_leaves_a_local_dangling(
    p: Pass,
    rs: Seq<ResolvedView>,
    scopes: Seq<ScopesView>,
    i: int,
) -> (n: Seq<char>)
    requires
        0 <= i < rs.len(),
        p.after_locals(rs, scopes)[i] != rs[i],
        !scopes[i].is_container,
    ensures
        ({
            let t = p.triples[i];
            let c = p.case(i);
            &&& t.base is Some
            &&& rs[i].disposition is Emit
            &&& is_left_dangling(c.text(t.base), rs[i].disposition->Emit_text, n)
            &&& p.after_locals(rs, scopes)[i].disposition matches DispositionView::Conflict {
                text,
                conflict,
            } && conflict.kind is BothModified && conflict.base == c.opt_text(t.base)
                && conflict.ours == c.opt_text(t.ours) && conflict.theirs == c.opt_text(t.theirs)
        }),
{
    let base = entity_at(p.arena, p.triples[i].base->0).content;
    let names = dangling_names(base, emit_text(rs[i])->0);
    assert(p.dangles(rs, scopes, i));
    let n = names[0];
    assert(names.contains(n));
    what_dangles_was_assigned_and_is_read(base, emit_text(rs[i])->0, n);
    n
}


/// A license is granted exactly where it may be: the decision is a conflict over a whole
/// body, all three versions are there, and the licensed merge is clean and rests on
/// evidence. Then the licensed text is emitted under base's name, as a merge of both
/// sides; and nothing else changes.
pub proof fn a_license_is_granted_on_evidence(
    p: Pass,
    rs: Seq<ResolvedView>,
    attempts: Seq<Option<AttemptView>>,
    i: int,
)
    requires
        0 <= i < rs.len(),
    ensures
        ({
            let t = p.triples[i];
            let after = p.after_licenses(rs, attempts)[i];
            let may = {
                &&& rs[i].disposition is Conflict
                &&& rs[i].strategy is ConflictBothModified || rs[i].strategy is InnerMerged
                    || rs[i].strategy is ConflictStatementScoped
                &&& t.base is Some && t.ours is Some && t.theirs is Some
                &&& attempts[i] matches Some(x) && !x.merged.has_conflicts && x.evidence.len() > 0
            };
            &&& may ==> after.disposition == (DispositionView::Emit {
                text: attempts[i]->0.merged.content,
                name: p.case(i).name(t.base),
            }) && after.strategy is FootprintLicensed && after.tally is BothMerged
            &&& !may ==> after == rs[i]
        }),
{
}


/// Does the fact say that the side gave the entity's body other homes?
pub open spec fn is_rehoming(r: RelationalView, b: Idx, side: Side) -> bool {
    r matches RelationalView::RehomedInto { deleted, side: s, homes, coverage } && deleted == b
        && s == side
}

proof fn the_last_homes_count(rel: Seq<RelationalView>, b: Idx, side: Side, k: int, m: int)
    requires
        0 <= m < k <= rel.len(),
        is_rehoming(rel[m], b, side),
        forall|n: int| m < n < k ==> !is_rehoming(#[trigger] rel[n], b, side),
    ensures
        homes_for(rel, b, side, k) == Some(rel[m]->RehomedInto_homes),
    decreases k,
{
    if m < k - 1 {
        assert(!is_rehoming(rel[k - 1], b, side));
        the_last_homes_count(rel, b, side, k - 1, m);
    }
}

proof fn strangers_hold(homes: Seq<Idx>, t: TripleView, n: int, x: Idx)
    requires
        0 <= n <= homes.len(),
    ensures
        strangers(homes, t, n).contains(x) <==> t.ours != Some(x) && t.theirs != Some(x)
            && exists|k: int| 0 <= k < n && #[trigger] homes[k] == x,
    decreases n,
{
    if n > 0 {
        strangers_hold(homes, t, n - 1, x);
        let front = strangers(homes, t, n - 1);
        let all = strangers(homes, t, n);
        let h = homes[n - 1];
        if !(t.ours == Some(h) || t.theirs == Some(h)) {
            if front.contains(x) {
                let k = choose|k: int| 0 <= k < front.len() && front[k] == x;
                assert(all[k] == x);
            }
            assert(all[front.len() as int] == h);
            if all.contains(x) && x != h {
                let k = choose|k: int| 0 <= k < all.len() && all[k] == x;
                assert(front[k] == x);
            }
        }
    }
}

/// No body comes out twice. After bodies that moved house have been counted, where an
/// entity of base is still emitted, neither side gave its body a home elsewhere: by the
/// last fact about it, every home that a side gave it is the entity itself. Whichever
/// side that is.
pub proof fn no_body_comes_out_twice(
    p: Pass,
    rel: Seq<RelationalView>,
    rs: Seq<ResolvedView>,
    i: int,
    side: Side,
    m: int,
    h: Idx,
)
    requires
        0 <= i < rs.len(),
        rs.len() == p.triples.len(),
        p.triples[i].base is Some,
        forall|j: int| 0 <= j < i ==> (#[trigger] p.triples[j]).base != p.triples[i].base,
        p.after_rehomes(rel, rs)[i].disposition is Emit,
        0 <= m < rel.len(),
        is_rehoming(rel[m], p.triples[i].base->0, side),
        forall|n: int|
            m < n < rel.len() ==> !is_rehoming(#[trigger] rel[n], p.triples[i].base->0, side),
        rel[m]->RehomedInto_homes.contains(h),
    ensures
        p.triples[i].ours == Some(h) || p.triples[i].theirs == Some(h),
{
    let t = p.triples[i];
    let b = t.base->0;
    let homes = rel[m]->RehomedInto_homes;
    the_last_homes_count(rel, b, side, rel.len() as int, m);
    strangers_hold(homes, t, homes.len() as int, h);
    let k = choose|k: int| 0 <= k < homes.len() && homes[k] == h;
    assert(homes[k] == h);
    assert(p.first_with_base(i));
    if !(t.ours == Some(h) || t.theirs == Some(h)) {
        assert(strangers(homes, t, homes.len() as int).contains(h));
        assert(second_homes(rel, t, b, side) is Some);
        match side {
            Side::Ours => {},
            Side::Theirs => {},
        }
        assert(p.doubled(rel, rs, i));
    }
}

} // verus!
