//! From a case to a disposition. Every case is answered here, and nothing is said
//! about where anything goes.
//!
//! A body that both sides changed goes down a ladder: the line merge, the shortcut
//! for white space, the merge that sees decorators, the merge by members, the merge
//! by statements, and at last an honest conflict.

use vstd::prelude::*;
use crate::binding::{replace_at_word_boundaries, replaced};
use crate::conflict::{
    classify_conflict, complexity_of, ConflictComplexity, ConflictKind, ConflictKindView,
    EntityConflict, EntityConflictView, MarkerFormat, MarkerFormatView,
};
use crate::entity::{semantic_views, SemanticEntity, SemanticView};
use crate::merge::{
    opt_inner, Guards, GuardsView, InnerMergeResult, InnerView, ResolutionStrategy, StrategyView,
};
use crate::patch::{line_merge_of, merge_lines};
use crate::text::{chars_of, lines, split_lines, str_eq, texts};
use crate::v2::classify::{bodies_agree, cell_of};
use crate::v2::types::{
    added_tally, entity_at, idx_ok, only_tally, opt_view, Arena, Cell, Disposition,
    DispositionView, EntityView, Idx, Side, Tally, Triple, TripleView,
};

verus! {

broadcast use vstd::string::group_string_axioms;

/// Everything resolving is allowed to know beyond the triple itself.
#[derive(Debug)]
pub struct ResolveCtx {
    pub marker_format: MarkerFormat,
    /// Indentation is semantics here, so the shortcut for white space is unsound.
    pub indent_sensitive: bool,
    pub guards: Guards,
}

/// A [`ResolveCtx`] over views.
pub struct CtxView {
    pub marker_format: MarkerFormatView,
    pub indent_sensitive: bool,
    pub guards: GuardsView,
}

impl View for ResolveCtx {
    type V = CtxView;

    open spec fn view(&self) -> CtxView {
        CtxView {
            marker_format: self.marker_format@,
            indent_sensitive: self.indent_sensitive,
            guards: self.guards@,
        }
    }
}

/// What the finer merges answer about one body that both sides changed.
#[derive(Debug)]
pub struct Rungs {
    /// The line merge.
    pub diff3: Option<String>,
    /// Our side, and their side, differ from base by white space alone.
    pub ours_reflowed: bool,
    pub theirs_reflowed: bool,
    /// The merge that sees decorators.
    pub decorated: Option<String>,
    /// The entity is a container, and the merge by members.
    pub is_container: bool,
    pub inner: Option<InnerMergeResult>,
    /// The merge by statements.
    pub statement: Option<InnerMergeResult>,
}

/// A [`Rungs`] with its strings read as texts.
pub struct RungsView {
    pub diff3: Option<Seq<char>>,
    pub ours_reflowed: bool,
    pub theirs_reflowed: bool,
    pub decorated: Option<Seq<char>>,
    pub is_container: bool,
    pub inner: Option<InnerView>,
    pub statement: Option<InnerView>,
}

impl View for Rungs {
    type V = RungsView;

    open spec fn view(&self) -> RungsView {
        RungsView {
            diff3: opt_view(self.diff3),
            ours_reflowed: self.ours_reflowed,
            theirs_reflowed: self.theirs_reflowed,
            decorated: opt_view(self.decorated),
            is_container: self.is_container,
            inner: opt_inner(self.inner),
            statement: opt_inner(self.statement),
        }
    }
}

impl Rungs {
    /// Every rung refuses.
    pub fn refusing() -> (r: Rungs)
        ensures
            r@ == (RungsView {
                diff3: None,
                ours_reflowed: false,
                theirs_reflowed: false,
                decorated: None,
                is_container: false,
                inner: None,
                statement: None,
            }),
    {
        Rungs {
            diff3: None,
            ours_reflowed: false,
            theirs_reflowed: false,
            decorated: None,
            is_container: false,
            inner: None,
            statement: None,
        }
    }
}

/// What was decided for one triple, with the facts that later stages need.
#[derive(Debug)]
pub struct Resolved {
    pub disposition: Disposition,
    pub strategy: ResolutionStrategy,
    /// A rename this triple carries, as the old and the new name.
    pub rename: Option<Rename>,
    /// Which line of the summary this decision lands on. It travels with the
    /// disposition, so that a stage that revises one revises the other.
    pub tally: Tally,
}

/// An old and a new name.
#[derive(Debug, Clone)]
pub struct Rename {
    pub from: String,
    pub to: String,
}

/// A [`Resolved`] with its strings read as texts.
pub struct ResolvedView {
    pub disposition: DispositionView,
    pub strategy: StrategyView,
    pub rename: Option<(Seq<char>, Seq<char>)>,
    pub tally: Tally,
}

impl View for Rename {
    type V = (Seq<char>, Seq<char>);

    open spec fn view(&self) -> (Seq<char>, Seq<char>) {
        (self.from@, self.to@)
    }
}

/// The view of an optional rename.
pub open spec fn opt_rename(r: Option<Rename>) -> Option<(Seq<char>, Seq<char>)> {
    match r {
        Some(x) => Some(x@),
        None => None,
    }
}

impl View for Resolved {
    type V = ResolvedView;

    open spec fn view(&self) -> ResolvedView {
        ResolvedView {
            disposition: self.disposition@,
            strategy: self.strategy@,
            rename: opt_rename(self.rename),
            tally: self.tally,
        }
    }
}

/// The views of a list of decisions.
pub open spec fn resolved_views(v: Seq<Resolved>) -> Seq<ResolvedView> {
    v.map_values(|r: Resolved| r@)
}

/// A decision that carries no rename.
pub open spec fn decided(
    disposition: DispositionView,
    strategy: StrategyView,
    tally: Tally,
) -> ResolvedView {
    ResolvedView { disposition, strategy, rename: None, tally }
}

impl Resolved {
    /// The decision a later stage reached instead of an earlier one. It carries no
    /// rename: every rename has been repaired before anything is revised.
    pub fn revised(disposition: Disposition, strategy: ResolutionStrategy, tally: Tally) -> (r: Self)
        ensures
            r@ == decided(disposition@, strategy@, tally),
    {
        Resolved { disposition, strategy, rename: None, tally }
    }
}

/// The decision that hands a conflict to a reader.
pub open spec fn conflicted(
    conflict: EntityConflictView,
    ctx: CtxView,
    strategy: StrategyView,
) -> ResolvedView {
    decided(
        DispositionView::Conflict {
            text: conflict.markers(ctx.marker_format, ctx.guards.guard_or_ladder(strategy)),
            conflict,
        },
        strategy,
        Tally::Conflicted,
    )
}

/// Render a conflict once, here, so that no later stage has to know how.
pub fn conflict_disposition(
    conflict: EntityConflict,
    ctx: &ResolveCtx,
    strategy: ResolutionStrategy,
) -> (r: Resolved)
    ensures
        r@ == conflicted(conflict@, ctx@, strategy@),
{
    let text = conflict.to_conflict_markers(
        &ctx.marker_format,
        ctx.guards.guard_or_ladder(&strategy),
    );
    Resolved {
        disposition: Disposition::Conflict { text, conflict },
        strategy,
        rename: None,
        tally: Tally::Conflicted,
    }
}

// ---------------------------------------------------------------------------
// The ladder
// ---------------------------------------------------------------------------

/// One body that both sides changed, and the entity it comes out as.
pub struct BothChanged {
    pub base: Seq<char>,
    pub ours: Seq<char>,
    pub theirs: Seq<char>,
    pub name: Seq<char>,
    pub entity_type: Seq<char>,
}

impl BothChanged {
    /// The record of the conflict over the whole body.
    pub open spec fn conflict(self) -> EntityConflictView {
        EntityConflictView {
            entity_name: self.name,
            entity_type: self.entity_type,
            kind: ConflictKindView::BothModified,
            complexity: complexity_of(Some(self.base), Some(self.ours), Some(self.theirs)),
            ours: Some(self.ours),
            theirs: Some(self.theirs),
            base: Some(self.base),
        }
    }

    /// The decision to emit a text under the entity's name.
    pub open spec fn emits(
        self,
        text: Seq<char>,
        strategy: StrategyView,
        tally: Tally,
    ) -> ResolvedView {
        decided(DispositionView::Emit { text, name: self.name }, strategy, tally)
    }

    /// The decision for a text that still holds conflicts of its own.
    pub open spec fn holds_conflicts(self, text: Seq<char>, strategy: StrategyView) -> ResolvedView {
        decided(
            DispositionView::Conflict { text, conflict: self.conflict() },
            strategy,
            Tally::Conflicted,
        )
    }

    /// The first rung that answers. The shortcut for white space is never taken
    /// where indentation is semantics, and stands below the line merge, so that it
    /// answers only what that refuses.
    pub open spec fn laddered(self, ctx: CtxView, rungs: RungsView) -> ResolvedView {
        if rungs.diff3 is Some {
            self.emits(rungs.diff3->0, StrategyView::DiffyMerged, Tally::BothMerged)
        } else if !ctx.indent_sensitive && rungs.ours_reflowed {
            self.emits(self.theirs, StrategyView::TheirsOnly, Tally::TheirsOnly)
        } else if !ctx.indent_sensitive && rungs.theirs_reflowed {
            self.emits(self.ours, StrategyView::OursOnly, Tally::OursOnly)
        } else if rungs.decorated is Some {
            self.emits(rungs.decorated->0, StrategyView::DecoratorMerged, Tally::BothMerged)
        } else if rungs.is_container && rungs.inner is Some {
            if rungs.inner->0.has_conflicts {
                self.holds_conflicts(rungs.inner->0.content, StrategyView::InnerMerged)
            } else {
                self.emits(rungs.inner->0.content, StrategyView::InnerMerged, Tally::BothMerged)
            }
        } else if rungs.statement is Some {
            if rungs.statement->0.has_conflicts {
                self.holds_conflicts(
                    rungs.statement->0.content,
                    StrategyView::ConflictStatementScoped,
                )
            } else {
                self.emits(
                    rungs.statement->0.content,
                    StrategyView::StatementMerged,
                    Tally::BothMerged,
                )
            }
        } else {
            conflicted(self.conflict(), ctx, StrategyView::ConflictBothModified)
        }
    }
}

fn both_modified(
    base: &str,
    ours: &str,
    theirs: &str,
    name: String,
    entity_type: String,
) -> (r: EntityConflict)
    ensures
        r@ == (BothChanged {
            base: base@,
            ours: ours@,
            theirs: theirs@,
            name: name@,
            entity_type: entity_type@,
        }).conflict(),
{
    EntityConflict {
        entity_name: name,
        entity_type,
        kind: ConflictKind::BothModified,
        complexity: classify_conflict(Some(base), Some(ours), Some(theirs)),
        ours_content: Some(ours.to_owned()),
        theirs_content: Some(theirs.to_owned()),
        base_content: Some(base.to_owned()),
    }
}

fn emitting(text: String, name: String, strategy: ResolutionStrategy, tally: Tally) -> (r: Resolved)
    ensures
        r@ == decided(DispositionView::Emit { text: text@, name: name@ }, strategy@, tally),
{
    Resolved { disposition: Disposition::Emit { text, name }, strategy, rename: None, tally }
}

/// The ladder for a body that both sides changed.
pub fn intra_entity(
    base: &str,
    ours: &str,
    theirs: &str,
    name: String,
    entity_type: String,
    ctx: &ResolveCtx,
    rungs: &Rungs,
) -> (r: Resolved)
    ensures
        r@ == (BothChanged {
            base: base@,
            ours: ours@,
            theirs: theirs@,
            name: name@,
            entity_type: entity_type@,
        }).laddered(ctx@, rungs@),
{
    match &rungs.diff3 {
        Some(merged) => {
            return emitting(
                merged.clone(),
                name,
                ResolutionStrategy::DiffyMerged,
                Tally::BothMerged,
            );
        },
        None => {},
    }
    if !ctx.indent_sensitive && rungs.ours_reflowed {
        return emitting(
            theirs.to_owned(),
            name,
            ResolutionStrategy::TheirsOnly,
            Tally::TheirsOnly,
        );
    }
    if !ctx.indent_sensitive && rungs.theirs_reflowed {
        return emitting(ours.to_owned(), name, ResolutionStrategy::OursOnly, Tally::OursOnly);
    }
    match &rungs.decorated {
        Some(merged) => {
            return emitting(
                merged.clone(),
                name,
                ResolutionStrategy::DecoratorMerged,
                Tally::BothMerged,
            );
        },
        None => {},
    }
    if rungs.is_container {
        match &rungs.inner {
            Some(inner) => {
                if inner.has_conflicts {
                    return Resolved {
                        disposition: Disposition::Conflict {
                            text: inner.content.clone(),
                            conflict: both_modified(base, ours, theirs, name, entity_type),
                        },
                        strategy: ResolutionStrategy::InnerMerged,
                        rename: None,
                        tally: Tally::Conflicted,
                    };
                }
                return emitting(
                    inner.content.clone(),
                    name,
                    ResolutionStrategy::InnerMerged,
                    Tally::BothMerged,
                );
            },
            None => {},
        }
    }
    match &rungs.statement {
        Some(inner) => {
            if inner.has_conflicts {
                return Resolved {
                    disposition: Disposition::Conflict {
                        text: inner.content.clone(),
                        conflict: both_modified(base, ours, theirs, name, entity_type),
                    },
                    strategy: ResolutionStrategy::ConflictStatementScoped,
                    rename: None,
                    tally: Tally::Conflicted,
                };
            }
            return emitting(
                inner.content.clone(),
                name,
                ResolutionStrategy::StatementMerged,
                Tally::BothMerged,
            );
        },
        None => {},
    }
    conflict_disposition(
        both_modified(base, ours, theirs, name, entity_type),
        ctx,
        ResolutionStrategy::ConflictBothModified,
    )
}

// ---------------------------------------------------------------------------
// The cases
// ---------------------------------------------------------------------------

/// One triple and the arena its entities live in.
pub struct Case {
    pub arena: Seq<EntityView>,
    pub triple: TripleView,
}

impl Case {
    /// The text of an entity, if there is one.
    pub open spec fn opt_text(self, idx: Option<Idx>) -> Option<Seq<char>> {
        match idx {
            Some(i) => Some(entity_at(self.arena, i).content),
            None => None,
        }
    }

    /// The text of an entity; empty where there is none.
    pub open spec fn text(self, idx: Option<Idx>) -> Seq<char> {
        match idx {
            Some(i) => entity_at(self.arena, i).content,
            None => Seq::empty(),
        }
    }

    /// The name of an entity; empty where there is none.
    pub open spec fn name(self, idx: Option<Idx>) -> Seq<char> {
        match idx {
            Some(i) => entity_at(self.arena, i).key.name,
            None => Seq::empty(),
        }
    }

    /// The type of an entity; empty where there is none.
    pub open spec fn etype(self, idx: Option<Idx>) -> Seq<char> {
        match idx {
            Some(i) => entity_at(self.arena, i).key.entity_type,
            None => Seq::empty(),
        }
    }

    /// The names on base and on the side that renamed, where both are there and
    /// differ; else two empty names.
    pub open spec fn rename_of(self, renamer: Side) -> (Seq<char>, Seq<char>) {
        let old = self.name(self.triple.base);
        let new = self.name(self.triple.side(renamer));
        if old.len() > 0 && new.len() > 0 && old != new {
            (old, new)
        } else {
            (Seq::empty(), Seq::empty())
        }
    }

    /// The rename that is reported for later stages.
    pub open spec fn reported(self, renamer: Side) -> Option<(Seq<char>, Seq<char>)> {
        if self.rename_of(renamer).0.len() > 0 {
            Some(self.rename_of(renamer))
        } else {
            None
        }
    }

    /// Ours, or theirs where ours is not there.
    pub open spec fn either(self) -> Option<Idx> {
        if self.triple.ours is Some {
            self.triple.ours
        } else {
            self.triple.theirs
        }
    }

    /// The decision to emit one version of the entity.
    pub open spec fn emits(
        self,
        idx: Option<Idx>,
        strategy: StrategyView,
        tally: Tally,
    ) -> ResolvedView {
        decided(
            DispositionView::Emit { text: self.text(idx), name: self.name(idx) },
            strategy,
            tally,
        )
    }

    /// The decision to follow a rename.
    pub open spec fn renames(
        self,
        text: Seq<char>,
        renamer: Side,
        strategy: StrategyView,
        tally: Tally,
    ) -> ResolvedView {
        ResolvedView {
            disposition: DispositionView::Emit { text, name: self.rename_of(renamer).1 },
            strategy,
            rename: self.reported(renamer),
            tally,
        }
    }

    /// The strategy that records a rename.
    pub open spec fn renamed(self, renamer: Side) -> StrategyView {
        StrategyView::Renamed { from: self.rename_of(renamer).0, to: self.rename_of(renamer).1 }
    }

    /// The conflict of a rename with an edit of the other side: nobody decided
    /// whether the edit was meant for the old contract or the new one.
    pub open spec fn rename_modify(self, renamer: Side) -> EntityConflictView {
        let complexity = complexity_of(
            self.opt_text(self.triple.base),
            self.opt_text(self.triple.ours),
            self.opt_text(self.triple.theirs),
        );
        EntityConflictView {
            entity_name: self.name(self.triple.base),
            entity_type: self.etype(self.triple.base),
            kind: ConflictKindView::RenameModify {
                old_name: self.rename_of(renamer).0,
                new_name: self.rename_of(renamer).1,
                renamed_in_ours: renamer is Ours,
            },
            complexity: if complexity is Syntax {
                ConflictComplexity::SyntaxFunctional
            } else {
                complexity
            },
            ours: self.opt_text(self.triple.ours),
            theirs: self.opt_text(self.triple.theirs),
            base: self.opt_text(self.triple.base),
        }
    }

    /// The conflict of a deletion with what the other side did.
    pub open spec fn modify_delete(self, deleter: Side) -> EntityConflictView {
        let kept = self.opt_text(self.triple.side(deleter.other()));
        let ours = if deleter is Theirs {
            kept
        } else {
            None
        };
        let theirs = if deleter is Ours {
            kept
        } else {
            None
        };
        EntityConflictView {
            entity_name: self.name(self.triple.base),
            entity_type: self.etype(self.triple.base),
            kind: ConflictKindView::ModifyDelete { modified_in_ours: deleter is Theirs },
            complexity: complexity_of(self.opt_text(self.triple.base), ours, theirs),
            ours,
            theirs,
            base: self.opt_text(self.triple.base),
        }
    }

    /// The conflict of two different additions.
    pub open spec fn both_added(self) -> EntityConflictView {
        EntityConflictView {
            entity_name: self.name(self.either()),
            entity_type: self.etype(self.either()),
            kind: ConflictKindView::BothAdded,
            complexity: complexity_of(
                None,
                self.opt_text(self.triple.ours),
                self.opt_text(self.triple.theirs),
            ),
            ours: self.opt_text(self.triple.ours),
            theirs: self.opt_text(self.triple.theirs),
            base: None,
        }
    }

    /// The conflict of two different renames.
    pub open spec fn rename_rename(self) -> EntityConflictView {
        EntityConflictView {
            entity_name: self.name(self.triple.base),
            entity_type: self.etype(self.triple.base),
            kind: ConflictKindView::RenameRename {
                base_name: self.name(self.triple.base),
                ours_name: self.name(self.triple.ours),
                theirs_name: self.name(self.triple.theirs),
            },
            complexity: ConflictComplexity::Syntax,
            ours: self.opt_text(self.triple.ours),
            theirs: self.opt_text(self.triple.theirs),
            base: self.opt_text(self.triple.base),
        }
    }

    /// The body that the ladder is asked about. Where both sides agreed on a new
    /// name, base is read under that name.
    pub open spec fn both_changed(self, renamed: bool) -> BothChanged {
        let r = self.rename_of(Side::Ours);
        BothChanged {
            base: if renamed {
                replaced(self.text(self.triple.base), r.0, r.1)
            } else {
                self.text(self.triple.base)
            },
            ours: self.text(self.triple.ours),
            theirs: self.text(self.triple.theirs),
            name: self.name(self.triple.ours),
            entity_type: self.etype(self.triple.ours),
        }
    }

    /// The decision for each case.
    pub open spec fn resolved(self, cell: Cell, ctx: CtxView, rungs: RungsView) -> ResolvedView {
        match cell {
            Cell::UnchangedBoth => self.emits(
                self.either(),
                StrategyView::Unchanged,
                Tally::Unchanged,
            ),
            Cell::EditOneSide { editor } => self.emits(
                self.triple.side(editor),
                if editor is Ours {
                    StrategyView::OursOnly
                } else {
                    StrategyView::TheirsOnly
                },
                only_tally(editor),
            ),
            Cell::EditBothConvergent => self.emits(
                self.triple.ours,
                StrategyView::ContentEqual,
                Tally::BothMerged,
            ),
            Cell::AddedOneSide { adder } => self.emits(
                self.triple.side(adder),
                if adder is Ours {
                    StrategyView::AddedOurs
                } else {
                    StrategyView::AddedTheirs
                },
                added_tally(adder),
            ),
            Cell::AddedBothConvergent => self.emits(
                self.triple.ours,
                StrategyView::ContentEqual,
                Tally::AddedOurs,
            ),
            Cell::DeletedBoth | Cell::DeleteVsUnchanged { .. } => decided(
                DispositionView::Drop,
                StrategyView::Deleted,
                Tally::Deleted,
            ),
            Cell::RenameVsUnchanged { renamer } | Cell::RenameEditVsUnchanged { renamer } =>
                self.renames(
                self.text(self.triple.side(renamer)),
                renamer,
                self.renamed(renamer),
                only_tally(renamer),
            ),
            Cell::RenameBoth { names_converge } => if names_converge {
                self.renames(
                    self.text(self.triple.ours),
                    Side::Ours,
                    self.renamed(Side::Ours),
                    Tally::BothMerged,
                )
            } else {
                conflicted(self.rename_rename(), ctx, StrategyView::ConflictRenameRename)
            },
            Cell::EditBothDivergent => self.both_changed(false).laddered(ctx, rungs),
            Cell::RenameVsEdit { renamer } | Cell::RenameEditVsEdit { renamer, .. } => conflicted(
                self.rename_modify(renamer),
                ctx,
                StrategyView::ConflictRenameModify,
            ),
            Cell::DeleteVsEdit { deleter } | Cell::DeleteVsRename { deleter }
            | Cell::DeleteVsRenameEdit { deleter } => conflicted(
                self.modify_delete(deleter),
                ctx,
                StrategyView::ConflictModifyDelete,
            ),
            Cell::AddedBothDivergent => conflicted(
                self.both_added(),
                ctx,
                StrategyView::ConflictBothAdded,
            ),
            Cell::RenameEditVsRename { rename_editor, names_converge } => if names_converge {
                self.renamed_and_laddered(ctx, rungs)
            } else {
                conflicted(self.rename_rename(), ctx, StrategyView::ConflictRenameRename)
            },
            Cell::RenameEditBoth { names_converge, bodies_converge } => if !names_converge {
                conflicted(self.rename_rename(), ctx, StrategyView::ConflictRenameRename)
            } else if bodies_converge {
                self.renames(
                    self.text(self.triple.ours),
                    Side::Ours,
                    StrategyView::ContentEqual,
                    Tally::BothMerged,
                )
            } else {
                self.renamed_and_laddered(ctx, rungs)
            },
        }
    }

    /// The name is settled; what is left is an ordinary body merge.
    pub open spec fn renamed_and_laddered(self, ctx: CtxView, rungs: RungsView) -> ResolvedView {
        let r = self.both_changed(true).laddered(ctx, rungs);
        if !(r.disposition is Conflict) && self.reported(Side::Ours) is Some {
            ResolvedView { rename: self.reported(Side::Ours), ..r }
        } else {
            r
        }
    }
}

fn text_of(arena: &Arena, idx: Option<Idx>, Ghost(case): Ghost<Case>) -> (r: String)
    requires
        case.arena == arena@,
        idx_ok(idx, arena@.len()),
    ensures
        r@ == case.text(idx),
{
    match idx {
        Some(i) => arena.get(i).content.clone(),
        None => empty(),
    }
}

fn opt_text_of(arena: &Arena, idx: Option<Idx>, Ghost(case): Ghost<Case>) -> (r: Option<String>)
    requires
        case.arena == arena@,
        idx_ok(idx, arena@.len()),
    ensures
        opt_view(r) == case.opt_text(idx),
{
    match idx {
        Some(i) => Some(arena.get(i).content.clone()),
        None => None,
    }
}

fn name_of(arena: &Arena, idx: Option<Idx>, Ghost(case): Ghost<Case>) -> (r: String)
    requires
        case.arena == arena@,
        idx_ok(idx, arena@.len()),
    ensures
        r@ == case.name(idx),
{
    match idx {
        Some(i) => arena.get(i).name().to_owned(),
        None => empty(),
    }
}

fn etype_of(arena: &Arena, idx: Option<Idx>, Ghost(case): Ghost<Case>) -> (r: String)
    requires
        case.arena == arena@,
        idx_ok(idx, arena@.len()),
    ensures
        r@ == case.etype(idx),
{
    match idx {
        Some(i) => arena.get(i).entity_type().to_owned(),
        None => empty(),
    }
}

fn empty() -> (r: String)
    ensures
        r@ == Seq::<char>::empty(),
{
    proof {
        reveal_strlit("");
        assert(""@ =~= Seq::<char>::empty());
    }
    "".to_owned()
}

fn is_blank(s: &str) -> (r: bool)
    ensures
        r == (s@.len() == 0),
{
    chars_of(s).len() == 0
}

fn rename_of(arena: &Arena, triple: &Triple, renamer: Side, Ghost(case): Ghost<Case>) -> (r: Rename)
    requires
        case.arena == arena@,
        case.triple == triple@,
        triple@.wf(arena@.len()),
    ensures
        r@ == case.rename_of(renamer),
{
    let old = name_of(arena, triple.base_idx(), Ghost(case));
    let new = name_of(arena, triple.side_idx(renamer), Ghost(case));
    if !is_blank(old.as_str()) && !is_blank(new.as_str()) && !str_eq(old.as_str(), new.as_str()) {
        Rename { from: old, to: new }
    } else {
        Rename { from: empty(), to: empty() }
    }
}

fn emit(
    arena: &Arena,
    idx: Option<Idx>,
    strategy: ResolutionStrategy,
    tally: Tally,
    Ghost(case): Ghost<Case>,
) -> (r: Resolved)
    requires
        case.arena == arena@,
        idx_ok(idx, arena@.len()),
    ensures
        r@ == case.emits(idx, strategy@, tally),
{
    emitting(
        text_of(arena, idx, Ghost(case)),
        name_of(arena, idx, Ghost(case)),
        strategy,
        tally,
    )
}

fn follow_rename(
    arena: &Arena,
    triple: &Triple,
    from_side: Side,
    renamer: Side,
    recorded: bool,
    tally: Tally,
    Ghost(case): Ghost<Case>,
) -> (r: Resolved)
    requires
        case.arena == arena@,
        case.triple == triple@,
        triple@.wf(arena@.len()),
    ensures
        r@ == case.renames(
            case.text(triple@.side(from_side)),
            renamer,
            if recorded {
                case.renamed(renamer)
            } else {
                StrategyView::ContentEqual
            },
            tally,
        ),
{
    let rename = rename_of(arena, triple, renamer, Ghost(case));
    let text = text_of(arena, triple.side_idx(from_side), Ghost(case));
    let strategy = if recorded {
        ResolutionStrategy::Renamed { from: rename.from.clone(), to: rename.to.clone() }
    } else {
        ResolutionStrategy::ContentEqual
    };
    let disposition = Disposition::Emit { text, name: rename.to.clone() };
    let rename = if is_blank(rename.from.as_str()) {
        None
    } else {
        Some(rename)
    };
    Resolved { disposition, strategy, rename, tally }
}

fn rename_modify(arena: &Arena, triple: &Triple, renamer: Side, Ghost(case): Ghost<Case>) -> (r:
    EntityConflict)
    requires
        case.arena == arena@,
        case.triple == triple@,
        triple@.wf(arena@.len()),
    ensures
        r@ == case.rename_modify(renamer),
{
    let rename = rename_of(arena, triple, renamer, Ghost(case));
    let base = opt_text_of(arena, triple.base_idx(), Ghost(case));
    let ours = opt_text_of(arena, triple.ours_idx(), Ghost(case));
    let theirs = opt_text_of(arena, triple.theirs_idx(), Ghost(case));
    let complexity = classify_conflict(
        crate::conflict::as_opt_str(&base),
        crate::conflict::as_opt_str(&ours),
        crate::conflict::as_opt_str(&theirs),
    );
    EntityConflict {
        entity_name: name_of(arena, triple.base_idx(), Ghost(case)),
        entity_type: etype_of(arena, triple.base_idx(), Ghost(case)),
        kind: ConflictKind::RenameModify {
            old_name: rename.from,
            new_name: rename.to,
            renamed_in_ours: renamer == Side::Ours,
        },
        complexity: match complexity {
            ConflictComplexity::Syntax => ConflictComplexity::SyntaxFunctional,
            other => other,
        },
        ours_content: ours,
        theirs_content: theirs,
        base_content: base,
    }
}

pub(crate) fn modify_delete(arena: &Arena, triple: &Triple, deleter: Side, Ghost(case): Ghost<Case>) -> (r:
    EntityConflict)
    requires
        case.arena == arena@,
        case.triple == triple@,
        triple@.wf(arena@.len()),
    ensures
        r@ == case.modify_delete(deleter),
{
    let survivor = deleter.flip();
    let kept = opt_text_of(arena, triple.side_idx(survivor), Ghost(case));
    let base = opt_text_of(arena, triple.base_idx(), Ghost(case));
    let (ours, theirs) = match survivor {
        Side::Ours => (kept, None),
        Side::Theirs => (None, kept),
    };
    let complexity = classify_conflict(
        crate::conflict::as_opt_str(&base),
        crate::conflict::as_opt_str(&ours),
        crate::conflict::as_opt_str(&theirs),
    );
    EntityConflict {
        entity_name: name_of(arena, triple.base_idx(), Ghost(case)),
        entity_type: etype_of(arena, triple.base_idx(), Ghost(case)),
        kind: ConflictKind::ModifyDelete { modified_in_ours: survivor == Side::Ours },
        complexity,
        ours_content: ours,
        theirs_content: theirs,
        base_content: base,
    }
}

fn both_added(arena: &Arena, triple: &Triple, Ghost(case): Ghost<Case>) -> (r: EntityConflict)
    requires
        case.arena == arena@,
        case.triple == triple@,
        triple@.wf(arena@.len()),
    ensures
        r@ == case.both_added(),
{
    let ours = opt_text_of(arena, triple.ours_idx(), Ghost(case));
    let theirs = opt_text_of(arena, triple.theirs_idx(), Ghost(case));
    let complexity = classify_conflict(
        None,
        crate::conflict::as_opt_str(&ours),
        crate::conflict::as_opt_str(&theirs),
    );
    let either = either_of(triple, Ghost(case));
    EntityConflict {
        entity_name: name_of(arena, either, Ghost(case)),
        entity_type: etype_of(arena, either, Ghost(case)),
        kind: ConflictKind::BothAdded,
        complexity,
        ours_content: ours,
        theirs_content: theirs,
        base_content: None,
    }
}

fn either_of(triple: &Triple, Ghost(case): Ghost<Case>) -> (r: Option<Idx>)
    requires
        case.triple == triple@,
    ensures
        r == case.either(),
{
    match triple.ours_idx() {
        Some(o) => Some(o),
        None => triple.theirs_idx(),
    }
}

fn rename_rename(arena: &Arena, triple: &Triple, Ghost(case): Ghost<Case>) -> (r: EntityConflict)
    requires
        case.arena == arena@,
        case.triple == triple@,
        triple@.wf(arena@.len()),
    ensures
        r@ == case.rename_rename(),
{
    EntityConflict {
        entity_name: name_of(arena, triple.base_idx(), Ghost(case)),
        entity_type: etype_of(arena, triple.base_idx(), Ghost(case)),
        kind: ConflictKind::RenameRename {
            base_name: name_of(arena, triple.base_idx(), Ghost(case)),
            ours_name: name_of(arena, triple.ours_idx(), Ghost(case)),
            theirs_name: name_of(arena, triple.theirs_idx(), Ghost(case)),
        },
        complexity: ConflictComplexity::Syntax,
        ours_content: opt_text_of(arena, triple.ours_idx(), Ghost(case)),
        theirs_content: opt_text_of(arena, triple.theirs_idx(), Ghost(case)),
        base_content: opt_text_of(arena, triple.base_idx(), Ghost(case)),
    }
}

/// Does a case go down the ladder, and if so, has its name been settled before?
pub open spec fn laddered_case(cell: Cell) -> Option<bool> {
    match cell {
        Cell::EditBothDivergent => Some(false),
        Cell::RenameEditVsRename { rename_editor, names_converge } => if names_converge {
            Some(true)
        } else {
            None
        },
        Cell::RenameEditBoth { names_converge, bodies_converge } => if names_converge
            && !bodies_converge {
            Some(true)
        } else {
            None
        },
        _ => None,
    }
}

/// The three bodies and the type that the ladder's rungs are asked about.
#[derive(Debug, Clone)]
pub struct Contested {
    pub base: String,
    pub ours: String,
    pub theirs: String,
    pub name: String,
    pub entity_type: String,
}

impl View for Contested {
    type V = BothChanged;

    open spec fn view(&self) -> BothChanged {
        BothChanged {
            base: self.base@,
            ours: self.ours@,
            theirs: self.theirs@,
            name: self.name@,
            entity_type: self.entity_type@,
        }
    }
}

impl Contested {
    /// What the line merge in this process makes of the three bodies.
    pub fn line_merge(&self) -> (r: Option<String>)
        ensures
            opt_view(r) == line_merge_of(self@.base, self@.ours, self@.theirs),
    {
        merge_lines(self.base.as_str(), self.ours.as_str(), self.theirs.as_str())
    }
}

/// What the ladder's rungs are asked about, for the cases that go down it.
pub fn contested(arena: &Arena, triple: &Triple, cell: Cell) -> (r: Option<Contested>)
    requires
        triple@.wf(arena@.len()),
    ensures
        match laddered_case(cell) {
            Some(renamed) => r matches Some(c) && c@ == (Case {
                arena: arena@,
                triple: triple@,
            }).both_changed(renamed),
            None => r is None,
        },
{
    let ghost case = Case { arena: arena@, triple: triple@ };
    let renamed = match cell {
        Cell::EditBothDivergent => false,
        Cell::RenameEditVsRename { names_converge, .. } => {
            if !names_converge {
                return None;
            }
            true
        },
        Cell::RenameEditBoth { names_converge, bodies_converge } => {
            if !names_converge || bodies_converge {
                return None;
            }
            true
        },
        _ => {
            return None;
        },
    };
    let text = text_of(arena, triple.base_idx(), Ghost(case));
    let base = if renamed {
        let r = rename_of(arena, triple, Side::Ours, Ghost(case));
        replace_at_word_boundaries(text.as_str(), r.from.as_str(), r.to.as_str())
    } else {
        text
    };
    Some(
        Contested {
            base,
            ours: text_of(arena, triple.ours_idx(), Ghost(case)),
            theirs: text_of(arena, triple.theirs_idx(), Ghost(case)),
            name: name_of(arena, triple.ours_idx(), Ghost(case)),
            entity_type: etype_of(arena, triple.ours_idx(), Ghost(case)),
        },
    )
}

/// Send a body down the ladder; where the name was settled before, the rename is
/// reported with a clean result.
fn resolve_contested(
    arena: &Arena,
    triple: &Triple,
    cell: Cell,
    c: Contested,
    ctx: &ResolveCtx,
    rungs: &Rungs,
) -> (r: Resolved)
    requires
        triple@.wf(arena@.len()),
        laddered_case(cell) is Some,
        c@ == (Case { arena: arena@, triple: triple@ }).both_changed(laddered_case(cell)->0),
    ensures
        r@ == (Case { arena: arena@, triple: triple@ }).resolved(cell, ctx@, rungs@),
{
    let ghost case = Case { arena: arena@, triple: triple@ };
    let mut r = intra_entity(
        c.base.as_str(),
        c.ours.as_str(),
        c.theirs.as_str(),
        c.name,
        c.entity_type,
        ctx,
        rungs,
    );
    if cell != Cell::EditBothDivergent && !r.disposition.is_conflict() {
        let rename = rename_of(arena, triple, Side::Ours, Ghost(case));
        if !is_blank(rename.from.as_str()) {
            r.rename = Some(rename);
        }
    }
    r
}

/// Decide one triple. `rungs` holds what the finer merges answer about the bodies of
/// [`contested`]; the cases that do not go down the ladder never look at it.
#[verifier::rlimit(60)]
pub fn resolve(arena: &Arena, triple: &Triple, cell: Cell, ctx: &ResolveCtx, rungs: &Rungs) -> (r:
    Resolved)
    requires
        triple@.wf(arena@.len()),
    ensures
        r@ == (Case { arena: arena@, triple: triple@ }).resolved(cell, ctx@, rungs@),
{
    let ghost case = Case { arena: arena@, triple: triple@ };
    match contested(arena, triple, cell) {
        Some(c) => {
            return resolve_contested(arena, triple, cell, c, ctx, rungs);
        },
        None => {},
    }
    match cell {
        Cell::UnchangedBoth => emit(
            arena,
            either_of(triple, Ghost(case)),
            ResolutionStrategy::Unchanged,
            Tally::Unchanged,
            Ghost(case),
        ),
        Cell::EditOneSide { editor } => emit(
            arena,
            triple.side_idx(editor),
            match editor {
                Side::Ours => ResolutionStrategy::OursOnly,
                Side::Theirs => ResolutionStrategy::TheirsOnly,
            },
            Tally::only(editor),
            Ghost(case),
        ),
        Cell::EditBothConvergent => emit(
            arena,
            triple.ours_idx(),
            ResolutionStrategy::ContentEqual,
            Tally::BothMerged,
            Ghost(case),
        ),
        Cell::AddedOneSide { adder } => emit(
            arena,
            triple.side_idx(adder),
            match adder {
                Side::Ours => ResolutionStrategy::AddedOurs,
                Side::Theirs => ResolutionStrategy::AddedTheirs,
            },
            Tally::added(adder),
            Ghost(case),
        ),
        Cell::AddedBothConvergent => emit(
            arena,
            triple.ours_idx(),
            ResolutionStrategy::ContentEqual,
            Tally::AddedOurs,
            Ghost(case),
        ),
        Cell::DeletedBoth | Cell::DeleteVsUnchanged { .. } => Resolved::revised(
            Disposition::Drop,
            ResolutionStrategy::Deleted,
            Tally::Deleted,
        ),
        Cell::RenameVsUnchanged { renamer } | Cell::RenameEditVsUnchanged { renamer } =>
            follow_rename(
            arena,
            triple,
            renamer,
            renamer,
            true,
            Tally::only(renamer),
            Ghost(case),
        ),
        Cell::RenameVsEdit { renamer } | Cell::RenameEditVsEdit { renamer, .. } =>
            conflict_disposition(
            rename_modify(arena, triple, renamer, Ghost(case)),
            ctx,
            ResolutionStrategy::ConflictRenameModify,
        ),
        Cell::DeleteVsEdit { deleter } | Cell::DeleteVsRename { deleter }
        | Cell::DeleteVsRenameEdit { deleter } => conflict_disposition(
            modify_delete(arena, triple, deleter, Ghost(case)),
            ctx,
            ResolutionStrategy::ConflictModifyDelete,
        ),
        Cell::AddedBothDivergent => conflict_disposition(
            both_added(arena, triple, Ghost(case)),
            ctx,
            ResolutionStrategy::ConflictBothAdded,
        ),
        Cell::RenameBoth { names_converge } => {
            if names_converge {
                follow_rename(
                    arena,
                    triple,
                    Side::Ours,
                    Side::Ours,
                    true,
                    Tally::BothMerged,
                    Ghost(case),
                )
            } else {
                conflict_disposition(
                    rename_rename(arena, triple, Ghost(case)),
                    ctx,
                    ResolutionStrategy::ConflictRenameRename,
                )
            }
        },
        Cell::RenameEditBoth { names_converge, .. } => {
            if names_converge {
                follow_rename(
                    arena,
                    triple,
                    Side::Ours,
                    Side::Ours,
                    false,
                    Tally::BothMerged,
                    Ghost(case),
                )
            } else {
                conflict_disposition(
                    rename_rename(arena, triple, Ghost(case)),
                    ctx,
                    ResolutionStrategy::ConflictRenameRename,
                )
            }
        },
        _ => conflict_disposition(
            rename_rename(arena, triple, Ghost(case)),
            ctx,
            ResolutionStrategy::ConflictRenameRename,
        ),
    }
}

// ---------------------------------------------------------------------------
// Containers
// ---------------------------------------------------------------------------

/// The first of the entities, at or after the `k`th, with the id.
pub open spec fn entity_with_id(all: Seq<SemanticView>, id: Seq<char>, k: int) -> Option<int>
    decreases all.len() - k,
{
    if k < 0 || k >= all.len() {
        None
    } else if all[k].id == id {
        Some(k)
    } else {
        entity_with_id(all, id, k + 1)
    }
}

/// The place of the entity that an index was read from.
pub open spec fn source_of(
    arena: Seq<EntityView>,
    idx: Option<Idx>,
    all: Seq<SemanticView>,
) -> Option<int> {
    match idx {
        Some(i) => entity_with_id(all, entity_at(arena, i).src_id, 0),
        None => None,
    }
}

/// The number of the region's own first line: the region ends where the entity
/// does, and starts earlier where a comment was bundled in front of it.
pub open spec fn region_start(end_line: int, region: Seq<char>) -> int {
    let past = if end_line < usize::MAX {
        end_line + 1
    } else {
        usize::MAX as int
    };
    let start = past - lines(region).len();
    if start < 1 {
        1
    } else {
        start
    }
}

/// The number of `region`'s first line in its file.
pub fn region_start_line(entity: &SemanticEntity, region: &str) -> (r: usize)
    ensures
        r == region_start(entity.end_line as int, region@),
{
    let ls = split_lines(chars_of(region).as_slice());
    proof {
        assert(texts(ls@).len() == ls@.len());
    }
    let height: usize = ls.len();
    let past: usize = if entity.end_line < usize::MAX {
        entity.end_line + 1
    } else {
        usize::MAX
    };
    if past <= height {
        1
    } else {
        past - height
    }
}

fn find_source(arena: &Arena, idx: Option<Idx>, all: &Vec<SemanticEntity>) -> (r: Option<usize>)
    requires
        idx_ok(idx, arena@.len()),
    ensures
        match r {
            Some(p) => source_of(arena@, idx, semantic_views(all@)) == Some(p as int) && p
                < all@.len(),
            None => source_of(arena@, idx, semantic_views(all@)) is None,
        },
{
    let ghost views = semantic_views(all@);
    match idx {
        None => None,
        Some(i) => {
            let id = arena.get(i).src_id.as_str();
            let mut k: usize = 0;
            while k < all.len()
                invariant
                    idx == Some(i),
                    k <= all@.len(),
                    views == semantic_views(all@),
                    id@ == entity_at(arena@, i).src_id,
                    entity_with_id(views, id@, k as int) == entity_with_id(views, id@, 0),
                decreases all@.len() - k,
            {
                proof {
                    assert(views[k as int] == all@[k as int]@);
                }
                if str_eq(all[k].id.as_str(), id) {
                    return Some(k);
                }
                k = k + 1;
            }
            None
        },
    }
}

/// The three containers behind one triple: where each stands among the parsed
/// entities, and the number of its text's first line.
#[derive(Debug, Clone, Copy, PartialEq, Eq, Structural)]
pub struct InnerFrame {
    pub base: Option<usize>,
    pub ours: usize,
    pub theirs: Option<usize>,
    pub base_start: usize,
    pub ours_start: usize,
    pub theirs_start: usize,
}

fn start_of(all: &Vec<SemanticEntity>, at: Option<usize>, region: &str) -> (r: usize)
    requires
        at matches Some(p) ==> p < all@.len(),
    ensures
        r == match at {
            Some(p) => region_start(semantic_views(all@)[p as int].end_line, region@),
            None => 1,
        },
{
    match at {
        Some(p) => {
            proof {
                assert(semantic_views(all@)[p as int] == all@[p as int]@);
            }
            region_start_line(&all[p], region)
        },
        None => 1,
    }
}

/// The containers that a merge by members takes apart, or `None` where ours is not
/// among the parsed entities.
pub fn inner_merge(
    arena: &Arena,
    triple: &Triple,
    base_all: &Vec<SemanticEntity>,
    ours_all: &Vec<SemanticEntity>,
    theirs_all: &Vec<SemanticEntity>,
    base: &str,
    ours: &str,
    theirs: &str,
) -> (r: Option<InnerFrame>)
    requires
        triple@.wf(arena@.len()),
    ensures
        match source_of(arena@, triple@.ours, semantic_views(ours_all@)) {
            None => r is None,
            Some(p) => {
                &&& r matches Some(f)
                &&& f.ours == p
                &&& f.ours_start == region_start(semantic_views(ours_all@)[p].end_line, ours@)
                &&& match source_of(arena@, triple@.base, semantic_views(base_all@)) {
                    Some(q) => f.base == Some(q as usize) && f.base_start == region_start(
                        semantic_views(base_all@)[q].end_line,
                        base@,
                    ),
                    None => f.base is None && f.base_start == 1,
                }
                &&& match source_of(arena@, triple@.theirs, semantic_views(theirs_all@)) {
                    Some(q) => f.theirs == Some(q as usize) && f.theirs_start == region_start(
                        semantic_views(theirs_all@)[q].end_line,
                        theirs@,
                    ),
                    None => f.theirs is None && f.theirs_start == 1,
                }
            },
        },
{
    let b = find_source(arena, triple.base_idx(), base_all);
    let t = find_source(arena, triple.theirs_idx(), theirs_all);
    match find_source(arena, triple.ours_idx(), ours_all) {
        None => None,
        Some(o) => Some(
            InnerFrame {
                base: b,
                ours: o,
                theirs: t,
                base_start: start_of(base_all, b, base),
                ours_start: start_of(ours_all, Some(o), ours),
                theirs_start: start_of(theirs_all, t, theirs),
            },
        ),
    }
}

// ---------------------------------------------------------------------------
// Laws
// ---------------------------------------------------------------------------

/// Where one side did nothing that the other could contradict, no conflict is
/// reported, whatever the finer merges would have answered.
pub proof fn a_trivially_clean_case_is_clean(
    case: Case,
    cell: Cell,
    ctx: CtxView,
    rungs: RungsView,
)
    requires
        cell.trivially_clean(),
    ensures
        !(case.resolved(cell, ctx, rungs).disposition is Conflict),
        case.resolved(cell, ctx, rungs).tally != Tally::Conflicted,
{
}

/// A decision is a conflict exactly when it is tallied as one.
#[verifier::spinoff_prover]
#[verifier::rlimit(60)]
pub proof fn a_conflict_is_tallied_as_one(case: Case, cell: Cell, ctx: CtxView, rungs: RungsView)
    ensures
        case.resolved(cell, ctx, rungs).disposition is Conflict <==> case.resolved(
            cell,
            ctx,
            rungs,
        ).tally == Tally::Conflicted,
{
}

/// Where a rename met an edit, or two renames disagree, or a deletion met a change,
/// or two additions differ, the answer is a conflict, whatever a finer merge would
/// make of the bodies.
pub proof fn an_undecided_case_is_a_conflict(
    case: Case,
    cell: Cell,
    ctx: CtxView,
    rungs: RungsView,
)
    requires
        !cell.trivially_clean(),
        laddered_case(cell) is None,
        !(cell matches Cell::RenameEditBoth { names_converge: true, bodies_converge: true }),
    ensures
        case.resolved(cell, ctx, rungs).disposition is Conflict,
{
}

/// A body that some finer merge answers cleanly is no conflict.
pub proof fn a_clean_line_merge_is_taken(
    case: Case,
    cell: Cell,
    ctx: CtxView,
    rungs: RungsView,
)
    requires
        laddered_case(cell) is Some,
        rungs.diff3 is Some,
    ensures
        case.resolved(cell, ctx, rungs).disposition == (DispositionView::Emit {
            text: rungs.diff3->0,
            name: case.name(case.triple.ours),
        }),
{
}

/// A body that both sides changed and that every finer merge refuses is a conflict.
pub proof fn a_body_that_every_merge_refuses_is_a_conflict(
    case: Case,
    cell: Cell,
    ctx: CtxView,
    rungs: RungsView,
)
    requires
        laddered_case(cell) is Some,
        rungs.diff3 is None,
        ctx.indent_sensitive || !rungs.ours_reflowed && !rungs.theirs_reflowed,
        rungs.decorated is None,
        !rungs.is_container || rungs.inner is None,
        rungs.statement is None,
    ensures
        case.resolved(cell, ctx, rungs).disposition is Conflict,
{
}

/// Where both sides did the same, no conflict is reported, and what they agree on is
/// emitted or, where they deleted it, dropped.
pub proof fn an_agreement_is_no_conflict(case: Case, cell: Cell, ctx: CtxView, rungs: RungsView)
    requires
        cell is EditBothConvergent || cell is AddedBothConvergent || cell is DeletedBoth || cell
            == (Cell::RenameBoth { names_converge: true }) || cell == (Cell::RenameEditBoth {
            names_converge: true,
            bodies_converge: true,
        }),
    ensures
        case.resolved(cell, ctx, rungs).disposition.emitted() == if cell is DeletedBoth {
            None
        } else {
            Some(case.text(case.triple.ours))
        },
        !(case.resolved(cell, ctx, rungs).disposition is Conflict),
{
}

/// A change that only one side made is taken as that side wrote it: an edit, an
/// addition, a rename; and its deletion of what the other side left alone stands.
pub proof fn a_one_sided_change_is_taken(case: Case, side: Side, ctx: CtxView, rungs: RungsView)
    ensures
        case.resolved(Cell::EditOneSide { editor: side }, ctx, rungs).disposition.emitted() == Some(
            case.text(case.triple.side(side)),
        ),
        case.resolved(Cell::AddedOneSide { adder: side }, ctx, rungs).disposition.emitted() == Some(
            case.text(case.triple.side(side)),
        ),
        case.resolved(
            Cell::RenameVsUnchanged { renamer: side },
            ctx,
            rungs,
        ).disposition.emitted() == Some(case.text(case.triple.side(side))),
        case.resolved(
            Cell::RenameEditVsUnchanged { renamer: side },
            ctx,
            rungs,
        ).disposition.emitted() == Some(case.text(case.triple.side(side))),
        case.resolved(Cell::DeleteVsUnchanged { deleter: side }, ctx, rungs).disposition is Drop,
{
}


// ---------------------------------------------------------------------------
// What a decision has to do with the versions
// ---------------------------------------------------------------------------

/// Where no line merge answers and indentation is no semantics, a change of white space
/// alone gives way to the real edit: the other side's text is emitted, and the decision
/// is that side's.
#[verifier::spinoff_prover]
#[verifier::rlimit(80)]
pub proof fn a_reflow_gives_way_to_the_real_edit(
    case: Case,
    cell: Cell,
    ctx: CtxView,
    rungs: RungsView,
    reflower: Side,
)
    requires
        laddered_case(cell) is Some,
        rungs.diff3 is None,
        !ctx.indent_sensitive,
        rungs.ours_reflowed == (reflower is Ours),
        rungs.theirs_reflowed == (reflower is Theirs),
    ensures
        ({
            let r = case.resolved(cell, ctx, rungs);
            let editor = reflower.other();
            &&& r.disposition == (DispositionView::Emit {
                text: case.text(case.triple.side(editor)),
                name: case.name(case.triple.ours),
            })
            &&& editor is Ours ==> r.strategy is OursOnly && r.tally is OursOnly
            &&& editor is Theirs ==> r.strategy is TheirsOnly && r.tally is TheirsOnly
        }),
{
}

/// Where indentation is semantics, whether a side changed white space alone does not
/// matter, and where the line merge answers nothing else does.
#[verifier::spinoff_prover]
#[verifier::rlimit(80)]
pub proof fn a_reflow_matters_only_below_the_line_merge(
    case: Case,
    cell: Cell,
    ctx: CtxView,
    a: RungsView,
    b: RungsView,
)
    requires
        a.diff3 == b.diff3,
        a.diff3 is Some || ctx.indent_sensitive && b == (RungsView {
            ours_reflowed: b.ours_reflowed,
            theirs_reflowed: b.theirs_reflowed,
            ..a
        }),
    ensures
        case.resolved(cell, ctx, a) == case.resolved(cell, ctx, b),
{
}

/// Below the line merge and the reflows the finer merges are asked in turn: the one that
/// sees decorators, the one by members where the entity is a container, the one by
/// statements. The first that answers is emitted, as a merge of both sides; where its
/// answer still holds conflicts, it is a conflict over the three texts.
#[verifier::spinoff_prover]
#[verifier::rlimit(80)]
pub proof fn the_first_finer_merge_is_taken(
    case: Case,
    cell: Cell,
    ctx: CtxView,
    rungs: RungsView,
)
    requires
        laddered_case(cell) is Some,
        rungs.diff3 is None,
        ctx.indent_sensitive || !rungs.ours_reflowed && !rungs.theirs_reflowed,
    ensures
        ({
            let r = case.resolved(cell, ctx, rungs);
            let inside = if rungs.is_container {
                rungs.inner
            } else {
                None
            };
            let answer = if inside is Some {
                inside
            } else {
                rungs.statement
            };
            &&& rungs.decorated matches Some(x) ==> r.disposition.emitted() == Some(x)
                && r.disposition is Emit && r.tally is BothMerged
            &&& rungs.decorated is None && answer is Some ==> {
                &&& r.disposition.emitted() == Some(answer->0.content)
                &&& r.disposition is Conflict <==> answer->0.has_conflicts
                &&& r.disposition is Emit ==> r.tally is BothMerged
            }
            &&& rungs.decorated is None && answer is None ==> r.disposition is Conflict
        }),
{
}

impl Case {
    /// What tells the versions of an entity apart: its name and its body.
    pub open spec fn version(self, idx: Option<Idx>) -> Option<(Seq<char>, u64)> {
        match idx {
            Some(i) => Some(
                (entity_at(self.arena, i).key.name, entity_at(self.arena, i).body_hash),
            ),
            None => None,
        }
    }

    /// The case with the sides exchanged.
    pub open spec fn swapped(self) -> Case {
        Case { triple: self.triple.swapped(), ..self }
    }
}

/// A decision is a three-way merge. What both sides have is emitted, and what neither has
/// is dropped; what only one side changed is taken from it, be it a version or that the
/// entity is gone; and where all three versions differ, the decision is a conflict,
/// unless every version is there and the two sides agree on the name, so that only the
/// bodies are left to merge.
#[verifier::spinoff_prover]
#[verifier::rlimit(80)]
pub proof fn a_decision_is_a_three_way_merge(case: Case, ctx: CtxView, rungs: RungsView)
    requires
        case.triple.base is Some || case.triple.ours is Some || case.triple.theirs is Some,
    ensures
        ({
            let t = case.triple;
            let r = case.resolved(cell_of(case.arena, t), ctx, rungs);
            let b = case.version(t.base);
            let o = case.version(t.ours);
            let u = case.version(t.theirs);
            &&& o == u ==> !(r.disposition is Conflict) && r.disposition.emitted()
                == case.opt_text(t.ours)
            &&& b == u && b != o ==> !(r.disposition is Conflict) && r.disposition.emitted()
                == case.opt_text(t.ours)
            &&& b == o && b != u ==> !(r.disposition is Conflict) && r.disposition.emitted()
                == case.opt_text(t.theirs)
            &&& b != o && b != u && o != u && !(t.base is Some && t.ours is Some
                && t.theirs is Some && case.name(t.ours) == case.name(t.theirs)) && !(t.base is None
                && bodies_agree(case.arena, t)) ==> r.disposition is Conflict
        }),
{
}

/// A conflict shows what every version has: the text of each side that has the entity and
/// of no other, and base's, read under the new name where both sides renamed it. Its kind
/// says what the sides did.
#[verifier::spinoff_prover]
#[verifier::rlimit(80)]
pub proof fn a_conflict_shows_every_version(case: Case, ctx: CtxView, rungs: RungsView)
    requires
        case.triple.base is Some || case.triple.ours is Some || case.triple.theirs is Some,
    ensures
        case.resolved(cell_of(case.arena, case.triple), ctx, rungs).disposition matches
            DispositionView::Conflict { text, conflict } ==> {
            let t = case.triple;
            &&& conflict.ours == case.opt_text(t.ours)
            &&& conflict.theirs == case.opt_text(t.theirs)
            &&& conflict.base is Some <==> t.base is Some
            &&& case.name(t.ours) == case.name(t.base) || case.name(t.theirs) == case.name(t.base)
                || t.ours is None || t.theirs is None || case.name(t.ours) != case.name(t.theirs)
                ==> conflict.base == case.opt_text(t.base)
            &&& conflict.kind is BothAdded <==> t.base is None
            &&& conflict.kind is ModifyDelete <==> t.base is Some && (t.ours is None
                || t.theirs is None)
            &&& conflict.kind matches ConflictKindView::ModifyDelete { modified_in_ours } ==> (
            modified_in_ours <==> t.ours is Some) && (modified_in_ours <==> t.theirs is None)
            &&& conflict.kind matches ConflictKindView::RenameRename {
                base_name,
                ours_name,
                theirs_name,
            } ==> base_name == case.name(t.base) && ours_name == case.name(t.ours) && theirs_name
                == case.name(t.theirs) && ours_name != theirs_name && ours_name != base_name
                && theirs_name != base_name
            &&& conflict.kind matches ConflictKindView::RenameModify {
                old_name,
                new_name,
                renamed_in_ours,
            } ==> {
                let side = if renamed_in_ours {
                    Side::Ours
                } else {
                    Side::Theirs
                };
                &&& case.name(t.side(side)) != case.name(t.base)
                &&& case.name(t.side(side.other())) == case.name(t.base)
                &&& case.name(t.base).len() > 0 && case.name(t.side(side)).len() > 0 ==> old_name
                    == case.name(t.base) && new_name == case.name(t.side(side))
            }
            &&& conflict.kind is BothModified ==> t.base is Some && t.ours is Some
                && t.theirs is Some && case.name(t.ours) == case.name(t.theirs)
        },
{
}

/// A decision that drops an entity drops one that a side deleted.
#[verifier::spinoff_prover]
#[verifier::rlimit(80)]
pub proof fn only_what_a_side_deleted_is_dropped(case: Case, ctx: CtxView, rungs: RungsView)
    requires
        case.triple.base is Some || case.triple.ours is Some || case.triple.theirs is Some,
        case.resolved(cell_of(case.arena, case.triple), ctx, rungs).disposition is Drop,
    ensures
        case.triple.base is Some,
        case.triple.ours is None || case.triple.theirs is None,
{
}

/// A rename is reported exactly where the emitted entity has another name than base's,
/// and it leads from the one to the other.
#[verifier::spinoff_prover]
#[verifier::rlimit(80)]
pub proof fn a_rename_is_reported_as_it_was_made(case: Case, ctx: CtxView, rungs: RungsView)
    requires
        case.triple.base is Some,
        case.name(case.triple.base).len() > 0,
        case.triple.ours is Some ==> case.name(case.triple.ours).len() > 0,
        case.triple.theirs is Some ==> case.name(case.triple.theirs).len() > 0,
    ensures
        ({
            let r = case.resolved(cell_of(case.arena, case.triple), ctx, rungs);
            let old = case.name(case.triple.base);
            match r.disposition {
                DispositionView::Emit { text, name } => if name == old {
                    r.rename is None
                } else {
                    r.rename == Some((old, name))
                },
                _ => r.rename is None,
            }
        }),
{
}

/// The tally with the sides exchanged.
pub open spec fn swapped_tally(t: Tally) -> Tally {
    match t {
        Tally::OursOnly => Tally::TheirsOnly,
        Tally::TheirsOnly => Tally::OursOnly,
        Tally::AddedOurs => Tally::AddedTheirs,
        Tally::AddedTheirs => Tally::AddedOurs,
        other => other,
    }
}

/// The record of a conflict with the sides exchanged.
pub open spec fn swapped_conflict(c: EntityConflictView) -> EntityConflictView {
    EntityConflictView {
        ours: c.theirs,
        theirs: c.ours,
        kind: match c.kind {
            ConflictKindView::ModifyDelete { modified_in_ours } => ConflictKindView::ModifyDelete {
                modified_in_ours: !modified_in_ours,
            },
            ConflictKindView::RenameRename { base_name, ours_name, theirs_name } =>
                ConflictKindView::RenameRename {
                base_name,
                ours_name: theirs_name,
                theirs_name: ours_name,
            },
            ConflictKindView::RenameModify { old_name, new_name, renamed_in_ours } =>
                ConflictKindView::RenameModify {
                old_name,
                new_name,
                renamed_in_ours: !renamed_in_ours,
            },
            kind => kind,
        },
        ..c
    }
}

/// The answers of the finer merges with the sides exchanged.
pub open spec fn swapped_rungs(r: RungsView) -> RungsView {
    RungsView { ours_reflowed: r.theirs_reflowed, theirs_reflowed: r.ours_reflowed, ..r }
}

/// Is the second decision the first with the sides exchanged?
pub open spec fn mirrors(a: ResolvedView, b: ResolvedView) -> bool {
    &&& b.rename == a.rename
    &&& b.tally == swapped_tally(a.tally)
    &&& match a.disposition {
        DispositionView::Conflict { text, conflict } => b.disposition matches
            DispositionView::Conflict { text: other, conflict: mirrored } && mirrored
            == swapped_conflict(conflict),
        d => b.disposition == d,
    }
}

impl BothChanged {
    /// The body with the sides exchanged.
    pub open spec fn swapped(self) -> BothChanged {
        BothChanged { ours: self.theirs, theirs: self.ours, ..self }
    }
}

/// The ladder prefers no side.
#[verifier::spinoff_prover]
#[verifier::rlimit(80)]
pub proof fn the_ladder_prefers_no_side(c: BothChanged, ctx: CtxView, rungs: RungsView)
    requires
        !(rungs.ours_reflowed && rungs.theirs_reflowed),
    ensures
        mirrors(c.laddered(ctx, rungs), c.swapped().laddered(ctx, swapped_rungs(rungs))),
{
    crate::conflict::complexity_is_symmetric(Some(c.base), Some(c.ours), Some(c.theirs));
}

/// Do both sides have the entity, under one name and with one text?
spec fn sides_alike(case: Case) -> bool {
    let t = case.triple;
    t.ours is Some && t.theirs is Some && case.name(t.ours) == case.name(t.theirs) && case.text(
        t.ours,
    ) == case.text(t.theirs)
}

/// Is the case one that both sides agree on?
spec fn convergent(cell: Cell) -> bool {
    match cell {
        Cell::UnchangedBoth | Cell::EditBothConvergent => true,
        Cell::RenameBoth { names_converge } => names_converge,
        Cell::RenameEditBoth { names_converge, bodies_converge } => names_converge
            && bodies_converge,
        _ => false,
    }
}

#[verifier::spinoff_prover]
#[verifier::rlimit(80)]
proof fn what_the_case_says(case: Case)
    requires
        case.triple.base is Some || case.triple.ours is Some || case.triple.theirs is Some,
        bodies_agree(case.arena, case.triple) ==> case.text(case.triple.ours) == case.text(
            case.triple.theirs,
        ),
    ensures
        convergent(cell_of(case.arena, case.triple)) ==> sides_alike(case),
        laddered_case(cell_of(case.arena, case.triple)) is Some ==> case.triple.ours is Some
            && case.triple.theirs is Some && case.name(case.triple.ours) == case.name(
            case.triple.theirs,
        ),
        cell_of(case.arena, case.triple) is AddedBothDivergent ==> case.triple.base is None
            && case.triple.ours is Some && case.triple.theirs is Some,
{
}

/// Conflicts whose records are mirror images are mirror images.
#[verifier::spinoff_prover]
#[verifier::rlimit(80)]
pub proof fn conflicts_mirror(
    a: EntityConflictView,
    b: EntityConflictView,
    ctx: CtxView,
    strategy: StrategyView,
)
    requires
        b == swapped_conflict(a),
    ensures
        mirrors(conflicted(a, ctx, strategy), conflicted(b, ctx, strategy)),
{
}

/// The records of the conflicts over a rename or a deletion are mirror images.
#[verifier::spinoff_prover]
#[verifier::rlimit(80)]
pub proof fn records_mirror(case: Case, side: Side)
    ensures
        case.swapped().rename_modify(side.other()) == swapped_conflict(case.rename_modify(side)),
        case.swapped().modify_delete(side.other()) == swapped_conflict(case.modify_delete(side)),
        case.swapped().rename_rename() == swapped_conflict(case.rename_rename()),
{
    let t = case.triple;
    let (b, o, u) = (case.opt_text(t.base), case.opt_text(t.ours), case.opt_text(t.theirs));
    crate::conflict::complexity_is_symmetric(b, o, u);
    crate::conflict::complexity_is_symmetric(b, o, None);
    crate::conflict::complexity_is_symmetric(b, u, None);
}

#[verifier::spinoff_prover]
#[verifier::rlimit(80)]
proof fn additions_mirror(case: Case)
    requires
        case.triple.ours is Some,
        case.triple.theirs is Some,
        case.name(case.triple.ours) == case.name(case.triple.theirs),
        case.etype(case.triple.ours) == case.etype(case.triple.theirs),
    ensures
        case.swapped().both_added() == swapped_conflict(case.both_added()),
{
    let t = case.triple;
    crate::conflict::complexity_is_symmetric(
        None,
        case.opt_text(t.ours),
        case.opt_text(t.theirs),
    );
}

#[verifier::spinoff_prover]
#[verifier::rlimit(80)]
proof fn rename_vs_edit_mirrors(case: Case, side: Side, ctx: CtxView, rungs: RungsView)
    ensures
        mirrors(
            case.resolved(Cell::RenameVsEdit { renamer: side }, ctx, rungs),
            case.swapped().resolved((Cell::RenameVsEdit { renamer: side }).flipped(), ctx, swapped_rungs(rungs)),
        ),
{
    records_mirror(case, side);
    conflicts_mirror(
        case.rename_modify(side),
        case.swapped().rename_modify(side.other()),
        ctx,
        StrategyView::ConflictRenameModify,
    );
}

#[verifier::spinoff_prover]
#[verifier::rlimit(80)]
proof fn rename_edit_vs_edit_mirrors(case: Case, side: Side, bodies_converge: bool, ctx: CtxView, rungs: RungsView)
    ensures
        mirrors(
            case.resolved(Cell::RenameEditVsEdit { renamer: side, bodies_converge }, ctx, rungs),
            case.swapped().resolved((Cell::RenameEditVsEdit { renamer: side, bodies_converge }).flipped(), ctx, swapped_rungs(rungs)),
        ),
{
    records_mirror(case, side);
    conflicts_mirror(
        case.rename_modify(side),
        case.swapped().rename_modify(side.other()),
        ctx,
        StrategyView::ConflictRenameModify,
    );
}

#[verifier::spinoff_prover]
#[verifier::rlimit(80)]
proof fn delete_vs_edit_mirrors(case: Case, side: Side, ctx: CtxView, rungs: RungsView)
    ensures
        mirrors(
            case.resolved(Cell::DeleteVsEdit { deleter: side }, ctx, rungs),
            case.swapped().resolved((Cell::DeleteVsEdit { deleter: side }).flipped(), ctx, swapped_rungs(rungs)),
        ),
{
    records_mirror(case, side);
    conflicts_mirror(
        case.modify_delete(side),
        case.swapped().modify_delete(side.other()),
        ctx,
        StrategyView::ConflictModifyDelete,
    );
}

#[verifier::spinoff_prover]
#[verifier::rlimit(80)]
proof fn delete_vs_rename_mirrors(case: Case, side: Side, ctx: CtxView, rungs: RungsView)
    ensures
        mirrors(
            case.resolved(Cell::DeleteVsRename { deleter: side }, ctx, rungs),
            case.swapped().resolved((Cell::DeleteVsRename { deleter: side }).flipped(), ctx, swapped_rungs(rungs)),
        ),
{
    records_mirror(case, side);
    conflicts_mirror(
        case.modify_delete(side),
        case.swapped().modify_delete(side.other()),
        ctx,
        StrategyView::ConflictModifyDelete,
    );
}

#[verifier::spinoff_prover]
#[verifier::rlimit(80)]
proof fn delete_vs_rename_edit_mirrors(case: Case, side: Side, ctx: CtxView, rungs: RungsView)
    ensures
        mirrors(
            case.resolved(Cell::DeleteVsRenameEdit { deleter: side }, ctx, rungs),
            case.swapped().resolved((Cell::DeleteVsRenameEdit { deleter: side }).flipped(), ctx, swapped_rungs(rungs)),
        ),
{
    records_mirror(case, side);
    conflicts_mirror(
        case.modify_delete(side),
        case.swapped().modify_delete(side.other()),
        ctx,
        StrategyView::ConflictModifyDelete,
    );
}

#[verifier::spinoff_prover]
#[verifier::rlimit(80)]
proof fn rename_both_mirrors(case: Case, names_converge: bool, ctx: CtxView, rungs: RungsView)
    requires
        names_converge ==> sides_alike(case),
    ensures
        mirrors(
            case.resolved(Cell::RenameBoth { names_converge }, ctx, rungs),
            case.swapped().resolved((Cell::RenameBoth { names_converge }).flipped(), ctx, swapped_rungs(rungs)),
        ),
{
    records_mirror(case, Side::Ours);
    conflicts_mirror(
        case.rename_rename(),
        case.swapped().rename_rename(),
        ctx,
        StrategyView::ConflictRenameRename,
    );
}

#[verifier::spinoff_prover]
#[verifier::rlimit(80)]
proof fn rename_edit_vs_rename_mirrors(case: Case, side: Side, ctx: CtxView, rungs: RungsView)
    ensures
        mirrors(
            case.resolved(Cell::RenameEditVsRename { rename_editor: side, names_converge: false }, ctx, rungs),
            case.swapped().resolved((Cell::RenameEditVsRename { rename_editor: side, names_converge: false }).flipped(), ctx, swapped_rungs(rungs)),
        ),
{
    records_mirror(case, Side::Ours);
    conflicts_mirror(
        case.rename_rename(),
        case.swapped().rename_rename(),
        ctx,
        StrategyView::ConflictRenameRename,
    );
}

#[verifier::spinoff_prover]
#[verifier::rlimit(80)]
proof fn rename_edit_both_apart_mirrors(case: Case, bodies_converge: bool, ctx: CtxView, rungs: RungsView)
    ensures
        mirrors(
            case.resolved(Cell::RenameEditBoth { names_converge: false, bodies_converge }, ctx, rungs),
            case.swapped().resolved((Cell::RenameEditBoth { names_converge: false, bodies_converge }).flipped(), ctx, swapped_rungs(rungs)),
        ),
{
    records_mirror(case, Side::Ours);
    conflicts_mirror(
        case.rename_rename(),
        case.swapped().rename_rename(),
        ctx,
        StrategyView::ConflictRenameRename,
    );
}

#[verifier::spinoff_prover]
#[verifier::rlimit(80)]
proof fn rename_edit_both_mirrors(case: Case, ctx: CtxView, rungs: RungsView)
    requires
        sides_alike(case),
    ensures
        mirrors(
            case.resolved(Cell::RenameEditBoth { names_converge: true, bodies_converge: true }, ctx, rungs),
            case.swapped().resolved((Cell::RenameEditBoth { names_converge: true, bodies_converge: true }).flipped(), ctx, swapped_rungs(rungs)),
        ),
{
}

#[verifier::spinoff_prover]
#[verifier::rlimit(80)]
proof fn added_both_mirrors(case: Case, ctx: CtxView, rungs: RungsView)
    requires
        case.swapped().both_added() == swapped_conflict(case.both_added()),
    ensures
        mirrors(
            case.resolved(Cell::AddedBothDivergent, ctx, rungs),
            case.swapped().resolved((Cell::AddedBothDivergent).flipped(), ctx, swapped_rungs(rungs)),
        ),
{
    conflicts_mirror(
        case.both_added(),
        case.swapped().both_added(),
        ctx,
        StrategyView::ConflictBothAdded,
    );
}

#[verifier::spinoff_prover]
#[verifier::rlimit(80)]
proof fn plain_cases_mirror(case: Case, cell: Cell, ctx: CtxView, rungs: RungsView)
    requires
        cell is UnchangedBoth || cell is EditBothConvergent ==> sides_alike(case),
        cell is UnchangedBoth || cell is EditBothConvergent || cell is EditOneSide
            || cell is AddedOneSide || cell is DeletedBoth || cell is DeleteVsUnchanged
            || cell is RenameVsUnchanged || cell is RenameEditVsUnchanged,
    ensures
        mirrors(
            case.resolved(cell, ctx, rungs),
            case.swapped().resolved(cell.flipped(), ctx, swapped_rungs(rungs)),
        ),
{
}

#[verifier::spinoff_prover]
#[verifier::rlimit(80)]
proof fn decided_cases_mirror(case: Case, cell: Cell, ctx: CtxView, rungs: RungsView)
    requires
        laddered_case(cell) is None,
        convergent(cell) ==> sides_alike(case),
        cell is AddedBothDivergent ==> case.swapped().both_added() == swapped_conflict(
            case.both_added(),
        ),
        !(cell is AddedBothConvergent),
    ensures
        mirrors(
            case.resolved(cell, ctx, rungs),
            case.swapped().resolved(cell.flipped(), ctx, swapped_rungs(rungs)),
        ),
{
    match cell {
        Cell::RenameVsEdit { renamer } => {
            rename_vs_edit_mirrors(case, renamer, ctx, rungs);
        },
        Cell::RenameEditVsEdit { renamer, bodies_converge } => {
            rename_edit_vs_edit_mirrors(case, renamer, bodies_converge, ctx, rungs);
        },
        Cell::DeleteVsEdit { deleter } => {
            delete_vs_edit_mirrors(case, deleter, ctx, rungs);
        },
        Cell::DeleteVsRename { deleter } => {
            delete_vs_rename_mirrors(case, deleter, ctx, rungs);
        },
        Cell::DeleteVsRenameEdit { deleter } => {
            delete_vs_rename_edit_mirrors(case, deleter, ctx, rungs);
        },
        Cell::AddedBothDivergent => {
            added_both_mirrors(case, ctx, rungs);
        },
        Cell::RenameBoth { names_converge } => {
            rename_both_mirrors(case, names_converge, ctx, rungs);
        },
        Cell::RenameEditVsRename { rename_editor, names_converge } => {
            rename_edit_vs_rename_mirrors(case, rename_editor, ctx, rungs);
        },
        Cell::RenameEditBoth { names_converge, bodies_converge } => {
            if names_converge {
                rename_edit_both_mirrors(case, ctx, rungs);
            } else {
                rename_edit_both_apart_mirrors(case, bodies_converge, ctx, rungs);
            }
        },
        _ => {
            plain_cases_mirror(case, cell, ctx, rungs);
        },
    }
}

#[verifier::spinoff_prover]
#[verifier::rlimit(80)]
proof fn edit_both_mirrors(case: Case, ctx: CtxView, rungs: RungsView)
    requires
        case.triple.ours is Some,
        case.triple.theirs is Some,
        case.name(case.triple.ours) == case.name(case.triple.theirs),
        case.etype(case.triple.ours) == case.etype(case.triple.theirs),
        !(rungs.ours_reflowed && rungs.theirs_reflowed),
    ensures
        mirrors(
            case.resolved(Cell::EditBothDivergent, ctx, rungs),
            case.swapped().resolved((Cell::EditBothDivergent).flipped(), ctx, swapped_rungs(rungs)),
        ),
{
    let c = case.both_changed(false);
    the_ladder_prefers_no_side(c, ctx, rungs);
    assert(case.swapped().both_changed(false) == c.swapped());
}

#[verifier::spinoff_prover]
#[verifier::rlimit(80)]
proof fn a_settled_rename_mirrors(case: Case, ctx: CtxView, rungs: RungsView)
    requires
        case.triple.ours is Some,
        case.triple.theirs is Some,
        case.name(case.triple.ours) == case.name(case.triple.theirs),
        case.etype(case.triple.ours) == case.etype(case.triple.theirs),
        !(rungs.ours_reflowed && rungs.theirs_reflowed),
    ensures
        mirrors(
            case.renamed_and_laddered(ctx, rungs),
            case.swapped().renamed_and_laddered(ctx, swapped_rungs(rungs)),
        ),
{
    let c = case.both_changed(true);
    the_ladder_prefers_no_side(c, ctx, rungs);
    assert(case.swapped().both_changed(true) == c.swapped());
    let a = c.laddered(ctx, rungs);
    let b = c.swapped().laddered(ctx, swapped_rungs(rungs));
    a_reported_rename_mirrors(a, b, case.reported(Side::Ours));
}

#[verifier::spinoff_prover]
#[verifier::rlimit(80)]
proof fn a_reported_rename_mirrors(
    a: ResolvedView,
    b: ResolvedView,
    rename: Option<(Seq<char>, Seq<char>)>,
)
    requires
        mirrors(a, b),
    ensures
        mirrors(ResolvedView { rename, ..a }, ResolvedView { rename, ..b }),
        a.disposition is Conflict <==> b.disposition is Conflict,
{
}

#[verifier::spinoff_prover]
#[verifier::rlimit(80)]
proof fn laddered_cases_mirror(case: Case, cell: Cell, ctx: CtxView, rungs: RungsView)
    requires
        laddered_case(cell) is Some,
        case.triple.ours is Some,
        case.triple.theirs is Some,
        case.name(case.triple.ours) == case.name(case.triple.theirs),
        case.etype(case.triple.ours) == case.etype(case.triple.theirs),
        !(rungs.ours_reflowed && rungs.theirs_reflowed),
    ensures
        mirrors(
            case.resolved(cell, ctx, rungs),
            case.swapped().resolved(cell.flipped(), ctx, swapped_rungs(rungs)),
        ),
{
    match cell {
        Cell::EditBothDivergent => {
            edit_both_mirrors(case, ctx, rungs);
        },
        _ => {
            a_settled_rename_mirrors(case, ctx, rungs);
            a_settled_rename_is_laddered(case, cell, ctx, rungs);
            a_settled_rename_is_laddered(
                case.swapped(),
                cell.flipped(),
                ctx,
                swapped_rungs(rungs),
            );
        },
    }
}

#[verifier::spinoff_prover]
#[verifier::rlimit(80)]
proof fn a_settled_rename_is_laddered(case: Case, cell: Cell, ctx: CtxView, rungs: RungsView)
    requires
        laddered_case(cell) == Some(true),
    ensures
        case.resolved(cell, ctx, rungs) == case.renamed_and_laddered(ctx, rungs),
{
}

/// No side is preferred: with the sides exchanged, and the finer merges answering as
/// before, the decision is the mirror image. `case` is one in which the sides agree on
/// the type, on the name of what both added and on the text of one body, and in which not
/// both changes are of white space alone. What both sides added alike is tallied as ours
/// from either side.
#[verifier::spinoff_prover]
#[verifier::rlimit(80)]
pub proof fn a_decision_prefers_no_side(case: Case, ctx: CtxView, rungs: RungsView)
    requires
        case.triple.base is Some || case.triple.ours is Some || case.triple.theirs is Some,
        case.triple.ours is Some && case.triple.theirs is Some ==> case.etype(case.triple.ours)
            == case.etype(case.triple.theirs),
        case.triple.ours is Some && case.triple.theirs is Some && case.triple.base is None
            ==> case.name(case.triple.ours) == case.name(case.triple.theirs),
        bodies_agree(case.arena, case.triple) ==> case.text(case.triple.ours) == case.text(
            case.triple.theirs,
        ),
        !(rungs.ours_reflowed && rungs.theirs_reflowed),
        !(cell_of(case.arena, case.triple) is AddedBothConvergent),
    ensures
        mirrors(
            case.resolved(cell_of(case.arena, case.triple), ctx, rungs),
            case.swapped().resolved(
                cell_of(case.arena, case.triple.swapped()),
                ctx,
                swapped_rungs(rungs),
            ),
        ),
{
    let t = case.triple;
    let cell = cell_of(case.arena, t);
    crate::v2::classify::classification_is_symmetric(case.arena, t);
    what_the_case_says(case);
    if laddered_case(cell) is Some {
        laddered_cases_mirror(case, cell, ctx, rungs);
    } else {
        if cell is AddedBothDivergent {
            additions_mirror(case);
        }
        decided_cases_mirror(case, cell, ctx, rungs);
    }
}

} // verus!
