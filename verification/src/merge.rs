//! What a merge says of itself: how each entity was resolved, and the result.

use vstd::prelude::*;
use crate::conflict::{EntityConflict, MergeStats};
use crate::text::{copy_strings, strs};
use crate::validate::SemanticWarning;

verus! {

broadcast use vstd::string::group_string_axioms;

/// How one entity was resolved.
#[derive(Debug, Clone)]
pub enum ResolutionStrategy {
    Unchanged,
    OursOnly,
    TheirsOnly,
    ContentEqual,
    DiffyMerged,
    DecoratorMerged,
    InnerMerged,
    StatementMerged,
    FootprintLicensed,
    AddedOurs,
    AddedTheirs,
    Deleted,
    Renamed { from: String, to: String },
    ConflictBothModified,
    ConflictModifyDelete,
    ConflictBothAdded,
    ConflictRenameRename,
    ConflictRenameModify,
    ConflictStatementScoped,
}

/// A [`ResolutionStrategy`] with its strings read as texts.
pub enum StrategyView {
    Unchanged,
    OursOnly,
    TheirsOnly,
    ContentEqual,
    DiffyMerged,
    DecoratorMerged,
    InnerMerged,
    StatementMerged,
    FootprintLicensed,
    AddedOurs,
    AddedTheirs,
    Deleted,
    Renamed { from: Seq<char>, to: Seq<char> },
    ConflictBothModified,
    ConflictModifyDelete,
    ConflictBothAdded,
    ConflictRenameRename,
    ConflictRenameModify,
    ConflictStatementScoped,
}

impl View for ResolutionStrategy {
    type V = StrategyView;

    open spec fn view(&self) -> StrategyView {
        match *self {
            ResolutionStrategy::Unchanged => StrategyView::Unchanged,
            ResolutionStrategy::OursOnly => StrategyView::OursOnly,
            ResolutionStrategy::TheirsOnly => StrategyView::TheirsOnly,
            ResolutionStrategy::ContentEqual => StrategyView::ContentEqual,
            ResolutionStrategy::DiffyMerged => StrategyView::DiffyMerged,
            ResolutionStrategy::DecoratorMerged => StrategyView::DecoratorMerged,
            ResolutionStrategy::InnerMerged => StrategyView::InnerMerged,
            ResolutionStrategy::StatementMerged => StrategyView::StatementMerged,
            ResolutionStrategy::FootprintLicensed => StrategyView::FootprintLicensed,
            ResolutionStrategy::AddedOurs => StrategyView::AddedOurs,
            ResolutionStrategy::AddedTheirs => StrategyView::AddedTheirs,
            ResolutionStrategy::Deleted => StrategyView::Deleted,
            ResolutionStrategy::Renamed { from, to } => StrategyView::Renamed {
                from: from@,
                to: to@,
            },
            ResolutionStrategy::ConflictBothModified => StrategyView::ConflictBothModified,
            ResolutionStrategy::ConflictModifyDelete => StrategyView::ConflictModifyDelete,
            ResolutionStrategy::ConflictBothAdded => StrategyView::ConflictBothAdded,
            ResolutionStrategy::ConflictRenameRename => StrategyView::ConflictRenameRename,
            ResolutionStrategy::ConflictRenameModify => StrategyView::ConflictRenameModify,
            ResolutionStrategy::ConflictStatementScoped => StrategyView::ConflictStatementScoped,
        }
    }
}

impl ResolutionStrategy {
    /// A second strategy with the same contents.
    pub fn copy(&self) -> (r: ResolutionStrategy)
        ensures
            r@ == self@,
    {
        match self {
            ResolutionStrategy::Unchanged => ResolutionStrategy::Unchanged,
            ResolutionStrategy::OursOnly => ResolutionStrategy::OursOnly,
            ResolutionStrategy::TheirsOnly => ResolutionStrategy::TheirsOnly,
            ResolutionStrategy::ContentEqual => ResolutionStrategy::ContentEqual,
            ResolutionStrategy::DiffyMerged => ResolutionStrategy::DiffyMerged,
            ResolutionStrategy::DecoratorMerged => ResolutionStrategy::DecoratorMerged,
            ResolutionStrategy::InnerMerged => ResolutionStrategy::InnerMerged,
            ResolutionStrategy::StatementMerged => ResolutionStrategy::StatementMerged,
            ResolutionStrategy::FootprintLicensed => ResolutionStrategy::FootprintLicensed,
            ResolutionStrategy::AddedOurs => ResolutionStrategy::AddedOurs,
            ResolutionStrategy::AddedTheirs => ResolutionStrategy::AddedTheirs,
            ResolutionStrategy::Deleted => ResolutionStrategy::Deleted,
            ResolutionStrategy::Renamed { from, to } => ResolutionStrategy::Renamed {
                from: from.clone(),
                to: to.clone(),
            },
            ResolutionStrategy::ConflictBothModified => ResolutionStrategy::ConflictBothModified,
            ResolutionStrategy::ConflictModifyDelete => ResolutionStrategy::ConflictModifyDelete,
            ResolutionStrategy::ConflictBothAdded => ResolutionStrategy::ConflictBothAdded,
            ResolutionStrategy::ConflictRenameRename => ResolutionStrategy::ConflictRenameRename,
            ResolutionStrategy::ConflictRenameModify => ResolutionStrategy::ConflictRenameModify,
            ResolutionStrategy::ConflictStatementScoped =>
                ResolutionStrategy::ConflictStatementScoped,
        }
    }
}

/// The names of the guards that refuse a merge, by the strategy a refusal leaves
/// behind. A refusal without a guard of its own is the whole ladder's.
#[derive(Debug, Clone)]
pub struct Guards {
    pub both_modified: Option<String>,
    pub modify_delete: Option<String>,
    pub both_added: Option<String>,
    pub rename_rename: Option<String>,
    pub rename_modify: Option<String>,
    pub statement_scoped: Option<String>,
    pub inner_merged: Option<String>,
}

/// A list of guard names, read as texts.
pub struct GuardsView {
    pub both_modified: Option<Seq<char>>,
    pub modify_delete: Option<Seq<char>>,
    pub both_added: Option<Seq<char>>,
    pub rename_rename: Option<Seq<char>>,
    pub rename_modify: Option<Seq<char>>,
    pub statement_scoped: Option<Seq<char>>,
    pub inner_merged: Option<Seq<char>>,
}

impl View for Guards {
    type V = GuardsView;

    open spec fn view(&self) -> GuardsView {
        GuardsView {
            both_modified: crate::v2::types::opt_view(self.both_modified),
            modify_delete: crate::v2::types::opt_view(self.modify_delete),
            both_added: crate::v2::types::opt_view(self.both_added),
            rename_rename: crate::v2::types::opt_view(self.rename_rename),
            rename_modify: crate::v2::types::opt_view(self.rename_modify),
            statement_scoped: crate::v2::types::opt_view(self.statement_scoped),
            inner_merged: crate::v2::types::opt_view(self.inner_merged),
        }
    }
}

impl GuardsView {
    /// The guard that a strategy names.
    pub open spec fn guard(self, strategy: StrategyView) -> Option<Seq<char>> {
        match strategy {
            StrategyView::ConflictBothModified => self.both_modified,
            StrategyView::ConflictModifyDelete => self.modify_delete,
            StrategyView::ConflictBothAdded => self.both_added,
            StrategyView::ConflictRenameRename => self.rename_rename,
            StrategyView::ConflictRenameModify => self.rename_modify,
            StrategyView::ConflictStatementScoped => self.statement_scoped,
            StrategyView::InnerMerged => self.inner_merged,
            _ => None,
        }
    }

    /// The guard that a strategy names, or the ladder.
    pub open spec fn guard_or_ladder(self, strategy: StrategyView) -> Seq<char> {
        match self.guard(strategy) {
            Some(g) => g,
            None => "merge_ladder_exhausted"@,
        }
    }
}

impl Guards {
    /// No guard has a name of its own.
    pub fn ladder_only() -> (r: Guards)
        ensures
            forall|s: StrategyView| #[trigger] r@.guard(s) is None,
    {
        Guards {
            both_modified: None,
            modify_delete: None,
            both_added: None,
            rename_rename: None,
            rename_modify: None,
            statement_scoped: None,
            inner_merged: None,
        }
    }

    /// The guard that a strategy names, if it names one.
    pub fn guard(&self, strategy: &ResolutionStrategy) -> (r: Option<&str>)
        ensures
            crate::conflict::opt_str(r) == self@.guard(strategy@),
    {
        let g = match strategy {
            ResolutionStrategy::ConflictBothModified => &self.both_modified,
            ResolutionStrategy::ConflictModifyDelete => &self.modify_delete,
            ResolutionStrategy::ConflictBothAdded => &self.both_added,
            ResolutionStrategy::ConflictRenameRename => &self.rename_rename,
            ResolutionStrategy::ConflictRenameModify => &self.rename_modify,
            ResolutionStrategy::ConflictStatementScoped => &self.statement_scoped,
            ResolutionStrategy::InnerMerged => &self.inner_merged,
            _ => &None,
        };
        crate::conflict::as_opt_str(g)
    }

    /// The guard that a strategy names, or the ladder.
    pub fn guard_or_ladder(&self, strategy: &ResolutionStrategy) -> (r: &str)
        ensures
            r@ == self@.guard_or_ladder(strategy@),
    {
        match self.guard(strategy) {
            Some(g) => g,
            None => "merge_ladder_exhausted",
        }
    }
}

/// How one entity of a merge was resolved.
#[derive(Debug, Clone)]
pub struct EntityAudit {
    pub name: String,
    pub entity_type: String,
    pub resolution: ResolutionStrategy,
}

/// An [`EntityAudit`] with its strings read as texts.
pub struct EntityAuditView {
    pub name: Seq<char>,
    pub entity_type: Seq<char>,
    pub resolution: StrategyView,
}

impl View for EntityAudit {
    type V = EntityAuditView;

    open spec fn view(&self) -> EntityAuditView {
        EntityAuditView {
            name: self.name@,
            entity_type: self.entity_type@,
            resolution: self.resolution@,
        }
    }
}

/// The views of a list of audits.
pub open spec fn audit_views(v: Seq<EntityAudit>) -> Seq<EntityAuditView> {
    v.map_values(|a: EntityAudit| a@)
}

/// What a merge produced.
#[derive(Debug, Clone)]
pub struct MergeResult {
    pub content: String,
    pub conflicts: Vec<EntityConflict>,
    pub warnings: Vec<SemanticWarning>,
    pub stats: MergeStats,
    pub audit: Vec<EntityAudit>,
}

impl MergeResult {
    /// Did the merge leave nothing for a reader to decide? A fact about the
    /// conflicts, not about the text.
    pub fn is_clean(&self) -> (r: bool)
        ensures
            r == (self.conflicts@.len() == 0),
    {
        self.conflicts.len() == 0
    }
}

/// What the merge of one body from its parts produced.
#[derive(Debug, Clone)]
pub struct InnerMergeResult {
    pub content: String,
    pub has_conflicts: bool,
}

/// An [`InnerMergeResult`] with its string read as a text.
pub struct InnerView {
    pub content: Seq<char>,
    pub has_conflicts: bool,
}

impl View for InnerMergeResult {
    type V = InnerView;

    open spec fn view(&self) -> InnerView {
        InnerView { content: self.content@, has_conflicts: self.has_conflicts }
    }
}

/// The view of an optional inner merge.
pub open spec fn opt_inner(r: Option<InnerMergeResult>) -> Option<InnerView> {
    match r {
        Some(x) => Some(x@),
        None => None,
    }
}

/// A place where the statement merge put two blocks together, because neither binds
/// a name that the other binds or reads.
#[derive(Debug, Clone)]
pub struct LicensedGap {
    pub ours_binds: Vec<String>,
    pub theirs_binds: Vec<String>,
}

/// A [`LicensedGap`] with its strings read as texts.
pub struct GapView {
    pub ours_binds: Seq<Seq<char>>,
    pub theirs_binds: Seq<Seq<char>>,
}

impl View for LicensedGap {
    type V = GapView;

    open spec fn view(&self) -> GapView {
        GapView { ours_binds: strs(self.ours_binds@), theirs_binds: strs(self.theirs_binds@) }
    }
}

impl LicensedGap {
    /// A second one with the same contents.
    pub fn copy(&self) -> (r: LicensedGap)
        ensures
            r@ == self@,
    {
        LicensedGap {
            ours_binds: copy_strings(&self.ours_binds),
            theirs_binds: copy_strings(&self.theirs_binds),
        }
    }
}

/// The views of a list of gaps.
pub open spec fn gap_views(v: Seq<LicensedGap>) -> Seq<GapView> {
    v.map_values(|g: LicensedGap| g@)
}

/// Append copies of the gaps.
pub fn push_gaps(out: &mut Vec<LicensedGap>, v: &Vec<LicensedGap>)
    ensures
        gap_views(final(out)@) == gap_views(old(out)@) + gap_views(v@),
{
    let ghost before = gap_views(out@);
    let ghost all = gap_views(v@);
    let mut i: usize = 0;
    proof {
        assert(before + all.take(0) =~= before);
    }
    while i < v.len()
        invariant
            i <= v@.len(),
            all == gap_views(v@),
            gap_views(out@) == before + all.take(i as int),
        decreases v@.len() - i,
    {
        let ghost held = gap_views(out@);
        let g = v[i].copy();
        let ghost gv = g@;
        out.push(g);
        proof {
            assert(all[i as int] == gv);
            assert(gap_views(out@) =~= held.push(gv));
            assert(all.take(i + 1) =~= all.take(i as int).push(gv));
        }
        i = i + 1;
    }
    proof {
        assert(all.take(i as int) =~= all);
    }
}

} // verus!
