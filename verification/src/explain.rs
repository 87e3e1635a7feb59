//! On-demand explanation of one file's conflicts.
//!
//! The answer is about the only hunks that are a question: those in which both sides
//! acted. A hunk that one side left alone is no conflict. Nothing is inferred: the
//! guard is the rung of the ladder that refused, the hunks are the alignment's, and
//! the repair, where there is one, follows from the conflict's own kind.

use vstd::prelude::*;
use vstd::slice::slice_subrange;
use crate::conflict::{ConflictKind, ConflictKindView, EntityConflict, EntityConflictView};
use crate::diagnose::{diagnose, hunk_list, hunks_of, Hunk, HunkView, SideAction, SideEdit, SideEditView};
use crate::merge::{audit_views, EntityAudit, EntityAuditView, Guards, GuardsView, MergeResult};
use crate::order::views;
use crate::text::{
    chars_of, copy_of, decimal, push_number, push_text, str_eq, string_of, strs, trim_end,
    trimmed_end,
};

verus! {

broadcast use vstd::string::group_string_axioms;

/// How many contested hunks one conflict may carry into the explanation. Beyond it
/// the count is still exact; the samples stop.
pub const HUNK_LIMIT: usize = 12;

/// How many lines of a side's edit are quoted.
pub const SAMPLE: usize = 3;

/// How wide a quoted line may be.
pub const WIDTH: usize = 100;

/// One file's conflicts, explained.
#[derive(Debug, Clone, PartialEq, Eq)]
pub struct Explanation {
    pub file: String,
    /// The merge produced no conflict at all.
    pub clean: bool,
    pub conflicts: Vec<ConflictExplanation>,
}

/// One conflicted entity.
#[derive(Debug, Clone, PartialEq, Eq)]
pub struct ConflictExplanation {
    pub entity: String,
    pub entity_type: String,
    pub kind: String,
    /// Which guard refused: the same name that the marker prints.
    pub refused_by: String,
    pub complexity: String,
    /// How many hunks both sides touched.
    pub contested_hunks: usize,
    /// The first [`HUNK_LIMIT`] of them, in base order.
    pub hunks: Vec<HunkExplanation>,
    /// A mechanical rewrite that follows from the conflict's kind, where one does.
    pub repair: Option<Repair>,
}

/// A rewrite that can be derived, stated as data.
#[derive(Debug, Clone, PartialEq, Eq)]
pub enum Repair {
    /// One side renamed the declaration and the other edited its body.
    Rename { from: String, to: String },
    /// One side deleted the declaration and the other kept editing it.
    DecideExistence { kept_by: String },
    /// Both sides introduced the same name independently.
    Reconcile { name: String },
}

/// One place inside a conflict where both sides wrote.
#[derive(Debug, Clone, PartialEq, Eq)]
pub struct HunkExplanation {
    /// The base lines this hunk replaces, counted from one and inclusive. `end`
    /// below `start` is a pure insertion.
    pub base_start: usize,
    pub base_end: usize,
    pub ours: SideSummary,
    pub theirs: SideSummary,
    /// Base lines that both sides deleted or rewrote.
    pub collision: Vec<String>,
}

/// What one side did here.
#[derive(Debug, Clone, PartialEq, Eq)]
pub struct SideSummary {
    pub action: String,
    pub removed_lines: usize,
    pub added_lines: usize,
    pub added: Vec<String>,
}

/// A [`SideSummary`] with its strings read as texts.
pub struct SummaryView {
    pub action: Seq<char>,
    pub removed_lines: nat,
    pub added_lines: nat,
    pub added: Seq<Seq<char>>,
}

/// A [`HunkExplanation`] with its strings read as texts.
pub struct HunkExplanationView {
    pub base_start: int,
    pub base_end: int,
    pub ours: SummaryView,
    pub theirs: SummaryView,
    pub collision: Seq<Seq<char>>,
}

/// A [`Repair`] with its strings read as texts.
pub enum RepairView {
    Rename { from: Seq<char>, to: Seq<char> },
    DecideExistence { kept_by: Seq<char> },
    Reconcile { name: Seq<char> },
}

/// A [`ConflictExplanation`] with its strings read as texts.
pub struct ConflictExplanationView {
    pub entity: Seq<char>,
    pub entity_type: Seq<char>,
    pub kind: Seq<char>,
    pub refused_by: Seq<char>,
    pub complexity: Seq<char>,
    pub contested_hunks: nat,
    pub hunks: Seq<HunkExplanationView>,
    pub repair: Option<RepairView>,
}

/// An [`Explanation`] with its strings read as texts.
pub struct ExplanationView {
    pub file: Seq<char>,
    pub clean: bool,
    pub conflicts: Seq<ConflictExplanationView>,
}

impl View for SideSummary {
    type V = SummaryView;

    open spec fn view(&self) -> SummaryView {
        SummaryView {
            action: self.action@,
            removed_lines: self.removed_lines as nat,
            added_lines: self.added_lines as nat,
            added: strs(self.added@),
        }
    }
}

impl View for HunkExplanation {
    type V = HunkExplanationView;

    open spec fn view(&self) -> HunkExplanationView {
        HunkExplanationView {
            base_start: self.base_start as int,
            base_end: self.base_end as int,
            ours: self.ours@,
            theirs: self.theirs@,
            collision: strs(self.collision@),
        }
    }
}

impl View for Repair {
    type V = RepairView;

    open spec fn view(&self) -> RepairView {
        match *self {
            Repair::Rename { from, to } => RepairView::Rename { from: from@, to: to@ },
            Repair::DecideExistence { kept_by } => RepairView::DecideExistence {
                kept_by: kept_by@,
            },
            Repair::Reconcile { name } => RepairView::Reconcile { name: name@ },
        }
    }
}

/// The view of an optional repair.
pub open spec fn opt_repair(r: Option<Repair>) -> Option<RepairView> {
    match r {
        Some(x) => Some(x@),
        None => None,
    }
}

impl View for ConflictExplanation {
    type V = ConflictExplanationView;

    open spec fn view(&self) -> ConflictExplanationView {
        ConflictExplanationView {
            entity: self.entity@,
            entity_type: self.entity_type@,
            kind: self.kind@,
            refused_by: self.refused_by@,
            complexity: self.complexity@,
            contested_hunks: self.contested_hunks as nat,
            hunks: views(self.hunks@),
            repair: opt_repair(self.repair),
        }
    }
}

impl View for Explanation {
    type V = ExplanationView;

    open spec fn view(&self) -> ExplanationView {
        ExplanationView {
            file: self.file@,
            clean: self.clean,
            conflicts: views(self.conflicts@),
        }
    }
}

// ---------------------------------------------------------------------------
// Explaining
// ---------------------------------------------------------------------------

/// A line without the white space behind it, and not wider than a quote may be.
pub open spec fn clipped(line: Seq<char>) -> Seq<char> {
    let t = trim_end(line);
    if t.len() > WIDTH {
        t.take(WIDTH - 1).push('…')
    } else {
        t
    }
}

fn clip(line: &str) -> (r: String)
    ensures
        r@ == clipped(line@),
{
    let c = chars_of(line);
    let t = trimmed_end(c.as_slice());
    if t.len() > WIDTH {
        let mut out = copy_of(slice_subrange(t, 0, WIDTH - 1));
        out.push('…');
        proof {
            assert(out@ =~= clipped(line@));
        }
        string_of(out.as_slice())
    } else {
        string_of(t)
    }
}

/// The first of the lines, clipped.
pub open spec fn sampled(ls: Seq<Seq<char>>) -> Seq<Seq<char>> {
    let n = if ls.len() < SAMPLE {
        ls.len() as int
    } else {
        SAMPLE as int
    };
    ls.take(n).map_values(|l: Seq<char>| clipped(l))
}

fn sample(ls: &Vec<String>) -> (r: Vec<String>)
    ensures
        strs(r@) == sampled(strs(ls@)),
{
    let ghost all = strs(ls@);
    let mut out: Vec<String> = Vec::new();
    let mut k: usize = 0;
    while k < ls.len() && k < SAMPLE
        invariant
            k <= ls@.len() == all.len(),
            k <= SAMPLE,
            all == strs(ls@),
            out@.len() == k,
            forall|m: int| 0 <= m < k ==> (#[trigger] out@[m])@ == clipped(all[m]),
        decreases ls@.len() - k,
    {
        proof {
            assert(all[k as int] == ls@[k as int]@);
        }
        out.push(clip(ls[k].as_str()));
        k = k + 1;
    }
    proof {
        assert(strs(out@) =~= sampled(all));
    }
    out
}

/// What one side did in a hunk.
pub open spec fn summary_of(e: SideEditView) -> SummaryView {
    SummaryView {
        action: e.action.tag(),
        removed_lines: e.removed.len(),
        added_lines: e.added.len(),
        added: sampled(e.added),
    }
}

impl SideSummary {
    /// What one side did in a hunk.
    pub fn of(e: &SideEdit) -> (r: Self)
        ensures
            r@ == summary_of(e@),
    {
        proof {
            assert(strs(e.removed@).len() == e.removed@.len());
            assert(strs(e.added@).len() == e.added@.len());
        }
        SideSummary {
            action: e.action.wire().to_owned(),
            removed_lines: e.removed.len(),
            added_lines: e.added.len(),
            added: sample(&e.added),
        }
    }
}

/// Is the hunk a question? Only where both sides wrote in it.
pub open spec fn contested(h: HunkView) -> bool {
    h.ours.action != SideAction::Untouched && h.theirs.action != SideAction::Untouched
}

/// The contested ones of the first `k` hunks.
pub open spec fn contested_hunks(hs: Seq<HunkView>, k: int) -> Seq<HunkView>
    decreases k,
{
    if k <= 0 {
        Seq::empty()
    } else if contested(hs[k - 1]) {
        contested_hunks(hs, k - 1).push(hs[k - 1])
    } else {
        contested_hunks(hs, k - 1)
    }
}

/// The explanation of one hunk.
pub open spec fn hunk_explained(h: HunkView) -> HunkExplanationView {
    HunkExplanationView {
        base_start: h.base_start,
        base_end: h.base_end,
        ours: summary_of(h.ours),
        theirs: summary_of(h.theirs),
        collision: sampled(h.collision),
    }
}

/// The explanations of the first hunks.
pub open spec fn hunks_explained(hs: Seq<HunkView>) -> Seq<HunkExplanationView> {
    let n = if hs.len() < HUNK_LIMIT {
        hs.len() as int
    } else {
        HUNK_LIMIT as int
    };
    hs.take(n).map_values(|h: HunkView| hunk_explained(h))
}

/// The rewrite that follows from the kind of a conflict, where one does.
pub open spec fn repair_of(c: EntityConflictView) -> Option<RepairView> {
    match c.kind {
        ConflictKindView::RenameModify { old_name, new_name, renamed_in_ours } => Some(
            RepairView::Rename { from: old_name, to: new_name },
        ),
        ConflictKindView::RenameRename { base_name, ours_name, theirs_name } => Some(
            RepairView::Rename { from: base_name, to: ours_name },
        ),
        ConflictKindView::ModifyDelete { modified_in_ours } => Some(
            RepairView::DecideExistence {
                kept_by: if modified_in_ours {
                    "ours"@
                } else {
                    "theirs"@
                },
            },
        ),
        ConflictKindView::BothAdded => Some(RepairView::Reconcile { name: c.entity_name }),
        ConflictKindView::BothModified => None,
    }
}

fn find_repair(c: &EntityConflict) -> (r: Option<Repair>)
    ensures
        opt_repair(r) == repair_of(c@),
{
    match &c.kind {
        ConflictKind::RenameModify { old_name, new_name, .. } => Some(
            Repair::Rename { from: old_name.clone(), to: new_name.clone() },
        ),
        ConflictKind::RenameRename { base_name, ours_name, .. } => Some(
            Repair::Rename { from: base_name.clone(), to: ours_name.clone() },
        ),
        ConflictKind::ModifyDelete { modified_in_ours } => Some(
            Repair::DecideExistence {
                kept_by: if *modified_in_ours {
                    "ours".to_owned()
                } else {
                    "theirs".to_owned()
                },
            },
        ),
        ConflictKind::BothAdded => Some(Repair::Reconcile { name: c.entity_name.clone() }),
        ConflictKind::BothModified => None,
    }
}

/// The explanation of one conflict, given its hunks and the guard that refused it.
pub open spec fn conflict_explained(
    c: EntityConflictView,
    hs: Seq<HunkView>,
    guard: Seq<char>,
) -> ConflictExplanationView {
    let shown = contested_hunks(hs, hs.len() as int);
    ConflictExplanationView {
        entity: c.entity_name,
        entity_type: c.entity_type,
        kind: c.kind.tag(),
        refused_by: guard,
        complexity: c.complexity.code(),
        contested_hunks: shown.len(),
        hunks: hunks_explained(shown),
        repair: repair_of(c),
    }
}

/// Explain one conflict, given its hunks and the guard that refused it.
pub fn explain_conflict(c: &EntityConflict, hunks: &Vec<Hunk>, guard: &str) -> (r:
    ConflictExplanation)
    ensures
        r@ == conflict_explained(c@, hunk_list(hunks@), guard@),
{
    let ghost hs = hunk_list(hunks@);
    let ghost all = contested_hunks(hs, hs.len() as int);
    let mut out: Vec<HunkExplanation> = Vec::new();
    let mut count: usize = 0;
    let mut k: usize = 0;
    proof {
        assert(views(out@) =~= hunks_explained(Seq::<HunkView>::empty()));
    }
    while k < hunks.len()
        invariant
            k <= hunks@.len() == hs.len(),
            hs == hunk_list(hunks@),
            count <= k,
            count == contested_hunks(hs, k as int).len(),
            views(out@) == hunks_explained(contested_hunks(hs, k as int)),
        decreases hunks@.len() - k,
    {
        let h = &hunks[k];
        proof {
            assert(hs[k as int] == h@);
        }
        if h.ours.action != SideAction::Untouched && h.theirs.action != SideAction::Untouched {
            let ghost before = contested_hunks(hs, k as int);
            let ghost now = before.push(hs[k as int]);
            if count < HUNK_LIMIT {
                let one = HunkExplanation {
                    base_start: h.base_start,
                    base_end: h.base_end,
                    ours: SideSummary::of(&h.ours),
                    theirs: SideSummary::of(&h.theirs),
                    collision: sample(&h.collision),
                };
                let ghost ov = one@;
                let ghost held = views(out@);
                out.push(one);
                proof {
                    assert(ov == hunk_explained(h@));
                    assert(views(out@) =~= held.push(ov));
                    assert(hunks_explained(now) =~= hunks_explained(before).push(ov));
                }
            } else {
                proof {
                    assert(hunks_explained(now) =~= hunks_explained(before));
                }
            }
            count = count + 1;
        }
        k = k + 1;
    }
    ConflictExplanation {
        entity: c.entity_name.clone(),
        entity_type: c.entity_type.clone(),
        kind: c.kind.wire_kind().to_owned(),
        refused_by: guard.to_owned(),
        complexity: c.complexity.to_text().to_owned(),
        contested_hunks: count,
        hunks: out,
        repair: find_repair(c),
    }
}

/// The first of the audits, at or after the `k`th, of the entity.
pub open spec fn audit_for(
    audit: Seq<EntityAuditView>,
    name: Seq<char>,
    entity_type: Seq<char>,
    k: int,
) -> Option<EntityAuditView>
    decreases audit.len() - k,
{
    if k < 0 || k >= audit.len() {
        None
    } else if audit[k].name == name && audit[k].entity_type == entity_type {
        Some(audit[k])
    } else {
        audit_for(audit, name, entity_type, k + 1)
    }
}

/// The guard that refused an entity: what the audit says, or the ladder.
pub open spec fn guard_of(
    audit: Seq<EntityAuditView>,
    guards: GuardsView,
    name: Seq<char>,
    entity_type: Seq<char>,
) -> Seq<char> {
    match audit_for(audit, name, entity_type, 0) {
        Some(a) => guards.guard_or_ladder(a.resolution),
        None => "merge_ladder_exhausted"@,
    }
}

fn find_guard<'a>(audit: &Vec<EntityAudit>, guards: &'a Guards, name: &str, entity_type: &str) -> (r:
    &'a str)
    ensures
        r@ == guard_of(audit_views(audit@), guards@, name@, entity_type@),
{
    let ghost all = audit_views(audit@);
    let mut k: usize = 0;
    while k < audit.len()
        invariant
            k <= audit@.len(),
            all == audit_views(audit@),
            audit_for(all, name@, entity_type@, k as int) == audit_for(
                all,
                name@,
                entity_type@,
                0,
            ),
        decreases audit@.len() - k,
    {
        proof {
            assert(all[k as int] == audit@[k as int]@);
        }
        if str_eq(audit[k].name.as_str(), name) && str_eq(
            audit[k].entity_type.as_str(),
            entity_type,
        ) {
            return guards.guard_or_ladder(&audit[k].resolution);
        }
        k = k + 1;
    }
    "merge_ladder_exhausted"
}

/// The hunks of a conflict, where all three versions are there.
pub open spec fn conflict_hunks(c: EntityConflictView) -> Seq<HunkView> {
    match (c.base, c.ours, c.theirs) {
        (Some(b), Some(o), Some(t)) => hunks_of(b, o, t),
        _ => Seq::empty(),
    }
}

/// The explanation of what a merge left conflicted in one file.
pub open spec fn explained(
    file_path: Seq<char>,
    conflicts: Seq<EntityConflictView>,
    audit: Seq<EntityAuditView>,
    guards: GuardsView,
) -> ExplanationView {
    ExplanationView {
        file: file_path,
        clean: conflicts.len() == 0,
        conflicts: conflicts.map_values(
            |c: EntityConflictView|
                conflict_explained(
                    c,
                    conflict_hunks(c),
                    guard_of(audit, guards, c.entity_name, c.entity_type),
                ),
        ),
    }
}

/// Explain what refused in the merge of one file: `result` is the merge of the bytes
/// in front of the reader.
pub fn explain(result: &MergeResult, file_path: &str, guards: &Guards) -> (r: Explanation)
    ensures
        r@ == explained(
            file_path@,
            crate::v2::pipeline::conflict_views(result.conflicts@),
            audit_views(result.audit@),
            guards@,
        ),
{
    let ghost cs = crate::v2::pipeline::conflict_views(result.conflicts@);
    let ghost av = audit_views(result.audit@);
    let ghost want = explained(file_path@, cs, av, guards@);
    let mut out: Vec<ConflictExplanation> = Vec::new();
    let mut k: usize = 0;
    while k < result.conflicts.len()
        invariant
            k <= result.conflicts@.len() == cs.len(),
            cs == crate::v2::pipeline::conflict_views(result.conflicts@),
            av == audit_views(result.audit@),
            want == explained(file_path@, cs, av, guards@),
            out@.len() == k,
            forall|m: int| 0 <= m < k ==> (#[trigger] out@[m])@ == want.conflicts[m],
        decreases result.conflicts@.len() - k,
    {
        let c = &result.conflicts[k];
        proof {
            assert(cs[k as int] == c@);
        }
        let hunks = match (&c.base_content, &c.ours_content, &c.theirs_content) {
            (Some(b), Some(o), Some(t)) => diagnose(b.as_str(), o.as_str(), t.as_str()),
            _ => {
                let none: Vec<Hunk> = Vec::new();
                proof {
                    assert(hunk_list(none@) =~= Seq::empty());
                }
                none
            },
        };
        let guard = find_guard(
            &result.audit,
            guards,
            c.entity_name.as_str(),
            c.entity_type.as_str(),
        );
        out.push(explain_conflict(c, &hunks, guard));
        k = k + 1;
    }
    proof {
        assert(views(out@) =~= want.conflicts);
    }
    Explanation { file: file_path.to_owned(), clean: result.is_clean(), conflicts: out }
}

// ---------------------------------------------------------------------------
// Rendering
// ---------------------------------------------------------------------------

impl RepairView {
    /// The repair in words.
    pub open spec fn phrase(self) -> Seq<char> {
        match self {
            RepairView::Rename { from, to } => "rename `"@ + from + "` -> `"@ + to
                + "` in the resolution, replay the body edit onto the new name, then rewrite every call site of `"@
                + from + "`"@,
            RepairView::DecideExistence { kept_by } => "deleted on one side, still edited by "@
                + kept_by + " — decide whether it has a reason to exist before resolving"@,
            RepairView::Reconcile { name } => "`"@ + name
                + "` was added independently by both sides — fold the two definitions into one, do not keep both"@,
        }
    }
}

impl Repair {
    /// The repair in words.
    pub fn to_text(&self) -> (r: String)
        ensures
            r@ == self@.phrase(),
    {
        let mut out: Vec<char> = Vec::new();
        match self {
            Repair::Rename { from, to } => {
                push_text(&mut out, "rename `");
                push_text(&mut out, from.as_str());
                push_text(&mut out, "` -> `");
                push_text(&mut out, to.as_str());
                push_text(
                    &mut out,
                    "` in the resolution, replay the body edit onto the new name, then rewrite every call site of `",
                );
                push_text(&mut out, from.as_str());
                push_text(&mut out, "`");
            },
            Repair::DecideExistence { kept_by } => {
                push_text(&mut out, "deleted on one side, still edited by ");
                push_text(&mut out, kept_by.as_str());
                push_text(
                    &mut out,
                    " — decide whether it has a reason to exist before resolving",
                );
            },
            Repair::Reconcile { name } => {
                push_text(&mut out, "`");
                push_text(&mut out, name.as_str());
                push_text(
                    &mut out,
                    "` was added independently by both sides — fold the two definitions into one, do not keep both",
                );
            },
        }
        proof {
            assert(out@ =~= self@.phrase());
        }
        string_of(out.as_slice())
    }
}

/// What one side did, in words.
pub open spec fn side_phrase(s: SummaryView) -> Seq<char> {
    s.action + " (-"@ + decimal(s.removed_lines) + "/+"@ + decimal(s.added_lines) + ")"@
}

/// Where a hunk stands, in words.
pub open spec fn span_phrase(h: HunkExplanationView) -> Seq<char> {
    if h.base_end < h.base_start {
        "insert before base line "@ + decimal(h.base_start as nat)
    } else {
        "base lines "@ + decimal(h.base_start as nat) + "-"@ + decimal(h.base_end as nat)
    }
}

/// The first `k` lines, each behind its label.
pub open spec fn quotes(label: Seq<char>, ls: Seq<Seq<char>>, k: int) -> Seq<char>
    decreases k,
{
    if k <= 0 {
        Seq::empty()
    } else {
        quotes(label, ls, k - 1) + label + ls[k - 1] + "\n"@
    }
}

/// Which hunk it is and where in the base it stands.
pub open spec fn hunk_place(h: HunkExplanationView, i: int) -> Seq<char> {
    "  ["@ + decimal((i + 1) as nat) + "] "@ + span_phrase(h)
}

/// What each side did at a hunk.
pub open spec fn hunk_sides(h: HunkExplanationView) -> Seq<char> {
    " — ours "@ + side_phrase(h.ours) + ", theirs "@ + side_phrase(h.theirs) + "\n"@
}

/// The samples quoted at a hunk.
pub open spec fn hunk_samples(h: HunkExplanationView) -> Seq<char> {
    quotes("      both rewrote: "@, h.collision, h.collision.len() as int) + quotes(
        "      ours   +"@,
        h.ours.added,
        h.ours.added.len() as int,
    ) + quotes("      theirs +"@, h.theirs.added, h.theirs.added.len() as int)
}

/// The lines on the `i`th hunk.
pub open spec fn hunk_phrase(h: HunkExplanationView, i: int) -> Seq<char> {
    hunk_place(h, i) + hunk_sides(h) + hunk_samples(h)
}

/// The lines on the first `k` hunks.
pub open spec fn hunk_phrases(hs: Seq<HunkExplanationView>, k: int) -> Seq<char>
    decreases k,
{
    if k <= 0 {
        Seq::empty()
    } else {
        hunk_phrases(hs, k - 1) + hunk_phrase(hs[k - 1], k - 1)
    }
}

impl ConflictExplanationView {
    /// The line that names the conflict.
    pub open spec fn heading(self) -> Seq<char> {
        "\n"@ + self.entity_type + " `"@ + self.entity + "` — "@ + self.kind + " ("@
            + self.complexity + "), refused_by: "@ + self.refused_by + "\n"@
    }

    /// The line that offers a repair, where there is one.
    pub open spec fn repair_line(self) -> Seq<char> {
        match self.repair {
            Some(r) => "  repair: "@ + r.phrase() + "\n"@,
            None => Seq::empty(),
        }
    }

    /// The line on the hunks that are not shown, where there are any.
    pub open spec fn remainder(self) -> Seq<char> {
        if self.contested_hunks > self.hunks.len() {
            "  … "@ + decimal((self.contested_hunks - self.hunks.len()) as nat)
                + " more contested hunk(s) not shown\n"@
        } else {
            Seq::empty()
        }
    }

    /// The line that counts the contested hunks.
    pub open spec fn count_line(self) -> Seq<char> {
        "  "@ + decimal(self.contested_hunks)
            + " contested hunk(s) (hunks BOTH sides wrote in; one-sided hunks are not conflicts and are not listed)\n"@
    }

    /// The lines on the contested hunks.
    pub open spec fn body(self) -> Seq<char> {
        if self.contested_hunks == 0 {
            "  no hunk has edits from both sides — the two sides' work does not overlap inside this entity\n"@
        } else {
            self.count_line() + hunk_phrases(self.hunks, self.hunks.len() as int)
                + self.remainder()
        }
    }

    /// The lines on the conflict.
    pub open spec fn phrase(self) -> Seq<char> {
        self.heading() + self.repair_line() + self.body()
    }
}

/// The lines on the first `k` conflicts.
pub open spec fn conflict_phrases(cs: Seq<ConflictExplanationView>, k: int) -> Seq<char>
    decreases k,
{
    if k <= 0 {
        Seq::empty()
    } else {
        conflict_phrases(cs, k - 1) + cs[k - 1].phrase()
    }
}

impl ExplanationView {
    /// The explanation as the lines a reader gets.
    pub open spec fn rendered(self) -> Seq<char> {
        if self.conflicts.len() == 0 {
            self.file
                + ": weave's merge of this file is CLEAN — no conflicted entity, nothing to explain.\n"@
        } else {
            self.file + ": "@ + decimal(self.conflicts.len()) + " conflicted entit"@ + (
            if self.conflicts.len() == 1 {
                "y"@
            } else {
                "ies"@
            }) + "\n"@ + conflict_phrases(self.conflicts, self.conflicts.len() as int)
        }
    }
}

/// An explanation is never empty: where nothing conflicted, it says so.
pub proof fn an_explanation_is_never_empty(e: ExplanationView)
    ensures
        e.rendered().len() > 0,
        e.conflicts.len() == 0 ==> crate::text::contains(e.rendered(), "CLEAN"@),
{
    reveal_strlit(
        ": weave's merge of this file is CLEAN — no conflicted entity, nothing to explain.\n",
    );
    reveal_strlit("CLEAN");
    reveal_strlit(": ");
    if e.conflicts.len() == 0 {
        let r = e.rendered();
        let at = e.file.len() as int + 32;
        assert(r.subrange(at, at + 5) =~= "CLEAN"@);
        assert(crate::text::at(r, "CLEAN"@, at));
    }
}

fn push_side(out: &mut Vec<char>, s: &SideSummary)
    ensures
        final(out)@ == old(out)@ + side_phrase(s@),
{
    let ghost held = out@;
    push_text(out, s.action.as_str());
    push_text(out, " (-");
    push_number(out, s.removed_lines);
    push_text(out, "/+");
    push_number(out, s.added_lines);
    push_text(out, ")");
    proof {
        assert(out@ =~= held + side_phrase(s@));
    }
}

fn push_quotes(out: &mut Vec<char>, label: &str, ls: &Vec<String>)
    ensures
        final(out)@ == old(out)@ + quotes(label@, strs(ls@), ls@.len() as int),
{
    let ghost held = out@;
    let ghost all = strs(ls@);
    let mut k: usize = 0;
    proof {
        assert(held =~= held + quotes(label@, all, 0));
    }
    while k < ls.len()
        invariant
            k <= ls@.len(),
            all == strs(ls@),
            out@ == held + quotes(label@, all, k as int),
        decreases ls@.len() - k,
    {
        proof {
            assert(all[k as int] == ls@[k as int]@);
        }
        push_text(out, label);
        push_text(out, ls[k].as_str());
        push_text(out, "\n");
        proof {
            assert(out@ =~= held + quotes(label@, all, k + 1));
        }
        k = k + 1;
    }
}

#[verifier::spinoff_prover]
#[verifier::rlimit(60)]
fn push_hunk(out: &mut Vec<char>, h: &HunkExplanation, i: usize)
    requires
        i < usize::MAX,
    ensures
        final(out)@ == old(out)@ + hunk_phrase(h@, i as int),
{
    let ghost held = out@;
    push_text(out, "  [");
    push_number(out, i + 1);
    push_text(out, "] ");
    if h.base_end < h.base_start {
        push_text(out, "insert before base line ");
        push_number(out, h.base_start);
    } else {
        push_text(out, "base lines ");
        push_number(out, h.base_start);
        push_text(out, "-");
        push_number(out, h.base_end);
    }
    proof {
        assert(out@ =~= held + hunk_place(h@, i as int));
    }
    let ghost placed = out@;
    push_text(out, " — ours ");
    push_side(out, &h.ours);
    push_text(out, ", theirs ");
    push_side(out, &h.theirs);
    push_text(out, "\n");
    proof {
        assert(out@ =~= placed + hunk_sides(h@));
    }
    let ghost sided = out@;
    push_quotes(out, "      both rewrote: ", &h.collision);
    push_quotes(out, "      ours   +", &h.ours.added);
    push_quotes(out, "      theirs +", &h.theirs.added);
    proof {
        assert(strs(h.collision@).len() == h.collision@.len());
        assert(strs(h.ours.added@).len() == h.ours.added@.len());
        assert(strs(h.theirs.added@).len() == h.theirs.added@.len());
        assert(out@ =~= sided + hunk_samples(h@));
        assert(out@ =~= held + hunk_phrase(h@, i as int));
    }
}

fn push_heading(out: &mut Vec<char>, c: &ConflictExplanation)
    ensures
        final(out)@ == old(out)@ + (c@.heading() + c@.repair_line()),
{
    let ghost held = out@;
    push_text(out, "\n");
    push_text(out, c.entity_type.as_str());
    push_text(out, " `");
    push_text(out, c.entity.as_str());
    push_text(out, "` — ");
    push_text(out, c.kind.as_str());
    push_text(out, " (");
    push_text(out, c.complexity.as_str());
    push_text(out, "), refused_by: ");
    push_text(out, c.refused_by.as_str());
    push_text(out, "\n");
    proof {
        assert(out@ =~= held + c@.heading());
    }
    let ghost headed = out@;
    match &c.repair {
        Some(r) => {
            push_text(out, "  repair: ");
            let t = r.to_text();
            push_text(out, t.as_str());
            push_text(out, "\n");
        },
        None => {},
    }
    proof {
        assert(out@ =~= headed + c@.repair_line());
        assert(out@ =~= held + (c@.heading() + c@.repair_line()));
    }
}

fn push_hunks(out: &mut Vec<char>, hunks: &Vec<HunkExplanation>)
    ensures
        final(out)@ == old(out)@ + hunk_phrases(views(hunks@), hunks@.len() as int),
{
    let ghost before = out@;
    let ghost all = views(hunks@);
    let n: usize = hunks.len();
    let mut k: usize = 0;
    proof {
        assert(before =~= before + hunk_phrases(all, 0));
    }
    while k < n
        invariant
            k <= n == hunks@.len(),
            all == views(hunks@),
            out@ == before + hunk_phrases(all, k as int),
        decreases n - k,
    {
        proof {
            assert(all[k as int] == hunks@[k as int]@);
        }
        push_hunk(out, &hunks[k], k);
        proof {
            assert(out@ =~= before + hunk_phrases(all, k + 1));
        }
        k = k + 1;
    }
}

fn push_count(out: &mut Vec<char>, c: &ConflictExplanation)
    ensures
        final(out)@ == old(out)@ + c@.count_line(),
{
    let ghost held = out@;
    push_text(out, "  ");
    push_number(out, c.contested_hunks);
    push_text(
        out,
        " contested hunk(s) (hunks BOTH sides wrote in; one-sided hunks are not conflicts and are not listed)\n",
    );
    proof {
        assert(out@ =~= held + c@.count_line());
    }
}

fn push_remainder(out: &mut Vec<char>, c: &ConflictExplanation)
    ensures
        final(out)@ == old(out)@ + c@.remainder(),
{
    let ghost held = out@;
    let n: usize = c.hunks.len();
    proof {
        assert(views(c.hunks@).len() == n);
    }
    if c.contested_hunks > n {
        push_text(out, "  … ");
        push_number(out, c.contested_hunks - n);
        push_text(out, " more contested hunk(s) not shown\n");
    }
    proof {
        assert(out@ =~= held + c@.remainder());
    }
}

fn push_body(out: &mut Vec<char>, c: &ConflictExplanation)
    ensures
        final(out)@ == old(out)@ + c@.body(),
{
    let ghost held = out@;
    if c.contested_hunks == 0 {
        push_text(
            out,
            "  no hunk has edits from both sides — the two sides' work does not overlap inside this entity\n",
        );
        return ;
    }
    push_count(out, c);
    push_hunks(out, &c.hunks);
    push_remainder(out, c);
    proof {
        let hs = hunk_phrases(views(c.hunks@), c.hunks@.len() as int);
        assert(views(c.hunks@).len() == c.hunks@.len());
        let a = c@.count_line();
        let z = c@.remainder();
        assert(((held + a) + hs) + z =~= held + ((a + hs) + z));
    }
}

fn push_conflict(out: &mut Vec<char>, c: &ConflictExplanation)
    ensures
        final(out)@ == old(out)@ + c@.phrase(),
{
    let ghost held = out@;
    push_heading(out, c);
    push_body(out, c);
    proof {
        let head = c@.heading() + c@.repair_line();
        let body = c@.body();
        assert((held + head) + body =~= held + (head + body));
    }
}

impl Explanation {
    /// The explanation as the lines a reader gets on a terminal. It is never empty.
    pub fn render(&self) -> (r: String)
        ensures
            r@ == self@.rendered(),
    {
        let ghost all = views(self.conflicts@);
        let mut out: Vec<char> = Vec::new();
        push_text(&mut out, self.file.as_str());
        let n: usize = self.conflicts.len();
        if n == 0 {
            push_text(
                &mut out,
                ": weave's merge of this file is CLEAN — no conflicted entity, nothing to explain.\n",
            );
            proof {
                assert(out@ =~= self@.rendered());
            }
            return string_of(out.as_slice());
        }
        push_text(&mut out, ": ");
        push_number(&mut out, n);
        push_text(&mut out, " conflicted entit");
        if n == 1 {
            push_text(&mut out, "y");
        } else {
            push_text(&mut out, "ies");
        }
        push_text(&mut out, "\n");
        let ghost head = out@;
        let mut k: usize = 0;
        proof {
            assert(head =~= head + conflict_phrases(all, 0));
        }
        while k < n
            invariant
                k <= n == self.conflicts@.len(),
                all == views(self.conflicts@),
                out@ == head + conflict_phrases(all, k as int),
            decreases n - k,
        {
            proof {
                assert(all[k as int] == self.conflicts@[k as int]@);
            }
            push_conflict(&mut out, &self.conflicts[k]);
            proof {
                assert(out@ =~= head + conflict_phrases(all, k + 1));
            }
            k = k + 1;
        }
        proof {
            assert(out@ =~= self@.rendered());
        }
        string_of(out.as_slice())
    }
}


// ---------------------------------------------------------------------------
// What an explanation lists
// ---------------------------------------------------------------------------

/// Did the side do something in the hunk? It removed or wrote a line.
pub open spec fn acted(e: SideEditView) -> bool {
    e.removed.len() > 0 || e.added.len() > 0
}

proof fn contested_places(hs: Seq<HunkView>, k: int) -> (at: Seq<int>)
    requires
        0 <= k <= hs.len(),
        forall|i: int|
            0 <= i < hs.len() ==> ((#[trigger] hs[i]).ours.action is Untouched <==> !acted(
                hs[i].ours,
            )) && (hs[i].theirs.action is Untouched <==> !acted(hs[i].theirs)),
    ensures
        at.len() == contested_hunks(hs, k).len(),
        forall|x: int|
            0 <= x < at.len() ==> 0 <= (#[trigger] at[x]) < k && contested_hunks(hs, k)[x]
                == hs[at[x]] && acted(hs[at[x]].ours) && acted(hs[at[x]].theirs),
        forall|x: int, y: int| 0 <= x < y < at.len() ==> (#[trigger] at[x]) < (#[trigger] at[y]),
        forall|i: int|
            0 <= i < k && acted((#[trigger] hs[i]).ours) && acted(hs[i].theirs) ==> at.contains(i),
    decreases k,
{
    if k <= 0 {
        Seq::empty()
    } else {
        let at = contested_places(hs, k - 1);
        let h = hs[k - 1];
        if acted(h.ours) && acted(h.theirs) {
            let now = at.push(k - 1);
            assert forall|i: int|
                0 <= i < k && acted((#[trigger] hs[i]).ours) && acted(
                    hs[i].theirs,
                ) implies now.contains(i) by {
                if i < k - 1 {
                    let x = choose|x: int| 0 <= x < at.len() && at[x] == i;
                    assert(now[x] == i);
                } else {
                    assert(now[at.len() as int] == i);
                }
            }
            now
        } else {
            at
        }
    }
}

/// The hunks that both sides wrote in are what an explanation is about: it counts them,
/// and lists the first of them in base order, with what each side did there. `at` is
/// where they stand among all hunks. In every hunk that is listed both sides removed or
/// wrote a line, and neither is reported as untouched.
pub proof fn an_explanation_is_about_what_both_sides_wrote(
    c: EntityConflictView,
    hs: Seq<HunkView>,
    guard: Seq<char>,
) -> (at: Seq<int>)
    requires
        forall|i: int|
            0 <= i < hs.len() ==> ((#[trigger] hs[i]).ours.action is Untouched <==> !acted(
                hs[i].ours,
            )) && (hs[i].theirs.action is Untouched <==> !acted(hs[i].theirs)),
    ensures
        ({
            let e = conflict_explained(c, hs, guard);
            &&& forall|i: int|
                0 <= i < hs.len() ==> (at.contains(i) <==> acted((#[trigger] hs[i]).ours) && acted(
                    hs[i].theirs,
                ))
            &&& forall|x: int| 0 <= x < at.len() ==> 0 <= (#[trigger] at[x]) < hs.len()
            &&& forall|x: int, y: int|
                0 <= x < y < at.len() ==> (#[trigger] at[x]) < (#[trigger] at[y])
            &&& e.contested_hunks == at.len()
            &&& e.hunks.len() == if at.len() < 12 {
                at.len()
            } else {
                12
            }
            &&& forall|x: int|
                0 <= x < e.hunks.len() ==> {
                    let listed = #[trigger] e.hunks[x];
                    let h = hs[at[x]];
                    &&& listed.base_start == h.base_start
                    &&& listed.base_end == h.base_end
                    &&& listed.ours.action == h.ours.action.tag()
                    &&& listed.theirs.action == h.theirs.action.tag()
                    &&& listed.ours.action != "untouched"@
                    &&& listed.theirs.action != "untouched"@
                    &&& listed.ours.removed_lines == h.ours.removed.len()
                    &&& listed.ours.added_lines == h.ours.added.len()
                    &&& listed.theirs.removed_lines == h.theirs.removed.len()
                    &&& listed.theirs.added_lines == h.theirs.added.len()
                    &&& listed.ours.removed_lines + listed.ours.added_lines > 0
                    &&& listed.theirs.removed_lines + listed.theirs.added_lines > 0
                    &&& quotes_first(listed.ours.added, h.ours.added)
                    &&& quotes_first(listed.theirs.added, h.theirs.added)
                    &&& quotes_first(listed.collision, h.collision)
                }
        }),
{
    let n = hs.len() as int;
    let at = contested_places(hs, n);
    let shown = contested_hunks(hs, n);
    let e = conflict_explained(c, hs, guard);
    reveal_strlit("untouched");
    reveal_strlit("added");
    reveal_strlit("removed");
    reveal_strlit("modified");
    assert("added"@.len() != "untouched"@.len());
    assert("removed"@.len() != "untouched"@.len());
    assert("modified"@.len() != "untouched"@.len());
    assert forall|i: int| 0 <= i < hs.len() implies (at.contains(i) <==> acted(
        (#[trigger] hs[i]).ours,
    ) && acted(hs[i].theirs)) by {
        if at.contains(i) {
            let x = choose|x: int| 0 <= x < at.len() && at[x] == i;
            assert(0 <= at[x] < n);
        }
    }
    assert forall|x: int| 0 <= x < e.hunks.len() implies {
        let listed = #[trigger] e.hunks[x];
        let h = hs[at[x]];
        listed == hunk_explained(h) && acted(h.ours) && acted(h.theirs) && quotes_first(
            listed.ours.added,
            h.ours.added,
        ) && quotes_first(listed.theirs.added, h.theirs.added) && quotes_first(
            listed.collision,
            h.collision,
        )
    } by {
        let h = hs[at[x]];
        assert(0 <= at[x] < n);
        assert(e.hunks[x] == hunk_explained(shown[x]));
        samples_quote(h.ours.added);
        samples_quote(h.theirs.added);
        samples_quote(h.collision);
    }
    at
}

/// Are the quotes the first lines, three of them at most, each without the white space
/// behind it, and whole where it is not too wide?
pub open spec fn quotes_first(quotes: Seq<Seq<char>>, ls: Seq<Seq<char>>) -> bool {
    &&& quotes.len() == if ls.len() < 3 {
        ls.len()
    } else {
        3
    }
    &&& forall|i: int|
        0 <= i < quotes.len() ==> (#[trigger] quotes[i]).len() <= 100 && (trim_end(ls[i]).len()
            <= 100 ==> quotes[i] == trim_end(ls[i])) && (trim_end(ls[i]).len() > 100
            ==> quotes[i].take(99) == trim_end(ls[i]).take(99) && quotes[i][99] == '…')
}

proof fn samples_quote(ls: Seq<Seq<char>>)
    ensures
        quotes_first(sampled(ls), ls),
{
    let q = sampled(ls);
    assert forall|i: int| 0 <= i < q.len() implies (#[trigger] q[i]).len() <= 100 && (trim_end(
        ls[i],
    ).len() <= 100 ==> q[i] == trim_end(ls[i])) && (trim_end(ls[i]).len() > 100 ==> q[i].take(99)
        == trim_end(ls[i]).take(99) && q[i][99] == '…') by {
        assert(q[i] == clipped(ls[i]));
        if trim_end(ls[i]).len() > 100 {
            assert(q[i].take(99) =~= trim_end(ls[i]).take(99));
        }
    }
}

/// In an explanation of a whole merge every conflict is explained, in their order. A
/// conflict that lacks a version has no hunks; of one that has all three, a hunk of the
/// alignment of the three texts is counted exactly where both sides removed or wrote a
/// line, and what is listed of it is what they did.
pub proof fn a_merge_is_explained_by_what_both_sides_wrote(
    file_path: Seq<char>,
    conflicts: Seq<EntityConflictView>,
    audit: Seq<EntityAuditView>,
    guards: GuardsView,
    i: int,
) -> (at: Seq<int>)
    requires
        0 <= i < conflicts.len(),
    ensures
        ({
            let all = explained(file_path, conflicts, audit, guards);
            let c = conflicts[i];
            let e = all.conflicts[i];
            &&& all.conflicts.len() == conflicts.len()
            &&& !all.clean
            &&& e.entity == c.entity_name
            &&& e.entity_type == c.entity_type
            &&& e.contested_hunks == at.len()
            &&& c.base is None || c.ours is None || c.theirs is None ==> at.len() == 0
            &&& c.base is Some && c.ours is Some && c.theirs is Some ==> {
                let hs = hunks_of(c.base->0, c.ours->0, c.theirs->0);
                &&& forall|k: int|
                    0 <= k < hs.len() ==> (at.contains(k) <==> acted((#[trigger] hs[k]).ours)
                        && acted(hs[k].theirs))
                &&& forall|x: int| 0 <= x < at.len() ==> 0 <= (#[trigger] at[x]) < hs.len()
                &&& forall|x: int, y: int|
                    0 <= x < y < at.len() ==> (#[trigger] at[x]) < (#[trigger] at[y])
                &&& forall|x: int|
                    0 <= x < e.hunks.len() ==> (#[trigger] e.hunks[x]).base_start
                        == hs[at[x]].base_start && e.hunks[x].ours.action != "untouched"@
                        && e.hunks[x].theirs.action != "untouched"@
            }
        }),
{
    let c = conflicts[i];
    let hs = conflict_hunks(c);
    if c.base is Some && c.ours is Some && c.theirs is Some {
        let (b, o, t) = (c.base->0, c.ours->0, c.theirs->0);
        assert forall|k: int| 0 <= k < hs.len() implies ((
        #[trigger] hs[k]).ours.action is Untouched <==> !acted(hs[k].ours)) && (
        hs[k].theirs.action is Untouched <==> !acted(hs[k].theirs)) by {
            let all = crate::diagnose::in_order(crate::diagnose::both_sides(b, o, t));
            let g = crate::diagnose::groups(all, all.len() as int)[k];
            assert(hs[k] == crate::diagnose::hunk_of(g));
        }
    }
    an_explanation_is_about_what_both_sides_wrote(
        c,
        hs,
        guard_of(audit, guards, c.entity_name, c.entity_type),
    )
}

/// An explanation of a clean merge says that it is clean, and lists nothing.
pub proof fn a_clean_merge_has_nothing_to_explain(
    file_path: Seq<char>,
    conflicts: Seq<EntityConflictView>,
    audit: Seq<EntityAuditView>,
    guards: GuardsView,
)
    ensures
        explained(file_path, conflicts, audit, guards).clean <==> conflicts.len() == 0,
        explained(file_path, conflicts, audit, guards).clean <==> explained(
            file_path,
            conflicts,
            audit,
            guards,
        ).conflicts.len() == 0,
{
}

/// The repair that an explanation offers follows from what the sides did: the rename that
/// was made, the side that kept what the other deleted, or the name that both added; and
/// a body that both changed has none.
pub proof fn a_repair_follows_from_the_conflict(
    c: EntityConflictView,
    hs: Seq<HunkView>,
    guard: Seq<char>,
)
    ensures
        ({
            let r = conflict_explained(c, hs, guard).repair;
            &&& r is None <==> c.kind is BothModified
            &&& c.kind matches ConflictKindView::RenameModify {
                old_name,
                new_name,
                renamed_in_ours,
            } ==> r == Some(RepairView::Rename { from: old_name, to: new_name })
            &&& c.kind matches ConflictKindView::RenameRename {
                base_name,
                ours_name,
                theirs_name,
            } ==> r == Some(RepairView::Rename { from: base_name, to: ours_name })
            &&& c.kind matches ConflictKindView::ModifyDelete { modified_in_ours } ==> (r matches
                Some(RepairView::DecideExistence { kept_by }) && (modified_in_ours ==> kept_by
                == "ours"@) && (!modified_in_ours ==> kept_by == "theirs"@))
            &&& c.kind is BothAdded ==> r == Some(RepairView::Reconcile { name: c.entity_name })
        }),
{
}

/// The guard that an explanation names is that of the first audit of the entity, by its
/// name and its type, or the ladder's where there is none.
pub proof fn the_guard_is_the_audit_s(
    audit: Seq<EntityAuditView>,
    guards: GuardsView,
    name: Seq<char>,
    entity_type: Seq<char>,
    i: int,
)
    requires
        0 <= i < audit.len(),
        audit[i].name == name,
        audit[i].entity_type == entity_type,
        forall|k: int|
            0 <= k < i ==> !((#[trigger] audit[k]).name == name && audit[k].entity_type
                == entity_type),
    ensures
        guard_of(audit, guards, name, entity_type) == guards.guard_or_ladder(audit[i].resolution),
{
    the_first_audit_is_found(audit, name, entity_type, 0, i);
}

proof fn the_first_audit_is_found(
    audit: Seq<EntityAuditView>,
    name: Seq<char>,
    entity_type: Seq<char>,
    k: int,
    i: int,
)
    requires
        0 <= k <= i < audit.len(),
        audit[i].name == name,
        audit[i].entity_type == entity_type,
        forall|m: int|
            k <= m < i ==> !((#[trigger] audit[m]).name == name && audit[m].entity_type
                == entity_type),
    ensures
        audit_for(audit, name, entity_type, k) == Some(audit[i]),
    decreases i - k,
{
    if k < i {
        the_first_audit_is_found(audit, name, entity_type, k + 1, i);
    }
}

} // verus!
