//! The merge of one file, from what was read to the result: match, classify,
//! resolve, bind, plan, render. Each stage gets only what it needs, and every fact
//! has one owner.

use vstd::prelude::*;
use crate::coalesce::{coalesce_adjacent_boxes, coalesced};
use crate::conflict::{
    zero_stats, ConflictComplexity, ConflictKind, ConflictKindView, EntityConflict,
    EntityConflictView, MarkerFormat, MarkerFormatView, MergeStats,
};
use crate::entity::{semantic_views, SemanticEntity, SemanticView};
use crate::frame::{
    duplicate_views, duplicates_of, frame_duplicates, has_box, is_conflicted, FrameDuplicate,
    FrameDuplicateView,
};
use crate::merge::{audit_views, EntityAudit, EntityAuditView, MergeResult};
use crate::order::views;
use crate::patch::line_merge_of;
use crate::region::{FileRegion, MergedGap, RegionView};
use crate::text::{
    chars_of, join, join_strings, push_text, str_eq, string_of, strs, trim, trimmed,
};
use crate::validate::{SemanticWarning, WarningKind, WarningKindView, WarningView};
use crate::v2::bind::{
    attempt_views, bind_names, bind_scopes, Attempt, AttemptView, Pass, Scopes, ScopesView,
};
use crate::v2::classify::{cells_of, classify_all};
use crate::v2::encoding::{strip_separator, stripped, Encoding};
use crate::v2::match_phase::{
    build_arena, match_phase, minted_all, raw_views, total_partition, RawEntity, RawView, Versions,
};
use crate::v2::plan::{layout_of, plan, Layout, Version};
use crate::v2::extraction::{
    contest, extraction, housing, line_edit, lookups_are_in_range, with_base, Extraction, LineEdit,
};
use crate::v2::relational::{relational_views, relations_ok, RelationalView};
use crate::v2::render::{
    emitted_ids, emitted_src_ids, indexed, region_lists, render, Interstitials, Rendering,
};
use crate::v2::resolve::{
    contested, laddered_case, resolve, resolved_views, Case, CtxView, ResolveCtx, Resolved,
    ResolvedView, Rungs, RungsView,
};
use crate::v2::types::{
    copy_opt, entity_at, entity_separator, has_extension, triple_views, triples_wf, Arena, Cell,
    Disposition, DispositionView, EntityOrder, EntityView, Idx, Matching, Tally, Triple,
    TripleView,
};

verus! {

broadcast use vstd::string::group_string_axioms;

// ---------------------------------------------------------------------------
// Which files have an entity layer
// ---------------------------------------------------------------------------

/// Why a file is handed back to the line-level path.
#[derive(Debug, Clone, Copy, PartialEq, Eq, Structural)]
pub enum Unsupported {
    /// There is no grammar for this file type.
    NoGrammar,
    /// The grammar found no entities in a file that is not empty.
    NoEntities,
    /// Base is empty and both sides wrote the file.
    BothCreated,
    /// So many same-named entities that identity is not a function.
    AmbiguousIdentity,
}

/// What a parser says of one version: whether the text is blank, whether it found
/// entities, and whether too many of them share a name.
#[derive(Debug, Clone, Copy, PartialEq, Eq, Structural)]
pub struct VersionFacts {
    pub is_blank: bool,
    pub has_entities: bool,
    pub has_excessive_duplicates: bool,
}

/// The first reason why the three versions cannot be merged by entities.
pub open spec fn unsupported(
    has_grammar: bool,
    base: VersionFacts,
    ours: VersionFacts,
    theirs: VersionFacts,
) -> Option<Unsupported> {
    if !has_grammar {
        Some(Unsupported::NoGrammar)
    } else if base.is_blank && !ours.is_blank && !theirs.is_blank {
        Some(Unsupported::BothCreated)
    } else if !base.has_entities && !base.is_blank {
        Some(Unsupported::NoEntities)
    } else if !ours.has_entities && !ours.is_blank && !theirs.has_entities && !theirs.is_blank {
        Some(Unsupported::NoEntities)
    } else if base.has_excessive_duplicates || ours.has_excessive_duplicates
        || theirs.has_excessive_duplicates {
        Some(Unsupported::AmbiguousIdentity)
    } else {
        None
    }
}

/// Can the three versions be merged by entities?
pub fn check_supported(has_grammar: bool, base: VersionFacts, ours: VersionFacts, theirs: VersionFacts) -> (r: Result<
    (),
    Unsupported,
>)
    ensures
        match unsupported(has_grammar, base, ours, theirs) {
            Some(u) => r == Err::<(), Unsupported>(u),
            None => r is Ok,
        },
{
    if !has_grammar {
        return Err(Unsupported::NoGrammar);
    }
    if base.is_blank && !ours.is_blank && !theirs.is_blank {
        return Err(Unsupported::BothCreated);
    }
    if !base.has_entities && !base.is_blank {
        return Err(Unsupported::NoEntities);
    }
    if !ours.has_entities && !ours.is_blank && !theirs.has_entities && !theirs.is_blank {
        return Err(Unsupported::NoEntities);
    }
    if base.has_excessive_duplicates || ours.has_excessive_duplicates
        || theirs.has_excessive_duplicates {
        return Err(Unsupported::AmbiguousIdentity);
    }
    Ok(())
}

// ---------------------------------------------------------------------------
// Reading
// ---------------------------------------------------------------------------

/// The text of the last of the first `n` regions that holds the entity.
pub open spec fn region_text(regions: Seq<RegionView>, id: Seq<char>, n: int) -> Option<Seq<char>>
    decreases n,
{
    if n <= 0 {
        None
    } else {
        match regions[n - 1] {
            RegionView::Entity { entity_id, content } => if entity_id == id {
                Some(content)
            } else {
                region_text(regions, id, n - 1)
            },
            _ => region_text(regions, id, n - 1),
        }
    }
}

/// What the language of a file writes between two entities.
pub open spec fn separator_for(path: Seq<char>) -> Option<Seq<char>> {
    if has_extension(path, crate::v2::types::comma_extensions()) {
        Some(","@)
    } else {
        None
    }
}

/// An entity as the pipeline reads it: with the text of its region, which is the
/// file's own, or else the parser's, and without what stands between two entities.
pub open spec fn raw_of(e: SemanticView, regions: Seq<RegionView>, sep: Option<Seq<char>>) -> RawView {
    RawView {
        name: e.name,
        entity_type: e.entity_type,
        parent: e.parent_id,
        content: stripped(
            match region_text(regions, e.id, regions.len() as int) {
                Some(t) => t,
                None => e.content,
            },
            sep,
        ),
        src_id: e.id,
    }
}

/// The entities of one version as the pipeline reads them.
pub open spec fn raws_of(
    entities: Seq<SemanticView>,
    regions: Seq<RegionView>,
    sep: Option<Seq<char>>,
) -> Seq<RawView> {
    entities.map_values(|e: SemanticView| raw_of(e, regions, sep))
}

fn find_region<'a>(regions: &'a Vec<FileRegion>, id: &str) -> (r: Option<&'a str>)
    ensures
        crate::conflict::opt_str(r) == region_text(views(regions@), id@, regions@.len() as int),
{
    let ghost all = views(regions@);
    let mut n: usize = regions.len();
    while n > 0
        invariant
            n <= regions@.len(),
            all == views(regions@),
            region_text(all, id@, n as int) == region_text(all, id@, regions@.len() as int),
        decreases n,
    {
        proof {
            assert(all[n - 1] == regions@[n - 1]@);
        }
        match &regions[n - 1] {
            FileRegion::Entity { entity_id, content } => {
                if str_eq(entity_id.as_str(), id) {
                    return Some(content.as_str());
                }
            },
            _ => {},
        }
        n = n - 1;
    }
    None
}

/// Pair each parsed entity with the text of its region. This is the one place where
/// that pairing is made.
pub fn raws(
    entities: &Vec<SemanticEntity>,
    regions: &Vec<FileRegion>,
    separator: Option<&str>,
) -> (r: Vec<RawEntity>)
    ensures
        raw_views(r@) == raws_of(
            semantic_views(entities@),
            views(regions@),
            crate::conflict::opt_str(separator),
        ),
{
    let ghost ev = semantic_views(entities@);
    let ghost rv = views(regions@);
    let ghost sep = crate::conflict::opt_str(separator);
    let mut out: Vec<RawEntity> = Vec::new();
    let mut k: usize = 0;
    while k < entities.len()
        invariant
            k <= entities@.len(),
            ev == semantic_views(entities@),
            rv == views(regions@),
            sep == crate::conflict::opt_str(separator),
            out@.len() == k,
            forall|m: int| 0 <= m < k ==> (#[trigger] out@[m])@ == raw_of(ev[m], rv, sep),
        decreases entities@.len() - k,
    {
        let e = &entities[k];
        proof {
            assert(ev[k as int] == e@);
            assert(rv.len() == regions@.len());
        }
        let text = match find_region(regions, e.id.as_str()) {
            Some(t) => t,
            None => e.content.as_str(),
        };
        out.push(
            RawEntity {
                name: e.name.clone(),
                entity_type: e.entity_type.clone(),
                parent: copy_opt(&e.parent_id),
                content: strip_separator(text, separator),
                src_id: e.id.clone(),
            },
        );
        k = k + 1;
    }
    proof {
        assert(raw_views(out@) =~= raws_of(ev, rv, sep));
    }
    out
}

// ---------------------------------------------------------------------------
// Matching and classifying
// ---------------------------------------------------------------------------

/// A matched, classified merge: the input to every later stage.
#[derive(Debug)]
pub struct Analysis {
    pub matching: Matching,
    /// One for each triple of the matching.
    pub cells: Vec<Cell>,
}

/// An [`Analysis`] over views.
pub struct AnalysisView {
    pub arena: Seq<EntityView>,
    pub triples: Seq<TripleView>,
    pub relational: Seq<RelationalView>,
    pub cells: Seq<Cell>,
}

impl View for Analysis {
    type V = AnalysisView;

    open spec fn view(&self) -> AnalysisView {
        AnalysisView {
            arena: self.matching.arena@,
            triples: triple_views(self.matching.triples@),
            relational: relational_views(self.matching.relational@),
            cells: self.cells@,
        }
    }
}

/// Three versions in one arena.
pub open spec fn versions_of(
    base: Seq<RawView>,
    ours: Seq<RawView>,
    theirs: Seq<RawView>,
) -> Versions {
    Versions {
        arena: minted_all(base) + minted_all(ours) + minted_all(theirs),
        nb: base.len() as int,
        no: ours.len() as int,
        nt: theirs.len() as int,
    }
}

/// Three versions, matched and classified.
pub open spec fn analysis_of(
    base: Seq<RawView>,
    ours: Seq<RawView>,
    theirs: Seq<RawView>,
) -> AnalysisView {
    let v = versions_of(base, ours, theirs);
    AnalysisView {
        arena: v.arena,
        triples: v.triples(),
        relational: v.relational(),
        cells: cells_of(v.arena, v.triples()),
    }
}

impl Analysis {
    /// Every entity lies in the arena and in one triple, and every triple has its
    /// case.
    pub open spec fn wf(&self) -> bool {
        let ts = triple_views(self.matching.triples@);
        &&& self.matching.arena@.len() <= u32::MAX
        &&& triples_wf(ts, self.matching.arena@.len())
        &&& total_partition(ts, self.matching.arena@.len() as int)
        &&& relations_ok(
            relational_views(self.matching.relational@),
            self.matching.arena@.len(),
        )
        &&& self.cells@ == cells_of(self.matching.arena@, ts)
    }

    /// How many triples there are.
    pub fn len(&self) -> (r: usize)
        ensures
            r == self.matching.triples@.len(),
    {
        self.matching.triples.len()
    }

    /// The `i`th triple and its case.
    pub fn at(&self, i: usize) -> (r: (&Triple, Cell))
        requires
            i < self.matching.triples@.len(),
            self.cells@.len() == self.matching.triples@.len(),
        ensures
            r.0@ == self.matching.triples@[i as int]@,
            r.1 == self.cells@[i as int],
    {
        (&self.matching.triples[i], self.cells[i])
    }

    /// The name a triple travels under: the base name where there is one, else that
    /// of the side that has the entity.
    pub fn label(&self, triple: &Triple) -> (r: String)
        requires
            triple@.wf(self.matching.arena@.len()),
        ensures
            r@ == entity_at(self.matching.arena@, triple@.representative()).key.name,
    {
        self.matching.arena.get(triple.representative()).name().to_owned()
    }
}

/// Match and classify three versions, and stop there.
pub fn analyze(base: Vec<RawEntity>, ours: Vec<RawEntity>, theirs: Vec<RawEntity>) -> (r: Analysis)
    requires
        base@.len() + ours@.len() + theirs@.len() <= u32::MAX,
    ensures
        r.wf(),
        r@ == analysis_of(raw_views(base@), raw_views(ours@), raw_views(theirs@)),
{
    let ghost want = analysis_of(raw_views(base@), raw_views(ours@), raw_views(theirs@));
    let (arena, claims) = build_arena(base, ours, theirs);
    let matching = match_phase(arena, claims);
    let cells = classify_all(&matching.arena, &matching.triples);
    let r = Analysis { matching, cells };
    proof {
        assert(r@.arena == want.arena);
        assert(r@.triples == want.triples);
        assert(r@.relational == want.relational);
    }
    r
}

/// The decisions for all triples, given what the finer merges answer about each.
pub open spec fn decisions(
    arena: Seq<EntityView>,
    triples: Seq<TripleView>,
    cells: Seq<Cell>,
    ctx: CtxView,
    rungs: Seq<crate::v2::resolve::RungsView>,
) -> Seq<ResolvedView> {
    Seq::new(
        triples.len(),
        |i: int| (Case { arena, triple: triples[i] }).resolved(cells[i], ctx, rungs[i]),
    )
}

/// Decide every triple.
pub fn resolve_all(analysis: &Analysis, ctx: &ResolveCtx, rungs: &Vec<Rungs>) -> (r: Vec<Resolved>)
    requires
        analysis.wf(),
        rungs@.len() == analysis.matching.triples@.len(),
    ensures
        resolved_views(r@) == decisions(
            analysis.matching.arena@,
            triple_views(analysis.matching.triples@),
            analysis.cells@,
            ctx@,
            views(rungs@),
        ),
        r@.len() == analysis.matching.triples@.len(),
{
    let ghost tv = triple_views(analysis.matching.triples@);
    let ghost want = decisions(
        analysis.matching.arena@,
        tv,
        analysis.cells@,
        ctx@,
        views(rungs@),
    );
    let mut out: Vec<Resolved> = Vec::new();
    let mut i: usize = 0;
    while i < analysis.matching.triples.len()
        invariant
            analysis.wf(),
            rungs@.len() == analysis.matching.triples@.len(),
            tv == triple_views(analysis.matching.triples@),
            want == decisions(
                analysis.matching.arena@,
                tv,
                analysis.cells@,
                ctx@,
                views(rungs@),
            ),
            i <= analysis.matching.triples@.len(),
            out@.len() == i,
            forall|m: int| 0 <= m < i ==> (#[trigger] out@[m])@ == want[m],
        decreases analysis.matching.triples@.len() - i,
    {
        proof {
            assert(tv[i as int] == analysis.matching.triples@[i as int]@);
            assert(views(rungs@)[i as int] == rungs@[i as int]@);
        }
        out.push(
            resolve(
                &analysis.matching.arena,
                &analysis.matching.triples[i],
                analysis.cells[i],
                ctx,
                &rungs[i],
            ),
        );
        i = i + 1;
    }
    proof {
        assert(resolved_views(out@) =~= want);
    }
    out
}

// ---------------------------------------------------------------------------
// The language of a file
// ---------------------------------------------------------------------------

/// Is indentation semantics in the language of the file?
pub fn indent_sensitive(file_path: &str) -> (r: bool)
    ensures
        r == has_extension(file_path@, seq![".py"@, ".yaml"@, ".yml"@]),
{
    let v: Vec<&str> = vec![".py", ".yaml", ".yml"];
    proof {
        assert(v@.map_values(|e: &str| e@) =~= seq![".py"@, ".yaml"@, ".yml"@]);
    }
    crate::v2::types::path_has_extension(file_path, &v)
}

/// Do decorators compose in the language of the file, rather than annotate?
pub fn decorators_compose(file_path: &str) -> (r: bool)
    ensures
        r == has_extension(
            file_path@,
            seq![".py"@, ".pyi"@, ".ts"@, ".tsx"@, ".js"@, ".jsx"@, ".mjs"@],
        ),
{
    let v: Vec<&str> = vec![".py", ".pyi", ".ts", ".tsx", ".js", ".jsx", ".mjs"];
    proof {
        assert(v@.map_values(|e: &str| e@) =~= seq![
            ".py"@, ".pyi"@, ".ts"@, ".tsx"@, ".js"@, ".jsx"@, ".mjs"@,
        ]);
    }
    crate::v2::types::path_has_extension(file_path, &v)
}

// ---------------------------------------------------------------------------
// The summary
// ---------------------------------------------------------------------------

/// The summary of the first `k` decisions.
pub open spec fn summary(rs: Seq<ResolvedView>, k: int) -> MergeStats
    decreases k,
{
    if k <= 0 {
        zero_stats()
    } else {
        summary(rs, k - 1).recorded(rs[k - 1].tally, rs[k - 1].strategy)
    }
}

/// Does one of the first `k` decisions land on the line?
pub open spec fn some_tally(rs: Seq<ResolvedView>, tally: Tally, k: int) -> bool {
    exists|i: int| 0 <= i < k && (#[trigger] rs[i]).tally == tally
}

proof fn summary_bounds(rs: Seq<ResolvedView>, k: int)
    requires
        0 <= k <= rs.len(),
        k <= usize::MAX,
    ensures
        summary(rs, k).counted() == k,
        summary(rs, k).resolved_via_diffy <= k,
        summary(rs, k).resolved_via_inner_merge <= k,
        !summary(rs, k).used_fallback,
        summary(rs, k).semantic_warnings == 0,
        summary(rs, k).references_rewritten == 0,
    decreases k,
{
    if k > 0 {
        summary_bounds(rs, k - 1);
    }
}

/// Every decision is counted on exactly one line of the summary, and the summary
/// speaks of a conflict exactly when some decision is tallied as one.
pub proof fn the_summary_counts_every_decision_once(rs: Seq<ResolvedView>, k: int)
    requires
        0 <= k <= rs.len(),
        k <= usize::MAX,
    ensures
        summary(rs, k).counted() == k,
        summary(rs, k).entities_conflicted > 0 <==> some_tally(rs, Tally::Conflicted, k),
    decreases k,
{
    summary_bounds(rs, k);
    if k > 0 {
        the_summary_counts_every_decision_once(rs, k - 1);
        summary_bounds(rs, k - 1);
        if some_tally(rs, Tally::Conflicted, k - 1) {
            let i = choose|i: int|
                0 <= i < k - 1 && (#[trigger] rs[i]).tally == Tally::Conflicted;
            assert(rs[i].tally == Tally::Conflicted);
        }
        if some_tally(rs, Tally::Conflicted, k) {
            let i = choose|i: int| 0 <= i < k && (#[trigger] rs[i]).tally == Tally::Conflicted;
            if i < k - 1 {
                assert(some_tally(rs, Tally::Conflicted, k - 1));
            }
        }
        if rs[k - 1].tally == Tally::Conflicted {
            assert(some_tally(rs, Tally::Conflicted, k));
        }
    }
}

/// Fold the finished decisions into the summary: it states nothing that they do not
/// already say.
pub fn summarize(resolved: &Vec<Resolved>) -> (r: MergeStats)
    ensures
        r == summary(resolved_views(resolved@), resolved@.len() as int),
{
    let ghost rs = resolved_views(resolved@);
    let mut s = MergeStats::default();
    let n: usize = resolved.len();
    let mut k: usize = 0;
    while k < n
        invariant
            k <= n == resolved@.len(),
            rs == resolved_views(resolved@),
            s == summary(rs, k as int),
        decreases n - k,
    {
        proof {
            assert(rs[k as int] == resolved@[k as int]@);
            summary_bounds(rs, k as int);
        }
        s.record(&resolved[k].tally, &resolved[k].strategy);
        k = k + 1;
    }
    s
}

// ---------------------------------------------------------------------------
// The result
// ---------------------------------------------------------------------------

/// The views of a list of conflicts.
pub open spec fn conflict_views(v: Seq<EntityConflict>) -> Seq<EntityConflictView> {
    v.map_values(|c: EntityConflict| c@)
}

/// The records of the conflicts among the first `k` decisions.
pub open spec fn conflicts_upto(rs: Seq<ResolvedView>, k: int) -> Seq<EntityConflictView>
    decreases k,
{
    if k <= 0 {
        Seq::empty()
    } else {
        match rs[k - 1].disposition {
            DispositionView::Conflict { text, conflict } => conflicts_upto(rs, k - 1).push(
                conflict,
            ),
            _ => conflicts_upto(rs, k - 1),
        }
    }
}

/// The line that states one side's definition order.
pub open spec fn listing(names: Seq<Seq<char>>) -> Seq<char> {
    "definition order: "@ + join(names, " -> "@) + "\n"@
}

/// The conflict over the order of definitions: one line per side.
pub open spec fn order_conflict_of(l: Layout) -> EntityConflictView {
    EntityConflictView {
        entity_name: "definition order"@,
        entity_type: "entity-order"@,
        kind: ConflictKindView::BothModified,
        complexity: ConflictComplexity::SyntaxFunctional,
        ours: Some(listing(l.names(l.survivors(Version::Ours)))),
        theirs: Some(listing(l.names(l.survivors(Version::Theirs)))),
        base: Some(listing(l.names(l.survivors(Version::Base)))),
    }
}

/// How the entity of each triple was resolved.
pub open spec fn audits_of(
    arena: Seq<EntityView>,
    triples: Seq<TripleView>,
    rs: Seq<ResolvedView>,
) -> Seq<EntityAuditView> {
    Seq::new(
        triples.len(),
        |i: int|
            EntityAuditView {
                name: entity_at(arena, triples[i].representative()).key.name,
                entity_type: entity_at(arena, triples[i].representative()).key.entity_type,
                resolution: rs[i].strategy,
            },
    )
}

/// What is reported of a line that the frame states too often.
pub open spec fn duplicate_warning(d: FrameDuplicateView, file_path: Seq<char>) -> WarningView {
    WarningView {
        entity_name: trim(d.line),
        entity_type: "frame"@,
        file_path,
        kind: WarningKindView::ConflictFrameDuplicate {
            line: d.line,
            found: d.found,
            allowed: d.allowed,
        },
        related: Seq::empty(),
    }
}

/// What the last stage reads: the decisions of one file, and what was merged
/// between its entities.
pub struct Finish {
    pub arena: Seq<EntityView>,
    pub triples: Seq<TripleView>,
    pub rs: Seq<ResolvedView>,
    pub file_path: Seq<char>,
    pub marker_format: MarkerFormatView,
    pub gaps: Seq<(Seq<char>, Seq<char>)>,
    pub gap_conflicts: Seq<EntityConflictView>,
    pub regions: Seq<Seq<RegionView>>,
    pub encoding: Encoding,
}

impl Finish {
    /// The order of definitions in the language of the file.
    pub open spec fn order(self) -> EntityOrder {
        if has_extension(self.file_path, crate::v2::types::effectful_extensions()) {
            EntityOrder::Effectful
        } else {
            EntityOrder::Unordered
        }
    }

    /// What the language writes between two entities.
    pub open spec fn separator(self) -> Option<Seq<char>> {
        separator_for(self.file_path)
    }

    /// The layout of the decisions.
    pub open spec fn layout(self) -> Layout {
        layout_of(self.arena, self.triples, self.rs, self.order())
    }

    /// The file as it is rendered.
    pub open spec fn rendering(self) -> Rendering {
        let items = self.layout().items();
        Rendering {
            arena: self.arena,
            triples: self.triples,
            rs: self.rs,
            items,
            gaps: indexed(
                self.gaps,
                self.regions,
                emitted_ids(self.arena, self.triples, self.rs, items, items.len() as int),
            ),
            sequence: self.separator(),
        }
    }

    /// The rendered file, with the conflict over the order of definitions at its head
    /// where there is one.
    pub open spec fn headed(self) -> Seq<char> {
        if self.layout().contradicts() {
            order_conflict_of(self.layout()).markers(
                self.marker_format,
                "merge_ladder_exhausted"@,
            ) + self.rendering().file()
        } else {
            self.rendering().file()
        }
    }

    /// The finished text: neighbouring boxes made one, in the encoding of the inputs.
    pub open spec fn content(self) -> Seq<char> {
        self.encoding.applied(coalesced(self.headed(), self.marker_format.marker_length))
    }

    /// The typed conflicts: those of the decisions, those between the entities, and
    /// the one over the order of definitions.
    pub open spec fn conflicts(self) -> Seq<EntityConflictView> {
        let own = conflicts_upto(self.rs, self.rs.len() as int) + self.gap_conflicts;
        if self.layout().contradicts() {
            own.push(order_conflict_of(self.layout()))
        } else {
            own
        }
    }

    /// How many conflicts do not belong to an entity.
    pub open spec fn extra(self) -> int {
        self.gap_conflicts.len() + if self.layout().contradicts() {
            1int
        } else {
            0int
        }
    }

    /// The summary: what the decisions say, and the conflicts that do not belong to
    /// an entity.
    pub open spec fn stats(self, rewritten: usize) -> MergeStats {
        let s = summary(self.rs, self.rs.len() as int);
        MergeStats {
            references_rewritten: rewritten,
            entities_conflicted: (s.entities_conflicted + self.extra()) as usize,
            ..s
        }
    }

    /// The findings about the finished text: only of one that is conflicted, and only
    /// as advice.
    pub open spec fn frame_warnings(
        self,
        base: Seq<char>,
        ours: Seq<char>,
        theirs: Seq<char>,
    ) -> Seq<WarningView> {
        if has_box(self.content()) {
            duplicates_of(base, ours, theirs, self.content()).map_values(
                |d: FrameDuplicateView| duplicate_warning(d, self.file_path),
            )
        } else {
            Seq::empty()
        }
    }
}

fn conflict_records(resolved: &Vec<Resolved>) -> (r: Vec<EntityConflict>)
    ensures
        conflict_views(r@) == conflicts_upto(resolved_views(resolved@), resolved@.len() as int),
{
    let ghost rs = resolved_views(resolved@);
    let mut out: Vec<EntityConflict> = Vec::new();
    let mut k: usize = 0;
    proof {
        assert(conflict_views(out@) =~= Seq::empty());
    }
    while k < resolved.len()
        invariant
            k <= resolved@.len(),
            rs == resolved_views(resolved@),
            conflict_views(out@) == conflicts_upto(rs, k as int),
        decreases resolved@.len() - k,
    {
        proof {
            assert(rs[k as int] == resolved@[k as int]@);
        }
        match &resolved[k].disposition {
            Disposition::Conflict { conflict, .. } => {
                let ghost held = conflict_views(out@);
                let c = conflict.copy();
                let ghost cv = c@;
                out.push(c);
                proof {
                    assert(conflict_views(out@) =~= held.push(cv));
                }
            },
            _ => {},
        }
        k = k + 1;
    }
    out
}

fn listing_of(names: &Vec<String>) -> (r: String)
    ensures
        r@ == listing(strs(names@)),
{
    let mut out: Vec<char> = Vec::new();
    push_text(&mut out, "definition order: ");
    push_text(&mut out, join_strings(names, " -> ").as_str());
    push_text(&mut out, "\n");
    proof {
        assert(out@ =~= listing(strs(names@)));
    }
    string_of(out.as_slice())
}

fn audit_of(arena: &Arena, triples: &Vec<Triple>, resolved: &Vec<Resolved>) -> (r: Vec<EntityAudit>)
    requires
        triples_wf(triple_views(triples@), arena@.len()),
        resolved@.len() == triples@.len(),
    ensures
        audit_views(r@) == audits_of(
            arena@,
            triple_views(triples@),
            resolved_views(resolved@),
        ),
        r@.len() == triples@.len(),
{
    let ghost tv = triple_views(triples@);
    let ghost rs = resolved_views(resolved@);
    let ghost want = audits_of(arena@, tv, rs);
    let mut out: Vec<EntityAudit> = Vec::new();
    let mut i: usize = 0;
    while i < triples.len()
        invariant
            i <= triples@.len() == resolved@.len(),
            tv == triple_views(triples@),
            rs == resolved_views(resolved@),
            triples_wf(tv, arena@.len()),
            want == audits_of(arena@, tv, rs),
            out@.len() == i,
            forall|m: int| 0 <= m < i ==> (#[trigger] out@[m])@ == want[m],
        decreases triples@.len() - i,
    {
        proof {
            assert(tv[i as int] == triples@[i as int]@);
            assert(rs[i as int] == resolved@[i as int]@);
        }
        let e = arena.get(triples[i].representative());
        out.push(
            EntityAudit {
                name: e.name().to_owned(),
                entity_type: e.entity_type().to_owned(),
                resolution: resolved[i].strategy.copy(),
            },
        );
        i = i + 1;
    }
    proof {
        assert(audit_views(out@) =~= want);
    }
    out
}

fn push_duplicates(warnings: &mut Vec<SemanticWarning>, ds: &Vec<FrameDuplicate>, file_path: &str)
    ensures
        views(final(warnings)@) == views(old(warnings)@) + duplicate_views(ds@).map_values(
            |d: FrameDuplicateView| duplicate_warning(d, file_path@),
        ),
{
    let ghost before = views(warnings@);
    let ghost dv = duplicate_views(ds@);
    let ghost all = dv.map_values(|d: FrameDuplicateView| duplicate_warning(d, file_path@));
    let mut k: usize = 0;
    proof {
        assert(before =~= before + all.take(0));
    }
    while k < ds.len()
        invariant
            k <= ds@.len() == dv.len() == all.len(),
            dv == duplicate_views(ds@),
            all == dv.map_values(|d: FrameDuplicateView| duplicate_warning(d, file_path@)),
            views(warnings@) == before + all.take(k as int),
        decreases ds@.len() - k,
    {
        let d = &ds[k];
        let line = chars_of(d.line.as_str());
        let warning = SemanticWarning {
            entity_name: string_of(trimmed(line.as_slice())),
            entity_type: "frame".to_owned(),
            file_path: file_path.to_owned(),
            kind: WarningKind::ConflictFrameDuplicate {
                line: d.line.clone(),
                found: d.found,
                allowed: d.allowed,
            },
            related: Vec::new(),
        };
        let ghost held = views(warnings@);
        let ghost wv = warning@;
        warnings.push(warning);
        proof {
            assert(dv[k as int] == d@);
            assert(wv.related =~= Seq::empty());
            assert(wv == all[k as int]);
            assert(views(warnings@) =~= held.push(wv));
            assert(all.take(k + 1) =~= all.take(k as int).push(wv));
        }
        k = k + 1;
    }
    proof {
        assert(all.take(k as int) =~= all);
    }
}

/// What was merged between the entities of one file, and the regions it came from:
/// one list per version, base first.
#[derive(Debug)]
pub struct Between {
    pub merged: Vec<MergedGap>,
    pub conflicts: Vec<EntityConflict>,
    pub regions: Vec<Vec<FileRegion>>,
}

/// What the last stage reads.
pub open spec fn finish_of(
    analysis: &Analysis,
    resolved: Seq<Resolved>,
    between: Between,
    file_path: Seq<char>,
    marker_format: MarkerFormatView,
    encoding: Encoding,
) -> Finish {
    Finish {
        arena: analysis.matching.arena@,
        triples: triple_views(analysis.matching.triples@),
        rs: resolved_views(resolved),
        file_path,
        marker_format,
        gaps: views(between.merged@),
        gap_conflicts: conflict_views(between.conflicts@),
        regions: region_lists(between.regions@),
        encoding,
    }
}

/// Plan and render one file, and read the result off the decisions. `base`, `ours`
/// and `theirs` are the inputs in their normalized form, `findings` what binding
/// reported, and `rewritten` the number of texts whose calls it rewrote.
pub fn finish(
    analysis: &Analysis,
    resolved: &Vec<Resolved>,
    rewritten: usize,
    findings: Vec<SemanticWarning>,
    between: Between,
    base: &str,
    ours: &str,
    theirs: &str,
    file_path: &str,
    marker_format: &MarkerFormat,
    encoding: Encoding,
) -> (r: MergeResult)
    requires
        analysis.wf(),
        resolved@.len() == analysis.matching.triples@.len(),
        resolved@.len() + between.conflicts@.len() < usize::MAX,
    ensures
        ({
            let f = finish_of(
                analysis,
                resolved@,
                between,
                file_path@,
                marker_format@,
                encoding,
            );
            &&& r.content@ == f.content()
            &&& conflict_views(r.conflicts@) == f.conflicts()
            &&& views(r.warnings@) == views(findings@) + f.frame_warnings(base@, ours@, theirs@)
            &&& r.stats == f.stats(rewritten)
            &&& audit_views(r.audit@) == audits_of(f.arena, f.triples, f.rs)
        }),
{
    let ghost f = finish_of(analysis, resolved@, between, file_path@, marker_format@, encoding);
    let ghost rs = f.rs;
    let arena = &analysis.matching.arena;
    let triples = &analysis.matching.triples;
    let mut stats = summarize(resolved);
    proof {
        summary_bounds(rs, rs.len() as int);
    }
    stats.references_rewritten = rewritten;
    let order = EntityOrder::of_path(file_path);
    proof {
        assert(order == f.order());
    }
    let placement = plan(arena, triples, resolved, order);
    let ghost l = f.layout();
    let emitted = emitted_src_ids(arena, triples, resolved, &placement.items);
    proof {
        assert(views(placement.items@).len() == placement.items@.len());
    }
    let interstitials = Interstitials::new(between.merged, &between.regions, &emitted);
    let separator = entity_separator(file_path);
    let text = render(arena, triples, resolved, &placement.items, &interstitials, separator);
    proof {
        assert(crate::conflict::opt_str(separator) == f.separator());
        assert(text@ == f.rendering().file());
    }
    let mut conflicts = conflict_records(resolved);
    let extra: usize = between.conflicts.len();
    stats.entities_conflicted = stats.entities_conflicted + extra;
    let ghost own = conflict_views(conflicts@);
    let ghost gap_conflicts = conflict_views(between.conflicts@);
    let mut more = between.conflicts;
    conflicts.append(&mut more);
    proof {
        assert(conflict_views(conflicts@) =~= own + gap_conflicts);
    }
    let headed = match &placement.order_conflict {
        Some(oc) => {
            let conflict = EntityConflict {
                entity_name: "definition order".to_owned(),
                entity_type: "entity-order".to_owned(),
                kind: ConflictKind::BothModified,
                complexity: ConflictComplexity::SyntaxFunctional,
                ours_content: Some(listing_of(&oc.ours)),
                theirs_content: Some(listing_of(&oc.theirs)),
                base_content: Some(listing_of(&oc.base)),
            };
            proof {
                assert(conflict@ == order_conflict_of(l));
            }
            let mut out: Vec<char> = chars_of(
                conflict.to_conflict_markers(marker_format, "merge_ladder_exhausted").as_str(),
            );
            push_text(&mut out, text.as_str());
            stats.entities_conflicted = stats.entities_conflicted + 1;
            let ghost held = conflict_views(conflicts@);
            let ghost cv = conflict@;
            conflicts.push(conflict);
            proof {
                assert(conflict_views(conflicts@) =~= held.push(cv));
            }
            string_of(out.as_slice())
        },
        None => text,
    };
    proof {
        assert(headed@ == f.headed());
    }
    let audit = audit_of(arena, triples, resolved);
    let joined_boxes = coalesce_adjacent_boxes(headed.as_str(), marker_format);
    let content = encoding.apply(joined_boxes);
    let mut warnings = findings;
    let ghost told = views(warnings@);
    if is_conflicted(content.as_str()) {
        let ds = frame_duplicates(base, ours, theirs, content.as_str());
        push_duplicates(&mut warnings, &ds, file_path);
    } else {
        proof {
            assert(told + Seq::<WarningView>::empty() =~= told);
        }
    }
    MergeResult { content, conflicts, warnings, stats, audit }
}

// ---------------------------------------------------------------------------
// The summary and the conflicts
// ---------------------------------------------------------------------------

/// Is a decision tallied as a conflict exactly when it is one?
pub open spec fn tallies_agree(rs: Seq<ResolvedView>) -> bool {
    forall|i: int|
        0 <= i < rs.len() ==> ((#[trigger] rs[i]).disposition is Conflict <==> rs[i].tally
            == Tally::Conflicted)
}

proof fn some_conflict(rs: Seq<ResolvedView>, k: int)
    requires
        0 <= k <= rs.len(),
    ensures
        conflicts_upto(rs, k).len() > 0 <==> exists|i: int|
            0 <= i < k && (#[trigger] rs[i]).disposition is Conflict,
    decreases k,
{
    if k > 0 {
        some_conflict(rs, k - 1);
        if rs[k - 1].disposition is Conflict {
            assert(0 <= k - 1 < k && rs[k - 1].disposition is Conflict);
        } else if exists|i: int| 0 <= i < k && (#[trigger] rs[i]).disposition is Conflict {
            let i = choose|i: int| 0 <= i < k && (#[trigger] rs[i]).disposition is Conflict;
            assert(0 <= i < k - 1 && rs[i].disposition is Conflict);
        }
    }
}

/// The summary cannot disagree with the typed conflicts: it speaks of one exactly
/// when the result is not clean.
pub proof fn the_summary_agrees_with_the_conflicts(f: Finish, rewritten: usize)
    requires
        honest(f.rs),
        f.rs.len() + f.gap_conflicts.len() < usize::MAX,
    ensures
        f.stats(rewritten).entities_conflicted > 0 <==> f.conflicts().len() > 0,
{
    let n = f.rs.len() as int;
    some_conflict(f.rs, n);
    the_summary_counts_every_decision_once(f.rs, n);
    if conflicted_somewhere(f.rs) {
        let i = choose|i: int|
            0 <= i < f.rs.len() && (#[trigger] f.rs[i]).disposition is Conflict;
        assert(f.rs[i].tally == Tally::Conflicted);
        assert(some_tally(f.rs, Tally::Conflicted, n));
    }
}

/// Resolving tallies a decision as a conflict exactly when it is one, and so do the
/// passes over names.
pub proof fn decisions_are_tallied_as_what_they_are(
    p: Pass,
    rungs: Seq<crate::v2::resolve::RungsView>,
)
    requires
        p.wf(decisions(p.arena, p.triples, p.cells, p.ctx, rungs)),
    ensures
        tallies_agree(decisions(p.arena, p.triples, p.cells, p.ctx, rungs)),
        tallies_agree(
            p.after_names(decisions(p.arena, p.triples, p.cells, p.ctx, rungs)),
        ),
{
    let rs = decisions(p.arena, p.triples, p.cells, p.ctx, rungs);
    assert forall|i: int| 0 <= i < rs.len() implies ((#[trigger] rs[i]).disposition is Conflict
        <==> rs[i].tally == Tally::Conflicted) by {
        crate::v2::resolve::a_conflict_is_tallied_as_one(
            p.case(i),
            p.cells[i],
            p.ctx,
            rungs[i],
        );
    }
    repaired_agrees(p, rs, rs.len() as int);
}

proof fn repaired_agrees(p: Pass, rs: Seq<ResolvedView>, k: int)
    requires
        tallies_agree(rs),
        0 <= k <= rs.len(),
    ensures
        tallies_agree(p.repaired(rs, k).0),
        p.repaired(rs, k).0.len() == rs.len(),
    decreases k,
{
    if k > 0 {
        repaired_agrees(p, rs, k - 1);
    }
}

proof fn landed_agrees(
    p: Pass,
    at: Seq<ResolvedView>,
    e: Extraction,
    edit: LineEdit,
    k: int,
)
    requires
        tallies_agree(at),
        at.len() == p.triples.len(),
        p.all_land(at, e, edit),
        0 <= k <= edit.removed.len(),
    ensures
        tallies_agree(p.landed_upto(at, e, edit, k)),
        p.landed_upto(at, e, edit, k).len() == at.len(),
    decreases k,
{
    if k > 0 {
        landed_agrees(p, at, e, edit, k - 1);
        let rs = p.landed_upto(at, e, edit, k - 1);
        let line = edit.removed[k - 1];
        assert(p.landing(at, e, line) is Some);
        let h = housing(p.arena, e.extracted, line, e.extracted.len() as int);
        lookups_are_in_range(p.triples, h[0], p.triples.len() as int);
        let i = p.landing(at, e, line)->0;
        assert(rs[i].disposition is Conflict <==> rs[i].tally == Tally::Conflicted);
    }
}

proof fn facts_agree(p: Pass, rel: Seq<RelationalView>, rs: Seq<ResolvedView>, k: int)
    requires
        tallies_agree(rs),
        rs.len() == p.triples.len(),
        0 <= k <= rel.len(),
    ensures
        tallies_agree(p.landed_facts(rel, rs, k)),
        p.landed_facts(rel, rs, k).len() == rs.len(),
    decreases k,
{
    if k > 0 {
        facts_agree(p, rel, rs, k - 1);
        let before = p.landed_facts(rel, rs, k - 1);
        if let Some(e) = extraction(rel[k - 1]) {
            lookups_are_in_range(p.triples, e.source, p.triples.len() as int);
            if let Some(i) = with_base(p.triples, e.source, p.triples.len() as int) {
                if let Some(x) = p.triples[i].side(e.side.other()) {
                    let edit = line_edit(
                        entity_at(p.arena, e.source).content,
                        entity_at(p.arena, x).content,
                    );
                    if p.all_land(before, e, edit) {
                        landed_agrees(p, before, e, edit, edit.removed.len() as int);
                    }
                }
            }
        }
    }
}

/// Is some decision a conflict?
pub open spec fn conflicted_somewhere(rs: Seq<ResolvedView>) -> bool {
    exists|i: int| 0 <= i < rs.len() && (#[trigger] rs[i]).disposition is Conflict
}

/// Every conflict is tallied as one, and where something is tallied as a conflict,
/// something is one: the homes that moved into a box are counted with it.
pub open spec fn honest(rs: Seq<ResolvedView>) -> bool {
    &&& forall|i: int|
        0 <= i < rs.len() && (#[trigger] rs[i]).disposition is Conflict ==> rs[i].tally
            == Tally::Conflicted
    &&& some_tally(rs, Tally::Conflicted, rs.len() as int) ==> conflicted_somewhere(rs)
}

proof fn dropping_keeps_conflicts(
    p: Pass,
    at: Seq<ResolvedView>,
    rs: Seq<ResolvedView>,
    i: int,
    homes: Seq<Idx>,
    k: int,
)
    requires
        at.len() == rs.len() == p.triples.len(),
        0 <= i < rs.len(),
        0 <= k <= homes.len(),
        p.all_droppable(at, i, homes),
    ensures
        ({
            let after = p.dropped_upto(at, rs, i, homes, k);
            &&& after.len() == rs.len()
            &&& after[i] == rs[i]
            &&& forall|j: int|
                0 <= j < after.len() ==> (#[trigger] after[j] == rs[j] || after[j].disposition is Drop
                    && at[j].disposition is Emit)
        }),
    decreases k,
{
    if k > 0 {
        dropping_keeps_conflicts(p, at, rs, i, homes, k - 1);
        let h = homes[k - 1];
        assert(p.droppable(at, i, h) is Some);
        lookups_are_in_range(p.triples, h, p.triples.len() as int);
    }
}

/// Every conflict is tallied as one; what is tallied as one is a conflict, or there is a
/// marked one; and what is marked is a conflict.
spec fn anchored(rs: Seq<ResolvedView>, marks: Seq<bool>) -> bool {
    &&& marks.len() == rs.len()
    &&& forall|i: int|
        0 <= i < rs.len() && (#[trigger] rs[i]).disposition is Conflict ==> rs[i].tally
            == Tally::Conflicted
    &&& forall|i: int|
        0 <= i < rs.len() && (#[trigger] rs[i]).tally == Tally::Conflicted
            ==> rs[i].disposition is Conflict || some_mark(marks)
    &&& forall|i: int|
        0 <= i < rs.len() && #[trigger] marks[i] ==> rs[i].disposition is Conflict
}

spec fn some_mark(marks: Seq<bool>) -> bool {
    exists|j: int| 0 <= j < marks.len() && #[trigger] marks[j]
}

proof fn a_contest_stays_anchored(
    p: Pass,
    rel: Seq<RelationalView>,
    rs: Seq<ResolvedView>,
    marks: Seq<bool>,
    now: Seq<bool>,
    source: Idx,
)
    requires
        anchored(rs, marks),
        rs.len() == p.triples.len(),
        now.len() == marks.len(),
        forall|i: int|
            0 <= i < now.len() ==> (#[trigger] now[i] <==> marks[i] || p.boxes(rel, rs, source, i)),
    ensures
        anchored(p.after_contest(rel, rs, source), now),
        p.after_contest(rel, rs, source).len() == rs.len(),
{
    lookups_are_in_range(p.triples, source, p.triples.len() as int);
    let after = p.after_contest(rel, rs, source);
    if some_mark(marks) {
        let j = choose|j: int| 0 <= j < marks.len() && #[trigger] marks[j];
        assert(now[j]);
    }
    match (contest(rel, source), with_base(p.triples, source, p.triples.len() as int)) {
        (Some(c), Some(i)) => {
            if p.contested(rs, c, i) {
                let homes = c.ours + c.theirs;
                assert(p.all_droppable(rs, i, homes)) by {
                    assert forall|k: int| 0 <= k < homes.len() implies p.droppable(
                        rs,
                        i,
                        #[trigger] homes[k],
                    ) is Some by {
                        if k < c.ours.len() {
                            assert(homes[k] == c.ours[k]);
                        } else {
                            assert(homes[k] == c.theirs[k - c.ours.len()]);
                        }
                    }
                }
                let boxed = rs.update(
                    i,
                    crate::v2::resolve::conflicted(
                        p.contested_body(c, i),
                        p.ctx,
                        crate::merge::StrategyView::ConflictBothModified,
                    ),
                );
                dropping_keeps_conflicts(p, rs, boxed, i, homes, homes.len() as int);
                assert(p.boxes(rel, rs, source, i));
                assert(now[i]);
                assert(some_mark(now));
                assert forall|j: int|
                    0 <= j < after.len() && (#[trigger] after[j]).disposition is Conflict implies after[j].tally
                    == Tally::Conflicted by {
                    assert(after[j] == boxed[j]);
                    if j != i {
                        assert(boxed[j] == rs[j]);
                    }
                }
                assert forall|j: int| 0 <= j < after.len() && #[trigger] now[j] implies after[j].disposition is Conflict by {
                    if j != i {
                        assert(marks[j]);
                        assert(rs[j].disposition is Conflict);
                        assert(after[j] == boxed[j] || after[j].disposition is Drop
                            && rs[j].disposition is Emit);
                    }
                }
            } else {
                assert forall|j: int| 0 <= j < now.len() implies #[trigger] now[j] == marks[j] by {
                    assert(!p.boxes(rel, rs, source, j));
                }
                assert(now =~= marks);
            }
        },
        _ => {
            assert forall|j: int| 0 <= j < now.len() implies #[trigger] now[j] == marks[j] by {
                assert(!p.boxes(rel, rs, source, j));
            }
            assert(now =~= marks);
        },
    }
}

proof fn contests_stay_anchored(p: Pass, rel: Seq<RelationalView>, rs: Seq<ResolvedView>, n: int)
    requires
        tallies_agree(rs),
        rs.len() == p.triples.len(),
    ensures
        anchored(p.contests_upto(rel, rs, n), p.boxed_upto(rel, rs, n)),
        p.contests_upto(rel, rs, n).len() == rs.len(),
    decreases n,
{
    if n > 0 {
        contests_stay_anchored(p, rel, rs, n - 1);
        a_contest_stays_anchored(
            p,
            rel,
            p.contests_upto(rel, rs, n - 1),
            p.boxed_upto(rel, rs, n - 1),
            p.boxed_upto(rel, rs, n),
            Idx((n - 1) as u32),
        );
    }
}

/// After all passes, something is tallied as a conflict exactly when something is one:
/// the homes that moved into a box are counted with it, and no license takes the box
/// away.
pub proof fn the_passes_keep_the_tallies_honest(
    p: Pass,
    rel: Seq<RelationalView>,
    rs: Seq<ResolvedView>,
    scopes: Seq<crate::v2::bind::ScopesView>,
    attempts: Seq<Option<AttemptView>>,
)
    requires
        tallies_agree(rs),
        rs.len() == p.triples.len(),
        attempts.len() == rs.len(),
    ensures
        honest(
            p.after_licenses(
                p.after_scopes(rel, rs, scopes),
                p.open_attempts(rel, rs, scopes, attempts),
            ),
        ),
{
    let a = p.after_rehomes(rel, p.after_locals(rs, scopes));
    assert(tallies_agree(a));
    facts_agree(p, rel, a, rel.len() as int);
    let b = p.before_contests(rel, rs, scopes);
    assert(tallies_agree(b));
    contests_stay_anchored(p, rel, b, p.arena.len() as int);
    let c = p.after_scopes(rel, rs, scopes);
    let marks = p.boxed(rel, b);
    let open = p.open_attempts(rel, rs, scopes, attempts);
    let d = p.after_licenses(c, open);
    assert forall|i: int| 0 <= i < d.len() && (#[trigger] d[i]).disposition is Conflict implies d[i].tally
        == Tally::Conflicted by {
        assert(d[i] == c[i]);
    }
    if some_tally(d, Tally::Conflicted, d.len() as int) {
        let i = choose|i: int|
            0 <= i < d.len() && (#[trigger] d[i]).tally == Tally::Conflicted;
        assert(d[i] == c[i]);
        if !(c[i].disposition is Conflict) {
            let j = choose|j: int| 0 <= j < marks.len() && #[trigger] marks[j];
            assert(open[j] is None);
            assert(d[j] == c[j]);
            assert(c[j].disposition is Conflict);
        }
    }
}

// ---------------------------------------------------------------------------
// The stages behind the analysis
// ---------------------------------------------------------------------------

/// What the finer merges and the readers of the language answer about the triples of
/// one file: about each body that both sides changed, about the scopes of each text
/// after the passes over names, and with the license granted.
#[derive(Debug)]
pub struct Leaves {
    pub rungs: Vec<Rungs>,
    pub scopes: Vec<Scopes>,
    pub attempts: Vec<Option<Attempt>>,
}

/// A [`Leaves`] over views.
pub struct LeavesView {
    pub rungs: Seq<RungsView>,
    pub scopes: Seq<ScopesView>,
    pub attempts: Seq<Option<AttemptView>>,
}

impl View for Leaves {
    type V = LeavesView;

    open spec fn view(&self) -> LeavesView {
        LeavesView {
            rungs: views(self.rungs@),
            scopes: views(self.scopes@),
            attempts: attempt_views(self.attempts@),
        }
    }
}

impl LeavesView {
    /// There is one answer of each for every triple.
    pub open spec fn wf(self, n: nat) -> bool {
        self.rungs.len() == n && self.scopes.len() == n && self.attempts.len() == n
    }
}

impl AnalysisView {
    /// The passes over the triples.
    pub open spec fn pass(self, ctx: CtxView) -> Pass {
        Pass { arena: self.arena, triples: self.triples, cells: self.cells, ctx }
    }

    /// The rung of one triple, with what the line merge in this process makes of the
    /// bodies that both sides changed.
    pub open spec fn line_merged(self, i: int, rung: RungsView) -> RungsView {
        match laddered_case(self.cells[i]) {
            Some(renamed) => {
                let c = (Case { arena: self.arena, triple: self.triples[i] }).both_changed(renamed);
                RungsView { diff3: line_merge_of(c.base, c.ours, c.theirs), ..rung }
            },
            None => rung,
        }
    }

    /// The answers, with those of the line merge in this process.
    pub open spec fn with_line_merges(self, leaves: LeavesView) -> LeavesView {
        LeavesView {
            rungs: Seq::new(leaves.rungs.len(), |i: int| self.line_merged(i, leaves.rungs[i])),
            ..leaves
        }
    }

    /// The decisions as resolving reaches them.
    pub open spec fn first(self, ctx: CtxView, leaves: LeavesView) -> Seq<ResolvedView> {
        decisions(self.arena, self.triples, self.cells, ctx, leaves.rungs)
    }

    /// The decisions after all passes but the license.
    pub open spec fn bound(self, ctx: CtxView, leaves: LeavesView) -> Seq<ResolvedView> {
        let p = self.pass(ctx);
        p.after_scopes(
            self.relational,
            p.after_names(self.first(ctx, leaves)),
            leaves.scopes,
        )
    }

    /// The decisions that the result is read off.
    pub open spec fn last(self, ctx: CtxView, leaves: LeavesView) -> Seq<ResolvedView> {
        self.pass(ctx).after_licenses(self.bound(ctx, leaves), self.attempts(ctx, leaves))
    }

    /// The licensed merges that may be taken.
    pub open spec fn attempts(self, ctx: CtxView, leaves: LeavesView) -> Seq<
        Option<AttemptView>,
    > {
        let p = self.pass(ctx);
        p.open_attempts(
            self.relational,
            p.after_names(self.first(ctx, leaves)),
            leaves.scopes,
            leaves.attempts,
        )
    }

    /// How many texts had calls rewritten.
    pub open spec fn rewritten(self, ctx: CtxView, leaves: LeavesView) -> nat {
        let rs = self.first(ctx, leaves);
        self.pass(ctx).repaired(rs, rs.len() as int).1
    }

    /// What binding reports.
    pub open spec fn findings(self, ctx: CtxView, leaves: LeavesView, path: Seq<char>) -> Seq<
        WarningView,
    > {
        self.pass(ctx).findings_upto(
            self.bound(ctx, leaves),
            path,
            self.attempts(ctx, leaves),
            self.triples.len() as int,
        )
    }

    /// What the last stage reads.
    pub open spec fn finish(
        self,
        ctx: CtxView,
        leaves: LeavesView,
        gaps: Seq<(Seq<char>, Seq<char>)>,
        gap_conflicts: Seq<EntityConflictView>,
        regions: Seq<Seq<RegionView>>,
        path: Seq<char>,
        encoding: Encoding,
    ) -> Finish {
        Finish {
            arena: self.arena,
            triples: self.triples,
            rs: self.last(ctx, leaves),
            file_path: path,
            marker_format: ctx.marker_format,
            gaps,
            gap_conflicts,
            regions,
            encoding,
        }
    }
}

/// Let the line merge in this process answer about every body that both sides changed.
pub fn fill_line_merges(analysis: &Analysis, rungs: Vec<Rungs>) -> (r: Vec<Rungs>)
    requires
        analysis.wf(),
        rungs@.len() == analysis.matching.triples@.len(),
    ensures
        r@.len() == rungs@.len(),
        forall|i: int|
            0 <= i < r@.len() ==> (#[trigger] r@[i])@ == analysis@.line_merged(i, rungs@[i]@),
{
    let ghost given = rungs@;
    let ghost a = analysis@;
    let mut out = rungs;
    let mut i: usize = 0;
    while i < out.len()
        invariant
            analysis.wf(),
            a == analysis@,
            given.len() == analysis.matching.triples@.len(),
            out@.len() == given.len(),
            i <= out@.len(),
            forall|k: int|
                0 <= k < i ==> (#[trigger] out@[k])@ == a.line_merged(k, given[k]@),
            forall|k: int| i <= k < out@.len() ==> #[trigger] out@[k] == given[k],
        decreases out@.len() - i,
    {
        let (triple, cell) = analysis.at(i);
        proof {
            assert(a.triples[i as int] == triple@);
        }
        match contested(&analysis.matching.arena, triple, cell) {
            Some(c) => {
                out[i].diff3 = c.line_merge();
            },
            None => {},
        }
        i = i + 1;
    }
    out
}

impl MergeResult {
    /// The result is what the decisions and the texts say, behind what binding
    /// reported.
    pub open spec fn reads_off(
        &self,
        f: Finish,
        rewritten: nat,
        findings: Seq<WarningView>,
        base: Seq<char>,
        ours: Seq<char>,
        theirs: Seq<char>,
    ) -> bool {
        &&& self.content@ == f.content()
        &&& conflict_views(self.conflicts@) == f.conflicts()
        &&& self.stats == f.stats(rewritten as usize)
        &&& audit_views(self.audit@) == audits_of(f.arena, f.triples, f.rs)
        &&& views(self.warnings@) == findings + f.frame_warnings(base, ours, theirs)
    }
}

impl MergeResult {
    /// The summary speaks of a conflict exactly when the result is not clean, and it
    /// counts every audited entity once, beside `extra` conflicts that belong to none.
    pub open spec fn agrees_with_itself(&self, extra: int) -> bool {
        &&& self.stats.entities_conflicted > 0 <==> self.conflicts@.len() > 0
        &&& self.stats.counted() == self.audit@.len() + extra
    }
}

/// Resolve, bind, plan and render what was matched, and read the result off the
/// decisions. `None` where more texts had calls rewritten than can be counted.
///
/// `base`, `ours` and `theirs` are the inputs in their normalized form.
pub fn merge_analysis(
    analysis: &Analysis,
    ctx: &ResolveCtx,
    leaves: &Leaves,
    between: Between,
    base: &str,
    ours: &str,
    theirs: &str,
    file_path: &str,
    encoding: Encoding,
) -> (r: Option<MergeResult>)
    requires
        analysis.wf(),
        leaves@.wf(analysis.matching.triples@.len()),
        analysis.matching.triples@.len() + between.conflicts@.len() < usize::MAX,
    ensures
        r is Some <==> analysis@.rewritten(ctx@, leaves@) <= usize::MAX,
        r matches Some(m) ==> m.reads_off(
            analysis@.finish(
                ctx@,
                leaves@,
                views(between.merged@),
                conflict_views(between.conflicts@),
                region_lists(between.regions@),
                file_path@,
                encoding,
            ),
            analysis@.rewritten(ctx@, leaves@),
            analysis@.findings(ctx@, leaves@, file_path@),
            base@,
            ours@,
            theirs@,
        ),
        r matches Some(m) ==> m.agrees_with_itself(
            analysis@.finish(
                ctx@,
                leaves@,
                views(between.merged@),
                conflict_views(between.conflicts@),
                region_lists(between.regions@),
                file_path@,
                encoding,
            ).extra(),
        ),
{
    let ghost p = analysis@.pass(ctx@);
    let ghost f = analysis@.finish(
        ctx@,
        leaves@,
        views(between.merged@),
        conflict_views(between.conflicts@),
        region_lists(between.regions@),
        file_path@,
        encoding,
    );
    let mut resolved = resolve_all(analysis, ctx, &leaves.rungs);
    proof {
        assert(p.wf(resolved_views(resolved@)));
        assert(p == crate::v2::bind::pass_of(
            analysis.matching.arena@,
            analysis.matching.triples@,
            analysis.cells@,
            ctx@,
        ));
    }
    let rewritten: u128 = bind_names(
        &analysis.matching.arena,
        &analysis.matching.triples,
        &analysis.cells,
        &mut resolved,
        ctx,
    );
    if rewritten > usize::MAX as u128 {
        return None;
    }
    let findings = bind_scopes(
        &analysis.matching.arena,
        &analysis.matching.triples,
        &analysis.cells,
        &analysis.matching.relational,
        &leaves.scopes,
        &leaves.attempts,
        &mut resolved,
        file_path,
        ctx,
    );
    proof {
        assert(resolved_views(resolved@) == analysis@.last(ctx@, leaves@));
        assert(resolved_views(resolved@).len() == resolved@.len());
        a_file_s_summary_agrees_with_its_conflicts(analysis@, ctx@, leaves@, f);
        a_file_s_summary_counts_every_entity(f, rewritten as usize);
    }
    let m = finish(
        analysis,
        &resolved,
        rewritten as usize,
        findings,
        between,
        base,
        ours,
        theirs,
        file_path,
        &ctx.marker_format,
        encoding,
    );
    proof {
        assert(conflict_views(m.conflicts@).len() == m.conflicts@.len());
        assert(audit_views(m.audit@).len() == m.audit@.len());
    }
    Some(m)
}

/// Of a whole file too: the summary speaks of a conflict exactly when the result is
/// not clean.
pub proof fn a_file_s_summary_agrees_with_its_conflicts(
    a: AnalysisView,
    ctx: CtxView,
    leaves: LeavesView,
    f: Finish,
)
    requires
        a.pass(ctx).wf(a.first(ctx, leaves)),
        leaves.wf(a.triples.len()),
        f.rs == a.last(ctx, leaves),
        f.rs.len() + f.gap_conflicts.len() < usize::MAX,
    ensures
        f.stats(a.rewritten(ctx, leaves) as usize).entities_conflicted > 0 <==> f.conflicts().len()
            > 0,
{
    let p = a.pass(ctx);
    decisions_are_tallied_as_what_they_are(p, leaves.rungs);
    repaired_agrees(p, a.first(ctx, leaves), a.first(ctx, leaves).len() as int);
    the_passes_keep_the_tallies_honest(
        p,
        a.relational,
        p.after_names(a.first(ctx, leaves)),
        leaves.scopes,
        leaves.attempts,
    );
    the_summary_agrees_with_the_conflicts(f, a.rewritten(ctx, leaves) as usize);
}

/// Every entity is counted on exactly one line of a file's summary; beside them it
/// counts only the conflicts that belong to no entity.
pub proof fn a_file_s_summary_counts_every_entity(f: Finish, rewritten: usize)
    requires
        f.rs.len() == f.triples.len(),
        f.rs.len() + f.gap_conflicts.len() < usize::MAX,
    ensures
        f.stats(rewritten).counted() == audits_of(f.arena, f.triples, f.rs).len() + f.extra(),
{
    let n = f.rs.len() as int;
    the_summary_counts_every_decision_once(f.rs, n);
    summary_bounds(f.rs, n);
}

/// Where no conflict stands between the entities or is over their order, every entity
/// is counted on exactly one line of the summary and nothing else is.
pub proof fn a_file_without_loose_conflicts_counts_its_entities(f: Finish, rewritten: usize)
    requires
        f.rs.len() == f.triples.len(),
        f.rs.len() < usize::MAX,
        f.gap_conflicts.len() == 0,
        forall|i: int|
            0 <= i < f.conflicts().len() ==> (#[trigger] f.conflicts()[i]).entity_type
                != "entity-order"@,
    ensures
        f.stats(rewritten).counted() == audits_of(f.arena, f.triples, f.rs).len(),
{
    a_file_s_summary_counts_every_entity(f, rewritten);
    if f.layout().contradicts() {
        assert(f.conflicts().last() == order_conflict_of(f.layout()));
        assert(f.conflicts()[f.conflicts().len() - 1].entity_type == "entity-order"@);
    }
}


/// How many of the decisions the property holds of.
pub open spec fn how_many(rs: Seq<ResolvedView>, p: spec_fn(ResolvedView) -> bool) -> nat {
    rs.filter(p).len()
}

proof fn one_more_decision(rs: Seq<ResolvedView>, p: spec_fn(ResolvedView) -> bool)
    requires
        rs.len() > 0,
    ensures
        how_many(rs, p) == how_many(rs.drop_last(), p) + if p(rs.last()) {
            1nat
        } else {
            0nat
        },
{
    reveal(Seq::filter);
}

/// Every line of a summary counts the decisions that it is named after, and the two
/// buckets those whose body a line merge, or a merge inside the entity, put together.
#[verifier::spinoff_prover]
#[verifier::rlimit(60)]
pub proof fn a_summary_counts_each_kind_of_decision(rs: Seq<ResolvedView>)
    requires
        rs.len() <= usize::MAX,
    ensures
        ({
            let s = summary(rs, rs.len() as int);
            &&& s.entities_unchanged == how_many(rs, |r: ResolvedView| r.tally is Unchanged)
            &&& s.entities_ours_only == how_many(rs, |r: ResolvedView| r.tally is OursOnly)
            &&& s.entities_theirs_only == how_many(rs, |r: ResolvedView| r.tally is TheirsOnly)
            &&& s.entities_both_changed_merged == how_many(
                rs,
                |r: ResolvedView| r.tally is BothMerged,
            )
            &&& s.entities_added_ours == how_many(rs, |r: ResolvedView| r.tally is AddedOurs)
            &&& s.entities_added_theirs == how_many(rs, |r: ResolvedView| r.tally is AddedTheirs)
            &&& s.entities_deleted == how_many(rs, |r: ResolvedView| r.tally is Deleted)
            &&& s.entities_conflicted == how_many(rs, |r: ResolvedView| r.tally is Conflicted)
            &&& s.resolved_via_diffy == how_many(
                rs,
                |r: ResolvedView| r.strategy is DiffyMerged || r.strategy is DecoratorMerged,
            )
            &&& s.resolved_via_inner_merge == how_many(
                rs,
                |r: ResolvedView| r.strategy is InnerMerged || r.strategy is StatementMerged,
            )
        }),
    decreases rs.len(),
{
    let n = rs.len() as int;
    if n > 0 {
        let front = rs.drop_last();
        a_summary_counts_each_kind_of_decision(front);
        summary_of_a_front(rs, n - 1);
        summary_bounds(rs, n - 1);
        one_more_decision(rs, |r: ResolvedView| r.tally is Unchanged);
        one_more_decision(rs, |r: ResolvedView| r.tally is OursOnly);
        one_more_decision(rs, |r: ResolvedView| r.tally is TheirsOnly);
        one_more_decision(rs, |r: ResolvedView| r.tally is BothMerged);
        one_more_decision(rs, |r: ResolvedView| r.tally is AddedOurs);
        one_more_decision(rs, |r: ResolvedView| r.tally is AddedTheirs);
        one_more_decision(rs, |r: ResolvedView| r.tally is Deleted);
        one_more_decision(rs, |r: ResolvedView| r.tally is Conflicted);
        one_more_decision(
            rs,
            |r: ResolvedView| r.strategy is DiffyMerged || r.strategy is DecoratorMerged,
        );
        one_more_decision(
            rs,
            |r: ResolvedView| r.strategy is InnerMerged || r.strategy is StatementMerged,
        );
    } else {
        reveal(Seq::filter);
    }
}

proof fn summary_of_a_front(rs: Seq<ResolvedView>, k: int)
    requires
        0 <= k < rs.len(),
    ensures
        summary(rs, k) == summary(rs.drop_last(), k),
    decreases k,
{
    if k > 0 {
        summary_of_a_front(rs, k - 1);
    }
}


/// A file is merged by its entities exactly where it can be: there is a grammar, base is
/// not blank where both sides are not, base has entities unless it is blank, a side has
/// entities or is blank, and no version repeats a name too often. Which side is ours does
/// not matter.
pub proof fn a_file_is_taken_where_it_can_be_merged(
    has_grammar: bool,
    base: VersionFacts,
    ours: VersionFacts,
    theirs: VersionFacts,
)
    ensures
        unsupported(has_grammar, base, ours, theirs) is None <==> {
            &&& has_grammar
            &&& base.is_blank ==> ours.is_blank || theirs.is_blank
            &&& base.has_entities || base.is_blank
            &&& ours.has_entities || ours.is_blank || theirs.has_entities || theirs.is_blank
            &&& !base.has_excessive_duplicates
            &&& !ours.has_excessive_duplicates
            &&& !theirs.has_excessive_duplicates
        },
        unsupported(has_grammar, base, theirs, ours) == unsupported(
            has_grammar,
            base,
            ours,
            theirs,
        ),
        unsupported(has_grammar, base, ours, theirs) is Some ==> {
            let u = unsupported(has_grammar, base, ours, theirs)->0;
            &&& u is NoGrammar <==> !has_grammar
            &&& u is BothCreated ==> base.is_blank && !ours.is_blank && !theirs.is_blank
            &&& u is AmbiguousIdentity ==> base.has_excessive_duplicates
                || ours.has_excessive_duplicates || theirs.has_excessive_duplicates
        },
{
}

proof fn conflicts_upto_hold(rs: Seq<ResolvedView>, k: int, i: int)
    requires
        0 <= i < k <= rs.len(),
        rs[i].disposition is Conflict,
    ensures
        conflicts_upto(rs, k).contains(rs[i].disposition->Conflict_conflict),
    decreases k,
{
    let all = conflicts_upto(rs, k);
    let c = rs[i].disposition->Conflict_conflict;
    if i == k - 1 {
        assert(all.last() == c);
        assert(all[all.len() - 1] == c);
    } else {
        conflicts_upto_hold(rs, k - 1, i);
        let front = conflicts_upto(rs, k - 1);
        let j = choose|j: int| 0 <= j < front.len() && front[j] == c;
        assert(all[j] == c);
    }
}

proof fn conflicts_upto_are_decisions(rs: Seq<ResolvedView>, k: int, c: EntityConflictView)
    requires
        0 <= k <= rs.len(),
        conflicts_upto(rs, k).contains(c),
    ensures
        exists|i: int|
            0 <= i < k && (#[trigger] rs[i]).disposition is Conflict
                && rs[i].disposition->Conflict_conflict == c,
    decreases k,
{
    let all = conflicts_upto(rs, k);
    let j = choose|j: int| 0 <= j < all.len() && all[j] == c;
    if rs[k - 1].disposition is Conflict && rs[k - 1].disposition->Conflict_conflict == c {
        assert(rs[k - 1].disposition is Conflict);
    } else {
        let front = conflicts_upto(rs, k - 1);
        assert(front[j] == c);
        conflicts_upto_are_decisions(rs, k - 1, c);
        let i = choose|i: int|
            0 <= i < k - 1 && (#[trigger] rs[i]).disposition is Conflict
                && rs[i].disposition->Conflict_conflict == c;
        assert(rs[i].disposition is Conflict);
    }
}

/// The conflicts of a result are those of its decisions, those between the entities, and
/// the one over the order of definitions where the sides contradict each other there.
pub proof fn a_result_reports_every_conflict(f: Finish, c: EntityConflictView)
    ensures
        f.conflicts().contains(c) <==> {
            ||| exists|i: int|
                0 <= i < f.rs.len() && (#[trigger] f.rs[i]).disposition is Conflict
                    && f.rs[i].disposition->Conflict_conflict == c
            ||| f.gap_conflicts.contains(c)
            ||| f.layout().contradicts() && c == order_conflict_of(f.layout())
        },
{
    let n = f.rs.len() as int;
    let own = conflicts_upto(f.rs, n);
    let more = own + f.gap_conflicts;
    let all = f.conflicts();
    if own.contains(c) {
        conflicts_upto_are_decisions(f.rs, n, c);
        let j = choose|j: int| 0 <= j < own.len() && own[j] == c;
        assert(all[j] == c);
    }
    if exists|i: int|
        0 <= i < f.rs.len() && (#[trigger] f.rs[i]).disposition is Conflict
            && f.rs[i].disposition->Conflict_conflict == c {
        let i = choose|i: int|
            0 <= i < f.rs.len() && (#[trigger] f.rs[i]).disposition is Conflict
                && f.rs[i].disposition->Conflict_conflict == c;
        conflicts_upto_hold(f.rs, n, i);
    }
    if f.gap_conflicts.contains(c) {
        let j = choose|j: int| 0 <= j < f.gap_conflicts.len() && f.gap_conflicts[j] == c;
        assert(all[own.len() + j] == c);
    }
    if f.layout().contradicts() {
        assert(all[more.len() as int] == order_conflict_of(f.layout()));
    }
    if all.contains(c) {
        let j = choose|j: int| 0 <= j < all.len() && all[j] == c;
        if j < own.len() {
            assert(own[j] == c);
        } else if j < more.len() {
            assert(f.gap_conflicts[j - own.len()] == c);
        }
    }
}

} // verus!
