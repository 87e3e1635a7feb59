//! One file, from its three texts to the merged one.

use vstd::prelude::*;
use crate::conflict::{EntityConflict, MarkerFormat};
use crate::entity::{semantic_views, SemanticEntity, SemanticView};
use crate::grammar::{can_be_read, entities_in, has_grammar, parse, plugin_for, structural};
use crate::merge::{Guards, MergeResult};
use crate::order::views;
use crate::region::{FileRegion, MergedGap};
use crate::text::{chars_of, trim, trimmed};
use crate::v2::encoding::{normalize_encoding, normalized, Encoding};
use crate::v2::match_phase::{raw_views, RawEntity, RawView};
use crate::v2::pipeline::{
    analysis_of, analyze, check_supported, conflict_views, fill_line_merges, indent_sensitive,
    merge_analysis, raws, raws_of, separator_for, unsupported, Analysis, AnalysisView, Between,
    Leaves, Unsupported, VersionFacts,
};
use crate::v2::render::region_lists;
use crate::v2::resolve::{CtxView, ResolveCtx};
use crate::v2::types::{entity_separator, has_extension};

verus! {

broadcast use vstd::string::group_string_axioms;

/// What a reader of the language says of one version: which of the parsed entities
/// stand at the top level, the regions that the text falls into, and whether too many
/// of those entities share a name.
#[derive(Debug)]
pub struct Cut {
    pub top: Vec<usize>,
    pub regions: Vec<FileRegion>,
    pub crowded: bool,
}

/// The entities at the first `k` places; a place where there is none is passed over.
pub open spec fn picked(es: Seq<SemanticView>, places: Seq<usize>, k: int) -> Seq<SemanticView>
    decreases k,
{
    if k <= 0 {
        Seq::empty()
    } else if places[k - 1] < es.len() {
        picked(es, places, k - 1).push(es[places[k - 1] as int])
    } else {
        picked(es, places, k - 1)
    }
}

fn pick(es: &Vec<SemanticEntity>, places: &Vec<usize>) -> (r: Vec<SemanticEntity>)
    ensures
        semantic_views(r@) == picked(semantic_views(es@), places@, places@.len() as int),
        r@.len() <= places@.len(),
{
    let ghost all = semantic_views(es@);
    let mut out: Vec<SemanticEntity> = Vec::new();
    let mut k: usize = 0;
    proof {
        assert(semantic_views(out@) =~= Seq::empty());
    }
    while k < places.len()
        invariant
            k <= places@.len(),
            all == semantic_views(es@),
            out@.len() <= k,
            semantic_views(out@) == picked(all, places@, k as int),
        decreases places@.len() - k,
    {
        let at: usize = places[k];
        if at < es.len() {
            let ghost held = semantic_views(out@);
            let e = es[at].copy();
            let ghost ev = e@;
            out.push(e);
            proof {
                assert(all[at as int] == es@[at as int]@);
                assert(semantic_views(out@) =~= held.push(ev));
            }
        }
        k = k + 1;
    }
    out
}

/// The entities of one version that are merged: those at the top level.
pub open spec fn top_of(content: Seq<char>, path: Seq<char>, cut: &Cut) -> Seq<SemanticView> {
    match entities_in(content, path) {
        Some(es) => picked(es, cut.top@, cut.top@.len() as int),
        None => Seq::empty(),
    }
}

/// The entities of one version as the pipeline reads them.
pub open spec fn version_of(content: Seq<char>, path: Seq<char>, cut: &Cut) -> Seq<RawView> {
    raws_of(top_of(content, path, cut), views(cut.regions@), separator_for(path))
}

/// Read one version, with the text of the regions, which is the file's own and holds
/// the comments that lead an entity, as the text of its entities. `None` where there
/// is no grammar for the file or its parser does not take the text.
pub fn read_version(content: &str, path: &str, cut: &Cut) -> (r: Option<Vec<RawEntity>>)
    ensures
        r is Some <==> can_be_read(content@, path@),
        r matches Some(v) ==> raw_views(v@) == version_of(content@, path@, cut) && v@.len()
            <= cut.top@.len(),
{
    match parse(content, path) {
        None => None,
        Some(es) => {
            let top = pick(&es, &cut.top);
            let separator = entity_separator(path);
            let v = raws(&top, &cut.regions, separator);
            proof {
                assert(crate::conflict::opt_str(separator) == separator_for(path@));
                assert(raw_views(v@).len() == v@.len());
                assert(semantic_views(top@).len() == top@.len());
            }
            Some(v)
        },
    }
}

/// Can all three versions be read?
pub open spec fn all_read(
    base: Seq<char>,
    ours: Seq<char>,
    theirs: Seq<char>,
    path: Seq<char>,
) -> bool {
    can_be_read(normalized(base), path) && can_be_read(normalized(ours), path) && can_be_read(
        normalized(theirs),
        path,
    )
}

/// The three versions of a file, matched and classified.
pub open spec fn analysis_for(
    base: Seq<char>,
    ours: Seq<char>,
    theirs: Seq<char>,
    path: Seq<char>,
    b: &Cut,
    o: &Cut,
    t: &Cut,
) -> AnalysisView {
    analysis_of(
        version_of(normalized(base), path, b),
        version_of(normalized(ours), path, o),
        version_of(normalized(theirs), path, t),
    )
}

/// Match and classify the three versions of a file, and stop there. `None` where
/// a version cannot be read.
pub fn analyze_default(
    base: &str,
    ours: &str,
    theirs: &str,
    file_path: &str,
    b: &Cut,
    o: &Cut,
    t: &Cut,
) -> (r: Option<Analysis>)
    requires
        b.top@.len() + o.top@.len() + t.top@.len() <= u32::MAX,
    ensures
        r is Some <==> all_read(base@, ours@, theirs@, file_path@),
        r matches Some(a) ==> a.wf() && a@ == analysis_for(
            base@,
            ours@,
            theirs@,
            file_path@,
            b,
            o,
            t,
        ),
{
    let base = normalize_encoding(base);
    let ours = normalize_encoding(ours);
    let theirs = normalize_encoding(theirs);
    match (
        read_version(base.as_str(), file_path, b),
        read_version(ours.as_str(), file_path, o),
        read_version(theirs.as_str(), file_path, t),
    ) {
        (Some(x), Some(y), Some(z)) => Some(analyze(x, y, z)),
        _ => None,
    }
}

/// What one version shows: whether its text is blank, whether it has entities, and
/// whether too many of them share a name.
pub open spec fn facts_for(content: Seq<char>, path: Seq<char>, cut: &Cut) -> VersionFacts {
    VersionFacts {
        is_blank: trim(content).len() == 0,
        has_entities: top_of(content, path, cut).len() > 0,
        has_excessive_duplicates: cut.crowded,
    }
}

fn facts_of(content: &str, entities: usize, cut: &Cut) -> (r: VersionFacts)
    ensures
        r.is_blank == (trim(content@).len() == 0),
        r.has_entities == (entities > 0),
        r.has_excessive_duplicates == cut.crowded,
{
    VersionFacts {
        is_blank: is_blank(content),
        has_entities: entities > 0,
        has_excessive_duplicates: cut.crowded,
    }
}

/// How a file's decisions are reached and its conflicts are written.
pub open spec fn ctx_for(path: Seq<char>, marker_format: MarkerFormat, guards: Guards) -> CtxView {
    CtxView {
        marker_format: marker_format@,
        indent_sensitive: has_extension(path, seq![".py"@, ".yaml"@, ".yml"@]),
        guards: guards@,
    }
}

/// Did both sides create the file?
pub open spec fn both_created(base: Seq<char>, ours: Seq<char>, theirs: Seq<char>) -> bool {
    trim(normalized(base)).len() == 0 && trim(normalized(ours)).len() > 0 && trim(
        normalized(theirs),
    ).len() > 0
}

/// Why the file is handed back, if it is. A version that cannot be read has no grammar;
/// that is found out only where it is read.
pub open spec fn refusal_of(
    base: Seq<char>,
    ours: Seq<char>,
    theirs: Seq<char>,
    path: Seq<char>,
    b: &Cut,
    o: &Cut,
    t: &Cut,
) -> Option<Unsupported> {
    if !structural(plugin_for(path)) {
        Some(Unsupported::NoGrammar)
    } else if both_created(base, ours, theirs) {
        Some(Unsupported::BothCreated)
    } else if !all_read(base, ours, theirs, path) {
        Some(Unsupported::NoGrammar)
    } else {
        unsupported(
            true,
            facts_for(normalized(base), path, b),
            facts_for(normalized(ours), path, o),
            facts_for(normalized(theirs), path, t),
        )
    }
}

fn is_blank(content: &str) -> (r: bool)
    ensures
        r == (trim(content@).len() == 0),
{
    let c = chars_of(content);
    trimmed(c.as_slice()).len() == 0
}

/// Merge one file by its entities. An error says why it has to be handed back to the
/// line level.
///
/// `b`, `o` and `t` say how the normalized texts fall apart, `leaves` what the finer
/// merges answer about the triples of [`analyze_default`] (the line merge in this process
/// is asked here, whatever they say of it), and `gaps` and
/// `gap_conflicts` what was merged between the entities. `None` where the answers are
/// not one for each triple, or the counts of the summary do not fit.
pub fn merge_file(
    base: &str,
    ours: &str,
    theirs: &str,
    file_path: &str,
    b: Cut,
    o: Cut,
    t: Cut,
    leaves: Leaves,
    gaps: Vec<MergedGap>,
    gap_conflicts: Vec<EntityConflict>,
    marker_format: MarkerFormat,
    guards: Guards,
) -> (r: Option<Result<MergeResult, Unsupported>>)
    requires
        b.top@.len() + o.top@.len() + t.top@.len() <= u32::MAX,
    ensures
        ({
            let a = analysis_for(base@, ours@, theirs@, file_path@, &b, &o, &t);
            let ctx = ctx_for(file_path@, marker_format, guards);
            let asked = a.with_line_merges(leaves@);
            match refusal_of(base@, ours@, theirs@, file_path@, &b, &o, &t) {
                Some(u) => r == Some(Err::<MergeResult, Unsupported>(u)),
                None => {
                    &&& r is Some <==> leaves@.wf(a.triples.len()) && a.triples.len()
                        + gap_conflicts@.len() < usize::MAX && a.rewritten(ctx, asked)
                        <= usize::MAX
                    &&& r matches Some(done) ==> done matches Ok(m) && {
                        let f = a.finish(
                            ctx,
                            asked,
                            views(gaps@),
                            conflict_views(gap_conflicts@),
                            region_lists(seq![b.regions, o.regions, t.regions]),
                            file_path@,
                            Encoding::agreed(base@, ours@, theirs@),
                        );
                        &&& m.reads_off(
                            f,
                            a.rewritten(ctx, asked),
                            a.findings(ctx, asked, file_path@),
                            normalized(base@),
                            normalized(ours@),
                            normalized(theirs@),
                        )
                        &&& m.agrees_with_itself(f.extra())
                    }
                },
            }
        }),
{
    let encoding = Encoding::of(base, ours, theirs);
    let base_text = normalize_encoding(base);
    let ours_text = normalize_encoding(ours);
    let theirs_text = normalize_encoding(theirs);
    if !has_grammar(file_path) {
        return Some(Err(Unsupported::NoGrammar));
    }
    if is_blank(base_text.as_str()) && !is_blank(ours_text.as_str()) && !is_blank(
        theirs_text.as_str(),
    ) {
        return Some(Err(Unsupported::BothCreated));
    }
    let (x, y, z) = match (
        read_version(base_text.as_str(), file_path, &b),
        read_version(ours_text.as_str(), file_path, &o),
        read_version(theirs_text.as_str(), file_path, &t),
    ) {
        (Some(x), Some(y), Some(z)) => (x, y, z),
        _ => {
            return Some(Err(Unsupported::NoGrammar));
        },
    };
    proof {
        assert(raw_views(x@).len() == x@.len());
        assert(raw_views(y@).len() == y@.len());
        assert(raw_views(z@).len() == z@.len());
    }
    let supported = check_supported(
        true,
        facts_of(base_text.as_str(), x.len(), &b),
        facts_of(ours_text.as_str(), y.len(), &o),
        facts_of(theirs_text.as_str(), z.len(), &t),
    );
    match supported {
        Err(u) => {
            return Some(Err(u));
        },
        Ok(_) => {},
    }
    let analysis = analyze(x, y, z);
    let n: usize = analysis.len();
    if leaves.rungs.len() != n || leaves.scopes.len() != n || leaves.attempts.len() != n {
        return None;
    }
    if gap_conflicts.len() >= usize::MAX - n {
        return None;
    }
    let ctx = ResolveCtx {
        marker_format,
        indent_sensitive: indent_sensitive(file_path),
        guards,
    };
    let between = Between {
        merged: gaps,
        conflicts: gap_conflicts,
        regions: vec![b.regions, o.regions, t.regions],
    };
    proof {
        assert(between.regions@ =~= seq![b.regions, o.regions, t.regions]);
    }
    let ghost given = leaves@;
    let full = Leaves {
        rungs: fill_line_merges(&analysis, leaves.rungs),
        scopes: leaves.scopes,
        attempts: leaves.attempts,
    };
    proof {
        assert(full@.rungs =~= analysis@.with_line_merges(given).rungs);
    }
    match merge_analysis(
        &analysis,
        &ctx,
        &full,
        between,
        base_text.as_str(),
        ours_text.as_str(),
        theirs_text.as_str(),
        file_path,
        encoding,
    ) {
        Some(m) => Some(Ok(m)),
        None => None,
    }
}


/// A file is merged by its entities exactly where that can be done, whichever side is
/// ours: there is a grammar and it reads all three versions, not both sides created the
/// file, base has entities unless it is blank, a side has entities or is blank, and no
/// version has too many entities of one name. Where both sides created the file, that is
/// the reason given, whatever it holds.
pub proof fn a_file_is_handed_back_for_a_reason(
    base: Seq<char>,
    ours: Seq<char>,
    theirs: Seq<char>,
    path: Seq<char>,
    b: &Cut,
    o: &Cut,
    t: &Cut,
)
    ensures
        ({
            let r = refusal_of(base, ours, theirs, path, b, o, t);
            let grammar = structural(plugin_for(path));
            let blank = |s: Seq<char>| trim(normalized(s)).len() == 0;
            let has = |s: Seq<char>, c: &Cut| top_of(normalized(s), path, c).len() > 0;
            &&& r is None <==> {
                &&& grammar
                &&& can_be_read(normalized(base), path)
                &&& can_be_read(normalized(ours), path)
                &&& can_be_read(normalized(theirs), path)
                &&& blank(base) ==> blank(ours) || blank(theirs)
                &&& has(base, b) || blank(base)
                &&& has(ours, o) || blank(ours) || has(theirs, t) || blank(theirs)
                &&& !b.crowded && !o.crowded && !t.crowded
            }
            &&& grammar ==> (r == Some(Unsupported::BothCreated) <==> blank(base) && !blank(ours)
                && !blank(theirs))
            &&& r == refusal_of(base, theirs, ours, path, b, t, o)
        }),
{
}

proof fn picked_hold(es: Seq<SemanticView>, places: Seq<usize>, n: int, k: int)
    requires
        0 <= k < n <= places.len(),
        places[k] < es.len(),
    ensures
        picked(es, places, n).contains(es[places[k] as int]),
    decreases n,
{
    let front = picked(es, places, n - 1);
    let all = picked(es, places, n);
    let e = es[places[k] as int];
    if k == n - 1 {
        assert(all[front.len() as int] == e);
    } else {
        picked_hold(es, places, n - 1, k);
        let i = choose|i: int| 0 <= i < front.len() && front[i] == e;
        assert(all[i] == e);
    }
}

proof fn picked_were_there(es: Seq<SemanticView>, places: Seq<usize>, n: int, i: int)
    requires
        0 <= n <= places.len(),
        0 <= i < picked(es, places, n).len(),
    ensures
        exists|k: int|
            0 <= k < n && #[trigger] places[k] < es.len() && es[places[k] as int] == picked(
                es,
                places,
                n,
            )[i],
    decreases n,
{
    let front = picked(es, places, n - 1);
    if i < front.len() {
        picked_were_there(es, places, n - 1, i);
        assert(picked(es, places, n)[i] == front[i]);
    } else {
        assert(places[n - 1] < es.len());
    }
}

/// What is merged of a version is what its grammar read at the top level: every entity
/// at such a place, and no other.
pub proof fn a_version_holds_what_stands_at_the_top(
    content: Seq<char>,
    path: Seq<char>,
    cut: &Cut,
    e: SemanticView,
)
    requires
        entities_in(content, path) is Some,
    ensures
        top_of(content, path, cut).contains(e) <==> exists|k: int|
            0 <= k < cut.top@.len() && #[trigger] cut.top@[k] < entities_in(content, path)->0.len()
                && entities_in(content, path)->0[cut.top@[k] as int] == e,
{
    let es = entities_in(content, path)->0;
    let n = cut.top@.len() as int;
    let top = top_of(content, path, cut);
    if top.contains(e) {
        let i = choose|i: int| 0 <= i < top.len() && top[i] == e;
        picked_were_there(es, cut.top@, n, i);
    }
    if exists|k: int|
        0 <= k < n && #[trigger] cut.top@[k] < es.len() && es[cut.top@[k] as int] == e {
        let k = choose|k: int|
            0 <= k < n && #[trigger] cut.top@[k] < es.len() && es[cut.top@[k] as int] == e;
        picked_hold(es, cut.top@, n, k);
    }
}

} // verus!
