//! Bodies that were taken apart: the other side's edit follows its lines, and two
//! extractions of one body are one conflict.

use vstd::prelude::*;
use crate::conflict::{complexity_of, EntityConflict, EntityConflictView};
use crate::merge::{ResolutionStrategy, StrategyView};
use crate::text::{chars_of, join, join_strings, list_has, push_all, push_text, string_of, strs};
use crate::v2::bind::{
    emit_text, home_texts, is_same_texts, over_base, pass_of, put_decision, same_texts, text_at,
    texts_of, with_text, Pass,
};
use crate::v2::locals::{landed, replace_normalized_line};
use crate::v2::relational::{
    all_ok, relation_ok, relational_views, relations_ok, signature, signature_lines, RelationalView,
};
use crate::v2::resolve::{
    conflict_disposition, conflicted, decided, resolved_views, ResolveCtx, Resolved,
    ResolvedView,
};
use crate::v2::types::{
    entity_at, triple_views, Arena, Cell, Disposition, DispositionView, EntityView, Idx,
    Relational, Side, Tally, Triple, TripleView,
};

verus! {

broadcast use vstd::string::group_string_axioms;

// ---------------------------------------------------------------------------
// Looking things up
// ---------------------------------------------------------------------------

/// The last of the first `n` triples with the base entity.
pub open spec fn with_base(triples: Seq<TripleView>, b: Idx, n: int) -> Option<int>
    decreases n,
{
    if n <= 0 {
        None
    } else if triples[n - 1].base == Some(b) {
        Some(n - 1)
    } else {
        with_base(triples, b, n - 1)
    }
}

/// The last of the first `n` triples that holds the entity on one of its sides.
pub open spec fn with_entity(triples: Seq<TripleView>, x: Idx, n: int) -> Option<int>
    decreases n,
{
    if n <= 0 {
        None
    } else if triples[n - 1].ours == Some(x) || triples[n - 1].theirs == Some(x) {
        Some(n - 1)
    } else {
        with_entity(triples, x, n - 1)
    }
}

/// Those of the first `n` texts that the other list lacks.
pub open spec fn lacking(a: Seq<Seq<char>>, b: Seq<Seq<char>>, n: int) -> Seq<Seq<char>>
    decreases n,
{
    if n <= 0 {
        Seq::empty()
    } else if b.contains(a[n - 1]) {
        lacking(a, b, n - 1)
    } else {
        lacking(a, b, n - 1).push(a[n - 1])
    }
}

/// Those of the first `n` entities whose signature has the line.
pub open spec fn housing(
    arena: Seq<EntityView>,
    extracted: Seq<Idx>,
    line: Seq<char>,
    n: int,
) -> Seq<Idx>
    decreases n,
{
    if n <= 0 {
        Seq::empty()
    } else if signature(entity_at(arena, extracted[n - 1]).content).contains(line) {
        housing(arena, extracted, line, n - 1).push(extracted[n - 1])
    } else {
        housing(arena, extracted, line, n - 1)
    }
}

fn find_with_base(triples: &Vec<Triple>, b: Idx) -> (r: Option<usize>)
    ensures
        match r {
            Some(i) => with_base(triple_views(triples@), b, triples@.len() as int) == Some(i as int)
                && i < triples@.len() && triples@[i as int]@.base == Some(b),
            None => with_base(triple_views(triples@), b, triples@.len() as int) is None,
        },
{
    let ghost tv = triple_views(triples@);
    let mut n: usize = triples.len();
    while n > 0
        invariant
            n <= triples@.len(),
            tv == triple_views(triples@),
            with_base(tv, b, n as int) == with_base(tv, b, triples@.len() as int),
        decreases n,
    {
        proof {
            assert(tv[n - 1] == triples@[n - 1]@);
        }
        match triples[n - 1].base_idx() {
            Some(x) => {
                if x == b {
                    return Some(n - 1);
                }
            },
            None => {},
        }
        n = n - 1;
    }
    None
}

fn find_with_entity(triples: &Vec<Triple>, x: Idx) -> (r: Option<usize>)
    ensures
        match r {
            Some(i) => with_entity(triple_views(triples@), x, triples@.len() as int) == Some(
                i as int,
            ) && i < triples@.len(),
            None => with_entity(triple_views(triples@), x, triples@.len() as int) is None,
        },
{
    let ghost tv = triple_views(triples@);
    let mut n: usize = triples.len();
    while n > 0
        invariant
            n <= triples@.len(),
            tv == triple_views(triples@),
            with_entity(tv, x, n as int) == with_entity(tv, x, triples@.len() as int),
        decreases n,
    {
        proof {
            assert(tv[n - 1] == triples@[n - 1]@);
        }
        let o = match triples[n - 1].ours_idx() {
            Some(i) => i == x,
            None => false,
        };
        let t = match triples[n - 1].theirs_idx() {
            Some(i) => i == x,
            None => false,
        };
        if o || t {
            return Some(n - 1);
        }
        n = n - 1;
    }
    None
}

fn find_lacking(a: &Vec<String>, b: &Vec<String>) -> (r: Vec<String>)
    ensures
        strs(r@) == lacking(strs(a@), strs(b@), a@.len() as int),
{
    let ghost av = strs(a@);
    let mut out: Vec<String> = Vec::new();
    let mut n: usize = 0;
    proof {
        assert(strs(out@) =~= Seq::empty());
    }
    while n < a.len()
        invariant
            n <= a@.len(),
            av == strs(a@),
            strs(out@) == lacking(av, strs(b@), n as int),
        decreases a@.len() - n,
    {
        proof {
            assert(av[n as int] == a@[n as int]@);
        }
        if !list_has(b, a[n].as_str()) {
            let ghost held = strs(out@);
            out.push(a[n].clone());
            proof {
                assert(strs(out@) =~= held.push(av[n as int]));
            }
        }
        n = n + 1;
    }
    out
}

fn find_housing(arena: &Arena, extracted: &Vec<Idx>, line: &str) -> (r: Vec<Idx>)
    requires
        all_ok(extracted@, arena@.len()),
    ensures
        r@ == housing(arena@, extracted@, line@, extracted@.len() as int),
{
    let mut out: Vec<Idx> = Vec::new();
    let mut n: usize = 0;
    while n < extracted.len()
        invariant
            n <= extracted@.len(),
            all_ok(extracted@, arena@.len()),
            out@ == housing(arena@, extracted@, line@, n as int),
        decreases extracted@.len() - n,
    {
        let sig = signature_lines(arena.get(extracted[n]).content.as_str());
        if list_has(&sig, line) {
            out.push(extracted[n]);
        }
        n = n + 1;
    }
    out
}

/// The names of the entities.
pub open spec fn home_names(arena: Seq<EntityView>, homes: Seq<Idx>) -> Seq<Seq<char>> {
    homes.map_values(|h: Idx| entity_at(arena, h).key.name)
}

fn names_of(arena: &Arena, homes: &Vec<Idx>) -> (r: Vec<String>)
    requires
        all_ok(homes@, arena@.len()),
    ensures
        strs(r@) == home_names(arena@, homes@),
{
    let mut out: Vec<String> = Vec::new();
    let mut k: usize = 0;
    while k < homes.len()
        invariant
            k <= homes@.len(),
            all_ok(homes@, arena@.len()),
            out@.len() == k,
            forall|m: int|
                0 <= m < k ==> (#[trigger] out@[m])@ == entity_at(arena@, homes@[m]).key.name,
        decreases homes@.len() - k,
    {
        out.push(arena.get(homes[k]).name().to_owned());
        k = k + 1;
    }
    proof {
        assert(strs(out@) =~= home_names(arena@, homes@));
    }
    out
}

// ---------------------------------------------------------------------------
// The other side's edit follows its lines
// ---------------------------------------------------------------------------

/// One extraction: part of the body of `source` left it, on `side`, for entities
/// that the side added.
pub struct Extraction {
    pub source: Idx,
    pub side: Side,
    pub host: Idx,
    pub extracted: Seq<Idx>,
    pub moved: Seq<Seq<char>>,
}

/// The extraction that a fact states, if it states one.
pub open spec fn extraction(r: RelationalView) -> Option<Extraction> {
    match r {
        RelationalView::ExtractedInto { source, side, host, extracted, moved } => Some(
            Extraction { source, side, host, extracted, moved },
        ),
        _ => None,
    }
}

/// Did the side extract from the source, too?
pub open spec fn extracts(rel: Seq<RelationalView>, source: Idx, side: Side) -> bool {
    exists|k: int| 0 <= k < rel.len() && is_extraction(#[trigger] rel[k], source, side)
}

/// Does the fact state an extraction from the source on the side?
pub open spec fn is_extraction(r: RelationalView, source: Idx, side: Side) -> bool {
    extraction(r) matches Some(e) && e.source == source && e.side == side
}

/// The edit of the other side, in signature lines: those that are gone and those
/// that are new.
pub struct LineEdit {
    pub removed: Seq<Seq<char>>,
    pub added: Seq<Seq<char>>,
}

/// The edit from one text to another.
pub open spec fn line_edit(base: Seq<char>, other: Seq<char>) -> LineEdit {
    let b = signature(base);
    let o = signature(other);
    LineEdit { removed: lacking(b, o, b.len() as int), added: lacking(o, b, o.len() as int) }
}

impl LineEdit {
    /// Did the edit touch a line that moved?
    pub open spec fn touches(self, moved: Seq<Seq<char>>) -> bool {
        exists|k: int| 0 <= k < self.removed.len() && moved.contains(#[trigger] self.removed[k])
    }

    /// Did the edit touch nothing but lines that moved, and do the lines correspond
    /// one for one?
    pub open spec fn plain(self, moved: Seq<Seq<char>>) -> bool {
        &&& forall|k: int|
            0 <= k < self.removed.len() ==> moved.contains(#[trigger] self.removed[k])
        &&& self.removed.len() == self.added.len()
    }
}

impl Pass {
    /// The triple of the one extracted entity that has the line, where its text is
    /// emitted.
    pub open spec fn landing(self, rs: Seq<ResolvedView>, e: Extraction, line: Seq<char>) -> Option<
        int,
    > {
        let h = housing(self.arena, e.extracted, line, e.extracted.len() as int);
        if h.len() != 1 {
            None
        } else {
            match with_entity(self.triples, h[0], self.triples.len() as int) {
                Some(i) => if rs[i].disposition is Emit {
                    Some(i)
                } else {
                    None
                },
                None => None,
            }
        }
    }

    /// Does every removed line have one place to land?
    pub open spec fn all_land(self, rs: Seq<ResolvedView>, e: Extraction, edit: LineEdit) -> bool {
        forall|k: int|
            0 <= k < edit.removed.len() ==> self.landing(rs, e, #[trigger] edit.removed[k]) is Some
    }

    /// The decisions after the first `k` lines have landed, each in the place that
    /// `at` found for it.
    pub open spec fn landed_upto(
        self,
        at: Seq<ResolvedView>,
        e: Extraction,
        edit: LineEdit,
        k: int,
    ) -> Seq<ResolvedView>
        decreases k,
    {
        if k <= 0 {
            at
        } else {
            let rs = self.landed_upto(at, e, edit, k - 1);
            let i = self.landing(at, e, edit.removed[k - 1])->0;
            match emit_text(rs[i]) {
                Some(t) => rs.update(
                    i,
                    with_text(rs[i], landed(t, edit.removed[k - 1], edit.added[k - 1])),
                ),
                None => rs,
            }
        }
    }

    /// The name of a conflict that names both locations: the entity, and the
    /// entities that its body moved into.
    pub open spec fn both_places(self, e: Extraction) -> Seq<char> {
        entity_at(self.arena, e.source).key.name + " (body partly extracted into "@ + join(
            home_names(self.arena, e.extracted),
            ", "@,
        ) + ")"@
    }

    /// The conflict where the edit has no single place to land.
    pub open spec fn homeless(self, rs: Seq<ResolvedView>, e: Extraction, i: int) -> ResolvedView {
        match rs[i].disposition {
            DispositionView::Conflict { text, conflict } => conflicted(
                EntityConflictView { entity_name: self.both_places(e), ..conflict },
                self.ctx,
                rs[i].strategy,
            ),
            _ => conflicted(
                EntityConflictView { entity_name: self.both_places(e), ..self.both_modified(i) },
                self.ctx,
                StrategyView::ConflictBothModified,
            ),
        }
    }

    /// The source after its edit has landed elsewhere: it belongs to the extractor
    /// alone.
    pub open spec fn extracted_source(self, e: Extraction) -> ResolvedView {
        decided(
            DispositionView::Emit {
                text: entity_at(self.arena, e.host).content,
                name: entity_at(self.arena, e.host).key.name,
            },
            if e.side is Ours {
                StrategyView::OursOnly
            } else {
                StrategyView::TheirsOnly
            },
            Tally::BothMerged,
        )
    }

    /// The decisions after the other side's edit to one extraction has been landed:
    /// nothing changes where that side extracted too, deleted the source, or did not
    /// touch the lines that left.
    pub open spec fn after_extraction(
        self,
        rel: Seq<RelationalView>,
        rs: Seq<ResolvedView>,
        e: Extraction,
    ) -> Seq<ResolvedView> {
        match with_base(self.triples, e.source, self.triples.len() as int) {
            None => rs,
            Some(i) => match self.triples[i].side(e.side.other()) {
                None => rs,
                Some(x) => {
                    let edit = line_edit(
                        entity_at(self.arena, e.source).content,
                        entity_at(self.arena, x).content,
                    );
                    if extracts(rel, e.source, e.side.other()) || !edit.touches(e.moved) {
                        rs
                    } else if edit.plain(e.moved) && self.all_land(rs, e, edit) {
                        self.landed_upto(rs, e, edit, edit.removed.len() as int).update(
                            i,
                            self.extracted_source(e),
                        )
                    } else {
                        rs.update(i, self.homeless(rs, e, i))
                    }
                },
            },
        }
    }

    /// The decisions after the first `k` facts.
    pub open spec fn landed_facts(
        self,
        rel: Seq<RelationalView>,
        rs: Seq<ResolvedView>,
        k: int,
    ) -> Seq<ResolvedView>
        decreases k,
    {
        if k <= 0 {
            rs
        } else {
            let before = self.landed_facts(rel, rs, k - 1);
            match extraction(rel[k - 1]) {
                Some(e) => self.after_extraction(rel, before, e),
                None => before,
            }
        }
    }

    /// The decisions after every edit to an extracted body has been landed.
    pub open spec fn after_landings(
        self,
        rel: Seq<RelationalView>,
        rs: Seq<ResolvedView>,
    ) -> Seq<ResolvedView> {
        self.landed_facts(rel, rs, rel.len() as int)
    }
}

fn is_extracting(rel: &Vec<Relational>, source: Idx, side: Side) -> (r: bool)
    ensures
        r == extracts(relational_views(rel@), source, side),
{
    let ghost all = relational_views(rel@);
    let mut k: usize = 0;
    while k < rel.len()
        invariant
            k <= rel@.len(),
            all == relational_views(rel@),
            forall|m: int| 0 <= m < k ==> !is_extraction(#[trigger] all[m], source, side),
        decreases rel@.len() - k,
    {
        proof {
            assert(all[k as int] == rel@[k as int]@);
        }
        match &rel[k] {
            Relational::ExtractedInto { source: s, side: d, .. } => {
                if *s == source && *d == side {
                    proof {
                        assert(is_extraction(all[k as int], source, side));
                    }
                    return true;
                }
            },
            _ => {},
        }
        k = k + 1;
    }
    false
}

fn is_touching(removed: &Vec<String>, moved: &Vec<String>) -> (r: bool)
    ensures
        r == (exists|k: int|
            0 <= k < strs(removed@).len() && strs(moved@).contains(#[trigger] strs(removed@)[k])),
{
    let ghost rv = strs(removed@);
    let mut k: usize = 0;
    while k < removed.len()
        invariant
            k <= removed@.len() == rv.len(),
            rv == strs(removed@),
            forall|m: int| 0 <= m < k ==> !strs(moved@).contains(#[trigger] rv[m]),
        decreases removed@.len() - k,
    {
        proof {
            assert(rv[k as int] == removed@[k as int]@);
        }
        if list_has(moved, removed[k].as_str()) {
            return true;
        }
        k = k + 1;
    }
    false
}

fn is_all_moved(removed: &Vec<String>, moved: &Vec<String>) -> (r: bool)
    ensures
        r == (forall|k: int|
            0 <= k < strs(removed@).len() ==> strs(moved@).contains(#[trigger] strs(removed@)[k])),
{
    let ghost rv = strs(removed@);
    let mut k: usize = 0;
    while k < removed.len()
        invariant
            k <= removed@.len() == rv.len(),
            rv == strs(removed@),
            forall|m: int| 0 <= m < k ==> strs(moved@).contains(#[trigger] rv[m]),
        decreases removed@.len() - k,
    {
        proof {
            assert(rv[k as int] == removed@[k as int]@);
        }
        if !list_has(moved, removed[k].as_str()) {
            return false;
        }
        k = k + 1;
    }
    true
}

fn find_landing(
    arena: &Arena,
    triples: &Vec<Triple>,
    resolved: &Vec<Resolved>,
    extracted: &Vec<Idx>,
    line: &str,
    Ghost(p): Ghost<Pass>,
    Ghost(e): Ghost<Extraction>,
) -> (r: Option<usize>)
    requires
        p.arena == arena@,
        p.triples == triple_views(triples@),
        p.wf(resolved_views(resolved@)),
        e.extracted == extracted@,
        all_ok(extracted@, arena@.len()),
    ensures
        match r {
            Some(i) => p.landing(resolved_views(resolved@), e, line@) == Some(i as int) && i
                < triples@.len(),
            None => p.landing(resolved_views(resolved@), e, line@) is None,
        },
{
    let homes = find_housing(arena, extracted, line);
    if homes.len() != 1 {
        return None;
    }
    match find_with_entity(triples, homes[0]) {
        Some(i) => {
            proof {
                assert(resolved_views(resolved@)[i as int] == resolved@[i as int]@);
            }
            match &resolved[i].disposition {
                Disposition::Emit { .. } => Some(i),
                _ => None,
            }
        },
        None => None,
    }
}

/// The places where the removed lines land, or `None` where one of them has none.
fn find_landings(
    arena: &Arena,
    triples: &Vec<Triple>,
    resolved: &Vec<Resolved>,
    extracted: &Vec<Idx>,
    removed: &Vec<String>,
    Ghost(p): Ghost<Pass>,
    Ghost(e): Ghost<Extraction>,
    Ghost(edit): Ghost<LineEdit>,
) -> (r: Option<Vec<usize>>)
    requires
        p.arena == arena@,
        p.triples == triple_views(triples@),
        p.wf(resolved_views(resolved@)),
        e.extracted == extracted@,
        all_ok(extracted@, arena@.len()),
        edit.removed == strs(removed@),
    ensures
        r is Some <==> p.all_land(resolved_views(resolved@), e, edit),
        r matches Some(v) ==> v@.len() == removed@.len() && forall|k: int|
            0 <= k < v@.len() ==> (#[trigger] v@[k]) < triples@.len() && p.landing(
                resolved_views(resolved@),
                e,
                edit.removed[k],
            ) == Some(v@[k] as int),
{
    let ghost rs = resolved_views(resolved@);
    let mut out: Vec<usize> = Vec::new();
    let mut k: usize = 0;
    while k < removed.len()
        invariant
            k <= removed@.len(),
            p.arena == arena@,
            p.triples == triple_views(triples@),
            rs == resolved_views(resolved@),
            p.wf(rs),
            e.extracted == extracted@,
            all_ok(extracted@, arena@.len()),
            edit.removed == strs(removed@),
            out@.len() == k,
            forall|m: int|
                0 <= m < k ==> (#[trigger] out@[m]) < triples@.len() && p.landing(
                    rs,
                    e,
                    edit.removed[m],
                ) == Some(out@[m] as int),
        decreases removed@.len() - k,
    {
        proof {
            assert(edit.removed[k as int] == removed@[k as int]@);
        }
        match find_landing(
            arena,
            triples,
            resolved,
            extracted,
            removed[k].as_str(),
            Ghost(p),
            Ghost(e),
        ) {
            Some(i) => out.push(i),
            None => {
                proof {
                    assert(p.landing(rs, e, edit.removed[k as int]) is None);
                }
                return None;
            },
        }
        k = k + 1;
    }
    proof {
        assert forall|m: int| 0 <= m < edit.removed.len() implies p.landing(
            rs,
            e,
            #[trigger] edit.removed[m],
        ) is Some by {
            assert(out@[m] < triples@.len());
        }
    }
    Some(out)
}

fn land_all(
    resolved: &mut Vec<Resolved>,
    at: &Vec<usize>,
    removed: &Vec<String>,
    added: &Vec<String>,
    Ghost(p): Ghost<Pass>,
    Ghost(e): Ghost<Extraction>,
    Ghost(edit): Ghost<LineEdit>,
)
    requires
        edit.removed == strs(removed@),
        edit.added == strs(added@),
        removed@.len() == added@.len(),
        at@.len() == removed@.len(),
        forall|k: int|
            0 <= k < at@.len() ==> (#[trigger] at@[k]) < old(resolved)@.len() && p.landing(
                resolved_views(old(resolved)@),
                e,
                edit.removed[k],
            ) == Some(at@[k] as int),
    ensures
        resolved_views(final(resolved)@) == p.landed_upto(
            resolved_views(old(resolved)@),
            e,
            edit,
            removed@.len() as int,
        ),
        final(resolved)@.len() == old(resolved)@.len(),
{
    let ghost start = resolved_views(resolved@);
    let mut k: usize = 0;
    while k < removed.len()
        invariant
            edit.removed == strs(removed@),
            edit.added == strs(added@),
            removed@.len() == added@.len(),
            at@.len() == removed@.len(),
            k <= removed@.len(),
            resolved@.len() == start.len(),
            forall|k: int|
                0 <= k < at@.len() ==> (#[trigger] at@[k]) < start.len() && p.landing(
                    start,
                    e,
                    edit.removed[k],
                ) == Some(at@[k] as int),
            resolved_views(resolved@) == p.landed_upto(start, e, edit, k as int),
        decreases removed@.len() - k,
    {
        let i: usize = at[k];
        let ghost now = resolved_views(resolved@);
        proof {
            assert(edit.removed[k as int] == removed@[k as int]@);
            assert(edit.added[k as int] == added@[k as int]@);
            assert(now[i as int] == resolved@[i as int]@);
        }
        let mut landed_text: Option<Disposition> = None;
        match &resolved[i].disposition {
            Disposition::Emit { text, name } => {
                landed_text =
                Some(
                    Disposition::Emit {
                        text: replace_normalized_line(
                            text.as_str(),
                            removed[k].as_str(),
                            added[k].as_str(),
                        ),
                        name: name.clone(),
                    },
                );
            },
            _ => {},
        }
        match landed_text {
            Some(d) => {
                let ghost was = resolved@;
                let ghost dv = d@;
                let slot = &mut resolved[i];
                slot.disposition = d;
                proof {
                    assert(forall|m: int|
                        0 <= m < was.len() && m != i ==> (#[trigger] resolved@[m]) == was[m]);
                    assert(resolved@[i as int]@ == (ResolvedView {
                        disposition: dv,
                        ..was[i as int]@
                    }));
                    assert(resolved_views(resolved@) =~= now.update(
                        i as int,
                        resolved@[i as int]@,
                    ));
                }
            },
            None => {},
        }
        k = k + 1;
    }
}

fn both_places(arena: &Arena, source: Idx, extracted: &Vec<Idx>, Ghost(p): Ghost<Pass>, Ghost(e): Ghost<
    Extraction,
>) -> (r: String)
    requires
        p.arena == arena@,
        e.source == source,
        e.extracted == extracted@,
        source.0 < arena@.len(),
        all_ok(extracted@, arena@.len()),
    ensures
        r@ == p.both_places(e),
{
    let names = names_of(arena, extracted);
    let list = join_strings(&names, ", ");
    let mut out: Vec<char> = Vec::new();
    push_text(&mut out, arena.get(source).name());
    push_text(&mut out, " (body partly extracted into ");
    push_text(&mut out, list.as_str());
    push_text(&mut out, ")");
    proof {
        assert(out@ =~= p.both_places(e));
    }
    string_of(out.as_slice())
}

/// Name both locations in the conflict of the `i`th triple.
fn make_homeless(
    arena: &Arena,
    triples: &Vec<Triple>,
    resolved: &mut Vec<Resolved>,
    i: usize,
    source: Idx,
    extracted: &Vec<Idx>,
    ctx: &ResolveCtx,
    Ghost(p): Ghost<Pass>,
    Ghost(e): Ghost<Extraction>,
)
    requires
        p.arena == arena@,
        p.triples == triple_views(triples@),
        p.ctx == ctx@,
        p.wf(resolved_views(old(resolved)@)),
        i < triples@.len(),
        triples@[i as int]@.base == Some(source),
        e.source == source,
        e.extracted == extracted@,
        source.0 < arena@.len(),
        all_ok(extracted@, arena@.len()),
    ensures
        resolved_views(final(resolved)@) == resolved_views(old(resolved)@).update(
            i as int,
            p.homeless(resolved_views(old(resolved)@), e, i as int),
        ),
        final(resolved)@.len() == old(resolved)@.len(),
{
    let ghost now = resolved_views(resolved@);
    proof {
        assert(p.triples[i as int] == triples@[i as int]@);
        assert(now[i as int] == resolved@[i as int]@);
    }
    let named = both_places(arena, source, extracted, Ghost(p), Ghost(e));
    let known = match &resolved[i].disposition {
        Disposition::Conflict { conflict, .. } => Some(conflict.copy()),
        _ => None,
    };
    match known {
        Some(c) => {
            let conflict = EntityConflict {
                entity_name: named,
                entity_type: c.entity_type,
                kind: c.kind,
                complexity: c.complexity,
                ours_content: c.ours_content,
                theirs_content: c.theirs_content,
                base_content: c.base_content,
            };
            let strategy = resolved[i].strategy.copy();
            put_decision(resolved, i, conflict_disposition(conflict, ctx, strategy));
        },
        None => {
            let ours = text_at(arena, triples[i].ours_idx(), Ghost(p.case(i as int)));
            let theirs = text_at(arena, triples[i].theirs_idx(), Ghost(p.case(i as int)));
            let conflict = over_base(arena, source, named, ours, theirs);
            put_decision(
                resolved,
                i,
                conflict_disposition(conflict, ctx, ResolutionStrategy::ConflictBothModified),
            );
        },
    }
}

/// Land the other side's edit to one extraction.
fn land_extraction(
    arena: &Arena,
    triples: &Vec<Triple>,
    cells: &Vec<Cell>,
    relational: &Vec<Relational>,
    resolved: &mut Vec<Resolved>,
    ctx: &ResolveCtx,
    source: Idx,
    side: Side,
    host: Idx,
    extracted: &Vec<Idx>,
    moved: &Vec<String>,
)
    requires
        pass_of(arena@, triples@, cells@, ctx@).wf(resolved_views(old(resolved)@)),
        source.0 < arena@.len(),
        host.0 < arena@.len(),
        all_ok(extracted@, arena@.len()),
    ensures
        resolved_views(final(resolved)@) == pass_of(
            arena@,
            triples@,
            cells@,
            ctx@,
        ).after_extraction(
            relational_views(relational@),
            resolved_views(old(resolved)@),
            Extraction { source, side, host, extracted: extracted@, moved: strs(moved@) },
        ),
        final(resolved)@.len() == old(resolved)@.len(),
{
    let ghost p = pass_of(arena@, triples@, cells@, ctx@);
    let ghost e = Extraction { source, side, host, extracted: extracted@, moved: strs(moved@) };
    let ghost start = resolved_views(resolved@);
    let i = match find_with_base(triples, source) {
        Some(i) => i,
        None => {
            return ;
        },
    };
    proof {
        assert(p.triples[i as int] == triples@[i as int]@);
    }
    let x = match triples[i].side_idx(side.flip()) {
        Some(x) => x,
        None => {
            return ;
        },
    };
    if is_extracting(relational, source, side.flip()) {
        return ;
    }
    let base_lines = signature_lines(arena.get(source).content.as_str());
    let other_lines = signature_lines(arena.get(x).content.as_str());
    let removed = find_lacking(&base_lines, &other_lines);
    let added = find_lacking(&other_lines, &base_lines);
    let ghost edit = line_edit(entity_at(arena@, source).content, entity_at(arena@, x).content);
    proof {
        assert(strs(base_lines@).len() == base_lines@.len());
        assert(strs(other_lines@).len() == other_lines@.len());
        assert(edit.removed == strs(removed@));
        assert(edit.added == strs(added@));
        assert(strs(removed@).len() == removed@.len());
        assert(strs(added@).len() == added@.len());
    }
    if !is_touching(&removed, moved) {
        return ;
    }
    if is_all_moved(&removed, moved) && removed.len() == added.len() {
        match find_landings(
            arena,
            triples,
            resolved,
            extracted,
            &removed,
            Ghost(p),
            Ghost(e),
            Ghost(edit),
        ) {
            Some(at) => {
                land_all(resolved, &at, &removed, &added, Ghost(p), Ghost(e), Ghost(edit));
                let host_e = arena.get(host);
                let strategy = match side {
                    Side::Ours => ResolutionStrategy::OursOnly,
                    Side::Theirs => ResolutionStrategy::TheirsOnly,
                };
                let r = Resolved::revised(
                    Disposition::Emit {
                        text: host_e.content.clone(),
                        name: host_e.name().to_owned(),
                    },
                    strategy,
                    Tally::BothMerged,
                );
                proof {
                    assert(r@ == p.extracted_source(e));
                }
                put_decision(resolved, i, r);
                return ;
            },
            None => {},
        }
    }
    make_homeless(
        arena,
        triples,
        resolved,
        i,
        source,
        extracted,
        ctx,
        Ghost(p),
        Ghost(e),
    );
}

/// One side took part of a body apart, and the other side edited the very lines
/// that left: the edit is applied where its lines now live, and the source takes
/// the extractor's version. Any ambiguity is a conflict that names both locations.
pub fn extracted_edit_landing(
    arena: &Arena,
    triples: &Vec<Triple>,
    cells: &Vec<Cell>,
    relational: &Vec<Relational>,
    resolved: &mut Vec<Resolved>,
    ctx: &ResolveCtx,
)
    requires
        pass_of(arena@, triples@, cells@, ctx@).wf(resolved_views(old(resolved)@)),
        relations_ok(relational_views(relational@), arena@.len()),
    ensures
        resolved_views(final(resolved)@) == pass_of(
            arena@,
            triples@,
            cells@,
            ctx@,
        ).after_landings(relational_views(relational@), resolved_views(old(resolved)@)),
        final(resolved)@.len() == old(resolved)@.len(),
{
    let ghost p = pass_of(arena@, triples@, cells@, ctx@);
    let ghost rel = relational_views(relational@);
    let ghost start = resolved_views(resolved@);
    let mut k: usize = 0;
    while k < relational.len()
        invariant
            k <= relational@.len() == rel.len(),
            rel == relational_views(relational@),
            relations_ok(rel, arena@.len()),
            p == pass_of(arena@, triples@, cells@, ctx@),
            p.wf(resolved_views(resolved@)),
            resolved@.len() == start.len(),
            resolved_views(resolved@) == p.landed_facts(rel, start, k as int),
        decreases relational@.len() - k,
    {
        proof {
            assert(rel[k as int] == relational@[k as int]@);
            assert(relation_ok(rel[k as int], arena@.len()));
        }
        match &relational[k] {
            Relational::ExtractedInto { source, side, host, extracted, moved } => {
                land_extraction(
                    arena,
                    triples,
                    cells,
                    relational,
                    resolved,
                    ctx,
                    *source,
                    *side,
                    *host,
                    extracted,
                    moved,
                );
            },
            _ => {},
        }
        k = k + 1;
    }
}

// ---------------------------------------------------------------------------
// Two extractions of one body
// ---------------------------------------------------------------------------

/// What a side extracted from the source, among the first `k` facts; the last such
/// fact counts.
pub open spec fn extracted_of(rel: Seq<RelationalView>, source: Idx, side: Side, k: int) -> Option<
    Seq<Idx>,
>
    decreases k,
{
    if k <= 0 {
        None
    } else if is_extraction(rel[k - 1], source, side) {
        Some(extraction(rel[k - 1])->0.extracted)
    } else {
        extracted_of(rel, source, side, k - 1)
    }
}

/// The first `n` texts, each with a line feed where it has none and a blank line
/// behind it.
pub open spec fn stacked(homes: Seq<Seq<char>>, n: int) -> Seq<char>
    decreases n,
{
    if n <= 0 {
        Seq::empty()
    } else {
        let h = homes[n - 1];
        stacked(homes, n - 1) + h + (if h.len() > 0 && h.last() == '\n' {
            Seq::empty()
        } else {
            seq!['\n']
        }) + seq!['\n']
    }
}

/// A side's homes, and behind them its own text.
pub open spec fn with_homes(homes: Seq<Seq<char>>, own: Seq<char>) -> Seq<char> {
    stacked(homes, homes.len() as int) + own
}

/// Two extractions of one body, into different homes.
pub struct Contest {
    pub source: Idx,
    pub ours: Seq<Idx>,
    pub theirs: Seq<Idx>,
}

/// The contest over a source, where both sides extracted from it.
pub open spec fn contest(rel: Seq<RelationalView>, source: Idx) -> Option<Contest> {
    match (
        extracted_of(rel, source, Side::Ours, rel.len() as int),
        extracted_of(rel, source, Side::Theirs, rel.len() as int),
    ) {
        (Some(ours), Some(theirs)) => Some(Contest { source, ours, theirs }),
        _ => None,
    }
}

impl Pass {
    /// The triple of a home that the merge would emit on its own, and that is not
    /// the source's.
    pub open spec fn droppable(self, rs: Seq<ResolvedView>, i: int, h: Idx) -> Option<int> {
        match with_entity(self.triples, h, self.triples.len() as int) {
            Some(j) => if j != i && rs[j].disposition is Emit {
                Some(j)
            } else {
                None
            },
            None => None,
        }
    }

    /// May all of the homes move into the box?
    pub open spec fn all_droppable(self, rs: Seq<ResolvedView>, i: int, homes: Seq<Idx>) -> bool {
        forall|k: int|
            0 <= k < homes.len() ==> self.droppable(rs, i, #[trigger] homes[k]) is Some
    }

    /// The conflict over both extractions: each side's claim is its homes and its own
    /// text.
    pub open spec fn contested_body(self, c: Contest, i: int) -> EntityConflictView {
        let t = self.triples[i];
        let ours = Some(
            with_homes(home_texts(self.arena, c.ours), self.case(i).text(t.ours)),
        );
        let theirs = Some(
            with_homes(home_texts(self.arena, c.theirs), self.case(i).text(t.theirs)),
        );
        EntityConflictView {
            entity_name: entity_at(self.arena, c.source).key.name
                + " (both sides extracted its body — ours into "@ + join(
                home_names(self.arena, c.ours),
                ", "@,
            ) + ", theirs into "@ + join(home_names(self.arena, c.theirs), ", "@) + ")"@,
            complexity: complexity_of(
                Some(entity_at(self.arena, c.source).content),
                ours,
                theirs,
            ),
            ours,
            theirs,
            ..self.both_modified(i)
        }
    }

    /// Is the contest one over a body that already conflicts, whose homes can all
    /// move into the box? Two extractions into the same texts are no contest.
    pub open spec fn contested(self, rs: Seq<ResolvedView>, c: Contest, i: int) -> bool {
        &&& !same_texts(home_texts(self.arena, c.ours), home_texts(self.arena, c.theirs))
        &&& rs[i].disposition is Conflict
        &&& self.all_droppable(rs, i, c.ours)
        &&& self.all_droppable(rs, i, c.theirs)
        &&& self.triples[i].ours is Some
        &&& self.triples[i].theirs is Some
    }

    /// The decisions after the first `k` homes have been dropped, each in the triple
    /// that `at` found for it.
    pub open spec fn dropped_upto(
        self,
        at: Seq<ResolvedView>,
        rs: Seq<ResolvedView>,
        i: int,
        homes: Seq<Idx>,
        k: int,
    ) -> Seq<ResolvedView>
        decreases k,
    {
        if k <= 0 {
            rs
        } else {
            self.dropped_upto(at, rs, i, homes, k - 1).update(
                self.droppable(at, i, homes[k - 1])->0,
                decided(
                    DispositionView::Drop,
                    StrategyView::ConflictBothModified,
                    Tally::Conflicted,
                ),
            )
        }
    }

    /// The decisions after the contest over one source: the homes are inside the box
    /// and no longer stand on their own.
    pub open spec fn after_contest(
        self,
        rel: Seq<RelationalView>,
        rs: Seq<ResolvedView>,
        source: Idx,
    ) -> Seq<ResolvedView> {
        match (
            contest(rel, source),
            with_base(self.triples, source, self.triples.len() as int),
        ) {
            (Some(c), Some(i)) => if self.contested(rs, c, i) {
                self.dropped_upto(
                    rs,
                    rs.update(
                        i,
                        conflicted(
                            self.contested_body(c, i),
                            self.ctx,
                            StrategyView::ConflictBothModified,
                        ),
                    ),
                    i,
                    c.ours + c.theirs,
                    (c.ours + c.theirs).len() as int,
                )
            } else {
                rs
            },
            _ => rs,
        }
    }

    /// The decisions after the contests over the first `n` entities.
    pub open spec fn contests_upto(
        self,
        rel: Seq<RelationalView>,
        rs: Seq<ResolvedView>,
        n: int,
    ) -> Seq<ResolvedView>
        decreases n,
    {
        if n <= 0 {
            rs
        } else {
            self.after_contest(rel, self.contests_upto(rel, rs, n - 1), Idx((n - 1) as u32))
        }
    }

    /// Does the contest over the source put a box around its body?
    pub open spec fn boxes(
        self,
        rel: Seq<RelationalView>,
        rs: Seq<ResolvedView>,
        source: Idx,
        i: int,
    ) -> bool {
        contest(rel, source) matches Some(c) && with_base(
            self.triples,
            source,
            self.triples.len() as int,
        ) == Some(i) && self.contested(rs, c, i)
    }

    /// The triples whose homes moved into a box in the contests over the first `n`
    /// entities. No license may take such a box away: the homes stand nowhere else.
    pub open spec fn boxed_upto(
        self,
        rel: Seq<RelationalView>,
        rs: Seq<ResolvedView>,
        n: int,
    ) -> Seq<bool>
        decreases n,
    {
        if n <= 0 {
            Seq::new(rs.len(), |i: int| false)
        } else {
            let before = self.contests_upto(rel, rs, n - 1);
            let marks = self.boxed_upto(rel, rs, n - 1);
            Seq::new(
                rs.len(),
                |i: int| marks[i] || self.boxes(rel, before, Idx((n - 1) as u32), i),
            )
        }
    }

    /// The triples whose homes moved into a box.
    pub open spec fn boxed(self, rel: Seq<RelationalView>, rs: Seq<ResolvedView>) -> Seq<bool> {
        self.boxed_upto(rel, rs, self.arena.len() as int)
    }

    /// The decisions after all contests.
    pub open spec fn after_contests(
        self,
        rel: Seq<RelationalView>,
        rs: Seq<ResolvedView>,
    ) -> Seq<ResolvedView> {
        self.contests_upto(rel, rs, self.arena.len() as int)
    }
}

fn find_extracted(rel: &Vec<Relational>, source: Idx, side: Side) -> (r: Option<Vec<Idx>>)
    ensures
        match r {
            Some(v) => extracted_of(relational_views(rel@), source, side, rel@.len() as int) == Some(
                v@,
            ),
            None => extracted_of(relational_views(rel@), source, side, rel@.len() as int) is None,
        },
{
    let ghost all = relational_views(rel@);
    let mut k: usize = rel.len();
    while k > 0
        invariant
            k <= rel@.len() == all.len(),
            all == relational_views(rel@),
            extracted_of(all, source, side, k as int) == extracted_of(
                all,
                source,
                side,
                rel@.len() as int,
            ),
        decreases k,
    {
        proof {
            assert(all[k - 1] == rel@[k - 1]@);
        }
        match &rel[k - 1] {
            Relational::ExtractedInto { source: s, side: d, extracted, .. } => {
                if *s == source && *d == side {
                    let mut out: Vec<Idx> = Vec::new();
                    let mut n: usize = 0;
                    while n < extracted.len()
                        invariant
                            n <= extracted@.len(),
                            out@ == extracted@.take(n as int),
                        decreases extracted@.len() - n,
                    {
                        out.push(extracted[n]);
                        n = n + 1;
                        proof {
                            assert(extracted@.take(n as int) =~= extracted@.take(n - 1).push(
                                extracted@[n - 1],
                            ));
                        }
                    }
                    proof {
                        assert(extracted@.take(n as int) =~= extracted@);
                    }
                    return Some(out);
                }
            },
            _ => {},
        }
        k = k - 1;
    }
    None
}

proof fn extracted_are_ok(rel: Seq<RelationalView>, source: Idx, side: Side, n: nat, k: int)
    requires
        relations_ok(rel, n),
        0 <= k <= rel.len(),
    ensures
        extracted_of(rel, source, side, k) matches Some(h) ==> all_ok(h, n),
    decreases k,
{
    if k > 0 {
        extracted_are_ok(rel, source, side, n, k - 1);
        assert(relation_ok(rel[k - 1], n));
    }
}

fn find_droppable(
    triples: &Vec<Triple>,
    resolved: &Vec<Resolved>,
    i: usize,
    homes: &Vec<Idx>,
    Ghost(p): Ghost<Pass>,
) -> (r: Option<Vec<usize>>)
    requires
        p.triples == triple_views(triples@),
        p.wf(resolved_views(resolved@)),
    ensures
        r is Some <==> p.all_droppable(resolved_views(resolved@), i as int, homes@),
        r matches Some(v) ==> v@.len() == homes@.len() && forall|k: int|
            0 <= k < v@.len() ==> (#[trigger] v@[k]) < triples@.len() && p.droppable(
                resolved_views(resolved@),
                i as int,
                homes@[k],
            ) == Some(v@[k] as int),
{
    let ghost rs = resolved_views(resolved@);
    let mut out: Vec<usize> = Vec::new();
    let mut k: usize = 0;
    while k < homes.len()
        invariant
            k <= homes@.len(),
            p.triples == triple_views(triples@),
            rs == resolved_views(resolved@),
            p.wf(rs),
            out@.len() == k,
            forall|m: int|
                0 <= m < k ==> (#[trigger] out@[m]) < triples@.len() && p.droppable(
                    rs,
                    i as int,
                    homes@[m],
                ) == Some(out@[m] as int),
        decreases homes@.len() - k,
    {
        let mut found: Option<usize> = None;
        match find_with_entity(triples, homes[k]) {
            Some(j) => {
                proof {
                    assert(rs[j as int] == resolved@[j as int]@);
                }
                let emits = match &resolved[j].disposition {
                    Disposition::Emit { .. } => true,
                    _ => false,
                };
                if j != i && emits {
                    found = Some(j);
                }
            },
            None => {},
        }
        match found {
            Some(j) => out.push(j),
            None => {
                proof {
                    assert(p.droppable(rs, i as int, homes@[k as int]) is None);
                }
                return None;
            },
        }
        k = k + 1;
    }
    proof {
        assert forall|m: int| 0 <= m < homes@.len() implies p.droppable(
            rs,
            i as int,
            #[trigger] homes@[m],
        ) is Some by {
            assert(out@[m] < triples@.len());
        }
    }
    Some(out)
}

fn stack_homes(homes: &Vec<String>, own: &str) -> (r: String)
    ensures
        r@ == with_homes(strs(homes@), own@),
{
    let ghost all = strs(homes@);
    let mut out: Vec<char> = Vec::new();
    let mut k: usize = 0;
    while k < homes.len()
        invariant
            k <= homes@.len(),
            all == strs(homes@),
            out@ == stacked(all, k as int),
        decreases homes@.len() - k,
    {
        proof {
            assert(all[k as int] == homes@[k as int]@);
        }
        let ghost held = out@;
        let c = chars_of(homes[k].as_str());
        push_all(&mut out, c.as_slice());
        let n: usize = c.len();
        if !(n > 0 && c[n - 1] == '\n') {
            out.push('\n');
        }
        out.push('\n');
        proof {
            assert(out@ =~= stacked(all, k + 1));
        }
        k = k + 1;
    }
    push_text(&mut out, own);
    string_of(out.as_slice())
}

/// The record of the conflict over both extractions.
fn contested_conflict(
    arena: &Arena,
    triple: &Triple,
    source: Idx,
    ours: &Vec<Idx>,
    theirs: &Vec<Idx>,
    Ghost(p): Ghost<Pass>,
    Ghost(i): Ghost<int>,
) -> (r: EntityConflict)
    requires
        p.arena == arena@,
        p.triples[i] == triple@,
        triple@.wf(arena@.len()),
        triple@.base == Some(source),
        triple@.ours is Some,
        triple@.theirs is Some,
        all_ok(ours@, arena@.len()),
        all_ok(theirs@, arena@.len()),
    ensures
        r@ == p.contested_body(Contest { source, ours: ours@, theirs: theirs@ }, i),
{
    let ghost case = p.case(i);
    let ours_own = match triple.ours_idx() {
        Some(x) => arena.get(x).content.as_str(),
        None => "",
    };
    let theirs_own = match triple.theirs_idx() {
        Some(x) => arena.get(x).content.as_str(),
        None => "",
    };
    let ours_claim = stack_homes(&texts_of(arena, ours), ours_own);
    let theirs_claim = stack_homes(&texts_of(arena, theirs), theirs_own);
    let ours_names = join_strings(&names_of(arena, ours), ", ");
    let theirs_names = join_strings(&names_of(arena, theirs), ", ");
    let mut name: Vec<char> = Vec::new();
    push_text(&mut name, arena.get(source).name());
    push_text(&mut name, " (both sides extracted its body — ours into ");
    push_text(&mut name, ours_names.as_str());
    push_text(&mut name, ", theirs into ");
    push_text(&mut name, theirs_names.as_str());
    push_text(&mut name, ")");
    let named = string_of(name.as_slice());
    let r = over_base(arena, source, named, Some(ours_claim), Some(theirs_claim));
    proof {
        let want = p.contested_body(Contest { source, ours: ours@, theirs: theirs@ }, i);
        assert(r@.entity_name =~= want.entity_name);
        assert(r@ == want);
    }
    r
}

/// Settle the contest over one source. Returns the triple whose homes moved into its
/// box, if they did.
fn settle_contest(
    arena: &Arena,
    triples: &Vec<Triple>,
    cells: &Vec<Cell>,
    relational: &Vec<Relational>,
    resolved: &mut Vec<Resolved>,
    ctx: &ResolveCtx,
    source: Idx,
) -> (r: Option<usize>)
    requires
        pass_of(arena@, triples@, cells@, ctx@).wf(resolved_views(old(resolved)@)),
        relations_ok(relational_views(relational@), arena@.len()),
        source.0 < arena@.len(),
    ensures
        resolved_views(final(resolved)@) == pass_of(
            arena@,
            triples@,
            cells@,
            ctx@,
        ).after_contest(
            relational_views(relational@),
            resolved_views(old(resolved)@),
            source,
        ),
        final(resolved)@.len() == old(resolved)@.len(),
        forall|i: int| #[trigger]
            pass_of(arena@, triples@, cells@, ctx@).boxes(
                relational_views(relational@),
                resolved_views(old(resolved)@),
                source,
                i,
            ) <==> r == Some(i as usize) && 0 <= i <= usize::MAX,
        r matches Some(i) ==> i < triples@.len(),
{
    let ghost p = pass_of(arena@, triples@, cells@, ctx@);
    let ghost rel = relational_views(relational@);
    let ghost start = resolved_views(resolved@);
    proof {
        extracted_are_ok(rel, source, Side::Ours, arena@.len(), rel.len() as int);
        extracted_are_ok(rel, source, Side::Theirs, arena@.len(), rel.len() as int);
        assert(rel.len() == relational@.len());
    }
    let (ours, theirs) = match (
        find_extracted(relational, source, Side::Ours),
        find_extracted(relational, source, Side::Theirs),
    ) {
        (Some(o), Some(t)) => (o, t),
        _ => {
            return None;
        },
    };
    let i = match find_with_base(triples, source) {
        Some(i) => i,
        None => {
            return None;
        },
    };
    let ghost c = Contest { source, ours: ours@, theirs: theirs@ };
    proof {
        assert(p.triples[i as int] == triples@[i as int]@);
        assert(start[i as int] == resolved@[i as int]@);
        assert(contest(rel, source) == Some(c));
    }
    if !resolved[i].disposition.is_conflict() {
        return None;
    }
    if triples[i].ours_idx().is_none() || triples[i].theirs_idx().is_none() {
        return None;
    }
    if is_same_texts(&texts_of(arena, &ours), &texts_of(arena, &theirs)) {
        return None;
    }
    let drop_ours = match find_droppable(triples, resolved, i, &ours, Ghost(p)) {
        Some(v) => v,
        None => {
            return None;
        },
    };
    let drop_theirs = match find_droppable(triples, resolved, i, &theirs, Ghost(p)) {
        Some(v) => v,
        None => {
            return None;
        },
    };
    let conflict = contested_conflict(
        arena,
        &triples[i],
        source,
        &ours,
        &theirs,
        Ghost(p),
        Ghost(i as int),
    );
    put_decision(
        resolved,
        i,
        conflict_disposition(conflict, ctx, ResolutionStrategy::ConflictBothModified),
    );
    let ghost boxed = resolved_views(resolved@);
    let ghost homes = c.ours + c.theirs;
    let mut k: usize = 0;
    let n_ours: usize = drop_ours.len();
    let n_theirs: usize = drop_theirs.len();
    while k < n_ours
        invariant
            resolved@.len() == start.len() == triples@.len(),
            n_ours == drop_ours@.len() == c.ours.len(),
            k <= n_ours,
            homes == c.ours + c.theirs,
            forall|k: int|
                0 <= k < drop_ours@.len() ==> (#[trigger] drop_ours@[k]) < triples@.len()
                    && p.droppable(start, i as int, c.ours[k]) == Some(drop_ours@[k] as int),
            resolved_views(resolved@) == p.dropped_upto(start, boxed, i as int, homes, k as int),
        decreases n_ours - k,
    {
        proof {
            assert(homes[k as int] == c.ours[k as int]);
        }
        put_decision(
            resolved,
            drop_ours[k],
            Resolved::revised(
                Disposition::Drop,
                ResolutionStrategy::ConflictBothModified,
                Tally::Conflicted,
            ),
        );
        k = k + 1;
    }
    let mut m: usize = 0;
    while m < n_theirs
        invariant
            resolved@.len() == start.len() == triples@.len(),
            n_ours == c.ours.len(),
            n_theirs == drop_theirs@.len() == c.theirs.len(),
            m <= n_theirs,
            homes == c.ours + c.theirs,
            forall|k: int|
                0 <= k < drop_theirs@.len() ==> (#[trigger] drop_theirs@[k]) < triples@.len()
                    && p.droppable(start, i as int, c.theirs[k]) == Some(drop_theirs@[k] as int),
            resolved_views(resolved@) == p.dropped_upto(
                start,
                boxed,
                i as int,
                homes,
                n_ours + m,
            ),
        decreases n_theirs - m,
    {
        proof {
            assert(homes[n_ours + m] == c.theirs[m as int]);
        }
        put_decision(
            resolved,
            drop_theirs[m],
            Resolved::revised(
                Disposition::Drop,
                ResolutionStrategy::ConflictBothModified,
                Tally::Conflicted,
            ),
        );
        m = m + 1;
    }
    proof {
        assert(p.boxes(rel, start, source, i as int));
    }
    Some(i)
}

/// Both sides took the same body apart, into different new homes: one hole, two
/// claims. The homes move into the box, each side's with that side's text, and the
/// frame no longer states the extracted lines.
///
/// Only decisions that already conflict are reached: what a conflicted file looks
/// like changes, and no verdict. Returns which triples got such a box.
pub fn contested_extraction(
    arena: &Arena,
    triples: &Vec<Triple>,
    cells: &Vec<Cell>,
    relational: &Vec<Relational>,
    resolved: &mut Vec<Resolved>,
    ctx: &ResolveCtx,
) -> (r: Vec<bool>)
    requires
        pass_of(arena@, triples@, cells@, ctx@).wf(resolved_views(old(resolved)@)),
        relations_ok(relational_views(relational@), arena@.len()),
    ensures
        resolved_views(final(resolved)@) == pass_of(
            arena@,
            triples@,
            cells@,
            ctx@,
        ).after_contests(relational_views(relational@), resolved_views(old(resolved)@)),
        final(resolved)@.len() == old(resolved)@.len(),
        r@ == pass_of(arena@, triples@, cells@, ctx@).boxed(
            relational_views(relational@),
            resolved_views(old(resolved)@),
        ),
        r@.len() == old(resolved)@.len(),
{
    let ghost p = pass_of(arena@, triples@, cells@, ctx@);
    let ghost rel = relational_views(relational@);
    let ghost start = resolved_views(resolved@);
    let len: usize = arena.len();
    let count: usize = resolved.len();
    let mut boxed: Vec<bool> = Vec::new();
    while boxed.len() < count
        invariant
            boxed@.len() <= count,
            forall|i: int| 0 <= i < boxed@.len() ==> !(#[trigger] boxed@[i]),
        decreases count - boxed@.len(),
    {
        boxed.push(false);
    }
    let mut n: usize = 0;
    proof {
        assert(boxed@ =~= p.boxed_upto(rel, start, 0));
    }
    while n < len
        invariant
            n <= len == arena@.len() <= u32::MAX,
            rel == relational_views(relational@),
            relations_ok(rel, arena@.len()),
            p == pass_of(arena@, triples@, cells@, ctx@),
            p.wf(resolved_views(resolved@)),
            resolved@.len() == start.len(),
            resolved_views(resolved@) == p.contests_upto(rel, start, n as int),
            boxed@ == p.boxed_upto(rel, start, n as int),
            boxed@.len() == start.len() == triples@.len() == count,
        decreases len - n,
    {
        let ghost before = resolved_views(resolved@);
        let ghost marks = boxed@;
        let at = settle_contest(arena, triples, cells, relational, resolved, ctx, Idx(n as u32));
        match at {
            Some(i) => {
                boxed.set(i, true);
            },
            None => {},
        }
        proof {
            let now = p.boxed_upto(rel, start, n + 1);
            assert forall|i: int| 0 <= i < now.len() implies now[i] == boxed@[i] by {
                assert(p.boxes(rel, before, Idx(n as u32), i) <==> at == Some(i as usize));
            }
            assert(boxed@ =~= now);
        }
        n = n + 1;
    }
    boxed
}

/// A triple that is looked up is one of the triples.
pub proof fn lookups_are_in_range(triples: Seq<TripleView>, x: Idx, n: int)
    requires
        0 <= n <= triples.len(),
    ensures
        with_base(triples, x, n) matches Some(i) ==> 0 <= i < n,
        with_entity(triples, x, n) matches Some(i) ==> 0 <= i < n,
    decreases n,
{
    if n > 0 {
        lookups_are_in_range(triples, x, n - 1);
    }
}


// ---------------------------------------------------------------------------
// What becomes of an edit to lines that left
// ---------------------------------------------------------------------------

proof fn with_base_finds(triples: Seq<TripleView>, b: Idx, n: int)
    requires
        0 <= n <= triples.len(),
    ensures
        match with_base(triples, b, n) {
            Some(i) => 0 <= i < n && triples[i].base == Some(b),
            None => forall|k: int| 0 <= k < n ==> (#[trigger] triples[k]).base != Some(b),
        },
    decreases n,
{
    if n > 0 && triples[n - 1].base != Some(b) {
        with_base_finds(triples, b, n - 1);
    }
}

proof fn with_entity_finds(triples: Seq<TripleView>, x: Idx, n: int)
    requires
        0 <= n <= triples.len(),
    ensures
        match with_entity(triples, x, n) {
            Some(i) => 0 <= i < n && (triples[i].ours == Some(x) || triples[i].theirs == Some(x)),
            None => forall|k: int|
                0 <= k < n ==> (#[trigger] triples[k]).ours != Some(x) && triples[k].theirs
                    != Some(x),
        },
    decreases n,
{
    if n > 0 && !(triples[n - 1].ours == Some(x) || triples[n - 1].theirs == Some(x)) {
        with_entity_finds(triples, x, n - 1);
    }
}

proof fn lacking_holds(a: Seq<Seq<char>>, b: Seq<Seq<char>>, n: int, l: Seq<char>)
    requires
        0 <= n <= a.len(),
    ensures
        lacking(a, b, n).contains(l) <==> !b.contains(l) && exists|k: int|
            0 <= k < n && #[trigger] a[k] == l,
    decreases n,
{
    if n > 0 {
        lacking_holds(a, b, n - 1, l);
        let front = lacking(a, b, n - 1);
        let all = lacking(a, b, n);
        if !b.contains(a[n - 1]) {
            if front.contains(l) {
                let k = choose|k: int| 0 <= k < front.len() && front[k] == l;
                assert(all[k] == l);
            }
            assert(all[front.len() as int] == a[n - 1]);
            if all.contains(l) && l != a[n - 1] {
                let k = choose|k: int| 0 <= k < all.len() && all[k] == l;
                assert(front[k] == l);
            }
        }
    }
}

/// A line edit holds exactly the signature lines that are gone and those that are new.
pub proof fn a_line_edit_is_what_changed(base: Seq<char>, other: Seq<char>, l: Seq<char>)
    ensures
        line_edit(base, other).removed.contains(l) <==> signature(base).contains(l) && !signature(
            other,
        ).contains(l),
        line_edit(base, other).added.contains(l) <==> signature(other).contains(l) && !signature(
            base,
        ).contains(l),
{
    let b = signature(base);
    let o = signature(other);
    lacking_holds(b, o, b.len() as int, l);
    lacking_holds(o, b, o.len() as int, l);
}

proof fn housing_holds(arena: Seq<EntityView>, extracted: Seq<Idx>, line: Seq<char>, n: int)
    requires
        0 <= n <= extracted.len(),
    ensures
        forall|x: Idx| #[trigger]
            housing(arena, extracted, line, n).contains(x) ==> extracted.contains(x) && signature(
                entity_at(arena, x).content,
            ).contains(line),
        forall|k: int|
            0 <= k < n && signature(entity_at(arena, #[trigger] extracted[k]).content).contains(
                line,
            ) ==> housing(arena, extracted, line, n).contains(extracted[k]),
    decreases n,
{
    if n > 0 {
        housing_holds(arena, extracted, line, n - 1);
        let front = housing(arena, extracted, line, n - 1);
        let all = housing(arena, extracted, line, n);
        let x = extracted[n - 1];
        assert(extracted.contains(x));
        if signature(entity_at(arena, x).content).contains(line) {
            assert forall|y: Idx| #[trigger] all.contains(y) implies extracted.contains(y)
                && signature(entity_at(arena, y).content).contains(line) by {
                let k = choose|k: int| 0 <= k < all.len() && all[k] == y;
                if k < front.len() {
                    assert(front[k] == y);
                    assert(front.contains(y));
                }
            }
            assert forall|k: int|
                0 <= k < n && signature(
                    entity_at(arena, #[trigger] extracted[k]).content,
                ).contains(line) implies all.contains(extracted[k]) by {
                if k < n - 1 {
                    let m = choose|m: int| 0 <= m < front.len() && front[m] == extracted[k];
                    assert(all[m] == extracted[k]);
                } else {
                    assert(all[front.len() as int] == x);
                }
            }
        }
    }
}

/// Is the place the only one for the line? It is emitted, it holds an extracted entity
/// that has the line, and no other extracted entity has it.
pub open spec fn only_place(p: Pass, rs: Seq<ResolvedView>, e: Extraction, l: Seq<char>, j: int) -> bool {
    &&& 0 <= j < rs.len()
    &&& rs[j].disposition is Emit
    &&& exists|x: Idx|
        e.extracted.contains(x) && (p.triples[j].ours == Some(x) || p.triples[j].theirs == Some(x))
            && signature(entity_at(p.arena, x).content).contains(l) && forall|k: int|
            0 <= k < e.extracted.len() && signature(
                entity_at(p.arena, #[trigger] e.extracted[k]).content,
            ).contains(l) ==> e.extracted[k] == x
}

/// The other side's edit to lines that one side extracted is never lost. Where that side
/// did not extract from the body too and removed a line that left, the body becomes a
/// conflict; or it is emitted as the extractor has it, and then the edit removed nothing
/// but lines that left, wrote as many as it removed, and every removed line has one place
/// among the extracted entities, which is emitted. Nothing but the body and those places
/// changes.
pub proof fn an_edit_to_what_left_lands_or_conflicts(
    p: Pass,
    rel: Seq<RelationalView>,
    rs: Seq<ResolvedView>,
    e: Extraction,
    i: int,
    x: Idx,
)
    requires
        rs.len() == p.triples.len(),
        with_base(p.triples, e.source, p.triples.len() as int) == Some(i),
        p.triples[i].side(e.side.other()) == Some(x),
        !(exists|k: int|
            0 <= k < rel.len() && is_extraction(#[trigger] rel[k], e.source, e.side.other())),
    ensures
        ({
            let base = entity_at(p.arena, e.source).content;
            let edit = line_edit(base, entity_at(p.arena, x).content);
            let after = p.after_extraction(rel, rs, e);
            &&& after.len() == rs.len()
            &&& (exists|l: Seq<char>| #[trigger]
                edit.removed.contains(l) && e.moved.contains(l)) ==> {
                ||| after[i].disposition is Conflict && after[i].tally is Conflicted && forall|j:
                    int|
                    0 <= j < rs.len() && j != i ==> #[trigger] after[j] == rs[j]
                ||| {
                    &&& after[i].disposition == (DispositionView::Emit {
                        text: entity_at(p.arena, e.host).content,
                        name: entity_at(p.arena, e.host).key.name,
                    })
                    &&& after[i].tally is BothMerged
                    &&& edit.removed.len() == edit.added.len()
                    &&& forall|l: Seq<char>| #[trigger]
                        edit.removed.contains(l) ==> e.moved.contains(l) && exists|j: int| #[trigger]
                            only_place(p, rs, e, l, j)
                    &&& forall|j: int|
                        0 <= j < rs.len() && j != i && #[trigger] after[j] != rs[j]
                            ==> after[j].disposition is Emit && exists|l: Seq<char>| #[trigger]
                            edit.removed.contains(l) && only_place(p, rs, e, l, j)
                }
            }
            &&& !(exists|l: Seq<char>| #[trigger]
                edit.removed.contains(l) && e.moved.contains(l)) ==> after == rs
        }),
{
    let base = entity_at(p.arena, e.source).content;
    let edit = line_edit(base, entity_at(p.arena, x).content);
    let after = p.after_extraction(rel, rs, e);
    with_base_finds(p.triples, e.source, p.triples.len() as int);
    assert(!extracts(rel, e.source, e.side.other()));
    if exists|l: Seq<char>| #[trigger] edit.removed.contains(l) && e.moved.contains(l) {
        let l = choose|l: Seq<char>| #[trigger] edit.removed.contains(l) && e.moved.contains(l);
        let k = choose|k: int| 0 <= k < edit.removed.len() && edit.removed[k] == l;
        assert(e.moved.contains(edit.removed[k]));
        assert(edit.touches(e.moved));
        if edit.plain(e.moved) && p.all_land(rs, e, edit) {
            let n = edit.removed.len() as int;
            landing_changes_places(p, rs, e, edit, n);
            assert forall|l: Seq<char>| #[trigger] edit.removed.contains(l) implies e.moved.contains(
                l,
            ) && exists|j: int| #[trigger] only_place(p, rs, e, l, j) by {
                let k = choose|k: int| 0 <= k < edit.removed.len() && edit.removed[k] == l;
                assert(e.moved.contains(edit.removed[k]));
                assert(p.landing(rs, e, edit.removed[k]) is Some);
                a_landing_is_the_only_place(p, rs, e, l);
                assert(only_place(p, rs, e, l, p.landing(rs, e, l)->0));
            }
        }
    } else if edit.touches(e.moved) {
        let k = choose|k: int|
            0 <= k < edit.removed.len() && e.moved.contains(#[trigger] edit.removed[k]);
        assert(edit.removed.contains(edit.removed[k]));
    }
}

proof fn a_landing_is_the_only_place(p: Pass, rs: Seq<ResolvedView>, e: Extraction, l: Seq<char>)
    requires
        rs.len() == p.triples.len(),
        p.landing(rs, e, l) is Some,
    ensures
        only_place(p, rs, e, l, p.landing(rs, e, l)->0),
{
    let n = e.extracted.len() as int;
    let h = housing(p.arena, e.extracted, l, n);
    housing_holds(p.arena, e.extracted, l, n);
    assert(h.contains(h[0]));
    with_entity_finds(p.triples, h[0], p.triples.len() as int);
    let x = h[0];
    assert forall|k: int|
        0 <= k < e.extracted.len() && signature(
            entity_at(p.arena, #[trigger] e.extracted[k]).content,
        ).contains(l) implies e.extracted[k] == x by {
        assert(h.contains(e.extracted[k]));
        let m = choose|m: int| 0 <= m < h.len() && h[m] == e.extracted[k];
        assert(m == 0);
    }
}

proof fn landing_changes_places(
    p: Pass,
    at: Seq<ResolvedView>,
    e: Extraction,
    edit: LineEdit,
    k: int,
)
    requires
        at.len() == p.triples.len(),
        0 <= k <= edit.removed.len(),
        p.all_land(at, e, edit),
    ensures
        ({
            let rs = p.landed_upto(at, e, edit, k);
            &&& rs.len() == at.len()
            &&& forall|j: int|
                0 <= j < at.len() && #[trigger] rs[j] != at[j] ==> rs[j].disposition is Emit
                    && exists|l: Seq<char>| #[trigger]
                    edit.removed.contains(l) && only_place(p, at, e, l, j)
        }),
    decreases k,
{
    if k > 0 {
        landing_changes_places(p, at, e, edit, k - 1);
        let was = p.landed_upto(at, e, edit, k - 1);
        let rs = p.landed_upto(at, e, edit, k);
        let l = edit.removed[k - 1];
        assert(p.landing(at, e, edit.removed[k - 1]) is Some);
        a_landing_is_the_only_place(p, at, e, l);
        let i = p.landing(at, e, l)->0;
        assert(edit.removed.contains(l));
        assert forall|j: int| 0 <= j < at.len() && #[trigger] rs[j] != at[j] implies
            rs[j].disposition is Emit && exists|l: Seq<char>| #[trigger]
            edit.removed.contains(l) && only_place(p, at, e, l, j) by {
            if j == i {
                assert(edit.removed.contains(l) && only_place(p, at, e, l, j));
                if emit_text(was[i]) is None {
                    assert(rs[i] == was[i]);
                }
            } else {
                assert(rs[j] == was[j]);
            }
        }
    }
}

proof fn a_home_stands_in_the_stack(homes: Seq<Seq<char>>, n: int, k: int)
    requires
        0 <= k < n <= homes.len(),
    ensures
        crate::text::contains(stacked(homes, n), homes[k]),
    decreases n,
{
    let all = stacked(homes, n);
    let front = stacked(homes, n - 1);
    let x = homes[k];
    if k == n - 1 {
        let i: int = front.len() as int;
        assert(all.subrange(i, i + x.len()) =~= x);
        assert(crate::text::at(all, x, i));
    } else {
        a_home_stands_in_the_stack(homes, n - 1, k);
        let i = choose|i: int| crate::text::at(front, x, i);
        assert(all.subrange(i, i + x.len()) =~= front.subrange(i, i + x.len()));
        assert(crate::text::at(all, x, i));
    }
}

/// Nothing that either side extracted from a contested body is lost. Where the contest
/// puts a box around the body, the box shows of each side every entity that it extracted
/// and its own text at the end, and base's; where it does not, nothing changes.
pub proof fn a_box_holds_every_extraction(
    p: Pass,
    rel: Seq<RelationalView>,
    rs: Seq<ResolvedView>,
    c: Contest,
    i: int,
)
    requires
        rs.len() == p.triples.len(),
        contest(rel, c.source) == Some(c),
        with_base(p.triples, c.source, p.triples.len() as int) == Some(i),
        p.after_contest(rel, rs, c.source) != rs,
    ensures
        ({
            let after = p.after_contest(rel, rs, c.source);
            let t = p.triples[i];
            &&& after.len() == rs.len()
            &&& rs[i].disposition is Conflict
            &&& after[i].tally is Conflicted
            &&& after[i].disposition matches DispositionView::Conflict { text, conflict } && {
                &&& conflict.kind is BothModified
                &&& conflict.base == p.case(i).opt_text(t.base)
                &&& conflict.ours is Some && ends_in(conflict.ours->0, p.case(i).text(t.ours))
                &&& conflict.theirs is Some && ends_in(conflict.theirs->0, p.case(i).text(t.theirs))
                &&& forall|k: int|
                    0 <= k < c.ours.len() ==> crate::text::contains(
                        conflict.ours->0,
                        entity_at(p.arena, #[trigger] c.ours[k]).content,
                    )
                &&& forall|k: int|
                    0 <= k < c.theirs.len() ==> crate::text::contains(
                        conflict.theirs->0,
                        entity_at(p.arena, #[trigger] c.theirs[k]).content,
                    )
            }
            &&& forall|j: int|
                0 <= j < rs.len() && j != i && #[trigger] after[j] != rs[j] ==> {
                    &&& rs[j].disposition is Emit
                    &&& after[j].disposition is Drop
                    &&& exists|h: Idx|
                        (c.ours + c.theirs).contains(h) && (p.triples[j].ours == Some(h)
                            || p.triples[j].theirs == Some(h))
                }
        }),
{
    with_base_finds(p.triples, c.source, p.triples.len() as int);
    let homes = c.ours + c.theirs;
    let boxed = conflicted(
        p.contested_body(c, i),
        p.ctx,
        StrategyView::ConflictBothModified,
    );
    let start = rs.update(i, boxed);
    assert(p.contested(rs, c, i));
    assert forall|k: int| 0 <= k < homes.len() implies p.droppable(
        rs,
        i,
        #[trigger] homes[k],
    ) is Some by {
        if k < c.ours.len() {
            assert(homes[k] == c.ours[k]);
        } else {
            assert(homes[k] == c.theirs[k - c.ours.len()]);
        }
    }
    dropping_touches_homes(p, rs, start, i, homes, homes.len() as int);
    let o = home_texts(p.arena, c.ours);
    let t = home_texts(p.arena, c.theirs);
    let own_o = p.case(i).text(p.triples[i].ours);
    let own_t = p.case(i).text(p.triples[i].theirs);
    assert forall|k: int| 0 <= k < c.ours.len() implies crate::text::contains(
        with_homes(o, own_o),
        entity_at(p.arena, #[trigger] c.ours[k]).content,
    ) by {
        assert(o[k] == entity_at(p.arena, c.ours[k]).content);
        a_home_stands_in_the_stack(o, o.len() as int, k);
        a_front_stands(stacked(o, o.len() as int), own_o, o[k]);
    }
    assert forall|k: int| 0 <= k < c.theirs.len() implies crate::text::contains(
        with_homes(t, own_t),
        entity_at(p.arena, #[trigger] c.theirs[k]).content,
    ) by {
        assert(t[k] == entity_at(p.arena, c.theirs[k]).content);
        a_home_stands_in_the_stack(t, t.len() as int, k);
        a_front_stands(stacked(t, t.len() as int), own_t, t[k]);
    }
    let so = stacked(o, o.len() as int);
    let st = stacked(t, t.len() as int);
    assert(with_homes(o, own_o).skip(so.len() as int) =~= own_o);
    assert(with_homes(t, own_t).skip(st.len() as int) =~= own_t);
}

/// Does the text end with the other?
pub open spec fn ends_in(s: Seq<char>, x: Seq<char>) -> bool {
    s.len() >= x.len() && s.skip(s.len() - x.len()) == x
}

proof fn a_front_stands(a: Seq<char>, b: Seq<char>, x: Seq<char>)
    requires
        crate::text::contains(a, x),
    ensures
        crate::text::contains(a + b, x),
{
    let i = choose|i: int| crate::text::at(a, x, i);
    assert((a + b).subrange(i, i + x.len()) =~= a.subrange(i, i + x.len()));
    assert(crate::text::at(a + b, x, i));
}

proof fn dropping_touches_homes(
    p: Pass,
    at: Seq<ResolvedView>,
    rs: Seq<ResolvedView>,
    i: int,
    homes: Seq<Idx>,
    k: int,
)
    requires
        at.len() == p.triples.len(),
        rs.len() == at.len(),
        0 <= k <= homes.len(),
        forall|m: int| 0 <= m < homes.len() ==> p.droppable(at, i, #[trigger] homes[m]) is Some,
    ensures
        ({
            let out = p.dropped_upto(at, rs, i, homes, k);
            &&& out.len() == rs.len()
            &&& 0 <= i < rs.len() ==> out[i] == rs[i]
            &&& forall|j: int|
                0 <= j < rs.len() && #[trigger] out[j] != rs[j] ==> j != i
                    && at[j].disposition is Emit && out[j].disposition is Drop && exists|h: Idx|
                    homes.contains(h) && (p.triples[j].ours == Some(h) || p.triples[j].theirs
                        == Some(h))
        }),
    decreases k,
{
    if k > 0 {
        dropping_touches_homes(p, at, rs, i, homes, k - 1);
        let h = homes[k - 1];
        assert(homes.contains(h));
        assert(p.droppable(at, i, homes[k - 1]) is Some);
        with_entity_finds(p.triples, h, p.triples.len() as int);
        let was = p.dropped_upto(at, rs, i, homes, k - 1);
        let out = p.dropped_upto(at, rs, i, homes, k);
        let d = p.droppable(at, i, h)->0;
        assert forall|j: int| 0 <= j < rs.len() && #[trigger] out[j] != rs[j] implies j != i
            && at[j].disposition is Emit && out[j].disposition is Drop && exists|h: Idx|
            homes.contains(h) && (p.triples[j].ours == Some(h) || p.triples[j].theirs == Some(
                h,
            )) by {
            if j != d {
                assert(out[j] == was[j]);
            }
        }
    }
}

} // verus!
