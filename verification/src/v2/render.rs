//! Rendering: a fold over the plan. It decides nothing.
//!
//! The merged gaps and the merged entities together are the file: each gap is
//! emitted as it is, once, in front of the entity it leads. A separator is made up
//! only where two declarations stand next to each other that no version put there.

use vstd::prelude::*;
use crate::order::views;
use crate::region::{FileRegion, MergedGap, RegionView};
use crate::text::{
    before, chars_of, is_before, list_has, push_all, push_text, same, str_eq, string_of, strs,
    texts, trim, trim_end, trimmed, trimmed_end, width, width_of_char,
};
use crate::v2::plan::{PlannedItem, PlannedView};
use crate::v2::resolve::{resolved_views, Resolved, ResolvedView};
use crate::v2::types::{
    entity_at, triple_views, triples_wf, Arena, Disposition, EntityView, Idx, Triple, TripleView,
};

verus! {

broadcast use vstd::string::group_string_axioms;

// ---------------------------------------------------------------------------
// Gaps and what they lead
// ---------------------------------------------------------------------------

/// A merged gap: its key and its text.
pub type GapText = (Seq<char>, Seq<char>);

/// The text of the first gap, at or after the `k`th, with the key.
pub open spec fn gap_text(gaps: Seq<GapText>, key: Seq<char>, k: int) -> Option<Seq<char>>
    decreases gaps.len() - k,
{
    if k < 0 || k >= gaps.len() {
        None
    } else if gaps[k].0 == key {
        Some(gaps[k].1)
    } else {
        gap_text(gaps, key, k + 1)
    }
}

fn find_gap<'a>(gaps: &'a Vec<MergedGap>, key: &str) -> (r: Option<&'a str>)
    ensures
        crate::conflict::opt_str(r) == gap_text(views(gaps@), key@, 0),
{
    let ghost all = views(gaps@);
    let mut k: usize = 0;
    while k < gaps.len()
        invariant
            k <= gaps@.len(),
            all == views(gaps@),
            gap_text(all, key@, k as int) == gap_text(all, key@, 0),
        decreases gaps@.len() - k,
    {
        proof {
            assert(all[k as int] == gaps@[k as int]@);
        }
        if str_eq(gaps[k].key.as_str(), key) {
            return Some(gaps[k].text.as_str());
        }
        k = k + 1;
    }
    None
}

/// A gap and the entity it leads, or none where it stands behind the last one.
#[derive(Debug)]
pub struct Lead {
    pub key: String,
    pub leads: Option<String>,
}

/// A [`Lead`] with its strings read as texts.
pub struct LeadView {
    pub key: Seq<char>,
    pub leads: Option<Seq<char>>,
}

impl View for Lead {
    type V = LeadView;

    open spec fn view(&self) -> LeadView {
        LeadView { key: self.key@, leads: crate::v2::types::opt_view(self.leads) }
    }
}

/// Is a gap with the key among the first ones?
pub open spec fn has_lead(v: Seq<LeadView>, key: Seq<char>) -> bool {
    exists|k: int| 0 <= k < v.len() && (#[trigger] v[k]).key == key
}

/// The keys that lead the file itself and no entity.
pub open spec fn reserved(key: Seq<char>) -> bool {
    key == "file_header"@ || key == "file_footer"@ || key == "file_only"@
}

/// The first emitted entity at or after the `p`th region.
pub open spec fn next_emitted(
    list: Seq<RegionView>,
    emitted: Seq<Seq<char>>,
    p: int,
) -> Option<Seq<char>>
    decreases list.len() - p,
{
    if p < 0 || p >= list.len() {
        None
    } else {
        match list[p] {
            RegionView::Entity { entity_id, content } => if emitted.contains(entity_id) {
                Some(entity_id)
            } else {
                next_emitted(list, emitted, p + 1)
            },
            _ => next_emitted(list, emitted, p + 1),
        }
    }
}

/// Does the gap say anything, and is it nobody's yet?
pub open spec fn is_new_gap(gaps: Seq<GapText>, v: Seq<LeadView>, key: Seq<char>) -> bool {
    &&& gap_text(gaps, key, 0) matches Some(t) && t.len() > 0
    &&& !reserved(key)
    &&& !has_lead(v, key)
}

/// The gaps that the first `p` regions of a list add: each leads the next entity
/// that is emitted, so that it survives the deletion of the one directly behind it.
pub open spec fn leads_in(
    gaps: Seq<GapText>,
    list: Seq<RegionView>,
    emitted: Seq<Seq<char>>,
    v: Seq<LeadView>,
    p: int,
) -> Seq<LeadView>
    decreases p,
{
    if p <= 0 {
        v
    } else {
        let front = leads_in(gaps, list, emitted, v, p - 1);
        match list[p - 1] {
            RegionView::Interstitial { position_key, content } => if is_new_gap(
                gaps,
                front,
                position_key,
            ) {
                front.push(
                    LeadView { key: position_key, leads: next_emitted(list, emitted, p) },
                )
            } else {
                front
            },
            _ => front,
        }
    }
}

/// The gaps of the first `n` lists of regions.
pub open spec fn leads_of(
    gaps: Seq<GapText>,
    lists: Seq<Seq<RegionView>>,
    emitted: Seq<Seq<char>>,
    n: int,
) -> Seq<LeadView>
    decreases n,
{
    if n <= 0 {
        Seq::empty()
    } else {
        leads_in(
            gaps,
            lists[n - 1],
            emitted,
            leads_of(gaps, lists, emitted, n - 1),
            lists[n - 1].len() as int,
        )
    }
}

fn is_lead(v: &Vec<Lead>, key: &str) -> (r: bool)
    ensures
        r == has_lead(views(v@), key@),
{
    let ghost all = views(v@);
    let mut k: usize = 0;
    while k < v.len()
        invariant
            k <= v@.len(),
            all == views(v@),
            forall|m: int| 0 <= m < k ==> (#[trigger] all[m]).key != key@,
        decreases v@.len() - k,
    {
        proof {
            assert(all[k as int] == v@[k as int]@);
        }
        if str_eq(v[k].key.as_str(), key) {
            return true;
        }
        k = k + 1;
    }
    false
}

fn find_emitted(list: &Vec<FileRegion>, emitted: &Vec<String>, p: usize) -> (r: Option<String>)
    ensures
        crate::v2::types::opt_view(r) == next_emitted(views(list@), strs(emitted@), p as int),
{
    let ghost all = views(list@);
    let ghost ev = strs(emitted@);
    let mut k: usize = p;
    while k < list.len()
        invariant
            p <= k,
            all == views(list@),
            ev == strs(emitted@),
            next_emitted(all, ev, k as int) == next_emitted(all, ev, p as int),
        decreases list@.len() - k,
    {
        proof {
            assert(all[k as int] == list@[k as int]@);
        }
        match &list[k] {
            FileRegion::Entity { entity_id, .. } => {
                if list_has(emitted, entity_id.as_str()) {
                    return Some(entity_id.clone());
                }
            },
            _ => {},
        }
        k = k + 1;
    }
    None
}

fn push_leads(
    gaps: &Vec<MergedGap>,
    list: &Vec<FileRegion>,
    emitted: &Vec<String>,
    v: &mut Vec<Lead>,
)
    ensures
        views(final(v)@) == leads_in(
            views(gaps@),
            views(list@),
            strs(emitted@),
            views(old(v)@),
            list@.len() as int,
        ),
{
    let ghost gv = views(gaps@);
    let ghost all = views(list@);
    let ghost ev = strs(emitted@);
    let ghost start = views(v@);
    let mut p: usize = 0;
    while p < list.len()
        invariant
            p <= list@.len() == all.len(),
            gv == views(gaps@),
            all == views(list@),
            ev == strs(emitted@),
            views(v@) == leads_in(gv, all, ev, start, p as int),
        decreases list@.len() - p,
    {
        proof {
            assert(all[p as int] == list@[p as int]@);
        }
        match &list[p] {
            FileRegion::Interstitial { position_key, .. } => {
                let key = position_key.as_str();
                let filled = match find_gap(gaps, key) {
                    Some(t) => chars_of(t).len() > 0,
                    None => false,
                };
                let is_reserved = str_eq(key, "file_header") || str_eq(key, "file_footer")
                    || str_eq(key, "file_only");
                if filled && !is_reserved && !is_lead(v, key) {
                    let lead = Lead {
                        key: position_key.clone(),
                        leads: find_emitted(list, emitted, p + 1),
                    };
                    let ghost held = views(v@);
                    let ghost lv = lead@;
                    v.push(lead);
                    proof {
                        assert(views(v@) =~= held.push(lv));
                    }
                }
            },
            _ => {},
        }
        p = p + 1;
    }
}

// ---------------------------------------------------------------------------
// The usual gap
// ---------------------------------------------------------------------------

/// The gaps seen between the entities of the first `p` regions, whether an entity
/// has been seen, and whether a gap has been seen behind the last one. Two entities
/// with nothing between them are an observation too.
pub struct Seen {
    pub gaps: Seq<Seq<char>>,
    pub entity: bool,
    pub gap: bool,
}

/// What the first `p` regions show.
pub open spec fn seen_upto(list: Seq<RegionView>, p: int) -> Seen
    decreases p,
{
    if p <= 0 {
        Seen { gaps: Seq::empty(), entity: false, gap: false }
    } else {
        let s = seen_upto(list, p - 1);
        match list[p - 1] {
            RegionView::Entity { entity_id, content } => Seen {
                gaps: if s.entity && !s.gap {
                    s.gaps.push(Seq::empty())
                } else {
                    s.gaps
                },
                entity: true,
                gap: false,
            },
            RegionView::Interstitial { position_key, content } => if s.entity {
                Seen {
                    gaps: if trim(content).len() == 0 {
                        s.gaps.push(content)
                    } else {
                        s.gaps
                    },
                    entity: true,
                    gap: true,
                }
            } else {
                s
            },
        }
    }
}

/// How often a gap was seen, among the first `k`.
pub open spec fn times(gaps: Seq<Seq<char>>, g: Seq<char>, k: int) -> int
    decreases k,
{
    if k <= 0 {
        0
    } else {
        times(gaps, g, k - 1) + if gaps[k - 1] == g {
            1int
        } else {
            0int
        }
    }
}

/// Is the first gap the more usual one? It was seen more often or, as often, is
/// shorter or, as long, comes first in the order of texts.
pub open spec fn more_usual(gaps: Seq<Seq<char>>, a: Seq<char>, b: Seq<char>) -> bool {
    let n = gaps.len() as int;
    ||| times(gaps, a, n) > times(gaps, b, n)
    ||| times(gaps, a, n) == times(gaps, b, n) && width(a) < width(b)
    ||| times(gaps, a, n) == times(gaps, b, n) && width(a) == width(b) && before(a, b)
}

/// The most usual of the first `k` gaps.
pub open spec fn most_usual(gaps: Seq<Seq<char>>, k: int) -> Option<Seq<char>>
    decreases k,
{
    if k <= 0 {
        None
    } else {
        match most_usual(gaps, k - 1) {
            None => Some(gaps[k - 1]),
            Some(g) => if more_usual(gaps, gaps[k - 1], g) {
                Some(gaps[k - 1])
            } else {
                Some(g)
            },
        }
    }
}

/// The gap that a file mostly puts between two entities; a line feed where it shows
/// none.
pub open spec fn usual_gap(list: Seq<RegionView>) -> Seq<char> {
    let gaps = seen_upto(list, list.len() as int).gaps;
    match most_usual(gaps, gaps.len() as int) {
        Some(g) => g,
        None => "\n"@,
    }
}

proof fn more_usual_total(gaps: Seq<Seq<char>>, a: Seq<char>, b: Seq<char>)
    ensures
        more_usual(gaps, a, b) || more_usual(gaps, b, a) || a == b,
{
    assert(a.subrange(0, 0) =~= b.subrange(0, 0));
    crate::text::before_total(a, b, 0);
}

proof fn more_usual_transitive(gaps: Seq<Seq<char>>, a: Seq<char>, b: Seq<char>, c: Seq<char>)
    requires
        more_usual(gaps, a, b),
        more_usual(gaps, b, c),
    ensures
        more_usual(gaps, a, c),
{
    if before(a, b) && before(b, c) {
        crate::text::before_transitive(a, b, c, 0);
    }
}

/// No gap that was seen is more usual than the one that is chosen.
pub proof fn the_usual_gap_is_the_most_usual(gaps: Seq<Seq<char>>, k: int)
    requires
        0 <= k <= gaps.len(),
    ensures
        k > 0 ==> most_usual(gaps, k) is Some,
        most_usual(gaps, k) matches Some(g) ==> forall|i: int|
            0 <= i < k ==> g == (#[trigger] gaps[i]) || more_usual(gaps, g, gaps[i]),
    decreases k,
{
    if k > 0 {
        the_usual_gap_is_the_most_usual(gaps, k - 1);
        if let Some(g) = most_usual(gaps, k - 1) {
            let x = gaps[k - 1];
            more_usual_total(gaps, x, g);
            let best = most_usual(gaps, k)->0;
            assert forall|i: int| 0 <= i < k implies best == (#[trigger] gaps[i]) || more_usual(
                gaps,
                best,
                gaps[i],
            ) by {
                if i < k - 1 && best == x && best != g {
                    if g != gaps[i] {
                        more_usual_transitive(gaps, x, g, gaps[i]);
                    }
                }
            }
        }
    }
}

fn width_of(s: &[char]) -> (r: u128)
    ensures
        r == width(s@),
{
    let mut w: u128 = 0;
    let mut i: usize = 0;
    proof {
        assert(s@.subrange(0, 0) =~= Seq::empty());
    }
    while i < s.len()
        invariant
            i <= s@.len(),
            w <= 4 * i,
            w == width(s@.subrange(0, i as int)),
        decreases s@.len() - i,
    {
        w = w + width_of_char(s[i]) as u128;
        i = i + 1;
        proof {
            let head = s@.subrange(0, i as int);
            assert(head.drop_last() =~= s@.subrange(0, i - 1));
            assert(head.last() == s@[i - 1]);
        }
    }
    proof {
        assert(s@.subrange(0, i as int) =~= s@);
    }
    w
}

fn count_times(gaps: &Vec<Vec<char>>, g: &[char]) -> (r: usize)
    ensures
        r == times(texts(gaps@), g@, gaps@.len() as int),
{
    let ghost all = texts(gaps@);
    let mut n: usize = 0;
    let mut k: usize = 0;
    while k < gaps.len()
        invariant
            k <= gaps@.len(),
            all == texts(gaps@),
            n <= k,
            n == times(all, g@, k as int),
        decreases gaps@.len() - k,
    {
        proof {
            assert(all[k as int] == gaps@[k as int]@);
        }
        if same(gaps[k].as_slice(), g) {
            n = n + 1;
        }
        k = k + 1;
    }
    n
}

fn is_more_usual(gaps: &Vec<Vec<char>>, a: &[char], b: &[char]) -> (r: bool)
    ensures
        r == more_usual(texts(gaps@), a@, b@),
{
    let ta: usize = count_times(gaps, a);
    let tb: usize = count_times(gaps, b);
    if ta != tb {
        return ta > tb;
    }
    let wa: u128 = width_of(a);
    let wb: u128 = width_of(b);
    if wa != wb {
        return wa < wb;
    }
    is_before(a, b)
}

fn gaps_seen(list: &Vec<FileRegion>) -> (r: Vec<Vec<char>>)
    ensures
        texts(r@) == seen_upto(views(list@), list@.len() as int).gaps,
{
    let ghost all = views(list@);
    let mut gaps: Vec<Vec<char>> = Vec::new();
    let mut entity = false;
    let mut gap = false;
    let mut p: usize = 0;
    proof {
        assert(texts(gaps@) =~= Seq::empty());
    }
    while p < list.len()
        invariant
            p <= list@.len() == all.len(),
            all == views(list@),
            texts(gaps@) == seen_upto(all, p as int).gaps,
            entity == seen_upto(all, p as int).entity,
            gap == seen_upto(all, p as int).gap,
        decreases list@.len() - p,
    {
        let ghost held = texts(gaps@);
        proof {
            assert(all[p as int] == list@[p as int]@);
        }
        match &list[p] {
            FileRegion::Entity { .. } => {
                if entity && !gap {
                    let none: Vec<char> = Vec::new();
                    proof {
                        assert(none@ =~= Seq::empty());
                    }
                    gaps.push(none);
                    proof {
                        assert(texts(gaps@) =~= held.push(Seq::empty()));
                    }
                }
                entity = true;
                gap = false;
            },
            FileRegion::Interstitial { content, .. } => {
                if entity {
                    gap = true;
                    let c = chars_of(content.as_str());
                    if trimmed(c.as_slice()).len() == 0 {
                        gaps.push(c);
                        proof {
                            assert(texts(gaps@) =~= held.push(content@));
                        }
                    }
                }
            },
        }
        p = p + 1;
    }
    gaps
}

/// What this file mostly puts between two declarations.
pub fn dominant_gap(list: &Vec<FileRegion>) -> (r: String)
    ensures
        r@ == usual_gap(views(list@)),
{
    let gaps = gaps_seen(list);
    let ghost all = texts(gaps@);
    let n: usize = gaps.len();
    if n == 0 {
        return "\n".to_owned();
    }
    let mut best: usize = 0;
    let mut k: usize = 1;
    proof {
        assert(all[0] == gaps@[0]@);
        assert(most_usual(all, 0) is None);
    }
    while k < n
        invariant
            best < k <= n == gaps@.len() == all.len(),
            all == texts(gaps@),
            most_usual(all, k as int) == Some(all[best as int]),
        decreases n - k,
    {
        proof {
            assert(all[k as int] == gaps@[k as int]@);
            assert(all[best as int] == gaps@[best as int]@);
        }
        if is_more_usual(&gaps, gaps[k].as_slice(), gaps[best].as_slice()) {
            best = k;
        }
        k = k + 1;
    }
    proof {
        assert(all[best as int] == gaps@[best as int]@);
    }
    string_of(gaps[best].as_slice())
}

/// The merged text between the entities, by the entity that each piece leads.
#[derive(Debug)]
pub struct Interstitials {
    pub merged: Vec<MergedGap>,
    pub leads: Vec<Lead>,
    /// What to put between two declarations that no version put next to each other.
    pub separator: String,
}

/// An [`Interstitials`] over views.
pub struct InterstitialsView {
    pub merged: Seq<GapText>,
    pub leads: Seq<LeadView>,
    pub separator: Seq<char>,
}

impl View for Interstitials {
    type V = InterstitialsView;

    open spec fn view(&self) -> InterstitialsView {
        InterstitialsView {
            merged: views(self.merged@),
            leads: views(self.leads@),
            separator: self.separator@,
        }
    }
}

/// The views of lists of regions.
pub open spec fn region_lists(v: Seq<Vec<FileRegion>>) -> Seq<Seq<RegionView>> {
    v.map_values(|l: Vec<FileRegion>| views(l@))
}

/// The merged gaps, indexed by the entities that are emitted.
pub open spec fn indexed(
    gaps: Seq<GapText>,
    lists: Seq<Seq<RegionView>>,
    emitted: Seq<Seq<char>>,
) -> InterstitialsView {
    InterstitialsView {
        merged: gaps,
        leads: leads_of(gaps, lists, emitted, lists.len() as int),
        separator: if lists.len() > 0 {
            usual_gap(lists[0])
        } else {
            "\n"@
        },
    }
}

impl Interstitials {
    /// Index the merged gaps by the entity each one leads, so that a gap travels with
    /// its entity. `regions` holds one list per version, base first.
    pub fn new(merged: Vec<MergedGap>, regions: &Vec<Vec<FileRegion>>, emitted: &Vec<String>) -> (r: Self)
        ensures
            r@ == indexed(views(merged@), region_lists(regions@), strs(emitted@)),
    {
        let ghost gv = views(merged@);
        let ghost lists = region_lists(regions@);
        let ghost ev = strs(emitted@);
        let mut leads: Vec<Lead> = Vec::new();
        let mut n: usize = 0;
        proof {
            assert(views(leads@) =~= Seq::empty());
        }
        while n < regions.len()
            invariant
                n <= regions@.len() == lists.len(),
                gv == views(merged@),
                lists == region_lists(regions@),
                ev == strs(emitted@),
                views(leads@) == leads_of(gv, lists, ev, n as int),
            decreases regions@.len() - n,
        {
            proof {
                assert(lists[n as int] == views(regions@[n as int]@));
                assert(lists[n as int].len() == regions@[n as int]@.len());
            }
            push_leads(&merged, &regions[n], emitted, &mut leads);
            n = n + 1;
        }
        let separator = if regions.len() > 0 {
            proof {
                assert(lists[0] == views(regions@[0]@));
            }
            dominant_gap(&regions[0])
        } else {
            "\n".to_owned()
        };
        Interstitials { merged, leads, separator }
    }
}

// ---------------------------------------------------------------------------
// What is emitted
// ---------------------------------------------------------------------------

/// The id an entity was read from, if there is one.
pub open spec fn id_of(arena: Seq<EntityView>, idx: Option<Idx>) -> Seq<Seq<char>> {
    match idx {
        Some(i) => seq![entity_at(arena, i).src_id],
        None => Seq::empty(),
    }
}

/// The ids that a triple's entities were read from.
pub open spec fn ids_of(arena: Seq<EntityView>, t: TripleView) -> Seq<Seq<char>> {
    id_of(arena, t.base) + id_of(arena, t.ours) + id_of(arena, t.theirs)
}

/// The ids behind the first `k` items that are not dropped.
pub open spec fn emitted_ids(
    arena: Seq<EntityView>,
    triples: Seq<TripleView>,
    rs: Seq<ResolvedView>,
    items: Seq<PlannedView>,
    k: int,
) -> Seq<Seq<char>>
    decreases k,
{
    if k <= 0 {
        Seq::empty()
    } else {
        let front = emitted_ids(arena, triples, rs, items, k - 1);
        let i = items[k - 1].triple;
        if rs[i].disposition is Drop {
            front
        } else {
            front + ids_of(arena, triples[i])
        }
    }
}

fn push_id(out: &mut Vec<String>, arena: &Arena, idx: Option<Idx>)
    requires
        crate::v2::types::idx_ok(idx, arena@.len()),
    ensures
        strs(final(out)@) == strs(old(out)@) + id_of(arena@, idx),
{
    let ghost held = strs(out@);
    match idx {
        Some(i) => {
            out.push(arena.get(i).src_id.clone());
            proof {
                assert(strs(out@) =~= held + id_of(arena@, idx));
            }
        },
        None => {
            proof {
                assert(strs(out@) =~= held + id_of(arena@, idx));
            }
        },
    }
}

/// Every id that the plan will emit, in every version.
pub fn emitted_src_ids(
    arena: &Arena,
    triples: &Vec<Triple>,
    resolved: &Vec<Resolved>,
    items: &Vec<PlannedItem>,
) -> (r: Vec<String>)
    requires
        triples_wf(triple_views(triples@), arena@.len()),
        resolved@.len() == triples@.len(),
        forall|k: int| 0 <= k < items@.len() ==> (#[trigger] items@[k]).triple < triples@.len(),
    ensures
        strs(r@) == emitted_ids(
            arena@,
            triple_views(triples@),
            resolved_views(resolved@),
            views(items@),
            items@.len() as int,
        ),
{
    let ghost tv = triple_views(triples@);
    let ghost rv = resolved_views(resolved@);
    let ghost iv = views(items@);
    let mut out: Vec<String> = Vec::new();
    let mut k: usize = 0;
    proof {
        assert(strs(out@) =~= Seq::empty());
    }
    while k < items.len()
        invariant
            k <= items@.len(),
            tv == triple_views(triples@),
            rv == resolved_views(resolved@),
            iv == views(items@),
            triples_wf(tv, arena@.len()),
            resolved@.len() == triples@.len(),
            forall|k: int| 0 <= k < items@.len() ==> (#[trigger] items@[k]).triple < triples@.len(),
            strs(out@) == emitted_ids(arena@, tv, rv, iv, k as int),
        decreases items@.len() - k,
    {
        let i: usize = items[k].triple;
        proof {
            assert(iv[k as int] == items@[k as int]@);
            assert(rv[i as int] == resolved@[i as int]@);
            assert(tv[i as int] == triples@[i as int]@);
        }
        if !resolved[i].disposition.is_drop() {
            let ghost held = strs(out@);
            push_id(&mut out, arena, triples[i].base_idx());
            push_id(&mut out, arena, triples[i].ours_idx());
            push_id(&mut out, arena, triples[i].theirs_idx());
            proof {
                assert(strs(out@) =~= held + ids_of(arena@, tv[i as int]));
            }
        }
        k = k + 1;
    }
    out
}

// ---------------------------------------------------------------------------
// The page
// ---------------------------------------------------------------------------

/// The text, with a line feed where it holds something and ends in none.
pub open spec fn fed(s: Seq<char>) -> Seq<char> {
    if s.len() > 0 && s.last() != '\n' {
        s.push('\n')
    } else {
        s
    }
}

/// The text with a line feed behind it, where it ends in none.
pub open spec fn closed_off(s: Seq<char>) -> Seq<char> {
    if s.len() > 0 && s.last() == '\n' {
        s
    } else {
        s.push('\n')
    }
}

/// The entity with what the language writes between two entities behind it, in
/// front of the white space it ends in.
pub open spec fn separated(text: Seq<char>, sequence: Option<Seq<char>>) -> Seq<char> {
    match sequence {
        Some(sep) => {
            let body = trim_end(text);
            body + sep + text.subrange(body.len() as int, text.len() as int)
        },
        None => text,
    }
}

impl InterstitialsView {
    /// The keys, among the first `k` gaps, that lead the entity with the id.
    pub open spec fn keys_for(self, id: Seq<char>, k: int) -> Seq<Seq<char>>
        decreases k,
    {
        if k <= 0 {
            Seq::empty()
        } else if self.leads[k - 1].leads == Some(id) {
            self.keys_for(id, k - 1).push(self.leads[k - 1].key)
        } else {
            self.keys_for(id, k - 1)
        }
    }

    /// The keys that lead the first `k` ids.
    pub open spec fn keys_for_all(self, ids: Seq<Seq<char>>, k: int) -> Seq<Seq<char>>
        decreases k,
    {
        if k <= 0 {
            Seq::empty()
        } else {
            self.keys_for_all(ids, k - 1) + self.keys_for(ids[k - 1], self.leads.len() as int)
        }
    }

    /// The keys that lead a triple, under whichever of its ids they are known.
    pub open spec fn lead_keys(self, arena: Seq<EntityView>, t: TripleView) -> Seq<Seq<char>> {
        let ids = ids_of(arena, t);
        self.keys_for_all(ids, ids.len() as int)
    }

    /// The gaps with the first `k` keys, each closed off.
    pub open spec fn gap_block(self, keys: Seq<Seq<char>>, k: int) -> Seq<char>
        decreases k,
    {
        if k <= 0 {
            Seq::empty()
        } else {
            match gap_text(self.merged, keys[k - 1], 0) {
                Some(t) => self.gap_block(keys, k - 1) + closed_off(t),
                None => self.gap_block(keys, k - 1),
            }
        }
    }
}

/// Those of the first `k` keys that are not spent yet, each once.
pub open spec fn unspent(keys: Seq<Seq<char>>, spent: Seq<Seq<char>>, k: int) -> Seq<Seq<char>>
    decreases k,
{
    if k <= 0 {
        Seq::empty()
    } else {
        let front = unspent(keys, spent, k - 1);
        if spent.contains(keys[k - 1]) || front.contains(keys[k - 1]) {
            front
        } else {
            front.push(keys[k - 1])
        }
    }
}

/// A file while it is put together: the text, the gaps that are spent, and whether
/// an entity stands on it already.
pub struct Page {
    pub text: Seq<char>,
    pub spent: Seq<Seq<char>>,
    pub begun: bool,
}

/// What is rendered.
pub struct Rendering {
    pub arena: Seq<EntityView>,
    pub triples: Seq<TripleView>,
    pub rs: Seq<ResolvedView>,
    pub items: Seq<PlannedView>,
    pub gaps: InterstitialsView,
    /// What the language writes between two entities.
    pub sequence: Option<Seq<char>>,
}

impl Rendering {
    /// The text that the `k`th item puts on the page; empty where it puts none.
    pub open spec fn item_text(self, k: int) -> Seq<char> {
        match self.rs[self.items[k].triple].disposition.emitted() {
            Some(t) => t,
            None => Seq::empty(),
        }
    }

    /// Does one of the items from the `k`th on put something on the page?
    pub open spec fn more_from(self, k: int) -> bool
        decreases self.items.len() - k,
    {
        0 <= k < self.items.len() && (self.item_text(k).len() > 0 || self.more_from(k + 1))
    }

    /// The text of the `k`th item: one that was merged, and that another follows, has
    /// what the language writes between two entities behind it.
    pub open spec fn entity_text(self, k: int) -> Seq<char> {
        if self.rs[self.items[k].triple].disposition is Emit && self.more_from(k + 1) {
            separated(self.item_text(k), self.sequence)
        } else {
            self.item_text(k)
        }
    }

    /// The page with the `k`th item: the gaps that lead it, or a separator where none
    /// does, and its text.
    pub open spec fn with_item(self, p: Page, k: int) -> Page {
        if self.item_text(k).len() == 0 {
            p
        } else {
            let all = self.gaps.lead_keys(self.arena, self.triples[self.items[k].triple]);
            let keys = unspent(all, p.spent, all.len() as int);
            let lead = if keys.len() > 0 {
                self.gaps.gap_block(keys, keys.len() as int)
            } else if p.begun {
                self.gaps.separator
            } else {
                Seq::empty()
            };
            Page {
                text: fed(p.text) + lead + closed_off(self.entity_text(k)),
                spent: p.spent + keys,
                begun: true,
            }
        }
    }

    /// The page with the first `k` items, behind the file's header.
    pub open spec fn page(self, k: int) -> Page
        decreases k,
    {
        if k <= 0 {
            Page {
                text: match gap_text(self.gaps.merged, "file_header"@, 0) {
                    Some(t) => t,
                    None => Seq::empty(),
                },
                spent: Seq::empty(),
                begun: false,
            }
        } else {
            self.with_item(self.page(k - 1), k - 1)
        }
    }

    /// The text with those of the first `n` gaps that no emitted entity behind them
    /// leads and that are not spent.
    pub open spec fn with_trailing(self, p: Page, n: int) -> Page
        decreases n,
    {
        if n <= 0 {
            p
        } else {
            let q = self.with_trailing(p, n - 1);
            let lead = self.gaps.leads[n - 1];
            if lead.leads is Some || q.spent.contains(lead.key) {
                q
            } else {
                Page {
                    text: match gap_text(self.gaps.merged, lead.key, 0) {
                        Some(t) => fed(q.text) + t,
                        None => q.text,
                    },
                    spent: q.spent.push(lead.key),
                    begun: q.begun,
                }
            }
        }
    }

    /// The whole file: the header, the items, the gaps that trail them and the
    /// footer; and where the plan is empty, what a file without entities holds.
    pub open spec fn file(self) -> Seq<char> {
        let body = self.with_trailing(
            self.page(self.items.len() as int),
            self.gaps.leads.len() as int,
        ).text;
        let with_footer = match gap_text(self.gaps.merged, "file_footer"@, 0) {
            Some(t) => fed(body) + t,
            None => body,
        };
        match gap_text(self.gaps.merged, "file_only"@, 0) {
            Some(t) => if self.items.len() == 0 {
                with_footer + t
            } else {
                with_footer
            },
            None => with_footer,
        }
    }
}

fn feed(out: &mut Vec<char>)
    ensures
        final(out)@ == fed(old(out)@),
{
    let n: usize = out.len();
    if n > 0 && out[n - 1] != '\n' {
        out.push('\n');
    }
}

fn push_closed(out: &mut Vec<char>, s: &[char])
    ensures
        final(out)@ == old(out)@ + closed_off(s@),
{
    let ghost held = out@;
    push_all(out, s);
    let n: usize = s.len();
    if !(n > 0 && s[n - 1] == '\n') {
        out.push('\n');
        proof {
            assert(out@ =~= held + s@.push('\n'));
        }
    }
}

fn push_keys_for(out: &mut Vec<String>, gaps: &Interstitials, id: &str)
    ensures
        strs(final(out)@) == strs(old(out)@) + gaps@.keys_for(id@, gaps.leads@.len() as int),
{
    let ghost held = strs(out@);
    let ghost all = views(gaps.leads@);
    let mut k: usize = 0;
    proof {
        assert(held =~= held + gaps@.keys_for(id@, 0));
    }
    while k < gaps.leads.len()
        invariant
            k <= gaps.leads@.len(),
            all == views(gaps.leads@),
            strs(out@) == held + gaps@.keys_for(id@, k as int),
        decreases gaps.leads@.len() - k,
    {
        proof {
            assert(all[k as int] == gaps.leads@[k as int]@);
        }
        let mine = match &gaps.leads[k].leads {
            Some(x) => str_eq(x.as_str(), id),
            None => false,
        };
        if mine {
            let ghost now = strs(out@);
            out.push(gaps.leads[k].key.clone());
            proof {
                assert(strs(out@) =~= now.push(all[k as int].key));
                assert(strs(out@) =~= held + gaps@.keys_for(id@, k + 1));
            }
        }
        k = k + 1;
    }
}

impl Interstitials {
    /// The gap keys that lead this triple, under whichever of its ids they are known.
    fn lead_keys(&self, triple: &Triple, arena: &Arena) -> (r: Vec<String>)
        requires
            triple@.wf(arena@.len()),
        ensures
            strs(r@) == self@.lead_keys(arena@, triple@),
    {
        let ghost ids = ids_of(arena@, triple@);
        let mut id_list: Vec<String> = Vec::new();
        proof {
            assert(strs(id_list@) =~= Seq::empty());
        }
        push_id(&mut id_list, arena, triple.base_idx());
        push_id(&mut id_list, arena, triple.ours_idx());
        push_id(&mut id_list, arena, triple.theirs_idx());
        proof {
            assert(strs(id_list@) =~= ids);
            assert(ids.len() == id_list@.len());
        }
        let mut out: Vec<String> = Vec::new();
        let mut k: usize = 0;
        proof {
            assert(strs(out@) =~= Seq::empty());
        }
        while k < id_list.len()
            invariant
                k <= id_list@.len(),
                ids == strs(id_list@),
                strs(out@) == self@.keys_for_all(ids, k as int),
            decreases id_list@.len() - k,
        {
            proof {
                assert(ids[k as int] == id_list@[k as int]@);
            }
            push_keys_for(&mut out, self, id_list[k].as_str());
            k = k + 1;
        }
        out
    }
}

fn find_unspent(keys: &Vec<String>, spent: &Vec<String>) -> (r: Vec<String>)
    ensures
        strs(r@) == unspent(strs(keys@), strs(spent@), keys@.len() as int),
{
    let ghost kv = strs(keys@);
    let mut out: Vec<String> = Vec::new();
    let mut k: usize = 0;
    proof {
        assert(strs(out@) =~= Seq::empty());
    }
    while k < keys.len()
        invariant
            k <= keys@.len(),
            kv == strs(keys@),
            strs(out@) == unspent(kv, strs(spent@), k as int),
        decreases keys@.len() - k,
    {
        proof {
            assert(kv[k as int] == keys@[k as int]@);
        }
        if !list_has(spent, keys[k].as_str()) && !list_has(&out, keys[k].as_str()) {
            let ghost held = strs(out@);
            out.push(keys[k].clone());
            proof {
                assert(strs(out@) =~= held.push(kv[k as int]));
            }
        }
        k = k + 1;
    }
    out
}

fn push_gap_block(out: &mut Vec<char>, gaps: &Interstitials, keys: &Vec<String>)
    ensures
        final(out)@ == old(out)@ + gaps@.gap_block(strs(keys@), keys@.len() as int),
{
    let ghost held = out@;
    let ghost kv = strs(keys@);
    let mut k: usize = 0;
    proof {
        assert(held =~= held + gaps@.gap_block(kv, 0));
    }
    while k < keys.len()
        invariant
            k <= keys@.len(),
            kv == strs(keys@),
            out@ == held + gaps@.gap_block(kv, k as int),
        decreases keys@.len() - k,
    {
        proof {
            assert(kv[k as int] == keys@[k as int]@);
        }
        match find_gap(&gaps.merged, keys[k].as_str()) {
            Some(t) => {
                let ghost now = out@;
                push_closed(out, chars_of(t).as_slice());
                proof {
                    let block = gaps@.gap_block(kv, k as int);
                    assert(now + closed_off(t@) =~= held + (block + closed_off(t@)));
                }
            },
            None => {},
        }
        k = k + 1;
    }
}

fn separate(text: &str, sequence: &Option<&str>) -> (r: Vec<char>)
    ensures
        r@ == separated(text@, crate::conflict::opt_str(*sequence)),
{
    let c = chars_of(text);
    match sequence {
        None => c,
        Some(sep) => {
            let body = trimmed_end(c.as_slice());
            let n: usize = body.len();
            let mut out: Vec<char> = Vec::new();
            push_all(&mut out, body);
            push_text(&mut out, sep);
            push_all(&mut out, vstd::slice::slice_subrange(c.as_slice(), n, c.len()));
            proof {
                assert(out@ =~= separated(text@, crate::conflict::opt_str(*sequence)));
            }
            out
        },
    }
}

/// What is rendered, read off its parts.
pub open spec fn rendering_of(
    arena: Seq<EntityView>,
    triples: Seq<Triple>,
    resolved: Seq<Resolved>,
    items: Seq<PlannedItem>,
    gaps: InterstitialsView,
    sequence: Option<Seq<char>>,
) -> Rendering {
    Rendering {
        arena,
        triples: triple_views(triples),
        rs: resolved_views(resolved),
        items: views(items),
        gaps,
        sequence,
    }
}

fn has_more(resolved: &Vec<Resolved>, items: &Vec<PlannedItem>, from: usize, Ghost(x): Ghost<Rendering>) -> (r:
    bool)
    requires
        x.rs == resolved_views(resolved@),
        x.items == views(items@),
        from <= items@.len(),
        forall|k: int| 0 <= k < items@.len() ==> (#[trigger] items@[k]).triple < resolved@.len(),
    ensures
        r == x.more_from(from as int),
{
    let mut k: usize = from;
    while k < items.len()
        invariant
            x.rs == resolved_views(resolved@),
            x.items == views(items@),
            from <= k <= items@.len(),
            forall|k: int| 0 <= k < items@.len() ==> (#[trigger] items@[k]).triple < resolved@.len(),
            x.more_from(k as int) == x.more_from(from as int),
        decreases items@.len() - k,
    {
        let i: usize = items[k].triple;
        proof {
            assert(x.items[k as int] == items@[k as int]@);
            assert(x.rs[i as int] == resolved@[i as int]@);
        }
        match resolved[i].disposition.emitted() {
            Some(t) => {
                if chars_of(t).len() > 0 {
                    return true;
                }
            },
            None => {},
        }
        k = k + 1;
    }
    false
}

/// Put the file together: the header, every planned item with the gap it carries,
/// the gaps that nothing leads and the footer. Each gap is spent once.
///
/// `sequence` is what the language writes between two entities.
pub fn render(
    arena: &Arena,
    triples: &Vec<Triple>,
    resolved: &Vec<Resolved>,
    items: &Vec<PlannedItem>,
    interstitials: &Interstitials,
    sequence: Option<&str>,
) -> (r: String)
    requires
        triples_wf(triple_views(triples@), arena@.len()),
        resolved@.len() == triples@.len(),
        forall|k: int| 0 <= k < items@.len() ==> (#[trigger] items@[k]).triple < triples@.len(),
    ensures
        r@ == rendering_of(
            arena@,
            triples@,
            resolved@,
            items@,
            interstitials@,
            crate::conflict::opt_str(sequence),
        ).file(),
{
    let ghost x = rendering_of(
        arena@,
        triples@,
        resolved@,
        items@,
        interstitials@,
        crate::conflict::opt_str(sequence),
    );
    let mut out: Vec<char> = match find_gap(&interstitials.merged, "file_header") {
        Some(t) => chars_of(t),
        None => Vec::new(),
    };
    let mut spent: Vec<String> = Vec::new();
    let mut begun = false;
    let mut k: usize = 0;
    proof {
        assert(strs(spent@) =~= Seq::empty());
        assert(out@ =~= x.page(0).text);
    }
    while k < items.len()
        invariant
            x == rendering_of(
                arena@,
                triples@,
                resolved@,
                items@,
                interstitials@,
                crate::conflict::opt_str(sequence),
            ),
            triples_wf(x.triples, arena@.len()),
            resolved@.len() == triples@.len(),
            forall|k: int| 0 <= k < items@.len() ==> (#[trigger] items@[k]).triple < triples@.len(),
            k <= items@.len(),
            out@ == x.page(k as int).text,
            strs(spent@) == x.page(k as int).spent,
            begun == x.page(k as int).begun,
        decreases items@.len() - k,
    {
        let i: usize = items[k].triple;
        proof {
            assert(x.items[k as int] == items@[k as int]@);
            assert(x.rs[i as int] == resolved@[i as int]@);
            assert(x.triples[i as int] == triples@[i as int]@);
        }
        let text = match resolved[i].disposition.emitted() {
            Some(t) => chars_of(t),
            None => Vec::new(),
        };
        proof {
            assert(text@ =~= x.item_text(k as int));
        }
        if text.len() > 0 {
            feed(&mut out);
            let ghost fed_text = out@;
            let all = interstitials.lead_keys(&triples[i], arena);
            let keys = find_unspent(&all, &spent);
            proof {
                assert(strs(all@).len() == all@.len());
                assert(strs(keys@).len() == keys@.len());
            }
            if keys.len() > 0 {
                push_gap_block(&mut out, interstitials, &keys);
            } else if begun {
                push_text(&mut out, interstitials.separator.as_str());
            } else {
                proof {
                    assert(fed_text + Seq::<char>::empty() =~= fed_text);
                }
            }
            let emits = match &resolved[i].disposition {
                Disposition::Emit { .. } => true,
                _ => false,
            };
            if emits && has_more(resolved, items, k + 1, Ghost(x)) {
                let t = string_of(text.as_slice());
                let whole = separate(t.as_str(), &sequence);
                push_closed(&mut out, whole.as_slice());
            } else {
                push_closed(&mut out, text.as_slice());
            }
            let ghost had = strs(spent@);
            let ghost more = strs(keys@);
            let mut keys = keys;
            spent.append(&mut keys);
            proof {
                assert(strs(spent@) =~= had + more);
            }
            begun = true;
            proof {
                assert(out@ =~= x.page(k + 1).text);
            }
        }
        k = k + 1;
    }
    let ghost body = x.page(items@.len() as int);
    let ghost leads = views(interstitials.leads@);
    let mut n: usize = 0;
    while n < interstitials.leads.len()
        invariant
            x.gaps == interstitials@,
            leads == views(interstitials.leads@),
            n <= interstitials.leads@.len(),
            out@ == x.with_trailing(body, n as int).text,
            strs(spent@) == x.with_trailing(body, n as int).spent,
        decreases interstitials.leads@.len() - n,
    {
        let lead = &interstitials.leads[n];
        proof {
            assert(leads[n as int] == lead@);
        }
        if lead.leads.is_none() && !list_has(&spent, lead.key.as_str()) {
            match find_gap(&interstitials.merged, lead.key.as_str()) {
                Some(t) => {
                    feed(&mut out);
                    push_text(&mut out, t);
                },
                None => {},
            }
            let ghost had = strs(spent@);
            spent.push(lead.key.clone());
            proof {
                assert(strs(spent@) =~= had.push(lead.key@));
            }
        }
        n = n + 1;
    }
    match find_gap(&interstitials.merged, "file_footer") {
        Some(t) => {
            feed(&mut out);
            push_text(&mut out, t);
        },
        None => {},
    }
    match find_gap(&interstitials.merged, "file_only") {
        Some(t) => {
            if items.len() == 0 {
                push_text(&mut out, t);
            }
        },
        None => {},
    }
    string_of(out.as_slice())
}

proof fn unspent_is_new(keys: Seq<Seq<char>>, spent: Seq<Seq<char>>, k: int)
    requires
        0 <= k <= keys.len(),
    ensures
        unspent(keys, spent, k).no_duplicates(),
        forall|x: Seq<char>| #[trigger] unspent(keys, spent, k).contains(x) ==> !spent.contains(x),
    decreases k,
{
    if k > 0 {
        unspent_is_new(keys, spent, k - 1);
        let front = unspent(keys, spent, k - 1);
        let all = unspent(keys, spent, k);
        assert forall|x: Seq<char>| #[trigger] all.contains(x) implies !spent.contains(x) by {
            let i = choose|i: int| 0 <= i < all.len() && all[i] == x;
            if i < front.len() {
                assert(front[i] == x);
                assert(front.contains(x));
            }
        }
    }
}

/// A gap is spent once: what was emitted for one entity does not reappear in front
/// of another.
pub proof fn a_gap_is_spent_once(x: Rendering, k: int)
    requires
        0 <= k <= x.items.len(),
    ensures
        x.page(k).spent.no_duplicates(),
    decreases k,
{
    if k > 0 {
        a_gap_is_spent_once(x, k - 1);
        let p = x.page(k - 1);
        if x.item_text(k - 1).len() > 0 {
            let all = x.gaps.lead_keys(x.arena, x.triples[x.items[k - 1].triple]);
            let keys = unspent(all, p.spent, all.len() as int);
            unspent_is_new(all, p.spent, all.len() as int);
            let spent = p.spent + keys;
            assert forall|i: int, j: int| 0 <= i < j < spent.len() implies spent[i] != spent[j] by {
                if j >= p.spent.len() {
                    assert(spent[j] == keys[j - p.spent.len()]);
                    assert(keys.contains(keys[j - p.spent.len()]));
                    if i < p.spent.len() {
                        assert(p.spent.contains(p.spent[i]));
                    } else {
                        assert(spent[i] == keys[i - p.spent.len()]);
                    }
                }
            }
            assert(spent.no_duplicates()) by {
                assert forall|i: int, j: int|
                    0 <= i < spent.len() && 0 <= j < spent.len() && i != j implies spent[i]
                    != spent[j] by {
                    if i < j {
                        assert(spent[i] != spent[j]);
                    } else {
                        assert(spent[j] != spent[i]);
                    }
                }
            }
        }
    }
}

/// Is `a` the head of `b`?
pub open spec fn heads(a: Seq<char>, b: Seq<char>) -> bool {
    a.len() <= b.len() && b.subrange(0, a.len() as int) == a
}

proof fn heads_is_transitive(a: Seq<char>, b: Seq<char>, c: Seq<char>)
    requires
        heads(a, b),
        heads(b, c),
    ensures
        heads(a, c),
{
    assert(c.subrange(0, a.len() as int) =~= b.subrange(0, a.len() as int));
}

proof fn heads_of_more(a: Seq<char>, t: Seq<char>)
    ensures
        heads(a, fed(a) + t),
        heads(a, a + t),
{
    assert((fed(a) + t).subrange(0, a.len() as int) =~= a);
    assert((a + t).subrange(0, a.len() as int) =~= a);
}

proof fn pages_grow(x: Rendering, i: int, k: int)
    requires
        0 <= i <= k <= x.items.len(),
    ensures
        heads(x.page(i).text, x.page(k).text),
    decreases k - i,
{
    if i < k {
        pages_grow(x, i, k - 1);
        let p = x.page(k - 1);
        if x.item_text(k - 1).len() > 0 {
            let all = x.gaps.lead_keys(x.arena, x.triples[x.items[k - 1].triple]);
            let keys = unspent(all, p.spent, all.len() as int);
            let lead = if keys.len() > 0 {
                x.gaps.gap_block(keys, keys.len() as int)
            } else if p.begun {
                x.gaps.separator
            } else {
                Seq::empty()
            };
            let t = closed_off(x.entity_text(k - 1));
            heads_of_more(p.text, lead + t);
            assert(fed(p.text) + lead + t =~= fed(p.text) + (lead + t));
        } else {
            assert(p.text.subrange(0, p.text.len() as int) =~= p.text);
        }
        heads_is_transitive(x.page(i).text, p.text, x.page(k).text);
    } else {
        assert(x.page(k).text.subrange(0, x.page(k).text.len() as int) =~= x.page(k).text);
    }
}

proof fn trailing_grows(x: Rendering, p: Page, n: int)
    ensures
        heads(p.text, x.with_trailing(p, n).text),
    decreases n,
{
    if n > 0 {
        trailing_grows(x, p, n - 1);
        let q = x.with_trailing(p, n - 1);
        let lead = x.gaps.leads[n - 1];
        if let Some(t) = gap_text(x.gaps.merged, lead.key, 0) {
            heads_of_more(q.text, t);
            if !(lead.leads is Some || q.spent.contains(lead.key)) {
                heads_is_transitive(p.text, q.text, fed(q.text) + t);
            }
        }
    } else {
        assert(p.text.subrange(0, p.text.len() as int) =~= p.text);
    }
}

proof fn the_file_holds_the_page(x: Rendering)
    ensures
        heads(x.page(x.items.len() as int).text, x.file()),
{
    let page = x.page(x.items.len() as int);
    trailing_grows(x, page, x.gaps.leads.len() as int);
    let body = x.with_trailing(page, x.gaps.leads.len() as int).text;
    let with_footer = match gap_text(x.gaps.merged, "file_footer"@, 0) {
        Some(t) => fed(body) + t,
        None => body,
    };
    if let Some(t) = gap_text(x.gaps.merged, "file_footer"@, 0) {
        heads_of_more(body, t);
        heads_is_transitive(page.text, body, with_footer);
    }
    if let Some(t) = gap_text(x.gaps.merged, "file_only"@, 0) {
        if x.items.len() == 0 {
            heads_of_more(with_footer, t);
            heads_is_transitive(page.text, with_footer, with_footer + t);
        }
    }
}

/// Nothing that was decided is dropped: the text of every item stands in the file,
/// behind everything that the items before it put there and in front of everything
/// that the items behind it do.
pub proof fn every_item_stands_in_the_file(x: Rendering, k: int) -> (at: int)
    requires
        0 <= k < x.items.len(),
        x.item_text(k).len() > 0,
    ensures
        heads(x.page(k).text, x.file()),
        heads(x.page(k + 1).text, x.file()),
        x.page(k).text.len() <= at,
        at + x.entity_text(k).len() <= x.page(k + 1).text.len(),
        x.file().subrange(at, at + x.entity_text(k).len()) == x.entity_text(k),
{
    let n = x.items.len() as int;
    pages_grow(x, k, n);
    pages_grow(x, k + 1, n);
    the_file_holds_the_page(x);
    heads_is_transitive(x.page(k).text, x.page(n).text, x.file());
    heads_is_transitive(x.page(k + 1).text, x.page(n).text, x.file());
    let p = x.page(k);
    let all = x.gaps.lead_keys(x.arena, x.triples[x.items[k].triple]);
    let keys = unspent(all, p.spent, all.len() as int);
    let lead = if keys.len() > 0 {
        x.gaps.gap_block(keys, keys.len() as int)
    } else if p.begun {
        x.gaps.separator
    } else {
        Seq::empty()
    };
    let t = x.entity_text(k);
    let at = (fed(p.text) + lead).len() as int;
    let after = x.page(k + 1).text;
    assert(after == fed(p.text) + lead + closed_off(t));
    assert(x.file().subrange(at, at + t.len()) =~= after.subrange(at, at + t.len()));
    assert(after.subrange(at, at + t.len()) =~= t);
    at
}


// ---------------------------------------------------------------------------
// No gap is lost
// ---------------------------------------------------------------------------

/// Does the text stand in the other one?
pub open spec fn stands_in(t: Seq<char>, s: Seq<char>) -> bool {
    exists|at: int| 0 <= at && at + t.len() <= s.len() && #[trigger] s.subrange(at, at + t.len()) == t
}

proof fn stands_between(a: Seq<char>, t: Seq<char>, c: Seq<char>)
    ensures
        stands_in(t, a + t + c),
        stands_in(t, a + t),
        stands_in(t, t + c),
{
    let n = a.len() as int;
    assert((a + t + c).subrange(n, n + t.len()) =~= t);
    assert((a + t).subrange(n, n + t.len()) =~= t);
    assert((t + c).subrange(0, 0int + t.len()) =~= t);
}

proof fn stands_in_more(t: Seq<char>, a: Seq<char>, b: Seq<char>)
    requires
        stands_in(t, a),
        heads(a, b),
    ensures
        stands_in(t, b),
{
    let at = choose|at: int|
        0 <= at && at + t.len() <= a.len() && #[trigger] a.subrange(at, at + t.len()) == t;
    assert(b.subrange(at, at + t.len()) =~= b.subrange(0, a.len() as int).subrange(
        at,
        at + t.len(),
    ));
}

proof fn stands_in_part(t: Seq<char>, a: Seq<char>, m: Seq<char>, c: Seq<char>)
    requires
        stands_in(t, m),
    ensures
        stands_in(t, a + m + c),
{
    let at = choose|at: int|
        0 <= at && at + t.len() <= m.len() && #[trigger] m.subrange(at, at + t.len()) == t;
    let n = a.len() + at;
    assert((a + m + c).subrange(n, n + t.len()) =~= m.subrange(at, at + t.len()));
}

proof fn stands_closed_off(a: Seq<char>, t: Seq<char>)
    ensures
        stands_in(t, a + closed_off(t)),
{
    let n = a.len() as int;
    assert((a + closed_off(t)).subrange(n, n + t.len()) =~= t);
}

proof fn a_block_holds_its_gaps(
    gaps: InterstitialsView,
    keys: Seq<Seq<char>>,
    n: int,
    i: int,
    t: Seq<char>,
)
    requires
        0 <= i < n <= keys.len(),
        gap_text(gaps.merged, keys[i], 0) == Some(t),
    ensures
        stands_in(t, gaps.gap_block(keys, n)),
    decreases n,
{
    let front = gaps.gap_block(keys, n - 1);
    if i == n - 1 {
        stands_closed_off(front, t);
    } else {
        a_block_holds_its_gaps(gaps, keys, n - 1, i, t);
        if let Some(u) = gap_text(gaps.merged, keys[n - 1], 0) {
            heads_of_more(front, closed_off(u));
            stands_in_more(t, front, front + closed_off(u));
        }
    }
}

proof fn what_is_spent_stands(x: Rendering, k: int, key: Seq<char>, t: Seq<char>)
    requires
        0 <= k <= x.items.len(),
        x.page(k).spent.contains(key),
        gap_text(x.gaps.merged, key, 0) == Some(t),
    ensures
        stands_in(t, x.page(k).text),
    decreases k,
{
    if k > 0 {
        let p = x.page(k - 1);
        if p.spent.contains(key) {
            what_is_spent_stands(x, k - 1, key, t);
            pages_grow(x, k - 1, k);
            stands_in_more(t, p.text, x.page(k).text);
        } else {
            let all = x.gaps.lead_keys(x.arena, x.triples[x.items[k - 1].triple]);
            let keys = unspent(all, p.spent, all.len() as int);
            let spent = p.spent + keys;
            let i = choose|i: int| 0 <= i < spent.len() && spent[i] == key;
            if i < p.spent.len() {
                assert(p.spent[i] == key);
            }
            assert(keys[i - p.spent.len()] == key);
            a_block_holds_its_gaps(x.gaps, keys, keys.len() as int, i - p.spent.len(), t);
            stands_in_part(
                t,
                fed(p.text),
                x.gaps.gap_block(keys, keys.len() as int),
                closed_off(x.entity_text(k - 1)),
            );
        }
    }
}

proof fn what_leads_is_spent(x: Rendering, k: int, j: int, id: Seq<char>)
    requires
        0 <= k < x.items.len(),
        x.item_text(k).len() > 0,
        0 <= j < x.gaps.leads.len(),
        x.gaps.leads[j].leads == Some(id),
        ids_of(x.arena, x.triples[x.items[k].triple]).contains(id),
    ensures
        x.page(k + 1).spent.contains(x.gaps.leads[j].key),
{
    let key = x.gaps.leads[j].key;
    let ids = ids_of(x.arena, x.triples[x.items[k].triple]);
    let m = choose|m: int| 0 <= m < ids.len() && ids[m] == id;
    keys_hold(x.gaps, id, x.gaps.leads.len() as int, j);
    all_keys_hold(x.gaps, ids, ids.len() as int, m, key);
    let all = x.gaps.lead_keys(x.arena, x.triples[x.items[k].triple]);
    let i = choose|i: int| 0 <= i < all.len() && all[i] == key;
    let p = x.page(k);
    unspent_or_spent(all, p.spent, all.len() as int, i);
    let keys = unspent(all, p.spent, all.len() as int);
    let spent = p.spent + keys;
    if p.spent.contains(key) {
        let m = choose|m: int| 0 <= m < p.spent.len() && p.spent[m] == key;
        assert(spent[m] == key);
    } else {
        let m = choose|m: int| 0 <= m < keys.len() && keys[m] == key;
        assert(spent[p.spent.len() + m] == key);
    }
}

proof fn keys_hold(gaps: InterstitialsView, id: Seq<char>, n: int, j: int)
    requires
        0 <= j < n <= gaps.leads.len(),
        gaps.leads[j].leads == Some(id),
    ensures
        gaps.keys_for(id, n).contains(gaps.leads[j].key),
    decreases n,
{
    let front = gaps.keys_for(id, n - 1);
    let all = gaps.keys_for(id, n);
    if j == n - 1 {
        assert(all[front.len() as int] == gaps.leads[j].key);
    } else {
        keys_hold(gaps, id, n - 1, j);
        let i = choose|i: int| 0 <= i < front.len() && front[i] == gaps.leads[j].key;
        assert(all[i] == gaps.leads[j].key);
    }
}

proof fn all_keys_hold(gaps: InterstitialsView, ids: Seq<Seq<char>>, n: int, m: int, key: Seq<char>)
    requires
        0 <= m < n <= ids.len(),
        gaps.keys_for(ids[m], gaps.leads.len() as int).contains(key),
    ensures
        gaps.keys_for_all(ids, n).contains(key),
    decreases n,
{
    let front = gaps.keys_for_all(ids, n - 1);
    let last = gaps.keys_for(ids[n - 1], gaps.leads.len() as int);
    let all = gaps.keys_for_all(ids, n);
    if m == n - 1 {
        let i = choose|i: int| 0 <= i < last.len() && last[i] == key;
        assert(all[front.len() + i] == key);
    } else {
        all_keys_hold(gaps, ids, n - 1, m, key);
        let i = choose|i: int| 0 <= i < front.len() && front[i] == key;
        assert(all[i] == key);
    }
}

proof fn unspent_or_spent(keys: Seq<Seq<char>>, spent: Seq<Seq<char>>, k: int, i: int)
    requires
        0 <= i < k <= keys.len(),
    ensures
        spent.contains(keys[i]) || unspent(keys, spent, k).contains(keys[i]),
    decreases k,
{
    let front = unspent(keys, spent, k - 1);
    let all = unspent(keys, spent, k);
    if i < k - 1 {
        unspent_or_spent(keys, spent, k - 1, i);
        if front.contains(keys[i]) {
            let m = choose|m: int| 0 <= m < front.len() && front[m] == keys[i];
            assert(all[m] == keys[i]);
        }
    } else if !spent.contains(keys[i]) && !front.contains(keys[i]) {
        assert(all[front.len() as int] == keys[i]);
    }
}

proof fn what_trails_stands(x: Rendering, p: Page, n: int, key: Seq<char>, t: Seq<char>)
    requires
        0 <= n <= x.gaps.leads.len(),
        gap_text(x.gaps.merged, key, 0) == Some(t),
        p.spent.contains(key) ==> stands_in(t, p.text),
        x.with_trailing(p, n).spent.contains(key),
    ensures
        stands_in(t, x.with_trailing(p, n).text),
    decreases n,
{
    if n > 0 {
        let q = x.with_trailing(p, n - 1);
        let all = x.with_trailing(p, n);
        let lead = x.gaps.leads[n - 1];
        if q.spent.contains(key) {
            what_trails_stands(x, p, n - 1, key, t);
            if let Some(u) = gap_text(x.gaps.merged, lead.key, 0) {
                heads_of_more(q.text, u);
                stands_in_more(t, q.text, fed(q.text) + u);
            }
        } else {
            let i = choose|i: int| 0 <= i < all.spent.len() && all.spent[i] == key;
            if i < q.spent.len() {
                assert(q.spent[i] == key);
            }
            assert(lead.key == key);
            stands_between(fed(q.text), t, Seq::empty());
        }
    }
}

proof fn what_leads_nothing_is_spent(x: Rendering, p: Page, n: int, j: int)
    requires
        0 <= j < n <= x.gaps.leads.len(),
        x.gaps.leads[j].leads is None,
    ensures
        x.with_trailing(p, n).spent.contains(x.gaps.leads[j].key),
    decreases n,
{
    let q = x.with_trailing(p, n - 1);
    let all = x.with_trailing(p, n);
    let key = x.gaps.leads[j].key;
    if j < n - 1 {
        what_leads_nothing_is_spent(x, p, n - 1, j);
    }
    if q.spent.contains(key) {
        let i = choose|i: int| 0 <= i < q.spent.len() && q.spent[i] == key;
        assert(all.spent[i] == key);
    } else {
        assert(all.spent[q.spent.len() as int] == key);
    }
}

proof fn the_file_holds_what_trails(x: Rendering)
    ensures
        heads(
            x.with_trailing(x.page(x.items.len() as int), x.gaps.leads.len() as int).text,
            x.file(),
        ),
{
    let body = x.with_trailing(x.page(x.items.len() as int), x.gaps.leads.len() as int).text;
    let with_footer = match gap_text(x.gaps.merged, "file_footer"@, 0) {
        Some(t) => fed(body) + t,
        None => body,
    };
    assert(body.subrange(0, body.len() as int) =~= body);
    if let Some(t) = gap_text(x.gaps.merged, "file_footer"@, 0) {
        heads_of_more(body, t);
    }
    if let Some(t) = gap_text(x.gaps.merged, "file_only"@, 0) {
        if x.items.len() == 0 {
            heads_of_more(with_footer, t);
            heads_is_transitive(body, with_footer, with_footer + t);
        }
    }
}

/// Every gap that leads nothing stands in the file.
pub proof fn a_gap_that_leads_nothing_stands_in_the_file(x: Rendering, j: int, t: Seq<char>)
    requires
        0 <= j < x.gaps.leads.len(),
        gap_text(x.gaps.merged, x.gaps.leads[j].key, 0) == Some(t),
        x.gaps.leads[j].leads is None,
    ensures
        stands_in(t, x.file()),
{
    let key = x.gaps.leads[j].key;
    let page = x.page(x.items.len() as int);
    let n = x.gaps.leads.len() as int;
    if page.spent.contains(key) {
        what_is_spent_stands(x, x.items.len() as int, key, t);
    }
    what_leads_nothing_is_spent(x, page, n, j);
    what_trails_stands(x, page, n, key, t);
    the_file_holds_what_trails(x);
    stands_in_more(t, x.with_trailing(page, n).text, x.file());
}

/// Every gap that leads an entity which puts something on the page stands in the file,
/// and not behind that entity.
pub proof fn a_gap_stands_in_front_of_what_it_leads(
    x: Rendering,
    j: int,
    t: Seq<char>,
    k: int,
    id: Seq<char>,
)
    requires
        0 <= j < x.gaps.leads.len(),
        gap_text(x.gaps.merged, x.gaps.leads[j].key, 0) == Some(t),
        x.gaps.leads[j].leads == Some(id),
        0 <= k < x.items.len(),
        x.item_text(k).len() > 0,
        ids_of(x.arena, x.triples[x.items[k].triple]).contains(id),
    ensures
        stands_in(t, x.page(k + 1).text),
        heads(x.page(k + 1).text, x.file()),
        stands_in(t, x.file()),
{
    what_leads_is_spent(x, k, j, id);
    what_is_spent_stands(x, k + 1, x.gaps.leads[j].key, t);
    let n = x.items.len() as int;
    pages_grow(x, k + 1, n);
    the_file_holds_the_page(x);
    heads_is_transitive(x.page(k + 1).text, x.page(n).text, x.file());
    stands_in_more(t, x.page(k + 1).text, x.file());
}

/// The file starts with its header; and its footer stands in it, at the very end where
/// it holds entities.
pub proof fn a_file_keeps_its_header_and_footer(x: Rendering)
    ensures
        gap_text(x.gaps.merged, "file_header"@, 0) matches Some(t) ==> heads(t, x.file()),
        gap_text(x.gaps.merged, "file_footer"@, 0) matches Some(t) ==> stands_in(t, x.file()) && (
        x.items.len() > 0 ==> x.file().len() >= t.len() && x.file().subrange(
            x.file().len() - t.len(),
            x.file().len() as int,
        ) == t),
{
    let n = x.items.len() as int;
    pages_grow(x, 0, n);
    the_file_holds_the_page(x);
    heads_is_transitive(x.page(0).text, x.page(n).text, x.file());
    if let Some(t) = gap_text(x.gaps.merged, "file_footer"@, 0) {
        let body = x.with_trailing(x.page(n), x.gaps.leads.len() as int).text;
        stands_between(fed(body), t, Seq::empty());
        let f = fed(body) + t;
        assert(f.subrange(f.len() - t.len(), f.len() as int) =~= t);
        if n == 0 {
            if let Some(u) = gap_text(x.gaps.merged, "file_only"@, 0) {
                stands_between(fed(body), t, u);
            }
        }
    }
}

// ---------------------------------------------------------------------------
// Each gap leads what follows it
// ---------------------------------------------------------------------------

/// Is the region an entity that is emitted?
pub open spec fn is_emitted(r: RegionView, emitted: Seq<Seq<char>>) -> bool {
    r matches RegionView::Entity { entity_id, content } && emitted.contains(entity_id)
}

/// Is it the gap with the key that the region is?
pub open spec fn is_gap(r: RegionView, key: Seq<char>) -> bool {
    r matches RegionView::Interstitial { position_key, content } && position_key == key
}

/// Is this the first of the emitted entities behind the `p`th region, or is there none
/// and none is named?
pub open spec fn follows(
    list: Seq<RegionView>,
    emitted: Seq<Seq<char>>,
    p: int,
    leads: Option<Seq<char>>,
) -> bool {
    match leads {
        None => forall|q: int| p < q < list.len() ==> !is_emitted(#[trigger] list[q], emitted),
        Some(id) => exists|q: int|
            {
                &&& p < q < list.len()
                &&& is_emitted(#[trigger] list[q], emitted)
                &&& list[q]->Entity_entity_id == id
                &&& forall|r: int| p < r < q ==> !is_emitted(#[trigger] list[r], emitted)
            },
    }
}

proof fn the_next_emitted_follows(list: Seq<RegionView>, emitted: Seq<Seq<char>>, p: int)
    requires
        0 <= p <= list.len(),
    ensures
        follows(list, emitted, p - 1, next_emitted(list, emitted, p)),
    decreases list.len() - p,
{
    if p < list.len() {
        the_next_emitted_follows(list, emitted, p + 1);
        let leads = next_emitted(list, emitted, p + 1);
        if is_emitted(list[p], emitted) {
            assert(list[p]->Entity_entity_id == next_emitted(list, emitted, p)->0);
        } else if leads is Some {
            let q = choose|q: int|
                {
                    &&& p < q < list.len()
                    &&& is_emitted(#[trigger] list[q], emitted)
                    &&& list[q]->Entity_entity_id == leads->0
                    &&& forall|r: int| p < r < q ==> !is_emitted(#[trigger] list[r], emitted)
                };
            assert(is_emitted(list[q], emitted));
        }
    }
}

/// Does the gap stand in one of the first `n` lists, in front of what it leads?
pub open spec fn has_its_place(
    lists: Seq<Seq<RegionView>>,
    emitted: Seq<Seq<char>>,
    n: int,
    lead: LeadView,
) -> bool {
    exists|m: int, p: int|
        #![trigger lists[m][p]]
        0 <= m < n && 0 <= p < lists[m].len() && is_gap(lists[m][p], lead.key) && follows(
            lists[m],
            emitted,
            p,
            lead.leads,
        )
}

proof fn leads_in_have_places(
    gaps: Seq<GapText>,
    lists: Seq<Seq<RegionView>>,
    emitted: Seq<Seq<char>>,
    n: int,
    v: Seq<LeadView>,
    p: int,
)
    requires
        0 < n <= lists.len(),
        0 <= p <= lists[n - 1].len(),
        forall|i: int| 0 <= i < v.len() ==> has_its_place(lists, emitted, n, #[trigger] v[i]),
    ensures
        forall|i: int|
            0 <= i < leads_in(gaps, lists[n - 1], emitted, v, p).len() ==> has_its_place(
                lists,
                emitted,
                n,
                #[trigger] leads_in(gaps, lists[n - 1], emitted, v, p)[i],
            ),
    decreases p,
{
    let list = lists[n - 1];
    if p > 0 {
        leads_in_have_places(gaps, lists, emitted, n, v, p - 1);
        let front = leads_in(gaps, list, emitted, v, p - 1);
        let all = leads_in(gaps, list, emitted, v, p);
        assert forall|i: int| 0 <= i < all.len() implies has_its_place(
            lists,
            emitted,
            n,
            #[trigger] all[i],
        ) by {
            if i < front.len() {
                assert(all[i] == front[i]);
            } else {
                the_next_emitted_follows(list, emitted, p);
                assert(is_gap(lists[n - 1][p - 1], all[i].key));
            }
        }
    }
}

proof fn has_its_place_in_more(
    lists: Seq<Seq<RegionView>>,
    emitted: Seq<Seq<char>>,
    n: int,
    lead: LeadView,
)
    requires
        has_its_place(lists, emitted, n - 1, lead),
    ensures
        has_its_place(lists, emitted, n, lead),
{
    let (m, p) = choose|m: int, p: int|
        #![trigger lists[m][p]]
        0 <= m < n - 1 && 0 <= p < lists[m].len() && is_gap(lists[m][p], lead.key) && follows(
            lists[m],
            emitted,
            p,
            lead.leads,
        );
    assert(is_gap(lists[m][p], lead.key));
}

/// A gap leads what follows it: in a version that has the gap, the first entity behind
/// it that is emitted, or nothing where there is none.
pub proof fn a_gap_leads_what_follows_it(
    gaps: Seq<GapText>,
    lists: Seq<Seq<RegionView>>,
    emitted: Seq<Seq<char>>,
    n: int,
)
    requires
        0 <= n <= lists.len(),
    ensures
        forall|i: int|
            0 <= i < leads_of(gaps, lists, emitted, n).len() ==> has_its_place(
                lists,
                emitted,
                n,
                #[trigger] leads_of(gaps, lists, emitted, n)[i],
            ),
    decreases n,
{
    if n > 0 {
        a_gap_leads_what_follows_it(gaps, lists, emitted, n - 1);
        let v = leads_of(gaps, lists, emitted, n - 1);
        assert forall|i: int| 0 <= i < v.len() implies has_its_place(
            lists,
            emitted,
            n,
            #[trigger] v[i],
        ) by {
            has_its_place_in_more(lists, emitted, n, v[i]);
        }
        leads_in_have_places(gaps, lists, emitted, n, v, lists[n - 1].len() as int);
    }
}

proof fn leads_in_hold_every_gap(
    gaps: Seq<GapText>,
    list: Seq<RegionView>,
    emitted: Seq<Seq<char>>,
    v: Seq<LeadView>,
    k: int,
    p: int,
    key: Seq<char>,
)
    requires
        0 <= k <= list.len(),
        gap_text(gaps, key, 0) matches Some(t) && t.len() > 0,
        !reserved(key),
        has_lead(v, key) || (0 <= p < k && is_gap(list[p], key)),
    ensures
        has_lead(leads_in(gaps, list, emitted, v, k), key),
    decreases k,
{
    if k > 0 {
        let front = leads_in(gaps, list, emitted, v, k - 1);
        let all = leads_in(gaps, list, emitted, v, k);
        if has_lead(v, key) || p < k - 1 {
            leads_in_hold_every_gap(gaps, list, emitted, v, k - 1, p, key);
        }
        if has_lead(front, key) {
            let i = choose|i: int| 0 <= i < front.len() && (#[trigger] front[i]).key == key;
            assert(all[i] == front[i]);
        } else {
            assert(is_new_gap(gaps, front, key));
            assert(all[front.len() as int].key == key);
        }
    }
}

/// Every gap that says something has its place: whichever version has it, it is listed
/// with what it leads.
pub proof fn every_gap_is_listed(
    gaps: Seq<GapText>,
    lists: Seq<Seq<RegionView>>,
    emitted: Seq<Seq<char>>,
    n: int,
    m: int,
    p: int,
    key: Seq<char>,
)
    requires
        0 <= m < n <= lists.len(),
        0 <= p < lists[m].len(),
        is_gap(lists[m][p], key),
        gap_text(gaps, key, 0) matches Some(t) && t.len() > 0,
        !reserved(key),
    ensures
        has_lead(leads_of(gaps, lists, emitted, n), key),
    decreases n,
{
    if m < n - 1 {
        every_gap_is_listed(gaps, lists, emitted, n - 1, m, p, key);
    }
    leads_in_hold_every_gap(
        gaps,
        lists[n - 1],
        emitted,
        leads_of(gaps, lists, emitted, n - 1),
        lists[n - 1].len() as int,
        p,
        key,
    );
}

} // verus!
