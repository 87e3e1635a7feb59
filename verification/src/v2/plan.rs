//! Placement: every item's position is a function of the shared history. A survivor
//! keeps its place in the shared order, and an addition stands behind the nearest
//! survivor it was written after.

use vstd::prelude::*;
use crate::order::{
    a_disagreement_is_about_what_is_shared, a_gap_keeps_what_it_holds, a_placement_is_in_order,
    a_union_follows_the_first, a_union_holds_each_once, a_union_without_disagreement_follows_both,
    asserted, choose_coordinate, coordinate, kept, kept_holds, kept_twice, moved, place_all, views,
    PlacedView, Sequences,
};
use crate::text::strs;
use crate::v2::resolve::{resolved_views, Resolved, ResolvedView};
use crate::v2::types::{
    entity_at, key_before, triple_views, triples_wf, Arena, EntityOrder, EntityView, Idx, Key,
    KeyView, OrderConflict, Triple, TripleView,
};

verus! {

broadcast use vstd::string::group_string_axioms;

/// Where an entity goes, relative to the shared history. This is the output order.
#[derive(Debug, PartialEq, Eq)]
pub struct Anchor {
    /// A survivor of rank `r` stands at `2 (r + 1)`, an addition behind it at one
    /// more, and an addition in front of every survivor at one.
    pub after_base: u128,
    /// Survivors before additions.
    pub tier: u8,
    /// The rank inside the gap, for additions that share one.
    pub within: usize,
    pub key: Key,
}

/// An [`Anchor`] over views.
pub struct AnchorView {
    pub after_base: int,
    pub tier: int,
    pub within: int,
    pub key: KeyView,
}

impl View for Anchor {
    type V = AnchorView;

    open spec fn view(&self) -> AnchorView {
        AnchorView {
            after_base: self.after_base as int,
            tier: self.tier as int,
            within: self.within as int,
            key: self.key@,
        }
    }
}

/// One triple at its place.
#[derive(Debug, PartialEq, Eq)]
pub struct PlannedItem {
    pub anchor: Anchor,
    /// The place of the triple among the triples.
    pub triple: usize,
}

/// A [`PlannedItem`] over views.
pub struct PlannedView {
    pub anchor: AnchorView,
    pub triple: int,
}

impl View for PlannedItem {
    type V = PlannedView;

    open spec fn view(&self) -> PlannedView {
        PlannedView { anchor: self.anchor@, triple: self.triple as int }
    }
}

/// The three versions of a file.
#[derive(Clone, Copy, PartialEq, Eq, Structural)]
pub enum Version {
    Base,
    Ours,
    Theirs,
}

/// The entity of a version.
pub open spec fn in_version(t: TripleView, v: Version) -> Option<Idx> {
    match v {
        Version::Base => t.base,
        Version::Ours => t.ours,
        Version::Theirs => t.theirs,
    }
}

fn version_idx(t: &Triple, v: Version) -> (r: Option<Idx>)
    ensures
        r == in_version(t@, v),
{
    match v {
        Version::Base => t.base_idx(),
        Version::Ours => t.ours_idx(),
        Version::Theirs => t.theirs_idx(),
    }
}

/// What there is to plan: the triples, and which of them the merge drops.
pub struct Layout {
    pub arena: Seq<EntityView>,
    pub triples: Seq<TripleView>,
    pub dropped: Seq<bool>,
    pub effectful: bool,
}

impl Layout {
    /// The triples lie in the arena, and there is one decision for each.
    pub open spec fn wf(self) -> bool {
        &&& triples_wf(self.triples, self.arena.len())
        &&& self.dropped.len() == self.triples.len()
        &&& self.triples.len() <= usize::MAX
    }

    /// Where the `i`th entity stands in a version that has it.
    pub open spec fn position(self, v: Version, i: int) -> int {
        entity_at(self.arena, in_version(self.triples[i], v)->0).position as int
    }

    /// The key of the `i`th triple.
    pub open spec fn key(self, i: int) -> KeyView {
        entity_at(self.arena, self.triples[i].representative()).key
    }

    /// Does the list of a version hold the `i`th triple? A list of survivors holds
    /// what base has, a list of what is shown holds what is not dropped.
    pub open spec fn listed(self, v: Version, survivors: bool, i: int) -> bool {
        &&& in_version(self.triples[i], v) is Some
        &&& if survivors {
            self.triples[i].base is Some
        } else {
            !self.dropped[i]
        }
    }

    /// The first place of a list, at or after the `k`th, that stands behind the
    /// `i`th triple in a version.
    pub open spec fn position_place(self, v: Version, list: Seq<usize>, i: int, k: int) -> int
        decreases list.len() - k,
    {
        if 0 <= k < list.len() && self.position(v, list[k] as int) <= self.position(v, i) {
            self.position_place(v, list, i, k + 1)
        } else {
            k
        }
    }

    /// Those of the first `n` triples that a list holds, in the order of the version.
    pub open spec fn in_order(self, v: Version, survivors: bool, n: int) -> Seq<usize>
        decreases n,
    {
        if n <= 0 {
            Seq::empty()
        } else {
            let front = self.in_order(v, survivors, n - 1);
            if self.listed(v, survivors, n - 1) {
                front.insert(self.position_place(v, front, n - 1, 0), (n - 1) as usize)
            } else {
                front
            }
        }
    }

    /// The survivors of a version, in its order.
    pub open spec fn survivors(self, v: Version) -> Seq<usize> {
        self.in_order(v, true, self.triples.len() as int)
    }

    /// What a side holds of what is shown, in its order.
    pub open spec fn shown(self, v: Version) -> Seq<usize> {
        self.in_order(v, false, self.triples.len() as int)
    }

    /// The first place of a list, at or after the `k`th, whose key does not stand in
    /// front of the `i`th triple's, or on it.
    pub open spec fn key_place(self, list: Seq<usize>, i: int, k: int) -> int
        decreases list.len() - k,
    {
        if 0 <= k < list.len() && !key_before(self.key(i), self.key(list[k] as int)) {
            self.key_place(list, i, k + 1)
        } else {
            k
        }
    }

    /// Those of the first `n` triples that were added and are shown, in the order of
    /// their keys.
    pub open spec fn added(self, n: int) -> Seq<usize>
        decreases n,
    {
        if n <= 0 {
            Seq::empty()
        } else {
            let front = self.added(n - 1);
            if self.triples[n - 1].base is None && !self.dropped[n - 1] {
                front.insert(self.key_place(front, n - 1, 0), (n - 1) as usize)
            } else {
                front
            }
        }
    }

    /// Those of the first `n` triples that are dropped.
    pub open spec fn hidden(self, n: int) -> Seq<usize>
        decreases n,
    {
        if n <= 0 {
            Seq::empty()
        } else if self.dropped[n - 1] {
            self.hidden(n - 1).push((n - 1) as usize)
        } else {
            self.hidden(n - 1)
        }
    }

    /// The shared order of what base has.
    pub open spec fn shared(self) -> Seq<usize> {
        coordinate(
            self.survivors(Version::Base),
            self.survivors(Version::Ours),
            self.survivors(Version::Theirs),
            self.effectful,
        )
    }

    /// Did the two sides give what they share contradictory order, where order has a
    /// meaning?
    pub open spec fn contradicts(self) -> bool {
        asserted(
            self.survivors(Version::Base),
            self.survivors(Version::Ours),
            self.survivors(Version::Theirs),
            self.effectful,
        ).1
    }

    /// What there is to place.
    pub open spec fn sequences(self) -> Sequences<usize> {
        let n = self.triples.len() as int;
        Sequences {
            survivors: self.shared(),
            hidden: self.hidden(n),
            added: self.added(n),
            ours: self.shown(Version::Ours),
            theirs: self.shown(Version::Theirs),
        }
    }

    /// A placed item with its anchor.
    pub open spec fn planned(self, p: PlacedView<usize>) -> PlannedView {
        PlannedView {
            anchor: AnchorView {
                after_base: 2 * p.gap + (if p.added {
                    1int
                } else {
                    0int
                }),
                tier: if p.added {
                    1
                } else {
                    0
                },
                within: p.within,
                key: self.key(p.item as int),
            },
            triple: p.item as int,
        }
    }

    /// The plan: everything that is shown, at its place.
    pub open spec fn items(self) -> Seq<PlannedView> {
        self.sequences().placed().map_values(|p: PlacedView<usize>| self.planned(p))
    }

    /// The names of the triples of a list.
    pub open spec fn names(self, list: Seq<usize>) -> Seq<Seq<char>> {
        list.map_values(|i: usize| self.key(i as int).name)
    }
}

/// The layout of triples and decisions.
pub open spec fn layout_of(
    arena: Seq<EntityView>,
    triples: Seq<TripleView>,
    rs: Seq<ResolvedView>,
    order: EntityOrder,
) -> Layout {
    Layout {
        arena,
        triples,
        dropped: rs.map_values(|r: ResolvedView| r.disposition is Drop),
        effectful: order == EntityOrder::Effectful,
    }
}

/// What was decided: the order, and the contradiction that could not be decided
/// away.
#[derive(Debug)]
pub struct Placement {
    pub items: Vec<PlannedItem>,
    pub order_conflict: Option<OrderConflict>,
}

proof fn list_in_range(l: Layout, v: Version, survivors: bool, n: int)
    requires
        l.wf(),
        0 <= n <= l.triples.len(),
    ensures
        forall|k: int|
            0 <= k < l.in_order(v, survivors, n).len() ==> (#[trigger] l.in_order(
                v,
                survivors,
                n,
            )[k]) < n && l.listed(v, survivors, l.in_order(v, survivors, n)[k] as int),
        l.in_order(v, survivors, n).len() <= n,
    decreases n,
{
    if n > 0 {
        list_in_range(l, v, survivors, n - 1);
        let front = l.in_order(v, survivors, n - 1);
        position_place_bounds(l, v, front, n - 1, 0);
        let p = l.position_place(v, front, n - 1, 0);
        let all = l.in_order(v, survivors, n);
        assert forall|k: int| 0 <= k < all.len() implies (#[trigger] all[k]) < n && l.listed(
            v,
            survivors,
            all[k] as int,
        ) by {
            if l.listed(v, survivors, n - 1) {
                if k < p {
                    assert(all[k] == front[k]);
                } else if k > p {
                    assert(all[k] == front[k - 1]);
                }
            }
        }
    }
}

proof fn position_place_bounds(l: Layout, v: Version, list: Seq<usize>, i: int, k: int)
    requires
        0 <= k <= list.len(),
    ensures
        k <= l.position_place(v, list, i, k) <= list.len(),
    decreases list.len() - k,
{
    if k < list.len() && l.position(v, list[k] as int) <= l.position(v, i) {
        position_place_bounds(l, v, list, i, k + 1);
    }
}

proof fn key_place_bounds(l: Layout, list: Seq<usize>, i: int, k: int)
    requires
        0 <= k <= list.len(),
    ensures
        k <= l.key_place(list, i, k) <= list.len(),
    decreases list.len() - k,
{
    if k < list.len() && !key_before(l.key(i), l.key(list[k] as int)) {
        key_place_bounds(l, list, i, k + 1);
    }
}

proof fn usize_views(v: Seq<usize>)
    ensures
        views(v) == v,
{
    assert(views(v) =~= v);
}

/// The triples that a list holds, in the order of a version.
fn listed_in_order(
    arena: &Arena,
    triples: &Vec<Triple>,
    dropped: &Vec<bool>,
    v: Version,
    survivors: bool,
    Ghost(l): Ghost<Layout>,
) -> (r: Vec<usize>)
    requires
        l.wf(),
        l.arena == arena@,
        l.triples == triple_views(triples@),
        l.dropped == dropped@,
    ensures
        r@ == l.in_order(v, survivors, triples@.len() as int),
        forall|k: int| 0 <= k < r@.len() ==> (#[trigger] r@[k]) < triples@.len(),
{
    let mut out: Vec<usize> = Vec::new();
    let mut n: usize = 0;
    proof {
        list_in_range(l, v, survivors, triples@.len() as int);
    }
    while n < triples.len()
        invariant
            l.wf(),
            l.arena == arena@,
            l.triples == triple_views(triples@),
            l.dropped == dropped@,
            n <= triples@.len() == dropped@.len(),
            out@ == l.in_order(v, survivors, n as int),
        decreases triples@.len() - n,
    {
        proof {
            assert(l.triples[n as int] == triples@[n as int]@);
            list_in_range(l, v, survivors, n as int);
        }
        match version_idx(&triples[n], v) {
            Some(x) => {
                let wanted = if survivors {
                    triples[n].base_idx().is_some()
                } else {
                    !dropped[n]
                };
                if wanted {
                    let pos: u32 = arena.get(x).position;
                    let mut k: usize = 0;
                    loop
                        invariant
                            l.wf(),
                            l.arena == arena@,
                            l.triples == triple_views(triples@),
                            n < triples@.len(),
                            k <= out@.len(),
                            pos == l.position(v, n as int),
                            forall|m: int|
                                0 <= m < out@.len() ==> (#[trigger] out@[m]) < triples@.len()
                                    && in_version(l.triples[out@[m] as int], v) is Some,
                            l.position_place(v, out@, n as int, k as int) == l.position_place(
                                v,
                                out@,
                                n as int,
                                0,
                            ),
                        ensures
                            k <= out@.len(),
                            k == l.position_place(v, out@, n as int, 0),
                        decreases out@.len() - k,
                    {
                        if k >= out.len() {
                            break ;
                        }
                        proof {
                            assert(l.triples[out@[k as int] as int] == triples@[out@[k as int] as int]@);
                        }
                        match version_idx(&triples[out[k]], v) {
                            Some(y) => {
                                if arena.get(y).position > pos {
                                    break ;
                                }
                            },
                            None => {},
                        }
                        k = k + 1;
                    }
                    out.insert(k, n);
                }
            },
            None => {},
        }
        n = n + 1;
    }
    out
}

proof fn added_in_range(l: Layout, n: int)
    requires
        l.wf(),
        0 <= n <= l.triples.len(),
    ensures
        forall|k: int| 0 <= k < l.added(n).len() ==> (#[trigger] l.added(n)[k]) < n,
        l.added(n).no_duplicates(),
        forall|i: usize| #[trigger]
            l.added(n).contains(i) <==> i < n && l.triples[i as int].base is None
                && !l.dropped[i as int],
    decreases n,
{
    if n > 0 {
        added_in_range(l, n - 1);
        let front = l.added(n - 1);
        let all = l.added(n);
        key_place_bounds(l, front, n - 1, 0);
        let p = l.key_place(front, n - 1, 0);
        if l.triples[n - 1].base is None && !l.dropped[n - 1] {
            let x = (n - 1) as usize;
            insert_once(front, p, x);
        }
    }
}

proof fn insert_once(v: Seq<usize>, p: int, x: usize)
    requires
        0 <= p <= v.len(),
    ensures
        forall|y: usize| #[trigger] v.insert(p, x).contains(y) <==> v.contains(y) || y == x,
        v.no_duplicates() && !v.contains(x) ==> v.insert(p, x).no_duplicates(),
        forall|k: int|
            0 <= k < v.insert(p, x).len() ==> (#[trigger] v.insert(p, x)[k]) == x || v.contains(
                v.insert(p, x)[k],
            ),
{
    let w = v.insert(p, x);
    assert forall|y: usize| #[trigger] w.contains(y) <==> v.contains(y) || y == x by {
        if v.contains(y) {
            let k = choose|k: int| 0 <= k < v.len() && v[k] == y;
            if k < p {
                assert(w[k] == y);
            } else {
                assert(w[k + 1] == y);
            }
        }
        assert(w[p] == x);
        if w.contains(y) {
            let k = choose|k: int| 0 <= k < w.len() && w[k] == y;
            if k < p {
                assert(v[k] == y);
            } else if k > p {
                assert(v[k - 1] == y);
            }
        }
    }
    assert forall|k: int| 0 <= k < w.len() implies (#[trigger] w[k]) == x || v.contains(w[k]) by {
        if k < p {
            assert(w[k] == v[k]);
        } else if k > p {
            assert(w[k] == v[k - 1]);
        }
    }
    if v.no_duplicates() && !v.contains(x) {
        assert forall|i: int, j: int| 0 <= i < w.len() && 0 <= j < w.len() && i != j implies w[i]
            != w[j] by {
            let a = if i < p {
                i
            } else {
                i - 1
            };
            let b = if j < p {
                j
            } else {
                j - 1
            };
            if i != p {
                assert(w[i] == v[a]);
            }
            if j != p {
                assert(w[j] == v[b]);
            }
        }
    }
}

/// The shown additions, in the order of their keys.
fn added_in_order(
    arena: &Arena,
    triples: &Vec<Triple>,
    dropped: &Vec<bool>,
    Ghost(l): Ghost<Layout>,
) -> (r: Vec<usize>)
    requires
        l.wf(),
        l.arena == arena@,
        l.triples == triple_views(triples@),
        l.dropped == dropped@,
    ensures
        r@ == l.added(triples@.len() as int),
{
    let mut out: Vec<usize> = Vec::new();
    let mut n: usize = 0;
    while n < triples.len()
        invariant
            l.wf(),
            l.arena == arena@,
            l.triples == triple_views(triples@),
            l.dropped == dropped@,
            n <= triples@.len() == dropped@.len(),
            out@ == l.added(n as int),
        decreases triples@.len() - n,
    {
        proof {
            assert(l.triples[n as int] == triples@[n as int]@);
            added_in_range(l, n as int);
        }
        if triples[n].base_idx().is_none() && !dropped[n] {
            let key = &arena.get(triples[n].representative()).key;
            let mut k: usize = 0;
            loop
                invariant
                    l.wf(),
                    l.arena == arena@,
                    l.triples == triple_views(triples@),
                    n < triples@.len(),
                    k <= out@.len(),
                    key@ == l.key(n as int),
                    forall|m: int| 0 <= m < out@.len() ==> (#[trigger] out@[m]) < triples@.len(),
                    l.key_place(out@, n as int, k as int) == l.key_place(out@, n as int, 0),
                ensures
                    k <= out@.len(),
                    k == l.key_place(out@, n as int, 0),
                decreases out@.len() - k,
            {
                if k >= out.len() {
                    break ;
                }
                proof {
                    assert(l.triples[out@[k as int] as int] == triples@[out@[k as int] as int]@);
                }
                if key.is_before(&arena.get(triples[out[k]].representative()).key) {
                    break ;
                }
                k = k + 1;
            }
            out.insert(k, n);
        }
        n = n + 1;
    }
    out
}

fn hidden_triples(dropped: &Vec<bool>, Ghost(l): Ghost<Layout>) -> (r: Vec<usize>)
    requires
        l.dropped == dropped@,
    ensures
        r@ == l.hidden(dropped@.len() as int),
{
    let mut out: Vec<usize> = Vec::new();
    let mut n: usize = 0;
    while n < dropped.len()
        invariant
            l.dropped == dropped@,
            n <= dropped@.len(),
            out@ == l.hidden(n as int),
        decreases dropped@.len() - n,
    {
        if dropped[n] {
            out.push(n);
        }
        n = n + 1;
    }
    out
}

fn names_of(arena: &Arena, triples: &Vec<Triple>, list: &Vec<usize>, Ghost(l): Ghost<Layout>) -> (r: Vec<
    String,
>)
    requires
        l.wf(),
        l.arena == arena@,
        l.triples == triple_views(triples@),
        forall|k: int| 0 <= k < list@.len() ==> (#[trigger] list@[k]) < triples@.len(),
    ensures
        strs(r@) == l.names(list@),
{
    let mut out: Vec<String> = Vec::new();
    let mut k: usize = 0;
    while k < list.len()
        invariant
            l.wf(),
            l.arena == arena@,
            l.triples == triple_views(triples@),
            k <= list@.len(),
            forall|k: int| 0 <= k < list@.len() ==> (#[trigger] list@[k]) < triples@.len(),
            out@.len() == k,
            forall|m: int| 0 <= m < k ==> (#[trigger] out@[m])@ == l.key(list@[m] as int).name,
        decreases list@.len() - k,
    {
        proof {
            assert(l.triples[list@[k as int] as int] == triples@[list@[k as int] as int]@);
        }
        out.push(arena.get(triples[list[k]].representative()).name().to_owned());
        k = k + 1;
    }
    proof {
        assert(strs(out@) =~= l.names(list@));
    }
    out
}

proof fn survivors_hold(l: Layout, v: Version, n: int)
    requires
        l.wf(),
        0 <= n <= l.triples.len(),
    ensures
        l.in_order(v, true, n).no_duplicates(),
        forall|i: usize| #[trigger]
            l.in_order(v, true, n).contains(i) <==> i < n && l.listed(v, true, i as int),
    decreases n,
{
    if n > 0 {
        survivors_hold(l, v, n - 1);
        let front = l.in_order(v, true, n - 1);
        position_place_bounds(l, v, front, n - 1, 0);
        if l.listed(v, true, n - 1) {
            let p = l.position_place(v, front, n - 1, 0);
            insert_once(front, p, (n - 1) as usize);
        }
    }
}

proof fn hidden_holds(l: Layout, n: int)
    requires
        l.wf(),
        0 <= n <= l.triples.len(),
    ensures
        forall|i: usize| #[trigger] l.hidden(n).contains(i) <==> i < n && l.dropped[i as int],
    decreases n,
{
    if n > 0 {
        hidden_holds(l, n - 1);
        let front = l.hidden(n - 1);
        let all = l.hidden(n);
        let x = (n - 1) as usize;
        assert forall|i: usize| #[trigger] all.contains(i) <==> i < n && l.dropped[i as int] by {
            if l.dropped[n - 1] {
                assert(all =~= front.push(x));
                if front.contains(i) {
                    let k = choose|k: int| 0 <= k < front.len() && front[k] == i;
                    assert(all[k] == i);
                }
                assert(all[front.len() as int] == x);
                if all.contains(i) {
                    let k = choose|k: int| 0 <= k < all.len() && all[k] == i;
                    if k < front.len() {
                        assert(front[k] == i);
                    }
                }
            }
        }
    }
}

proof fn shared_holds(l: Layout)
    requires
        l.wf(),
    ensures
        l.shared().no_duplicates(),
        forall|i: usize| #[trigger]
            l.shared().contains(i) <==> i < l.triples.len() && l.triples[i as int].base is Some,
{
    let n = l.triples.len() as int;
    survivors_hold(l, Version::Base, n);
    survivors_hold(l, Version::Ours, n);
    survivors_hold(l, Version::Theirs, n);
    let b = l.survivors(Version::Base);
    let o = l.survivors(Version::Ours);
    let t = l.survivors(Version::Theirs);
    let a = asserted(b, o, t, l.effectful).0;
    crate::order::a_union_holds_each_once(o, t);
    crate::order::a_union_holds_each_once(a, b);
}

/// The plan holds every triple that is not dropped exactly once, and nothing else.
pub proof fn a_plan_holds_each_triple_once(l: Layout)
    requires
        l.wf(),
    ensures
        forall|i: int, j: int|
            0 <= i < j < l.items().len() ==> (#[trigger] l.items()[i]).triple != (
            #[trigger] l.items()[j]).triple,
        forall|i: int|
            0 <= i < l.triples.len() ==> (!(#[trigger] l.dropped[i]) <==> exists|k: int|
                0 <= k < l.items().len() && (#[trigger] l.items()[k]).triple == i),
        forall|k: int|
            0 <= k < l.items().len() ==> 0 <= (#[trigger] l.items()[k]).triple < l.triples.len(),
{
    let q = l.sequences();
    let n = l.triples.len() as int;
    shared_holds(l);
    added_in_range(l, n);
    hidden_holds(l, n);
    assert forall|x: usize| #[trigger] q.added.contains(x) implies !q.survivors.contains(x) by {
    }
    crate::order::a_placement_holds_each_once(q);
    let v = q.placed();
    let items = l.items();
    assert forall|i: int, j: int| 0 <= i < j < items.len() implies (#[trigger] items[i]).triple != (
    #[trigger] items[j]).triple by {
        assert(v[i].item != v[j].item);
    }
    assert forall|i: int| 0 <= i < n implies (!(#[trigger] l.dropped[i]) <==> exists|k: int|
        0 <= k < items.len() && (#[trigger] items[k]).triple == i) by {
        let x = i as usize;
        crate::order::a_placement_holds_everything(q, x);
        if !l.dropped[i] {
            assert(!q.hidden.contains(x));
            assert(q.survivors.contains(x) || q.added.contains(x));
            assert(crate::order::is_placed(v, x));
            let k = choose|k: int| 0 <= k < v.len() && (#[trigger] v[k]).item == x;
            assert(items[k].triple == i);
        }
        if exists|k: int| 0 <= k < items.len() && (#[trigger] items[k]).triple == i {
            let k = choose|k: int| 0 <= k < items.len() && (#[trigger] items[k]).triple == i;
            assert(v[k].item == x);
            assert(crate::order::is_placed(v, x));
            assert(l.dropped[i] ==> q.hidden.contains(x));
        }
    }
    assert forall|k: int| 0 <= k < items.len() implies 0 <= (#[trigger] items[k]).triple < n by {
        let x = v[k].item;
        assert(crate::order::is_placed(v, x));
        crate::order::a_placement_holds_everything(q, x);
        assert(q.survivors.contains(x) || q.added.contains(x));
    }
}

impl AnchorView {
    /// Does the anchor stand in front of the other in the output?
    pub open spec fn stands_before(self, other: AnchorView) -> bool {
        ||| self.after_base < other.after_base
        ||| self.after_base == other.after_base && self.within < other.within
    }
}

/// The plan comes out in the order of its anchors.
pub proof fn a_plan_is_in_order(l: Layout)
    ensures
        forall|i: int, j: int|
            0 <= i < j < l.items().len() ==> (#[trigger] l.items()[i]).anchor.stands_before(
                (#[trigger] l.items()[j]).anchor,
            ),
{
    let q = l.sequences();
    crate::order::a_placement_is_in_order(q);
    let v = q.placed();
    let items = l.items();
    assert forall|i: int, j: int| 0 <= i < j < items.len() implies (
    #[trigger] items[i]).anchor.stands_before((#[trigger] items[j]).anchor) by {
        assert(crate::order::stands_before(v[i], v[j]));
    }
}

/// The order the merge emits its entities in, and the contradiction of the two sides
/// about it, where there is one.
pub fn plan(arena: &Arena, triples: &Vec<Triple>, resolved: &Vec<Resolved>, order: EntityOrder) -> (r:
    Placement)
    requires
        triples_wf(triple_views(triples@), arena@.len()),
        resolved@.len() == triples@.len(),
    ensures
        ({
            let l = layout_of(
                arena@,
                triple_views(triples@),
                resolved_views(resolved@),
                order,
            );
            &&& views(r.items@) == l.items()
            &&& r.order_conflict is Some <==> l.contradicts()
            &&& r.order_conflict matches Some(c) ==> strs(c.base@) == l.names(
                l.survivors(Version::Base),
            ) && strs(c.ours@) == l.names(l.survivors(Version::Ours)) && strs(c.theirs@) == l.names(
                l.survivors(Version::Theirs),
            )
            &&& forall|k: int| 0 <= k < r.items@.len() ==> (#[trigger] r.items@[k]).triple < triples@.len()
        }),
{
    let ghost rv = resolved_views(resolved@);
    let ghost l = layout_of(arena@, triple_views(triples@), rv, order);
    let mut dropped: Vec<bool> = Vec::new();
    let mut i: usize = 0;
    while i < resolved.len()
        invariant
            i <= resolved@.len(),
            rv == resolved_views(resolved@),
            dropped@.len() == i,
            forall|k: int| 0 <= k < i ==> #[trigger] dropped@[k] == (rv[k].disposition is Drop),
        decreases resolved@.len() - i,
    {
        proof {
            assert(rv[i as int] == resolved@[i as int]@);
        }
        dropped.push(resolved[i].disposition.is_drop());
        i = i + 1;
    }
    let total: usize = triples.len();
    proof {
        assert(dropped@ =~= l.dropped);
        assert(l.wf());
    }
    let base_seq = listed_in_order(arena, triples, &dropped, Version::Base, true, Ghost(l));
    let ours_seq = listed_in_order(arena, triples, &dropped, Version::Ours, true, Ghost(l));
    let theirs_seq = listed_in_order(arena, triples, &dropped, Version::Theirs, true, Ghost(l));
    let effectful = order == EntityOrder::Effectful;
    let (survivors, disagree) = choose_coordinate(&base_seq, &ours_seq, &theirs_seq, effectful);
    let added = added_in_order(arena, triples, &dropped, Ghost(l));
    let hidden = hidden_triples(&dropped, Ghost(l));
    let ours = listed_in_order(arena, triples, &dropped, Version::Ours, false, Ghost(l));
    let theirs = listed_in_order(arena, triples, &dropped, Version::Theirs, false, Ghost(l));
    proof {
        usize_views(base_seq@);
        usize_views(ours_seq@);
        usize_views(theirs_seq@);
        usize_views(survivors@);
        usize_views(added@);
        usize_views(hidden@);
        usize_views(ours@);
        usize_views(theirs@);
    }
    let placed = place_all(&survivors, &hidden, &added, &ours, &theirs);
    let ghost pv = views(placed@);
    proof {
        assert(pv == l.sequences().placed());
        a_plan_holds_each_triple_once(l);
    }
    let mut items: Vec<PlannedItem> = Vec::new();
    let mut k: usize = 0;
    while k < placed.len()
        invariant
            k <= placed@.len() == pv.len(),
            pv == views(placed@),
            pv == l.sequences().placed(),
            l.wf(),
            l.arena == arena@,
            l.triples == triple_views(triples@),
            forall|k: int|
                0 <= k < l.items().len() ==> 0 <= (#[trigger] l.items()[k]).triple
                    < l.triples.len(),
            items@.len() == k,
            forall|m: int|
                0 <= m < k ==> (#[trigger] items@[m])@ == l.items()[m] && items@[m].triple
                    < triples@.len(),
        decreases placed@.len() - k,
    {
        let p = &placed[k];
        proof {
            assert(pv[k as int] == p@);
            assert(l.items()[k as int] == l.planned(p@));
            assert(l.triples[p.item as int] == triples@[p.item as int]@);
        }
        let key = arena.get(triples[p.item].representative()).key.copy();
        let doubled: u128 = 2 * (p.gap as u128);
        let anchor = Anchor {
            after_base: if p.added {
                doubled + 1
            } else {
                doubled
            },
            tier: if p.added {
                1
            } else {
                0
            },
            within: p.within,
            key,
        };
        items.push(PlannedItem { anchor, triple: p.item });
        k = k + 1;
    }
    proof {
        assert(views(items@) =~= l.items());
    }
    let order_conflict = if disagree {
        Some(
            OrderConflict {
                base: names_of(arena, triples, &base_seq, Ghost(l)),
                ours: names_of(arena, triples, &ours_seq, Ghost(l)),
                theirs: names_of(arena, triples, &theirs_seq, Ghost(l)),
            },
        )
    } else {
        None
    };
    Placement { items, order_conflict }
}

// ---------------------------------------------------------------------------
// The plan is direction free
// ---------------------------------------------------------------------------

impl Version {
    /// The version on the other side.
    pub open spec fn other(self) -> Version {
        match self {
            Version::Base => Version::Base,
            Version::Ours => Version::Theirs,
            Version::Theirs => Version::Ours,
        }
    }
}

impl Layout {
    /// The same layout with the sides of every triple exchanged.
    pub open spec fn swapped(self) -> Layout {
        Layout { triples: self.triples.map_values(|t: TripleView| t.swapped()), ..self }
    }

    /// Does every triple have the same key from either side? An entity that both
    /// sides added has one key.
    pub open spec fn keys_agree(self) -> bool {
        forall|i: int|
            0 <= i < self.triples.len() ==> self.swapped().key(i) == #[trigger] self.key(i)
    }
}

proof fn swapped_place(l: Layout, v: Version, list: Seq<usize>, i: int, k: int)
    requires
        0 <= i < l.triples.len(),
        forall|m: int| 0 <= m < list.len() ==> (#[trigger] list[m]) < l.triples.len(),
    ensures
        l.swapped().position_place(v.other(), list, i, k) == l.position_place(v, list, i, k),
    decreases list.len() - k,
{
    if 0 <= k < list.len() {
        assert(list[k] < l.triples.len());
        swapped_place(l, v, list, i, k + 1);
    }
}

proof fn swapped_in_order(l: Layout, v: Version, survivors: bool, n: int)
    requires
        l.wf(),
        0 <= n <= l.triples.len(),
    ensures
        l.swapped().in_order(v.other(), survivors, n) == l.in_order(v, survivors, n),
    decreases n,
{
    if n > 0 {
        swapped_in_order(l, v, survivors, n - 1);
        list_in_range(l, v, survivors, n - 1);
        swapped_place(l, v, l.in_order(v, survivors, n - 1), n - 1, 0);
    }
}

proof fn swapped_key_place(l: Layout, list: Seq<usize>, i: int, k: int)
    requires
        l.keys_agree(),
        0 <= i < l.triples.len(),
        forall|m: int| 0 <= m < list.len() ==> (#[trigger] list[m]) < l.triples.len(),
    ensures
        l.swapped().key_place(list, i, k) == l.key_place(list, i, k),
    decreases list.len() - k,
{
    if 0 <= k < list.len() {
        assert(list[k] < l.triples.len());
        assert(l.swapped().key(i) == l.key(i));
        assert(l.swapped().key(list[k] as int) == l.key(list[k] as int));
        swapped_key_place(l, list, i, k + 1);
    }
}

proof fn swapped_added(l: Layout, n: int)
    requires
        l.wf(),
        l.keys_agree(),
        0 <= n <= l.triples.len(),
    ensures
        l.swapped().added(n) == l.added(n),
    decreases n,
{
    if n > 0 {
        swapped_added(l, n - 1);
        added_in_range(l, n - 1);
        swapped_key_place(l, l.added(n - 1), n - 1, 0);
    }
}

proof fn swapped_hidden(l: Layout, n: int)
    ensures
        l.swapped().hidden(n) == l.hidden(n),
    decreases n,
{
    if n > 0 {
        swapped_hidden(l, n - 1);
    }
}

/// The plan does not depend on which side is ours, unless both sides moved what
/// they have in a file where order has a meaning.
pub proof fn a_plan_is_direction_free(l: Layout)
    requires
        l.wf(),
        l.keys_agree(),
        !(l.effectful && crate::order::moved(
            l.survivors(Version::Base),
            l.survivors(Version::Ours),
        ) && crate::order::moved(l.survivors(Version::Base), l.survivors(Version::Theirs))),
    ensures
        l.swapped().items() == l.items(),
        l.swapped().contradicts() == l.contradicts(),
{
    let n = l.triples.len() as int;
    let m = l.swapped();
    swapped_in_order(l, Version::Base, true, n);
    swapped_in_order(l, Version::Ours, true, n);
    swapped_in_order(l, Version::Theirs, true, n);
    swapped_in_order(l, Version::Ours, false, n);
    swapped_in_order(l, Version::Theirs, false, n);
    swapped_added(l, n);
    swapped_hidden(l, n);
    crate::order::coordinate_is_symmetric(
        l.survivors(Version::Base),
        l.survivors(Version::Ours),
        l.survivors(Version::Theirs),
        l.effectful,
    );
    let q = l.sequences();
    assert(m.sequences() == q.swapped());
    crate::order::placement_is_symmetric(q);
    a_plan_holds_each_triple_once(l);
    let v = q.placed();
    assert forall|k: int| 0 <= k < v.len() implies m.planned(#[trigger] v[k]) == l.planned(
        v[k],
    ) by {
        assert(l.items()[k].triple < n);
        assert(m.key(v[k].item as int) == l.key(v[k].item as int));
    }
    assert(m.items() =~= l.items());
}

/// Whether the two sides contradict each other does not depend on which side is
/// ours.
pub proof fn a_contradiction_is_direction_free(l: Layout)
    requires
        l.wf(),
    ensures
        l.swapped().contradicts() == l.contradicts(),
{
    let n = l.triples.len() as int;
    swapped_in_order(l, Version::Base, true, n);
    swapped_in_order(l, Version::Ours, true, n);
    swapped_in_order(l, Version::Theirs, true, n);
    survivors_hold(l, Version::Ours, n);
    survivors_hold(l, Version::Theirs, n);
    let o = l.survivors(Version::Ours);
    let t = l.survivors(Version::Theirs);
    crate::order::a_disagreement_is_about_what_is_shared(o, t);
    crate::order::a_disagreement_is_about_what_is_shared(t, o);
}


// ---------------------------------------------------------------------------
// Whose order the plan is in
// ---------------------------------------------------------------------------

proof fn position_place_is_first(l: Layout, v: Version, list: Seq<usize>, i: int, k: int)
    requires
        0 <= k <= list.len(),
    ensures
        ({
            let p = l.position_place(v, list, i, k);
            &&& k <= p <= list.len()
            &&& forall|m: int|
                k <= m < p ==> l.position(v, #[trigger] list[m] as int) <= l.position(v, i)
            &&& p < list.len() ==> l.position(v, list[p] as int) > l.position(v, i)
        }),
    decreases list.len() - k,
{
    if k < list.len() && l.position(v, list[k] as int) <= l.position(v, i) {
        position_place_is_first(l, v, list, i, k + 1);
    }
}

/// The list of a version comes in the order of that version.
pub proof fn a_list_is_in_the_order_of_its_version(l: Layout, v: Version, survivors: bool, n: int)
    requires
        l.wf(),
        0 <= n <= l.triples.len(),
    ensures
        forall|i: int, j: int|
            0 <= i < j < l.in_order(v, survivors, n).len() ==> l.position(
                v,
                #[trigger] l.in_order(v, survivors, n)[i] as int,
            ) <= l.position(v, #[trigger] l.in_order(v, survivors, n)[j] as int),
    decreases n,
{
    if n > 0 {
        a_list_is_in_the_order_of_its_version(l, v, survivors, n - 1);
        let front = l.in_order(v, survivors, n - 1);
        let all = l.in_order(v, survivors, n);
        if l.listed(v, survivors, n - 1) {
            position_place_is_first(l, v, front, n - 1, 0);
            let p = l.position_place(v, front, n - 1, 0);
            assert forall|i: int, j: int| 0 <= i < j < all.len() implies l.position(
                v,
                #[trigger] all[i] as int,
            ) <= l.position(v, #[trigger] all[j] as int) by {
                let x = if i < p {
                    front[i]
                } else {
                    front[i - 1]
                };
                let y = if j < p {
                    front[j]
                } else {
                    front[j - 1]
                };
                assert(i != p ==> all[i] == x);
                assert(j != p ==> all[j] == y);
                if p < front.len() {
                    assert(front[p] == front[p]);
                }
            }
        }
    }
}

impl Layout {
    /// Does each version put every entity at a place of its own?
    pub open spec fn places_differ(self) -> bool {
        forall|v: Version, i: int, j: int|
            #![trigger self.position(v, i), self.position(v, j)]
            0 <= i < j < self.triples.len() && in_version(self.triples[i], v) is Some
                && in_version(self.triples[j], v) is Some ==> self.position(v, i)
                != self.position(v, j)
    }

    /// Does the version put the two, which base has in this order, in the opposite one?
    pub open spec fn turns(self, v: Version, i: int, j: int) -> bool {
        &&& 0 <= i < self.triples.len()
        &&& 0 <= j < self.triples.len()
        &&& self.triples[i].base is Some
        &&& self.triples[j].base is Some
        &&& in_version(self.triples[i], v) is Some
        &&& in_version(self.triples[j], v) is Some
        &&& self.position(Version::Base, i) < self.position(Version::Base, j)
        &&& self.position(v, j) < self.position(v, i)
    }

    /// Does the version give what it has of base another order?
    pub open spec fn reorders(self, v: Version) -> bool {
        exists|i: int, j: int| self.turns(v, i, j)
    }

    /// Does the plan put what base and the version have in the order of the version?
    pub open spec fn keeps_order_of(self, v: Version) -> bool {
        forall|a: int, b: int|
            0 <= a < b < self.items().len() ==> {
                let i = (#[trigger] self.items()[a]).triple;
                let j = (#[trigger] self.items()[b]).triple;
                self.triples[i].base is Some && self.triples[j].base is Some && in_version(
                    self.triples[i],
                    v,
                ) is Some && in_version(self.triples[j], v) is Some ==> self.position(v, i)
                    < self.position(v, j)
            }
    }
}

spec fn rises(l: Layout, v: Version, s: Seq<usize>) -> bool {
    forall|i: int, j: int|
        0 <= i < j < s.len() ==> l.position(v, #[trigger] s[i] as int) < l.position(
            v,
            #[trigger] s[j] as int,
        )
}

proof fn survivors_rise(l: Layout, v: Version)
    requires
        l.wf(),
        l.places_differ(),
    ensures
        rises(l, v, l.survivors(v)),
{
    let n = l.triples.len() as int;
    let s = l.survivors(v);
    a_list_is_in_the_order_of_its_version(l, v, true, n);
    survivors_hold(l, v, n);
    list_in_range(l, v, true, n);
    assert forall|i: int, j: int| 0 <= i < j < s.len() implies l.position(
        v,
        #[trigger] s[i] as int,
    ) < l.position(v, #[trigger] s[j] as int) by {
        let (x, y) = (s[i] as int, s[j] as int);
        assert(l.listed(v, true, x) && l.listed(v, true, y));
        assert(x != y);
        if x < y {
            assert(l.position(v, x) != l.position(v, y));
        } else {
            assert(l.position(v, y) != l.position(v, x));
        }
    }
}

proof fn one_order_is_one_list(l: Layout, v: Version, a: Seq<usize>, b: Seq<usize>)
    requires
        rises(l, v, a),
        rises(l, v, b),
        forall|x: usize| a.contains(x) <==> b.contains(x),
    ensures
        a == b,
    decreases a.len(),
{
    if a.len() == 0 {
        if b.len() > 0 {
            assert(b.contains(b[0]));
            assert(a.contains(b[0]));
        }
        assert(a =~= b);
    } else {
        assert(a.contains(a[0]));
        assert(b.contains(a[0]));
        assert(b.len() > 0);
        let (x, y) = (a.last(), b.last());
        assert(a.contains(x) && b.contains(y));
        let i = choose|i: int| 0 <= i < b.len() && b[i] == x;
        let j = choose|j: int| 0 <= j < a.len() && a[j] == y;
        if i < b.len() - 1 && j < a.len() - 1 {
            assert(l.position(v, b[i] as int) < l.position(v, b[b.len() - 1] as int));
            assert(l.position(v, a[j] as int) < l.position(v, a[a.len() - 1] as int));
        }
        assert(x == y);
        let (c, d) = (a.drop_last(), b.drop_last());
        assert(rises(l, v, c)) by {
            assert forall|i: int, j: int| 0 <= i < j < c.len() implies l.position(
                v,
                #[trigger] c[i] as int,
            ) < l.position(v, #[trigger] c[j] as int) by {
                assert(c[i] == a[i] && c[j] == a[j]);
            }
        }
        assert(rises(l, v, d)) by {
            assert forall|i: int, j: int| 0 <= i < j < d.len() implies l.position(
                v,
                #[trigger] d[i] as int,
            ) < l.position(v, #[trigger] d[j] as int) by {
                assert(d[i] == b[i] && d[j] == b[j]);
            }
        }
        assert forall|z: usize| c.contains(z) <==> d.contains(z) by {
            if c.contains(z) {
                let k = choose|k: int| 0 <= k < c.len() && c[k] == z;
                assert(a[k] == z);
                assert(l.position(v, a[k] as int) < l.position(v, a[a.len() - 1] as int));
                assert(a.contains(z));
                let m = choose|m: int| 0 <= m < b.len() && b[m] == z;
                assert(m < b.len() - 1);
                assert(d[m] == z);
            }
            if d.contains(z) {
                let k = choose|k: int| 0 <= k < d.len() && d[k] == z;
                assert(b[k] == z);
                assert(l.position(v, b[k] as int) < l.position(v, b[b.len() - 1] as int));
                assert(b.contains(z));
                let m = choose|m: int| 0 <= m < a.len() && a[m] == z;
                assert(m < a.len() - 1);
                assert(c[m] == z);
            }
        }
        one_order_is_one_list(l, v, c, d);
        assert(a =~= c.push(x));
        assert(b =~= d.push(y));
    }
}

proof fn what_is_kept_rises(l: Layout, v: Version, s: Seq<usize>, keep: Seq<usize>)
    requires
        rises(l, v, s),
    ensures
        rises(l, v, kept(s, keep)),
    decreases s.len(),
{
    if s.len() > 0 {
        let front = s.drop_last();
        assert(rises(l, v, front)) by {
            assert forall|i: int, j: int| 0 <= i < j < front.len() implies l.position(
                v,
                #[trigger] front[i] as int,
            ) < l.position(v, #[trigger] front[j] as int) by {
                assert(front[i] == s[i] && front[j] == s[j]);
            }
        }
        what_is_kept_rises(l, v, front, keep);
        let k = kept(front, keep);
        let all = kept(s, keep);
        assert forall|i: int, j: int| 0 <= i < j < all.len() implies l.position(
            v,
            #[trigger] all[i] as int,
        ) < l.position(v, #[trigger] all[j] as int) by {
            if j < k.len() {
                assert(all[i] == k[i] && all[j] == k[j]);
            } else {
                assert(all[j] == s.last());
                assert(all[i] == k[i]);
                kept_holds(front, keep, k[i]);
                assert(k.contains(k[i]));
                let m = choose|m: int| 0 <= m < front.len() && front[m] == k[i];
                assert(s[m] == k[i]);
                assert(l.position(v, s[m] as int) < l.position(v, s[s.len() - 1] as int));
            }
        }
    }
}

/// Whether a side moved what it has of base is whether it turned two of them round.
pub proof fn a_side_moved_what_it_turned_round(l: Layout, v: Version)
    requires
        l.wf(),
        l.places_differ(),
    ensures
        moved(l.survivors(Version::Base), l.survivors(v)) <==> l.reorders(v),
{
    let n = l.triples.len() as int;
    let base = l.survivors(Version::Base);
    let side = l.survivors(v);
    survivors_rise(l, Version::Base);
    survivors_rise(l, v);
    survivors_hold(l, Version::Base, n);
    survivors_hold(l, v, n);
    list_in_range(l, v, true, n);
    what_is_kept_rises(l, Version::Base, base, side);
    if l.reorders(v) {
        let (i, j) = choose|i: int, j: int| l.turns(v, i, j);
        assert(side.contains(i as usize) && side.contains(j as usize));
        let a = choose|a: int| 0 <= a < side.len() && side[a] == i as usize;
        let b = choose|b: int| 0 <= b < side.len() && side[b] == j as usize;
        if side == kept(base, side) {
            if a < b {
                assert(l.position(v, side[a] as int) < l.position(v, side[b] as int));
            } else {
                assert(a != b);
                assert(l.position(Version::Base, side[b] as int) < l.position(
                    Version::Base,
                    side[a] as int,
                ));
            }
            assert(false);
        }
    } else {
        assert(rises(l, Version::Base, side)) by {
            assert forall|a: int, b: int| 0 <= a < b < side.len() implies l.position(
                Version::Base,
                #[trigger] side[a] as int,
            ) < l.position(Version::Base, #[trigger] side[b] as int) by {
                let (i, j) = (side[a] as int, side[b] as int);
                assert(l.position(v, i) < l.position(v, j));
                assert(l.listed(v, true, i) && l.listed(v, true, j));
                assert(i != j);
                if i < j {
                    assert(l.position(Version::Base, i) != l.position(Version::Base, j));
                } else {
                    assert(l.position(Version::Base, j) != l.position(Version::Base, i));
                }
                assert(!l.turns(v, j, i));
            }
        }
        assert forall|x: usize| side.contains(x) <==> kept(base, side).contains(x) by {
            kept_holds(base, side, x);
            if side.contains(x) {
                assert(l.listed(v, true, x as int));
                assert(base.contains(x));
            }
        }
        one_order_is_one_list(l, Version::Base, side, kept(base, side));
    }
}

proof fn kept_stay_in_order(s: Seq<usize>, keep: Seq<usize>, a: int, b: int) -> (r: (int, int))
    requires
        0 <= a < b < s.len(),
        keep.contains(s[a]),
        keep.contains(s[b]),
    ensures
        0 <= r.0 < r.1 < kept(s, keep).len(),
        kept(s, keep)[r.0] == s[a],
        kept(s, keep)[r.1] == s[b],
    decreases s.len(),
{
    let front = s.drop_last();
    let k = kept(front, keep);
    if b < front.len() {
        assert(front[a] == s[a] && front[b] == s[b]);
        kept_stay_in_order(front, keep, a, b)
    } else {
        assert(front[a] == s[a]);
        assert(front.contains(s[a]));
        kept_holds(front, keep, s[a]);
        let i = choose|i: int| 0 <= i < k.len() && k[i] == s[a];
        (i, k.len() as int)
    }
}

proof fn gap_items_are_additions(q: Sequences<usize>, gap: int, n: int)
    requires
        0 <= n <= q.added.len(),
    ensures
        forall|x: usize| #[trigger] q.in_gap(gap, n).contains(x) ==> q.added.contains(x),
    decreases n,
{
    if n > 0 {
        gap_items_are_additions(q, gap, n - 1);
        let front = q.in_gap(gap, n - 1);
        assert forall|x: usize| #[trigger] q.in_gap(gap, n).contains(x) implies q.added.contains(
            x,
        ) by {
            let all = q.in_gap(gap, n);
            let i = choose|i: int| 0 <= i < all.len() && all[i] == x;
            if i < front.len() {
                assert(front[i] == x);
                assert(front.contains(x));
            } else {
                assert(q.added[n - 1] == x);
            }
        }
    }
}

proof fn a_placed_item_is_what_it_says(q: Sequences<usize>, n: int, i: int)
    requires
        0 <= n <= q.survivors.len(),
        0 <= i < q.placed_upto(n).len(),
    ensures
        ({
            let p = q.placed_upto(n)[i];
            if p.added {
                q.added.contains(p.item)
            } else {
                0 < p.gap <= n && q.survivors[p.gap - 1] == p.item
            }
        }),
    decreases n,
{
    broadcast use vstd::seq_lib::group_to_multiset_ensures;

    gap_items_are_additions(q, n, q.added.len() as int);
    let inside = q.in_gap(n, q.added.len() as int);
    let gap = q.gap(n);
    a_gap_keeps_what_it_holds(inside, q.ours, q.theirs);
    assert forall|k: int| 0 <= k < gap.len() implies q.added.contains(#[trigger] gap[k]) by {
        assert(gap.to_multiset().count(gap[k]) > 0);
        assert(inside.to_multiset().count(gap[k]) > 0);
        assert(inside.contains(gap[k]));
    }
    if n <= 0 {
        assert(q.placed_upto(n)[i].item == gap[i]);
    } else {
        let front = q.placed_upto(n - 1);
        let here = q.survivor_items(n);
        if i < front.len() {
            a_placed_item_is_what_it_says(q, n - 1, i);
            assert(q.placed_upto(n)[i] == front[i]);
        } else if i < front.len() + here.len() {
            assert(q.placed_upto(n)[i] == here[i - front.len()]);
        } else {
            assert(q.placed_upto(n)[i] == q.gap_items(n)[i - front.len() - here.len()]);
            assert(q.placed_upto(n)[i].item == gap[i - front.len() - here.len()]);
        }
    }
}

proof fn a_followed_list_is_kept(l: Layout, v: Version)
    requires
        l.wf(),
        l.places_differ(),
        kept(l.shared(), l.survivors(v)) == l.survivors(v),
    ensures
        l.keeps_order_of(v),
{
    let n = l.triples.len() as int;
    let q = l.sequences();
    let placed = q.placed();
    let s = l.survivors(v);
    survivors_rise(l, v);
    survivors_hold(l, v, n);
    added_in_range(l, n);
    a_placement_is_in_order(q);
    a_plan_holds_each_triple_once(l);
    assert forall|a: int, b: int| 0 <= a < b < l.items().len() implies {
        let i = (#[trigger] l.items()[a]).triple;
        let j = (#[trigger] l.items()[b]).triple;
        l.triples[i].base is Some && l.triples[j].base is Some && in_version(l.triples[i], v)
            is Some && in_version(l.triples[j], v) is Some ==> l.position(v, i) < l.position(v, j)
    } by {
        let (x, y) = (placed[a], placed[b]);
        let (i, j) = (l.items()[a].triple, l.items()[b].triple);
        assert(i == x.item && j == y.item);
        a_placed_item_is_what_it_says(q, q.survivors.len() as int, a);
        a_placed_item_is_what_it_says(q, q.survivors.len() as int, b);
        if l.triples[i].base is Some && l.triples[j].base is Some && in_version(l.triples[i], v)
            is Some && in_version(l.triples[j], v) is Some {
            assert(!x.added && !y.added);
            assert(x.gap < y.gap);
            assert(s.contains(x.item) && s.contains(y.item));
            let (c, d) = kept_stay_in_order(l.shared(), s, x.gap - 1, y.gap - 1);
            assert(l.position(v, s[c] as int) < l.position(v, s[d] as int));
        }
    }
}

/// The plan puts what base has in the order of whoever moved it. Where one side turned
/// something round and the other did not, its order is kept; where neither did, or both
/// did and order has no meaning, base's is; and where both did, order has a meaning and
/// they do not contradict each other, the order of both is.
pub proof fn a_plan_keeps_the_order_of_whoever_moved(l: Layout)
    requires
        l.wf(),
        l.places_differ(),
    ensures
        ({
            let (o, t) = (l.reorders(Version::Ours), l.reorders(Version::Theirs));
            &&& !o && !t ==> l.keeps_order_of(Version::Base)
            &&& o && !t ==> l.keeps_order_of(Version::Ours)
            &&& t && !o ==> l.keeps_order_of(Version::Theirs)
            &&& o && t && !l.effectful ==> l.keeps_order_of(Version::Base)
            &&& o && t && l.effectful && !l.contradicts() ==> l.keeps_order_of(Version::Ours)
                && l.keeps_order_of(Version::Theirs)
            &&& l.contradicts() ==> o && t && l.effectful
        }),
{
    let n = l.triples.len() as int;
    let base = l.survivors(Version::Base);
    let ours = l.survivors(Version::Ours);
    let theirs = l.survivors(Version::Theirs);
    a_side_moved_what_it_turned_round(l, Version::Ours);
    a_side_moved_what_it_turned_round(l, Version::Theirs);
    survivors_hold(l, Version::Base, n);
    survivors_hold(l, Version::Ours, n);
    survivors_hold(l, Version::Theirs, n);
    let s = asserted(base, ours, theirs, l.effectful).0;
    a_union_holds_each_once(ours, theirs);
    assert(s.no_duplicates());
    a_union_follows_the_first(s, base);
    assert(kept(l.shared(), s) == s);
    let (o, t) = (l.reorders(Version::Ours), l.reorders(Version::Theirs));
    if o && t && l.effectful {
        if !l.contradicts() {
            a_union_without_disagreement_follows_both(ours, theirs);
            kept_twice(l.shared(), s, ours, ours);
            kept_twice(l.shared(), s, theirs, theirs);
            a_followed_list_is_kept(l, Version::Ours);
            a_followed_list_is_kept(l, Version::Theirs);
        }
    } else if o && !t {
        a_followed_list_is_kept(l, Version::Ours);
    } else if t && !o {
        a_followed_list_is_kept(l, Version::Theirs);
    } else {
        a_followed_list_is_kept(l, Version::Base);
    }
}

/// Where order has a meaning and each side turned something of base round, two entities
/// that the sides put in opposite order are a contradiction.
pub proof fn opposite_orders_are_a_contradiction(l: Layout, i: int, j: int)
    requires
        l.wf(),
        l.places_differ(),
        l.effectful,
        l.reorders(Version::Ours),
        l.reorders(Version::Theirs),
        0 <= i < l.triples.len(),
        0 <= j < l.triples.len(),
        l.triples[i].base is Some && l.triples[i].ours is Some && l.triples[i].theirs is Some,
        l.triples[j].base is Some && l.triples[j].ours is Some && l.triples[j].theirs is Some,
        l.position(Version::Ours, i) < l.position(Version::Ours, j),
        l.position(Version::Theirs, j) < l.position(Version::Theirs, i),
    ensures
        l.contradicts(),
{
    let n = l.triples.len() as int;
    let ours = l.survivors(Version::Ours);
    let theirs = l.survivors(Version::Theirs);
    a_side_moved_what_it_turned_round(l, Version::Ours);
    a_side_moved_what_it_turned_round(l, Version::Theirs);
    survivors_hold(l, Version::Ours, n);
    survivors_hold(l, Version::Theirs, n);
    survivors_rise(l, Version::Ours);
    survivors_rise(l, Version::Theirs);
    a_disagreement_is_about_what_is_shared(ours, theirs);
    what_is_kept_rises(l, Version::Ours, ours, theirs);
    what_is_kept_rises(l, Version::Theirs, theirs, ours);
    let k = kept(ours, theirs);
    if k == kept(theirs, ours) {
        assert(ours.contains(i as usize) && theirs.contains(i as usize));
        assert(ours.contains(j as usize) && theirs.contains(j as usize));
        kept_holds(ours, theirs, i as usize);
        kept_holds(ours, theirs, j as usize);
        let a = choose|a: int| 0 <= a < k.len() && k[a] == i as usize;
        let b = choose|b: int| 0 <= b < k.len() && k[b] == j as usize;
        if a < b {
            assert(l.position(Version::Theirs, k[a] as int) < l.position(
                Version::Theirs,
                k[b] as int,
            ));
        } else {
            assert(a != b);
            assert(l.position(Version::Ours, k[b] as int) < l.position(
                Version::Ours,
                k[a] as int,
            ));
        }
        assert(false);
    }
}

} // verus!
