//! Matching does not prefer a side: exchanging ours and theirs gives the mirror image
//! of every triple.
//!
//! The two sides stand behind one another in the arena, so an exchange moves each of
//! them as a whole. What is inferred of a side looks only at the base and at that
//! side, and moves with it.

use vstd::prelude::*;
use crate::v2::candidates::{
    count, leads_to, paired, place, precedes, ranked, taken, target,
    tokens_of, within, Candidate, Field,
};
use crate::v2::classify::{cell_of, classification_is_symmetric};
use crate::v2::match_phase::{
    find_key, identity, keys_are_unique, minted_all, origin, ours_triple, pick, pick_lists,
    theirs_triple, RawView, Versions,
};
use crate::v2::pipeline::{analysis_of, versions_of};
use crate::v2::plan::Layout;
use crate::v2::types::{flip_twice_is_identity, Cell, EntityView, Idx, KeyView, Link, TripleView};

verus! {

// ---------------------------------------------------------------------------
// One side, moved in the arena
// ---------------------------------------------------------------------------

/// The index `d` places on.
pub open spec fn moved_by(x: Idx, d: int) -> Idx {
    Idx((x.0 + d) as u32)
}

/// An entry of a pairing whose side moved.
pub open spec fn moved_entry(e: Option<(Idx, Link)>, d: int) -> Option<(Idx, Link)> {
    match e {
        Some(pair) => Some((moved_by(pair.0, d), pair.1)),
        None => None,
    }
}

/// A pairing whose side moved.
pub open spec fn moved_pairing(p: Seq<Option<(Idx, Link)>>, d: int) -> Seq<Option<(Idx, Link)>> {
    p.map_values(|e: Option<(Idx, Link)>| moved_entry(e, d))
}

/// A candidate whose side moved.
pub open spec fn moved_candidate(c: Candidate, d: int) -> Candidate {
    Candidate { branch: moved_by(c.branch, d), ..c }
}

/// Candidates whose side moved.
pub open spec fn moved_candidates(cs: Seq<Candidate>, d: int) -> Seq<Candidate> {
    cs.map_values(|c: Candidate| moved_candidate(c, d))
}

/// The entities from `lo` up to `hi` of one arena stand `d` places on in the other.
pub open spec fn arena_moved(
    a: Seq<EntityView>,
    b: Seq<EntityView>,
    nb: int,
    lo: int,
    hi: int,
    d: int,
) -> bool {
    &&& 0 <= nb <= lo <= hi <= a.len() <= u32::MAX
    &&& nb <= lo + d
    &&& hi + d <= b.len() <= u32::MAX
    &&& forall|x: int| 0 <= x < nb ==> #[trigger] a[x] == b[x]
    &&& forall|n: int| lo <= n < hi ==> #[trigger] a[n] == b[n + d]
}

/// The second field is the first with its side moved.
pub open spec fn field_moved(f: Field, g: Field, d: int) -> bool {
    &&& f.wf()
    &&& g.wf()
    &&& g.nb == f.nb
    &&& g.lo == f.lo + d
    &&& g.hi == f.hi + d
    &&& arena_moved(f.arena, g.arena, f.nb, f.lo, f.hi, d)
    &&& g.pairing == moved_pairing(f.pairing, d)
    &&& g.reserved == f.reserved
}

proof fn paired_moves(p: Seq<Option<(Idx, Link)>>, lo: int, hi: int, n: int, d: int)
    requires
        within(p, lo, hi),
        0 <= lo <= n < hi <= u32::MAX,
        0 <= lo + d,
        hi + d <= u32::MAX,
    ensures
        paired(moved_pairing(p, d), Idx((n + d) as u32)) == paired(p, Idx(n as u32)),
{
    let q = moved_pairing(p, d);
    if paired(p, Idx(n as u32)) {
        let b = choose|b: int| 0 <= b < p.len() && leads_to(#[trigger] p[b], Idx(n as u32));
        assert(leads_to(q[b], Idx((n + d) as u32)));
    }
    if paired(q, Idx((n + d) as u32)) {
        let b = choose|b: int| 0 <= b < q.len() && leads_to(#[trigger] q[b], Idx((n + d) as u32));
        assert(p[b] is Some);
        assert(lo <= target(p[b]).0 < hi);
        assert(leads_to(p[b], Idx(n as u32)));
    }
}

proof fn counts_move(
    lo: int,
    hi: int,
    d: int,
    p: spec_fn(int) -> bool,
    q: spec_fn(int) -> bool,
)
    requires
        forall|x: int| lo <= x < hi ==> #[trigger] p(x) == q(x + d),
    ensures
        count(lo + d, hi + d, q) == count(lo, hi, p),
    decreases hi - lo,
{
    if lo < hi {
        counts_move(lo, hi - 1, d, p, q);
        assert(p(hi - 1) == q(hi - 1 + d));
        assert(hi + d - 1 == hi - 1 + d);
    }
}

proof fn openness_moves(f: Field, g: Field, d: int)
    requires
        field_moved(f, g, d),
    ensures
        forall|b: int| #[trigger] g.base_open(b) == f.base_open(b),
        forall|n: int| f.lo <= n < f.hi ==> #[trigger] f.branch_open(n) == g.branch_open(n + d),
{
    assert forall|n: int| f.lo <= n < f.hi implies #[trigger] f.branch_open(n) == g.branch_open(
        n + d,
    ) by {
        paired_moves(f.pairing, f.lo, f.hi, n, d);
    }
}

proof fn body_pairs_move(f: Field, g: Field, d: int)
    requires
        field_moved(f, g, d),
    ensures
        forall|b: int, n: int|
            f.lo <= n < f.hi ==> #[trigger] f.body_pair(b, n) == g.body_pair(b, n + d),
{
    openness_moves(f, g, d);
    assert forall|b: int, n: int| f.lo <= n < f.hi implies #[trigger] f.body_pair(b, n)
        == g.body_pair(b, n + d) by {
        assert(f.branch_open(n) == g.branch_open(n + d));
        assert(g.base_open(b) == f.base_open(b));
        if f.base_open(b) {
            assert(f.arena[b] == g.arena[b]);
            assert(f.arena[n] == g.arena[n + d]);
            let (p, q) = (f.base_ahead(b), g.base_ahead(b));
            assert forall|x: int| 0 <= x < f.nb implies #[trigger] p(x) == q(x + 0) by {
                assert(g.base_open(x) == f.base_open(x));
                assert(f.arena[x] == g.arena[x]);
            }
            counts_move(0, f.nb, 0, p, q);
            let (p, q) = (f.branch_ahead(n), g.branch_ahead(n + d));
            assert forall|x: int| f.lo <= x < f.hi implies #[trigger] p(x) == q(x + d) by {
                assert(f.branch_open(x) == g.branch_open(x + d));
                assert(f.arena[x] == g.arena[x + d]);
            }
            counts_move(f.lo, f.hi, d, p, q);
        }
    }
}

proof fn stillness_moves(f: Field, g: Field, d: int)
    requires
        field_moved(f, g, d),
    ensures
        forall|b: int| #[trigger] g.base_still(b) == f.base_still(b),
        forall|n: int| f.lo <= n < f.hi ==> #[trigger] f.branch_still(n) == g.branch_still(n + d),
{
    openness_moves(f, g, d);
    body_pairs_move(f, g, d);
    assert forall|b: int| #[trigger] g.base_still(b) == f.base_still(b) by {
        assert(g.base_open(b) == f.base_open(b));
        if f.base_open(b) && !f.base_still(b) {
            let n = choose|n: int| f.body_pair(b, n);
            assert(g.body_pair(b, n + d));
        }
        if g.base_open(b) && !g.base_still(b) {
            let n = choose|n: int| g.body_pair(b, n);
            assert(f.body_pair(b, n - d) == g.body_pair(b, n - d + d));
        }
    }
    assert forall|n: int| f.lo <= n < f.hi implies #[trigger] f.branch_still(n) == g.branch_still(
        n + d,
    ) by {
        assert(f.branch_open(n) == g.branch_open(n + d));
        if f.branch_open(n) && !f.branch_still(n) {
            let b = choose|b: int| f.body_pair(b, n);
            assert(g.body_pair(b, n + d));
        }
        if g.branch_open(n + d) && !g.branch_still(n + d) {
            let m = n + d;
            let b = choose|b: int| g.body_pair(b, m);
            assert(f.body_pair(b, n) == g.body_pair(b, n + d));
        }
    }
}

proof fn rarity_moves(f: Field, g: Field, d: int, tok: Seq<char>)
    requires
        field_moved(f, g, d),
    ensures
        g.rare(tok) == f.rare(tok),
{
    stillness_moves(f, g, d);
    let (p, q) = (f.short_holder(tok), g.short_holder(tok));
    assert forall|x: int| f.lo <= x < f.hi implies #[trigger] p(x) == q(x + d) by {
        assert(f.branch_still(x) == g.branch_still(x + d));
        assert(f.arena[x] == g.arena[x + d]);
    }
    counts_move(f.lo, f.hi, d, p, q);
}

proof fn call_sites_move(f: Field, g: Field, d: int, x: int, name: Seq<char>)
    requires
        field_moved(f, g, d),
        0 <= x < f.nb,
    ensures
        g.dropped(x, name) == f.dropped(x, name),
        g.gained(x, name) == f.gained(x, name),
{
    assert(f.arena[x] == g.arena[x]);
    assert(g.pairing[x] == moved_entry(f.pairing[x], d));
    if f.pairing[x] is Some {
        let n = target(f.pairing[x]).0 as int;
        assert(f.lo <= n < f.hi);
        assert(f.arena[n] == g.arena[n + d]);
        assert(target(g.pairing[x]).0 == n + d);
    }
}

proof fn moves_move(f: Field, g: Field, d: int, a: Seq<char>, b: Seq<char>)
    requires
        field_moved(f, g, d),
    ensures
        g.moved(a, b) == f.moved(a, b),
        g.base_named(b) == f.base_named(b),
{
    if f.moved(a, b) {
        let x = choose|x: int| 0 <= x < f.nb && #[trigger] f.dropped(x, a) && f.gained(x, b);
        call_sites_move(f, g, d, x, a);
        call_sites_move(f, g, d, x, b);
        assert(g.dropped(x, a) && g.gained(x, b));
    }
    if g.moved(a, b) {
        let x = choose|x: int| 0 <= x < g.nb && #[trigger] g.dropped(x, a) && g.gained(x, b);
        call_sites_move(f, g, d, x, a);
        call_sites_move(f, g, d, x, b);
        assert(f.dropped(x, a) && f.gained(x, b));
    }
    if f.base_named(b) {
        let x = choose|x: int| 0 <= x < f.nb && (#[trigger] f.arena[x]).key.name == b;
        assert(g.arena[x].key.name == b);
    }
    if g.base_named(b) {
        let x = choose|x: int| 0 <= x < g.nb && (#[trigger] g.arena[x]).key.name == b;
        assert(f.arena[x] == g.arena[x]);
    }
}

#[verifier::rlimit(40)]
proof fn pair_candidates_move(f: Field, g: Field, d: int, b: int, n: int)
    requires
        field_moved(f, g, d),
        0 <= b < f.nb,
        f.lo <= n < f.hi,
    ensures
        g.pair_candidates(b, n + d) == moved_candidates(f.pair_candidates(b, n), d),
{
    body_pairs_move(f, g, d);
    stillness_moves(f, g, d);
    assert(f.body_pair(b, n) == g.body_pair(b, n + d));
    assert(f.arena[b] == g.arena[b]);
    assert(f.arena[n] == g.arena[n + d]);
    assert(g.base_still(b) == f.base_still(b));
    assert(f.branch_still(n) == g.branch_still(n + d));
    let m = n + d;
    assert(f.comparable(b, n) == g.comparable(b, m));
    assert(f.inter(b, n) == g.inter(b, m));
    assert(f.union(b, n) == g.union(b, m));
    assert(f.smaller(b, n) == g.smaller(b, m));
    assert(f.short(b) == g.short(b));
    assert(f.short(n) == g.short(m));
    let bt = tokens_of(f.arena[b]);
    assert(f.share_rare(b, n) == g.share_rare(b, m)) by {
        if f.share_rare(b, n) {
            let i = choose|i: int|
                0 <= i < bt.len() && tokens_of(f.arena[n]).contains(#[trigger] bt[i]) && f.rare(
                    bt[i],
                );
            rarity_moves(f, g, d, bt[i]);
            assert(0 <= i < tokens_of(g.arena[b]).len() && tokens_of(g.arena[m]).contains(
                tokens_of(g.arena[b])[i],
            ) && g.rare(tokens_of(g.arena[b])[i]));
        }
        if g.share_rare(b, m) {
            let i = choose|i: int|
                0 <= i < bt.len() && tokens_of(g.arena[m]).contains(#[trigger] bt[i]) && g.rare(
                    bt[i],
                );
            rarity_moves(f, g, d, bt[i]);
            assert(0 <= i < tokens_of(f.arena[b]).len() && tokens_of(f.arena[n]).contains(
                tokens_of(f.arena[b])[i],
            ) && f.rare(tokens_of(f.arena[b])[i]));
        }
    }
    moves_move(f, g, d, f.arena[b].key.name, f.arena[n].key.name);
    assert(f.similar(b, n) == g.similar(b, m));
    assert(f.contained(b, n) == g.contained(b, m));
    assert(f.corroborated(b, n) == g.corroborated(b, m));
    assert(f.jaccard(b, n) == g.jaccard(b, m));
    assert(g.pair_candidates(b, m) =~= moved_candidates(f.pair_candidates(b, n), d));
}

proof fn row_moves(f: Field, g: Field, d: int, b: int, n: int)
    requires
        field_moved(f, g, d),
        0 <= b < f.nb,
        n <= f.hi,
    ensures
        g.row(b, n + d) == moved_candidates(f.row(b, n), d),
    decreases n - f.lo,
{
    if n > f.lo {
        row_moves(f, g, d, b, n - 1);
        pair_candidates_move(f, g, d, b, n - 1);
        assert(n + d - 1 == n - 1 + d);
        assert(g.row(b, n + d) == g.row(b, n - 1 + d) + g.pair_candidates(b, n - 1 + d));
        assert(g.row(b, n + d) =~= moved_candidates(f.row(b, n), d));
    } else {
        assert(g.row(b, n + d) =~= moved_candidates(f.row(b, n), d));
    }
}

proof fn rows_move(f: Field, g: Field, d: int, b: int)
    requires
        field_moved(f, g, d),
        b <= f.nb,
    ensures
        g.rows(b) == moved_candidates(f.rows(b), d),
    decreases b,
{
    if b > 0 {
        rows_move(f, g, d, b - 1);
        row_moves(f, g, d, b - 1, f.hi);
        assert(g.rows(b) =~= moved_candidates(f.rows(b), d));
    } else {
        assert(g.rows(b) =~= moved_candidates(f.rows(b), d));
    }
}

/// The candidates lie in the field.
spec fn lie_in(f: Field, cs: Seq<Candidate>) -> bool {
    forall|i: int|
        0 <= i < cs.len() ==> (#[trigger] cs[i]).base.0 < f.nb && f.lo <= cs[i].branch.0 < f.hi
}

proof fn precedence_moves(f: Field, g: Field, d: int, a: Candidate, b: Candidate)
    requires
        field_moved(f, g, d),
        a.base.0 < f.nb,
        f.lo <= a.branch.0 < f.hi,
        b.base.0 < f.nb,
        f.lo <= b.branch.0 < f.hi,
    ensures
        precedes(g.arena, moved_candidate(a, d), moved_candidate(b, d)) == precedes(f.arena, a, b),
{
    assert(f.arena[a.base.0 as int] == g.arena[a.base.0 as int]);
    assert(f.arena[b.base.0 as int] == g.arena[b.base.0 as int]);
    assert(f.arena[a.branch.0 as int] == g.arena[a.branch.0 + d]);
    assert(f.arena[b.branch.0 as int] == g.arena[b.branch.0 + d]);
}

proof fn place_moves(f: Field, g: Field, d: int, s: Seq<Candidate>, c: Candidate, k: int)
    requires
        field_moved(f, g, d),
        lie_in(f, s),
        c.base.0 < f.nb,
        f.lo <= c.branch.0 < f.hi,
        0 <= k,
    ensures
        place(g.arena, moved_candidates(s, d), moved_candidate(c, d), k) == place(f.arena, s, c, k),
    decreases s.len() - k,
{
    if k < s.len() {
        precedence_moves(f, g, d, c, s[k]);
        place_moves(f, g, d, s, c, k + 1);
    }
}

proof fn ranking_moves(f: Field, g: Field, d: int, s: Seq<Candidate>)
    requires
        field_moved(f, g, d),
        lie_in(f, s),
    ensures
        ranked(g.arena, moved_candidates(s, d)) == moved_candidates(ranked(f.arena, s), d),
        lie_in(f, ranked(f.arena, s)),
    decreases s.len(),
{
    let m = moved_candidates(s, d);
    if s.len() > 0 {
        let rest = s.drop_last();
        assert(lie_in(f, rest)) by {
            assert forall|i: int| 0 <= i < rest.len() implies (#[trigger] rest[i]).base.0 < f.nb
                && f.lo <= rest[i].branch.0 < f.hi by {
                assert(rest[i] == s[i]);
            }
        }
        ranking_moves(f, g, d, rest);
        assert(m.drop_last() =~= moved_candidates(rest, d));
        let front = ranked(f.arena, rest);
        let c = s.last();
        assert(s[s.len() - 1].base.0 < f.nb);
        place_moves(f, g, d, front, c, 0);
        crate::v2::candidates::place_bounds(f.arena, front, c, 0);
        let k = place(f.arena, front, c, 0);
        let all = front.insert(k, c);
        assert(m.last() == moved_candidate(c, d));
        assert(ranked(g.arena, m) =~= moved_candidates(all, d));
        assert forall|i: int| 0 <= i < all.len() implies (#[trigger] all[i]).base.0 < f.nb && f.lo
            <= all[i].branch.0 < f.hi by {
            if i < k {
                assert(all[i] == front[i]);
            } else if i > k {
                assert(all[i] == front[i - 1]);
            }
        }
    } else {
        assert(ranked(g.arena, m) =~= moved_candidates(ranked(f.arena, s), d));
    }
}

proof fn taking_moves(
    f: Field,
    d: int,
    cs: Seq<Candidate>,
    k: int,
    p: Seq<Option<(Idx, Link)>>,
)
    requires
        f.wf(),
        0 <= f.lo + d,
        f.hi + d <= u32::MAX,
        lie_in(f, cs),
        within(p, f.lo, f.hi),
        p.len() == f.nb,
        0 <= k,
    ensures
        taken(moved_candidates(cs, d), k, moved_pairing(p, d)) == moved_pairing(
            taken(cs, k, p),
            d,
        ),
    decreases cs.len() - k,
{
    if k < cs.len() {
        let c = cs[k];
        let m = moved_candidates(cs, d);
        let q = moved_pairing(p, d);
        paired_moves(p, f.lo, f.hi, c.branch.0 as int, d);
        assert(m[k] == moved_candidate(c, d));
        assert(q[c.base.0 as int] is Some == p[c.base.0 as int] is Some);
        assert(Idx(c.branch.0 as int as u32) == c.branch);
        if p[c.base.0 as int] is Some || paired(p, c.branch) {
            taking_moves(f, d, cs, k + 1, p);
        } else {
            let p1 = p.update(c.base.0 as int, Some((c.branch, c.link_of())));
            assert(within(p1, f.lo, f.hi));
            taking_moves(f, d, cs, k + 1, p1);
            assert(moved_pairing(p1, d) =~= q.update(
                c.base.0 as int,
                Some((m[k].branch, m[k].link_of())),
            ));
        }
    }
}

/// What is inferred of a side moves with it.
proof fn renames_move(f: Field, g: Field, d: int)
    requires
        field_moved(f, g, d),
    ensures
        g.renames() == moved_pairing(f.renames(), d),
{
    rows_move(f, g, d, f.nb);
    let cs = f.rows(f.nb);
    f.rows_lie_in_the_field(f.nb);
    assert(lie_in(f, cs));
    ranking_moves(f, g, d, cs);
    taking_moves(f, d, ranked(f.arena, cs), 0, f.pairing);
}

// ---------------------------------------------------------------------------
// Both sides, exchanged
// ---------------------------------------------------------------------------

impl Versions {
    /// The same versions with ours and theirs exchanged.
    pub open spec fn swapped(self) -> Versions {
        Versions {
            arena: self.arena.subrange(0, self.nb) + self.arena.subrange(
                self.mid(),
                self.arena.len() as int,
            ) + self.arena.subrange(self.nb, self.mid()),
            nb: self.nb,
            no: self.nt,
            nt: self.no,
        }
    }

    /// Where an entity of our side stands after the exchange.
    pub open spec fn ours_after(self, x: Option<Idx>) -> Option<Idx> {
        match x {
            Some(i) => Some(moved_by(i, self.nt)),
            None => None,
        }
    }

    /// Where an entity of their side stands after the exchange.
    pub open spec fn theirs_after(self, x: Option<Idx>) -> Option<Idx> {
        match x {
            Some(i) => Some(moved_by(i, -self.no)),
            None => None,
        }
    }

    /// The mirror image of a triple: the same entities, the sides exchanged.
    pub open spec fn mirror(self, t: TripleView) -> TripleView {
        TripleView {
            base: t.base,
            ours: self.theirs_after(t.theirs),
            theirs: self.ours_after(t.ours),
            evidence: t.swapped().evidence,
        }
    }

    proof fn arenas_move(self)
        requires
            self.wf(),
        ensures
            self.swapped().arena.len() == self.arena.len(),
            arena_moved(
                self.arena,
                self.swapped().arena,
                self.nb,
                self.nb,
                self.mid(),
                self.nt,
            ),
            arena_moved(
                self.arena,
                self.swapped().arena,
                self.nb,
                self.mid(),
                self.arena.len() as int,
                -self.no,
            ),
    {
        let a = self.arena;
        let w = self.swapped().arena;
        let n = a.len() as int;
        assert(w.len() == n);
        assert forall|x: int| 0 <= x < self.nb implies #[trigger] a[x] == w[x] by {}
        assert forall|x: int| self.nb <= x < self.mid() implies #[trigger] a[x] == w[x + self.nt] by {
            assert(w[x + self.nt] == a.subrange(self.nb, self.mid())[x - self.nb]);
        }
        assert forall|x: int| self.mid() <= x < n implies #[trigger] a[x] == w[x + -self.no] by {
            assert(w[x - self.no] == a.subrange(self.mid(), n)[x - self.mid()]);
        }
    }

    proof fn swapping_keeps_wf(self)
        requires
            self.wf(),
        ensures
            self.swapped().wf(),
            self.swapped().mid() == self.nb + self.nt,
            self.swapped().swapped() == self,
    {
        self.arenas_move();
        let w = self.swapped();
        assert forall|i: int, j: int| w.nb <= i < j < w.mid() implies (#[trigger] w.arena[i]).key != (
        #[trigger] w.arena[j]).key by {
            assert(self.arena[i + self.no] == w.arena[i + self.no + -self.no]);
            assert(self.arena[j + self.no] == w.arena[j + self.no + -self.no]);
        }
        assert forall|i: int, j: int| w.mid() <= i < j < w.arena.len() implies (
        #[trigger] w.arena[i]).key != (#[trigger] w.arena[j]).key by {
            assert(self.arena[i - self.nt] == w.arena[i - self.nt + self.nt]);
            assert(self.arena[j - self.nt] == w.arena[j - self.nt + self.nt]);
        }
        assert forall|i: int, j: int| 0 <= i < j < w.nb implies (#[trigger] w.arena[i]).key != (
        #[trigger] w.arena[j]).key by {
            assert(self.arena[i] == w.arena[i]);
            assert(self.arena[j] == w.arena[j]);
        }
        assert(w.swapped().arena =~= self.arena);
    }
}

proof fn find_key_moves(
    a: Seq<EntityView>,
    b: Seq<EntityView>,
    nb: int,
    lo: int,
    hi: int,
    d: int,
    key: KeyView,
    i: int,
)
    requires
        arena_moved(a, b, nb, lo, hi, d),
        lo <= i,
    ensures
        find_key(b, key, i + d, hi + d) == match find_key(a, key, i, hi) {
            Some(x) => Some(x + d),
            None => None,
        },
        find_key(a, key, i, hi) matches Some(x) ==> i <= x < hi,
    decreases hi - i,
{
    if i < hi {
        assert(a[i] == b[i + d]);
        find_key_moves(a, b, nb, lo, hi, d, key, i + 1);
        assert(i + d + 1 == i + 1 + d);
    }
}

proof fn identity_moves(
    a: Seq<EntityView>,
    b: Seq<EntityView>,
    nb: int,
    lo: int,
    hi: int,
    d: int,
)
    requires
        arena_moved(a, b, nb, lo, hi, d),
    ensures
        identity(b, nb, lo + d, hi + d) == moved_pairing(identity(a, nb, lo, hi), d),
        within(identity(a, nb, lo, hi), lo, hi),
        within(identity(b, nb, lo + d, hi + d), lo + d, hi + d),
{
    let p = identity(a, nb, lo, hi);
    let q = identity(b, nb, lo + d, hi + d);
    assert forall|x: int| 0 <= x < nb implies q[x] == moved_entry(#[trigger] p[x], d) && (p[x] matches Some(
        e,
    ) ==> lo <= e.0.0 < hi) by {
        assert(a[x] == b[x]);
        find_key_moves(a, b, nb, lo, hi, d, a[x].key, lo);
    }
    assert(q =~= moved_pairing(p, d));
    assert forall|x: int| 0 <= x < p.len() && (#[trigger] p[x]) is Some implies lo <= target(p[x]).0
        < hi by {}
    assert forall|x: int| 0 <= x < q.len() && (#[trigger] q[x]) is Some implies lo + d <= target(
        q[x],
    ).0 < hi + d by {
        assert(q[x] == moved_entry(p[x], d));
    }
}

proof fn origin_moves(p: Seq<Option<(Idx, Link)>>, lo: int, hi: int, n: int, d: int, k: int)
    requires
        within(p, lo, hi),
        0 <= lo <= n < hi <= u32::MAX,
        0 <= lo + d,
        hi + d <= u32::MAX,
        0 <= k,
    ensures
        origin(moved_pairing(p, d), Idx((n + d) as u32), k) == origin(p, Idx(n as u32), k),
    decreases p.len() - k,
{
    if k < p.len() {
        let q = moved_pairing(p, d);
        assert(q[k] == moved_entry(p[k], d));
        if p[k] is Some {
            assert(lo <= target(p[k]).0 < hi);
        }
        assert(leads_to(q[k], Idx((n + d) as u32)) == leads_to(p[k], Idx(n as u32)));
        origin_moves(p, lo, hi, n, d, k + 1);
    }
}

impl Versions {
    /// Our side's field, with the given entities out of its reach.
    spec fn ours_field(self, reserved: Seq<bool>) -> Field {
        Field {
            arena: self.arena,
            nb: self.nb,
            lo: self.nb,
            hi: self.mid(),
            pairing: self.ours_identity(),
            reserved,
        }
    }

    /// Their side's field, with the given entities out of its reach.
    spec fn theirs_field(self, reserved: Seq<bool>) -> Field {
        Field {
            arena: self.arena,
            nb: self.nb,
            lo: self.mid(),
            hi: self.arena.len() as int,
            pairing: self.theirs_identity(),
            reserved,
        }
    }

    /// What is inferred of our side is inferred of it as their side too.
    proof fn ours_moves(self, reserved: Seq<bool>)
        requires
            self.wf(),
            reserved.len() == self.no,
        ensures
            self.swapped().theirs_identity() == moved_pairing(self.ours_identity(), self.nt),
            self.swapped().theirs_pairing(reserved) == moved_pairing(
                self.ours_pairing(reserved),
                self.nt,
            ),
            within(self.ours_identity(), self.nb, self.mid()),
            within(self.ours_pairing(reserved), self.nb, self.mid()),
            self.ours_pairing(reserved).len() == self.nb,
    {
        self.arenas_move();
        self.swapping_keeps_wf();
        let w = self.swapped();
        identity_moves(self.arena, w.arena, self.nb, self.nb, self.mid(), self.nt);
        assert(w.mid() == self.nb + self.nt);
        assert(w.arena.len() == self.mid() + self.nt);
        let (f, g) = (self.ours_field(reserved), w.theirs_field(reserved));
        assert(field_moved(f, g, self.nt));
        renames_move(f, g, self.nt);
        crate::v2::match_phase::identity_is_injective(self.arena, self.nb, self.nb, self.mid());
        f.renames_keep_pairs_apart();
    }

    /// What is inferred of their side is inferred of it as our side too.
    proof fn theirs_moves(self, reserved: Seq<bool>)
        requires
            self.wf(),
            reserved.len() == self.nt,
        ensures
            self.swapped().ours_identity() == moved_pairing(self.theirs_identity(), -self.no),
            self.swapped().ours_pairing(reserved) == moved_pairing(
                self.theirs_pairing(reserved),
                -self.no,
            ),
            within(self.theirs_identity(), self.mid(), self.arena.len() as int),
            within(self.theirs_pairing(reserved), self.mid(), self.arena.len() as int),
            self.theirs_pairing(reserved).len() == self.nb,
    {
        self.arenas_move();
        self.swapping_keeps_wf();
        let w = self.swapped();
        let n = self.arena.len() as int;
        identity_moves(self.arena, w.arena, self.nb, self.mid(), n, -self.no);
        assert(w.mid() == n + -self.no);
        assert(w.nb == self.mid() + -self.no);
        let (f, g) = (self.theirs_field(reserved), w.ours_field(reserved));
        assert(field_moved(f, g, -self.no));
        renames_move(f, g, -self.no);
        crate::v2::match_phase::identity_is_injective(self.arena, self.nb, self.mid(), n);
        f.renames_keep_pairs_apart();
    }

    #[verifier::rlimit(40)]
    proof fn contests_move(self)
        requires
            self.wf(),
        ensures
            forall|o: int, t: int|
                self.nb <= o < self.mid() && self.mid() <= t < self.arena.len() ==> #[trigger]
                    self.contested(o, t) == self.swapped().contested(t - self.no, o + self.nt),
    {
        self.arenas_move();
        self.swapping_keeps_wf();
        let w = self.swapped();
        let n = self.arena.len() as int;
        let none_o = Seq::new(self.no as nat, |i: int| false);
        let none_t = Seq::new(self.nt as nat, |i: int| false);
        self.ours_moves(none_o);
        self.theirs_moves(none_t);
        assert(self.ours_free() == self.ours_pairing(none_o));
        assert(self.theirs_free() == self.theirs_pairing(none_t));
        assert(w.theirs_free() == w.theirs_pairing(none_o));
        assert(w.ours_free() == w.ours_pairing(none_t));
        assert forall|o: int, t: int|
            self.nb <= o < self.mid() && self.mid() <= t < self.arena.len() implies #[trigger]
            self.contested(o, t) == w.contested(t - self.no, o + self.nt) by {
            assert(self.arena[o] == w.arena[o + self.nt]);
            assert(self.arena[t] == w.arena[t + -self.no]);
            paired_moves(self.ours_identity(), self.nb, self.mid(), o, self.nt);
            paired_moves(self.theirs_identity(), self.mid(), n, t, -self.no);
            origin_moves(self.ours_free(), self.nb, self.mid(), o, self.nt, 0);
            origin_moves(self.theirs_free(), self.mid(), n, t, -self.no, 0);
            assert(t + -self.no == t - self.no);
        }
    }

    #[verifier::rlimit(40)]
    proof fn reservations_move(self)
        requires
            self.wf(),
        ensures
            self.swapped().theirs_reserved() == self.ours_reserved(),
            self.swapped().ours_reserved() == self.theirs_reserved(),
    {
        self.contests_move();
        self.swapping_keeps_wf();
        let w = self.swapped();
        assert forall|i: int| 0 <= i < self.no implies #[trigger] w.theirs_reserved()[i]
            == self.ours_reserved()[i] by {
            let o = self.nb + i;
            let u = w.mid() + i;
            assert(u == o + self.nt);
            if self.ours_contested(o) {
                let t = choose|t: int| self.contested(o, t);
                assert(w.contested(t - self.no, u));
            }
            if w.theirs_contested(u) {
                let x = choose|x: int| w.contested(x, u);
                assert(self.contested(o, x + self.no) == w.contested(
                    x + self.no - self.no,
                    o + self.nt,
                ));
                assert(self.contested(o, x + self.no));
            }
        }
        assert forall|i: int| 0 <= i < self.nt implies #[trigger] w.ours_reserved()[i]
            == self.theirs_reserved()[i] by {
            let t = self.mid() + i;
            let u = w.nb + i;
            assert(u == t - self.no);
            if self.theirs_contested(t) {
                let o = choose|o: int| self.contested(o, t);
                assert(w.contested(u, o + self.nt));
            }
            if w.ours_contested(u) {
                let x = choose|x: int| w.contested(u, x);
                assert(self.contested(x - self.nt, t) == w.contested(
                    t - self.no,
                    x - self.nt + self.nt,
                ));
                assert(self.contested(x - self.nt, t));
            }
        }
        assert(w.theirs_reserved() =~= self.ours_reserved());
        assert(w.ours_reserved() =~= self.theirs_reserved());
    }

    proof fn pairings_move(self)
        requires
            self.wf(),
        ensures
            self.swapped().theirs() == moved_pairing(self.ours(), self.nt),
            self.swapped().ours() == moved_pairing(self.theirs(), -self.no),
            within(self.ours(), self.nb, self.mid()),
            within(self.theirs(), self.mid(), self.arena.len() as int),
            self.ours().len() == self.nb,
            self.theirs().len() == self.nb,
    {
        self.reservations_move();
        self.ours_moves(self.ours_reserved());
        self.theirs_moves(self.theirs_reserved());
    }

    #[verifier::rlimit(40)]
    proof fn additions_move(self)
        requires
            self.wf(),
        ensures
            forall|o: int|
                self.nb <= o < self.mid() ==> #[trigger] self.ours_new(o)
                    == self.swapped().theirs_new(o + self.nt),
            forall|t: int|
                self.mid() <= t < self.arena.len() ==> #[trigger] self.theirs_new(t)
                    == self.swapped().ours_new(t - self.no),
            forall|o: int, t: int|
                self.nb <= o < self.mid() && self.mid() <= t < self.arena.len() ==> #[trigger]
                    self.both_added(o, t) == self.swapped().both_added(t - self.no, o + self.nt),
    {
        self.pairings_move();
        self.arenas_move();
        self.swapping_keeps_wf();
        let w = self.swapped();
        let n = self.arena.len() as int;
        assert forall|o: int| self.nb <= o < self.mid() implies #[trigger] self.ours_new(o)
            == w.theirs_new(o + self.nt) by {
            paired_moves(self.ours(), self.nb, self.mid(), o, self.nt);
        }
        assert forall|t: int| self.mid() <= t < n implies #[trigger] self.theirs_new(t)
            == w.ours_new(t - self.no) by {
            paired_moves(self.theirs(), self.mid(), n, t, -self.no);
            assert(t + -self.no == t - self.no);
        }
        assert forall|o: int, t: int|
            self.nb <= o < self.mid() && self.mid() <= t < n implies #[trigger] self.both_added(o, t)
            == w.both_added(t - self.no, o + self.nt) by {
            assert(self.ours_new(o) == w.theirs_new(o + self.nt));
            assert(self.theirs_new(t) == w.ours_new(t - self.no));
            assert(self.arena[o] == w.arena[o + self.nt]);
            assert(self.arena[t] == w.arena[t + -self.no]);
        }
    }
}

impl Versions {
    /// The triple is that of a base entity.
    spec fn made_of_base(self, t: TripleView) -> bool {
        exists|b: int| 0 <= b < self.nb && t == #[trigger] self.base_triple(b)
    }

    /// The triple is that of an entity that both sides added.
    spec fn made_of_both(self, t: TripleView) -> bool {
        exists|o: int|
            self.nb <= o < self.mid() && self.with_partner()(o) && t == #[trigger] self.both_triple(
                o,
            )
    }

    /// The triple is that of an entity that our side added alone.
    spec fn made_of_ours(self, t: TripleView) -> bool {
        exists|o: int|
            self.nb <= o < self.mid() && self.without_partner()(o) && t == #[trigger] ours_triple(o)
    }

    /// The triple is that of an entity that their side added alone.
    spec fn made_of_theirs(self, t: TripleView) -> bool {
        exists|x: int|
            self.mid() <= x < self.arena.len() && self.theirs_alone()(x) && t
                == #[trigger] theirs_triple(x)
    }

    #[verifier::rlimit(40)]
    proof fn a_triple_is_made_of_something(self, t: TripleView)
        requires
            self.wf(),
        ensures
            self.triples().contains(t) <==> self.made_of_base(t) || self.made_of_both(t)
                || self.made_of_ours(t) || self.made_of_theirs(t),
    {
        let n = self.arena.len() as int;
        let both = pick(self.nb, self.mid(), self.with_partner());
        let alone = pick(self.nb, self.mid(), self.without_partner());
        let other = pick(self.mid(), n, self.theirs_alone());
        pick_lists(self.nb, self.mid(), self.with_partner());
        pick_lists(self.nb, self.mid(), self.without_partner());
        pick_lists(self.mid(), n, self.theirs_alone());
        let ts = self.triples();
        let k1 = self.nb;
        let k2 = k1 + both.len();
        let k3 = k2 + alone.len();
        assert(ts.len() == k3 + other.len());
        if ts.contains(t) {
            let i = choose|i: int| 0 <= i < ts.len() && ts[i] == t;
            if i < k1 {
                assert(ts[i] == self.base_triple(i));
            } else if i < k2 {
                assert(self.with_partner()(both[i - k1]));
                assert(ts[i] == self.both_triple(both[i - k1]));
            } else if i < k3 {
                assert(self.without_partner()(alone[i - k2]));
                assert(ts[i] == ours_triple(alone[i - k2]));
            } else {
                assert(self.theirs_alone()(other[i - k3]));
                assert(ts[i] == theirs_triple(other[i - k3]));
            }
        }
        if self.made_of_base(t) {
            let b = choose|b: int| 0 <= b < self.nb && t == #[trigger] self.base_triple(b);
            assert(ts[b] == t);
        }
        if self.made_of_both(t) {
            let o = choose|o: int|
                self.nb <= o < self.mid() && self.with_partner()(o) && t
                    == #[trigger] self.both_triple(o);
            assert(both.contains(o));
            let i = choose|i: int| 0 <= i < both.len() && both[i] == o;
            assert(ts[k1 + i] == t);
        }
        if self.made_of_ours(t) {
            let o = choose|o: int|
                self.nb <= o < self.mid() && self.without_partner()(o) && t
                    == #[trigger] ours_triple(o);
            assert(alone.contains(o));
            let i = choose|i: int| 0 <= i < alone.len() && alone[i] == o;
            assert(ts[k2 + i] == t);
        }
        if self.made_of_theirs(t) {
            let x = choose|x: int|
                self.mid() <= x < n && self.theirs_alone()(x) && t == #[trigger] theirs_triple(x);
            assert(other.contains(x));
            let i = choose|i: int| 0 <= i < other.len() && other[i] == x;
            assert(ts[k3 + i] == t);
        }
    }

    /// The entities of a triple stand in their versions.
    spec fn stands(self, t: TripleView) -> bool {
        &&& t.base matches Some(b) ==> b.0 < self.nb
        &&& t.ours matches Some(o) ==> self.nb <= o.0 < self.mid()
        &&& t.theirs matches Some(x) ==> self.mid() <= x.0 < self.arena.len()
    }

    proof fn a_base_triple_mirrors(self, b: int)
        requires
            self.wf(),
            0 <= b < self.nb,
        ensures
            self.swapped().base_triple(b) == self.mirror(self.base_triple(b)),
            self.stands(self.base_triple(b)),
    {
        self.pairings_move();
        let w = self.swapped();
        assert(w.theirs()[b] == moved_entry(self.ours()[b], self.nt));
        assert(w.ours()[b] == moved_entry(self.theirs()[b], -self.no));
        if self.ours()[b] is Some {
            assert(self.nb <= target(self.ours()[b]).0 < self.mid());
        }
        if self.theirs()[b] is Some {
            assert(self.mid() <= target(self.theirs()[b]).0 < self.arena.len());
        }
    }

    #[verifier::spinoff_prover]
    #[verifier::rlimit(90)]
    proof fn a_shared_addition_mirrors(self, o: int)
        requires
            self.wf(),
            self.nb <= o < self.mid(),
            self.with_partner()(o),
        ensures
            self.swapped().made_of_both(self.mirror(self.both_triple(o))),
            self.stands(self.both_triple(o)),
    {
        self.additions_move();
        self.swapping_keeps_wf();
        self.arenas_move();
        let w = self.swapped();
        self.partner_is_first(o, self.mid());
        let t = self.partner(o, self.mid())->0;
        assert(self.both_added(o, t));
        let (p, q) = (t - self.no, o + self.nt);
        assert(w.both_added(p, q));
        w.partner_is_first(p, w.mid());
        let k = w.partner(p, w.mid())->0;
        assert(w.both_added(p, k));
        assert(w.arena[k].key == w.arena[q].key);
        if k < q {
            assert(w.arena[k].key != w.arena[q].key);
        } else if q < k {
            assert(w.arena[q].key != w.arena[k].key);
        }
        assert(w.with_partner()(p));
        assert(w.both_triple(p) == self.mirror(self.both_triple(o)));
    }

    #[verifier::rlimit(40)]
    proof fn our_addition_mirrors(self, o: int)
        requires
            self.wf(),
            self.nb <= o < self.mid(),
            self.without_partner()(o),
        ensures
            self.swapped().made_of_theirs(self.mirror(ours_triple(o))),
            self.stands(ours_triple(o)),
    {
        self.additions_move();
        self.swapping_keeps_wf();
        let w = self.swapped();
        self.partner_is_first(o, self.mid());
        let q = o + self.nt;
        assert(self.ours_new(o) == w.theirs_new(q));
        assert forall|x: int| !w.both_added(x, q) by {
            if w.both_added(x, q) {
                assert(self.both_added(o, x + self.no) == w.both_added(
                    x + self.no - self.no,
                    o + self.nt,
                ));
            }
        }
        assert(w.theirs_alone()(q));
        assert(theirs_triple(q) == self.mirror(ours_triple(o)));
    }

    #[verifier::rlimit(40)]
    proof fn their_addition_mirrors(self, t: int)
        requires
            self.wf(),
            self.mid() <= t < self.arena.len(),
            self.theirs_alone()(t),
        ensures
            self.swapped().made_of_ours(self.mirror(theirs_triple(t))),
            self.stands(theirs_triple(t)),
    {
        self.additions_move();
        self.swapping_keeps_wf();
        let w = self.swapped();
        let p = t - self.no;
        assert(self.theirs_new(t) == w.ours_new(p));
        assert(w.partner(p, w.mid()) is None) by {
            w.partner_is_first(p, w.mid());
            if let Some(k) = w.partner(p, w.mid()) {
                let o = k - self.nt;
                assert(w.both_added(p, k));
                assert(self.both_added(o, t) == w.both_added(t - self.no, o + self.nt));
                assert(!self.both_added(o, t));
            }
        }
        assert(w.without_partner()(p));
        assert(ours_triple(p) == self.mirror(theirs_triple(t)));
    }

    #[verifier::rlimit(40)]
    proof fn a_triple_mirrors(self, t: TripleView)
        requires
            self.wf(),
            self.triples().contains(t),
        ensures
            self.swapped().triples().contains(self.mirror(t)),
            self.stands(t),
    {
        self.swapping_keeps_wf();
        self.a_triple_is_made_of_something(t);
        let w = self.swapped();
        w.a_triple_is_made_of_something(self.mirror(t));
        if self.made_of_base(t) {
            let b = choose|b: int| 0 <= b < self.nb && t == #[trigger] self.base_triple(b);
            self.a_base_triple_mirrors(b);
            assert(w.made_of_base(self.mirror(t)));
        } else if self.made_of_both(t) {
            let o = choose|o: int|
                self.nb <= o < self.mid() && self.with_partner()(o) && t
                    == #[trigger] self.both_triple(o);
            self.a_shared_addition_mirrors(o);
        } else if self.made_of_ours(t) {
            let o = choose|o: int|
                self.nb <= o < self.mid() && self.without_partner()(o) && t
                    == #[trigger] ours_triple(o);
            self.our_addition_mirrors(o);
        } else {
            let x = choose|x: int|
                self.mid() <= x < self.arena.len() && self.theirs_alone()(x) && t
                    == #[trigger] theirs_triple(x);
            self.their_addition_mirrors(x);
        }
    }

    #[verifier::rlimit(40)]
    proof fn a_case_mirrors(self, t: TripleView)
        requires
            self.wf(),
            self.stands(t),
        ensures
            cell_of(self.swapped().arena, self.mirror(t)) == cell_of(self.arena, t).flipped(),
    {
        self.arenas_move();
        let w = self.swapped();
        if let Some(b) = t.base {
            assert(self.arena[b.0 as int] == w.arena[b.0 as int]);
        }
        if let Some(o) = t.ours {
            assert(self.arena[o.0 as int] == w.arena[o.0 + self.nt]);
        }
        if let Some(x) = t.theirs {
            assert(self.arena[x.0 as int] == w.arena[x.0 + -self.no]);
        }
        classification_is_symmetric(self.arena, t);
        assert(cell_of(w.arena, self.mirror(t)) == cell_of(self.arena, t.swapped()));
    }

    #[verifier::rlimit(40)]
    proof fn a_mirror_image_mirrors_back(self, t: TripleView)
        requires
            self.wf(),
            self.stands(t),
        ensures
            self.swapped().mirror(self.mirror(t)) == t,
    {
        let w = self.swapped();
        assert(w.no == self.nt && w.nt == self.no);
        let m = self.mirror(t);
        assert(w.ours_after(m.ours) == t.theirs);
        assert(w.theirs_after(m.theirs) == t.ours);
        assert(m.swapped().evidence == t.evidence);
    }

    /// Matching does not prefer a side: where a triple is made of three versions, its
    /// mirror image is made of them with ours and theirs exchanged, and it has the
    /// mirror image of its case.
    #[verifier::rlimit(60)]
    pub proof fn matching_is_direction_free(self, t: TripleView)
        requires
            self.wf(),
            self.triples().contains(t),
        ensures
            self.swapped().wf(),
            self.swapped().swapped() == self,
            self.swapped().triples().contains(self.mirror(t)),
            self.swapped().mirror(self.mirror(t)) == t,
            cell_of(self.swapped().arena, self.mirror(t)) == cell_of(self.arena, t).flipped(),
    {
        self.swapping_keeps_wf();
        self.a_triple_mirrors(t);
        self.a_case_mirrors(t);
        self.a_mirror_image_mirrors_back(t);
    }
}

proof fn minted_versions_stand(base: Seq<RawView>, ours: Seq<RawView>, theirs: Seq<RawView>)
    requires
        base.len() + ours.len() + theirs.len() <= u32::MAX,
    ensures
        versions_of(base, ours, theirs).wf(),
        versions_of(base, ours, theirs).swapped() == versions_of(base, theirs, ours),
{
    let v = versions_of(base, ours, theirs);
    let n = v.arena.len() as int;
    assert forall|i: int, j: int| 0 <= i < j < v.nb implies (#[trigger] v.arena[i]).key != (
    #[trigger] v.arena[j]).key by {
        keys_are_unique(base, i, j);
    }
    assert forall|i: int, j: int| v.nb <= i < j < v.mid() implies (#[trigger] v.arena[i]).key != (
    #[trigger] v.arena[j]).key by {
        assert(v.arena[i] == minted_all(ours)[i - v.nb]);
        assert(v.arena[j] == minted_all(ours)[j - v.nb]);
        keys_are_unique(ours, i - v.nb, j - v.nb);
    }
    assert forall|i: int, j: int| v.mid() <= i < j < n implies (#[trigger] v.arena[i]).key != (
    #[trigger] v.arena[j]).key by {
        assert(v.arena[i] == minted_all(theirs)[i - v.mid()]);
        assert(v.arena[j] == minted_all(theirs)[j - v.mid()]);
        keys_are_unique(theirs, i - v.mid(), j - v.mid());
    }
    assert(v.swapped().arena =~= versions_of(base, theirs, ours).arena);
}

/// An analysis does not prefer a side: three versions reach a case exactly where the
/// same versions, with ours and theirs exchanged, reach its mirror image.
#[verifier::rlimit(40)]
pub proof fn an_analysis_is_direction_free(
    base: Seq<RawView>,
    ours: Seq<RawView>,
    theirs: Seq<RawView>,
    cell: Cell,
)
    requires
        base.len() + ours.len() + theirs.len() <= u32::MAX,
    ensures
        analysis_of(base, ours, theirs).cells.contains(cell) <==> analysis_of(
            base,
            theirs,
            ours,
        ).cells.contains(cell.flipped()),
{
    cases_mirror(base, ours, theirs, cell);
    cases_mirror(base, theirs, ours, cell.flipped());
    flip_twice_is_identity(cell);
}

#[verifier::rlimit(40)]
proof fn cases_mirror(base: Seq<RawView>, ours: Seq<RawView>, theirs: Seq<RawView>, cell: Cell)
    requires
        base.len() + ours.len() + theirs.len() <= u32::MAX,
    ensures
        analysis_of(base, ours, theirs).cells.contains(cell) ==> analysis_of(
            base,
            theirs,
            ours,
        ).cells.contains(cell.flipped()),
{
    let a = analysis_of(base, ours, theirs);
    if a.cells.contains(cell) {
        minted_versions_stand(base, ours, theirs);
        let v = versions_of(base, ours, theirs);
        let w = versions_of(base, theirs, ours);
        let i = choose|i: int| 0 <= i < a.cells.len() && a.cells[i] == cell;
        let t = v.triples()[i];
        assert(v.triples().contains(t));
        v.matching_is_direction_free(t);
        let m = v.mirror(t);
        let j = choose|j: int| 0 <= j < w.triples().len() && w.triples()[j] == m;
        assert(analysis_of(base, theirs, ours).cells[j] == cell_of(w.arena, m));
    }
}

/// An entity that both sides added has one key, so that a plan names it alike from
/// either side.
pub proof fn a_plan_s_keys_agree(v: Versions, l: Layout)
    requires
        v.wf(),
        l.arena == v.arena,
        l.triples == v.triples(),
    ensures
        l.keys_agree(),
{
    assert forall|i: int| 0 <= i < l.triples.len() implies l.swapped().key(i) == #[trigger] l.key(
        i,
    ) by {
        let t = l.triples[i];
        assert(v.triples().contains(t));
        v.a_triple_is_made_of_something(t);
        if v.made_of_both(t) {
            let o = choose|o: int|
                v.nb <= o < v.mid() && v.with_partner()(o) && t == #[trigger] v.both_triple(o);
            v.partner_is_first(o, v.mid());
        }
        assert(l.swapped().triples[i] == t.swapped());
    }
}

} // verus!
