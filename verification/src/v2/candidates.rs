//! Rename inference: which base entities a side renamed, and into what.
//!
//! Identity has already paired the entities whose keys agree. For the others
//! every base and branch entity that could be one entity under two names is a
//! [`Candidate`], with the evidence that speaks for it. The candidates are
//! ranked, and each is taken in turn whose two entities are still free.

use vstd::prelude::*;
use crate::binding::{called_names, calls, identifier};
use crate::text::{
    chars_of, distinct, distinct_lists_each_once, distinct_texts, list_has, split_words, str_eq, strs, texts, texts_have,
    words,
};
use crate::v2::types::{
    key_before, key_before_total, key_before_transitive, opt_eq, Arena, EntityView, Idx, Link,
    Ratio,
};

verus! {

/// The pairing of a side: for each base entity, the branch entity it became and
/// why.
pub type Pairing = Vec<Option<(Idx, Link)>>;

/// Which kind of evidence speaks for a candidate.
#[derive(Clone, Copy, PartialEq, Eq, Debug, Structural)]
pub enum Stage {
    /// Identical bodies under different names.
    BodyHash,
    /// Similar bodies.
    Signature,
    /// Bodies too small for similarity: one contains most of the other.
    ShortBody,
    /// Call sites that moved from the one name to the other.
    CallSites,
}

/// A proposed pairing of a base and a branch entity, with its evidence.
#[derive(Clone, Copy, PartialEq, Eq, Debug, Structural)]
pub struct Candidate {
    pub base: Idx,
    pub branch: Idx,
    pub stage: Stage,
    pub similarity: Ratio,
}

impl Candidate {
    /// The link that a pairing made of this candidate records.
    pub open spec fn link_of(self) -> Link {
        match self.stage {
            Stage::BodyHash => Link::BodyHash,
            Stage::Signature => Link::Signature { similarity: self.similarity },
            Stage::ShortBody => Link::Signature { similarity: self.similarity },
            Stage::CallSites => Link::CallSiteCorroborated { similarity: self.similarity },
        }
    }

    /// The link that a pairing made of this candidate records.
    pub fn link(&self) -> (r: Link)
        ensures
            r == self.link_of(),
    {
        match self.stage {
            Stage::BodyHash => Link::BodyHash,
            Stage::Signature => Link::Signature { similarity: self.similarity },
            Stage::ShortBody => Link::Signature { similarity: self.similarity },
            Stage::CallSites => Link::CallSiteCorroborated { similarity: self.similarity },
        }
    }

    /// The confidence, in hundredths of the evidence's denominator: 0.95 for
    /// identical bodies, `0.6 + 0.3 s` for similar ones, `0.45 + 0.1 s` for
    /// contained ones and `0.55 + 0.1 s` for moved call sites, where `s` is the
    /// similarity.
    pub open spec fn confidence(self) -> int {
        let p = self.similarity.part as int;
        let w = self.similarity.whole as int;
        match self.stage {
            Stage::BodyHash => 95 * w,
            Stage::Signature => 60 * w + 30 * p,
            Stage::ShortBody => 45 * w + 10 * p,
            Stage::CallSites => 55 * w + 10 * p,
        }
    }

    /// The similarity is a share of something, and similar bodies have at least
    /// seven tenths in common.
    pub open spec fn wf(self) -> bool {
        &&& 0 < self.similarity.whole <= 2 * usize::MAX
        &&& self.similarity.part <= self.similarity.whole
        &&& self.stage == Stage::Signature ==> 10 * self.similarity.part >= 7
            * self.similarity.whole
    }
}

/// `a` has more confidence than `b`.
pub open spec fn stronger(a: Candidate, b: Candidate) -> bool {
    a.confidence() * (b.similarity.whole as int) > b.confidence() * (a.similarity.whole as int)
}

/// `a` is taken before `b`: by confidence, then by the base key, then by the
/// branch key.
pub open spec fn precedes(arena: Seq<EntityView>, a: Candidate, b: Candidate) -> bool {
    let (ab, bb) = (arena[a.base.0 as int].key, arena[b.base.0 as int].key);
    let (an, bn) = (arena[a.branch.0 as int].key, arena[b.branch.0 as int].key);
    stronger(a, b) || (!stronger(b, a) && (key_before(ab, bb) || (ab == bb && key_before(an, bn))))
}

proof fn products(p1: int, w1: int, p2: int, w2: int)
    requires
        0 <= p1 <= w1,
        0 <= p2 <= w2,
        0 < w1,
        0 < w2,
    ensures
        0 < w1 * w2,
        0 <= p1 * w2 <= w1 * w2,
        0 <= p2 * w1 <= w1 * w2,
        p1 * w2 == 0 <==> p1 == 0,
        p2 * w1 == w1 * w2 <==> p2 == w2,
        forall|c: int| #[trigger] ((c * w1) * w2) == c * (w1 * w2),
        forall|c: int| #[trigger] ((c * w2) * w1) == c * (w1 * w2),
{
    assert(0 < w1 * w2) by (nonlinear_arith)
        requires
            0 < w1,
            0 < w2,
    ;
    assert(0 <= p1 * w2 <= w1 * w2) by (nonlinear_arith)
        requires
            0 <= p1 <= w1,
            0 < w2,
    ;
    assert(0 <= p2 * w1 <= w1 * w2) by (nonlinear_arith)
        requires
            0 <= p2 <= w2,
            0 < w1,
    ;
    assert(p1 * w2 == 0 <==> p1 == 0) by (nonlinear_arith)
        requires
            0 < w2,
    ;
    assert(p2 * w1 == w1 * w2 <==> p2 == w2) by (nonlinear_arith)
        requires
            0 < w1,
    ;
    assert forall|c: int| #[trigger] ((c * w1) * w2) == c * (w1 * w2) by {
        assert((c * w1) * w2 == c * (w1 * w2)) by (nonlinear_arith);
    }
    assert forall|c: int| #[trigger] ((c * w2) * w1) == c * (w1 * w2) by {
        assert((c * w2) * w1 == c * (w1 * w2)) by (nonlinear_arith);
    }
}

proof fn weighted(k: int, m: int, p: int, w: int, v: int)
    ensures
        (k * w + m * p) * v == k * (w * v) + m * (p * v),
{
    assert((k * w + m * p) * v == k * (w * v) + m * (p * v)) by (nonlinear_arith);
}

/// Is the ratio `a` larger than the ratio `b`?
fn is_larger(a: Ratio, b: Ratio) -> (r: bool)
    requires
        0 < a.whole <= 2 * usize::MAX,
        0 < b.whole <= 2 * usize::MAX,
    ensures
        r == (a.part * b.whole > b.part * a.whole),
{
    // Each product is twice one half and, where the whole is odd, the part.
    let p: u128 = a.part as u128;
    let q: u128 = b.part as u128;
    let g: u128 = b.whole / 2;
    let h: u128 = a.whole / 2;
    let x: u128 = if b.whole % 2 == 1 {
        p
    } else {
        0
    };
    let y: u128 = if a.whole % 2 == 1 {
        q
    } else {
        0
    };
    proof {
        assert(p * g <= u64::MAX * u64::MAX) by (nonlinear_arith)
            requires
                0 <= p <= u64::MAX,
                0 <= g <= u64::MAX,
        ;
        assert(q * h <= u64::MAX * u64::MAX) by (nonlinear_arith)
            requires
                0 <= q <= u64::MAX,
                0 <= h <= u64::MAX,
        ;
        assert(p * b.whole == 2 * (p * g) + x) by (nonlinear_arith)
            requires
                b.whole == 2 * g + b.whole % 2,
                x == if b.whole % 2 == 1 { p } else { 0 },
                0 <= b.whole % 2 <= 1,
        ;
        assert(q * a.whole == 2 * (q * h) + y) by (nonlinear_arith)
            requires
                a.whole == 2 * h + a.whole % 2,
                y == if a.whole % 2 == 1 { q } else { 0 },
                0 <= a.whole % 2 <= 1,
        ;
    }
    let left: u128 = p * g;
    let right: u128 = q * h;
    if left >= right {
        let d: u128 = left - right;
        d > y || 2 * d + x > y
    } else {
        let d: u128 = right - left;
        d <= x && 2 * d + y < x
    }
}

/// Has `a` more confidence than `b`?
fn is_stronger(a: &Candidate, b: &Candidate) -> (r: bool)
    requires
        a.wf(),
        b.wf(),
    ensures
        r == stronger(*a, *b),
{
    proof {
        let p1 = a.similarity.part as int;
        let w1 = a.similarity.whole as int;
        let p2 = b.similarity.part as int;
        let w2 = b.similarity.whole as int;
        products(p1, w1, p2, w2);
        assert(w2 * w1 == w1 * w2) by (nonlinear_arith);
        weighted(95, 0, p1, w1, w2);
        weighted(60, 30, p1, w1, w2);
        weighted(45, 10, p1, w1, w2);
        weighted(55, 10, p1, w1, w2);
        weighted(95, 0, p2, w2, w1);
        weighted(60, 30, p2, w2, w1);
        weighted(45, 10, p2, w2, w1);
        weighted(55, 10, p2, w2, w1);
        if a.stage == Stage::Signature {
            assert(10 * (p1 * w2) >= 7 * (w1 * w2)) by (nonlinear_arith)
                requires
                    10 * p1 >= 7 * w1,
                    0 < w2,
            ;
        }
        if b.stage == Stage::Signature {
            assert(10 * (p2 * w1) >= 7 * (w1 * w2)) by (nonlinear_arith)
                requires
                    10 * p2 >= 7 * w2,
                    0 < w1,
            ;
        }
    }
    match (a.stage, b.stage) {
        (Stage::BodyHash, Stage::BodyHash) => false,
        (Stage::BodyHash, _) => true,
        (_, Stage::BodyHash) => false,
        (Stage::Signature, Stage::ShortBody) => true,
        (Stage::Signature, Stage::CallSites) => true,
        (Stage::ShortBody, Stage::Signature) => false,
        (Stage::CallSites, Stage::Signature) => false,
        (Stage::CallSites, Stage::ShortBody) => a.similarity.part > 0 || (b.similarity.part as u128)
            < b.similarity.whole,
        (Stage::ShortBody, Stage::CallSites) => false,
        _ => is_larger(a.similarity, b.similarity),
    }
}

/// Is `a` taken before `b`?
fn is_ahead(arena: &Arena, a: &Candidate, b: &Candidate) -> (r: bool)
    requires
        a.wf(),
        b.wf(),
        a.base.0 < arena@.len(),
        a.branch.0 < arena@.len(),
        b.base.0 < arena@.len(),
        b.branch.0 < arena@.len(),
    ensures
        r == precedes(arena@, *a, *b),
{
    if is_stronger(a, b) {
        return true;
    }
    if is_stronger(b, a) {
        return false;
    }
    let ab = &arena.get(a.base).key;
    let bb = &arena.get(b.base).key;
    if ab.is_before(bb) {
        return true;
    }
    ab.same(bb) && arena.get(a.branch).key.is_before(&arena.get(b.branch).key)
}

// ---------------------------------------------------------------------------
// Ranking
// ---------------------------------------------------------------------------

/// The first index at or after `k` before which `c` is to stand.
pub open spec fn place(arena: Seq<EntityView>, s: Seq<Candidate>, c: Candidate, k: int) -> int
    decreases s.len() - k,
{
    if k < 0 || k >= s.len() {
        s.len() as int
    } else if precedes(arena, c, s[k]) {
        k
    } else {
        place(arena, s, c, k + 1)
    }
}

/// The candidates, the one to be taken first in front; of two with equal claims
/// the one that was listed first.
pub open spec fn ranked(arena: Seq<EntityView>, s: Seq<Candidate>) -> Seq<Candidate>
    decreases s.len(),
{
    if s.len() == 0 {
        Seq::empty()
    } else {
        let front = ranked(arena, s.drop_last());
        front.insert(place(arena, front, s.last(), 0), s.last())
    }
}

pub proof fn place_bounds(arena: Seq<EntityView>, s: Seq<Candidate>, c: Candidate, k: int)
    requires
        0 <= k <= s.len(),
    ensures
        k <= place(arena, s, c, k) <= s.len(),
        forall|j: int| k <= j < place(arena, s, c, k) ==> !precedes(arena, c, #[trigger] s[j]),
        place(arena, s, c, k) < s.len() ==> precedes(arena, c, s[place(arena, s, c, k)]),
    decreases s.len() - k,
{
    if k < s.len() && !precedes(arena, c, s[k]) {
        place_bounds(arena, s, c, k + 1);
    }
}

/// Ranking keeps every candidate, as often as it was listed.
pub proof fn ranking_keeps_the_candidates(arena: Seq<EntityView>, s: Seq<Candidate>)
    ensures
        ranked(arena, s).to_multiset() == s.to_multiset(),
        ranked(arena, s).len() == s.len(),
    decreases s.len(),
{
    broadcast use vstd::seq_lib::group_to_multiset_ensures;

    if s.len() > 0 {
        let front = ranked(arena, s.drop_last());
        ranking_keeps_the_candidates(arena, s.drop_last());
        place_bounds(arena, front, s.last(), 0);
        let k = place(arena, front, s.last(), 0);
        assert(s =~= s.drop_last().push(s.last()));
        assert(front.insert(k, s.last()).to_multiset() =~= front.to_multiset().insert(s.last()));
    } else {
        assert(s =~= Seq::empty());
    }
}

proof fn stronger_transitive(a: Candidate, b: Candidate, c: Candidate)
    requires
        a.wf(),
        b.wf(),
        c.wf(),
        !stronger(b, a),
        !stronger(c, b),
    ensures
        !stronger(c, a),
        stronger(a, b) || stronger(b, c) ==> stronger(a, c),
{
    let (x, p) = (a.confidence(), a.similarity.whole as int);
    let (y, q) = (b.confidence(), b.similarity.whole as int);
    let (z, r) = (c.confidence(), c.similarity.whole as int);
    // x/p >= y/q >= z/r
    assert(x * q >= y * p);
    assert(y * r >= z * q);
    assert((x * q) * r >= (y * p) * r) by (nonlinear_arith)
        requires
            x * q >= y * p,
            r > 0,
    ;
    assert((y * r) * p >= (z * q) * p) by (nonlinear_arith)
        requires
            y * r >= z * q,
            p > 0,
    ;
    assert((y * p) * r == (y * r) * p) by (nonlinear_arith);
    assert((x * q) * r == (x * r) * q) by (nonlinear_arith);
    assert((z * q) * p == (z * p) * q) by (nonlinear_arith);
    assert((x * r) * q >= (z * p) * q);
    assert(x * r >= z * p) by (nonlinear_arith)
        requires
            (x * r) * q >= (z * p) * q,
            q > 0,
    ;
    if x * q > y * p {
        assert((x * q) * r > (y * p) * r) by (nonlinear_arith)
            requires
                x * q > y * p,
                r > 0,
        ;
        assert(x * r > z * p) by (nonlinear_arith)
            requires
                (x * r) * q > (z * p) * q,
                q > 0,
        ;
    }
    if y * r > z * q {
        assert((y * r) * p > (z * q) * p) by (nonlinear_arith)
            requires
                y * r > z * q,
                p > 0,
        ;
        assert(x * r > z * p) by (nonlinear_arith)
            requires
                (x * r) * q > (z * p) * q,
                q > 0,
        ;
    }
}

/// No candidate stands behind one that it precedes.
pub open spec fn in_rank(arena: Seq<EntityView>, s: Seq<Candidate>) -> bool {
    forall|i: int, j: int|
        0 <= i < j < s.len() ==> !precedes(arena, #[trigger] s[j], #[trigger] s[i])
}

proof fn not_precedes_transitive(
    arena: Seq<EntityView>,
    a: Candidate,
    b: Candidate,
    c: Candidate,
)
    requires
        a.wf(),
        b.wf(),
        c.wf(),
        !precedes(arena, b, a),
        !precedes(arena, c, b),
    ensures
        !precedes(arena, c, a),
{
    let (ab, bb, cb) = (
        arena[a.base.0 as int].key,
        arena[b.base.0 as int].key,
        arena[c.base.0 as int].key,
    );
    let (an, bn, cn) = (
        arena[a.branch.0 as int].key,
        arena[b.branch.0 as int].key,
        arena[c.branch.0 as int].key,
    );
    stronger_transitive(a, b, c);
    key_before_total(ab, bb);
    key_before_total(bb, cb);
    key_before_total(ab, cb);
    key_before_total(an, bn);
    key_before_total(bn, cn);
    key_before_total(an, cn);
    if key_before(ab, bb) && key_before(bb, cb) {
        key_before_transitive(ab, bb, cb);
    }
    if key_before(an, bn) && key_before(bn, cn) {
        key_before_transitive(an, bn, cn);
    }
}

/// Ranking puts the candidates in rank.
pub proof fn ranking_ranks(arena: Seq<EntityView>, s: Seq<Candidate>)
    requires
        forall|i: int| 0 <= i < s.len() ==> (#[trigger] s[i]).wf(),
    ensures
        in_rank(arena, ranked(arena, s)),
        forall|i: int| 0 <= i < ranked(arena, s).len() ==> (#[trigger] ranked(arena, s)[i]).wf(),
    decreases s.len(),
{
    if s.len() > 0 {
        let front = ranked(arena, s.drop_last());
        let c = s.last();
        assert forall|i: int| 0 <= i < s.drop_last().len() implies (
        #[trigger] s.drop_last()[i]).wf() by {
            assert(s.drop_last()[i] == s[i]);
        }
        ranking_ranks(arena, s.drop_last());
        place_bounds(arena, front, c, 0);
        let k = place(arena, front, c, 0);
        let all = front.insert(k, c);
        assert(s[s.len() - 1].wf());
        assert forall|i: int| 0 <= i < all.len() implies (#[trigger] all[i]).wf() by {
            if i < k {
                assert(all[i] == front[i]);
            } else if i > k {
                assert(all[i] == front[i - 1]);
            }
        }
        assert forall|i: int, j: int| 0 <= i < j < all.len() implies !precedes(
            arena,
            #[trigger] all[j],
            #[trigger] all[i],
        ) by {
            if j < k {
                assert(all[i] == front[i] && all[j] == front[j]);
            } else if i > k {
                assert(all[i] == front[i - 1] && all[j] == front[j - 1]);
            } else if j == k {
                assert(all[i] == front[i]);
            } else {
                assert(all[j] == front[j - 1]);
                // front[k] stands behind c, and front[j - 1] no earlier.
                key_before_total(
                    arena[c.base.0 as int].key,
                    arena[front[k].base.0 as int].key,
                );
                key_before_total(
                    arena[c.branch.0 as int].key,
                    arena[front[k].branch.0 as int].key,
                );
                assert(!precedes(arena, front[k], c));
                if j - 1 > k {
                    not_precedes_transitive(arena, c, front[k], front[j - 1]);
                }
                if i < k {
                    assert(all[i] == front[i]);
                }
            }
        }
    }
}

fn rank_candidates(arena: &Arena, s: Vec<Candidate>) -> (r: Vec<Candidate>)
    requires
        forall|i: int|
            0 <= i < s@.len() ==> (#[trigger] s@[i]).wf() && s@[i].base.0 < arena@.len()
                && s@[i].branch.0 < arena@.len(),
    ensures
        r@ == ranked(arena@, s@),
{
    let mut out: Vec<Candidate> = Vec::new();
    let mut i: usize = 0;
    while i < s.len()
        invariant
            i <= s@.len(),
            forall|i: int|
                0 <= i < s@.len() ==> (#[trigger] s@[i]).wf() && s@[i].base.0 < arena@.len()
                    && s@[i].branch.0 < arena@.len(),
            out@ == ranked(arena@, s@.take(i as int)),
            out@.len() == i,
            forall|k: int|
                0 <= k < out@.len() ==> (#[trigger] out@[k]).wf() && out@[k].base.0 < arena@.len()
                    && out@[k].branch.0 < arena@.len(),
        decreases s@.len() - i,
    {
        let c = s[i];
        let mut k: usize = 0;
        while k < out.len() && !is_ahead(arena, &c, &out[k])
            invariant
                k <= out@.len(),
                c.wf(),
                c.base.0 < arena@.len(),
                c.branch.0 < arena@.len(),
                forall|k: int|
                    0 <= k < out@.len() ==> (#[trigger] out@[k]).wf() && out@[k].base.0
                        < arena@.len() && out@[k].branch.0 < arena@.len(),
                place(arena@, out@, c, k as int) == place(arena@, out@, c, 0),
            decreases out@.len() - k,
        {
            k = k + 1;
        }
        let ghost front = out@;
        out.insert(k, c);
        i = i + 1;
        proof {
            let done = s@.take(i as int);
            assert(done.drop_last() =~= s@.take(i - 1));
            assert(done.last() == c);
            assert forall|j: int| 0 <= j < out@.len() implies (#[trigger] out@[j]).wf()
                && out@[j].base.0 < arena@.len() && out@[j].branch.0 < arena@.len() by {
                if j < k {
                    assert(out@[j] == front[j]);
                } else if j > k {
                    assert(out@[j] == front[j - 1]);
                }
            }
        }
    }
    proof {
        assert(s@.take(s@.len() as int) =~= s@);
    }
    out
}

// ---------------------------------------------------------------------------
// Taking
// ---------------------------------------------------------------------------

/// The branch entity of an entry that has one.
pub open spec fn target(entry: Option<(Idx, Link)>) -> Idx {
    let pair = entry->0;
    pair.0
}

/// The entry pairs something with the branch entity `x`.
pub open spec fn leads_to(entry: Option<(Idx, Link)>, x: Idx) -> bool {
    entry is Some && target(entry) == x
}

/// Some base entity is paired with the branch entity `x`.
pub open spec fn paired(p: Seq<Option<(Idx, Link)>>, x: Idx) -> bool {
    exists|b: int| 0 <= b < p.len() && leads_to(#[trigger] p[b], x)
}

/// Take the candidates from the `k`th on in turn, each whose two entities are
/// still free.
pub open spec fn taken(
    cs: Seq<Candidate>,
    k: int,
    p: Seq<Option<(Idx, Link)>>,
) -> Seq<Option<(Idx, Link)>>
    decreases cs.len() - k,
{
    if k < 0 || k >= cs.len() {
        p
    } else {
        let c = cs[k];
        if p[c.base.0 as int] is Some || paired(p, c.branch) {
            taken(cs, k + 1, p)
        } else {
            taken(cs, k + 1, p.update(c.base.0 as int, Some((c.branch, c.link_of()))))
        }
    }
}

/// Is some base entity paired with the branch entity `x`?
pub fn is_paired(p: &Pairing, x: Idx) -> (r: bool)
    ensures
        r == paired(p@, x),
{
    let mut b: usize = 0;
    while b < p.len()
        invariant
            b <= p@.len(),
            forall|k: int| 0 <= k < b ==> !leads_to(#[trigger] p@[k], x),
        decreases p@.len() - b,
    {
        match p[b] {
            Some(q) => {
                if q.0 == x {
                    proof {
                        assert(leads_to(p@[b as int], x));
                    }
                    return true;
                }
            },
            None => {},
        }
        b = b + 1;
    }
    false
}

/// No two base entities are paired with one branch entity.
pub open spec fn injective(p: Seq<Option<(Idx, Link)>>) -> bool {
    forall|a: int, b: int|
        0 <= a < b < p.len() && (#[trigger] p[a]) is Some && (#[trigger] p[b]) is Some ==> target(p[a])
            != target(p[b])
}

/// Every branch entity of the pairing lies from `lo` up to `hi`.
pub open spec fn within(p: Seq<Option<(Idx, Link)>>, lo: int, hi: int) -> bool {
    forall|b: int| 0 <= b < p.len() && (#[trigger] p[b]) is Some ==> lo <= target(p[b]).0 < hi
}

/// Taking candidates pairs no branch entity twice, none outside the branch, and
/// keeps every pair there was.
pub proof fn taking_keeps_pairs_apart(
    cs: Seq<Candidate>,
    k: int,
    p: Seq<Option<(Idx, Link)>>,
    lo: int,
    hi: int,
)
    requires
        0 <= k,
        injective(p),
        within(p, lo, hi),
        forall|i: int|
            0 <= i < cs.len() ==> (#[trigger] cs[i]).base.0 < p.len() && lo <= cs[i].branch.0 < hi,
    ensures
        injective(taken(cs, k, p)),
        within(taken(cs, k, p), lo, hi),
        taken(cs, k, p).len() == p.len(),
        forall|b: int| 0 <= b < p.len() && p[b] is Some ==> (#[trigger] taken(cs, k, p)[b]) == p[b],
    decreases cs.len() - k,
{
    if k < cs.len() {
        let c = cs[k];
        if p[c.base.0 as int] is Some || paired(p, c.branch) {
            taking_keeps_pairs_apart(cs, k + 1, p, lo, hi);
        } else {
            let q = p.update(c.base.0 as int, Some((c.branch, c.link_of())));
            assert forall|a: int, b: int|
                0 <= a < b < q.len() && (#[trigger] q[a]) is Some && (
                #[trigger] q[b]) is Some implies target(q[a]) != target(q[b]) by {
                if a != c.base.0 && b != c.base.0 {
                    assert(q[a] == p[a] && q[b] == p[b]);
                } else if a == c.base.0 {
                    assert(q[b] == p[b]);
                    assert(!leads_to(p[b], c.branch));
                } else {
                    assert(q[a] == p[a]);
                    assert(!leads_to(p[a], c.branch));
                }
            }
            assert forall|b: int| 0 <= b < q.len() && (#[trigger] q[b]) is Some implies lo
                <= target(q[b]).0 < hi by {
                if b != c.base.0 {
                    assert(q[b] == p[b]);
                }
            }
            taking_keeps_pairs_apart(cs, k + 1, q, lo, hi);
            assert forall|b: int| 0 <= b < p.len() && p[b] is Some implies (
            #[trigger] taken(cs, k, p)[b]) == p[b] by {
                assert(q[b] == p[b]);
                assert(q[b] is Some);
            }
        }
    }
}

fn take_candidates(cs: &Vec<Candidate>, pairing: &mut Pairing)
    requires
        forall|i: int| 0 <= i < cs@.len() ==> (#[trigger] cs@[i]).base.0 < old(pairing)@.len(),
    ensures
        final(pairing)@ == taken(cs@, 0, old(pairing)@),
        final(pairing)@.len() == old(pairing)@.len(),
{
    let ghost start = pairing@;
    let mut k: usize = 0;
    while k < cs.len()
        invariant
            k <= cs@.len(),
            pairing@.len() == start.len(),
            forall|i: int| 0 <= i < cs@.len() ==> (#[trigger] cs@[i]).base.0 < start.len(),
            taken(cs@, k as int, pairing@) == taken(cs@, 0, start),
        decreases cs@.len() - k,
    {
        let c = cs[k];
        proof {
            assert(cs@[k as int].base.0 < start.len());
        }
        let b: usize = c.base.0 as usize;
        if pairing[b].is_none() && !is_paired(pairing, c.branch) {
            pairing.set(b, Some((c.branch, c.link())));
        }
        k = k + 1;
    }
}

// ---------------------------------------------------------------------------
// Candidates
// ---------------------------------------------------------------------------

/// What the inference of one side's renames looks at: the arena, whose first
/// `nb` entities are the base's and whose entities from `lo` up to `hi` are the
/// side's; the pairing that identity gave; and which of the side's entities may
/// not be taken.
pub struct Field {
    pub arena: Seq<EntityView>,
    pub nb: int,
    pub lo: int,
    pub hi: int,
    pub pairing: Seq<Option<(Idx, Link)>>,
    pub reserved: Seq<bool>,
}

/// How many of the numbers from `lo` up to `hi` the predicate holds of.
pub open spec fn count(lo: int, hi: int, p: spec_fn(int) -> bool) -> nat
    decreases hi - lo,
{
    if hi <= lo {
        0
    } else {
        count(lo, hi - 1, p) + if p(hi - 1) {
            1nat
        } else {
            0nat
        }
    }
}

/// The tokens of a body, each once.
pub open spec fn tokens_of(e: EntityView) -> Seq<Seq<char>> {
    distinct(words(e.content))
}

/// The texts of `b` include the `i`th of `a`.
pub open spec fn includes(a: Seq<Seq<char>>, b: Seq<Seq<char>>) -> spec_fn(int) -> bool {
    |i: int| b.contains(a[i])
}

/// How many of the tokens of `a` are among those of `b`.
pub open spec fn shared(a: Seq<Seq<char>>, b: Seq<Seq<char>>) -> nat {
    count(0, a.len() as int, includes(a, b))
}

/// A body with no more tokens than this has no resolution left in a symmetric
/// similarity score.
pub const SHORT_BODY_TOKENS: usize = 12;

/// A token shared by more than this many candidates says nothing about which of
/// them is the rename.
pub const RARE_DF: usize = 4;

impl Field {
    /// The entities are where the field says, and the pairing and the
    /// reservations cover them.
    pub open spec fn wf(self) -> bool {
        &&& 0 <= self.nb <= self.lo <= self.hi <= self.arena.len()
        &&& self.arena.len() <= u32::MAX
        &&& self.pairing.len() == self.nb
        &&& self.reserved.len() == self.hi - self.lo
        &&& within(self.pairing, self.lo, self.hi)
    }

    /// Identity left the base entity without a partner.
    pub open spec fn base_open(self, b: int) -> bool {
        0 <= b < self.nb && self.pairing[b] is None
    }

    /// Identity left the side's entity without a partner, and it may be taken.
    pub open spec fn branch_open(self, n: int) -> bool {
        self.lo <= n < self.hi && !paired(self.pairing, Idx(n as u32)) && !self.reserved[n
            - self.lo]
    }

    /// The open base entities with the body of `b` whose key comes before it.
    pub open spec fn base_ahead(self, b: int) -> spec_fn(int) -> bool {
        |x: int|
            self.base_open(x) && self.arena[x].body_hash == self.arena[b].body_hash && key_before(
                self.arena[x].key,
                self.arena[b].key,
            )
    }

    /// The side's open entities with the body of `n` whose key comes before it.
    pub open spec fn branch_ahead(self, n: int) -> spec_fn(int) -> bool {
        |x: int|
            self.branch_open(x) && self.arena[x].body_hash == self.arena[n].body_hash && key_before(
                self.arena[x].key,
                self.arena[n].key,
            )
    }

    /// Identical bodies under different names. Where several entities share one
    /// body they are paired in the order of their keys.
    pub open spec fn body_pair(self, b: int, n: int) -> bool {
        &&& self.base_open(b)
        &&& self.branch_open(n)
        &&& self.arena[b].body_hash == self.arena[n].body_hash
        &&& count(0, self.nb, self.base_ahead(b)) == count(self.lo, self.hi, self.branch_ahead(n))
        &&& self.arena[b].key.entity_type == self.arena[n].key.entity_type
    }

    /// The base entity is open, and no identical body speaks for it.
    pub open spec fn base_still(self, b: int) -> bool {
        self.base_open(b) && forall|n: int| !self.body_pair(b, n)
    }

    /// The side's entity is open, and no identical body speaks for it.
    pub open spec fn branch_still(self, n: int) -> bool {
        self.branch_open(n) && forall|b: int| !self.body_pair(b, n)
    }

    /// Both are still open, and of one type under one parent.
    pub open spec fn comparable(self, b: int, n: int) -> bool {
        &&& self.base_still(b)
        &&& self.branch_still(n)
        &&& self.arena[b].key.entity_type == self.arena[n].key.entity_type
        &&& self.arena[b].key.parent == self.arena[n].key.parent
    }

    /// Some base entity has the name.
    pub open spec fn base_named(self, name: Seq<char>) -> bool {
        exists|b: int| 0 <= b < self.nb && (#[trigger] self.arena[b]).key.name == name
    }

    /// How many tokens the two bodies have in common.
    pub open spec fn inter(self, b: int, n: int) -> int {
        shared(tokens_of(self.arena[b]), tokens_of(self.arena[n])) as int
    }

    /// How many tokens the two bodies have together.
    pub open spec fn union(self, b: int, n: int) -> int {
        tokens_of(self.arena[b]).len() + tokens_of(self.arena[n]).len() - self.inter(b, n)
    }

    /// Two bodies with at least seven tenths of their tokens in common.
    pub open spec fn similar(self, b: int, n: int) -> bool {
        &&& self.comparable(b, n)
        &&& self.inter(b, n) > 0
        &&& 10 * self.inter(b, n) >= 7 * self.union(b, n)
    }

    /// The entity's body is short.
    pub open spec fn short(self, x: int) -> bool {
        tokens_of(self.arena[x]).len() <= SHORT_BODY_TOKENS
    }

    /// The side's short bodies that hold the token.
    pub open spec fn short_holder(self, tok: Seq<char>) -> spec_fn(int) -> bool {
        |x: int| self.branch_still(x) && self.short(x) && tokens_of(self.arena[x]).contains(tok)
    }

    /// Few of the side's short bodies hold the token.
    pub open spec fn rare(self, tok: Seq<char>) -> bool {
        count(self.lo, self.hi, self.short_holder(tok)) <= RARE_DF
    }

    /// The two bodies have a rare token in common.
    pub open spec fn share_rare(self, b: int, n: int) -> bool {
        exists|i: int|
            0 <= i < tokens_of(self.arena[b]).len() && tokens_of(self.arena[n]).contains(
                #[trigger] tokens_of(self.arena[b])[i],
            ) && self.rare(tokens_of(self.arena[b])[i])
    }

    /// The number of tokens of the smaller body, at least one.
    pub open spec fn smaller(self, b: int, n: int) -> int {
        let (x, y) = (tokens_of(self.arena[b]).len(), tokens_of(self.arena[n]).len());
        let m = if x < y {
            x
        } else {
            y
        };
        if m < 1 {
            1
        } else {
            m as int
        }
    }

    /// Two short bodies that share a rare token, of which the smaller one is for
    /// at least seven tenths in the other, and a name that is new.
    pub open spec fn contained(self, b: int, n: int) -> bool {
        &&& self.comparable(b, n)
        &&& self.short(b)
        &&& self.short(n)
        &&& self.share_rare(b, n)
        &&& !self.base_named(self.arena[n].key.name)
        &&& 10 * self.inter(b, n) >= 7 * self.smaller(b, n)
    }

    /// Identity paired the base entity, which calls the name, with an entity that
    /// does not.
    pub open spec fn dropped(self, x: int, name: Seq<char>) -> bool {
        let link = (self.pairing[x]->0).1;
        &&& self.pairing[x] is Some
        &&& link is Identity
        &&& identifier(name)
        &&& calls(self.arena[x].content, name)
        &&& !calls(self.arena[target(self.pairing[x]).0 as int].content, name)
    }

    /// Identity paired the base entity, which does not call the name, with an
    /// entity that does.
    pub open spec fn gained(self, x: int, name: Seq<char>) -> bool {
        let link = (self.pairing[x]->0).1;
        &&& self.pairing[x] is Some
        &&& link is Identity
        &&& identifier(name)
        &&& calls(self.arena[target(self.pairing[x]).0 as int].content, name)
        &&& !calls(self.arena[x].content, name)
    }

    /// Some call site moved from the one name to the other.
    pub open spec fn moved(self, old_name: Seq<char>, new_name: Seq<char>) -> bool {
        exists|x: int|
            0 <= x < self.nb && #[trigger] self.dropped(x, old_name) && self.gained(x, new_name)
    }

    /// A pair that call sites speak for: a name that is new, and bodies that are
    /// short or have at least three tenths of their tokens in common.
    pub open spec fn corroborated(self, b: int, n: int) -> bool {
        &&& self.comparable(b, n)
        &&& self.moved(self.arena[b].key.name, self.arena[n].key.name)
        &&& !self.base_named(self.arena[n].key.name)
        &&& (self.short(b) && self.short(n)) || 10 * self.inter(b, n) >= 3 * self.union(b, n)
    }

    /// The share of their tokens that two bodies have in common; two empty
    /// bodies have all.
    pub open spec fn jaccard(self, b: int, n: int) -> Ratio {
        if self.union(b, n) == 0 {
            Ratio { part: 1, whole: 1 }
        } else {
            Ratio { part: self.inter(b, n) as usize, whole: self.union(b, n) as u128 }
        }
    }

    /// The candidates that one base and one branch entity make.
    pub open spec fn pair_candidates(self, b: int, n: int) -> Seq<Candidate> {
        let base = Idx(b as u32);
        let branch = Idx(n as u32);
        if self.body_pair(b, n) {
            seq![
                Candidate {
                    base,
                    branch,
                    stage: Stage::BodyHash,
                    similarity: Ratio { part: 1, whole: 1 },
                },
            ]
        } else {
            (if self.similar(b, n) {
                seq![
                    Candidate {
                        base,
                        branch,
                        stage: Stage::Signature,
                        similarity: self.jaccard(b, n),
                    },
                ]
            } else {
                Seq::empty()
            }) + (if self.contained(b, n) {
                seq![
                    Candidate {
                        base,
                        branch,
                        stage: Stage::ShortBody,
                        similarity: Ratio {
                            part: self.inter(b, n) as usize,
                            whole: self.smaller(b, n) as u128,
                        },
                    },
                ]
            } else {
                Seq::empty()
            }) + (if self.corroborated(b, n) {
                seq![
                    Candidate {
                        base,
                        branch,
                        stage: Stage::CallSites,
                        similarity: self.jaccard(b, n),
                    },
                ]
            } else {
                Seq::empty()
            })
        }
    }

    /// The candidates of one base entity with the branch entities before `n`.
    pub open spec fn row(self, b: int, n: int) -> Seq<Candidate>
        decreases n - self.lo,
    {
        if n <= self.lo {
            Seq::empty()
        } else {
            self.row(b, n - 1) + self.pair_candidates(b, n - 1)
        }
    }

    /// The candidates of the base entities before `b`.
    pub open spec fn rows(self, b: int) -> Seq<Candidate>
        decreases b,
    {
        if b <= 0 {
            Seq::empty()
        } else {
            self.rows(b - 1) + self.row(b - 1, self.hi)
        }
    }

    /// The pairing of the side: identity, and the renames taken in rank.
    pub open spec fn renames(self) -> Seq<Option<(Idx, Link)>> {
        taken(ranked(self.arena, self.rows(self.nb)), 0, self.pairing)
    }
}

// ---------------------------------------------------------------------------
// Finding the candidates
// ---------------------------------------------------------------------------

/// What the search for candidates looks up again and again, by base entity and
/// by branch entity.
struct Desk {
    nb: usize,
    lo: usize,
    hi: usize,
    base_open: Vec<bool>,
    branch_open: Vec<bool>,
    base_rank: Vec<usize>,
    branch_rank: Vec<usize>,
    base_still: Vec<bool>,
    branch_still: Vec<bool>,
    base_tokens: Vec<Vec<Vec<char>>>,
    branch_tokens: Vec<Vec<Vec<char>>>,
    gone: Vec<Vec<String>>,
    come: Vec<Vec<String>>,
}

impl Desk {
    spec fn opens(self, f: Field) -> bool {
        &&& self.nb == f.nb
        &&& self.lo == f.lo
        &&& self.hi == f.hi
        &&& self.base_open@.len() == f.nb
        &&& self.branch_open@.len() == f.hi - f.lo
        &&& forall|b: int| 0 <= b < f.nb ==> (#[trigger] self.base_open@[b]) == f.base_open(b)
        &&& forall|n: int|
            f.lo <= n < f.hi ==> (#[trigger] self.branch_open@[n - f.lo]) == f.branch_open(n)
    }

    spec fn ranks(self, f: Field) -> bool {
        &&& self.base_rank@.len() == f.nb
        &&& self.branch_rank@.len() == f.hi - f.lo
        &&& forall|b: int|
            0 <= b < f.nb && f.base_open(b) ==> (#[trigger] self.base_rank@[b]) == count(
                0,
                f.nb,
                f.base_ahead(b),
            )
        &&& forall|n: int|
            f.lo <= n < f.hi && f.branch_open(n) ==> (#[trigger] self.branch_rank@[n - f.lo])
                == count(f.lo, f.hi, f.branch_ahead(n))
    }

    spec fn stills(self, f: Field) -> bool {
        &&& self.base_still@.len() == f.nb
        &&& self.branch_still@.len() == f.hi - f.lo
        &&& forall|b: int| 0 <= b < f.nb ==> (#[trigger] self.base_still@[b]) == f.base_still(b)
        &&& forall|n: int|
            f.lo <= n < f.hi ==> (#[trigger] self.branch_still@[n - f.lo]) == f.branch_still(n)
    }

    spec fn tokens(self, f: Field) -> bool {
        &&& self.base_tokens@.len() == f.nb
        &&& self.branch_tokens@.len() == f.hi - f.lo
        &&& forall|b: int|
            0 <= b < f.nb && f.base_still(b) ==> texts((#[trigger] self.base_tokens@[b])@)
                == tokens_of(f.arena[b])
        &&& forall|n: int|
            f.lo <= n < f.hi && f.branch_still(n) ==> texts(
                (#[trigger] self.branch_tokens@[n - f.lo])@,
            ) == tokens_of(f.arena[n])
    }

    spec fn moves(self, f: Field) -> bool {
        &&& self.gone@.len() == f.nb
        &&& self.come@.len() == f.nb
        &&& forall|x: int, o: Seq<char>|
            0 <= x < f.nb ==> (strs(self.gone@[x]@).contains(o) == #[trigger] f.dropped(x, o))
        &&& forall|x: int, n: Seq<char>|
            0 <= x < f.nb ==> (strs(self.come@[x]@).contains(n) == #[trigger] f.gained(x, n))
    }

    spec fn describes(self, f: Field) -> bool {
        &&& self.opens(f)
        &&& self.ranks(f)
        &&& self.stills(f)
        &&& self.tokens(f)
        &&& self.moves(f)
    }
}

fn count_base_ahead(
    arena: &Arena,
    open: &Vec<bool>,
    b: usize,
    Ghost(f): Ghost<Field>,
) -> (r: usize)
    requires
        f.wf(),
        arena@ == f.arena,
        open@.len() == f.nb,
        b < f.nb,
        forall|x: int| 0 <= x < f.nb ==> (#[trigger] open@[x]) == f.base_open(x),
    ensures
        r == count(0, f.nb, f.base_ahead(b as int)),
{
    let here = arena.get(Idx(b as u32));
    let mut x: usize = 0;
    let mut n: usize = 0;
    while x < open.len()
        invariant
            x <= open@.len() == f.nb,
            f.wf(),
            arena@ == f.arena,
            b < f.nb,
            here@ == f.arena[b as int],
            forall|x: int| 0 <= x < f.nb ==> (#[trigger] open@[x]) == f.base_open(x),
            n <= x,
            n == count(0, x as int, f.base_ahead(b as int)),
        decreases open@.len() - x,
    {
        if open[x] {
            let e = arena.get(Idx(x as u32));
            if e.body_hash == here.body_hash && e.key.is_before(&here.key) {
                n = n + 1;
            }
        }
        x = x + 1;
    }
    n
}

fn count_branch_ahead(
    arena: &Arena,
    open: &Vec<bool>,
    lo: usize,
    i: usize,
    Ghost(f): Ghost<Field>,
) -> (r: usize)
    requires
        f.wf(),
        arena@ == f.arena,
        lo == f.lo,
        open@.len() == f.hi - f.lo,
        i < f.hi - f.lo,
        forall|x: int| f.lo <= x < f.hi ==> (#[trigger] open@[x - f.lo]) == f.branch_open(x),
    ensures
        r == count(f.lo, f.hi, f.branch_ahead(lo + i)),
{
    let here = arena.get(Idx((lo + i) as u32));
    let mut x: usize = 0;
    let mut n: usize = 0;
    while x < open.len()
        invariant
            x <= open@.len() == f.hi - f.lo,
            f.wf(),
            arena@ == f.arena,
            lo == f.lo,
            i < f.hi - f.lo,
            here@ == f.arena[lo + i],
            forall|x: int| f.lo <= x < f.hi ==> (#[trigger] open@[x - f.lo]) == f.branch_open(x),
            n <= x,
            n == count(f.lo, lo + x, f.branch_ahead(lo + i)),
        decreases open@.len() - x,
    {
        proof {
            assert(open@[(lo + x) - f.lo] == f.branch_open(lo + x));
        }
        if open[x] {
            let e = arena.get(Idx((lo + x) as u32));
            if e.body_hash == here.body_hash && e.key.is_before(&here.key) {
                n = n + 1;
            }
        }
        x = x + 1;
    }
    n
}

fn open_tables(
    arena: &Arena,
    nb: usize,
    lo: usize,
    hi: usize,
    reserved: &Vec<bool>,
    pairing: &Pairing,
    Ghost(f): Ghost<Field>,
) -> (r: (Vec<bool>, Vec<bool>, Vec<usize>, Vec<usize>))
    requires
        f.wf(),
        arena@ == f.arena,
        nb == f.nb,
        lo == f.lo,
        hi == f.hi,
        pairing@ == f.pairing,
        reserved@ == f.reserved,
    ensures
        r.0@.len() == f.nb,
        r.1@.len() == f.hi - f.lo,
        r.2@.len() == f.nb,
        r.3@.len() == f.hi - f.lo,
        forall|b: int| 0 <= b < f.nb ==> (#[trigger] r.0@[b]) == f.base_open(b),
        forall|n: int| f.lo <= n < f.hi ==> (#[trigger] r.1@[n - f.lo]) == f.branch_open(n),
        forall|b: int|
            0 <= b < f.nb && f.base_open(b) ==> (#[trigger] r.2@[b]) == count(
                0,
                f.nb,
                f.base_ahead(b),
            ),
        forall|n: int|
            f.lo <= n < f.hi && f.branch_open(n) ==> (#[trigger] r.3@[n - f.lo]) == count(
                f.lo,
                f.hi,
                f.branch_ahead(n),
            ),
{
    let mut base_open: Vec<bool> = Vec::new();
    let mut b: usize = 0;
    while b < nb
        invariant
            b <= nb == f.nb,
            pairing@ == f.pairing,
            f.wf(),
            base_open@.len() == b,
            forall|k: int| 0 <= k < b ==> (#[trigger] base_open@[k]) == f.base_open(k),
        decreases nb - b,
    {
        base_open.push(pairing[b].is_none());
        b = b + 1;
    }
    let mut branch_open: Vec<bool> = Vec::new();
    let mut i: usize = 0;
    while i < hi - lo
        invariant
            i <= hi - lo,
            lo == f.lo,
            hi == f.hi,
            f.wf(),
            pairing@ == f.pairing,
            reserved@ == f.reserved,
            branch_open@.len() == i,
            forall|n: int|
                f.lo <= n < f.lo + i ==> (#[trigger] branch_open@[n - f.lo]) == f.branch_open(n),
        decreases hi - lo - i,
    {
        let free = !reserved[i] && !is_paired(pairing, Idx((lo + i) as u32));
        branch_open.push(free);
        i = i + 1;
    }
    let mut base_rank: Vec<usize> = Vec::new();
    b = 0;
    while b < nb
        invariant
            b <= nb == f.nb,
            f.wf(),
            arena@ == f.arena,
            base_open@.len() == nb,
            base_rank@.len() == b,
            forall|k: int| 0 <= k < f.nb ==> (#[trigger] base_open@[k]) == f.base_open(k),
            forall|k: int|
                0 <= k < b && f.base_open(k) ==> (#[trigger] base_rank@[k]) == count(
                    0,
                    f.nb,
                    f.base_ahead(k),
                ),
        decreases nb - b,
    {
        if base_open[b] {
            base_rank.push(count_base_ahead(arena, &base_open, b, Ghost(f)));
        } else {
            base_rank.push(0);
        }
        b = b + 1;
    }
    let mut branch_rank: Vec<usize> = Vec::new();
    i = 0;
    while i < hi - lo
        invariant
            i <= hi - lo,
            lo == f.lo,
            hi == f.hi,
            f.wf(),
            arena@ == f.arena,
            branch_open@.len() == hi - lo,
            branch_rank@.len() == i,
            forall|n: int|
                f.lo <= n < f.hi ==> (#[trigger] branch_open@[n - f.lo]) == f.branch_open(n),
            forall|n: int|
                f.lo <= n < f.lo + i && f.branch_open(n) ==> (#[trigger] branch_rank@[n - f.lo])
                    == count(f.lo, f.hi, f.branch_ahead(n)),
        decreases hi - lo - i,
    {
        proof {
            assert(branch_open@[(lo + i) - f.lo] == f.branch_open(lo + i));
        }
        if branch_open[i] {
            branch_rank.push(count_branch_ahead(arena, &branch_open, lo, i, Ghost(f)));
        } else {
            branch_rank.push(0);
        }
        i = i + 1;
    }
    (base_open, branch_open, base_rank, branch_rank)
}

fn is_body_pair(
    arena: &Arena,
    open: (&Vec<bool>, &Vec<bool>),
    rank: (&Vec<usize>, &Vec<usize>),
    lo: usize,
    b: usize,
    i: usize,
    Ghost(f): Ghost<Field>,
) -> (r: bool)
    requires
        f.wf(),
        arena@ == f.arena,
        lo == f.lo,
        b < f.nb,
        i < f.hi - f.lo,
        open.0@.len() == f.nb,
        open.1@.len() == f.hi - f.lo,
        rank.0@.len() == f.nb,
        rank.1@.len() == f.hi - f.lo,
        open.0@[b as int] == f.base_open(b as int),
        open.1@[i as int] == f.branch_open(lo + i),
        f.base_open(b as int) ==> rank.0@[b as int] == count(0, f.nb, f.base_ahead(b as int)),
        f.branch_open(lo + i) ==> rank.1@[i as int] == count(f.lo, f.hi, f.branch_ahead(lo + i)),
    ensures
        r == f.body_pair(b as int, lo + i),
{
    if !open.0[b] || !open.1[i] || rank.0[b] != rank.1[i] {
        return false;
    }
    let x = arena.get(Idx(b as u32));
    let y = arena.get(Idx((lo + i) as u32));
    x.body_hash == y.body_hash && str_eq(x.entity_type(), y.entity_type())
}

fn still_tables(
    arena: &Arena,
    open: (&Vec<bool>, &Vec<bool>),
    rank: (&Vec<usize>, &Vec<usize>),
    nb: usize,
    lo: usize,
    hi: usize,
    Ghost(f): Ghost<Field>,
) -> (r: (Vec<bool>, Vec<bool>))
    requires
        f.wf(),
        arena@ == f.arena,
        nb == f.nb,
        lo == f.lo,
        hi == f.hi,
        open.0@.len() == f.nb,
        open.1@.len() == f.hi - f.lo,
        rank.0@.len() == f.nb,
        rank.1@.len() == f.hi - f.lo,
        forall|b: int| 0 <= b < f.nb ==> (#[trigger] open.0@[b]) == f.base_open(b),
        forall|n: int| f.lo <= n < f.hi ==> (#[trigger] open.1@[n - f.lo]) == f.branch_open(n),
        forall|b: int|
            0 <= b < f.nb && f.base_open(b) ==> (#[trigger] rank.0@[b]) == count(
                0,
                f.nb,
                f.base_ahead(b),
            ),
        forall|n: int|
            f.lo <= n < f.hi && f.branch_open(n) ==> (#[trigger] rank.1@[n - f.lo]) == count(
                f.lo,
                f.hi,
                f.branch_ahead(n),
            ),
    ensures
        r.0@.len() == f.nb,
        r.1@.len() == f.hi - f.lo,
        forall|b: int| 0 <= b < f.nb ==> (#[trigger] r.0@[b]) == f.base_still(b),
        forall|n: int| f.lo <= n < f.hi ==> (#[trigger] r.1@[n - f.lo]) == f.branch_still(n),
{
    let mut base_still: Vec<bool> = Vec::new();
    let mut b: usize = 0;
    while b < nb
        invariant
            b <= nb == f.nb,
            lo == f.lo,
            hi == f.hi,
            f.wf(),
            arena@ == f.arena,
            open.0@.len() == f.nb,
            open.1@.len() == f.hi - f.lo,
            rank.0@.len() == f.nb,
            rank.1@.len() == f.hi - f.lo,
            forall|b: int| 0 <= b < f.nb ==> (#[trigger] open.0@[b]) == f.base_open(b),
            forall|n: int| f.lo <= n < f.hi ==> (#[trigger] open.1@[n - f.lo]) == f.branch_open(n),
            forall|b: int|
                0 <= b < f.nb && f.base_open(b) ==> (#[trigger] rank.0@[b]) == count(
                    0,
                    f.nb,
                    f.base_ahead(b),
                ),
            forall|n: int|
                f.lo <= n < f.hi && f.branch_open(n) ==> (#[trigger] rank.1@[n - f.lo]) == count(
                    f.lo,
                    f.hi,
                    f.branch_ahead(n),
                ),
            base_still@.len() == b,
            forall|k: int| 0 <= k < b ==> (#[trigger] base_still@[k]) == f.base_still(k),
        decreases nb - b,
    {
        let mut still = open.0[b];
        let mut i: usize = 0;
        while still && i < hi - lo
            invariant
                b < nb == f.nb,
                i <= hi - lo,
                lo == f.lo,
                hi == f.hi,
                f.wf(),
                arena@ == f.arena,
                open.0@.len() == f.nb,
                open.1@.len() == f.hi - f.lo,
                rank.0@.len() == f.nb,
                rank.1@.len() == f.hi - f.lo,
                open.0@[b as int] == f.base_open(b as int),
                f.base_open(b as int) ==> rank.0@[b as int] == count(
                    0,
                    f.nb,
                    f.base_ahead(b as int),
                ),
                forall|n: int|
                    f.lo <= n < f.hi ==> (#[trigger] open.1@[n - f.lo]) == f.branch_open(n),
                forall|n: int|
                    f.lo <= n < f.hi && f.branch_open(n) ==> (#[trigger] rank.1@[n - f.lo])
                        == count(f.lo, f.hi, f.branch_ahead(n)),
                still ==> f.base_open(b as int) && forall|n: int|
                    f.lo <= n < f.lo + i ==> !#[trigger] f.body_pair(b as int, n),
                !still ==> !f.base_still(b as int),
            decreases hi - lo - i,
        {
            proof {
                assert(open.1@[(lo + i) - f.lo] == f.branch_open(lo + i));
                assert(f.branch_open(lo + i) ==> rank.1@[(lo + i) - f.lo] == count(
                    f.lo,
                    f.hi,
                    f.branch_ahead(lo + i),
                ));
            }
            if is_body_pair(arena, open, rank, lo, b, i, Ghost(f)) {
                still = false;
            }
            i = i + 1;
        }
        proof {
            if still {
                assert forall|n: int| !f.body_pair(b as int, n) by {
                    if f.body_pair(b as int, n) {
                        assert(f.lo <= n < f.lo + i);
                    }
                }
            }
        }
        base_still.push(still);
        b = b + 1;
    }
    let mut branch_still: Vec<bool> = Vec::new();
    let mut i: usize = 0;
    while i < hi - lo
        invariant
            i <= hi - lo,
            nb == f.nb,
            lo == f.lo,
            hi == f.hi,
            f.wf(),
            arena@ == f.arena,
            open.0@.len() == f.nb,
            open.1@.len() == f.hi - f.lo,
            rank.0@.len() == f.nb,
            rank.1@.len() == f.hi - f.lo,
            forall|b: int| 0 <= b < f.nb ==> (#[trigger] open.0@[b]) == f.base_open(b),
            forall|n: int| f.lo <= n < f.hi ==> (#[trigger] open.1@[n - f.lo]) == f.branch_open(n),
            forall|b: int|
                0 <= b < f.nb && f.base_open(b) ==> (#[trigger] rank.0@[b]) == count(
                    0,
                    f.nb,
                    f.base_ahead(b),
                ),
            forall|n: int|
                f.lo <= n < f.hi && f.branch_open(n) ==> (#[trigger] rank.1@[n - f.lo]) == count(
                    f.lo,
                    f.hi,
                    f.branch_ahead(n),
                ),
            branch_still@.len() == i,
            forall|n: int|
                f.lo <= n < f.lo + i ==> (#[trigger] branch_still@[n - f.lo]) == f.branch_still(n),
        decreases hi - lo - i,
    {
        let mut still = open.1[i];
        let mut b: usize = 0;
        proof {
            assert(open.1@[(lo + i) - f.lo] == f.branch_open(lo + i));
            assert(f.branch_open(lo + i) ==> rank.1@[(lo + i) - f.lo] == count(
                f.lo,
                f.hi,
                f.branch_ahead(lo + i),
            ));
        }
        while still && b < nb
            invariant
                b <= nb == f.nb,
                i < hi - lo,
                lo == f.lo,
                hi == f.hi,
                f.wf(),
                arena@ == f.arena,
                open.0@.len() == f.nb,
                open.1@.len() == f.hi - f.lo,
                rank.0@.len() == f.nb,
                rank.1@.len() == f.hi - f.lo,
                open.1@[i as int] == f.branch_open(lo + i),
                f.branch_open(lo + i) ==> rank.1@[i as int] == count(
                    f.lo,
                    f.hi,
                    f.branch_ahead(lo + i),
                ),
                forall|b: int| 0 <= b < f.nb ==> (#[trigger] open.0@[b]) == f.base_open(b),
                forall|b: int|
                    0 <= b < f.nb && f.base_open(b) ==> (#[trigger] rank.0@[b]) == count(
                        0,
                        f.nb,
                        f.base_ahead(b),
                    ),
                still ==> f.branch_open(lo + i) && forall|k: int|
                    0 <= k < b ==> !#[trigger] f.body_pair(k, lo + i),
                !still ==> !f.branch_still(lo + i),
            decreases nb - b,
        {
            if is_body_pair(arena, open, rank, lo, b, i, Ghost(f)) {
                still = false;
            }
            b = b + 1;
        }
        proof {
            if still {
                let here = lo + i;
                assert forall|k: int| !#[trigger] f.body_pair(k, here) by {
                    if f.body_pair(k, here) {
                        assert(0 <= k < b);
                    }
                }
            }
        }
        branch_still.push(still);
        i = i + 1;
    }
    (base_still, branch_still)
}

fn entity_tokens(arena: &Arena, x: usize) -> (r: Vec<Vec<char>>)
    requires
        x < arena@.len() <= u32::MAX,
    ensures
        texts(r@) == tokens_of(arena@[x as int]),
{
    distinct_texts(&split_words(chars_of(arena.get(Idx(x as u32)).content.as_str()).as_slice()))
}

fn token_tables(
    arena: &Arena,
    base_still: &Vec<bool>,
    branch_still: &Vec<bool>,
    lo: usize,
    Ghost(f): Ghost<Field>,
) -> (r: (Vec<Vec<Vec<char>>>, Vec<Vec<Vec<char>>>))
    requires
        f.wf(),
        arena@ == f.arena,
        lo == f.lo,
        base_still@.len() == f.nb,
        branch_still@.len() == f.hi - f.lo,
        forall|b: int| 0 <= b < f.nb ==> (#[trigger] base_still@[b]) == f.base_still(b),
        forall|n: int| f.lo <= n < f.hi ==> (#[trigger] branch_still@[n - f.lo]) == f.branch_still(n),
    ensures
        r.0@.len() == f.nb,
        r.1@.len() == f.hi - f.lo,
        forall|b: int|
            0 <= b < f.nb && f.base_still(b) ==> texts((#[trigger] r.0@[b])@) == tokens_of(
                f.arena[b],
            ),
        forall|n: int|
            f.lo <= n < f.hi && f.branch_still(n) ==> texts((#[trigger] r.1@[n - f.lo])@)
                == tokens_of(f.arena[n]),
{
    let mut base: Vec<Vec<Vec<char>>> = Vec::new();
    let mut b: usize = 0;
    while b < base_still.len()
        invariant
            b <= base_still@.len() == f.nb,
            f.wf(),
            arena@ == f.arena,
            forall|b: int| 0 <= b < f.nb ==> (#[trigger] base_still@[b]) == f.base_still(b),
            base@.len() == b,
            forall|k: int|
                0 <= k < b && f.base_still(k) ==> texts((#[trigger] base@[k])@) == tokens_of(
                    f.arena[k],
                ),
        decreases base_still@.len() - b,
    {
        if base_still[b] {
            base.push(entity_tokens(arena, b));
        } else {
            base.push(Vec::new());
        }
        b = b + 1;
    }
    let mut branch: Vec<Vec<Vec<char>>> = Vec::new();
    let mut i: usize = 0;
    while i < branch_still.len()
        invariant
            i <= branch_still@.len() == f.hi - f.lo,
            lo == f.lo,
            f.wf(),
            arena@ == f.arena,
            forall|n: int|
                f.lo <= n < f.hi ==> (#[trigger] branch_still@[n - f.lo]) == f.branch_still(n),
            branch@.len() == i,
            forall|n: int|
                f.lo <= n < f.lo + i && f.branch_still(n) ==> texts(
                    (#[trigger] branch@[n - f.lo])@,
                ) == tokens_of(f.arena[n]),
        decreases branch_still@.len() - i,
    {
        proof {
            assert(branch_still@[(lo + i) - f.lo] == f.branch_still(lo + i));
        }
        if branch_still[i] {
            branch.push(entity_tokens(arena, lo + i));
        } else {
            branch.push(Vec::new());
        }
        i = i + 1;
    }
    (base, branch)
}

/// The strings of the first list that are not in the second.
fn difference(v: &Vec<String>, w: &Vec<String>) -> (r: Vec<String>)
    ensures
        forall|x: Seq<char>| #[trigger]
            strs(r@).contains(x) <==> strs(v@).contains(x) && !strs(w@).contains(x),
{
    let mut out: Vec<String> = Vec::new();
    let mut i: usize = 0;
    while i < v.len()
        invariant
            i <= v@.len(),
            forall|x: Seq<char>| #[trigger]
                strs(out@).contains(x) <==> strs(v@).take(i as int).contains(x) && !strs(
                    w@,
                ).contains(x),
        decreases v@.len() - i,
    {
        let ghost before = strs(out@);
        let ghost here = v@[i as int]@;
        let ghost front = strs(v@).take(i as int);
        let ghost keep = !strs(w@).contains(here);
        if !list_has(w, v[i].as_str()) {
            out.push(v[i].clone());
        }
        proof {
            let now = strs(out@);
            if keep {
                assert(now =~= before.push(here));
            } else {
                assert(now =~= before);
            }
            assert(strs(v@).take(i + 1) =~= front.push(here));
            assert forall|x: Seq<char>| #[trigger]
                now.contains(x) <==> front.push(here).contains(x) && !strs(w@).contains(x) by {
                if front.contains(x) {
                    let k = choose|k: int| 0 <= k < front.len() && front[k] == x;
                    assert(front.push(here)[k] == x);
                }
                if x == here {
                    assert(front.push(here)[front.len() as int] == x);
                }
                if before.contains(x) {
                    let k = choose|k: int| 0 <= k < before.len() && before[k] == x;
                    assert(now[k] == x);
                }
                if keep && x == here {
                    assert(now[before.len() as int] == x);
                }
                if now.contains(x) {
                    let k = choose|k: int| 0 <= k < now.len() && now[k] == x;
                    if k < before.len() {
                        assert(before[k] == x);
                        assert(before.contains(x));
                    }
                }
            }
        }
        i = i + 1;
    }
    proof {
        assert(strs(v@).take(v@.len() as int) =~= strs(v@));
    }
    out
}

fn move_tables(arena: &Arena, pairing: &Pairing, Ghost(f): Ghost<Field>) -> (r: (
    Vec<Vec<String>>,
    Vec<Vec<String>>,
))
    requires
        f.wf(),
        arena@ == f.arena,
        pairing@ == f.pairing,
    ensures
        r.0@.len() == f.nb,
        r.1@.len() == f.nb,
        forall|x: int, o: Seq<char>|
            0 <= x < f.nb ==> (strs(r.0@[x]@).contains(o) == #[trigger] f.dropped(x, o)),
        forall|x: int, n: Seq<char>|
            0 <= x < f.nb ==> (strs(r.1@[x]@).contains(n) == #[trigger] f.gained(x, n)),
{
    let mut gone: Vec<Vec<String>> = Vec::new();
    let mut come: Vec<Vec<String>> = Vec::new();
    let mut x: usize = 0;
    while x < pairing.len()
        invariant
            x <= pairing@.len() == f.nb,
            f.wf(),
            arena@ == f.arena,
            pairing@ == f.pairing,
            gone@.len() == x,
            come@.len() == x,
            forall|k: int, o: Seq<char>|
                0 <= k < x ==> (strs(gone@[k]@).contains(o) == #[trigger] f.dropped(k, o)),
            forall|k: int, n: Seq<char>|
                0 <= k < x ==> (strs(come@[k]@).contains(n) == #[trigger] f.gained(k, n)),
        decreases pairing@.len() - x,
    {
        let mut g: Vec<String> = Vec::new();
        let mut c: Vec<String> = Vec::new();
        let mut identity = false;
        match pairing[x] {
            Some((branch, link)) => {
                if link == Link::Identity {
                    identity = true;
                    proof {
                        assert(f.pairing[x as int] is Some);
                        assert(target(f.pairing[x as int]) == branch);
                    }
                    let before = called_names(arena.get(Idx(x as u32)).content.as_str());
                    let after = called_names(arena.get(branch).content.as_str());
                    g = difference(&before, &after);
                    c = difference(&after, &before);
                }
            },
            None => {},
        }
        proof {
            assert(!identity ==> strs(g@).len() == 0 && strs(c@).len() == 0);
            assert forall|o: Seq<char>| strs(g@).contains(o) == #[trigger] f.dropped(
                x as int,
                o,
            ) by {}
            assert forall|n: Seq<char>| strs(c@).contains(n) == #[trigger] f.gained(
                x as int,
                n,
            ) by {}
        }
        gone.push(g);
        come.push(c);
        x = x + 1;
    }
    (gone, come)
}

impl Desk {
    fn new(
        arena: &Arena,
        nb: usize,
        lo: usize,
        hi: usize,
        reserved: &Vec<bool>,
        pairing: &Pairing,
        Ghost(f): Ghost<Field>,
    ) -> (r: Desk)
        requires
            f.wf(),
            arena@ == f.arena,
            nb == f.nb,
            lo == f.lo,
            hi == f.hi,
            pairing@ == f.pairing,
            reserved@ == f.reserved,
        ensures
            r.describes(f),
    {
        let (base_open, branch_open, base_rank, branch_rank) = open_tables(
            arena,
            nb,
            lo,
            hi,
            reserved,
            pairing,
            Ghost(f),
        );
        let (base_still, branch_still) = still_tables(
            arena,
            (&base_open, &branch_open),
            (&base_rank, &branch_rank),
            nb,
            lo,
            hi,
            Ghost(f),
        );
        let (base_tokens, branch_tokens) = token_tables(
            arena,
            &base_still,
            &branch_still,
            lo,
            Ghost(f),
        );
        let (gone, come) = move_tables(arena, pairing, Ghost(f));
        Desk {
            nb,
            lo,
            hi,
            base_open,
            branch_open,
            base_rank,
            branch_rank,
            base_still,
            branch_still,
            base_tokens,
            branch_tokens,
            gone,
            come,
        }
    }

    fn is_moved(&self, old_name: &str, new_name: &str, Ghost(f): Ghost<Field>) -> (r: bool)
        requires
            self.moves(f),
        ensures
            r == f.moved(old_name@, new_name@),
    {
        let mut x: usize = 0;
        while x < self.gone.len()
            invariant
                x <= self.gone@.len(),
                self.moves(f),
                forall|k: int|
                    0 <= k < x ==> !(#[trigger] f.dropped(k, old_name@) && f.gained(k, new_name@)),
            decreases self.gone@.len() - x,
        {
            proof {
                assert(strs(self.gone@[x as int]@).contains(old_name@) == f.dropped(
                    x as int,
                    old_name@,
                ));
                assert(strs(self.come@[x as int]@).contains(new_name@) == f.gained(
                    x as int,
                    new_name@,
                ));
            }
            if list_has(&self.gone[x], old_name) && list_has(&self.come[x], new_name) {
                return true;
            }
            x = x + 1;
        }
        false
    }

    fn is_rare(&self, tok: &[char], Ghost(f): Ghost<Field>) -> (r: bool)
        requires
            f.wf(),
            self.describes(f),
        ensures
            r == f.rare(tok@),
    {
        let mut i: usize = 0;
        let mut n: usize = 0;
        while i < self.branch_still.len()
            invariant
                i <= self.branch_still@.len(),
                f.wf(),
                self.describes(f),
                n <= i,
                n == count(f.lo, f.lo + i, f.short_holder(tok@)),
            decreases self.branch_still@.len() - i,
        {
            proof {
                assert(self.branch_still@[(f.lo + i) - f.lo] == f.branch_still(f.lo + i));
                assert(f.branch_still(f.lo + i) ==> texts(
                    self.branch_tokens@[(f.lo + i) - f.lo]@,
                ) == tokens_of(f.arena[f.lo + i]));
            }
            if self.branch_still[i] && self.branch_tokens[i].len() <= SHORT_BODY_TOKENS
                && texts_have(&self.branch_tokens[i], tok) {
                n = n + 1;
            }
            i = i + 1;
        }
        n <= RARE_DF
    }

    fn shares_rare(&self, b: usize, i: usize, Ghost(f): Ghost<Field>) -> (r: bool)
        requires
            f.wf(),
            self.describes(f),
            b < f.nb,
            i < f.hi - f.lo,
            f.base_still(b as int),
            f.branch_still(f.lo + i),
        ensures
            r == f.share_rare(b as int, f.lo + i),
    {
        let mine = &self.base_tokens[b];
        let other = &self.branch_tokens[i];
        proof {
            assert(texts(self.branch_tokens@[(f.lo + i) - f.lo]@) == tokens_of(f.arena[f.lo + i]));
        }
        let mut k: usize = 0;
        while k < mine.len()
            invariant
                k <= mine@.len(),
                f.wf(),
                self.describes(f),
                texts(mine@) == tokens_of(f.arena[b as int]),
                texts(other@) == tokens_of(f.arena[f.lo + i]),
                forall|m: int|
                    0 <= m < k ==> !(tokens_of(f.arena[f.lo + i]).contains(
                        #[trigger] tokens_of(f.arena[b as int])[m],
                    ) && f.rare(tokens_of(f.arena[b as int])[m])),
            decreases mine@.len() - k,
        {
            proof {
                assert(texts(mine@)[k as int] == mine@[k as int]@);
            }
            if texts_have(other, mine[k].as_slice()) && self.is_rare(mine[k].as_slice(), Ghost(f)) {
                return true;
            }
            k = k + 1;
        }
        false
    }
}

fn count_shared(a: &Vec<Vec<char>>, b: &Vec<Vec<char>>) -> (r: usize)
    ensures
        r == shared(texts(a@), texts(b@)),
        r <= a@.len(),
{
    let mut i: usize = 0;
    let mut n: usize = 0;
    while i < a.len()
        invariant
            i <= a@.len(),
            n <= i,
            n == count(0, i as int, includes(texts(a@), texts(b@))),
        decreases a@.len() - i,
    {
        proof {
            assert(texts(a@)[i as int] == a@[i as int]@);
        }
        if texts_have(b, a[i].as_slice()) {
            n = n + 1;
        }
        i = i + 1;
    }
    n
}

proof fn distinct_part_is_smaller(a: Seq<Seq<char>>, b: Seq<Seq<char>>)
    requires
        a.no_duplicates(),
    ensures
        shared(a, b) <= b.len(),
{
    // The shared texts are an injective choice of texts of b.
    shared_is_an_intersection(a, b, a.len() as int);
    let s = a.take(a.len() as int).to_set().intersect(b.to_set());
    vstd::set_lib::lemma_len_subset(s, b.to_set());
    b.lemma_cardinality_of_set();
}

proof fn shared_is_an_intersection(a: Seq<Seq<char>>, b: Seq<Seq<char>>, k: int)
    requires
        a.no_duplicates(),
        0 <= k <= a.len(),
    ensures
        count(0, k, includes(a, b)) == a.take(k).to_set().intersect(b.to_set()).len(),
        a.take(k).to_set().intersect(b.to_set()).finite(),
    decreases k,
{
    b.lemma_cardinality_of_set();
    if k == 0 {
        assert(a.take(0).to_set().intersect(b.to_set()) =~= Set::empty());
    } else {
        shared_is_an_intersection(a, b, k - 1);
        let front = a.take(k - 1);
        assert(a.take(k) =~= front.push(a[k - 1]));
        front.lemma_push_to_set_commute(a[k - 1]);
        let s = front.to_set().intersect(b.to_set());
        if b.contains(a[k - 1]) {
            assert(a.take(k).to_set().intersect(b.to_set()) =~= s.insert(a[k - 1]));
            if front.contains(a[k - 1]) {
                let m = choose|m: int| 0 <= m < front.len() && front[m] == a[k - 1];
                assert(a[m] == a[k - 1]);
                assert(false);
            }
            assert(!s.contains(a[k - 1]));
        } else {
            assert(a.take(k).to_set().intersect(b.to_set()) =~= s);
        }
    }
}

fn is_base_name(arena: &Arena, nb: usize, name: &str, Ghost(f): Ghost<Field>) -> (r: bool)
    requires
        f.wf(),
        arena@ == f.arena,
        nb == f.nb,
    ensures
        r == f.base_named(name@),
{
    let mut b: usize = 0;
    while b < nb
        invariant
            b <= nb == f.nb,
            f.wf(),
            arena@ == f.arena,
            forall|k: int| 0 <= k < b ==> (#[trigger] f.arena[k]).key.name != name@,
        decreases nb - b,
    {
        if str_eq(arena.get(Idx(b as u32)).name(), name) {
            proof {
                assert(f.arena[b as int].key.name == name@);
            }
            return true;
        }
        b = b + 1;
    }
    false
}

impl Field {
    /// The candidates of a field are well formed and lie in it.
    pub open spec fn sound(self, cs: Seq<Candidate>) -> bool {
        forall|i: int|
            0 <= i < cs.len() ==> (#[trigger] cs[i]).wf() && cs[i].base.0 < self.nb && self.lo
                <= cs[i].branch.0 < self.hi
    }
}

#[verifier::rlimit(60)]
fn push_pair_candidates(
    arena: &Arena,
    desk: &Desk,
    b: usize,
    i: usize,
    out: &mut Vec<Candidate>,
    Ghost(f): Ghost<Field>,
)
    requires
        f.wf(),
        arena@ == f.arena,
        desk.describes(f),
        b < f.nb,
        i < f.hi - f.lo,
        f.sound(old(out)@),
    ensures
        final(out)@ == old(out)@ + f.pair_candidates(b as int, f.lo + i),
        f.sound(final(out)@),
{
    let ghost before = out@;
    let n: usize = desk.lo + i;
    let base = Idx(b as u32);
    let branch = Idx(n as u32);
    proof {
        assert(desk.branch_open@[n - f.lo] == f.branch_open(n as int));
        assert(desk.branch_still@[n - f.lo] == f.branch_still(n as int));
        assert(f.branch_open(n as int) ==> desk.branch_rank@[n - f.lo] == count(
            f.lo,
            f.hi,
            f.branch_ahead(n as int),
        ));
    }
    if is_body_pair(
        arena,
        (&desk.base_open, &desk.branch_open),
        (&desk.base_rank, &desk.branch_rank),
        desk.lo,
        b,
        i,
        Ghost(f),
    ) {
        out.push(
            Candidate {
                base,
                branch,
                stage: Stage::BodyHash,
                similarity: Ratio { part: 1, whole: 1 },
            },
        );
        proof {
            assert(out@ =~= before + f.pair_candidates(b as int, n as int));
        }
        return ;
    }
    if !desk.base_still[b] || !desk.branch_still[i] {
        proof {
            assert(out@ =~= before + f.pair_candidates(b as int, n as int));
        }
        return ;
    }
    let base_e = arena.get(base);
    let cand_e = arena.get(branch);
    if !str_eq(base_e.entity_type(), cand_e.entity_type()) || !opt_eq(
        &base_e.key.parent,
        &cand_e.key.parent,
    ) {
        proof {
            assert(out@ =~= before + f.pair_candidates(b as int, n as int));
        }
        return ;
    }
    let mine = &desk.base_tokens[b];
    let other = &desk.branch_tokens[i];
    proof {
        assert(texts(desk.branch_tokens@[n - f.lo]@) == tokens_of(f.arena[n as int]));
        distinct_lists_each_once(words(f.arena[b as int].content));
        distinct_part_is_smaller(tokens_of(f.arena[b as int]), tokens_of(f.arena[n as int]));
    }
    let inter: usize = count_shared(mine, other);
    let mine_n: usize = mine.len();
    let other_n: usize = other.len();
    let union: u128 = mine_n as u128 + other_n as u128 - inter as u128;
    let small: usize = if mine_n < other_n {
        mine_n
    } else {
        other_n
    };
    let smaller: usize = if small < 1 {
        1
    } else {
        small
    };
    let ghost bi = b as int;
    let ghost ni = n as int;
    proof {
        assert(inter == f.inter(bi, ni));
        assert(union == f.union(bi, ni));
        assert(smaller == f.smaller(bi, ni));
        assert(inter <= mine_n && inter <= other_n);
    }
    let sim = if union == 0 {
        Ratio { part: 1, whole: 1 }
    } else {
        Ratio { part: inter, whole: union }
    };
    let similar = inter > 0 && 10 * (inter as u128) >= 7 * union;
    let both_short = mine_n <= SHORT_BODY_TOKENS && other_n <= SHORT_BODY_TOKENS;
    let mostly_in = both_short && 10 * (inter as u128) >= 7 * (smaller as u128);
    let near_enough = both_short || 10 * (inter as u128) >= 3 * union;
    if similar {
        out.push(Candidate { base, branch, stage: Stage::Signature, similarity: sim });
    }
    let ghost first = out@;
    let new_name = (mostly_in || near_enough) && !is_base_name(
        arena,
        desk.nb,
        cand_e.name(),
        Ghost(f),
    );
    let contained = mostly_in && new_name && desk.shares_rare(b, i, Ghost(f));
    if contained {
        out.push(
            Candidate {
                base,
                branch,
                stage: Stage::ShortBody,
                similarity: Ratio { part: inter, whole: smaller as u128 },
            },
        );
    }
    let ghost second = out@;
    let corroborated = near_enough && new_name && desk.is_moved(
        base_e.name(),
        cand_e.name(),
        Ghost(f),
    );
    if corroborated {
        out.push(Candidate { base, branch, stage: Stage::CallSites, similarity: sim });
    }
    proof {
        assert(similar == f.similar(bi, ni));
        assert(contained == f.contained(bi, ni));
        assert(corroborated == f.corroborated(bi, ni));
        assert(out@ =~= before + f.pair_candidates(bi, ni));
    }
}

/// One side's rename pairing, taken in rank from the candidates.
///
/// `pairing` comes in carrying the identity pairs and goes out carrying those
/// and the renames. `reserved` marks the entities of the side that may not be
/// taken.
pub fn infer_renames(
    arena: &Arena,
    nb: usize,
    lo: usize,
    hi: usize,
    reserved: &Vec<bool>,
    pairing: &mut Pairing,
)
    requires
        nb <= lo <= hi <= arena@.len(),
        arena@.len() <= u32::MAX,
        reserved@.len() == hi - lo,
        old(pairing)@.len() == nb,
        within(old(pairing)@, lo as int, hi as int),
        injective(old(pairing)@),
    ensures
        final(pairing)@ == (Field {
            arena: arena@,
            nb: nb as int,
            lo: lo as int,
            hi: hi as int,
            pairing: old(pairing)@,
            reserved: reserved@,
        }).renames(),
        final(pairing)@.len() == nb,
        within(final(pairing)@, lo as int, hi as int),
        injective(final(pairing)@),
{
    let ghost f = Field {
        arena: arena@,
        nb: nb as int,
        lo: lo as int,
        hi: hi as int,
        pairing: pairing@,
        reserved: reserved@,
    };
    let desk = Desk::new(arena, nb, lo, hi, reserved, pairing, Ghost(f));
    let mut found: Vec<Candidate> = Vec::new();
    let mut b: usize = 0;
    while b < nb
        invariant
            b <= nb == f.nb,
            lo == f.lo,
            hi == f.hi,
            f.wf(),
            arena@ == f.arena,
            desk.describes(f),
            f.sound(found@),
            found@ == f.rows(b as int),
        decreases nb - b,
    {
        let mut i: usize = 0;
        proof {
            assert(f.rows(b as int) + f.row(b as int, f.lo) =~= f.rows(b as int));
        }
        while i < hi - lo
            invariant
                b < nb == f.nb,
                i <= hi - lo,
                lo == f.lo,
                hi == f.hi,
                f.wf(),
                arena@ == f.arena,
                desk.describes(f),
                f.sound(found@),
                found@ == f.rows(b as int) + f.row(b as int, f.lo + i),
            decreases hi - lo - i,
        {
            push_pair_candidates(arena, &desk, b, i, &mut found, Ghost(f));
            proof {
                let here = f.lo + i;
                assert(f.rows(b as int) + (f.row(b as int, here) + f.pair_candidates(
                    b as int,
                    here,
                )) =~= (f.rows(b as int) + f.row(b as int, here)) + f.pair_candidates(
                    b as int,
                    here,
                ));
            }
            i = i + 1;
        }
        b = b + 1;
    }
    let ghost listed = found@;
    let cs = rank_candidates(arena, found);
    proof {
        ranked_keeps_sound(f, listed);
        taking_keeps_pairs_apart(cs@, 0, f.pairing, f.lo, f.hi);
    }
    take_candidates(&cs, pairing);
}

impl Field {
    /// The candidates that a pair of entities makes are well formed and lie in
    /// the field.
    proof fn pair_candidates_are_sound(self, b: int, n: int)
        requires
            self.wf(),
            0 <= b < self.nb,
            self.lo <= n < self.hi,
        ensures
            forall|i: int|
                0 <= i < self.pair_candidates(b, n).len() ==> (#[trigger] self.pair_candidates(
                    b,
                    n,
                )[i]).base == Idx(b as u32) && self.pair_candidates(b, n)[i].branch == Idx(
                    n as u32,
                ),
    {
    }

    proof fn row_lies_in_the_field(self, b: int, n: int)
        requires
            self.wf(),
            0 <= b < self.nb,
            self.lo <= n <= self.hi,
        ensures
            forall|i: int|
                0 <= i < self.row(b, n).len() ==> (#[trigger] self.row(b, n)[i]).base.0 < self.nb
                    && self.lo <= self.row(b, n)[i].branch.0 < self.hi,
        decreases n - self.lo,
    {
        if n > self.lo {
            self.row_lies_in_the_field(b, n - 1);
            self.pair_candidates_are_sound(b, n - 1);
            let front = self.row(b, n - 1);
            let all = self.row(b, n);
            assert forall|i: int| 0 <= i < all.len() implies (#[trigger] all[i]).base.0 < self.nb
                && self.lo <= all[i].branch.0 < self.hi by {
                if i < front.len() {
                    assert(all[i] == front[i]);
                } else {
                    assert(all[i] == self.pair_candidates(b, n - 1)[i - front.len()]);
                }
            }
        }
    }

    pub proof fn rows_lie_in_the_field(self, b: int)
        requires
            self.wf(),
            0 <= b <= self.nb,
        ensures
            forall|i: int|
                0 <= i < self.rows(b).len() ==> (#[trigger] self.rows(b)[i]).base.0 < self.nb
                    && self.lo <= self.rows(b)[i].branch.0 < self.hi,
        decreases b,
    {
        if b > 0 {
            self.rows_lie_in_the_field(b - 1);
            self.row_lies_in_the_field(b - 1, self.hi);
            let front = self.rows(b - 1);
            let all = self.rows(b);
            assert forall|i: int| 0 <= i < all.len() implies (#[trigger] all[i]).base.0 < self.nb
                && self.lo <= all[i].branch.0 < self.hi by {
                if i < front.len() {
                    assert(all[i] == front[i]);
                } else {
                    assert(all[i] == self.row(b - 1, self.hi)[i - front.len()]);
                }
            }
        }
    }

    /// Rename inference pairs no branch entity twice, none outside the branch,
    /// and keeps every pair that identity made.
    pub proof fn renames_keep_pairs_apart(self)
        requires
            self.wf(),
            injective(self.pairing),
        ensures
            injective(self.renames()),
            within(self.renames(), self.lo, self.hi),
            self.renames().len() == self.nb,
            forall|b: int|
                0 <= b < self.nb && self.pairing[b] is Some ==> (#[trigger] self.renames()[b])
                    == self.pairing[b],
    {
        let listed = self.rows(self.nb);
        let cs = ranked(self.arena, listed);
        self.rows_lie_in_the_field(self.nb);
        ranking_keeps_the_candidates(self.arena, listed);
        assert forall|i: int| 0 <= i < cs.len() implies (#[trigger] cs[i]).base.0 < self.nb
            && self.lo <= cs[i].branch.0 < self.hi by {
            broadcast use vstd::seq_lib::group_to_multiset_ensures;

            assert(cs.to_multiset().count(cs[i]) > 0);
            assert(listed.to_multiset().count(cs[i]) > 0);
            assert(listed.contains(cs[i]));
            let k = choose|k: int| 0 <= k < listed.len() && listed[k] == cs[i];
            assert(listed[k].base.0 < self.nb);
        }
        taking_keeps_pairs_apart(cs, 0, self.pairing, self.lo, self.hi);
    }
}

proof fn ranked_keeps_sound(f: Field, s: Seq<Candidate>)
    requires
        f.sound(s),
    ensures
        f.sound(ranked(f.arena, s)),
    decreases s.len(),
{
    if s.len() > 0 {
        assert forall|i: int| 0 <= i < s.drop_last().len() implies (
        #[trigger] s.drop_last()[i]).wf() && s.drop_last()[i].base.0 < f.nb && f.lo
            <= s.drop_last()[i].branch.0 < f.hi by {
            assert(s.drop_last()[i] == s[i]);
        }
        ranked_keeps_sound(f, s.drop_last());
        let front = ranked(f.arena, s.drop_last());
        place_bounds(f.arena, front, s.last(), 0);
        let k = place(f.arena, front, s.last(), 0);
        let all = front.insert(k, s.last());
        assert(s[s.len() - 1].wf());
        assert forall|i: int| 0 <= i < all.len() implies (#[trigger] all[i]).wf() && all[i].base.0
            < f.nb && f.lo <= all[i].branch.0 < f.hi by {
            if i < k {
                assert(all[i] == front[i]);
            } else if i > k {
                assert(all[i] == front[i - 1]);
            }
        }
    }
}


// ---------------------------------------------------------------------------
// What the renames rest on
// ---------------------------------------------------------------------------

/// The tokens of a body, as a set.
pub open spec fn token_set(e: EntityView) -> Set<Seq<char>> {
    words(e.content).to_set()
}

/// How many different tokens the two bodies have in common.
pub open spec fn common_tokens(a: EntityView, b: EntityView) -> nat {
    token_set(a).intersect(token_set(b)).len()
}

/// How many different tokens the two bodies have together.
pub open spec fn either_s_tokens(a: EntityView, b: EntityView) -> nat {
    token_set(a).union(token_set(b)).len()
}

proof fn tokens_are_a_set(e: EntityView)
    ensures
        tokens_of(e).no_duplicates(),
        tokens_of(e).to_set() == token_set(e),
        token_set(e).finite(),
        tokens_of(e).len() == token_set(e).len(),
{
    distinct_lists_each_once(words(e.content));
    assert forall|x: Seq<char>| tokens_of(e).to_set().contains(x) == token_set(e).contains(x) by {
        assert(distinct(words(e.content)).contains(x) <==> words(e.content).contains(x));
    }
    assert(tokens_of(e).to_set() =~= token_set(e));
    tokens_of(e).unique_seq_to_set();
    words(e.content).lemma_cardinality_of_set();
}

proof fn overlaps_are_of_sets(f: Field, b: int, n: int)
    ensures
        f.inter(b, n) == common_tokens(f.arena[b], f.arena[n]),
        f.union(b, n) == either_s_tokens(f.arena[b], f.arena[n]),
{
    let (x, y) = (f.arena[b], f.arena[n]);
    tokens_are_a_set(x);
    tokens_are_a_set(y);
    let (a, c) = (tokens_of(x), tokens_of(y));
    shared_is_an_intersection(a, c, a.len() as int);
    assert(a.take(a.len() as int) =~= a);
    vstd::set_lib::lemma_set_intersect_union_lens(token_set(x), token_set(y));
}

proof fn listed_are_pairs(f: Field, b: int, k: int)
    requires
        f.wf(),
        0 <= b <= f.nb,
        0 <= k < f.rows(b).len(),
    ensures
        ({
            let c = f.rows(b)[k];
            &&& c.base.0 < b
            &&& f.lo <= c.branch.0 < f.hi
            &&& f.pair_candidates(c.base.0 as int, c.branch.0 as int).contains(c)
        }),
    decreases b,
{
    if b > 0 {
        let front = f.rows(b - 1);
        if k < front.len() {
            listed_are_pairs(f, b - 1, k);
            assert(f.rows(b)[k] == front[k]);
        } else {
            a_row_is_of_pairs(f, b - 1, f.hi, k - front.len());
            assert(f.rows(b)[k] == f.row(b - 1, f.hi)[k - front.len()]);
        }
    }
}

proof fn a_row_is_of_pairs(f: Field, b: int, n: int, k: int)
    requires
        f.wf(),
        0 <= b < f.nb,
        f.lo <= n <= f.hi,
        0 <= k < f.row(b, n).len(),
    ensures
        ({
            let c = f.row(b, n)[k];
            &&& c.base.0 == b
            &&& f.lo <= c.branch.0 < n
            &&& f.pair_candidates(b, c.branch.0 as int).contains(c)
        }),
    decreases n - f.lo,
{
    if n > f.lo {
        let front = f.row(b, n - 1);
        if k < front.len() {
            a_row_is_of_pairs(f, b, n - 1, k);
            assert(f.row(b, n)[k] == front[k]);
        } else {
            f.pair_candidates_are_sound(b, n - 1);
            let here = f.pair_candidates(b, n - 1);
            assert(f.row(b, n)[k] == here[k - front.len()]);
            assert(here.contains(here[k - front.len()]));
        }
    }
}

proof fn pairs_are_in_a_row(f: Field, b: int, n: int, m: int, c: Candidate)
    requires
        f.lo <= m < n,
        f.pair_candidates(b, m).contains(c),
    ensures
        f.row(b, n).contains(c),
    decreases n - f.lo,
{
    let front = f.row(b, n - 1);
    let all = f.row(b, n);
    if m == n - 1 {
        let here = f.pair_candidates(b, m);
        let i = choose|i: int| 0 <= i < here.len() && here[i] == c;
        assert(all[front.len() + i] == c);
    } else {
        pairs_are_in_a_row(f, b, n - 1, m, c);
        let i = choose|i: int| 0 <= i < front.len() && front[i] == c;
        assert(all[i] == c);
    }
}

proof fn pairs_are_listed(f: Field, k: int, b: int, m: int, c: Candidate)
    requires
        0 <= b < k,
        f.lo <= m < f.hi,
        f.pair_candidates(b, m).contains(c),
    ensures
        f.rows(k).contains(c),
    decreases k,
{
    let front = f.rows(k - 1);
    let all = f.rows(k);
    if b == k - 1 {
        pairs_are_in_a_row(f, b, f.hi, m, c);
        let here = f.row(b, f.hi);
        let i = choose|i: int| 0 <= i < here.len() && here[i] == c;
        assert(all[front.len() + i] == c);
    } else {
        pairs_are_listed(f, k - 1, b, m, c);
        let i = choose|i: int| 0 <= i < front.len() && front[i] == c;
        assert(all[i] == c);
    }
}

proof fn ranking_lists_the_same(arena: Seq<EntityView>, s: Seq<Candidate>, c: Candidate)
    ensures
        ranked(arena, s).contains(c) <==> s.contains(c),
{
    broadcast use vstd::seq_lib::group_to_multiset_ensures;

    ranking_keeps_the_candidates(arena, s);
    assert(ranked(arena, s).to_multiset().count(c) == s.to_multiset().count(c));
}

/// The candidate that gave the base entity its partner.
proof fn the_candidate_taken(cs: Seq<Candidate>, k: int, p: Seq<Option<(Idx, Link)>>, b: int) -> (i:
    int)
    requires
        0 <= k,
        0 <= b < p.len(),
        p[b] is None,
        taken(cs, k, p)[b] is Some,
        forall|i: int| 0 <= i < cs.len() ==> (#[trigger] cs[i]).base.0 < p.len(),
    ensures
        k <= i < cs.len(),
        cs[i].base.0 == b,
        taken(cs, k, p)[b] == Some((cs[i].branch, cs[i].link_of())),
    decreases cs.len() - k,
{
    if k >= cs.len() {
        k
    } else {
        let c = cs[k];
        if p[c.base.0 as int] is Some || paired(p, c.branch) {
            the_candidate_taken(cs, k + 1, p, b)
        } else {
            let q = p.update(c.base.0 as int, Some((c.branch, c.link_of())));
            if c.base.0 == b {
                a_pair_stays(cs, k + 1, q, b);
                k
            } else {
                the_candidate_taken(cs, k + 1, q, b)
            }
        }
    }
}

proof fn a_pair_stays(cs: Seq<Candidate>, k: int, p: Seq<Option<(Idx, Link)>>, b: int)
    requires
        0 <= k,
        0 <= b < p.len(),
        p[b] is Some,
        forall|i: int| 0 <= i < cs.len() ==> (#[trigger] cs[i]).base.0 < p.len(),
    ensures
        taken(cs, k, p)[b] == p[b],
    decreases cs.len() - k,
{
    if k < cs.len() {
        let c = cs[k];
        if p[c.base.0 as int] is Some || paired(p, c.branch) {
            a_pair_stays(cs, k + 1, p, b);
        } else {
            a_pair_stays(cs, k + 1, p.update(c.base.0 as int, Some((c.branch, c.link_of()))), b);
        }
    }
}

/// The candidate that was taken in place of the `i`th, or the `i`th itself.
proof fn what_was_taken_instead(
    cs: Seq<Candidate>,
    k: int,
    p: Seq<Option<(Idx, Link)>>,
    i: int,
) -> (j: int)
    requires
        0 <= k <= i < cs.len(),
        p[cs[i].base.0 as int] is None,
        !paired(p, cs[i].branch),
        forall|i: int| 0 <= i < cs.len() ==> (#[trigger] cs[i]).base.0 < p.len(),
    ensures
        k <= j <= i,
        cs[j].base == cs[i].base || cs[j].branch == cs[i].branch,
        taken(cs, k, p)[cs[j].base.0 as int] == Some((cs[j].branch, cs[j].link_of())),
    decreases cs.len() - k,
{
    let c = cs[k];
    if p[c.base.0 as int] is Some || paired(p, c.branch) {
        what_was_taken_instead(cs, k + 1, p, i)
    } else {
        let q = p.update(c.base.0 as int, Some((c.branch, c.link_of())));
        if c.base == cs[i].base || c.branch == cs[i].branch {
            a_pair_stays(cs, k + 1, q, c.base.0 as int);
            k
        } else {
            assert(!paired(q, cs[i].branch)) by {
                if paired(q, cs[i].branch) {
                    let b = choose|b: int|
                        0 <= b < q.len() && leads_to(#[trigger] q[b], cs[i].branch);
                    if b != c.base.0 {
                        assert(leads_to(p[b], cs[i].branch));
                    }
                }
            }
            what_was_taken_instead(cs, k + 1, q, i)
        }
    }
}

impl Field {
    /// Nothing else of the field that is still open, on its side, has the body.
    pub open spec fn only_body(self, b: int, n: int) -> bool {
        &&& forall|x: int|
            #![trigger self.arena[x]]
            self.base_open(x) && x != b ==> self.arena[x].body_hash != self.arena[b].body_hash
        &&& forall|x: int|
            #![trigger self.arena[x]]
            self.branch_open(x) && x != n ==> self.arena[x].body_hash != self.arena[n].body_hash
    }

    /// The two bodies have at most twelve tokens each.
    pub open spec fn both_short(self, b: int, n: int) -> bool {
        token_set(self.arena[b]).len() <= 12 && token_set(self.arena[n]).len() <= 12
    }

    /// An entity that kept its key called the one name, and calls the other one instead.
    pub open spec fn call_moved(self, x: int, from: Seq<char>, to: Seq<char>) -> bool {
        let pair = self.pairing[x]->0;
        let (was, is) = (self.arena[x].content, self.arena[pair.0.0 as int].content);
        &&& self.pairing[x] is Some
        &&& pair.1 is Identity
        &&& calls(was, from) && !calls(is, from)
        &&& calls(is, to) && !calls(was, to)
    }

    /// A rename rests on evidence. It joins an entity that lost its key to one that no
    /// key and no reservation speaks for, both of one type; and either the bodies are
    /// identical, or the two have one parent and: seven tenths of the tokens in common;
    /// or short bodies, a new name and seven tenths of the smaller body in the other; or
    /// a new name and a caller that moved from the old name to the new one, with short
    /// bodies or three tenths of the tokens in common.
    pub proof fn a_rename_rests_on_evidence(self, b: int)
        requires
            self.wf(),
            0 <= b < self.nb,
            self.pairing[b] is None,
            self.renames()[b] is Some,
        ensures
            ({
                let pair = self.renames()[b]->0;
                let n = pair.0.0 as int;
                let (e, f) = (self.arena[b], self.arena[n]);
                let is_new = forall|x: int|
                    0 <= x < self.nb ==> (#[trigger] self.arena[x]).key.name != f.key.name;
                &&& self.lo <= n < self.hi
                &&& forall|x: int| 0 <= x < self.nb ==> !leads_to(#[trigger] self.pairing[x], pair.0)
                &&& !self.reserved[n - self.lo]
                &&& e.key.entity_type == f.key.entity_type
                &&& match pair.1 {
                    Link::BodyHash => e.body_hash == f.body_hash,
                    Link::Signature { .. } => {
                        &&& e.key.parent == f.key.parent
                        &&& common_tokens(e, f) > 0
                        &&& 10 * common_tokens(e, f) >= 7 * either_s_tokens(e, f) || {
                            &&& self.both_short(b, n)
                            &&& is_new
                            &&& 10 * common_tokens(e, f) >= 7 * token_set(e).len() || 10
                                * common_tokens(e, f) >= 7 * token_set(f).len()
                        }
                    },
                    Link::CallSiteCorroborated { .. } => {
                        &&& e.key.parent == f.key.parent
                        &&& is_new
                        &&& exists|x: int|
                            0 <= x < self.nb && #[trigger] self.call_moved(
                                x,
                                e.key.name,
                                f.key.name,
                            )
                        &&& self.both_short(b, n) || 10 * common_tokens(e, f) >= 3
                            * either_s_tokens(e, f)
                    },
                    _ => false,
                }
            }),
    {
        let listed = self.rows(self.nb);
        let cs = ranked(self.arena, listed);
        assert forall|i: int| 0 <= i < cs.len() implies (#[trigger] cs[i]).base.0 < self.nb by {
            assert(cs.contains(cs[i]));
            ranking_lists_the_same(self.arena, listed, cs[i]);
            let k = choose|k: int| 0 <= k < listed.len() && listed[k] == cs[i];
            listed_are_pairs(self, self.nb, k);
        }
        let i = the_candidate_taken(cs, 0, self.pairing, b);
        assert(cs.contains(cs[i]));
        ranking_lists_the_same(self.arena, listed, cs[i]);
        let k = choose|k: int| 0 <= k < listed.len() && listed[k] == cs[i];
        listed_are_pairs(self, self.nb, k);
        let n = cs[i].branch.0 as int;
        let here = self.pair_candidates(b, n);
        let m = choose|m: int| 0 <= m < here.len() && here[m] == cs[i];
        overlaps_are_of_sets(self, b, n);
        tokens_are_a_set(self.arena[b]);
        tokens_are_a_set(self.arena[n]);
        if cs[i].stage is ShortBody {
            assert(self.contained(b, n));
            let w = choose|w: int|
                0 <= w < tokens_of(self.arena[b]).len() && tokens_of(self.arena[n]).contains(
                    #[trigger] tokens_of(self.arena[b])[w],
                ) && self.rare(tokens_of(self.arena[b])[w]);
            let t = tokens_of(self.arena[b])[w];
            let both = token_set(self.arena[b]).intersect(token_set(self.arena[n]));
            assert(tokens_of(self.arena[b]).to_set().contains(t));
            assert(both.contains(t));
            assert(both.len() > 0) by {
                if both.len() == 0 {
                    assert(both =~= Set::empty());
                }
            }
        }
        if cs[i].stage is CallSites {
            assert(self.corroborated(b, n));
            let (from, to) = (self.arena[b].key.name, self.arena[n].key.name);
            let x = choose|x: int|
                0 <= x < self.nb && #[trigger] self.dropped(x, from) && self.gained(x, to);
            assert(self.call_moved(x, from, to));
        }
        assert forall|x: int| 0 <= x < self.nb implies !leads_to(
            #[trigger] self.pairing[x],
            cs[i].branch,
        ) by {
            assert(!paired(self.pairing, Idx(n as u32)));
            assert(Idx(n as u32) == cs[i].branch);
        }
        assert(!self.base_named(self.arena[n].key.name) ==> forall|x: int|
            0 <= x < self.nb ==> (#[trigger] self.arena[x]).key.name != self.arena[n].key.name);
    }

    /// Evidence is not passed over. A pair of entities that something speaks for comes to
    /// be, or one of the two goes to another that something speaks for.
    pub proof fn evidence_is_not_passed_over(self, b: int, n: int)
        requires
            self.wf(),
            0 <= b < self.nb,
            self.lo <= n < self.hi,
            self.body_pair(b, n) || self.similar(b, n) || self.contained(b, n)
                || self.corroborated(b, n),
        ensures
            self.renames()[b] is Some || paired(self.renames(), Idx(n as u32)),
    {
        let here = self.pair_candidates(b, n);
        assert(here.len() > 0);
        assert(here.contains(here[0]));
        let _ = self.what_beat(b, n, here[0]);
    }

    /// The candidate that took its pair before `c` could, or `c` itself.
    proof fn what_beat(self, b: int, n: int, c: Candidate) -> (d: Candidate)
        requires
            self.wf(),
            0 <= b < self.nb,
            self.lo <= n < self.hi,
            self.pair_candidates(b, n).contains(c),
        ensures
            self.rows(self.nb).contains(d),
            d.base.0 < self.nb,
            d.base.0 == b || d.branch.0 == n,
            self.renames().len() == self.nb,
            self.renames()[d.base.0 as int] == Some((d.branch, d.link_of())),
            self.renames()[b] is Some || paired(self.renames(), Idx(n as u32)),
    {
        let listed = self.rows(self.nb);
        let cs = ranked(self.arena, listed);
        assert forall|i: int| 0 <= i < cs.len() implies (#[trigger] cs[i]).base.0 < self.nb by {
            assert(cs.contains(cs[i]));
            ranking_lists_the_same(self.arena, listed, cs[i]);
            let k = choose|k: int| 0 <= k < listed.len() && listed[k] == cs[i];
            listed_are_pairs(self, self.nb, k);
        }
        self.pair_candidates_are_sound(b, n);
        assert(c.base == Idx(b as u32) && c.branch == Idx(n as u32));
        pairs_are_listed(self, self.nb, b, n, c);
        ranking_lists_the_same(self.arena, listed, c);
        let i = choose|i: int| 0 <= i < cs.len() && cs[i] == c;
        let j = what_was_taken_instead(cs, 0, self.pairing, i);
        assert(cs.contains(cs[j]));
        ranking_lists_the_same(self.arena, listed, cs[j]);
        taking_keeps_the_length(cs, 0, self.pairing);
        if cs[j].base.0 != b {
            assert(leads_to(self.renames()[cs[j].base.0 as int], Idx(n as u32)));
        }
        cs[j]
    }

    /// A body that moved to a new key unchanged is found: where one entity of base lost
    /// its key, one of the side is new, both are of one type and have one body, and
    /// nothing else open has that body, the one became the other.
    pub proof fn an_unchanged_body_is_followed(self, b: int, n: int)
        requires
            self.wf(),
            self.base_open(b),
            self.branch_open(n),
            self.arena[b].body_hash == self.arena[n].body_hash,
            self.arena[b].key.entity_type == self.arena[n].key.entity_type,
            self.only_body(b, n),
        ensures
            self.renames()[b] == Some((Idx(n as u32), Link::BodyHash)),
    {
        assert forall|x: int| #[trigger] self.base_ahead(b)(x) implies false by {
            key_before_total(self.arena[b].key, self.arena[b].key);
            assert(self.arena[x] == self.arena[x]);
        }
        assert forall|x: int| #[trigger] self.branch_ahead(n)(x) implies false by {
            key_before_total(self.arena[n].key, self.arena[n].key);
            assert(self.arena[x] == self.arena[x]);
        }
        nothing_to_count(0, self.nb, self.base_ahead(b));
        nothing_to_count(self.lo, self.hi, self.branch_ahead(n));
        assert(self.body_pair(b, n));
        let here = self.pair_candidates(b, n);
        assert(here.contains(here[0]));
        let d = self.what_beat(b, n, here[0]);
        let listed = self.rows(self.nb);
        let k = choose|k: int| 0 <= k < listed.len() && listed[k] == d;
        listed_are_pairs(self, self.nb, k);
        let (db, dn) = (d.base.0 as int, d.branch.0 as int);
        let theirs = self.pair_candidates(db, dn);
        let m = choose|m: int| 0 <= m < theirs.len() && theirs[m] == d;
        assert(self.arena[db] == self.arena[db] && self.arena[dn] == self.arena[dn]);
        assert(self.body_pair(db, dn));
        assert(db == b && dn == n);
        assert(d.branch == Idx(n as u32));
    }
}

proof fn taking_keeps_the_length(cs: Seq<Candidate>, k: int, p: Seq<Option<(Idx, Link)>>)
    requires
        0 <= k,
        forall|i: int| 0 <= i < cs.len() ==> (#[trigger] cs[i]).base.0 < p.len(),
    ensures
        taken(cs, k, p).len() == p.len(),
    decreases cs.len() - k,
{
    if k < cs.len() {
        let c = cs[k];
        if p[c.base.0 as int] is Some || paired(p, c.branch) {
            taking_keeps_the_length(cs, k + 1, p);
        } else {
            taking_keeps_the_length(
                cs,
                k + 1,
                p.update(c.base.0 as int, Some((c.branch, c.link_of()))),
            );
        }
    }
}

proof fn nothing_to_count(lo: int, hi: int, p: spec_fn(int) -> bool)
    requires
        forall|x: int| !#[trigger] p(x),
    ensures
        count(lo, hi, p) == 0,
    decreases hi - lo,
{
    if hi > lo {
        nothing_to_count(lo, hi - 1, p);
    }
}

} // verus!
