//! Placement, decided once: the order of what survives is shared by both sides,
//! and what a side adds stands behind the nearest survivor it was written after.
//!
//! Nothing here asks which side is ours, but where both sides moved what they share
//! and order has a meaning: there, no order satisfies both.

use vstd::prelude::*;

verus! {

/// What can be placed: a value that is told apart by its view.
pub trait Keyed: View + Sized {
    /// Are the two the same?
    fn same_as(&self, other: &Self) -> (r: bool)
        ensures
            r == (self@ == other@),
    ;

    /// A second one with the same view.
    fn twin(&self) -> (r: Self)
        ensures
            r@ == self@,
    ;
}

impl Keyed for usize {
    fn same_as(&self, other: &usize) -> (r: bool) {
        *self == *other
    }

    fn twin(&self) -> (r: usize) {
        *self
    }
}

/// The views of a list.
pub open spec fn views<K: View>(v: Seq<K>) -> Seq<K::V> {
    v.map_values(|k: K| k@)
}

/// The first place of an element, at or after `i`.
pub open spec fn place_of<T>(v: Seq<T>, x: T, i: int) -> Option<int>
    decreases v.len() - i,
{
    if i < 0 || i >= v.len() {
        None
    } else if v[i] == x {
        Some(i)
    } else {
        place_of(v, x, i + 1)
    }
}

/// What [`place_of`] finds: the first place, or that there is none.
pub proof fn place_of_is_first<T>(v: Seq<T>, x: T, i: int)
    requires
        0 <= i,
    ensures
        match place_of(v, x, i) {
            Some(p) => i <= p < v.len() && v[p] == x && forall|k: int| i <= k < p ==> v[k] != x,
            None => forall|k: int| i <= k < v.len() ==> v[k] != x,
        },
    decreases v.len() - i,
{
    if i < v.len() && v[i] != x {
        place_of_is_first(v, x, i + 1);
    }
}

/// Does the list hold the element?
pub proof fn place_of_is_contains<T>(v: Seq<T>, x: T)
    ensures
        place_of(v, x, 0) is Some <==> v.contains(x),
{
    place_of_is_first(v, x, 0);
}

pub(crate) fn find_place<K: Keyed>(v: &Vec<K>, x: &K) -> (r: Option<usize>)
    ensures
        match r {
            Some(p) => place_of(views(v@), x@, 0) == Some(p as int) && p < v@.len(),
            None => place_of(views(v@), x@, 0) is None,
        },
{
    let ghost all = views(v@);
    let mut i: usize = 0;
    while i < v.len()
        invariant
            i <= v@.len(),
            all == views(v@),
            place_of(all, x@, i as int) == place_of(all, x@, 0),
        decreases v@.len() - i,
    {
        proof {
            assert(all[i as int] == v@[i as int]@);
        }
        if v[i].same_as(x) {
            return Some(i);
        }
        i = i + 1;
    }
    None
}

pub(crate) fn holds<K: Keyed>(v: &Vec<K>, x: &K) -> (r: bool)
    ensures
        r == views(v@).contains(x@),
{
    proof {
        place_of_is_contains(views(v@), x@);
    }
    find_place(v, x).is_some()
}

pub(crate) fn twins<K: Keyed>(v: &Vec<K>) -> (r: Vec<K>)
    ensures
        views(r@) == views(v@),
{
    let mut out: Vec<K> = Vec::new();
    let mut i: usize = 0;
    while i < v.len()
        invariant
            i <= v@.len(),
            out@.len() == i,
            forall|k: int| 0 <= k < i ==> (#[trigger] out@[k])@ == v@[k]@,
        decreases v@.len() - i,
    {
        out.push(v[i].twin());
        i = i + 1;
    }
    proof {
        assert(views(out@) =~= views(v@));
    }
    out
}

/// The elements of the first list that the second holds too.
pub open spec fn kept<T>(v: Seq<T>, keep: Seq<T>) -> Seq<T>
    decreases v.len(),
{
    if v.len() == 0 {
        Seq::empty()
    } else if keep.contains(v.last()) {
        kept(v.drop_last(), keep).push(v.last())
    } else {
        kept(v.drop_last(), keep)
    }
}

pub(crate) fn keep<K: Keyed>(v: &Vec<K>, wanted: &Vec<K>) -> (r: Vec<K>)
    ensures
        views(r@) == kept(views(v@), views(wanted@)),
{
    let ghost all = views(v@);
    let ghost want = views(wanted@);
    let mut out: Vec<K> = Vec::new();
    let mut i: usize = 0;
    proof {
        assert(all.take(0) =~= Seq::empty());
        assert(views(out@) =~= kept(all.take(0), want));
    }
    while i < v.len()
        invariant
            i <= v@.len(),
            all == views(v@),
            want == views(wanted@),
            views(out@) == kept(all.take(i as int), want),
        decreases v@.len() - i,
    {
        proof {
            assert(all[i as int] == v@[i as int]@);
            assert(all.take(i + 1).drop_last() =~= all.take(i as int));
            assert(all.take(i + 1).last() == all[i as int]);
        }
        if holds(wanted, &v[i]) {
            let ghost held = views(out@);
            out.push(v[i].twin());
            proof {
                assert(views(out@) =~= held.push(all[i as int]));
            }
        }
        i = i + 1;
    }
    proof {
        assert(all.take(v@.len() as int) =~= all);
    }
    out
}

pub(crate) fn same_list<K: Keyed>(a: &Vec<K>, b: &Vec<K>) -> (r: bool)
    ensures
        r == (views(a@) == views(b@)),
{
    let ghost av = views(a@);
    let ghost bv = views(b@);
    if a.len() != b.len() {
        proof {
            assert(av.len() != bv.len());
        }
        return false;
    }
    let mut i: usize = 0;
    while i < a.len()
        invariant
            i <= a@.len() == b@.len(),
            av == views(a@),
            bv == views(b@),
            forall|k: int| 0 <= k < i ==> #[trigger] av[k] == bv[k],
        decreases a@.len() - i,
    {
        proof {
            assert(av[i as int] == a@[i as int]@);
            assert(bv[i as int] == b@[i as int]@);
        }
        if !a[i].same_as(&b[i]) {
            return false;
        }
        i = i + 1;
    }
    proof {
        assert(av =~= bv);
    }
    true
}

// ---------------------------------------------------------------------------
// The union of two sequences
// ---------------------------------------------------------------------------

/// Both sequences walked at once, from `i` and `j` on, with `out` already emitted.
/// An element only one of them has goes where that one put it; an element both have
/// goes where they agree. Two heads that both have in opposite order are a
/// disagreement, and the first sequence's goes first.
pub open spec fn walk<T>(a: Seq<T>, b: Seq<T>, i: int, j: int, out: Seq<T>) -> (Seq<T>, bool)
    decreases (a.len() - i) + (b.len() - j),
    when 0 <= i <= a.len() && 0 <= j <= b.len()
{
    if i < a.len() && out.contains(a[i]) {
        walk(a, b, i + 1, j, out)
    } else if j < b.len() && out.contains(b[j]) {
        walk(a, b, i, j + 1, out)
    } else if i >= a.len() && j >= b.len() {
        (out, false)
    } else if i >= a.len() {
        walk(a, b, i, j + 1, out.push(b[j]))
    } else if j >= b.len() || a[i] == b[j] || !b.contains(a[i]) {
        walk(a, b, i + 1, j, out.push(a[i]))
    } else if !a.contains(b[j]) {
        walk(a, b, i, j + 1, out.push(b[j]))
    } else {
        (walk(a, b, i + 1, j, out.push(a[i])).0, true)
    }
}

/// The order-preserving union of two sequences, and whether they disagree.
pub open spec fn union_of<T>(a: Seq<T>, b: Seq<T>) -> (Seq<T>, bool) {
    walk(a, b, 0, 0, Seq::empty())
}

proof fn walk_holds_each_once<T>(a: Seq<T>, b: Seq<T>, i: int, j: int, out: Seq<T>)
    requires
        0 <= i <= a.len(),
        0 <= j <= b.len(),
        out.no_duplicates(),
        forall|k: int| 0 <= k < i ==> out.contains(#[trigger] a[k]),
        forall|k: int| 0 <= k < j ==> out.contains(#[trigger] b[k]),
        forall|x: T| #[trigger] out.contains(x) ==> a.contains(x) || b.contains(x),
    ensures
        walk(a, b, i, j, out).0.no_duplicates(),
        forall|x: T| #[trigger]
            walk(a, b, i, j, out).0.contains(x) <==> a.contains(x) || b.contains(x),
    decreases (a.len() - i) + (b.len() - j),
{
    if i < a.len() && out.contains(a[i]) {
        walk_holds_each_once(a, b, i + 1, j, out);
    } else if j < b.len() && out.contains(b[j]) {
        walk_holds_each_once(a, b, i, j + 1, out);
    } else if i >= a.len() && j >= b.len() {
        assert forall|x: T| a.contains(x) || b.contains(x) implies #[trigger] out.contains(x) by {
        }
    } else {
        let takes_b = i >= a.len() || !(j >= b.len() || a[i] == b[j] || !b.contains(a[i]))
            && !a.contains(b[j]);
        let x = if takes_b {
            b[j]
        } else {
            a[i]
        };
        let more = out.push(x);
        assert(!out.contains(x));
        assert forall|y: T| #[trigger] more.contains(y) <==> out.contains(y) || y == x by {
            if out.contains(y) {
                let k = choose|k: int| 0 <= k < out.len() && out[k] == y;
                assert(more[k] == y);
            }
            assert(more[out.len() as int] == x);
        }
        assert(more.no_duplicates());
        assert(a.contains(x) || b.contains(x));
        if takes_b {
            walk_holds_each_once(a, b, i, j + 1, more);
        } else {
            walk_holds_each_once(a, b, i + 1, j, more);
        }
    }
}

/// The union of two sequences holds each element of either exactly once.
pub proof fn a_union_holds_each_once<T>(a: Seq<T>, b: Seq<T>)
    ensures
        union_of(a, b).0.no_duplicates(),
        forall|x: T| #[trigger] union_of(a, b).0.contains(x) <==> a.contains(x) || b.contains(x),
{
    walk_holds_each_once(a, b, 0, 0, Seq::empty());
}

/// Order-preserving union of two asserted sequences, and whether they give what
/// they share contradictory order.
pub fn order_preserving_union<K: Keyed>(ours: &Vec<K>, theirs: &Vec<K>) -> (r: (Vec<K>, bool))
    ensures
        (views(r.0@), r.1) == union_of(views(ours@), views(theirs@)),
{
    let ghost a = views(ours@);
    let ghost b = views(theirs@);
    let mut out: Vec<K> = Vec::new();
    let mut disagreement = false;
    let mut i: usize = 0;
    let mut j: usize = 0;
    proof {
        assert(views(out@) =~= Seq::empty());
    }
    while i < ours.len() || j < theirs.len()
        invariant
            i <= ours@.len() == a.len(),
            j <= theirs@.len() == b.len(),
            a == views(ours@),
            b == views(theirs@),
            union_of(a, b).0 == walk(a, b, i as int, j as int, views(out@)).0,
            union_of(a, b).1 == (disagreement || walk(a, b, i as int, j as int, views(out@)).1),
        decreases (ours@.len() - i) + (theirs@.len() - j),
    {
        let ghost held = views(out@);
        if i < ours.len() {
            proof {
                assert(a[i as int] == ours@[i as int]@);
            }
            if holds(&out, &ours[i]) {
                i = i + 1;
                continue ;
            }
        }
        if j < theirs.len() {
            proof {
                assert(b[j as int] == theirs@[j as int]@);
            }
            if holds(&out, &theirs[j]) {
                j = j + 1;
                continue ;
            }
        }
        if i >= ours.len() {
            out.push(theirs[j].twin());
            proof {
                assert(views(out@) =~= held.push(b[j as int]));
            }
            j = j + 1;
        } else if j >= theirs.len() || ours[i].same_as(&theirs[j]) || !holds(theirs, &ours[i]) {
            out.push(ours[i].twin());
            proof {
                assert(views(out@) =~= held.push(a[i as int]));
            }
            i = i + 1;
        } else if !holds(ours, &theirs[j]) {
            out.push(theirs[j].twin());
            proof {
                assert(views(out@) =~= held.push(b[j as int]));
            }
            j = j + 1;
        } else {
            disagreement = true;
            out.push(ours[i].twin());
            proof {
                assert(views(out@) =~= held.push(a[i as int]));
            }
            i = i + 1;
        }
    }
    (out, disagreement)
}

// ---------------------------------------------------------------------------
// The coordinate
// ---------------------------------------------------------------------------

/// Did the side move what it still has, against base's order of that same set?
pub open spec fn moved<T>(base: Seq<T>, side: Seq<T>) -> bool {
    side != kept(base, side)
}

/// The order of what survives, and whether the sides contradict each other. Exactly
/// one side that moved something is followed. Where both did, their assertions are
/// combined if order has a meaning, and base's order stands if it has none.
pub open spec fn asserted<T>(
    base: Seq<T>,
    ours: Seq<T>,
    theirs: Seq<T>,
    effectful: bool,
) -> (Seq<T>, bool) {
    if moved(base, ours) && moved(base, theirs) {
        if effectful {
            union_of(ours, theirs)
        } else {
            (base, false)
        }
    } else if moved(base, theirs) {
        (theirs, false)
    } else if moved(base, ours) {
        (ours, false)
    } else {
        (base, false)
    }
}

/// The shared coordinate: the asserted order, with what it does not mention put
/// back into its base neighbourhood.
pub open spec fn coordinate<T>(
    base: Seq<T>,
    ours: Seq<T>,
    theirs: Seq<T>,
    effectful: bool,
) -> Seq<T> {
    union_of(asserted(base, ours, theirs, effectful).0, base).0
}

/// The shared coordinate, and whether the sides contradict each other.
pub fn choose_coordinate<K: Keyed>(
    base: &Vec<K>,
    ours: &Vec<K>,
    theirs: &Vec<K>,
    effectful: bool,
) -> (r: (Vec<K>, bool))
    ensures
        views(r.0@) == coordinate(views(base@), views(ours@), views(theirs@), effectful),
        r.1 == asserted(views(base@), views(ours@), views(theirs@), effectful).1,
{
    let ours_moved = !same_list(ours, &keep(base, ours));
    let theirs_moved = !same_list(theirs, &keep(base, theirs));
    if ours_moved && theirs_moved {
        if effectful {
            let (both, disagree) = order_preserving_union(ours, theirs);
            (order_preserving_union(&both, base).0, disagree)
        } else {
            (order_preserving_union(base, base).0, false)
        }
    } else if theirs_moved {
        (order_preserving_union(theirs, base).0, false)
    } else if ours_moved {
        (order_preserving_union(ours, base).0, false)
    } else {
        (order_preserving_union(base, base).0, false)
    }
}

// ---------------------------------------------------------------------------
// The gaps
// ---------------------------------------------------------------------------

/// One more than the rank of the nearest survivor in front of place `p` of a side;
/// zero where none stands there.
pub open spec fn anchor_in<T>(survivors: Seq<T>, side: Seq<T>, p: int) -> int
    decreases p,
{
    if p <= 0 {
        0
    } else {
        match place_of(survivors, side[p - 1], 0) {
            Some(r) => r + 1,
            None => anchor_in(survivors, side, p - 1),
        }
    }
}

/// The gap an addition goes into: the one behind the nearest survivor it was
/// written after. Where both sides wrote it, the earlier of the two.
pub open spec fn anchor_of<T>(survivors: Seq<T>, ours: Seq<T>, theirs: Seq<T>, x: T) -> int {
    match (place_of(ours, x, 0), place_of(theirs, x, 0)) {
        (Some(p), Some(q)) => {
            let o = anchor_in(survivors, ours, p);
            let t = anchor_in(survivors, theirs, q);
            if o <= t {
                o
            } else {
                t
            }
        },
        (Some(p), None) => anchor_in(survivors, ours, p),
        (None, Some(q)) => anchor_in(survivors, theirs, q),
        (None, None) => 0,
    }
}

/// Does the side hold both, the first in front of the second?
pub open spec fn precedes<T>(side: Seq<T>, x: T, y: T) -> bool {
    match (place_of(side, x, 0), place_of(side, y, 0)) {
        (Some(p), Some(q)) => p < q,
        _ => false,
    }
}

/// Does some version put the first in front of the second, and none the second in
/// front of the first?
pub open spec fn goes_first<T>(ours: Seq<T>, theirs: Seq<T>, x: T, y: T) -> bool {
    &&& precedes(ours, x, y) || precedes(theirs, x, y)
    &&& !(precedes(ours, y, x) || precedes(theirs, y, x))
}

/// Does nothing that is left have to go in front of the `i`th?
pub open spec fn is_free<T>(left: Seq<T>, ours: Seq<T>, theirs: Seq<T>, i: int) -> bool {
    forall|u: int| 0 <= u < left.len() ==> !goes_first(ours, theirs, #[trigger] left[u], left[i])
}

/// The first of what is left, at or after the `i`th, that nothing has to go in
/// front of.
pub open spec fn next_free<T>(left: Seq<T>, ours: Seq<T>, theirs: Seq<T>, i: int) -> Option<int>
    decreases left.len() - i,
{
    if i < 0 || i >= left.len() {
        None
    } else if is_free(left, ours, theirs, i) {
        Some(i)
    } else {
        next_free(left, ours, theirs, i + 1)
    }
}

proof fn next_free_bounds<T>(left: Seq<T>, ours: Seq<T>, theirs: Seq<T>, i: int)
    requires
        0 <= i,
    ensures
        next_free(left, ours, theirs, i) matches Some(k) ==> i <= k < left.len() && is_free(
            left,
            ours,
            theirs,
            k,
        ),
    decreases left.len() - i,
{
    if i < left.len() && !is_free(left, ours, theirs, i) {
        next_free_bounds(left, ours, theirs, i + 1);
    }
}

/// What shares one gap, in the order that some version wrote it down: repeatedly
/// the first of what is left that nothing left has to precede. Evidence that goes
/// round in a circle leaves the rest as it is.
pub open spec fn gap_order<T>(left: Seq<T>, ours: Seq<T>, theirs: Seq<T>) -> Seq<T>
    decreases left.len(),
    via gap_order_decreases::<T>
{
    match next_free(left, ours, theirs, 0) {
        Some(i) => seq![left[i]] + gap_order(left.remove(i), ours, theirs),
        None => left,
    }
}

#[via_fn]
proof fn gap_order_decreases<T>(left: Seq<T>, ours: Seq<T>, theirs: Seq<T>) {
    next_free_bounds(left, ours, theirs, 0);
}

fn is_preceding<K: Keyed>(side: &Vec<K>, x: &K, y: &K) -> (r: bool)
    ensures
        r == precedes(views(side@), x@, y@),
{
    match (find_place(side, x), find_place(side, y)) {
        (Some(p), Some(q)) => p < q,
        _ => false,
    }
}

fn is_going_first<K: Keyed>(ours: &Vec<K>, theirs: &Vec<K>, x: &K, y: &K) -> (r: bool)
    ensures
        r == goes_first(views(ours@), views(theirs@), x@, y@),
{
    (is_preceding(ours, x, y) || is_preceding(theirs, x, y)) && !(is_preceding(ours, y, x)
        || is_preceding(theirs, y, x))
}

fn find_free<K: Keyed>(left: &Vec<K>, ours: &Vec<K>, theirs: &Vec<K>) -> (r: Option<usize>)
    ensures
        match r {
            Some(i) => next_free(views(left@), views(ours@), views(theirs@), 0) == Some(i as int)
                && i < left@.len(),
            None => next_free(views(left@), views(ours@), views(theirs@), 0) is None,
        },
{
    let ghost all = views(left@);
    let ghost o = views(ours@);
    let ghost t = views(theirs@);
    let mut i: usize = 0;
    while i < left.len()
        invariant
            i <= left@.len() == all.len(),
            all == views(left@),
            o == views(ours@),
            t == views(theirs@),
            next_free(all, o, t, i as int) == next_free(all, o, t, 0),
        decreases left@.len() - i,
    {
        let mut free = true;
        let mut u: usize = 0;
        proof {
            assert(all[i as int] == left@[i as int]@);
        }
        while u < left.len()
            invariant
                u <= left@.len() == all.len(),
                i < left@.len(),
                all == views(left@),
                all[i as int] == left@[i as int]@,
                o == views(ours@),
                t == views(theirs@),
                free == (forall|k: int|
                    0 <= k < u ==> !goes_first(o, t, #[trigger] all[k], all[i as int])),
            decreases left@.len() - u,
        {
            proof {
                assert(all[u as int] == left@[u as int]@);
            }
            if is_going_first(ours, theirs, &left[u], &left[i]) {
                free = false;
            }
            u = u + 1;
        }
        if free {
            return Some(i);
        }
        i = i + 1;
    }
    None
}

/// Order what shares one gap by the order some version wrote it in.
pub fn order_within_gap<K: Keyed>(group: Vec<K>, ours: &Vec<K>, theirs: &Vec<K>) -> (r: Vec<K>)
    ensures
        views(r@) == gap_order(views(group@), views(ours@), views(theirs@)),
{
    let ghost o = views(ours@);
    let ghost t = views(theirs@);
    let ghost whole = views(group@);
    let mut left = group;
    let mut out: Vec<K> = Vec::new();
    proof {
        assert(views(out@) + gap_order(whole, o, t) =~= gap_order(whole, o, t));
    }
    loop
        invariant
            o == views(ours@),
            t == views(theirs@),
            views(out@) + gap_order(views(left@), o, t) == gap_order(whole, o, t),
        ensures
            next_free(views(left@), o, t, 0) is None,
        decreases left@.len(),
    {
        match find_free(&left, ours, theirs) {
            None => {
                break;
            },
            Some(i) => {
                let ghost held = views(out@);
                let ghost was = views(left@);
                let x = left.remove(i);
                let ghost xv = x@;
                out.push(x);
                proof {
                    assert(was[i as int] == xv);
                    assert(views(left@) =~= was.remove(i as int));
                    assert(views(out@) =~= held.push(xv));
                    let rest = gap_order(was.remove(i as int), o, t);
                    assert(held + (seq![xv] + rest) =~= held.push(xv) + rest);
                }
            },
        }
    }
    let ghost held = views(out@);
    let ghost rest = views(left@);
    let mut left = left;
    out.append(&mut left);
    proof {
        assert(views(out@) =~= held + rest);
    }
    out
}

// ---------------------------------------------------------------------------
// The placement
// ---------------------------------------------------------------------------

/// One placed item: the gap or the rank it stands at, and its place inside the gap.
pub struct Placed<K> {
    pub item: K,
    /// For a survivor one more than its rank; for an addition the gap behind the
    /// survivor of that number.
    pub gap: usize,
    pub added: bool,
    /// The place of an addition inside its gap.
    pub within: usize,
}

/// A [`Placed`] over views.
pub struct PlacedView<T> {
    pub item: T,
    pub gap: int,
    pub added: bool,
    pub within: int,
}

impl<K: View> View for Placed<K> {
    type V = PlacedView<K::V>;

    open spec fn view(&self) -> PlacedView<K::V> {
        PlacedView {
            item: self.item@,
            gap: self.gap as int,
            added: self.added,
            within: self.within as int,
        }
    }
}

/// What there is to place: the survivors in their order, those of them that are not
/// shown, the additions in the order of their keys, and what each side holds.
pub struct Sequences<T> {
    pub survivors: Seq<T>,
    pub hidden: Seq<T>,
    pub added: Seq<T>,
    pub ours: Seq<T>,
    pub theirs: Seq<T>,
}

impl<T> Sequences<T> {
    /// Those of the first `n` additions that go into a gap.
    pub open spec fn in_gap(self, gap: int, n: int) -> Seq<T>
        decreases n,
    {
        if n <= 0 {
            Seq::empty()
        } else if anchor_of(self.survivors, self.ours, self.theirs, self.added[n - 1]) == gap {
            self.in_gap(gap, n - 1).push(self.added[n - 1])
        } else {
            self.in_gap(gap, n - 1)
        }
    }

    /// The additions of a gap, in order.
    pub open spec fn gap(self, gap: int) -> Seq<T> {
        gap_order(self.in_gap(gap, self.added.len() as int), self.ours, self.theirs)
    }

    /// The additions of a gap, placed.
    pub open spec fn gap_items(self, gap: int) -> Seq<PlacedView<T>> {
        Seq::new(
            self.gap(gap).len(),
            |i: int| PlacedView { item: self.gap(gap)[i], gap, added: true, within: i },
        )
    }

    /// The survivor of a rank, placed, where it is shown.
    pub open spec fn survivor_items(self, n: int) -> Seq<PlacedView<T>> {
        if self.hidden.contains(self.survivors[n - 1]) {
            Seq::empty()
        } else {
            seq![PlacedView { item: self.survivors[n - 1], gap: n, added: false, within: 0 }]
        }
    }

    /// Everything up to the gap behind the `n`th survivor: the additions in front of
    /// all survivors, then each survivor with the additions behind it.
    pub open spec fn placed_upto(self, n: int) -> Seq<PlacedView<T>>
        decreases n,
    {
        if n <= 0 {
            self.gap_items(0)
        } else {
            self.placed_upto(n - 1) + self.survivor_items(n) + self.gap_items(n)
        }
    }

    /// The whole placement.
    pub open spec fn placed(self) -> Seq<PlacedView<T>> {
        self.placed_upto(self.survivors.len() as int)
    }

    /// With the sides exchanged.
    pub open spec fn swapped(self) -> Sequences<T> {
        Sequences { ours: self.theirs, theirs: self.ours, ..self }
    }
}

fn find_anchor_in<K: Keyed>(survivors: &Vec<K>, side: &Vec<K>, p: usize) -> (r: usize)
    requires
        p <= side@.len(),
    ensures
        r == anchor_in(views(survivors@), views(side@), p as int),
        r <= survivors@.len(),
{
    let ghost sv = views(survivors@);
    let ghost all = views(side@);
    let n: usize = survivors.len();
    let mut i: usize = p;
    while i > 0
        invariant
            i <= p <= side@.len() == all.len(),
            all == views(side@),
            sv == views(survivors@),
            n == survivors@.len(),
            anchor_in(sv, all, i as int) == anchor_in(sv, all, p as int),
        decreases i,
    {
        proof {
            assert(all[i - 1] == side@[i - 1]@);
        }
        match find_place(survivors, &side[i - 1]) {
            Some(r) => {
                return r + 1;
            },
            None => {},
        }
        i = i - 1;
    }
    0
}

fn find_anchor<K: Keyed>(survivors: &Vec<K>, ours: &Vec<K>, theirs: &Vec<K>, x: &K) -> (r: usize)
    ensures
        r == anchor_of(views(survivors@), views(ours@), views(theirs@), x@),
        r <= survivors@.len(),
{
    match (find_place(ours, x), find_place(theirs, x)) {
        (Some(p), Some(q)) => {
            let o: usize = find_anchor_in(survivors, ours, p);
            let t: usize = find_anchor_in(survivors, theirs, q);
            if o <= t {
                o
            } else {
                t
            }
        },
        (Some(p), None) => find_anchor_in(survivors, ours, p),
        (None, Some(q)) => find_anchor_in(survivors, theirs, q),
        (None, None) => 0,
    }
}

fn place_gap<K: Keyed>(
    out: &mut Vec<Placed<K>>,
    survivors: &Vec<K>,
    hidden: &Vec<K>,
    added: &Vec<K>,
    anchors: &Vec<usize>,
    ours: &Vec<K>,
    theirs: &Vec<K>,
    gap: usize,
)
    requires
        anchors@.len() == added@.len(),
        forall|k: int|
            0 <= k < added@.len() ==> (#[trigger] anchors@[k]) == anchor_of(
                views(survivors@),
                views(ours@),
                views(theirs@),
                added@[k]@,
            ),
    ensures
        views(final(out)@) == views(old(out)@) + (Sequences {
            survivors: views(survivors@),
            hidden: views(hidden@),
            added: views(added@),
            ours: views(ours@),
            theirs: views(theirs@),
        }).gap_items(gap as int),
{
    let ghost q = Sequences {
        survivors: views(survivors@),
        hidden: views(hidden@),
        added: views(added@),
        ours: views(ours@),
        theirs: views(theirs@),
    };
    let mut group: Vec<K> = Vec::new();
    let mut k: usize = 0;
    proof {
        assert(views(group@) =~= q.in_gap(gap as int, 0));
    }
    while k < added.len()
        invariant
            k <= added@.len() == anchors@.len(),
            q.added == views(added@),
            views(group@) == q.in_gap(gap as int, k as int),
            forall|m: int|
                0 <= m < added@.len() ==> (#[trigger] anchors@[m]) == anchor_of(
                    q.survivors,
                    q.ours,
                    q.theirs,
                    added@[m]@,
                ),
        decreases added@.len() - k,
    {
        proof {
            assert(q.added[k as int] == added@[k as int]@);
        }
        if anchors[k] == gap {
            let ghost held = views(group@);
            group.push(added[k].twin());
            proof {
                assert(views(group@) =~= held.push(q.added[k as int]));
            }
        }
        k = k + 1;
    }
    let ordered = order_within_gap(group, ours, theirs);
    let ghost whole = views(ordered@);
    let ghost before = views(out@);
    let n: usize = ordered.len();
    let mut within: usize = 0;
    proof {
        assert(views(out@) =~= before + q.gap_items(gap as int).take(0));
    }
    while within < n
        invariant
            within <= n,
            n == whole.len(),
            whole == q.gap(gap as int),
            n == ordered@.len(),
            whole == views(ordered@),
            views(out@) == before + q.gap_items(gap as int).take(within as int),
        decreases n - within,
    {
        let ghost held = views(out@);
        let one = Placed { item: ordered[within].twin(), gap, added: true, within };
        let ghost ov = one@;
        out.push(one);
        proof {
            let items = q.gap_items(gap as int);
            assert(whole[within as int] == ordered@[within as int]@);
            assert(ov == items[within as int]);
            assert(views(out@) =~= held.push(ov));
            assert(items.take(within + 1) =~= items.take(within as int).push(ov));
        }
        within = within + 1;
    }
    proof {
        let items = q.gap_items(gap as int);
        assert(items.take(n as int) =~= items);
    }
}

/// Place everything: the additions in front of all survivors, then each survivor
/// with the additions behind it.
pub fn place_all<K: Keyed>(
    survivors: &Vec<K>,
    hidden: &Vec<K>,
    added: &Vec<K>,
    ours: &Vec<K>,
    theirs: &Vec<K>,
) -> (r: Vec<Placed<K>>)
    ensures
        views(r@) == (Sequences {
            survivors: views(survivors@),
            hidden: views(hidden@),
            added: views(added@),
            ours: views(ours@),
            theirs: views(theirs@),
        }).placed(),
{
    let ghost q = Sequences {
        survivors: views(survivors@),
        hidden: views(hidden@),
        added: views(added@),
        ours: views(ours@),
        theirs: views(theirs@),
    };
    let mut anchors: Vec<usize> = Vec::new();
    let mut k: usize = 0;
    while k < added.len()
        invariant
            k <= added@.len(),
            anchors@.len() == k,
            forall|m: int|
                0 <= m < k ==> (#[trigger] anchors@[m]) == anchor_of(
                    views(survivors@),
                    views(ours@),
                    views(theirs@),
                    added@[m]@,
                ),
        decreases added@.len() - k,
    {
        anchors.push(find_anchor(survivors, ours, theirs, &added[k]));
        k = k + 1;
    }
    let mut out: Vec<Placed<K>> = Vec::new();
    place_gap(&mut out, survivors, hidden, added, &anchors, ours, theirs, 0);
    proof {
        assert(views(out@) =~= q.placed_upto(0));
    }
    let mut n: usize = 0;
    while n < survivors.len()
        invariant
            n <= survivors@.len(),
            q == (Sequences {
                survivors: views(survivors@),
                hidden: views(hidden@),
                added: views(added@),
                ours: views(ours@),
                theirs: views(theirs@),
            }),
            anchors@.len() == added@.len(),
            forall|m: int|
                0 <= m < added@.len() ==> (#[trigger] anchors@[m]) == anchor_of(
                    views(survivors@),
                    views(ours@),
                    views(theirs@),
                    added@[m]@,
                ),
            views(out@) == q.placed_upto(n as int),
        decreases survivors@.len() - n,
    {
        let ghost held = views(out@);
        proof {
            assert(q.survivors[n as int] == survivors@[n as int]@);
        }
        n = n + 1;
        if !holds(hidden, &survivors[n - 1]) {
            let one = Placed { item: survivors[n - 1].twin(), gap: n, added: false, within: 0 };
            let ghost ov = one@;
            out.push(one);
            proof {
                assert(views(out@) =~= held.push(ov));
                assert(views(out@) =~= held + q.survivor_items(n as int));
            }
        } else {
            proof {
                assert(views(out@) =~= held + q.survivor_items(n as int));
            }
        }
        place_gap(&mut out, survivors, hidden, added, &anchors, ours, theirs, n);
    }
    out
}

// ---------------------------------------------------------------------------
// Laws
// ---------------------------------------------------------------------------

proof fn swapped_free<T>(left: Seq<T>, ours: Seq<T>, theirs: Seq<T>, i: int)
    ensures
        next_free(left, theirs, ours, i) == next_free(left, ours, theirs, i),
    decreases left.len() - i,
{
    if 0 <= i < left.len() {
        swapped_free(left, ours, theirs, i + 1);
        assert(is_free(left, theirs, ours, i) == is_free(left, ours, theirs, i)) by {
            assert forall|u: int| 0 <= u < left.len() implies goes_first(
                theirs,
                ours,
                #[trigger] left[u],
                left[i],
            ) == goes_first(ours, theirs, left[u], left[i]) by {
            }
        }
    }
}

/// The order inside a gap does not depend on which side is ours.
pub proof fn gap_order_is_symmetric<T>(left: Seq<T>, ours: Seq<T>, theirs: Seq<T>)
    ensures
        gap_order(left, theirs, ours) == gap_order(left, ours, theirs),
    decreases left.len(),
{
    swapped_free(left, ours, theirs, 0);
    next_free_bounds(left, ours, theirs, 0);
    if let Some(i) = next_free(left, ours, theirs, 0) {
        gap_order_is_symmetric(left.remove(i), ours, theirs);
    }
}

proof fn swapped_in_gap<T>(q: Sequences<T>, gap: int, n: int)
    ensures
        q.swapped().in_gap(gap, n) == q.in_gap(gap, n),
    decreases n,
{
    if n > 0 {
        swapped_in_gap(q, gap, n - 1);
    }
}

proof fn swapped_upto<T>(q: Sequences<T>, n: int)
    ensures
        q.swapped().placed_upto(n) == q.placed_upto(n),
    decreases n,
{
    swapped_in_gap(
        q,
        if n > 0 {
            n
        } else {
            0
        },
        q.added.len() as int,
    );
    let g = if n > 0 {
        n
    } else {
        0
    };
    gap_order_is_symmetric(q.in_gap(g, q.added.len() as int), q.ours, q.theirs);
    assert(q.swapped().gap(g) == q.gap(g));
    assert(q.swapped().gap_items(g) =~= q.gap_items(g));
    if n > 0 {
        swapped_upto(q, n - 1);
    }
}

/// A placement does not depend on which side is ours.
pub proof fn placement_is_symmetric<T>(q: Sequences<T>)
    ensures
        q.swapped().placed() == q.placed(),
{
    swapped_upto(q, q.survivors.len() as int);
}

/// The shared coordinate does not depend on which side is ours, unless both sides
/// moved what they have and order has a meaning.
pub proof fn coordinate_is_symmetric<T>(
    base: Seq<T>,
    ours: Seq<T>,
    theirs: Seq<T>,
    effectful: bool,
)
    requires
        !(effectful && moved(base, ours) && moved(base, theirs)),
    ensures
        coordinate(base, theirs, ours, effectful) == coordinate(base, ours, theirs, effectful),
{
}

/// Where nobody moved anything, base's order is the shared coordinate.
pub proof fn an_order_nobody_changed_stands<T>(
    base: Seq<T>,
    ours: Seq<T>,
    theirs: Seq<T>,
    effectful: bool,
)
    requires
        base.no_duplicates(),
        !moved(base, ours),
        !moved(base, theirs),
    ensures
        coordinate(base, ours, theirs, effectful) == base,
{
    assert(base.take(0) =~= Seq::empty());
    walk_with_itself(base, 0, 0);
}

proof fn walk_with_itself<T>(v: Seq<T>, i: int, j: int)
    requires
        v.no_duplicates(),
        0 <= j <= i <= v.len(),
    ensures
        walk(v, v, i, j, v.take(i)).0 == v,
    decreases (v.len() - i) + (v.len() - j),
{
    if i < v.len() {
        assert(!v.take(i).contains(v[i]));
    }
    if j < i {
        assert(v.take(i)[j] == v[j]);
        walk_with_itself(v, i, j + 1);
    } else if i < v.len() {
        assert(v.take(i).push(v[i]) =~= v.take(i + 1));
        walk_with_itself(v, i + 1, j);
    } else {
        assert(v.take(i) =~= v);
    }
}

/// What shares a gap comes out of it, each exactly as often as it went in.
pub proof fn a_gap_keeps_what_it_holds<T>(left: Seq<T>, ours: Seq<T>, theirs: Seq<T>)
    ensures
        gap_order(left, ours, theirs).to_multiset() == left.to_multiset(),
    decreases left.len(),
{
    next_free_bounds(left, ours, theirs, 0);
    if let Some(i) = next_free(left, ours, theirs, 0) {
        let rest = left.remove(i);
        a_gap_keeps_what_it_holds(rest, ours, theirs);
        let tail = gap_order(rest, ours, theirs);
        broadcast use vstd::seq_lib::group_to_multiset_ensures;

        vstd::seq_lib::lemma_multiset_commutative(seq![left[i]], tail);
        assert(seq![left[i]].to_multiset() =~= vstd::multiset::Multiset::empty().insert(left[i])) by {
            assert(seq![left[i]] =~= Seq::empty().push(left[i]));
        }
        assert(left.to_multiset() =~= rest.to_multiset().insert(left[i])) by {
            assert(left.remove(i).to_multiset() =~= left.to_multiset().remove(left[i]));
            assert(left.to_multiset().count(left[i]) > 0) by {
                assert(left.contains(left[i]));
            }
        }
    }
}

/// Is the evidence about what is left free of circles? Then some ranking agrees
/// with all of it.
pub open spec fn ranks<T>(left: Seq<T>, ours: Seq<T>, theirs: Seq<T>, rank: spec_fn(T) -> int) -> bool {
    forall|i: int, j: int|
        0 <= i < left.len() && 0 <= j < left.len() && goes_first(
            ours,
            theirs,
            #[trigger] left[i],
            #[trigger] left[j],
        ) ==> rank(left[i]) < rank(left[j])
}

proof fn least_ranked<T>(left: Seq<T>, rank: spec_fn(T) -> int) -> (m: int)
    requires
        left.len() > 0,
    ensures
        0 <= m < left.len(),
        forall|i: int| 0 <= i < left.len() ==> rank(left[m]) <= rank(#[trigger] left[i]),
    decreases left.len(),
{
    let n = left.len() - 1;
    if n == 0 {
        0
    } else {
        let front = left.drop_last();
        let m = least_ranked(front, rank);
        assert(forall|i: int| 0 <= i < n ==> front[i] == left[i]);
        if rank(left[n]) < rank(left[m]) {
            assert forall|i: int| 0 <= i < left.len() implies rank(left[n]) <= rank(
                #[trigger] left[i],
            ) by {
                if i < n {
                    assert(front[i] == left[i]);
                }
            }
            n
        } else {
            assert forall|i: int| 0 <= i < left.len() implies rank(left[m]) <= rank(
                #[trigger] left[i],
            ) by {
                if i < n {
                    assert(front[i] == left[i]);
                }
            }
            m
        }
    }
}

proof fn free_is_found<T>(left: Seq<T>, ours: Seq<T>, theirs: Seq<T>, i: int, m: int)
    requires
        0 <= i <= m < left.len(),
        is_free(left, ours, theirs, m),
    ensures
        next_free(left, ours, theirs, i) is Some,
    decreases m - i,
{
    if i < m && !is_free(left, ours, theirs, i) {
        free_is_found(left, ours, theirs, i + 1, m);
    }
}

/// What some version orders, and none contradicts, comes out in that order, as long
/// as the evidence does not go round in a circle.
pub proof fn a_gap_follows_what_was_written<T>(
    left: Seq<T>,
    ours: Seq<T>,
    theirs: Seq<T>,
    rank: spec_fn(T) -> int,
)
    requires
        ranks(left, ours, theirs, rank),
    ensures
        forall|i: int, j: int|
            0 <= i < j < gap_order(left, ours, theirs).len() ==> !goes_first(
                ours,
                theirs,
                #[trigger] gap_order(left, ours, theirs)[j],
                #[trigger] gap_order(left, ours, theirs)[i],
            ),
    decreases left.len(),
{
    if left.len() > 0 {
        let m = least_ranked(left, rank);
        assert(is_free(left, ours, theirs, m));
        free_is_found(left, ours, theirs, 0, m);
    }
    next_free_bounds(left, ours, theirs, 0);
    if let Some(k) = next_free(left, ours, theirs, 0) {
        let rest = left.remove(k);
        assert forall|i: int, j: int|
            0 <= i < rest.len() && 0 <= j < rest.len() && goes_first(
                ours,
                theirs,
                #[trigger] rest[i],
                #[trigger] rest[j],
            ) implies rank(rest[i]) < rank(rest[j]) by {
            let a = if i < k {
                i
            } else {
                i + 1
            };
            let b = if j < k {
                j
            } else {
                j + 1
            };
            assert(rest[i] == left[a] && rest[j] == left[b]);
        }
        a_gap_follows_what_was_written(rest, ours, theirs, rank);
        let tail = gap_order(rest, ours, theirs);
        let all = gap_order(left, ours, theirs);
        assert(all =~= seq![left[k]] + tail);
        assert forall|i: int, j: int| 0 <= i < j < all.len() implies !goes_first(
            ours,
            theirs,
            #[trigger] all[j],
            #[trigger] all[i],
        ) by {
            assert(all[j] == tail[j - 1]);
            if i == 0 {
                a_gap_keeps_what_it_holds(rest, ours, theirs);
                broadcast use vstd::seq_lib::group_to_multiset_ensures;

                assert(tail.contains(tail[j - 1]));
                assert(tail.to_multiset().count(tail[j - 1]) > 0);
                assert(rest.to_multiset().count(tail[j - 1]) > 0);
                assert(rest.contains(tail[j - 1]));
                let p = choose|p: int| 0 <= p < rest.len() && rest[p] == tail[j - 1];
                let q = if p < k {
                    p
                } else {
                    p + 1
                };
                assert(left[q] == all[j]);
                assert(is_free(left, ours, theirs, k));
            } else {
                assert(all[i] == tail[i - 1]);
            }
        }
    }
}

/// Does the first placed item stand in front of the second by its gap, and inside a
/// gap by its place in it? A survivor stands in front of what is added behind it.
pub open spec fn stands_before<T>(a: PlacedView<T>, b: PlacedView<T>) -> bool {
    ||| a.gap < b.gap
    ||| a.gap == b.gap && !a.added && b.added
    ||| a.gap == b.gap && a.added && b.added && a.within < b.within
}

proof fn placed_in_order<T>(q: Sequences<T>, n: int)
    requires
        0 <= n,
    ensures
        forall|i: int| 0 <= i < q.placed_upto(n).len() ==> (#[trigger] q.placed_upto(n)[i]).gap <= n,
        forall|i: int, j: int|
            0 <= i < j < q.placed_upto(n).len() ==> stands_before(
                #[trigger] q.placed_upto(n)[i],
                #[trigger] q.placed_upto(n)[j],
            ),
    decreases n,
{
    let all = q.placed_upto(n);
    let g = q.gap_items(n);
    if n > 0 {
        placed_in_order(q, n - 1);
        let front = q.placed_upto(n - 1);
        let mid = q.survivor_items(n);
        assert(all =~= front + mid + g);
        assert forall|i: int| 0 <= i < all.len() implies (#[trigger] all[i]).gap <= n by {
            if i < front.len() {
                assert(all[i] == front[i]);
            } else if i < front.len() + mid.len() {
                assert(all[i] == mid[i - front.len()]);
            } else {
                assert(all[i] == g[i - front.len() - mid.len()]);
            }
        }
        assert forall|i: int, j: int| 0 <= i < j < all.len() implies stands_before(
            #[trigger] all[i],
            #[trigger] all[j],
        ) by {
            if j < front.len() {
                assert(all[i] == front[i] && all[j] == front[j]);
            } else if j < front.len() + mid.len() {
                assert(all[j] == mid[j - front.len()]);
                assert(all[i] == front[i]);
            } else {
                assert(all[j] == g[j - front.len() - mid.len()]);
                if i < front.len() {
                    assert(all[i] == front[i]);
                } else if i < front.len() + mid.len() {
                    assert(all[i] == mid[i - front.len()]);
                } else {
                    assert(all[i] == g[i - front.len() - mid.len()]);
                }
            }
        }
    }
}

/// A placement comes out in the order of its anchors, and no two items share one.
pub proof fn a_placement_is_in_order<T>(q: Sequences<T>)
    ensures
        forall|i: int, j: int|
            0 <= i < j < q.placed().len() ==> stands_before(
                #[trigger] q.placed()[i],
                #[trigger] q.placed()[j],
            ),
{
    placed_in_order(q, q.survivors.len() as int);
}

proof fn anchor_bounds<T>(survivors: Seq<T>, side: Seq<T>, p: int)
    ensures
        0 <= anchor_in(survivors, side, p) <= survivors.len(),
    decreases p,
{
    if p > 0 {
        place_of_is_first(survivors, side[p - 1], 0);
        anchor_bounds(survivors, side, p - 1);
    }
}

proof fn in_gap_holds<T>(q: Sequences<T>, gap: int, n: int)
    requires
        0 <= n <= q.added.len(),
        q.added.no_duplicates(),
    ensures
        q.in_gap(gap, n).no_duplicates(),
        forall|x: T| #[trigger]
            q.in_gap(gap, n).contains(x) <==> q.added.take(n).contains(x) && anchor_of(
                q.survivors,
                q.ours,
                q.theirs,
                x,
            ) == gap,
    decreases n,
{
    if n > 0 {
        in_gap_holds(q, gap, n - 1);
        let y = q.added[n - 1];
        let front = q.in_gap(gap, n - 1);
        let all = q.in_gap(gap, n);
        let had = q.added.take(n - 1);
        let has = q.added.take(n);
        assert forall|x: T| #[trigger] has.contains(x) <==> had.contains(x) || x == y by {
            if had.contains(x) {
                let k = choose|k: int| 0 <= k < had.len() && had[k] == x;
                assert(has[k] == x);
            }
            assert(has[n - 1] == y);
            if has.contains(x) {
                let k = choose|k: int| 0 <= k < has.len() && has[k] == x;
                if k < n - 1 {
                    assert(had[k] == x);
                }
            }
        }
        if anchor_of(q.survivors, q.ours, q.theirs, y) == gap {
            assert(!front.contains(y)) by {
                if had.contains(y) {
                    let k = choose|k: int| 0 <= k < had.len() && had[k] == y;
                    assert(q.added[k] == q.added[n - 1]);
                }
            }
            assert forall|x: T| #[trigger] all.contains(x) <==> front.contains(x) || x == y by {
                if front.contains(x) {
                    let k = choose|k: int| 0 <= k < front.len() && front[k] == x;
                    assert(all[k] == x);
                }
                assert(all[front.len() as int] == y);
            }
        }
    } else {
        assert forall|x: T| !q.added.take(0).contains(x) by {
        }
    }
}

proof fn gap_holds<T>(q: Sequences<T>, gap: int)
    requires
        q.added.no_duplicates(),
    ensures
        q.gap(gap).no_duplicates(),
        forall|x: T| #[trigger]
            q.gap(gap).contains(x) <==> q.added.contains(x) && anchor_of(
                q.survivors,
                q.ours,
                q.theirs,
                x,
            ) == gap,
{
    let n = q.added.len() as int;
    in_gap_holds(q, gap, n);
    assert(q.added.take(n) =~= q.added);
    let group = q.in_gap(gap, n);
    let out = q.gap(gap);
    a_gap_keeps_what_it_holds(group, q.ours, q.theirs);
    broadcast use vstd::seq_lib::group_to_multiset_ensures;

    assert forall|x: T| #[trigger] out.contains(x) <==> group.contains(x) by {
        assert(out.to_multiset().count(x) == group.to_multiset().count(x));
    }
    group.lemma_multiset_has_no_duplicates();
    assert forall|x: T| #[trigger] out.to_multiset().contains(x) implies out.to_multiset().count(x)
        == 1 by {
        assert(group.to_multiset().contains(x));
    }
    out.lemma_multiset_has_no_duplicates_conv();
}

/// Is the item among the first placed ones?
pub open spec fn is_placed<T>(v: Seq<PlacedView<T>>, x: T) -> bool {
    exists|i: int| 0 <= i < v.len() && (#[trigger] v[i]).item == x
}

proof fn placed_upto_holds<T>(q: Sequences<T>, n: int, x: T)
    requires
        q.added.no_duplicates(),
        0 <= n <= q.survivors.len(),
    ensures
        is_placed(q.placed_upto(n), x) <==> (q.survivors.take(n).contains(x) && !q.hidden.contains(
            x,
        )) || (q.added.contains(x) && anchor_of(q.survivors, q.ours, q.theirs, x) <= n),
    decreases n,
{
    gap_holds(q, n);
    let g = q.gap_items(n);
    assert(is_placed(g, x) <==> q.gap(n).contains(x)) by {
        if is_placed(g, x) {
            let i = choose|i: int| 0 <= i < g.len() && (#[trigger] g[i]).item == x;
            assert(q.gap(n)[i] == x);
        }
        if q.gap(n).contains(x) {
            let i = choose|i: int| 0 <= i < q.gap(n).len() && q.gap(n)[i] == x;
            assert(g[i].item == x);
        }
    }
    anchor_at_least_zero(q, x);
    if n > 0 {
        placed_upto_holds(q, n - 1, x);
        let front = q.placed_upto(n - 1);
        let mid = q.survivor_items(n);
        let all = q.placed_upto(n);
        assert(all =~= front + mid + g);
        assert(is_placed(all, x) <==> is_placed(front, x) || is_placed(mid, x) || is_placed(g, x))
            by {
            if is_placed(all, x) {
                let i = choose|i: int| 0 <= i < all.len() && (#[trigger] all[i]).item == x;
                if i < front.len() {
                    assert(front[i].item == x);
                } else if i < front.len() + mid.len() {
                    assert(mid[i - front.len()].item == x);
                } else {
                    assert(g[i - front.len() - mid.len()].item == x);
                }
            }
            if is_placed(front, x) {
                let i = choose|i: int| 0 <= i < front.len() && (#[trigger] front[i]).item == x;
                assert(all[i].item == x);
            }
            if is_placed(mid, x) {
                let i = choose|i: int| 0 <= i < mid.len() && (#[trigger] mid[i]).item == x;
                assert(all[front.len() + i].item == x);
            }
            if is_placed(g, x) {
                let i = choose|i: int| 0 <= i < g.len() && (#[trigger] g[i]).item == x;
                assert(all[front.len() + mid.len() + i].item == x);
            }
        }
        let s = q.survivors[n - 1];
        assert(is_placed(mid, x) <==> x == s && !q.hidden.contains(x)) by {
            if x == s && !q.hidden.contains(x) {
                assert(mid[0].item == x);
            }
        }
        let had = q.survivors.take(n - 1);
        let has = q.survivors.take(n);
        assert(has.contains(x) <==> had.contains(x) || x == s) by {
            if had.contains(x) {
                let k = choose|k: int| 0 <= k < had.len() && had[k] == x;
                assert(has[k] == x);
            }
            assert(has[n - 1] == s);
            if has.contains(x) {
                let k = choose|k: int| 0 <= k < has.len() && has[k] == x;
                if k < n - 1 {
                    assert(had[k] == x);
                }
            }
        }
    } else {
        assert(q.placed_upto(0) == g);
    }
}

proof fn anchor_at_least_zero<T>(q: Sequences<T>, x: T)
    ensures
        0 <= anchor_of(q.survivors, q.ours, q.theirs, x) <= q.survivors.len(),
{
    if let Some(p) = place_of(q.ours, x, 0) {
        anchor_bounds(q.survivors, q.ours, p);
    }
    if let Some(p) = place_of(q.theirs, x, 0) {
        anchor_bounds(q.survivors, q.theirs, p);
    }
}

/// A placement holds every shown survivor and every addition, and nothing else.
pub proof fn a_placement_holds_everything<T>(q: Sequences<T>, x: T)
    requires
        q.added.no_duplicates(),
    ensures
        is_placed(q.placed(), x) <==> (q.survivors.contains(x) && !q.hidden.contains(x))
            || q.added.contains(x),
{
    let n = q.survivors.len() as int;
    placed_upto_holds(q, n, x);
    anchor_at_least_zero(q, x);
    assert(q.survivors.take(n) =~= q.survivors);
}

proof fn placed_items_fit<T>(q: Sequences<T>, n: int, i: int)
    requires
        q.added.no_duplicates(),
        0 <= n <= q.survivors.len(),
        0 <= i < q.placed_upto(n).len(),
    ensures
        ({
            let p = q.placed_upto(n)[i];
            if p.added {
                &&& q.added.contains(p.item)
                &&& anchor_of(q.survivors, q.ours, q.theirs, p.item) == p.gap
                &&& 0 <= p.within < q.gap(p.gap).len()
                &&& q.gap(p.gap)[p.within] == p.item
            } else {
                1 <= p.gap <= n && q.survivors[p.gap - 1] == p.item
            }
        }),
    decreases n,
{
    gap_holds(q, n);
    let g = q.gap_items(n);
    let all = q.placed_upto(n);
    let before = all.len() - g.len();
    if n > 0 {
        let front = q.placed_upto(n - 1);
        let mid = q.survivor_items(n);
        assert(all =~= front + mid + g);
        if i < front.len() {
            assert(all[i] == front[i]);
            placed_items_fit(q, n - 1, i);
        } else if i < front.len() + mid.len() {
            assert(all[i] == mid[i - front.len()]);
        } else {
            assert(all[i] == g[i - before]);
            assert(q.gap(n).contains(q.gap(n)[i - before]));
        }
    } else {
        assert(all == g);
        assert(q.gap(n).contains(q.gap(n)[i]));
    }
}

/// A placement holds nothing twice, where the survivors and the additions are
/// distinct and have nothing in common.
pub proof fn a_placement_holds_each_once<T>(q: Sequences<T>)
    requires
        q.added.no_duplicates(),
        q.survivors.no_duplicates(),
        forall|x: T| #[trigger] q.added.contains(x) ==> !q.survivors.contains(x),
    ensures
        forall|i: int, j: int|
            0 <= i < j < q.placed().len() ==> (#[trigger] q.placed()[i]).item != (
            #[trigger] q.placed()[j]).item,
{
    a_placement_is_in_order(q);
    let n = q.survivors.len() as int;
    let v = q.placed();
    assert forall|i: int, j: int| 0 <= i < j < v.len() implies (#[trigger] v[i]).item != (
    #[trigger] v[j]).item by {
        placed_items_fit(q, n, i);
        placed_items_fit(q, n, j);
        assert(stands_before(v[i], v[j]));
        if v[i].item == v[j].item {
            if v[i].added && v[j].added {
                gap_holds(q, v[i].gap);
                assert(q.gap(v[i].gap)[v[i].within] == q.gap(v[i].gap)[v[j].within]);
            } else if v[i].added {
                assert(q.survivors.contains(q.survivors[v[j].gap - 1]));
            } else if v[j].added {
                assert(q.survivors.contains(q.survivors[v[i].gap - 1]));
            } else {
                assert(q.survivors[v[i].gap - 1] == q.survivors[v[j].gap - 1]);
            }
        }
    }
}

// ---------------------------------------------------------------------------
// What two sequences disagree about
// ---------------------------------------------------------------------------

/// What is left of a sequence from `i` on that the other has too and that is not
/// emitted yet.
pub open spec fn shared_rest<T>(a: Seq<T>, b: Seq<T>, i: int, out: Seq<T>) -> Seq<T>
    decreases a.len() - i,
{
    if i < 0 || i >= a.len() {
        Seq::empty()
    } else if b.contains(a[i]) && !out.contains(a[i]) {
        seq![a[i]] + shared_rest(a, b, i + 1, out)
    } else {
        shared_rest(a, b, i + 1, out)
    }
}

proof fn rest_without<T>(a: Seq<T>, b: Seq<T>, i: int, out: Seq<T>, x: T)
    requires
        0 <= i,
        !b.contains(x) || forall|k: int| i <= k < a.len() ==> a[k] != x,
    ensures
        shared_rest(a, b, i, out.push(x)) == shared_rest(a, b, i, out),
    decreases a.len() - i,
{
    if i < a.len() {
        rest_without(a, b, i + 1, out, x);
        contains_after_push(out, x, a[i]);
    }
}

proof fn contains_after_push<T>(out: Seq<T>, x: T, y: T)
    ensures
        out.push(x).contains(y) <==> out.contains(y) || y == x,
{
    let more = out.push(x);
    if out.contains(y) {
        let k = choose|k: int| 0 <= k < out.len() && out[k] == y;
        assert(more[k] == y);
    }
    assert(more[out.len() as int] == x);
    if more.contains(y) {
        let k = choose|k: int| 0 <= k < more.len() && more[k] == y;
        if k < out.len() {
            assert(out[k] == y);
        }
    }
}

proof fn walk_disagrees<T>(a: Seq<T>, b: Seq<T>, i: int, j: int, out: Seq<T>)
    requires
        a.no_duplicates(),
        b.no_duplicates(),
        0 <= i <= a.len(),
        0 <= j <= b.len(),
        forall|k: int| 0 <= k < i ==> out.contains(#[trigger] a[k]),
        forall|k: int| 0 <= k < j ==> out.contains(#[trigger] b[k]),
    ensures
        walk(a, b, i, j, out).1 <==> shared_rest(a, b, i, out) != shared_rest(b, a, j, out),
    decreases (a.len() - i) + (b.len() - j),
{
    if i < a.len() && out.contains(a[i]) {
        walk_disagrees(a, b, i + 1, j, out);
    } else if j < b.len() && out.contains(b[j]) {
        walk_disagrees(a, b, i, j + 1, out);
    } else if i >= a.len() && j >= b.len() {
        assert(shared_rest(a, b, i, out) =~= shared_rest(b, a, j, out));
    } else {
        let takes_b = i >= a.len() || !(j >= b.len() || a[i] == b[j] || !b.contains(a[i]))
            && !a.contains(b[j]);
        let x = if takes_b {
            b[j]
        } else {
            a[i]
        };
        let more = out.push(x);
        assert forall|y: T| #[trigger] more.contains(y) <==> out.contains(y) || y == x by {
            contains_after_push(out, x, y);
        }
        if takes_b {
            assert(!a.contains(x)) by {
                if i >= a.len() && a.contains(x) {
                    let k = choose|k: int| 0 <= k < a.len() && a[k] == x;
                    assert(out.contains(a[k]));
                }
            }
            rest_without(a, b, i, out, x);
            rest_without(b, a, j + 1, out, x);
            walk_disagrees(a, b, i, j + 1, more);
        } else if j < b.len() && a[i] == b[j] {
            assert(b.contains(b[j]) && a.contains(a[i]));
            rest_without(a, b, i + 1, out, x);
            rest_without(b, a, j + 1, out, x);
            walk_disagrees(a, b, i + 1, j, more);
            let ra = shared_rest(a, b, i + 1, out);
            let rb = shared_rest(b, a, j + 1, out);
            assert(shared_rest(b, a, j, more) == rb);
            assert(seq![x] + ra == seq![x] + rb ==> ra =~= rb) by {
                if seq![x] + ra == seq![x] + rb {
                    assert((seq![x] + ra).subrange(1, (seq![x] + ra).len() as int) =~= ra);
                    assert((seq![x] + rb).subrange(1, (seq![x] + rb).len() as int) =~= rb);
                }
            }
        } else if j >= b.len() || !b.contains(a[i]) {
            assert(!b.contains(x)) by {
                if j >= b.len() && b.contains(x) {
                    let k = choose|k: int| 0 <= k < b.len() && b[k] == x;
                    assert(out.contains(b[k]));
                }
            }
            rest_without(a, b, i + 1, out, x);
            rest_without(b, a, j, out, x);
            walk_disagrees(a, b, i + 1, j, more);
        } else {
            let ra = shared_rest(a, b, i, out);
            let rb = shared_rest(b, a, j, out);
            assert(ra[0] == a[i]);
            assert(rb[0] == b[j]);
        }
    }
}

proof fn rest_is_kept<T>(a: Seq<T>, b: Seq<T>, i: int)
    requires
        0 <= i <= a.len(),
    ensures
        kept(a.take(i), b) + shared_rest(a, b, i, Seq::empty()) == kept(a, b),
    decreases a.len() - i,
{
    if i < a.len() {
        rest_is_kept(a, b, i + 1);
        assert(a.take(i + 1).drop_last() =~= a.take(i));
        assert(a.take(i + 1).last() == a[i]);
        let rest = shared_rest(a, b, i + 1, Seq::empty());
        assert(kept(a.take(i), b).push(a[i]) + rest =~= kept(a.take(i), b) + (seq![a[i]] + rest));
    } else {
        assert(a.take(i) =~= a);
        assert(kept(a, b) + Seq::<T>::empty() =~= kept(a, b));
    }
}

/// Two sequences disagree exactly when they give what they share different order.
pub proof fn a_disagreement_is_about_what_is_shared<T>(a: Seq<T>, b: Seq<T>)
    requires
        a.no_duplicates(),
        b.no_duplicates(),
    ensures
        union_of(a, b).1 <==> kept(a, b) != kept(b, a),
{
    walk_disagrees(a, b, 0, 0, Seq::empty());
    rest_is_kept(a, b, 0);
    rest_is_kept(b, a, 0);
    assert(a.take(0) =~= Seq::empty());
    assert(b.take(0) =~= Seq::empty());
    assert(Seq::<T>::empty() + shared_rest(a, b, 0, Seq::empty()) =~= shared_rest(
        a,
        b,
        0,
        Seq::empty(),
    ));
    assert(Seq::<T>::empty() + shared_rest(b, a, 0, Seq::empty()) =~= shared_rest(
        b,
        a,
        0,
        Seq::empty(),
    ));
}


// ---------------------------------------------------------------------------
// What a placement keeps of the survivors' order
// ---------------------------------------------------------------------------

/// Keeping is a filter: what comes out went in and is wanted.
pub proof fn kept_holds<T>(v: Seq<T>, keep: Seq<T>, x: T)
    ensures
        kept(v, keep).contains(x) <==> v.contains(x) && keep.contains(x),
    decreases v.len(),
{
    if v.len() > 0 {
        let w = v.drop_last();
        kept_holds(w, keep, x);
        assert(v.contains(x) <==> w.contains(x) || x == v.last()) by {
            if w.contains(x) {
                let k = choose|k: int| 0 <= k < w.len() && w[k] == x;
                assert(v[k] == x);
            }
            if v.contains(x) && x != v.last() {
                let k = choose|k: int| 0 <= k < v.len() && v[k] == x;
                assert(w[k] == x);
            }
        }
        if keep.contains(v.last()) {
            let out = kept(w, keep).push(v.last());
            assert(out.contains(x) <==> kept(w, keep).contains(x) || x == v.last()) by {
                if kept(w, keep).contains(x) {
                    let k = choose|k: int| 0 <= k < kept(w, keep).len() && kept(w, keep)[k] == x;
                    assert(out[k] == x);
                }
                assert(out[kept(w, keep).len() as int] == v.last());
            }
        }
    }
}

/// Keeping twice is keeping what both want.
pub proof fn kept_twice<T>(v: Seq<T>, a: Seq<T>, b: Seq<T>, both: Seq<T>)
    requires
        forall|x: T| #[trigger]
            both.contains(x) && v.contains(x) <==> a.contains(x) && b.contains(x) && v.contains(x),
    ensures
        kept(kept(v, a), b) == kept(v, both),
    decreases v.len(),
{
    if v.len() > 0 {
        let w = v.drop_last();
        let x = v.last();
        assert forall|y: T| #[trigger] both.contains(y) && w.contains(y) <==> a.contains(y)
            && b.contains(y) && w.contains(y) by {
            if w.contains(y) {
                let k = choose|k: int| 0 <= k < w.len() && w[k] == y;
                assert(v[k] == y);
            }
        }
        kept_twice(w, a, b, both);
        assert(v[v.len() - 1] == x);
        assert(v.contains(x));
        assert(both.contains(x) <==> a.contains(x) && b.contains(x));
        if a.contains(x) {
            assert(kept(v, a).drop_last() =~= kept(w, a));
        }
    }
}

proof fn kept_of_a_sum<T>(a: Seq<T>, b: Seq<T>, keep: Seq<T>)
    ensures
        kept(a + b, keep) == kept(a, keep) + kept(b, keep),
    decreases b.len(),
{
    if b.len() > 0 {
        assert((a + b).drop_last() =~= a + b.drop_last());
        kept_of_a_sum(a, b.drop_last(), keep);
        assert(kept(a + b, keep) =~= kept(a, keep) + kept(b, keep));
    } else {
        assert(a + b =~= a);
        assert(kept(a + b, keep) =~= kept(a, keep) + kept(b, keep));
    }
}

proof fn kept_of_strangers<T>(v: Seq<T>, keep: Seq<T>)
    requires
        forall|k: int| 0 <= k < v.len() ==> !keep.contains(#[trigger] v[k]),
    ensures
        kept(v, keep) == Seq::<T>::empty(),
    decreases v.len(),
{
    if v.len() > 0 {
        assert(v[v.len() - 1] == v.last());
        assert forall|k: int| 0 <= k < v.drop_last().len() implies !keep.contains(
            #[trigger] v.drop_last()[k],
        ) by {
            assert(v[k] == v.drop_last()[k]);
        }
        kept_of_strangers(v.drop_last(), keep);
    }
}

/// The items of a placement, without their places.
pub open spec fn items<T>(v: Seq<PlacedView<T>>) -> Seq<T> {
    v.map_values(|p: PlacedView<T>| p.item)
}

proof fn placed_upto_keeps<T>(q: Sequences<T>, keep: Seq<T>, n: int)
    requires
        q.hidden.len() == 0,
        q.added.no_duplicates(),
        forall|x: T| #[trigger] q.added.contains(x) ==> !keep.contains(x),
        forall|x: T| #[trigger] q.survivors.contains(x) ==> keep.contains(x),
        0 <= n <= q.survivors.len(),
    ensures
        kept(items(q.placed_upto(n)), keep) == q.survivors.take(n),
    decreases n,
{
    gap_holds(q, n);
    let g = items(q.gap_items(n));
    assert forall|k: int| 0 <= k < g.len() implies !keep.contains(#[trigger] g[k]) by {
        assert(q.gap(n)[k] == g[k]);
        assert(q.gap(n).contains(g[k]));
        assert(q.added.contains(g[k]));
    }
    kept_of_strangers(g, keep);
    if n > 0 {
        placed_upto_keeps(q, keep, n - 1);
        let front = items(q.placed_upto(n - 1));
        let s = q.survivors[n - 1];
        let mid = items(q.survivor_items(n));
        assert(!q.hidden.contains(s));
        assert(mid =~= seq![s]);
        assert(q.survivors.contains(s));
        assert(keep.contains(s));
        assert(items(q.placed_upto(n)) =~= front + mid + g);
        kept_of_a_sum(front + mid, g, keep);
        assert((front + mid).drop_last() =~= front);
        assert((front + mid).last() == s);
        assert(kept(front + mid, keep) == kept(front, keep).push(s));
        assert(kept(items(q.placed_upto(n)), keep) =~= q.survivors.take(n));
    } else {
        assert(q.survivors.take(0) =~= Seq::empty());
    }
}

/// Of a placement that shows every survivor, those items that the survivors are drawn
/// from, and no addition is, are the survivors in their order.
pub proof fn a_placement_keeps_the_survivors_order<T>(q: Sequences<T>, keep: Seq<T>)
    requires
        q.hidden.len() == 0,
        q.added.no_duplicates(),
        forall|x: T| #[trigger] q.added.contains(x) ==> !keep.contains(x),
        forall|x: T| #[trigger] q.survivors.contains(x) ==> keep.contains(x),
    ensures
        kept(items(q.placed()), keep) == q.survivors,
{
    let n = q.survivors.len() as int;
    placed_upto_keeps(q, keep, n);
    assert(q.survivors.take(n) =~= q.survivors);
}


/// What is kept of distinct elements is distinct.
pub proof fn kept_keeps_distinct<T>(v: Seq<T>, keep: Seq<T>)
    requires
        v.no_duplicates(),
    ensures
        kept(v, keep).no_duplicates(),
    decreases v.len(),
{
    if v.len() > 0 {
        let w = v.drop_last();
        kept_keeps_distinct(w, keep);
        kept_holds(w, keep, v.last());
        assert(!w.contains(v.last()));
    }
}

proof fn walk_follows_the_first<T>(a: Seq<T>, b: Seq<T>, i: int, j: int, out: Seq<T>)
    requires
        a.no_duplicates(),
        0 <= i <= a.len(),
        0 <= j <= b.len(),
        kept(out, a) == a.take(i),
    ensures
        kept(walk(a, b, i, j, out).0, a) == a,
    decreases (a.len() - i) + (b.len() - j),
{
    assert forall|x: T| a.contains(x) && out.contains(x) implies a.take(i).contains(x) by {
        kept_holds(out, a, x);
    }
    if i < a.len() && out.contains(a[i]) {
        assert(a.contains(a[i]));
        let k = choose|k: int| 0 <= k < a.take(i).len() && a.take(i)[k] == a[i];
        assert(a[k] == a[i]);
    } else if j < b.len() && out.contains(b[j]) {
        walk_follows_the_first(a, b, i, j + 1, out);
    } else if i >= a.len() && j >= b.len() {
        assert(a.take(i) =~= a);
    } else {
        let takes_b = i >= a.len() || !(j >= b.len() || a[i] == b[j] || !b.contains(a[i]))
            && !a.contains(b[j]);
        if takes_b {
            assert(out.push(b[j]).drop_last() =~= out);
            if i >= a.len() {
                assert(a.take(i) =~= a);
                if a.contains(b[j]) {
                    kept_holds(out, a, b[j]);
                }
            }
            walk_follows_the_first(a, b, i, j + 1, out.push(b[j]));
        } else {
            assert(out.push(a[i]).drop_last() =~= out);
            assert(a.contains(a[i]));
            assert(a.take(i).push(a[i]) =~= a.take(i + 1));
            walk_follows_the_first(a, b, i + 1, j, out.push(a[i]));
        }
    }
}

/// A union keeps the order of its first sequence.
pub proof fn a_union_follows_the_first<T>(a: Seq<T>, b: Seq<T>)
    requires
        a.no_duplicates(),
    ensures
        kept(union_of(a, b).0, a) == a,
{
    assert(a.take(0) =~= Seq::empty());
    walk_follows_the_first(a, b, 0, 0, Seq::empty());
}


proof fn walk_follows_the_second<T>(a: Seq<T>, b: Seq<T>, i: int, j: int, m: int, out: Seq<T>)
    requires
        b.no_duplicates(),
        0 <= i <= a.len(),
        0 <= j <= m <= j + 1,
        m <= b.len(),
        kept(out, b) == b.take(m),
        !walk(a, b, i, j, out).1,
    ensures
        kept(walk(a, b, i, j, out).0, b) == b,
    decreases (a.len() - i) + (b.len() - j),
{
    assert forall|x: T| b.contains(x) && out.contains(x) implies b.take(m).contains(x) by {
        kept_holds(out, b, x);
    }
    if i < a.len() && out.contains(a[i]) {
        walk_follows_the_second(a, b, i + 1, j, m, out);
    } else if j < b.len() && out.contains(b[j]) {
        assert(b.contains(b[j]));
        let k = choose|k: int| 0 <= k < b.take(m).len() && b.take(m)[k] == b[j];
        assert(b[k] == b[j]);
        walk_follows_the_second(a, b, i, j + 1, m, out);
    } else {
        if m > j {
            kept_holds(out, b, b[j]);
            assert(b.take(m)[j] == b[j]);
            assert(b.take(m).contains(b[j]));
        }
        if i >= a.len() && j >= b.len() {
            assert(b.take(m) =~= b);
        } else {
            let takes_b = i >= a.len() || !(j >= b.len() || a[i] == b[j] || !b.contains(a[i]))
                && !a.contains(b[j]);
            if takes_b {
                assert(out.push(b[j]).drop_last() =~= out);
                assert(b.contains(b[j]));
                assert(b.take(j).push(b[j]) =~= b.take(j + 1));
                walk_follows_the_second(a, b, i, j + 1, j + 1, out.push(b[j]));
            } else {
                assert(out.push(a[i]).drop_last() =~= out);
                if j >= b.len() {
                    assert(b.take(m) =~= b);
                    kept_holds(out, b, a[i]);
                    walk_follows_the_second(a, b, i + 1, j, m, out.push(a[i]));
                } else if a[i] == b[j] {
                    assert(b.contains(b[j]));
                    assert(b.take(j).push(b[j]) =~= b.take(j + 1));
                    walk_follows_the_second(a, b, i + 1, j, j + 1, out.push(a[i]));
                } else {
                    walk_follows_the_second(a, b, i + 1, j, m, out.push(a[i]));
                }
            }
        }
    }
}

/// Where two sequences do not disagree, their union keeps the order of the second too:
/// each of the two is a subsequence of it.
pub proof fn a_union_without_disagreement_follows_both<T>(a: Seq<T>, b: Seq<T>)
    requires
        a.no_duplicates(),
        b.no_duplicates(),
        !union_of(a, b).1,
    ensures
        kept(union_of(a, b).0, a) == a,
        kept(union_of(a, b).0, b) == b,
{
    a_union_follows_the_first(a, b);
    assert(b.take(0) =~= Seq::empty());
    walk_follows_the_second(a, b, 0, 0, 0, Seq::empty());
}


/// Is this the gap behind the nearest survivor in front of place `p` of a side? The gap
/// in front of all survivors, where none stands there, is zero.
pub open spec fn is_nearest<T>(survivors: Seq<T>, side: Seq<T>, p: int, gap: int) -> bool {
    if gap <= 0 {
        gap == 0 && forall|m: int| 0 <= m < p ==> !survivors.contains(#[trigger] side[m])
    } else {
        gap <= survivors.len() && exists|m: int|
            0 <= m < p && #[trigger] side[m] == survivors[gap - 1] && forall|k: int|
                m < k < p ==> !survivors.contains(#[trigger] side[k])
    }
}

proof fn an_anchor_is_the_nearest<T>(survivors: Seq<T>, side: Seq<T>, p: int)
    requires
        0 <= p <= side.len(),
    ensures
        is_nearest(survivors, side, p, anchor_in(survivors, side, p)),
    decreases p,
{
    if p > 0 {
        let x = side[p - 1];
        place_of_is_first(survivors, x, 0);
        match place_of(survivors, x, 0) {
            Some(r) => {
                assert(side[p - 1] == survivors[r]);
            },
            None => {
                an_anchor_is_the_nearest(survivors, side, p - 1);
                let gap = anchor_in(survivors, side, p - 1);
                assert(!survivors.contains(x));
                if gap > 0 {
                    let m = choose|m: int|
                        0 <= m < p - 1 && #[trigger] side[m] == survivors[gap - 1] && forall|k: int|
                            m < k < p - 1 ==> !survivors.contains(#[trigger] side[k]);
                    assert(side[m] == survivors[gap - 1]);
                }
            },
        }
    }
}

proof fn what_is_in_a_gap_is_anchored<T>(q: Sequences<T>, gap: int, n: int)
    requires
        0 <= n <= q.added.len(),
    ensures
        forall|x: T| #[trigger]
            q.in_gap(gap, n).contains(x) ==> anchor_of(q.survivors, q.ours, q.theirs, x) == gap,
    decreases n,
{
    if n > 0 {
        what_is_in_a_gap_is_anchored(q, gap, n - 1);
        let front = q.in_gap(gap, n - 1);
        let all = q.in_gap(gap, n);
        assert forall|x: T| #[trigger] all.contains(x) implies anchor_of(
            q.survivors,
            q.ours,
            q.theirs,
            x,
        ) == gap by {
            let i = choose|i: int| 0 <= i < all.len() && all[i] == x;
            if i < front.len() {
                assert(front[i] == x);
                assert(front.contains(x));
            }
        }
    }
}

proof fn a_placed_addition_is_anchored<T>(q: Sequences<T>, n: int, i: int)
    requires
        0 <= i < q.placed_upto(n).len(),
        q.placed_upto(n)[i].added,
    ensures
        q.placed_upto(n)[i].gap == anchor_of(
            q.survivors,
            q.ours,
            q.theirs,
            q.placed_upto(n)[i].item,
        ),
    decreases n,
{
    broadcast use vstd::seq_lib::group_to_multiset_ensures;

    let at = if n <= 0 {
        0
    } else {
        n
    };
    what_is_in_a_gap_is_anchored(q, at, q.added.len() as int);
    let inside = q.in_gap(at, q.added.len() as int);
    let gap = q.gap(at);
    a_gap_keeps_what_it_holds(inside, q.ours, q.theirs);
    assert forall|k: int| 0 <= k < gap.len() implies anchor_of(
        q.survivors,
        q.ours,
        q.theirs,
        #[trigger] gap[k],
    ) == at by {
        assert(gap.to_multiset().count(gap[k]) > 0);
        assert(inside.to_multiset().count(gap[k]) > 0);
        assert(inside.contains(gap[k]));
    }
    if n <= 0 {
        assert(q.placed_upto(n)[i].item == gap[i]);
    } else {
        let front = q.placed_upto(n - 1);
        let here = q.survivor_items(n);
        if i < front.len() {
            assert(q.placed_upto(n)[i] == front[i]);
            a_placed_addition_is_anchored(q, n - 1, i);
        } else if i < front.len() + here.len() {
            assert(q.placed_upto(n)[i] == here[i - front.len()]);
        } else {
            assert(q.placed_upto(n)[i] == q.gap_items(n)[i - front.len() - here.len()]);
            assert(q.placed_upto(n)[i].item == gap[i - front.len() - here.len()]);
        }
    }
}

/// An addition stands where it was written: behind the nearest survivor in front of it,
/// on the side that wrote it. Where both sides wrote it, it stands where one of them has
/// it, and not behind where the other does.
pub proof fn an_addition_stands_where_it_was_written<T>(q: Sequences<T>, i: int, p: int, r: int)
    requires
        0 <= i < q.placed().len(),
        q.placed()[i].added,
        q.ours.no_duplicates(),
        q.theirs.no_duplicates(),
    ensures
        ({
            let x = q.placed()[i].item;
            let gap = q.placed()[i].gap;
            let in_ours = 0 <= p < q.ours.len() && q.ours[p] == x;
            let in_theirs = 0 <= r < q.theirs.len() && q.theirs[r] == x;
            &&& in_ours && !q.theirs.contains(x) ==> is_nearest(q.survivors, q.ours, p, gap)
            &&& in_theirs && !q.ours.contains(x) ==> is_nearest(q.survivors, q.theirs, r, gap)
            &&& in_ours && in_theirs ==> exists|o: int, t: int|
                #![trigger is_nearest(q.survivors, q.ours, p, o), is_nearest(q.survivors, q.theirs, r, t)]
                is_nearest(q.survivors, q.ours, p, o) && is_nearest(q.survivors, q.theirs, r, t)
                    && gap == if o <= t {
                    o
                } else {
                    t
                }
        }),
{
    let x = q.placed()[i].item;
    a_placed_addition_is_anchored(q, q.survivors.len() as int, i);
    place_of_is_first(q.ours, x, 0);
    place_of_is_first(q.theirs, x, 0);
    place_of_is_contains(q.ours, x);
    place_of_is_contains(q.theirs, x);
    if 0 <= p < q.ours.len() {
        an_anchor_is_the_nearest(q.survivors, q.ours, p);
    }
    if 0 <= r < q.theirs.len() {
        an_anchor_is_the_nearest(q.survivors, q.theirs, r);
    }
    if 0 <= p < q.ours.len() && q.ours[p] == x {
        assert(q.ours.contains(x));
        assert(place_of(q.ours, x, 0) == Some(p));
    }
    if 0 <= r < q.theirs.len() && q.theirs[r] == x {
        assert(q.theirs.contains(x));
        assert(place_of(q.theirs, x, 0) == Some(r));
    }
}

} // verus!
