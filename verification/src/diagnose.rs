//! Which lines of base each side rewrote, where those rewrites meet, and what
//! the meeting consists of.
//!
//! Every field here is read off the two differences. A hunk's ranges are those of
//! the patch without context, so an edit's range is exactly the base lines it
//! replaces. The tokens are set differences over the words of the lines each side
//! wrote and deleted. `collision` is the intersection of the two sides' deleted
//! base lines.

use vstd::prelude::*;
use crate::binding::{tokens, word_tokens};
use crate::patch::{edit_views, edits, edits_of, Edit, EditView, real_edit};
use crate::text::{
    add_sorted, add_sorted_sorts, chars_of, list_has, push_sorted, strictly_sorted, string_of, strs,
    texts,
};

verus! {

/// What one side did to one hunk of base.
#[derive(Debug, Clone, Copy, PartialEq, Eq, Structural)]
pub enum SideAction {
    /// This side left this hunk of base alone.
    Untouched,
    /// Wrote lines where base had none.
    Added,
    /// Deleted base lines and wrote nothing in their place.
    Removed,
    /// Deleted base lines and wrote different ones.
    Modified,
}

impl SideAction {
    /// The tag of the action on the wire.
    pub open spec fn tag(self) -> Seq<char> {
        match self {
            SideAction::Untouched => "untouched"@,
            SideAction::Added => "added"@,
            SideAction::Removed => "removed"@,
            SideAction::Modified => "modified"@,
        }
    }

    /// The wire tag.
    pub fn wire(&self) -> (r: &'static str)
        ensures
            r@ == self.tag(),
    {
        match self {
            SideAction::Untouched => "untouched",
            SideAction::Added => "added",
            SideAction::Removed => "removed",
            SideAction::Modified => "modified",
        }
    }
}

/// One side's edit to one hunk.
#[derive(Debug, Clone, PartialEq, Eq)]
pub struct SideEdit {
    pub action: SideAction,
    /// Base lines this side deleted, verbatim and in order.
    pub removed: Vec<String>,
    /// Lines this side wrote in their place, verbatim and in order.
    pub added: Vec<String>,
    /// Words present in what this side wrote and absent from what it deleted.
    pub tokens_added: Vec<String>,
    /// Words present in what this side deleted and absent from what it wrote.
    pub tokens_removed: Vec<String>,
}

/// A [`SideEdit`] with its strings read as texts.
pub struct SideEditView {
    pub action: SideAction,
    pub removed: Seq<Seq<char>>,
    pub added: Seq<Seq<char>>,
    pub tokens_added: Seq<Seq<char>>,
    pub tokens_removed: Seq<Seq<char>>,
}

impl View for SideEdit {
    type V = SideEditView;

    open spec fn view(&self) -> SideEditView {
        SideEditView {
            action: self.action,
            removed: strs(self.removed@),
            added: strs(self.added@),
            tokens_added: strs(self.tokens_added@),
            tokens_removed: strs(self.tokens_removed@),
        }
    }
}

/// What a side did, from what it deleted and what it wrote.
pub open spec fn action_for(removed: Seq<Seq<char>>, added: Seq<Seq<char>>) -> SideAction {
    if removed.len() == 0 {
        if added.len() == 0 {
            SideAction::Untouched
        } else {
            SideAction::Added
        }
    } else if added.len() == 0 {
        SideAction::Removed
    } else {
        SideAction::Modified
    }
}

/// The list with the first `k` of the texts added at their places.
pub open spec fn with_sorted(v: Seq<Seq<char>>, ws: Seq<Seq<char>>, k: int) -> Seq<Seq<char>>
    decreases k,
{
    if k <= 0 {
        v
    } else {
        add_sorted(with_sorted(v, ws, k - 1), ws[k - 1])
    }
}

/// The words of the first `k` lines, in the order of texts, each once.
pub open spec fn words_upto(ls: Seq<Seq<char>>, k: int) -> Seq<Seq<char>>
    decreases k,
{
    if k <= 0 {
        Seq::empty()
    } else {
        with_sorted(words_upto(ls, k - 1), tokens(ls[k - 1]), tokens(ls[k - 1]).len() as int)
    }
}

/// The words of the lines, in the order of texts, each once.
pub open spec fn words_of(ls: Seq<Seq<char>>) -> Seq<Seq<char>> {
    words_upto(ls, ls.len() as int)
}

/// Those of the first `k` texts that are not in the other list.
pub open spec fn minus(a: Seq<Seq<char>>, b: Seq<Seq<char>>, k: int) -> Seq<Seq<char>>
    decreases k,
{
    if k <= 0 {
        Seq::empty()
    } else if b.contains(a[k - 1]) {
        minus(a, b, k - 1)
    } else {
        minus(a, b, k - 1).push(a[k - 1])
    }
}

/// Those of the first `k` texts that are in the other list too.
pub open spec fn common(a: Seq<Seq<char>>, b: Seq<Seq<char>>, k: int) -> Seq<Seq<char>>
    decreases k,
{
    if k <= 0 {
        Seq::empty()
    } else if b.contains(a[k - 1]) {
        common(a, b, k - 1).push(a[k - 1])
    } else {
        common(a, b, k - 1)
    }
}

/// A side's edit, from what it deleted and what it wrote.
pub open spec fn side_edit(removed: Seq<Seq<char>>, added: Seq<Seq<char>>) -> SideEditView {
    let wrote = words_of(added);
    let deleted = words_of(removed);
    SideEditView {
        action: action_for(removed, added),
        removed,
        added,
        tokens_added: minus(wrote, deleted, wrote.len() as int),
        tokens_removed: minus(deleted, wrote, deleted.len() as int),
    }
}

fn sorted_words(ls: &Vec<String>) -> (r: Vec<String>)
    ensures
        strs(r@) == words_of(strs(ls@)),
{
    let ghost all = strs(ls@);
    let mut out: Vec<String> = Vec::new();
    let mut i: usize = 0;
    proof {
        assert(strs(out@) =~= words_upto(all, 0));
    }
    while i < ls.len()
        invariant
            i <= ls@.len(),
            all == strs(ls@),
            strs(out@) == words_upto(all, i as int),
        decreases ls@.len() - i,
    {
        let ws = word_tokens(chars_of(ls[i].as_str()).as_slice());
        let ghost held = strs(out@);
        let ghost wv = texts(ws@);
        proof {
            assert(all[i as int] == ls@[i as int]@);
        }
        let mut k: usize = 0;
        while k < ws.len()
            invariant
                k <= ws@.len(),
                wv == texts(ws@),
                strs(out@) == with_sorted(held, wv, k as int),
            decreases ws@.len() - k,
        {
            proof {
                assert(wv[k as int] == ws@[k as int]@);
            }
            push_sorted(&mut out, string_of(ws[k].as_slice()).as_str());
            k = k + 1;
        }
        i = i + 1;
    }
    out
}

fn list_minus(a: &Vec<String>, b: &Vec<String>) -> (r: Vec<String>)
    ensures
        strs(r@) == minus(strs(a@), strs(b@), a@.len() as int),
{
    let mut out: Vec<String> = Vec::new();
    let mut i: usize = 0;
    proof {
        assert(strs(out@) =~= minus(strs(a@), strs(b@), 0));
    }
    while i < a.len()
        invariant
            i <= a@.len(),
            strs(out@) == minus(strs(a@), strs(b@), i as int),
        decreases a@.len() - i,
    {
        let ghost held = strs(out@);
        proof {
            assert(strs(a@)[i as int] == a@[i as int]@);
        }
        if !list_has(b, a[i].as_str()) {
            out.push(a[i].clone());
            proof {
                assert(strs(out@) =~= held.push(a@[i as int]@));
            }
        }
        i = i + 1;
    }
    out
}

fn list_common(a: &Vec<String>, b: &Vec<String>) -> (r: Vec<String>)
    ensures
        strs(r@) == common(strs(a@), strs(b@), a@.len() as int),
{
    let mut out: Vec<String> = Vec::new();
    let mut i: usize = 0;
    proof {
        assert(strs(out@) =~= common(strs(a@), strs(b@), 0));
    }
    while i < a.len()
        invariant
            i <= a@.len(),
            strs(out@) == common(strs(a@), strs(b@), i as int),
        decreases a@.len() - i,
    {
        let ghost held = strs(out@);
        proof {
            assert(strs(a@)[i as int] == a@[i as int]@);
        }
        if list_has(b, a[i].as_str()) {
            out.push(a[i].clone());
            proof {
                assert(strs(out@) =~= held.push(a@[i as int]@));
            }
        }
        i = i + 1;
    }
    out
}

impl SideEdit {
    /// The edit of a side that deleted and wrote these lines.
    pub fn of(removed: Vec<String>, added: Vec<String>) -> (r: Self)
        ensures
            r@ == side_edit(strs(removed@), strs(added@)),
    {
        let action = match (removed.len() == 0, added.len() == 0) {
            (true, true) => SideAction::Untouched,
            (true, false) => SideAction::Added,
            (false, true) => SideAction::Removed,
            (false, false) => SideAction::Modified,
        };
        let wrote = sorted_words(&added);
        let deleted = sorted_words(&removed);
        let tokens_added = list_minus(&wrote, &deleted);
        let tokens_removed = list_minus(&deleted, &wrote);
        proof {
            assert(strs(wrote@).len() == wrote@.len());
            assert(strs(deleted@).len() == deleted@.len());
        }
        SideEdit { action, tokens_added, tokens_removed, removed, added }
    }
}

/// One place inside a conflict where the two sides' edits meet.
#[derive(Debug, Clone, PartialEq, Eq)]
pub struct Hunk {
    /// The base lines this hunk replaces, counted from one and inclusive.
    /// `end < start` means a pure insertion in front of `start`, which has a position
    /// and no extent.
    pub base_start: usize,
    pub base_end: usize,
    pub ours: SideEdit,
    pub theirs: SideEdit,
    /// Base lines both sides deleted or rewrote.
    pub collision: Vec<String>,
}

/// A [`Hunk`] with its strings read as texts.
pub struct HunkView {
    pub base_start: int,
    pub base_end: int,
    pub ours: SideEditView,
    pub theirs: SideEditView,
    pub collision: Seq<Seq<char>>,
}

impl View for Hunk {
    type V = HunkView;

    open spec fn view(&self) -> HunkView {
        HunkView {
            base_start: self.base_start as int,
            base_end: self.base_end as int,
            ours: self.ours@,
            theirs: self.theirs@,
            collision: strs(self.collision@),
        }
    }
}

/// The views of a list of hunks.
pub open spec fn hunk_list(v: Seq<Hunk>) -> Seq<HunkView> {
    v.map_values(|h: Hunk| h@)
}

/// An edit and whether it is ours.
pub struct Sided {
    pub is_ours: bool,
    pub edit: EditView,
}

/// The order of edits: by where they start, then by how many lines they replace,
/// then ours before theirs.
pub open spec fn edit_before(a: Sided, b: Sided) -> bool {
    if a.edit.start != b.edit.start {
        a.edit.start < b.edit.start
    } else if a.edit.len != b.edit.len {
        a.edit.len < b.edit.len
    } else {
        a.is_ours && !b.is_ours
    }
}

/// The first index at or after `k` of an edit that comes after `x`, or the
/// length.
pub open spec fn edit_place(s: Seq<Sided>, x: Sided, k: int) -> int
    decreases s.len() - k,
{
    if k < 0 || k >= s.len() {
        s.len() as int
    } else if edit_before(x, s[k]) {
        k
    } else {
        edit_place(s, x, k + 1)
    }
}

/// The edits in their order; of two equal ones the one that was listed first.
pub open spec fn in_order(s: Seq<Sided>) -> Seq<Sided>
    decreases s.len(),
{
    if s.len() == 0 {
        Seq::empty()
    } else {
        let front = in_order(s.drop_last());
        front.insert(edit_place(front, s.last(), 0), s.last())
    }
}

/// The two base spans overlap, or have nothing between them.
pub open spec fn touch(a: EditView, b: EditView) -> bool {
    a.start <= b.start + b.len && b.start <= a.start + a.len
}

/// The edit touches one of the group.
pub open spec fn joins(group: Seq<Sided>, x: Sided) -> bool {
    exists|i: int| 0 <= i < group.len() && touch((#[trigger] group[i]).edit, x.edit)
}

/// The first `k` edits, in runs that touch: an edit that touches one of the
/// group before it joins that group, any other starts one.
pub open spec fn groups(s: Seq<Sided>, k: int) -> Seq<Seq<Sided>>
    decreases k,
{
    if k <= 0 {
        Seq::empty()
    } else {
        let front = groups(s, k - 1);
        let x = s[k - 1];
        if front.len() > 0 && joins(front.last(), x) {
            front.drop_last().push(front.last().push(x))
        } else {
            front.push(seq![x])
        }
    }
}

/// The first base line of the first `k` edits of a group.
pub open spec fn lowest(g: Seq<Sided>, k: int) -> int
    decreases k,
{
    if k <= 1 {
        g[0].edit.start
    } else {
        let m = lowest(g, k - 1);
        if g[k - 1].edit.start < m {
            g[k - 1].edit.start
        } else {
            m
        }
    }
}

/// One past the last base line of the first `k` edits of a group.
pub open spec fn highest(g: Seq<Sided>, k: int) -> int
    decreases k,
{
    if k <= 1 {
        g[0].edit.start + g[0].edit.len
    } else {
        let m = highest(g, k - 1);
        if g[k - 1].edit.start + g[k - 1].edit.len > m {
            g[k - 1].edit.start + g[k - 1].edit.len
        } else {
            m
        }
    }
}

/// What one side deleted in the first `k` edits of a group.
pub open spec fn side_removed(g: Seq<Sided>, ours: bool, k: int) -> Seq<Seq<char>>
    decreases k,
{
    if k <= 0 {
        Seq::empty()
    } else if g[k - 1].is_ours == ours {
        side_removed(g, ours, k - 1) + g[k - 1].edit.removed
    } else {
        side_removed(g, ours, k - 1)
    }
}

/// What one side wrote in the first `k` edits of a group.
pub open spec fn side_added(g: Seq<Sided>, ours: bool, k: int) -> Seq<Seq<char>>
    decreases k,
{
    if k <= 0 {
        Seq::empty()
    } else if g[k - 1].is_ours == ours {
        side_added(g, ours, k - 1) + g[k - 1].edit.added
    } else {
        side_added(g, ours, k - 1)
    }
}

/// The edit of one side to a group.
pub open spec fn group_side(g: Seq<Sided>, ours: bool) -> SideEditView {
    side_edit(side_removed(g, ours, g.len() as int), side_added(g, ours, g.len() as int))
}

/// The hunk that a group of touching edits is.
pub open spec fn hunk_of(g: Seq<Sided>) -> HunkView {
    let hi = highest(g, g.len() as int);
    let o = group_side(g, true);
    let t = group_side(g, false);
    HunkView {
        base_start: lowest(g, g.len() as int),
        base_end: if hi > 0 {
            hi - 1
        } else {
            0
        },
        ours: o,
        theirs: t,
        collision: common(o.removed, t.removed, o.removed.len() as int),
    }
}

/// The edit as it is placed: an insertion stands in front of the line it pushes down,
/// where a line difference names the line it comes behind.
pub open spec fn placed(e: EditView) -> EditView {
    if e.len == 0 {
        EditView { start: e.start + 1, ..e }
    } else {
        e
    }
}

/// The edits of both sides, ours first.
pub open spec fn both_sides(base: Seq<char>, ours: Seq<char>, theirs: Seq<char>) -> Seq<Sided> {
    edits_of(base, ours).map_values(|e: EditView| Sided { is_ours: true, edit: placed(e) })
        + edits_of(base, theirs).map_values(
        |e: EditView| Sided { is_ours: false, edit: placed(e) },
    )
}

/// The hunks of a conflict: the touching runs of both sides' edits, in order.
pub open spec fn hunks_of(base: Seq<char>, ours: Seq<char>, theirs: Seq<char>) -> Seq<HunkView> {
    let all = in_order(both_sides(base, ours, theirs));
    groups(all, all.len() as int).map_values(|g: Seq<Sided>| hunk_of(g))
}

/// An edit in a list of its side's edits.
#[derive(Clone, Copy)]
struct Ref {
    is_ours: bool,
    at: usize,
}

spec fn sided(oe: Seq<Edit>, te: Seq<Edit>, r: Ref) -> Sided {
    Sided {
        is_ours: r.is_ours,
        edit: if r.is_ours {
            oe[r.at as int]@
        } else {
            te[r.at as int]@
        },
    }
}

spec fn ref_ok(oe: Seq<Edit>, te: Seq<Edit>, r: Ref) -> bool {
    if r.is_ours {
        r.at < oe.len() && oe[r.at as int].start + oe[r.at as int].len <= usize::MAX
    } else {
        r.at < te.len() && te[r.at as int].start + te[r.at as int].len <= usize::MAX
    }
}

spec fn refs_ok(oe: Seq<Edit>, te: Seq<Edit>, rs: Seq<Ref>) -> bool {
    forall|i: int| 0 <= i < rs.len() ==> ref_ok(oe, te, #[trigger] rs[i])
}

spec fn sided_list(oe: Seq<Edit>, te: Seq<Edit>, rs: Seq<Ref>) -> Seq<Sided> {
    rs.map_values(|r: Ref| sided(oe, te, r))
}

fn edit_at<'a>(oe: &'a Vec<Edit>, te: &'a Vec<Edit>, r: Ref) -> (e: &'a Edit)
    requires
        ref_ok(oe@, te@, r),
    ensures
        e@ == sided(oe@, te@, r).edit,
        e.start + e.len <= usize::MAX,
{
    if r.is_ours {
        &oe[r.at]
    } else {
        &te[r.at]
    }
}

fn insert_ref(oe: &Vec<Edit>, te: &Vec<Edit>, rs: &mut Vec<Ref>, x: Ref)
    requires
        ref_ok(oe@, te@, x),
        refs_ok(oe@, te@, old(rs)@),
    ensures
        refs_ok(oe@, te@, final(rs)@),
        sided_list(oe@, te@, final(rs)@) == ({
            let front = sided_list(oe@, te@, old(rs)@);
            let y = sided(oe@, te@, x);
            front.insert(edit_place(front, y, 0), y)
        }),
{
    let ghost start = rs@;
    let ghost front = sided_list(oe@, te@, rs@);
    let ghost y = sided(oe@, te@, x);
    let e = edit_at(oe, te, x);
    let mut k: usize = 0;
    while k < rs.len()
        invariant_except_break
            edit_place(front, y, k as int) == edit_place(front, y, 0),
        invariant
            k <= rs@.len(),
            rs@ == start,
            front == sided_list(oe@, te@, rs@),
            refs_ok(oe@, te@, rs@),
            y == sided(oe@, te@, x),
            e@ == y.edit,
        ensures
            k == edit_place(front, y, 0),
        decreases rs@.len() - k,
    {
        let o = rs[k];
        let f = edit_at(oe, te, o);
        proof {
            assert(front[k as int] == sided(oe@, te@, o));
        }
        let ahead = if e.start != f.start {
            e.start < f.start
        } else if e.len != f.len {
            e.len < f.len
        } else {
            x.is_ours && !o.is_ours
        };
        if ahead {
            break ;
        }
        k = k + 1;
    }
    rs.insert(k, x);
    proof {
        assert(sided_list(oe@, te@, rs@) =~= front.insert(k as int, y));
        assert forall|i: int| 0 <= i < rs@.len() implies ref_ok(oe@, te@, #[trigger] rs@[i]) by {
            if i < k {
                assert(rs@[i] == start[i]);
            } else if i > k {
                assert(rs@[i] == start[i - 1]);
            }
        }
    }
}

fn order_edits(oe: &Vec<Edit>, te: &Vec<Edit>, Ghost(all): Ghost<Seq<Sided>>) -> (r: Vec<Ref>)
    requires
        all == edit_views(oe@).map_values(|e: EditView| Sided { is_ours: true, edit: e })
            + edit_views(te@).map_values(|e: EditView| Sided { is_ours: false, edit: e }),
        forall|i: int| 0 <= i < oe@.len() ==> (#[trigger] oe@[i]).start + oe@[i].len <= usize::MAX,
        forall|i: int| 0 <= i < te@.len() ==> (#[trigger] te@[i]).start + te@[i].len <= usize::MAX,
    ensures
        refs_ok(oe@, te@, r@),
        sided_list(oe@, te@, r@) == in_order(all),
{
    let mut rs: Vec<Ref> = Vec::new();
    let mut i: usize = 0;
    proof {
        assert(sided_list(oe@, te@, rs@) =~= in_order(all.take(0)));
    }
    while i < oe.len()
        invariant
            i <= oe@.len(),
            all == edit_views(oe@).map_values(|e: EditView| Sided { is_ours: true, edit: e })
                + edit_views(te@).map_values(|e: EditView| Sided { is_ours: false, edit: e }),
            forall|i: int|
                0 <= i < oe@.len() ==> (#[trigger] oe@[i]).start + oe@[i].len <= usize::MAX,
            refs_ok(oe@, te@, rs@),
            sided_list(oe@, te@, rs@) == in_order(all.take(i as int)),
        decreases oe@.len() - i,
    {
        insert_ref(oe, te, &mut rs, Ref { is_ours: true, at: i });
        proof {
            assert(all.take(i + 1).drop_last() =~= all.take(i as int));
            assert(all.take(i + 1).last() == sided(oe@, te@, Ref { is_ours: true, at: i }));
        }
        i = i + 1;
    }
    let mut j: usize = 0;
    while j < te.len()
        invariant
            j <= te@.len(),
            all == edit_views(oe@).map_values(|e: EditView| Sided { is_ours: true, edit: e })
                + edit_views(te@).map_values(|e: EditView| Sided { is_ours: false, edit: e }),
            forall|i: int|
                0 <= i < te@.len() ==> (#[trigger] te@[i]).start + te@[i].len <= usize::MAX,
            refs_ok(oe@, te@, rs@),
            sided_list(oe@, te@, rs@) == in_order(all.take(oe@.len() + j)),
        decreases te@.len() - j,
    {
        insert_ref(oe, te, &mut rs, Ref { is_ours: false, at: j });
        proof {
            let n = oe@.len() + j;
            assert(all.take(n + 1).drop_last() =~= all.take(n));
            assert(all.take(n + 1).last() == sided(oe@, te@, Ref { is_ours: false, at: j }));
        }
        j = j + 1;
    }
    proof {
        assert(all.take(all.len() as int) =~= all);
    }
    rs
}

fn push_strings(out: &mut Vec<String>, v: &Vec<String>)
    ensures
        strs(final(out)@) == strs(old(out)@) + strs(v@),
{
    let ghost before = strs(out@);
    let mut i: usize = 0;
    while i < v.len()
        invariant
            i <= v@.len(),
            strs(out@) == before + strs(v@).take(i as int),
        decreases v@.len() - i,
    {
        let ghost held = out@;
        out.push(v[i].clone());
        i = i + 1;
        proof {
            assert(strs(out@) =~= strs(held).push(v@[i - 1]@));
            assert(strs(v@).take(i as int) =~= strs(v@).take(i - 1).push(v@[i - 1]@));
        }
    }
    proof {
        assert(strs(v@).take(v@.len() as int) =~= strs(v@));
    }
}

fn collect_side(oe: &Vec<Edit>, te: &Vec<Edit>, g: &Vec<Ref>, ours: bool) -> (r: SideEdit)
    requires
        refs_ok(oe@, te@, g@),
    ensures
        r@ == group_side(sided_list(oe@, te@, g@), ours),
{
    let ghost gv = sided_list(oe@, te@, g@);
    let mut removed: Vec<String> = Vec::new();
    let mut added: Vec<String> = Vec::new();
    let mut i: usize = 0;
    proof {
        assert(strs(removed@) =~= side_removed(gv, ours, 0));
        assert(strs(added@) =~= side_added(gv, ours, 0));
    }
    while i < g.len()
        invariant
            i <= g@.len(),
            refs_ok(oe@, te@, g@),
            gv == sided_list(oe@, te@, g@),
            strs(removed@) == side_removed(gv, ours, i as int),
            strs(added@) == side_added(gv, ours, i as int),
        decreases g@.len() - i,
    {
        let r = g[i];
        proof {
            assert(gv[i as int] == sided(oe@, te@, r));
        }
        if r.is_ours == ours {
            let e = edit_at(oe, te, r);
            push_strings(&mut removed, &e.removed);
            push_strings(&mut added, &e.added);
        }
        i = i + 1;
    }
    SideEdit::of(removed, added)
}

fn make_hunk(oe: &Vec<Edit>, te: &Vec<Edit>, g: &Vec<Ref>) -> (r: Hunk)
    requires
        g@.len() > 0,
        refs_ok(oe@, te@, g@),
    ensures
        r@ == hunk_of(sided_list(oe@, te@, g@)),
{
    let ghost gv = sided_list(oe@, te@, g@);
    let first = edit_at(oe, te, g[0]);
    let mut lo: usize = first.start;
    let mut hi: usize = first.start + first.len;
    let mut i: usize = 1;
    proof {
        assert(gv[0] == sided(oe@, te@, g@[0]));
    }
    while i < g.len()
        invariant
            1 <= i <= g@.len(),
            refs_ok(oe@, te@, g@),
            gv == sided_list(oe@, te@, g@),
            lo == lowest(gv, i as int),
            hi == highest(gv, i as int),
        decreases g@.len() - i,
    {
        let e = edit_at(oe, te, g[i]);
        proof {
            assert(gv[i as int] == sided(oe@, te@, g@[i as int]));
        }
        if e.start < lo {
            lo = e.start;
        }
        if e.start + e.len > hi {
            hi = e.start + e.len;
        }
        i = i + 1;
    }
    let ours = collect_side(oe, te, g, true);
    let theirs = collect_side(oe, te, g, false);
    let collision = list_common(&ours.removed, &theirs.removed);
    let base_end: usize = if hi > 0 {
        hi - 1
    } else {
        0
    };
    Hunk { base_start: lo, base_end, ours, theirs, collision }
}

fn touches_any(oe: &Vec<Edit>, te: &Vec<Edit>, g: &Vec<Ref>, x: Ref) -> (r: bool)
    requires
        refs_ok(oe@, te@, g@),
        ref_ok(oe@, te@, x),
    ensures
        r == joins(sided_list(oe@, te@, g@), sided(oe@, te@, x)),
{
    let ghost gv = sided_list(oe@, te@, g@);
    let ghost y = sided(oe@, te@, x);
    let b = edit_at(oe, te, x);
    let mut i: usize = 0;
    while i < g.len()
        invariant
            i <= g@.len(),
            refs_ok(oe@, te@, g@),
            gv == sided_list(oe@, te@, g@),
            y == sided(oe@, te@, x),
            b@ == y.edit,
            b.start + b.len <= usize::MAX,
            forall|k: int| 0 <= k < i ==> !touch((#[trigger] gv[k]).edit, y.edit),
        decreases g@.len() - i,
    {
        let a = edit_at(oe, te, g[i]);
        proof {
            assert(gv[i as int] == sided(oe@, te@, g@[i as int]));
        }
        if a.start <= b.start + b.len && b.start <= a.start + a.len {
            return true;
        }
        i = i + 1;
    }
    false
}

fn place_edits(v: Vec<Edit>) -> (r: Vec<Edit>)
    requires
        forall|i: int| 0 <= i < v@.len() ==> (#[trigger] v@[i]).start + v@[i].len < usize::MAX,
    ensures
        r@.len() == v@.len(),
        forall|i: int| 0 <= i < v@.len() ==> (#[trigger] r@[i])@ == placed(v@[i]@),
        forall|i: int| 0 <= i < r@.len() ==> (#[trigger] r@[i]).start + r@[i].len <= usize::MAX,
{
    let ghost all = v@;
    let mut left = v;
    let mut i: usize = 0;
    while i < left.len()
        invariant
            i <= left@.len() == all.len(),
            forall|k: int| 0 <= k < all.len() ==> (#[trigger] all[k]).start + all[k].len < usize::MAX,
            forall|k: int| i <= k < all.len() ==> left@[k] == (#[trigger] all[k]),
            forall|k: int| 0 <= k < i ==> (#[trigger] left@[k])@ == placed(all[k]@),
            forall|k: int| 0 <= k < i ==> (#[trigger] left@[k]).start + left@[k].len <= usize::MAX,
        decreases left@.len() - i,
    {
        let ghost before = left@;
        proof {
            assert(left@[i as int] == all[i as int]);
        }
        if left[i].len == 0 {
            let slot = &mut left[i];
            slot.start = slot.start + 1;
        }
        proof {
            assert(forall|k: int| 0 <= k < before.len() && k != i ==> left@[k] == before[k]);
            assert forall|k: int| 0 <= k < i + 1 implies (#[trigger] left@[k])@ == placed(all[k]@)
                && left@[k].start + left@[k].len <= usize::MAX by {
                if k < i {
                    assert(left@[k] == before[k]);
                }
            }
        }
        i = i + 1;
    }
    left
}

/// What is promised of a hunk: a side did something, and it replaces lines exactly
/// where a side removed one; else it is an insertion, which ends before it starts.
pub open spec fn hunk_stands(h: HunkView) -> bool {
    &&& !(h.ours.action is Untouched && h.theirs.action is Untouched)
    &&& h.base_end < h.base_start <==> h.ours.removed.len() == 0 && h.theirs.removed.len() == 0
    &&& h.base_start > 0
}

/// The per-hunk alignment of two sides' edits to one base text.
///
/// Hunks come out ordered by base position, which makes the output a function of
/// the three texts and nothing else.
pub fn diagnose(base: &str, ours: &str, theirs: &str) -> (r: Vec<Hunk>)
    ensures
        hunk_list(r@) == hunks_of(base@, ours@, theirs@),
        r@.len() == 0 <==> base@ == ours@ && base@ == theirs@,
        forall|i: int| 0 <= i < r@.len() ==> hunk_stands((#[trigger] r@[i])@),
{
    let ro = edits(base, ours);
    let rt = edits(base, theirs);
    let ghost (go, gt) = (ro@, rt@);
    let oe = place_edits(ro);
    let te = place_edits(rt);
    proof {
        let po = |e: EditView| Sided { is_ours: true, edit: placed(e) };
        let pt = |e: EditView| Sided { is_ours: false, edit: placed(e) };
        assert(edit_views(oe@).map_values(|e: EditView| Sided { is_ours: true, edit: e })
            =~= edit_views(go).map_values(po));
        assert(edit_views(te@).map_values(|e: EditView| Sided { is_ours: false, edit: e })
            =~= edit_views(gt).map_values(pt));
    }
    let ghost listed = both_sides(base@, ours@, theirs@);
    let rs = order_edits(&oe, &te, Ghost(listed));
    let ghost all = in_order(listed);
    let mut out: Vec<Hunk> = Vec::new();
    let mut group: Vec<Ref> = Vec::new();
    let mut i: usize = 0;
    let ghost mk = |g: Seq<Sided>| hunk_of(g);
    while i < rs.len()
        invariant
            i <= rs@.len(),
            all == sided_list(oe@, te@, rs@),
            refs_ok(oe@, te@, rs@),
            refs_ok(oe@, te@, group@),
            mk == (|g: Seq<Sided>| hunk_of(g)),
            i == 0 ==> group@.len() == 0 && out@.len() == 0,
            i > 0 ==> group@.len() > 0 && groups(all, i as int).len() > 0 && sided_list(
                oe@,
                te@,
                group@,
            ) == groups(all, i as int).last() && hunk_list(out@) == groups(
                all,
                i as int,
            ).drop_last().map_values(mk),
        decreases rs@.len() - i,
    {
        let x = rs[i];
        let ghost front = groups(all, i as int);
        let ghost y = all[i as int];
        let ghost held = hunk_list(out@);
        proof {
            assert(y == sided(oe@, te@, x));
        }
        if group.len() > 0 && touches_any(&oe, &te, &group, x) {
            let ghost before = group@;
            group.push(x);
            proof {
                assert(sided_list(oe@, te@, group@) =~= sided_list(oe@, te@, before).push(y));
                let now = groups(all, i + 1);
                assert(now =~= front.drop_last().push(front.last().push(y)));
                assert(now.drop_last() =~= front.drop_last());
            }
        } else {
            if group.len() > 0 {
                let h = make_hunk(&oe, &te, &group);
                let ghost before = out@;
                out.push(h);
                proof {
                    assert(hunk_list(out@) =~= hunk_list(before).push(h@));
                }
            }
            proof {
                let now = groups(all, i + 1);
                assert(now =~= front.push(seq![y]));
                assert(now.drop_last() =~= front);
                if front.len() > 0 {
                    assert(front =~= front.drop_last().push(front.last()));
                    assert(front.map_values(mk) =~= front.drop_last().map_values(mk).push(
                        hunk_of(front.last()),
                    ));
                }
                assert(hunk_list(out@) =~= front.map_values(mk));
            }
            let mut fresh: Vec<Ref> = Vec::new();
            fresh.push(x);
            group = fresh;
            proof {
                assert(sided_list(oe@, te@, group@) =~= seq![y]);
            }
        }
        i = i + 1;
    }
    if group.len() > 0 {
        let h = make_hunk(&oe, &te, &group);
        let ghost before = out@;
        out.push(h);
        proof {
            let now = groups(all, all.len() as int);
            assert(hunk_list(out@) =~= hunk_list(before).push(h@));
            assert(now =~= now.drop_last().push(now.last()));
            assert(hunk_list(out@) =~= now.map_values(mk));
        }
    } else {
        proof {
            assert(hunk_list(out@) =~= groups(all, all.len() as int).map_values(mk));
        }
    }
    proof {
        assert(edit_views(go).len() == go.len() && edit_views(gt).len() == gt.len());
        assert(listed.len() == go.len() + gt.len());
        assert forall|i: int| 0 <= i < listed.len() implies placed_edit((#[trigger] listed[i]).edit) by {
            if i < go.len() {
                assert(listed[i].edit == placed(go[i]@));
                assert(real_edit(go[i]@));
            } else {
                assert(listed[i].edit == placed(gt[i - go.len()]@));
                assert(real_edit(gt[i - go.len()]@));
            }
        }
        hunks_stand(listed);
        let hs = hunks_of(base@, ours@, theirs@);
        assert(hs.len() == out@.len());
        assert forall|i: int| 0 <= i < out@.len() implies hunk_stands((#[trigger] out@[i])@) by {
            assert(hs[i] == out@[i]@);
            assert(hs[i] == hunk_of(groups(all, all.len() as int)[i]));
        }
    }
    out
}

// ---------------------------------------------------------------------------
// What stands of every hunk
// ---------------------------------------------------------------------------

/// The edit changes something, replaces as many lines as it removes, and stands at or
/// in front of a line.
pub open spec fn placed_edit(e: EditView) -> bool {
    e.removed.len() == e.len && e.removed.len() + e.added.len() > 0 && e.start > 0
}

/// All edits are placed, and where none of them replaces a line they stand at one place.
spec fn sound_group(g: Seq<Sided>) -> bool {
    &&& g.len() > 0
    &&& forall|i: int| 0 <= i < g.len() ==> placed_edit((#[trigger] g[i]).edit)
    &&& (forall|i: int| 0 <= i < g.len() ==> (#[trigger] g[i]).edit.len == 0) ==> forall|i: int|
        0 <= i < g.len() ==> (#[trigger] g[i]).edit.start == g[0].edit.start
}

proof fn ordering_keeps_placed(s: Seq<Sided>)
    requires
        forall|i: int| 0 <= i < s.len() ==> placed_edit((#[trigger] s[i]).edit),
    ensures
        forall|i: int| 0 <= i < in_order(s).len() ==> placed_edit((#[trigger] in_order(s)[i]).edit),
        in_order(s).len() == s.len(),
    decreases s.len(),
{
    if s.len() > 0 {
        let rest = s.drop_last();
        assert forall|i: int| 0 <= i < rest.len() implies placed_edit((#[trigger] rest[i]).edit) by {
            assert(rest[i] == s[i]);
        }
        ordering_keeps_placed(rest);
        let front = in_order(rest);
        edit_place_bounds(front, s.last(), 0);
        let k = edit_place(front, s.last(), 0);
        let all = front.insert(k, s.last());
        assert(placed_edit(s[s.len() - 1].edit));
        assert forall|i: int| 0 <= i < all.len() implies placed_edit((#[trigger] all[i]).edit) by {
            if i < k {
                assert(all[i] == front[i]);
            } else if i > k {
                assert(all[i] == front[i - 1]);
            }
        }
    }
}

proof fn groups_are_sound(s: Seq<Sided>, k: int)
    requires
        0 <= k <= s.len(),
        forall|i: int| 0 <= i < s.len() ==> placed_edit((#[trigger] s[i]).edit),
    ensures
        forall|a: int| 0 <= a < groups(s, k).len() ==> sound_group(#[trigger] groups(s, k)[a]),
        k > 0 ==> groups(s, k).len() > 0,
    decreases k,
{
    if k > 0 {
        groups_are_sound(s, k - 1);
        let front = groups(s, k - 1);
        let gs = groups(s, k);
        let x = s[k - 1];
        if front.len() > 0 && joins(front.last(), x) {
            let n = front.len() - 1;
            let last = front[n];
            let g = last.push(x);
            assert(sound_group(last));
            assert(gs[n] == g);
            assert forall|i: int| 0 <= i < g.len() implies placed_edit((#[trigger] g[i]).edit) by {
                if i < last.len() {
                    assert(g[i] == last[i]);
                }
            }
            if forall|i: int| 0 <= i < g.len() ==> (#[trigger] g[i]).edit.len == 0 {
                assert forall|i: int| 0 <= i < last.len() implies (#[trigger] last[i]).edit.len
                    == 0 by {
                    assert(g[i] == last[i]);
                }
                let j = choose|j: int|
                    0 <= j < last.len() && touch((#[trigger] last[j]).edit, x.edit);
                assert(g[last.len() as int].edit.len == 0);
                assert(last[j].edit.start == last[0].edit.start);
                assert forall|i: int| 0 <= i < g.len() implies (#[trigger] g[i]).edit.start
                    == g[0].edit.start by {
                    if i < last.len() {
                        assert(g[i] == last[i]);
                    }
                }
            }
            assert forall|a: int| 0 <= a < n implies gs[a] == front[a] by {}
        } else {
            let n = front.len() as int;
            assert(gs[n] == seq![x]);
            assert(sound_group(gs[n]));
            assert forall|a: int| 0 <= a < n implies gs[a] == front[a] by {}
        }
    }
}

/// How many lines one side removed among the first `k` edits.
proof fn removals_count(g: Seq<Sided>, k: int)
    requires
        0 <= k <= g.len(),
        forall|i: int| 0 <= i < g.len() ==> placed_edit((#[trigger] g[i]).edit),
    ensures
        side_removed(g, true, k).len() + side_removed(g, false, k).len() == 0 <==> forall|i: int|
            0 <= i < k ==> (#[trigger] g[i]).edit.len == 0,
        k > 0 ==> side_removed(g, true, k).len() + side_removed(g, false, k).len() + side_added(
            g,
            true,
            k,
        ).len() + side_added(g, false, k).len() > 0,
    decreases k,
{
    if k > 0 {
        removals_count(g, k - 1);
        assert(placed_edit(g[k - 1].edit));
    }
}

proof fn bounds_of_a_group(g: Seq<Sided>, k: int)
    requires
        1 <= k <= g.len(),
        forall|i: int| 0 <= i < g.len() ==> placed_edit((#[trigger] g[i]).edit),
    ensures
        0 < lowest(g, k) <= highest(g, k),
        (exists|i: int| 0 <= i < k && (#[trigger] g[i]).edit.len > 0) ==> lowest(g, k) < highest(g, k),
        (forall|i: int|
            0 <= i < k ==> (#[trigger] g[i]).edit.len == 0 && g[i].edit.start == g[0].edit.start)
            ==> lowest(g, k) == highest(g, k),
        forall|i: int|
            0 <= i < k ==> lowest(g, k) <= (#[trigger] g[i]).edit.start && g[i].edit.start
                + g[i].edit.len <= highest(g, k),
    decreases k,
{
    assert(placed_edit(g[k - 1].edit));
    if k > 1 {
        bounds_of_a_group(g, k - 1);
    }
}

proof fn hunks_stand(s: Seq<Sided>)
    requires
        forall|i: int| 0 <= i < s.len() ==> placed_edit((#[trigger] s[i]).edit),
    ensures
        ({
            let all = in_order(s);
            let gs = groups(all, all.len() as int);
            &&& gs.len() == 0 <==> s.len() == 0
            &&& forall|a: int| 0 <= a < gs.len() ==> hunk_stands(hunk_of(#[trigger] gs[a]))
        }),
{
    ordering_keeps_placed(s);
    let all = in_order(s);
    groups_are_sound(all, all.len() as int);
    let gs = groups(all, all.len() as int);
    assert forall|a: int| 0 <= a < gs.len() implies hunk_stands(hunk_of(#[trigger] gs[a])) by {
        let g = gs[a];
        let n = g.len() as int;
        assert(sound_group(g));
        removals_count(g, n);
        bounds_of_a_group(g, n);
        let h = hunk_of(g);
        if h.ours.removed.len() == 0 && h.theirs.removed.len() == 0 {
            assert(forall|i: int| 0 <= i < g.len() ==> (#[trigger] g[i]).edit.len == 0);
        }
    }
}

// ---------------------------------------------------------------------------
// Base order
// ---------------------------------------------------------------------------

/// No edit stands behind one that starts later.
pub open spec fn starts_ascend(s: Seq<Sided>) -> bool {
    forall|i: int, j: int|
        0 <= i < j < s.len() ==> (#[trigger] s[i]).edit.start <= (#[trigger] s[j]).edit.start
}

proof fn edit_place_bounds(s: Seq<Sided>, x: Sided, k: int)
    requires
        0 <= k <= s.len(),
    ensures
        k <= edit_place(s, x, k) <= s.len(),
        forall|j: int| k <= j < edit_place(s, x, k) ==> !edit_before(x, #[trigger] s[j]),
        edit_place(s, x, k) < s.len() ==> edit_before(x, s[edit_place(s, x, k)]),
    decreases s.len() - k,
{
    if k < s.len() && !edit_before(x, s[k]) {
        edit_place_bounds(s, x, k + 1);
    }
}

proof fn in_order_ascends(s: Seq<Sided>)
    ensures
        starts_ascend(in_order(s)),
    decreases s.len(),
{
    if s.len() > 0 {
        let front = in_order(s.drop_last());
        let x = s.last();
        in_order_ascends(s.drop_last());
        edit_place_bounds(front, x, 0);
        let k = edit_place(front, x, 0);
        let all = front.insert(k, x);
        assert forall|i: int, j: int| 0 <= i < j < all.len() implies (
        #[trigger] all[i]).edit.start <= (#[trigger] all[j]).edit.start by {
            if j < k {
                assert(all[i] == front[i] && all[j] == front[j]);
            } else if i > k {
                assert(all[i] == front[i - 1] && all[j] == front[j - 1]);
            } else if j == k {
                assert(all[i] == front[i]);
            } else {
                assert(all[j] == front[j - 1]);
                if i < k {
                    assert(all[i] == front[i]);
                } else if j - 1 > k {
                    assert(front[k].edit.start <= front[j - 1].edit.start);
                }
            }
        }
    }
}

proof fn lowest_of_a_front(g: Seq<Sided>, x: Sided, k: int)
    requires
        1 <= k <= g.len(),
    ensures
        lowest(g.push(x), k) == lowest(g, k),
    decreases k,
{
    if k > 1 {
        lowest_of_a_front(g, x, k - 1);
    }
}

/// What is known of the groups of the first `k` edits.
spec fn groups_ascend(s: Seq<Sided>, k: int) -> bool {
    let gs = groups(s, k);
    &&& forall|a: int| 0 <= a < gs.len() ==> (#[trigger] gs[a]).len() > 0
    &&& forall|a: int|
        0 <= a < gs.len() ==> lowest(#[trigger] gs[a], gs[a].len() as int) <= s[k - 1].edit.start
    &&& forall|a: int, b: int|
        0 <= a < b < gs.len() ==> lowest(#[trigger] gs[a], gs[a].len() as int) <= lowest(
            #[trigger] gs[b],
            gs[b].len() as int,
        )
}

proof fn grouping_keeps_order(s: Seq<Sided>, k: int)
    requires
        starts_ascend(s),
        0 <= k <= s.len(),
    ensures
        groups_ascend(s, k),
    decreases k,
{
    if k > 0 {
        grouping_keeps_order(s, k - 1);
        let front = groups(s, k - 1);
        let gs = groups(s, k);
        let x = s[k - 1];
        if k > 1 {
            assert(s[k - 2].edit.start <= s[k - 1].edit.start);
        }
        if front.len() > 0 && joins(front.last(), x) {
            let last = front.last();
            let n = front.len() - 1;
            assert(front[n] == last);
            lowest_of_a_front(last, x, last.len() as int);
            assert(gs[n] == last.push(x));
            assert(lowest(gs[n], gs[n].len() as int) == lowest(last, last.len() as int));
            assert forall|a: int| 0 <= a < n implies gs[a] == front[a] by {}
        } else {
            let n = front.len() as int;
            assert(gs[n] == seq![x]);
            assert forall|a: int| 0 <= a < n implies gs[a] == front[a] by {}
        }
    }
}

/// The hunks of a conflict come in the order of the base lines they start at.
pub proof fn hunks_come_in_base_order(
    base: Seq<char>,
    ours: Seq<char>,
    theirs: Seq<char>,
    i: int,
    j: int,
)
    requires
        0 <= i < j < hunks_of(base, ours, theirs).len(),
    ensures
        hunks_of(base, ours, theirs)[i].base_start <= hunks_of(base, ours, theirs)[j].base_start,
{
    let listed = both_sides(base, ours, theirs);
    let all = in_order(listed);
    in_order_ascends(listed);
    grouping_keeps_order(all, all.len() as int);
    let gs = groups(all, all.len() as int);
    assert(hunks_of(base, ours, theirs)[i] == hunk_of(gs[i]));
    assert(hunks_of(base, ours, theirs)[j] == hunk_of(gs[j]));
}

/// The first `n` groups, one behind the other.
pub open spec fn strung(gs: Seq<Seq<Sided>>, n: int) -> Seq<Sided>
    decreases n,
{
    if n <= 0 {
        Seq::empty()
    } else {
        strung(gs, n - 1) + gs[n - 1]
    }
}

proof fn strung_of_a_front(a: Seq<Seq<Sided>>, b: Seq<Seq<Sided>>, n: int)
    requires
        n <= a.len(),
        n <= b.len(),
        forall|i: int| 0 <= i < n ==> a[i] == b[i],
    ensures
        strung(a, n) == strung(b, n),
    decreases n,
{
    if n > 0 {
        strung_of_a_front(a, b, n - 1);
    }
}

/// Every edit joins exactly one group: the groups, one behind the other, are the
/// edits in their order.
pub proof fn every_edit_joins_one_group(s: Seq<Sided>, k: int)
    requires
        0 <= k <= s.len(),
    ensures
        strung(groups(s, k), groups(s, k).len() as int) == s.take(k),
    decreases k,
{
    if k > 0 {
        every_edit_joins_one_group(s, k - 1);
        let front = groups(s, k - 1);
        let all = groups(s, k);
        let x = s[k - 1];
        let n = front.len() as int;
        assert(s.take(k) =~= s.take(k - 1).push(x));
        if n > 0 && joins(front.last(), x) {
            strung_of_a_front(front, all, n - 1);
            assert(strung(all, n) =~= strung(front, n).push(x));
        } else {
            strung_of_a_front(front, all, n);
            assert(strung(all, n + 1) =~= strung(front, n).push(x));
        }
    } else {
        assert(s.take(0) =~= Seq::empty());
    }
}

/// Putting the edits in order neither loses one nor adds one.
pub proof fn ordering_keeps_the_edits(s: Seq<Sided>)
    ensures
        in_order(s).to_multiset() == s.to_multiset(),
    decreases s.len(),
{
    broadcast use vstd::seq_lib::group_to_multiset_ensures;

    if s.len() > 0 {
        let front = in_order(s.drop_last());
        ordering_keeps_the_edits(s.drop_last());
        edit_place_bounds(front, s.last(), 0);
        assert(s =~= s.drop_last().push(s.last()));
        assert(in_order(s).to_multiset() =~= s.to_multiset());
    } else {
        assert(in_order(s) =~= s);
    }
}


// ---------------------------------------------------------------------------
// What a hunk says
// ---------------------------------------------------------------------------

proof fn common_is_a_filter(a: Seq<Seq<char>>, b: Seq<Seq<char>>, k: int)
    requires
        0 <= k <= a.len(),
    ensures
        common(a, b, k) == a.take(k).filter(|l: Seq<char>| b.contains(l)),
    decreases k,
{
    reveal(Seq::filter);
    if k > 0 {
        common_is_a_filter(a, b, k - 1);
        assert(a.take(k).drop_last() =~= a.take(k - 1));
        assert(a.take(k).last() == a[k - 1]);
    } else {
        assert(a.take(0) =~= Seq::empty());
    }
}

/// The word stands on one of the lines.
pub open spec fn has_word(ls: Seq<Seq<char>>, w: Seq<char>) -> bool {
    exists|i: int| 0 <= i < ls.len() && tokens(#[trigger] ls[i]).contains(w)
}

proof fn with_sorted_holds(v: Seq<Seq<char>>, ws: Seq<Seq<char>>, k: int)
    requires
        strictly_sorted(v),
        0 <= k <= ws.len(),
    ensures
        strictly_sorted(with_sorted(v, ws, k)),
        forall|w: Seq<char>| #[trigger]
            with_sorted(v, ws, k).contains(w) <==> v.contains(w) || ws.take(k).contains(w),
    decreases k,
{
    if k > 0 {
        with_sorted_holds(v, ws, k - 1);
        add_sorted_sorts(with_sorted(v, ws, k - 1), ws[k - 1]);
        let now = ws.take(k);
        let was = ws.take(k - 1);
        assert forall|w: Seq<char>| #[trigger] now.contains(w) <==> was.contains(w) || w == ws[k
            - 1] by {
            if was.contains(w) {
                let i = choose|i: int| 0 <= i < was.len() && was[i] == w;
                assert(now[i] == w);
            }
            assert(now[k - 1] == ws[k - 1]);
            if now.contains(w) && w != ws[k - 1] {
                let i = choose|i: int| 0 <= i < now.len() && now[i] == w;
                assert(was[i] == w);
            }
        }
    }
}

proof fn words_upto_hold(ls: Seq<Seq<char>>, k: int)
    requires
        0 <= k <= ls.len(),
    ensures
        strictly_sorted(words_upto(ls, k)),
        forall|w: Seq<char>| #[trigger]
            words_upto(ls, k).contains(w) <==> has_word(ls.take(k), w),
    decreases k,
{
    if k > 0 {
        words_upto_hold(ls, k - 1);
        let ts = tokens(ls[k - 1]);
        with_sorted_holds(words_upto(ls, k - 1), ts, ts.len() as int);
        assert(ts.take(ts.len() as int) =~= ts);
        let now = ls.take(k);
        let was = ls.take(k - 1);
        assert forall|w: Seq<char>| #[trigger] words_upto(ls, k).contains(w) <==> has_word(
            now,
            w,
        ) by {
            if has_word(was, w) {
                let i = choose|i: int| 0 <= i < was.len() && tokens(#[trigger] was[i]).contains(w);
                assert(now[i] == was[i]);
                assert(tokens(now[i]).contains(w));
            }
            if ts.contains(w) {
                assert(tokens(now[k - 1]).contains(w));
            }
            if has_word(now, w) {
                let i = choose|i: int| 0 <= i < now.len() && tokens(#[trigger] now[i]).contains(w);
                if i < k - 1 {
                    assert(was[i] == now[i]);
                    assert(tokens(was[i]).contains(w));
                }
            }
        }
    } else {
        assert forall|w: Seq<char>| !has_word(ls.take(0), w) by {}
    }
}

proof fn minus_holds(a: Seq<Seq<char>>, b: Seq<Seq<char>>, k: int)
    requires
        0 <= k <= a.len(),
    ensures
        forall|w: Seq<char>| #[trigger]
            minus(a, b, k).contains(w) <==> a.take(k).contains(w) && !b.contains(w),
    decreases k,
{
    if k > 0 {
        minus_holds(a, b, k - 1);
        let front = minus(a, b, k - 1);
        let all = minus(a, b, k);
        let now = a.take(k);
        let was = a.take(k - 1);
        let x = a[k - 1];
        assert forall|w: Seq<char>| #[trigger] all.contains(w) <==> now.contains(w) && !b.contains(
            w,
        ) by {
            assert(now.contains(w) <==> was.contains(w) || w == x) by {
                if was.contains(w) {
                    let i = choose|i: int| 0 <= i < was.len() && was[i] == w;
                    assert(now[i] == w);
                }
                assert(now[k - 1] == x);
                if now.contains(w) && w != x {
                    let i = choose|i: int| 0 <= i < now.len() && now[i] == w;
                    assert(was[i] == w);
                }
            }
            if !b.contains(x) {
                assert(all.contains(w) <==> front.contains(w) || w == x) by {
                    if front.contains(w) {
                        let i = choose|i: int| 0 <= i < front.len() && front[i] == w;
                        assert(all[i] == w);
                    }
                    assert(all[front.len() as int] == x);
                    if all.contains(w) && w != x {
                        let i = choose|i: int| 0 <= i < all.len() && all[i] == w;
                        assert(front[i] == w);
                    }
                }
            }
        }
    }
}

/// What is said of one side in a hunk follows from the lines that it removed and wrote:
/// what it did, and which words came and went with them.
pub open spec fn says_what_it_did(e: SideEditView) -> bool {
    &&& e.action is Untouched <==> e.removed.len() == 0 && e.added.len() == 0
    &&& e.action is Added <==> e.removed.len() == 0 && e.added.len() > 0
    &&& e.action is Removed <==> e.removed.len() > 0 && e.added.len() == 0
    &&& e.action is Modified <==> e.removed.len() > 0 && e.added.len() > 0
    &&& forall|w: Seq<char>| #[trigger]
        e.tokens_added.contains(w) <==> has_word(e.added, w) && !has_word(e.removed, w)
    &&& forall|w: Seq<char>| #[trigger]
        e.tokens_removed.contains(w) <==> has_word(e.removed, w) && !has_word(e.added, w)
}

proof fn a_side_edit_says_what_it_did(removed: Seq<Seq<char>>, added: Seq<Seq<char>>)
    ensures
        says_what_it_did(side_edit(removed, added)),
{
    let wrote = words_of(added);
    let deleted = words_of(removed);
    words_upto_hold(added, added.len() as int);
    words_upto_hold(removed, removed.len() as int);
    assert(added.take(added.len() as int) =~= added);
    assert(removed.take(removed.len() as int) =~= removed);
    minus_holds(wrote, deleted, wrote.len() as int);
    minus_holds(deleted, wrote, deleted.len() as int);
    assert(wrote.take(wrote.len() as int) =~= wrote);
    assert(deleted.take(deleted.len() as int) =~= deleted);
}

/// A hunk says of each side what it did there, and the collision is those of the base
/// lines that ours removed which theirs removed too, in their order.
pub proof fn a_hunk_says_what_each_side_did(
    base: Seq<char>,
    ours: Seq<char>,
    theirs: Seq<char>,
    i: int,
)
    requires
        0 <= i < hunks_of(base, ours, theirs).len(),
    ensures
        ({
            let h = hunks_of(base, ours, theirs)[i];
            &&& says_what_it_did(h.ours)
            &&& says_what_it_did(h.theirs)
            &&& h.collision == h.ours.removed.filter(|l: Seq<char>| h.theirs.removed.contains(l))
        }),
{
    let all = in_order(both_sides(base, ours, theirs));
    let g = groups(all, all.len() as int)[i];
    let n = g.len() as int;
    let h = hunk_of(g);
    assert(hunks_of(base, ours, theirs)[i] == h);
    a_side_edit_says_what_it_did(side_removed(g, true, n), side_added(g, true, n));
    a_side_edit_says_what_it_did(side_removed(g, false, n), side_added(g, false, n));
    let o = h.ours.removed;
    common_is_a_filter(o, h.theirs.removed, o.len() as int);
    assert(o.take(o.len() as int) =~= o);
}

proof fn sides_of_a_group(g: Seq<Sided>, is_ours: bool, k: int, l: Seq<char>)
    requires
        0 <= k <= g.len(),
    ensures
        side_removed(g, is_ours, k).contains(l) <==> exists|i: int|
            0 <= i < k && (#[trigger] g[i]).is_ours == is_ours && g[i].edit.removed.contains(l),
        side_added(g, is_ours, k).contains(l) <==> exists|i: int|
            0 <= i < k && (#[trigger] g[i]).is_ours == is_ours && g[i].edit.added.contains(l),
    decreases k,
{
    if k > 0 {
        sides_of_a_group(g, is_ours, k - 1, l);
        let x = g[k - 1];
        if x.is_ours == is_ours {
            sum_holds(side_removed(g, is_ours, k - 1), x.edit.removed, l);
            sum_holds(side_added(g, is_ours, k - 1), x.edit.added, l);
        }
        if exists|i: int|
            0 <= i < k && (#[trigger] g[i]).is_ours == is_ours && g[i].edit.removed.contains(l) {
            let i = choose|i: int|
                0 <= i < k && (#[trigger] g[i]).is_ours == is_ours && g[i].edit.removed.contains(l);
            assert(g[i].is_ours == is_ours);
        }
    }
}

proof fn sum_holds(a: Seq<Seq<char>>, b: Seq<Seq<char>>, x: Seq<char>)
    ensures
        (a + b).contains(x) <==> a.contains(x) || b.contains(x),
{
    if a.contains(x) {
        let k = choose|k: int| 0 <= k < a.len() && a[k] == x;
        assert((a + b)[k] == x);
    }
    if b.contains(x) {
        let k = choose|k: int| 0 <= k < b.len() && b[k] == x;
        assert((a + b)[a.len() + k] == x);
    }
}

proof fn a_strung_edit_is_in_a_group(gs: Seq<Seq<Sided>>, n: int, x: Sided)
    requires
        0 <= n <= gs.len(),
    ensures
        strung(gs, n).contains(x) <==> exists|a: int|
            0 <= a < n && (#[trigger] gs[a]).contains(x),
    decreases n,
{
    if n > 0 {
        a_strung_edit_is_in_a_group(gs, n - 1, x);
        let front = strung(gs, n - 1);
        let all = strung(gs, n);
        if front.contains(x) {
            let k = choose|k: int| 0 <= k < front.len() && front[k] == x;
            assert(all[k] == x);
        }
        if gs[n - 1].contains(x) {
            let g = gs[n - 1];
            let k = choose|k: int| 0 <= k < g.len() && g[k] == x;
            assert(all[front.len() + k] == x);
        }
        if all.contains(x) {
            let k = choose|k: int| 0 <= k < all.len() && all[k] == x;
            if k < front.len() {
                assert(front[k] == x);
            } else {
                assert(gs[n - 1][k - front.len()] == x);
            }
        }
    }
}

/// The edits of one side to base, as the line difference has them.
pub open spec fn edits_by(
    base: Seq<char>,
    ours: Seq<char>,
    theirs: Seq<char>,
    is_ours: bool,
) -> Seq<EditView> {
    if is_ours {
        edits_of(base, ours)
    } else {
        edits_of(base, theirs)
    }
}

/// Nothing that a side did is lost or given to the other: a line is among what a hunk
/// says a side removed, or wrote, exactly where an edit of that side to base removes, or
/// writes, it.
pub proof fn the_hunks_tell_every_edit(
    base: Seq<char>,
    ours: Seq<char>,
    theirs: Seq<char>,
    is_ours: bool,
    l: Seq<char>,
)
    ensures
        ({
            let hs = hunks_of(base, ours, theirs);
            let es = edits_by(base, ours, theirs, is_ours);
            let told = |h: HunkView|
                if is_ours {
                    h.ours
                } else {
                    h.theirs
                };
            &&& (exists|i: int| 0 <= i < hs.len() && told(#[trigger] hs[i]).removed.contains(l))
                <==> (exists|k: int| 0 <= k < es.len() && (#[trigger] es[k]).removed.contains(l))
            &&& (exists|i: int| 0 <= i < hs.len() && told(#[trigger] hs[i]).added.contains(l))
                <==> (exists|k: int| 0 <= k < es.len() && (#[trigger] es[k]).added.contains(l))
        }),
{
    let hs = hunks_of(base, ours, theirs);
    let es = edits_by(base, ours, theirs, is_ours);
    let told = |h: HunkView|
        if is_ours {
            h.ours
        } else {
            h.theirs
        };
    let listed = both_sides(base, ours, theirs);
    let all = in_order(listed);
    let gs = groups(all, all.len() as int);
    every_edit_joins_one_group(all, all.len() as int);
    assert(all.take(all.len() as int) =~= all);
    ordering_keeps_the_edits(listed);
    assert forall|x: Sided| all.contains(x) <==> #[trigger] listed.contains(x) by {
        broadcast use vstd::seq_lib::group_to_multiset_ensures;

        assert(all.to_multiset().contains(x) <==> listed.to_multiset().contains(x));
    }
    let no = edits_of(base, ours).len() as int;
    if exists|i: int| 0 <= i < hs.len() && told(#[trigger] hs[i]).removed.contains(l) {
        let i = choose|i: int| 0 <= i < hs.len() && told(#[trigger] hs[i]).removed.contains(l);
        assert(hs[i] == hunk_of(gs[i]));
        sides_of_a_group(gs[i], is_ours, gs[i].len() as int, l);
        let m = choose|m: int|
            0 <= m < gs[i].len() && (#[trigger] gs[i][m]).is_ours == is_ours
                && gs[i][m].edit.removed.contains(l);
        let k = an_edit_of_its_side(base, ours, theirs, gs, i, m);
        assert(es[k].removed.contains(l));
    }
    if exists|i: int| 0 <= i < hs.len() && told(#[trigger] hs[i]).added.contains(l) {
        let i = choose|i: int| 0 <= i < hs.len() && told(#[trigger] hs[i]).added.contains(l);
        assert(hs[i] == hunk_of(gs[i]));
        sides_of_a_group(gs[i], is_ours, gs[i].len() as int, l);
        let m = choose|m: int|
            0 <= m < gs[i].len() && (#[trigger] gs[i][m]).is_ours == is_ours
                && gs[i][m].edit.added.contains(l);
        let k = an_edit_of_its_side(base, ours, theirs, gs, i, m);
        assert(es[k].added.contains(l));
    }
    assert forall|k: int| 0 <= k < es.len() implies exists|i: int, m: int|
        0 <= i < gs.len() && 0 <= m < gs[i].len() && #[trigger] gs[i][m] == (Sided {
            is_ours,
            edit: placed(#[trigger] es[k]),
        }) by {
        let x = Sided { is_ours, edit: placed(es[k]) };
        assert(listed[if is_ours {
            k
        } else {
            no + k
        }] == x);
        assert(listed.contains(x));
        assert(all.contains(x));
        a_strung_edit_is_in_a_group(gs, gs.len() as int, x);
        let i = choose|i: int| 0 <= i < gs.len() && (#[trigger] gs[i]).contains(x);
        let m = choose|m: int| 0 <= m < gs[i].len() && gs[i][m] == x;
        assert(gs[i][m] == x);
    }
    if exists|k: int| 0 <= k < es.len() && (#[trigger] es[k]).removed.contains(l) {
        let k = choose|k: int| 0 <= k < es.len() && (#[trigger] es[k]).removed.contains(l);
        let (i, m) = choose|i: int, m: int|
            0 <= i < gs.len() && 0 <= m < gs[i].len() && #[trigger] gs[i][m] == (Sided {
                is_ours,
                edit: placed(es[k]),
            });
        sides_of_a_group(gs[i], is_ours, gs[i].len() as int, l);
        assert(gs[i][m].edit.removed.contains(l));
        assert(hs[i] == hunk_of(gs[i]));
        assert(told(hs[i]).removed.contains(l));
    }
    if exists|k: int| 0 <= k < es.len() && (#[trigger] es[k]).added.contains(l) {
        let k = choose|k: int| 0 <= k < es.len() && (#[trigger] es[k]).added.contains(l);
        let (i, m) = choose|i: int, m: int|
            0 <= i < gs.len() && 0 <= m < gs[i].len() && #[trigger] gs[i][m] == (Sided {
                is_ours,
                edit: placed(es[k]),
            });
        sides_of_a_group(gs[i], is_ours, gs[i].len() as int, l);
        assert(gs[i][m].edit.added.contains(l));
        assert(hs[i] == hunk_of(gs[i]));
        assert(told(hs[i]).added.contains(l));
    }
}

proof fn an_edit_of_its_side(
    base: Seq<char>,
    ours: Seq<char>,
    theirs: Seq<char>,
    gs: Seq<Seq<Sided>>,
    i: int,
    m: int,
) -> (k: int)
    requires
        ({
            let all = in_order(both_sides(base, ours, theirs));
            gs == groups(all, all.len() as int)
        }),
        0 <= i < gs.len(),
        0 <= m < gs[i].len(),
    ensures
        ({
            let es = edits_by(base, ours, theirs, gs[i][m].is_ours);
            0 <= k < es.len() && gs[i][m].edit == placed(es[k])
        }),
{
    let listed = both_sides(base, ours, theirs);
    let all = in_order(listed);
    let x = gs[i][m];
    every_edit_joins_one_group(all, all.len() as int);
    assert(all.take(all.len() as int) =~= all);
    assert(gs[i].contains(x));
    a_strung_edit_is_in_a_group(gs, gs.len() as int, x);
    assert(all.contains(x));
    ordering_keeps_the_edits(listed);
    assert(listed.contains(x)) by {
        broadcast use vstd::seq_lib::group_to_multiset_ensures;

        assert(all.to_multiset().contains(x));
    }
    let j = choose|j: int| 0 <= j < listed.len() && listed[j] == x;
    let no = edits_of(base, ours).len() as int;
    if j < no {
        j
    } else {
        j - no
    }
}

proof fn groups_stand_apart(s: Seq<Sided>, k: int)
    requires
        starts_ascend(s),
        forall|i: int| 0 <= i < s.len() ==> (#[trigger] s[i]).edit.len >= 0,
        0 <= k <= s.len(),
    ensures
        ({
            let gs = groups(s, k);
            &&& forall|a: int| 0 <= a < gs.len() ==> (#[trigger] gs[a]).len() > 0
            &&& forall|a: int, m: int|
                0 <= a < gs.len() && 0 <= m < gs[a].len() ==> (
                #[trigger] gs[a][m]).edit.start <= s[k - 1].edit.start
            &&& forall|a: int, b: int, m: int, n: int|
                0 <= a < b < gs.len() && 0 <= m < gs[a].len() && 0 <= n < gs[b].len() ==> (
                #[trigger] gs[a][m]).edit.start + gs[a][m].edit.len < (
                #[trigger] gs[b][n]).edit.start
        }),
    decreases k,
{
    if k > 0 {
        groups_stand_apart(s, k - 1);
        let front = groups(s, k - 1);
        let gs = groups(s, k);
        let x = s[k - 1];
        let last = front.len() - 1;
        if k > 1 {
            assert(s[k - 2].edit.start <= s[k - 1].edit.start);
        }
        if front.len() > 0 && joins(front.last(), x) {
            assert(front[last] == front.last());
            assert(gs[last] == front[last].push(x));
            assert(front[last].len() > 0);
            let f = front[last][0];
            assert(f.edit.start <= x.edit.start) by {
                assert(front[last][0].edit.start <= s[k - 2].edit.start);
            }
            assert forall|a: int, b: int, m: int, n: int|
                0 <= a < b < gs.len() && 0 <= m < gs[a].len() && 0 <= n < gs[b].len() implies (
            #[trigger] gs[a][m]).edit.start + gs[a][m].edit.len < (
            #[trigger] gs[b][n]).edit.start by {
                assert(gs[a] == front[a]);
                assert(gs[a][m] == front[a][m]);
                if b == last && n == front[last].len() {
                    assert(front[a][m].edit.start + front[a][m].edit.len
                        < front[last][0].edit.start);
                } else {
                    assert(gs[b][n] == front[b][n]);
                }
            }
            assert forall|a: int, m: int| 0 <= a < gs.len() && 0 <= m < gs[a].len() implies (
            #[trigger] gs[a][m]).edit.start <= x.edit.start by {
                if !(a == last && m == front[last].len()) {
                    assert(gs[a][m] == front[a][m]);
                }
            }
        } else {
            assert forall|a: int, m: int| 0 <= a < gs.len() && 0 <= m < gs[a].len() implies (
            #[trigger] gs[a][m]).edit.start <= x.edit.start by {
                if a <= last {
                    assert(gs[a][m] == front[a][m]);
                }
            }
            assert forall|a: int, b: int, m: int, n: int|
                0 <= a < b < gs.len() && 0 <= m < gs[a].len() && 0 <= n < gs[b].len() implies (
            #[trigger] gs[a][m]).edit.start + gs[a][m].edit.len < (
            #[trigger] gs[b][n]).edit.start by {
                assert(gs[a][m] == front[a][m]);
                if b <= last {
                    assert(gs[b][n] == front[b][n]);
                } else {
                    assert(gs[b][n] == x);
                    assert(front[last].len() > 0);
                    assert(!touch(front.last()[0].edit, x.edit));
                    if a == last {
                        assert(!touch(front.last()[m].edit, x.edit));
                        assert(front[a][m].edit.start <= s[k - 2].edit.start);
                    } else {
                        assert(front[a][m].edit.start + front[a][m].edit.len
                            < front[last][0].edit.start);
                        assert(front[last][0].edit.start <= s[k - 2].edit.start);
                    }
                }
            }
        }
    }
}

proof fn bounds_are_of_the_edits(g: Seq<Sided>, k: int)
    requires
        1 <= k <= g.len(),
    ensures
        exists|i: int| 0 <= i < k && lowest(g, k) == (#[trigger] g[i]).edit.start,
        exists|i: int|
            0 <= i < k && highest(g, k) == (#[trigger] g[i]).edit.start + g[i].edit.len,
    decreases k,
{
    if k > 1 {
        bounds_are_of_the_edits(g, k - 1);
        let i = choose|i: int| 0 <= i < k - 1 && lowest(g, k - 1) == (#[trigger] g[i]).edit.start;
        let j = choose|j: int|
            0 <= j < k - 1 && highest(g, k - 1) == (#[trigger] g[j]).edit.start + g[j].edit.len;
        assert(g[i].edit.start == lowest(g, k - 1));
        assert(g[j].edit.start + g[j].edit.len == highest(g, k - 1));
        assert(g[k - 1].edit.start == g[k - 1].edit.start);
    } else {
        assert(g[0].edit.start == lowest(g, k));
    }
}

/// Hunks stand apart: between two of them base has a line that neither replaces.
pub proof fn hunks_stand_apart(
    base: Seq<char>,
    ours: Seq<char>,
    theirs: Seq<char>,
    i: int,
    j: int,
)
    requires
        0 <= i < j < hunks_of(base, ours, theirs).len(),
        hunks_of(base, ours, theirs)[i].base_end > 0,
    ensures
        hunks_of(base, ours, theirs)[i].base_end + 1 < hunks_of(base, ours, theirs)[j].base_start,
{
    let listed = both_sides(base, ours, theirs);
    let all = in_order(listed);
    in_order_ascends(listed);
    assert forall|i: int| 0 <= i < all.len() implies (#[trigger] all[i]).edit.len >= 0 by {
        ordering_keeps_the_edits(listed);
        assert(listed.contains(all[i])) by {
            broadcast use vstd::seq_lib::group_to_multiset_ensures;

            assert(all.contains(all[i]));
            assert(all.to_multiset().contains(all[i]));
        }
    }
    groups_stand_apart(all, all.len() as int);
    let gs = groups(all, all.len() as int);
    let hs = hunks_of(base, ours, theirs);
    assert(hs[i] == hunk_of(gs[i]));
    assert(hs[j] == hunk_of(gs[j]));
    assert(gs[i].len() > 0 && gs[j].len() > 0);
    bounds_are_of_the_edits(gs[i], gs[i].len() as int);
    bounds_are_of_the_edits(gs[j], gs[j].len() as int);
    let m = choose|m: int|
        0 <= m < gs[i].len() && highest(gs[i], gs[i].len() as int) == (
        #[trigger] gs[i][m]).edit.start + gs[i][m].edit.len;
    let n = choose|n: int|
        0 <= n < gs[j].len() && lowest(gs[j], gs[j].len() as int) == (
        #[trigger] gs[j][n]).edit.start;
    assert(gs[i][m].edit.start + gs[i][m].edit.len < gs[j][n].edit.start);
}

} // verus!
