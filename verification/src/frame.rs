//! The frame and the hole: what a conflicted file says when nobody is
//! arbitrating.
//!
//! The *frame* is every line outside a conflict box. A *hole* is one conflict
//! box, per side. [`resolve_conflicts`] fills every hole from one side and hands
//! back an ordinary file.

use vstd::prelude::*;
use crate::conflict::{is_teaching, refusal_body, refusal_text, teaches};
use crate::subsumption::{embeds, subsequence};
use crate::text::{
    add_sorted, alphanumeric, chars_of, chomped, copy_of, lines, lines_hold_no_line_feed,
    push_lines, push_sorted, same, split_lines, starts, starts_with, string_of, strs, texts, trim,
    trim_end, trimmed, trimmed_end, unlines, width, width_of_char, written_lines_read_back,
};

verus! {

broadcast use vstd::string::group_string_axioms;

/// Which claim to keep when filling every hole in a conflicted file.
#[derive(Debug, Clone, Copy, PartialEq, Eq, Structural)]
pub enum Resolution {
    /// Keep the first half of every box.
    Ours,
    /// Keep the second half of every box.
    Theirs,
}

/// Where a line of a conflicted file sits.
#[derive(Debug, Clone, Copy, PartialEq, Eq, Structural)]
pub enum Zone {
    Frame,
    Ours,
    Base,
    Theirs,
}

/// The zone of the claim that a resolution keeps.
pub open spec fn claim_zone(take: Resolution) -> Zone {
    match take {
        Resolution::Ours => Zone::Ours,
        Resolution::Theirs => Zone::Theirs,
    }
}

/// The line opens a box.
pub open spec fn opens(line: Seq<char>) -> bool {
    starts(line, "<<<<<<<"@)
}

/// The line starts the base section of a box.
pub open spec fn bars(line: Seq<char>) -> bool {
    starts(line, "|||||||"@)
}

/// The line separates the two claims of a box.
pub open spec fn separates(line: Seq<char>) -> bool {
    starts(line, "======="@)
}

/// The line closes a box.
pub open spec fn closes(line: Seq<char>) -> bool {
    starts(line, ">>>>>>>"@)
}

/// The line is a marker where it stands: the marks inside a box mean nothing
/// outside one.
pub open spec fn is_mark(z: Zone, line: Seq<char>) -> bool {
    opens(line) || (z != Zone::Frame && (bars(line) || separates(line))) || closes(line)
}

/// The zone behind a line, from the zone in front of it.
pub open spec fn next_zone(z: Zone, line: Seq<char>) -> Zone {
    if opens(line) {
        Zone::Ours
    } else if z != Zone::Frame && bars(line) {
        Zone::Base
    } else if z != Zone::Frame && separates(line) {
        Zone::Theirs
    } else if closes(line) {
        Zone::Frame
    } else {
        z
    }
}

/// The line belongs to no zone: it is a marker, the refusal line of a box, or the
/// teach line.
pub open spec fn furniture(z: Zone, line: Seq<char>) -> bool {
    is_mark(z, line) || (z == Zone::Ours && refusal_text(line) is Some) || teaches(line)
}

/// The zone in front of line `i`.
pub open spec fn zone_before(ls: Seq<Seq<char>>, i: int) -> Zone
    decreases i,
{
    if i <= 0 {
        Zone::Frame
    } else {
        next_zone(zone_before(ls, i - 1), ls[i - 1])
    }
}

/// Those of the first `k` lines that sit in the frame or in the zone `keep`.
pub open spec fn kept(ls: Seq<Seq<char>>, keep: Zone, k: int) -> Seq<Seq<char>>
    decreases k,
{
    if k <= 0 {
        Seq::empty()
    } else {
        let z = zone_before(ls, k - 1);
        let front = kept(ls, keep, k - 1);
        if !furniture(z, ls[k - 1]) && (z == Zone::Frame || z == keep) {
            front.push(ls[k - 1])
        } else {
            front
        }
    }
}

/// The file with every hole filled from one side.
pub open spec fn resolution_of(content: Seq<char>, take: Resolution) -> Seq<char> {
    let ls = lines(content);
    unlines(kept(ls, claim_zone(take), ls.len() as int))
}

/// The lines outside every box.
pub open spec fn frame_of(content: Seq<char>) -> Seq<Seq<char>> {
    let ls = lines(content);
    kept(ls, Zone::Frame, ls.len() as int)
}

fn step(z: Zone, line: &[char]) -> (r: (Zone, bool))
    ensures
        r.0 == next_zone(z, line@),
        r.1 == furniture(z, line@),
{
    if starts_with(line, "<<<<<<<") {
        return (Zone::Ours, true);
    }
    if z != Zone::Frame && starts_with(line, "|||||||") {
        return (Zone::Base, true);
    }
    if z != Zone::Frame && starts_with(line, "=======") {
        return (Zone::Theirs, true);
    }
    if starts_with(line, ">>>>>>>") {
        return (Zone::Frame, true);
    }
    if z == Zone::Ours && refusal_body(line).is_some() {
        return (z, true);
    }
    (z, is_teaching(line))
}

fn kept_lines(content: &str, keep: Zone) -> (r: Vec<Vec<char>>)
    ensures
        texts(r@) == kept(lines(content@), keep, lines(content@).len() as int),
{
    let ls = split_lines(chars_of(content).as_slice());
    let ghost all = lines(content@);
    let mut out: Vec<Vec<char>> = Vec::new();
    let mut zone = Zone::Frame;
    let mut i: usize = 0;
    proof {
        assert(texts(out@) =~= kept(all, keep, 0));
    }
    while i < ls.len()
        invariant
            i <= ls@.len(),
            texts(ls@) == all,
            zone == zone_before(all, i as int),
            texts(out@) == kept(all, keep, i as int),
        decreases ls@.len() - i,
    {
        proof {
            assert(all[i as int] == ls@[i as int]@);
        }
        let (next, furniture) = step(zone, ls[i].as_slice());
        if !furniture && (zone == Zone::Frame || zone == keep) {
            let ghost held = texts(out@);
            let line = copy_of(ls[i].as_slice());
            out.push(line);
            proof {
                assert(texts(out@) =~= held.push(line@));
            }
        }
        zone = next;
        i = i + 1;
    }
    out
}

/// The standard resolution: fill every hole from one side, keep the frame.
pub fn resolve_conflicts(content: &str, take: Resolution) -> (r: String)
    ensures
        r@ == resolution_of(content@, take),
{
    let keep = match take {
        Resolution::Ours => Zone::Ours,
        Resolution::Theirs => Zone::Theirs,
    };
    let ls = kept_lines(content, keep);
    let mut out: Vec<char> = Vec::new();
    push_lines(&mut out, ls.as_slice());
    proof {
        assert(out@ =~= resolution_of(content@, take));
    }
    string_of(out.as_slice())
}

/// Every line that stands outside every box.
pub fn frame(content: &str) -> (r: Vec<String>)
    ensures
        strs(r@) == frame_of(content@),
{
    let ls = kept_lines(content, Zone::Frame);
    let mut out: Vec<String> = Vec::new();
    let mut i: usize = 0;
    while i < ls.len()
        invariant
            i <= ls@.len(),
            strs(out@) == texts(ls@).take(i as int),
        decreases ls@.len() - i,
    {
        let ghost held = strs(out@);
        out.push(string_of(ls[i].as_slice()));
        i = i + 1;
        proof {
            assert(strs(out@) =~= held.push(ls@[i - 1]@));
            assert(texts(ls@).take(i as int) =~= texts(ls@).take(i - 1).push(ls@[i - 1]@));
        }
    }
    proof {
        assert(texts(ls@).take(ls@.len() as int) =~= texts(ls@));
    }
    out
}

/// How many of the first `k` lines are marker lines.
pub open spec fn marks_upto(ls: Seq<Seq<char>>, k: int) -> nat
    decreases k,
{
    if k <= 0 {
        0
    } else {
        marks_upto(ls, k - 1) + if opens(ls[k - 1]) || separates(ls[k - 1]) || closes(ls[k - 1]) {
            1nat
        } else {
            0nat
        }
    }
}

/// How many marker lines a text still carries.
pub fn marker_line_count(content: &str) -> (r: usize)
    ensures
        r == marks_upto(lines(content@), lines(content@).len() as int),
{
    let ls = split_lines(chars_of(content).as_slice());
    let ghost all = lines(content@);
    let mut n: usize = 0;
    let mut i: usize = 0;
    while i < ls.len()
        invariant
            i <= ls@.len(),
            texts(ls@) == all,
            n <= i,
            n == marks_upto(all, i as int),
        decreases ls@.len() - i,
    {
        proof {
            assert(all[i as int] == ls@[i as int]@);
        }
        let l = ls[i].as_slice();
        if starts_with(l, "<<<<<<<") || starts_with(l, "=======") || starts_with(l, ">>>>>>>") {
            n = n + 1;
        }
        i = i + 1;
    }
    n
}

/// Some line opens a box.
pub open spec fn has_box(content: Seq<char>) -> bool {
    exists|i: int| 0 <= i < lines(content).len() && opens(#[trigger] lines(content)[i])
}

/// Does this file contain a conflict box?
pub fn is_conflicted(content: &str) -> (r: bool)
    ensures
        r == has_box(content@),
{
    let ls = split_lines(chars_of(content).as_slice());
    let ghost all = lines(content@);
    let mut i: usize = 0;
    while i < ls.len()
        invariant
            i <= ls@.len(),
            texts(ls@) == all,
            all == lines(content@),
            forall|k: int| 0 <= k < i ==> !opens(#[trigger] all[k]),
        decreases ls@.len() - i,
    {
        proof {
            assert(all[i as int] == ls@[i as int]@);
        }
        if starts_with(ls[i].as_slice(), "<<<<<<<") {
            return true;
        }
        i = i + 1;
    }
    false
}

proof fn without_marks_all_is_frame(ls: Seq<Seq<char>>, k: int)
    requires
        0 <= k <= ls.len(),
        forall|i: int| 0 <= i < ls.len() ==> !opens(#[trigger] ls[i]),
    ensures
        zone_before(ls, k) == Zone::Frame,
        kept(ls, Zone::Ours, k) == kept(ls, Zone::Frame, k),
        kept(ls, Zone::Theirs, k) == kept(ls, Zone::Frame, k),
    decreases k,
{
    if k > 0 {
        without_marks_all_is_frame(ls, k - 1);
    }
}

/// A file without a box says the same whichever claim is kept: its frame.
pub proof fn without_a_box_both_resolutions_are_the_frame(content: Seq<char>, take: Resolution)
    requires
        !has_box(content),
    ensures
        resolution_of(content, take) == unlines(frame_of(content)),
{
    let ls = lines(content);
    without_marks_all_is_frame(ls, ls.len() as int);
}

/// The lines that a resolution keeps: the frame and one claim of every box.
pub open spec fn resolved_lines(content: Seq<char>, take: Resolution) -> Seq<Seq<char>> {
    let ls = lines(content);
    kept(ls, claim_zone(take), ls.len() as int)
}

proof fn kept_is_no_furniture(ls: Seq<Seq<char>>, keep: Zone, k: int)
    requires
        0 <= k <= ls.len(),
        forall|i: int| 0 <= i < ls.len() ==> !(#[trigger] ls[i]).contains('\n'),
    ensures
        forall|i: int|
            0 <= i < kept(ls, keep, k).len() ==> {
                let l = #[trigger] kept(ls, keep, k)[i];
                !opens(l) && !closes(l) && !teaches(l) && !l.contains('\n')
            },
    decreases k,
{
    if k > 0 {
        kept_is_no_furniture(ls, keep, k - 1);
        let front = kept(ls, keep, k - 1);
        let all = kept(ls, keep, k);
        assert forall|i: int| 0 <= i < all.len() implies {
            let l = #[trigger] all[i];
            !opens(l) && !closes(l) && !teaches(l) && !l.contains('\n')
        } by {
            if i < front.len() {
                assert(all[i] == front[i]);
            } else {
                assert(all[i] == ls[k - 1]);
            }
        }
    }
}

/// A resolution leaves no markers: no line of it opens or closes a box, so no line of
/// it is a marker where it stands.
pub proof fn a_resolution_holds_no_markers(content: Seq<char>, take: Resolution)
    ensures
        ({
            let out = lines(resolution_of(content, take));
            &&& !has_box(resolution_of(content, take))
            &&& forall|i: int|
                0 <= i < out.len() ==> zone_before(out, i) == Zone::Frame && !is_mark(
                    zone_before(out, i),
                    #[trigger] out[i],
                )
        }),
{
    let ls = lines(content);
    let v = resolved_lines(content, take);
    lines_hold_no_line_feed(content, 0);
    kept_is_no_furniture(ls, claim_zone(take), ls.len() as int);
    written_lines_read_back(v);
    let out = lines(resolution_of(content, take));
    assert forall|i: int| 0 <= i < out.len() implies !opens(#[trigger] out[i]) && !closes(
        out[i],
    ) by {
        let l = v[i];
        assert(out[i] == chomped(l));
        if starts(out[i], "<<<<<<<"@) {
            assert(l.subrange(0, "<<<<<<<"@.len() as int) =~= out[i].subrange(
                0,
                "<<<<<<<"@.len() as int,
            ));
        }
        if starts(out[i], ">>>>>>>"@) {
            assert(l.subrange(0, ">>>>>>>"@.len() as int) =~= out[i].subrange(
                0,
                ">>>>>>>"@.len() as int,
            ));
        }
    }
    assert forall|i: int| 0 <= i < out.len() implies zone_before(out, i) == Zone::Frame && !is_mark(
        zone_before(out, i),
        #[trigger] out[i],
    ) by {
        without_marks_all_is_frame(out, i);
    }
}

proof fn clear_lines_are_kept(v: Seq<Seq<char>>, keep: Zone, k: int)
    requires
        0 <= k <= v.len(),
        forall|i: int|
            0 <= i < v.len() ==> !opens(#[trigger] v[i]) && !closes(v[i]) && !teaches(v[i]),
    ensures
        kept(v, keep, k) == v.take(k),
    decreases k,
{
    if k > 0 {
        clear_lines_are_kept(v, keep, k - 1);
        without_marks_all_is_frame(v, k - 1);
        assert(!opens(v[k - 1]));
        assert(v.take(k) =~= v.take(k - 1).push(v[k - 1]));
    } else {
        assert(v.take(0) =~= Seq::empty());
    }
}

/// A resolved text resolves to itself, whichever claim is asked for, and all of it is
/// frame: where no line that was kept ends with a carriage return, which would read
/// back as part of the line feed written behind it.
pub proof fn a_resolution_resolves_to_itself(
    content: Seq<char>,
    take: Resolution,
    again: Resolution,
)
    requires
        forall|i: int|
            0 <= i < resolved_lines(content, take).len() ==> chomped(
                #[trigger] resolved_lines(content, take)[i],
            ) == resolved_lines(content, take)[i],
    ensures
        lines(resolution_of(content, take)) == resolved_lines(content, take),
        frame_of(resolution_of(content, take)) == resolved_lines(content, take),
        resolution_of(resolution_of(content, take), again) == resolution_of(content, take),
{
    let ls = lines(content);
    let v = resolved_lines(content, take);
    lines_hold_no_line_feed(content, 0);
    kept_is_no_furniture(ls, claim_zone(take), ls.len() as int);
    written_lines_read_back(v);
    assert(lines(resolution_of(content, take)) =~= v);
    assert(v.take(v.len() as int) =~= v);
    clear_lines_are_kept(v, claim_zone(again), v.len() as int);
    clear_lines_are_kept(v, Zone::Frame, v.len() as int);
}

proof fn kept_is_picked(ls: Seq<Seq<char>>, keep: Zone, k: int) -> (at: Seq<int>)
    requires
        0 <= k <= ls.len(),
    ensures
        embeds(kept(ls, keep, k), ls, at),
        forall|m: int| 0 <= m < at.len() ==> (#[trigger] at[m]) < k,
    decreases k,
{
    if k > 0 {
        let at = kept_is_picked(ls, keep, k - 1);
        let z = zone_before(ls, k - 1);
        if !furniture(z, ls[k - 1]) && (z == Zone::Frame || z == keep) {
            at.push(k - 1)
        } else {
            at
        }
    } else {
        Seq::empty()
    }
}

proof fn frame_is_picked(ls: Seq<Seq<char>>, keep: Zone, k: int) -> (at: Seq<int>)
    requires
        0 <= k <= ls.len(),
    ensures
        embeds(kept(ls, Zone::Frame, k), kept(ls, keep, k), at),
    decreases k,
{
    if k > 0 {
        let at = frame_is_picked(ls, keep, k - 1);
        let z = zone_before(ls, k - 1);
        if !furniture(z, ls[k - 1]) && z == Zone::Frame {
            at.push(kept(ls, keep, k - 1).len() as int)
        } else {
            at
        }
    } else {
        Seq::empty()
    }
}

/// Nothing is invented and nothing moves: the frame is a subsequence of what every
/// resolution keeps, and that is a subsequence of the lines of the file.
pub proof fn a_resolution_keeps_the_frame_in_order(content: Seq<char>, take: Resolution)
    ensures
        subsequence(frame_of(content), resolved_lines(content, take)),
        subsequence(frame_of(content), lines(content)),
        subsequence(resolved_lines(content, take), lines(content)),
{
    let ls = lines(content);
    let n = ls.len() as int;
    let a = frame_is_picked(ls, claim_zone(take), n);
    assert(embeds(frame_of(content), resolved_lines(content, take), a));
    let b = kept_is_picked(ls, Zone::Frame, n);
    assert(embeds(frame_of(content), ls, b));
    let c = kept_is_picked(ls, claim_zone(take), n);
    assert(embeds(resolved_lines(content, take), ls, c));
}

// ---------------------------------------------------------------------------
// Lines the frame states too often
// ---------------------------------------------------------------------------

/// A line the frame states more times than any honest union of the two sides
/// could put there.
#[derive(Debug, Clone, PartialEq, Eq)]
pub struct FrameDuplicate {
    /// The line, trailing white space stripped.
    pub line: String,
    /// How many times the frame states it.
    pub found: usize,
    /// The most times the union of the two sides could.
    pub allowed: usize,
}

/// A [`FrameDuplicate`] with its string read as a text.
pub struct FrameDuplicateView {
    pub line: Seq<char>,
    pub found: int,
    pub allowed: int,
}

impl View for FrameDuplicate {
    type V = FrameDuplicateView;

    open spec fn view(&self) -> FrameDuplicateView {
        FrameDuplicateView {
            line: self.line@,
            found: self.found as int,
            allowed: self.allowed as int,
        }
    }
}

/// The views of a list of duplicates.
pub open spec fn duplicate_views(v: Seq<FrameDuplicate>) -> Seq<FrameDuplicateView> {
    v.map_values(|d: FrameDuplicate| d@)
}

/// A character that gives a line an identity.
pub open spec fn telling(c: char) -> bool {
    alphanumeric(c) || c == '_'
}

/// Structural punctuation carries no identity: at most two bytes, or no letter,
/// digit or underscore.
pub open spec fn structural(line: Seq<char>) -> bool {
    let t = trim(line);
    width(t) <= 2 || forall|i: int| 0 <= i < t.len() ==> !telling(#[trigger] t[i])
}

/// How many of the first `k` lines are, trailing white space aside, the text.
pub open spec fn stated(ls: Seq<Seq<char>>, t: Seq<char>, k: int) -> int
    decreases k,
{
    if k <= 0 {
        0
    } else {
        stated(ls, t, k - 1) + if trim_end(ls[k - 1]) == t {
            1int
        } else {
            0int
        }
    }
}

/// The union bound: of the `n` copies base has, each side's additions may all be
/// kept, and a merge may carry all of one side's copies.
pub open spec fn allowance(n: int, o: int, t: int) -> int {
    let sum = if o + t >= n {
        o + t - n
    } else {
        0
    };
    let m = if sum > o {
        sum
    } else {
        o
    };
    if m > t {
        m
    } else {
        t
    }
}

/// The lines of the first `k`, trailing white space stripped, that are not blank:
/// in the order of texts, each once.
pub open spec fn distinct_lines(ls: Seq<Seq<char>>, k: int) -> Seq<Seq<char>>
    decreases k,
{
    if k <= 0 {
        Seq::empty()
    } else if trim(trim_end(ls[k - 1])).len() == 0 {
        distinct_lines(ls, k - 1)
    } else {
        add_sorted(distinct_lines(ls, k - 1), trim_end(ls[k - 1]))
    }
}

/// What the frame states of a line, and what base, ours and theirs allow.
pub open spec fn tally_of(
    fs: Seq<Seq<char>>,
    base: Seq<char>,
    ours: Seq<char>,
    theirs: Seq<char>,
    t: Seq<char>,
) -> FrameDuplicateView {
    FrameDuplicateView {
        line: t,
        found: stated(fs, t, fs.len() as int),
        allowed: allowance(
            stated(lines(base), t, lines(base).len() as int),
            stated(lines(ours), t, lines(ours).len() as int),
            stated(lines(theirs), t, lines(theirs).len() as int),
        ),
    }
}

/// The first `k` of the lines that are stated too often.
pub open spec fn overstated(
    ds: Seq<Seq<char>>,
    fs: Seq<Seq<char>>,
    base: Seq<char>,
    ours: Seq<char>,
    theirs: Seq<char>,
    k: int,
) -> Seq<FrameDuplicateView>
    decreases k,
{
    if k <= 0 {
        Seq::empty()
    } else {
        let front = overstated(ds, fs, base, ours, theirs, k - 1);
        let d = tally_of(fs, base, ours, theirs, ds[k - 1]);
        if !structural(ds[k - 1]) && d.found > d.allowed {
            front.push(d)
        } else {
            front
        }
    }
}

/// What the merge states in the frame more often than the versions allow, in the
/// order of the lines.
pub open spec fn duplicates_of(
    base: Seq<char>,
    ours: Seq<char>,
    theirs: Seq<char>,
    merged: Seq<char>,
) -> Seq<FrameDuplicateView> {
    let fs = frame_of(merged);
    let ds = distinct_lines(fs, fs.len() as int);
    overstated(ds, fs, base, ours, theirs, ds.len() as int)
}

/// A frame that states a line no more often than one of the two sides does is
/// never reported for it.
pub proof fn a_side_s_own_copies_are_no_duplicates(
    fs: Seq<Seq<char>>,
    base: Seq<char>,
    ours: Seq<char>,
    theirs: Seq<char>,
    t: Seq<char>,
)
    requires
        stated(fs, t, fs.len() as int) <= stated(lines(ours), t, lines(ours).len() as int)
            || stated(fs, t, fs.len() as int) <= stated(
            lines(theirs),
            t,
            lines(theirs).len() as int,
        ),
    ensures
        tally_of(fs, base, ours, theirs, t).found <= tally_of(fs, base, ours, theirs, t).allowed,
{
}

pub(crate) fn count_stated(ls: &Vec<Vec<char>>, t: &[char]) -> (r: usize)
    ensures
        r == stated(texts(ls@), t@, ls@.len() as int),
        r <= ls@.len(),
{
    let ghost all = texts(ls@);
    let mut n: usize = 0;
    let mut i: usize = 0;
    while i < ls.len()
        invariant
            i <= ls@.len(),
            all == texts(ls@),
            n <= i,
            n == stated(all, t@, i as int),
        decreases ls@.len() - i,
    {
        proof {
            assert(all[i as int] == ls@[i as int]@);
        }
        if same(trimmed_end(ls[i].as_slice()), t) {
            n = n + 1;
        }
        i = i + 1;
    }
    n
}

fn is_telling(c: char) -> (r: bool)
    ensures
        r == telling(c),
{
    c.is_alphanumeric() || c == '_'
}

fn is_structural(line: &[char]) -> (r: bool)
    ensures
        r == structural(line@),
{
    let t = trimmed(line);
    let mut w: u128 = 0;
    let mut i: usize = 0;
    let mut tells = false;
    while i < t.len()
        invariant
            i <= t@.len(),
            w <= 4 * i,
            w == width(t@.subrange(0, i as int)),
            tells == exists|k: int| 0 <= k < i && telling(#[trigger] t@[k]),
        decreases t@.len() - i,
    {
        w = w + width_of_char(t[i]) as u128;
        if is_telling(t[i]) {
            tells = true;
        }
        i = i + 1;
        proof {
            assert(t@.subrange(0, i as int).drop_last() =~= t@.subrange(0, i - 1));
        }
    }
    proof {
        assert(t@.subrange(0, t@.len() as int) =~= t@);
    }
    w <= 2 || !tells
}

/// What did this merge state in the frame that no version of the file states as
/// often?
pub fn frame_duplicates(base: &str, ours: &str, theirs: &str, merged: &str) -> (r: Vec<
    FrameDuplicate,
>)
    ensures
        duplicate_views(r@) == duplicates_of(base@, ours@, theirs@, merged@),
{
    let fs = kept_lines(merged, Zone::Frame);
    let ghost fv = frame_of(merged@);
    let bs = split_lines(chars_of(base).as_slice());
    let os = split_lines(chars_of(ours).as_slice());
    let ts = split_lines(chars_of(theirs).as_slice());
    let mut ds: Vec<String> = Vec::new();
    let mut i: usize = 0;
    proof {
        assert(strs(ds@) =~= distinct_lines(fv, 0));
    }
    while i < fs.len()
        invariant
            i <= fs@.len(),
            texts(fs@) == fv,
            strs(ds@) == distinct_lines(fv, i as int),
        decreases fs@.len() - i,
    {
        proof {
            assert(fv[i as int] == fs@[i as int]@);
        }
        let t = trimmed_end(fs[i].as_slice());
        if trimmed(t).len() > 0 {
            push_sorted(&mut ds, string_of(t).as_str());
        }
        i = i + 1;
    }
    let ghost dv = strs(ds@);
    let mut out: Vec<FrameDuplicate> = Vec::new();
    let mut k: usize = 0;
    proof {
        assert(duplicate_views(out@) =~= overstated(dv, fv, base@, ours@, theirs@, 0));
        assert(fv.len() == fs@.len());
    }
    while k < ds.len()
        invariant
            k <= ds@.len(),
            dv == strs(ds@),
            texts(fs@) == fv,
            texts(bs@) == lines(base@),
            texts(os@) == lines(ours@),
            texts(ts@) == lines(theirs@),
            duplicate_views(out@) == overstated(dv, fv, base@, ours@, theirs@, k as int),
        decreases ds@.len() - k,
    {
        let line = chars_of(ds[k].as_str());
        let ghost held = out@;
        proof {
            assert(dv[k as int] == line@);
            assert(fv.len() == fs@.len());
            assert(lines(base@).len() == bs@.len());
            assert(lines(ours@).len() == os@.len());
            assert(lines(theirs@).len() == ts@.len());
        }
        if !is_structural(line.as_slice()) {
            let found: usize = count_stated(&fs, line.as_slice());
            let n: usize = count_stated(&bs, line.as_slice());
            let o: usize = count_stated(&os, line.as_slice());
            let t: usize = count_stated(&ts, line.as_slice());
            let sum: u128 = o as u128 + t as u128;
            let union: u128 = if sum >= n as u128 {
                sum - n as u128
            } else {
                0
            };
            let m: u128 = if union > o as u128 {
                union
            } else {
                o as u128
            };
            let allowed: u128 = if m > t as u128 {
                m
            } else {
                t as u128
            };
            if found as u128 > allowed {
                let d = FrameDuplicate {
                    line: string_of(line.as_slice()),
                    found,
                    allowed: allowed as usize,
                };
                proof {
                    assert(d@ == tally_of(fv, base@, ours@, theirs@, dv[k as int]));
                }
                out.push(d);
                proof {
                    assert(duplicate_views(out@) =~= duplicate_views(held).push(d@));
                }
            }
        }
        k = k + 1;
    }
    out
}


proof fn distinct_lines_hold(ls: Seq<Seq<char>>, k: int)
    requires
        0 <= k <= ls.len(),
    ensures
        crate::text::strictly_sorted(distinct_lines(ls, k)),
        forall|t: Seq<char>| #[trigger]
            distinct_lines(ls, k).contains(t) <==> trim(t).len() > 0 && exists|i: int|
                0 <= i < k && trim_end(#[trigger] ls[i]) == t,
    decreases k,
{
    if k > 0 {
        distinct_lines_hold(ls, k - 1);
        let front = distinct_lines(ls, k - 1);
        let x = trim_end(ls[k - 1]);
        crate::text::add_sorted_sorts(front, x);
        assert forall|t: Seq<char>| #[trigger] distinct_lines(ls, k).contains(t) <==> trim(t).len()
            > 0 && exists|i: int| 0 <= i < k && trim_end(#[trigger] ls[i]) == t by {
            if exists|i: int| 0 <= i < k && trim_end(#[trigger] ls[i]) == t {
                let i = choose|i: int| 0 <= i < k && trim_end(#[trigger] ls[i]) == t;
                if i < k - 1 {
                    assert(trim_end(ls[i]) == t);
                }
            }
            if front.contains(t) {
                let i = choose|i: int| 0 <= i < k - 1 && trim_end(#[trigger] ls[i]) == t;
                assert(trim_end(ls[i]) == t);
            }
        }
    }
}

proof fn overstated_holds(
    ds: Seq<Seq<char>>,
    fs: Seq<Seq<char>>,
    base: Seq<char>,
    ours: Seq<char>,
    theirs: Seq<char>,
    k: int,
)
    requires
        0 <= k <= ds.len(),
    ensures
        forall|d: FrameDuplicateView| #[trigger]
            overstated(ds, fs, base, ours, theirs, k).contains(d) <==> exists|i: int|
                0 <= i < k && d == tally_of(fs, base, ours, theirs, #[trigger] ds[i])
                    && !structural(ds[i]) && d.found > d.allowed,
    decreases k,
{
    if k > 0 {
        overstated_holds(ds, fs, base, ours, theirs, k - 1);
        let front = overstated(ds, fs, base, ours, theirs, k - 1);
        let all = overstated(ds, fs, base, ours, theirs, k);
        let here = tally_of(fs, base, ours, theirs, ds[k - 1]);
        assert forall|d: FrameDuplicateView| #[trigger] all.contains(d) <==> exists|i: int|
            0 <= i < k && d == tally_of(fs, base, ours, theirs, #[trigger] ds[i]) && !structural(
                ds[i],
            ) && d.found > d.allowed by {
            if front.contains(d) {
                let j = choose|j: int| 0 <= j < front.len() && front[j] == d;
                assert(all[j] == d);
                let i = choose|i: int|
                    0 <= i < k - 1 && d == tally_of(fs, base, ours, theirs, #[trigger] ds[i])
                        && !structural(ds[i]) && d.found > d.allowed;
                assert(ds[i] == ds[i]);
            }
            if !structural(ds[k - 1]) && here.found > here.allowed {
                assert(all[front.len() as int] == here);
            }
            if all.contains(d) && !front.contains(d) {
                let j = choose|j: int| 0 <= j < all.len() && all[j] == d;
                if j < front.len() {
                    assert(front[j] == d);
                }
                assert(d == here);
                assert(d == tally_of(fs, base, ours, theirs, ds[k - 1]));
            }
            if exists|i: int|
                0 <= i < k && d == tally_of(fs, base, ours, theirs, #[trigger] ds[i])
                    && !structural(ds[i]) && d.found > d.allowed {
                let i = choose|i: int|
                    0 <= i < k && d == tally_of(fs, base, ours, theirs, #[trigger] ds[i])
                        && !structural(ds[i]) && d.found > d.allowed;
                if i < k - 1 {
                    assert(front.contains(d));
                }
            }
        }
    }
}

/// What is reported of the frame is exactly what it states too often: a line that is
/// neither blank nor structure and that the frame states more often than each side does,
/// and more often than the two sides' copies together, those that base had counted once.
pub proof fn what_the_frame_overstates_is_reported(
    base: Seq<char>,
    ours: Seq<char>,
    theirs: Seq<char>,
    merged: Seq<char>,
    t: Seq<char>,
)
    ensures
        ({
            let fs = frame_of(merged);
            let count = |ls: Seq<Seq<char>>| stated(ls, t, ls.len() as int);
            let found = count(fs);
            let n = count(lines(base));
            let o = count(lines(ours));
            let u = count(lines(theirs));
            let ds = duplicates_of(base, ours, theirs, merged);
            &&& (exists|i: int| 0 <= i < ds.len() && (#[trigger] ds[i]).line == t) <==> (trim(
                t,
            ).len() > 0 && !structural(t) && (exists|i: int|
                0 <= i < fs.len() && trim_end(#[trigger] fs[i]) == t) && found > o && found > u
                && found > o + u - n && found > 0)
            &&& forall|i: int|
                0 <= i < ds.len() && (#[trigger] ds[i]).line == t ==> ds[i].found == found
                    && ds[i].allowed >= o && ds[i].allowed >= u && ds[i].allowed >= o + u - n
        }),
{
    let fs = frame_of(merged);
    let lines_of = distinct_lines(fs, fs.len() as int);
    let ds = duplicates_of(base, ours, theirs, merged);
    distinct_lines_hold(fs, fs.len() as int);
    overstated_holds(lines_of, fs, base, ours, theirs, lines_of.len() as int);
    stated_is_a_count(lines(base), t, lines(base).len() as int);
    stated_is_a_count(lines(ours), t, lines(ours).len() as int);
    stated_is_a_count(lines(theirs), t, lines(theirs).len() as int);
    let d = tally_of(fs, base, ours, theirs, t);
    assert forall|i: int| 0 <= i < ds.len() && (#[trigger] ds[i]).line == t implies ds[i] == d
        && lines_of.contains(t) && !structural(t) && d.found > d.allowed by {
        assert(ds.contains(ds[i]));
        let k = choose|k: int|
            0 <= k < lines_of.len() && ds[i] == tally_of(
                fs,
                base,
                ours,
                theirs,
                #[trigger] lines_of[k],
            ) && !structural(lines_of[k]) && ds[i].found > ds[i].allowed;
        assert(lines_of.contains(lines_of[k]));
    }
    if lines_of.contains(t) && !structural(t) && d.found > d.allowed {
        let k = choose|k: int| 0 <= k < lines_of.len() && lines_of[k] == t;
        assert(d == tally_of(fs, base, ours, theirs, lines_of[k]));
        assert(ds.contains(d));
        let i = choose|i: int| 0 <= i < ds.len() && ds[i] == d;
        assert(ds[i].line == t);
    }
}

proof fn stated_is_a_count(ls: Seq<Seq<char>>, t: Seq<char>, k: int)
    requires
        0 <= k <= ls.len(),
    ensures
        0 <= stated(ls, t, k) <= k,
        stated(ls, t, k) == ls.take(k).filter(|l: Seq<char>| trim_end(l) == t).len(),
    decreases k,
{
    reveal(Seq::filter);
    if k > 0 {
        stated_is_a_count(ls, t, k - 1);
        assert(ls.take(k).drop_last() =~= ls.take(k - 1));
        assert(ls.take(k).last() == ls[k - 1]);
    } else {
        assert(ls.take(0) =~= Seq::empty());
    }
}

/// A line is stated as often as there are lines that read like it, white space behind
/// them aside.
pub proof fn a_line_is_stated_as_often_as_it_stands(ls: Seq<Seq<char>>, t: Seq<char>)
    ensures
        stated(ls, t, ls.len() as int) == ls.filter(|l: Seq<char>| trim_end(l) == t).len(),
{
    stated_is_a_count(ls, t, ls.len() as int);
    assert(ls.take(ls.len() as int) =~= ls);
}

} // verus!
