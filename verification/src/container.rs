//! The container merge: a class body is a file in miniature.
//!
//! A version of a body is taken apart into segments that tile it: every line
//! belongs to exactly one segment. Members merge by identity, the text between them
//! travels with the member it leads, and placement is a function of the shared base
//! order. The finished text is then held against what all three versions agree on.

use vstd::prelude::*;
use vstd::slice::slice_subrange;
use crate::binding::{indent, indent_of};
use crate::entity::{semantic_views, SemanticEntity, SemanticView};
use crate::frame::{count_stated, stated};
use crate::merge::{
    gap_views, opt_inner, push_gaps, GapView, InnerMergeResult, InnerView, LicensedGap,
};
use crate::order::{
    choose_coordinate, coordinate, holds, items, keep, kept, place_all, views, Keyed, Sequences,
};
use crate::patch::{line_merge_of, merge_lines};
use crate::v2::types::opt_view;
use crate::text::{
    before, chars_of, contains, lines, push_lines, push_text, same_str, split_lines, starts, starts_with,
    str_before, str_eq, string_of, texts, trim, trim_end, trimmed, trimmed_end, unlines,
    without_feeds,
};

verus! {

broadcast use vstd::string::group_string_axioms;

// ---------------------------------------------------------------------------
// Members
// ---------------------------------------------------------------------------

/// A member's identity within one container: its name, and the ordinal that tells
/// same-named siblings apart.
pub type MemberKey = (String, u32);

impl Keyed for MemberKey {
    fn same_as(&self, other: &MemberKey) -> (r: bool) {
        self.1 == other.1 && str_eq(self.0.as_str(), other.0.as_str())
    }

    fn twin(&self) -> (r: MemberKey) {
        (self.0.clone(), self.1)
    }
}

/// One member of a container body, with the unclaimed text that leads it.
#[derive(Debug)]
pub struct Member {
    pub key: MemberKey,
    /// The text between the member before, or the header, and this member's own
    /// first line: blank lines, section comments, statements of the class.
    pub lead: String,
    pub text: String,
}

/// A [`Member`] with its strings read as texts.
pub struct MemberView {
    pub key: (Seq<char>, u32),
    pub lead: Seq<char>,
    pub text: Seq<char>,
}

impl View for Member {
    type V = MemberView;

    open spec fn view(&self) -> MemberView {
        MemberView { key: self.key@, lead: self.lead@, text: self.text@ }
    }
}

/// One version of a container body, tiled.
#[derive(Debug)]
pub struct Decomposed {
    pub header: String,
    /// The text between the declaration and the first member. It belongs to the
    /// container, not to the member that happens to follow it.
    pub prelude: String,
    pub members: Vec<Member>,
    /// The unclaimed text behind the last member, in front of the footer.
    pub tail: String,
    pub footer: String,
}

/// A [`Decomposed`] with its strings read as texts.
pub struct DecomposedView {
    pub header: Seq<char>,
    pub prelude: Seq<char>,
    pub members: Seq<MemberView>,
    pub tail: Seq<char>,
    pub footer: Seq<char>,
}

impl View for Decomposed {
    type V = DecomposedView;

    open spec fn view(&self) -> DecomposedView {
        DecomposedView {
            header: self.header@,
            prelude: self.prelude@,
            members: views(self.members@),
            tail: self.tail@,
            footer: self.footer@,
        }
    }
}

impl DecomposedView {
    /// The keys of the members, in order.
    pub open spec fn keys(self) -> Seq<(Seq<char>, u32)> {
        self.members.map_values(|m: MemberView| m.key)
    }

    /// The leads and the texts of the first `n` members.
    pub open spec fn members_upto(self, n: int) -> Seq<char>
        decreases n,
    {
        if n <= 0 {
            Seq::empty()
        } else {
            self.members_upto(n - 1) + self.members[n - 1].lead + self.members[n - 1].text
        }
    }

    /// All segments, put back together.
    pub open spec fn whole(self) -> Seq<char> {
        self.header + self.prelude + self.members_upto(self.members.len() as int) + self.tail
            + self.footer
    }
}

impl Decomposed {
    /// The keys of the members, in order.
    pub fn keys(&self) -> (r: Vec<MemberKey>)
        ensures
            views(r@) == self@.keys(),
    {
        let mut out: Vec<MemberKey> = Vec::new();
        let mut i: usize = 0;
        while i < self.members.len()
            invariant
                i <= self.members@.len(),
                out@.len() == i,
                forall|k: int| 0 <= k < i ==> (#[trigger] out@[k])@ == self.members@[k].key@,
            decreases self.members@.len() - i,
        {
            out.push(self.members[i].key.twin());
            i = i + 1;
        }
        proof {
            assert(views(out@) =~= self@.keys());
        }
        out
    }
}

/// The span of one member inside the body, as indices of its first and its last
/// line.
#[derive(Debug, Clone)]
pub struct MemberSpan {
    pub name: String,
    pub start: usize,
    pub end: usize,
}

/// A [`MemberSpan`] with its name read as a text.
pub struct SpanView {
    pub name: Seq<char>,
    pub start: int,
    pub end: int,
}

impl View for MemberSpan {
    type V = SpanView;

    open spec fn view(&self) -> SpanView {
        SpanView { name: self.name@, start: self.start as int, end: self.end as int }
    }
}

/// Does the `k`th span start behind the one before?
pub open spec fn span_follows(v: Seq<SpanView>, k: int) -> bool {
    v[k - 1].end < v[k].start
}

/// The spans lie in the body, one behind the other.
pub open spec fn spans_fit(v: Seq<SpanView>, body_start: int, body_end: int) -> bool {
    &&& forall|k: int|
        0 <= k < v.len() ==> body_start <= (#[trigger] v[k]).start <= v[k].end < body_end
    &&& forall|k: int| 0 < k < v.len() ==> #[trigger] span_follows(v, k)
}

// ---------------------------------------------------------------------------
// Where the members are
// ---------------------------------------------------------------------------

/// The index of the first body line and of the first footer line, given how many
/// lines there are and the header and the footer.
pub open spec fn bounds_of(n: int, header: Seq<char>, footer: Seq<char>) -> Option<(int, int)> {
    if n < lines(footer).len() {
        None
    } else {
        Some((lines(header).len() as int, n - lines(footer).len()))
    }
}

/// The index of the first body line and of the first footer line.
pub fn wrapper_bounds(n: usize, header: &str, footer: &str) -> (r: Option<(usize, usize)>)
    ensures
        match r {
            Some(b) => bounds_of(n as int, header@, footer@) == Some((b.0 as int, b.1 as int)),
            None => bounds_of(n as int, header@, footer@) is None,
        },
{
    let h = split_lines(chars_of(header).as_slice());
    let f = split_lines(chars_of(footer).as_slice());
    proof {
        assert(texts(h@).len() == h@.len());
        assert(texts(f@).len() == f@.len());
    }
    if n < f.len() {
        None
    } else {
        Some((h.len(), n - f.len()))
    }
}

/// A child's span, with line indices that count from the body's own first line.
pub open spec fn child_span(c: SemanticView, start_line: int) -> SpanView {
    SpanView { name: c.name, start: c.start_line - start_line, end: c.end_line - start_line }
}

/// The spans of the children.
pub open spec fn child_views(children: Seq<SemanticView>, start_line: int) -> Seq<SpanView> {
    children.map_values(|c: SemanticView| child_span(c, start_line))
}

/// Do the children describe this text? There are some, and their spans lie in the
/// body, one behind the other.
pub open spec fn children_describe(
    children: Seq<SemanticView>,
    start_line: int,
    body_start: int,
    body_end: int,
) -> bool {
    children.len() > 0 && spans_fit(child_views(children, start_line), body_start, body_end)
}

/// Member spans from the parser's children, or `None` where the children do not
/// describe this text: out of range, nested, or overlapping.
pub fn child_spans(
    children: &Vec<SemanticEntity>,
    start_line: usize,
    body_start: usize,
    body_end: usize,
) -> (r: Option<Vec<MemberSpan>>)
    ensures
        r is Some <==> children_describe(
            semantic_views(children@),
            start_line as int,
            body_start as int,
            body_end as int,
        ),
        r matches Some(v) ==> views(v@) == child_views(
            semantic_views(children@),
            start_line as int,
        ),
{
    let ghost cs = semantic_views(children@);
    let ghost all = child_views(cs, start_line as int);
    if children.len() == 0 {
        return None;
    }
    let mut out: Vec<MemberSpan> = Vec::new();
    let mut i: usize = 0;
    proof {
        assert(views(out@) =~= all.take(0));
    }
    while i < children.len()
        invariant
            i <= children@.len() == all.len() == cs.len(),
            cs == semantic_views(children@),
            all == child_views(cs, start_line as int),
            views(out@) == all.take(i as int),
            out@.len() == i,
            forall|k: int|
                0 <= k < i ==> body_start <= (#[trigger] all[k]).start <= all[k].end < body_end,
            forall|k: int| 0 < k < i ==> #[trigger] span_follows(all, k),
        decreases children@.len() - i,
    {
        let c = &children[i];
        proof {
            assert(cs[i as int] == c@);
            assert(all[i as int] == child_span(c@, start_line as int));
        }
        if c.start_line < start_line || c.end_line < start_line {
            return None;
        }
        let start: usize = c.start_line - start_line;
        let end: usize = c.end_line - start_line;
        if start > end || start < body_start || end >= body_end {
            return None;
        }
        if i > 0 {
            proof {
                assert(all[i - 1] == views(out@)[i - 1]);
                assert(views(out@)[i - 1] == out@[i - 1]@);
            }
            if start <= out[i - 1].end {
                proof {
                    assert(!span_follows(all, i as int));
                }
                return None;
            }
        }
        let ghost held = views(out@);
        let span = MemberSpan { name: c.name.clone(), start, end };
        let ghost sv = span@;
        out.push(span);
        proof {
            assert(views(out@) =~= held.push(sv));
            assert(all.take(i + 1) =~= all.take(i as int).push(sv));
        }
        i = i + 1;
    }
    proof {
        assert(all.take(i as int) =~= all);
    }
    Some(out)
}

/// A decorator, annotation or comment line: text that belongs to whatever it
/// precedes rather than standing on its own.
pub open spec fn leading_trivia(line: Seq<char>) -> bool {
    let t = trim(line);
    ||| starts(t, "@"@)
    ||| starts(t, "#["@)
    ||| starts(t, "//"@)
    ||| starts(t, "/*"@)
    ||| starts(t, "* "@)
    ||| t == "*"@
    ||| t == "*/"@
}

fn is_trivia_line(line: &[char]) -> (r: bool)
    ensures
        r == leading_trivia(line@),
{
    let t = trimmed(line);
    starts_with(t, "@") || starts_with(t, "#[") || starts_with(t, "//") || starts_with(t, "/*")
        || starts_with(t, "* ") || same_str(t, "*") || same_str(t, "*/")
}

/// Does a member start on the line, given the indentation of members? Decorators,
/// comments and continuation lines are no starts.
pub open spec fn starts_member(line: Seq<char>, ind: nat) -> bool {
    let t = trim(line);
    &&& t.len() > 0
    &&& indent(line) == ind
    &&& !starts(t, "//"@)
    &&& !starts(t, "/*"@)
    &&& !starts(t, "*"@)
    &&& !starts(t, "#"@)
    &&& !starts(t, "@"@)
    &&& !starts(t, "}"@)
    &&& t != ","@
}

fn is_member_start(line: &[char], ind: u128) -> (r: bool)
    ensures
        r == starts_member(line@, ind as nat),
{
    let t = trimmed(line);
    t.len() > 0 && indent_of(line) == ind && !starts_with(t, "//") && !starts_with(t, "/*")
        && !starts_with(t, "*") && !starts_with(t, "#") && !starts_with(t, "@") && !starts_with(
        t,
        "}",
    ) && !same_str(t, ",")
}

/// The first line from `i` up to `end` that is not blank.
pub open spec fn first_filled(ls: Seq<Seq<char>>, i: int, end: int) -> Option<int>
    decreases end - i,
{
    if i < 0 || i >= end {
        None
    } else if trim(ls[i]).len() > 0 {
        Some(i)
    } else {
        first_filled(ls, i + 1, end)
    }
}

/// The lines from `a` up to `b` on which a member starts.
pub open spec fn member_starts(ls: Seq<Seq<char>>, ind: nat, a: int, b: int) -> Seq<int>
    decreases b - a,
{
    if b <= a {
        Seq::empty()
    } else if starts_member(ls[b - 1], ind) {
        member_starts(ls, ind, a, b - 1).push(b - 1)
    } else {
        member_starts(ls, ind, a, b - 1)
    }
}

/// The last line of a member that reaches at most to `end`: the blank lines and the
/// trivia behind it belong to what follows.
pub open spec fn member_end(ls: Seq<Seq<char>>, start: int, end: int) -> int
    decreases end - start,
{
    if end > start && (trim(ls[end]).len() == 0 || leading_trivia(ls[end])) {
        member_end(ls, start, end - 1)
    } else {
        end
    }
}

/// The spans of the members that start at the given lines.
pub open spec fn spans_from(ls: Seq<Seq<char>>, at: Seq<int>, body_end: int) -> Seq<(int, int)> {
    Seq::new(
        at.len(),
        |k: int|
            (
                at[k],
                member_end(
                    ls,
                    at[k],
                    if k + 1 < at.len() {
                        at[k + 1] - 1
                    } else {
                        body_end - 1
                    },
                ),
            ),
    )
}

/// Member spans read off indentation: a member starts at the first indentation
/// level inside the body and runs until the next one does.
pub open spec fn indented(ls: Seq<Seq<char>>, body_start: int, body_end: int) -> Seq<(int, int)> {
    match first_filled(ls, body_start, body_end) {
        Some(p) => spans_from(
            ls,
            member_starts(ls, indent(ls[p]), body_start, body_end),
            body_end,
        ),
        None => Seq::empty(),
    }
}

proof fn starts_rise(ls: Seq<Seq<char>>, ind: nat, a: int, b: int)
    requires
        a <= b,
    ensures
        forall|k: int|
            0 <= k < member_starts(ls, ind, a, b).len() ==> a <= #[trigger] member_starts(
                ls,
                ind,
                a,
                b,
            )[k] < b,
        forall|k: int, m: int|
            0 <= k < m < member_starts(ls, ind, a, b).len() ==> #[trigger] member_starts(
                ls,
                ind,
                a,
                b,
            )[k] < #[trigger] member_starts(ls, ind, a, b)[m],
    decreases b - a,
{
    if b > a {
        starts_rise(ls, ind, a, b - 1);
        let front = member_starts(ls, ind, a, b - 1);
        let all = member_starts(ls, ind, a, b);
        assert forall|k: int| 0 <= k < all.len() implies a <= #[trigger] all[k] < b by {
            if k < front.len() {
                assert(all[k] == front[k]);
            }
        }
        assert forall|k: int, m: int| 0 <= k < m < all.len() implies #[trigger] all[k]
            < #[trigger] all[m] by {
            assert(all[k] == front[k]);
            if m < front.len() {
                assert(all[m] == front[m]);
            }
        }
    }
}

proof fn member_end_bounds(ls: Seq<Seq<char>>, start: int, end: int)
    requires
        start <= end,
    ensures
        start <= member_end(ls, start, end) <= end,
    decreases end - start,
{
    if end > start && (trim(ls[end]).len() == 0 || leading_trivia(ls[end])) {
        member_end_bounds(ls, start, end - 1);
    }
}

/// Line spans as mathematical integers.
pub open spec fn range_views(v: Seq<(usize, usize)>) -> Seq<(int, int)> {
    v.map_values(|p: (usize, usize)| (p.0 as int, p.1 as int))
}

/// Member spans read off indentation, for bodies that the parser reports no
/// children for.
pub fn indentation_member_spans(ls: &Vec<Vec<char>>, body_start: usize, body_end: usize) -> (r: Vec<
    (usize, usize),
>)
    requires
        body_end <= ls@.len(),
    ensures
        range_views(r@) == indented(texts(ls@), body_start as int, body_end as int),
{
    let ghost all = texts(ls@);
    let mut p: usize = body_start;
    while p < body_end && trimmed(ls[p].as_slice()).len() == 0
        invariant
            body_end <= ls@.len(),
            all == texts(ls@),
            forall|m: int| 0 <= m < ls@.len() ==> (#[trigger] ls@[m])@ == all[m],
            body_start <= p,
            p <= body_end || p == body_start,
            first_filled(all, p as int, body_end as int) == first_filled(
                all,
                body_start as int,
                body_end as int,
            ),
        decreases body_end - p,
    {
        p = p + 1;
    }
    let mut out: Vec<(usize, usize)> = Vec::new();
    if p >= body_end {
        proof {
            assert(range_views(out@) =~= indented(all, body_start as int, body_end as int));
        }
        return out;
    }
    proof {
        assert(all[p as int] == ls@[p as int]@);
    }
    let ind: u128 = indent_of(ls[p].as_slice());
    let mut at: Vec<usize> = Vec::new();
    let mut i: usize = body_start;
    proof {
        assert(at@.map_values(|x: usize| x as int) =~= member_starts(
            all,
            ind as nat,
            body_start as int,
            i as int,
        ));
    }
    while i < body_end
        invariant
            body_start <= i <= body_end <= ls@.len(),
            all == texts(ls@),
            at@.map_values(|x: usize| x as int) == member_starts(
                all,
                ind as nat,
                body_start as int,
                i as int,
            ),
        decreases body_end - i,
    {
        proof {
            assert(all[i as int] == ls@[i as int]@);
        }
        if is_member_start(ls[i].as_slice(), ind) {
            let ghost held = at@.map_values(|x: usize| x as int);
            at.push(i);
            proof {
                assert(at@.map_values(|x: usize| x as int) =~= held.push(i as int));
            }
        }
        i = i + 1;
    }
    let ghost starts = at@.map_values(|x: usize| x as int);
    proof {
        starts_rise(all, ind as nat, body_start as int, body_end as int);
    }
    let n: usize = at.len();
    let ghost spans = spans_from(all, starts, body_end as int);
    let mut k: usize = 0;
    proof {
        assert(range_views(out@) =~= spans.take(0));
    }
    while k < n
        invariant
            body_start < body_end <= ls@.len(),
            all == texts(ls@),
            k <= n == at@.len(),
            starts == at@.map_values(|x: usize| x as int),
            spans == spans_from(all, starts, body_end as int),
            forall|m: int| 0 <= m < starts.len() ==> body_start <= #[trigger] starts[m] < body_end,
            forall|a: int, b: int|
                0 <= a < b < starts.len() ==> #[trigger] starts[a] < #[trigger] starts[b],
            range_views(out@) == spans.take(k as int),
        decreases n - k,
    {
        let start: usize = at[k];
        proof {
            assert(starts[k as int] == start);
            if k + 1 < n {
                assert(starts[k as int] < starts[k + 1]);
                assert(starts[k + 1] == at@[k + 1]);
            }
        }
        let bound: usize = if k + 1 < n {
            at[k + 1] - 1
        } else {
            body_end - 1
        };
        let mut end: usize = bound;
        while end > start && (trimmed(ls[end].as_slice()).len() == 0 || is_trivia_line(
            ls[end].as_slice(),
        ))
            invariant
                start <= end <= bound < ls@.len(),
                all == texts(ls@),
                forall|m: int| 0 <= m < ls@.len() ==> (#[trigger] ls@[m])@ == all[m],
                member_end(all, start as int, end as int) == member_end(
                    all,
                    start as int,
                    bound as int,
                ),
            decreases end,
        {
            end = end - 1;
        }
        let ghost held = range_views(out@);
        out.push((start, end));
        proof {
            assert(range_views(out@) =~= held.push((start as int, end as int)));
            assert(spans[k as int] == (start as int, end as int));
            assert(spans.take(k + 1) =~= spans.take(k as int).push(spans[k as int]));
        }
        k = k + 1;
    }
    proof {
        assert(spans.take(n as int) =~= spans);
    }
    out
}

/// The names that a reader of the language finds for one member: the one its first
/// line gives, and the one that the fields of an anonymous literal give.
#[derive(Debug, Clone)]
pub struct MemberName {
    pub line: String,
    pub literal: Option<String>,
}

impl MemberName {
    /// The name that tells the member apart: entries that present as a bare brace
    /// go by their literal's name, where it has one.
    pub open spec fn chosen(&self) -> Seq<char> {
        if (self.line@ == "{"@ || self.line@ == "{}"@) && self.literal is Some {
            self.literal->0@
        } else {
            self.line@
        }
    }

    /// The name that tells the member apart.
    pub fn pick(&self) -> (r: String)
        ensures
            r@ == self.chosen(),
    {
        if str_eq(self.line.as_str(), "{") || str_eq(self.line.as_str(), "{}") {
            match &self.literal {
                Some(better) => better.clone(),
                None => self.line.clone(),
            }
        } else {
            self.line.clone()
        }
    }
}

/// A container as it arrives: its text, the header and the footer that a reader of
/// the language sees, the children that a parser reports, and the number of the
/// text's own first line.
pub struct Body {
    pub ls: Seq<Seq<char>>,
    pub wrapper: Option<(Seq<char>, Seq<char>)>,
    pub children: Seq<SemanticView>,
    pub start_line: int,
}

impl Body {
    /// The index of the first body line and of the first footer line, where the
    /// text is a container at all.
    pub open spec fn bounds(self) -> Option<(int, int)> {
        if self.ls.len() < 2 {
            None
        } else {
            match self.wrapper {
                None => None,
                Some(w) => match bounds_of(self.ls.len() as int, w.0, w.1) {
                    None => None,
                    Some(b) => if b.0 > b.1 {
                        None
                    } else {
                        Some(b)
                    },
                },
            }
        }
    }

    /// Do the children say where the members are?
    pub open spec fn described(self) -> bool {
        self.bounds() matches Some(b) && children_describe(
            self.children,
            self.start_line,
            b.0,
            b.1,
        )
    }

    /// The spans whose members have to be named by a reader of the language: those
    /// read off indentation, where the children do not describe the text.
    pub open spec fn unnamed(self) -> Seq<(int, int)> {
        match self.bounds() {
            None => Seq::empty(),
            Some(b) => if self.described() {
                Seq::empty()
            } else {
                indented(self.ls, b.0, b.1)
            },
        }
    }

    /// The spans of the members, given the names of those that have none.
    pub open spec fn spans(self, names: Seq<MemberName>) -> Seq<SpanView> {
        if self.described() {
            child_views(self.children, self.start_line)
        } else {
            Seq::new(
                self.unnamed().len(),
                |k: int|
                    SpanView {
                        name: names[k].chosen(),
                        start: self.unnamed()[k].0,
                        end: self.unnamed()[k].1,
                    },
            )
        }
    }

    /// The decomposition, where there is one.
    pub open spec fn decomposed(self, names: Seq<MemberName>) -> Option<DecomposedView> {
        match self.bounds() {
            None => None,
            Some(b) => if self.spans(names).len() == 0 {
                None
            } else {
                Some(tiled(self.ls, self.spans(names), b.0, b.1))
            },
        }
    }
}

/// The first line that belongs to a member that starts at `start`: over the
/// decorators, annotations and comments in front of it, and never past `floor`.
pub open spec fn own_start(ls: Seq<Seq<char>>, start: int, floor: int) -> int
    decreases start - floor,
{
    if start > floor && leading_trivia(ls[start - 1]) {
        own_start(ls, start - 1, floor)
    } else {
        start
    }
}

/// The first line behind the first `i` members.
pub open spec fn cursor(spans: Seq<SpanView>, header_end: int, i: int) -> int {
    if i <= 0 {
        header_end
    } else {
        spans[i - 1].end + 1
    }
}

/// How many of the first `i` spans have the name.
pub open spec fn same_named(spans: Seq<SpanView>, name: Seq<char>, i: int) -> int
    decreases i,
{
    if i <= 0 {
        0
    } else {
        same_named(spans, name, i - 1) + if spans[i - 1].name == name {
            1int
        } else {
            0int
        }
    }
}

/// The `i`th member, with the lines in front of it as its lead.
pub open spec fn member_at(
    ls: Seq<Seq<char>>,
    spans: Seq<SpanView>,
    header_end: int,
    i: int,
) -> MemberView {
    let from = cursor(spans, header_end, i);
    let own = own_start(ls, spans[i].start, from);
    MemberView {
        key: (spans[i].name, same_named(spans, spans[i].name, i) as u32),
        lead: if i == 0 {
            Seq::empty()
        } else {
            unlines(ls.subrange(from, own))
        },
        text: unlines(ls.subrange(own, spans[i].end + 1)),
    }
}

/// The lines cut at the spans: the header, the prelude, the members with what leads
/// each, the tail and the footer.
pub open spec fn tiled(
    ls: Seq<Seq<char>>,
    spans: Seq<SpanView>,
    header_end: int,
    body_end: int,
) -> DecomposedView {
    DecomposedView {
        header: unlines(ls.subrange(0, header_end)),
        prelude: unlines(
            ls.subrange(header_end, own_start(ls, spans[0].start, header_end)),
        ),
        members: Seq::new(spans.len(), |i: int| member_at(ls, spans, header_end, i)),
        tail: unlines(
            ls.subrange(cursor(spans, header_end, spans.len() as int), body_end),
        ),
        footer: unlines(ls.subrange(body_end, ls.len() as int)),
    }
}

proof fn own_start_bounds(ls: Seq<Seq<char>>, start: int, floor: int)
    requires
        floor <= start,
    ensures
        floor <= own_start(ls, start, floor) <= start,
    decreases start - floor,
{
    if start > floor && leading_trivia(ls[start - 1]) {
        own_start_bounds(ls, start - 1, floor);
    }
}

proof fn same_named_bounds(spans: Seq<SpanView>, name: Seq<char>, i: int)
    requires
        0 <= i,
    ensures
        0 <= same_named(spans, name, i) <= i,
    decreases i,
{
    if i > 0 {
        same_named_bounds(spans, name, i - 1);
    }
}

proof fn body_spans_fit(body: Body, names: Seq<MemberName>)
    ensures
        body.bounds() matches Some(b) ==> spans_fit(body.spans(names), b.0, b.1) && 0 <= b.0 <= b.1
            <= body.ls.len(),
{
    if let Some(b) = body.bounds() {
        if !body.described() {
            if let Some(p) = first_filled(body.ls, b.0, b.1) {
                let ind = indent(body.ls[p]);
                let at = member_starts(body.ls, ind, b.0, b.1);
                starts_rise(body.ls, ind, b.0, b.1);
                let v = body.spans(names);
                let raw = indented(body.ls, b.0, b.1);
                assert(raw == spans_from(body.ls, at, b.1));
                assert forall|k: int| 0 <= k < v.len() implies b.0 <= (#[trigger] v[k]).start
                    <= v[k].end < b.1 by {
                    if k + 1 < at.len() {
                        assert(at[k] < at[k + 1]);
                    }
                    let bound = if k + 1 < at.len() {
                        at[k + 1] - 1
                    } else {
                        b.1 - 1
                    };
                    member_end_bounds(body.ls, at[k], bound);
                    assert(raw[k] == (at[k], member_end(body.ls, at[k], bound)));
                }
                assert forall|k: int| 0 < k < v.len() implies #[trigger] span_follows(v, k) by {
                    assert(at[k - 1] < at[k]);
                    member_end_bounds(body.ls, at[k - 1], at[k] - 1);
                    assert(raw[k - 1] == (at[k - 1], member_end(body.ls, at[k - 1], at[k] - 1)));
                    assert(raw[k].0 == at[k]);
                }
            }
        }
    }
}

/// Walk back from a member's declaration over the decorators, annotations and
/// comments that belong to it, stopping at `floor`.
fn attach_leading_trivia(ls: &Vec<Vec<char>>, start: usize, floor: usize) -> (r: usize)
    requires
        floor <= start <= ls@.len(),
    ensures
        r == own_start(texts(ls@), start as int, floor as int),
        floor <= r <= start,
{
    let ghost all = texts(ls@);
    let mut own: usize = start;
    while own > floor && is_trivia_line(ls[own - 1].as_slice())
        invariant
            floor <= own <= start <= ls@.len(),
            all == texts(ls@),
            forall|m: int| 0 <= m < ls@.len() ==> (#[trigger] ls@[m])@ == all[m],
            own_start(all, own as int, floor as int) == own_start(all, start as int, floor as int),
        decreases own,
    {
        own = own - 1;
    }
    own
}

fn join(ls: &Vec<Vec<char>>, a: usize, b: usize) -> (r: String)
    requires
        a <= b <= ls@.len(),
    ensures
        r@ == unlines(texts(ls@).subrange(a as int, b as int)),
{
    let part = slice_subrange(ls.as_slice(), a, b);
    let mut out: Vec<char> = Vec::new();
    push_lines(&mut out, part);
    proof {
        assert(texts(part@) =~= texts(ls@).subrange(a as int, b as int));
        assert(out@ =~= unlines(texts(ls@).subrange(a as int, b as int)));
    }
    string_of(out.as_slice())
}

fn count_named(spans: &Vec<MemberSpan>, name: &str, n: usize) -> (r: u32)
    requires
        n <= spans@.len() <= u32::MAX,
    ensures
        r == same_named(views(spans@), name@, n as int),
{
    let ghost all = views(spans@);
    let mut c: u32 = 0;
    let mut i: usize = 0;
    while i < n
        invariant
            i <= n <= spans@.len() <= u32::MAX,
            all == views(spans@),
            c <= i,
            c == same_named(all, name@, i as int),
        decreases n - i,
    {
        proof {
            assert(all[i as int] == spans@[i as int]@);
        }
        if str_eq(spans[i].name.as_str(), name) {
            c = c + 1;
        }
        i = i + 1;
    }
    c
}

/// Cut the lines at the spans.
fn tile(ls: &Vec<Vec<char>>, spans: &Vec<MemberSpan>, header_end: usize, body_end: usize) -> (r:
    Decomposed)
    requires
        header_end <= body_end <= ls@.len(),
        0 < spans@.len() <= u32::MAX,
        spans_fit(views(spans@), header_end as int, body_end as int),
    ensures
        r@ == tiled(texts(ls@), views(spans@), header_end as int, body_end as int),
{
    let ghost all = texts(ls@);
    let ghost sv = views(spans@);
    let ghost want = tiled(all, sv, header_end as int, body_end as int);
    let mut members: Vec<Member> = Vec::new();
    let mut from: usize = header_end;
    let mut i: usize = 0;
    proof {
        assert(sv[0] == spans@[0]@);
        assert(views(members@) =~= want.members.take(0));
    }
    let first: usize = attach_leading_trivia(ls, spans[0].start, header_end);
    let prelude = join(ls, header_end, first);
    while i < spans.len()
        invariant
            header_end <= body_end <= ls@.len(),
            0 < spans@.len() <= u32::MAX,
            i <= spans@.len(),
            all == texts(ls@),
            sv == views(spans@),
            spans_fit(sv, header_end as int, body_end as int),
            want == tiled(all, sv, header_end as int, body_end as int),
            from == cursor(sv, header_end as int, i as int),
            from <= body_end,
            views(members@) == want.members.take(i as int),
        decreases spans@.len() - i,
    {
        proof {
            assert(sv[i as int] == spans@[i as int]@);
            if i > 0 {
                assert(span_follows(sv, i as int));
            }
            same_named_bounds(sv, sv[i as int].name, i as int);
        }
        let span = &spans[i];
        let own: usize = attach_leading_trivia(ls, span.start, from);
        let lead = if i == 0 {
            string_of(Vec::new().as_slice())
        } else {
            join(ls, from, own)
        };
        let text = join(ls, own, span.end + 1);
        let ordinal: u32 = count_named(spans, span.name.as_str(), i);
        let member = Member { key: (span.name.clone(), ordinal), lead, text };
        let ghost mv = member@;
        let ghost held = views(members@);
        members.push(member);
        proof {
            assert(mv.lead =~= member_at(all, sv, header_end as int, i as int).lead);
            assert(mv == member_at(all, sv, header_end as int, i as int));
            assert(views(members@) =~= held.push(mv));
            assert(want.members[i as int] == mv);
            assert(want.members.take(i + 1) =~= want.members.take(i as int).push(mv));
        }
        from = span.end + 1;
        i = i + 1;
    }
    proof {
        assert(want.members.take(i as int) =~= want.members);
    }
    let header = join(ls, 0, header_end);
    let tail = join(ls, from, body_end);
    let footer = join(ls, body_end, ls.len());
    Decomposed { header, prelude, members, tail, footer }
}

/// The view of an optional header and footer.
pub open spec fn opt_wrapper(w: Option<(String, String)>) -> Option<(Seq<char>, Seq<char>)> {
    match w {
        Some(p) => Some((p.0@, p.1@)),
        None => None,
    }
}

/// The body of a text.
pub open spec fn body_of(
    content: Seq<char>,
    wrapper: Option<(String, String)>,
    children: Seq<SemanticEntity>,
    start_line: usize,
) -> Body {
    Body {
        ls: lines(content),
        wrapper: opt_wrapper(wrapper),
        children: semantic_views(children),
        start_line: start_line as int,
    }
}

/// The bounds of a container, where the text is one.
fn body_bounds(ls: &Vec<Vec<char>>, wrapper: &Option<(String, String)>) -> (r: Option<
    (usize, usize),
>)
    ensures
        forall|children: Seq<SemanticView>, start_line: int|
            match r {
                Some(b) => (#[trigger] (Body {
                    ls: texts(ls@),
                    wrapper: opt_wrapper(*wrapper),
                    children,
                    start_line,
                }).bounds()) == Some((b.0 as int, b.1 as int)),
                None => (Body {
                    ls: texts(ls@),
                    wrapper: opt_wrapper(*wrapper),
                    children,
                    start_line,
                }).bounds() is None,
            },
        r matches Some(b) ==> b.0 <= b.1 <= ls@.len(),
{
    if ls.len() < 2 {
        return None;
    }
    match wrapper {
        None => None,
        Some(w) => match wrapper_bounds(ls.len(), w.0.as_str(), w.1.as_str()) {
            None => None,
            Some(b) => if b.0 > b.1 {
                None
            } else {
                Some(b)
            },
        },
    }
}

/// The spans whose members a reader of the language has to name: those read off
/// indentation, where the children do not describe the text.
pub fn unnamed_spans(
    content: &str,
    wrapper: &Option<(String, String)>,
    children: &Vec<SemanticEntity>,
    start_line: usize,
) -> (r: Vec<(usize, usize)>)
    ensures
        range_views(r@) == body_of(content@, *wrapper, children@, start_line).unnamed(),
{
    let ls = split_lines(chars_of(content).as_slice());
    let ghost body = body_of(content@, *wrapper, children@, start_line);
    let none: Vec<(usize, usize)> = Vec::new();
    proof {
        assert(range_views(none@) =~= Seq::empty());
    }
    match body_bounds(&ls, wrapper) {
        None => none,
        Some((body_start, body_end)) => {
            match child_spans(children, start_line, body_start, body_end) {
                Some(_) => none,
                None => indentation_member_spans(&ls, body_start, body_end),
            }
        },
    }
}

/// The view of an optional decomposition.
pub open spec fn opt_decomposed(r: Option<Decomposed>) -> Option<DecomposedView> {
    match r {
        Some(d) => Some(d@),
        None => None,
    }
}

/// Split a container into header, members and footer so that the pieces tile it.
///
/// `start_line` is the number of the text's own first line in its file, which is
/// not the declaration's where a comment was bundled in front of it. `names` are
/// those of [`unnamed_spans`].
pub fn decompose(
    content: &str,
    wrapper: &Option<(String, String)>,
    children: &Vec<SemanticEntity>,
    start_line: usize,
    names: &Vec<MemberName>,
) -> (r: Option<Decomposed>)
    requires
        names@.len() == body_of(content@, *wrapper, children@, start_line).unnamed().len(),
        names@.len() <= u32::MAX,
        children@.len() <= u32::MAX,
    ensures
        opt_decomposed(r) == body_of(content@, *wrapper, children@, start_line).decomposed(names@),
{
    let ls = split_lines(chars_of(content).as_slice());
    let ghost body = body_of(content@, *wrapper, children@, start_line);
    proof {
        body_spans_fit(body, names@);
    }
    match body_bounds(&ls, wrapper) {
        None => None,
        Some((body_start, body_end)) => {
            let spans = match child_spans(children, start_line, body_start, body_end) {
                Some(v) => v,
                None => {
                    let at = indentation_member_spans(&ls, body_start, body_end);
                    let mut out: Vec<MemberSpan> = Vec::new();
                    let mut k: usize = 0;
                    while k < at.len()
                        invariant
                            k <= at@.len() == names@.len(),
                            range_views(at@) == body.unnamed(),
                            out@.len() == k,
                            forall|m: int|
                                0 <= m < k ==> (#[trigger] out@[m])@ == (SpanView {
                                    name: names@[m].chosen(),
                                    start: body.unnamed()[m].0,
                                    end: body.unnamed()[m].1,
                                }),
                        decreases at@.len() - k,
                    {
                        proof {
                            assert(range_views(at@)[k as int] == (
                                at@[k as int].0 as int,
                                at@[k as int].1 as int,
                            ));
                        }
                        out.push(
                            MemberSpan { name: names[k].pick(), start: at[k].0, end: at[k].1 },
                        );
                        k = k + 1;
                    }
                    proof {
                        assert(views(out@) =~= body.spans(names@));
                    }
                    out
                },
            };
            proof {
                assert(views(spans@) == body.spans(names@));
                assert(views(spans@).len() == spans@.len());
            }
            if spans.len() == 0 {
                return None;
            }
            Some(tile(&ls, &spans, body_start, body_end))
        },
    }
}

// ---------------------------------------------------------------------------
// The decomposition tiles the text
// ---------------------------------------------------------------------------

proof fn tiles_upto(
    ls: Seq<Seq<char>>,
    spans: Seq<SpanView>,
    header_end: int,
    body_end: int,
    n: int,
)
    requires
        0 <= header_end <= body_end <= ls.len(),
        spans_fit(spans, header_end, body_end),
        0 < n <= spans.len(),
    ensures
        ({
            let d = tiled(ls, spans, header_end, body_end);
            d.header + d.prelude + d.members_upto(n) == unlines(
                ls.subrange(0, cursor(spans, header_end, n)),
            )
        }),
    decreases n,
{
    let d = tiled(ls, spans, header_end, body_end);
    let i = n - 1;
    let from = cursor(spans, header_end, i);
    if i > 0 {
        assert(span_follows(spans, i));
        assert(spans[i - 1].end < body_end);
    }
    let own = own_start(ls, spans[i].start, from);
    own_start_bounds(ls, spans[i].start, from);
    let end = spans[i].end + 1;
    let m = d.members[i];
    assert(m == member_at(ls, spans, header_end, i));
    crate::text::unlines_of_two(ls.subrange(0, from), ls.subrange(from, own));
    assert(ls.subrange(0, from) + ls.subrange(from, own) =~= ls.subrange(0, own));
    crate::text::unlines_of_two(ls.subrange(0, own), ls.subrange(own, end));
    assert(ls.subrange(0, own) + ls.subrange(own, end) =~= ls.subrange(0, end));
    let before = d.header + d.prelude + d.members_upto(i);
    if i > 0 {
        tiles_upto(ls, spans, header_end, body_end, i);
        assert(before + (m.lead + m.text) =~= (before + m.lead) + m.text);
        assert(d.header + d.prelude + d.members_upto(n) =~= (before + m.lead) + m.text);
    } else {
        assert(d.members_upto(0) =~= Seq::empty());
        assert(d.header + d.prelude + d.members_upto(n) =~= (d.header + d.prelude) + m.text);
    }
}

/// A decomposition tiles the container it came from: put together, its segments are
/// the lines of the text, each exactly once and in order.
pub proof fn a_decomposition_tiles_the_container(body: Body, names: Seq<MemberName>)
    ensures
        body.decomposed(names) matches Some(d) ==> d.whole() == unlines(body.ls),
{
    if let Some(d) = body.decomposed(names) {
        body_spans_fit(body, names);
        let (a, b) = body.bounds()->0;
        let spans = body.spans(names);
        let n = spans.len() as int;
        let ls = body.ls;
        tiles_upto(ls, spans, a, b, n);
        let c = cursor(spans, a, n);
        crate::text::unlines_of_two(ls.subrange(0, c), ls.subrange(c, b));
        assert(ls.subrange(0, c) + ls.subrange(c, b) =~= ls.subrange(0, b));
        crate::text::unlines_of_two(ls.subrange(0, b), ls.subrange(b, ls.len() as int));
        assert(ls.subrange(0, b) + ls.subrange(b, ls.len() as int) =~= ls);
    }
}

proof fn same_named_rises(spans: Seq<SpanView>, name: Seq<char>, i: int, j: int)
    requires
        0 <= i < j <= spans.len(),
        spans[i].name == name,
    ensures
        same_named(spans, name, i) < same_named(spans, name, j),
    decreases j - i,
{
    same_named_bounds(spans, name, i);
    if j > i + 1 {
        same_named_rises(spans, name, i, j - 1);
    }
}

/// Same-named members do not collapse into one: no two members of a decomposition
/// have the same key.
pub proof fn member_keys_are_unique(body: Body, names: Seq<MemberName>)
    requires
        body.spans(names).len() <= u32::MAX,
    ensures
        body.decomposed(names) matches Some(d) ==> d.keys().no_duplicates(),
{
    if let Some(d) = body.decomposed(names) {
        let spans = body.spans(names);
        let keys = d.keys();
        let (a, b) = body.bounds()->0;
        assert forall|i: int, j: int| 0 <= i < j < keys.len() implies keys[i] != keys[j] by {
            assert(keys[i] == member_at(body.ls, spans, a, i).key);
            assert(keys[j] == member_at(body.ls, spans, a, j).key);
            if spans[i].name == spans[j].name {
                same_named_rises(spans, spans[i].name, i, j);
                same_named_bounds(spans, spans[i].name, i);
                same_named_bounds(spans, spans[i].name, j);
            }
        }
        assert forall|i: int, j: int| 0 <= i < keys.len() && 0 <= j < keys.len() && i != j implies keys[i]
            != keys[j] by {
            if i < j {
                assert(keys[i] != keys[j]);
            } else {
                assert(keys[j] != keys[i]);
            }
        }
    }
}

/// A container read as the several scopes it is: one key and one text per member.
pub fn member_texts(d: &Decomposed) -> (r: Vec<(MemberKey, String)>)
    ensures
        r@.len() == d.members@.len(),
        forall|k: int|
            0 <= k < r@.len() ==> (#[trigger] r@[k]).0@ == d@.members[k].key && r@[k].1@
                == d@.members[k].text,
{
    let mut out: Vec<(MemberKey, String)> = Vec::new();
    let mut i: usize = 0;
    while i < d.members.len()
        invariant
            i <= d.members@.len(),
            out@.len() == i,
            forall|k: int|
                0 <= k < i ==> (#[trigger] out@[k]).0@ == d@.members[k].key && out@[k].1@
                    == d@.members[k].text,
        decreases d.members@.len() - i,
    {
        proof {
            assert(d@.members[i as int] == d.members@[i as int]@);
        }
        out.push((d.members[i].key.twin(), d.members[i].text.clone()));
        i = i + 1;
    }
    out
}

// ---------------------------------------------------------------------------
// Placement
// ---------------------------------------------------------------------------

/// A member's key: its name and its ordinal.
pub type KeyText = (Seq<char>, u32);

/// The order of keys: by name, then by ordinal.
pub open spec fn key_before(a: KeyText, b: KeyText) -> bool {
    before(a.0, b.0) || a.0 == b.0 && a.1 < b.1
}

/// The first place, at or after the `k`th, whose key does not stand in front of the
/// key.
pub open spec fn key_place(v: Seq<KeyText>, x: KeyText, k: int) -> int
    decreases v.len() - k,
{
    if 0 <= k < v.len() && key_before(v[k], x) {
        key_place(v, x, k + 1)
    } else {
        k
    }
}

/// The keys with one more, in the order of keys and each once.
pub open spec fn add_key(v: Seq<KeyText>, x: KeyText) -> Seq<KeyText> {
    let p = key_place(v, x, 0);
    if p < v.len() && v[p] == x {
        v
    } else {
        v.insert(p, x)
    }
}

/// The keys with those of the first `n` of a side that base does not have.
pub open spec fn added_keys(
    v: Seq<KeyText>,
    side: Seq<KeyText>,
    base: Seq<KeyText>,
    n: int,
) -> Seq<KeyText>
    decreases n,
{
    if n <= 0 {
        v
    } else if base.contains(side[n - 1]) {
        added_keys(v, side, base, n - 1)
    } else {
        add_key(added_keys(v, side, base, n - 1), side[n - 1])
    }
}

/// The keys that either side added, in the order of keys.
pub open spec fn additions(
    base: Seq<KeyText>,
    ours: Seq<KeyText>,
    theirs: Seq<KeyText>,
) -> Seq<KeyText> {
    added_keys(
        added_keys(Seq::empty(), ours, base, ours.len() as int),
        theirs,
        base,
        theirs.len() as int,
    )
}

/// The base members that at least one side still has.
pub open spec fn survivors(
    base: Seq<KeyText>,
    ours: Seq<KeyText>,
    theirs: Seq<KeyText>,
) -> Seq<KeyText> {
    kept(base, ours + theirs)
}

/// What there is to place.
pub open spec fn member_sequences(
    base: Seq<KeyText>,
    ours: Seq<KeyText>,
    theirs: Seq<KeyText>,
) -> Sequences<KeyText> {
    Sequences {
        survivors: coordinate(
            survivors(base, ours, theirs),
            kept(ours, base),
            kept(theirs, base),
            false,
        ),
        hidden: Seq::empty(),
        added: additions(base, ours, theirs),
        ours,
        theirs,
    }
}

/// The order the merged members are emitted in: survivors keep the shared base
/// order unless exactly one side moved them, and an addition stands behind the
/// nearest surviving member it was written after.
pub open spec fn order_of(
    base: Seq<KeyText>,
    ours: Seq<KeyText>,
    theirs: Seq<KeyText>,
) -> Seq<KeyText> {
    items(member_sequences(base, ours, theirs).placed())
}

fn is_key_before(a: &MemberKey, b: &MemberKey) -> (r: bool)
    ensures
        r == key_before(a@, b@),
{
    str_before(a.0.as_str(), b.0.as_str()) || (str_eq(a.0.as_str(), b.0.as_str()) && a.1 < b.1)
}

fn push_key(v: &mut Vec<MemberKey>, x: &MemberKey)
    ensures
        views(final(v)@) == add_key(views(old(v)@), x@),
{
    let ghost all = views(v@);
    let mut p: usize = 0;
    while p < v.len() && is_key_before(&v[p], x)
        invariant
            p <= v@.len(),
            all == views(v@),
            forall|m: int| 0 <= m < v@.len() ==> (#[trigger] v@[m])@ == all[m],
            key_place(all, x@, p as int) == key_place(all, x@, 0),
        decreases v@.len() - p,
    {
        p = p + 1;
    }
    if p < v.len() && v[p].same_as(x) {
        return ;
    }
    v.insert(p, x.twin());
    proof {
        assert(views(v@) =~= all.insert(p as int, x@));
    }
}

fn push_added(v: &mut Vec<MemberKey>, side: &Vec<MemberKey>, base: &Vec<MemberKey>)
    ensures
        views(final(v)@) == added_keys(
            views(old(v)@),
            views(side@),
            views(base@),
            side@.len() as int,
        ),
{
    let ghost start = views(v@);
    let ghost all = views(side@);
    let mut i: usize = 0;
    while i < side.len()
        invariant
            i <= side@.len(),
            all == views(side@),
            views(v@) == added_keys(start, all, views(base@), i as int),
        decreases side@.len() - i,
    {
        proof {
            assert(all[i as int] == side@[i as int]@);
        }
        if !holds(base, &side[i]) {
            push_key(v, &side[i]);
        }
        i = i + 1;
    }
}

/// The order the merged members are emitted in.
pub fn member_order(base: &Vec<MemberKey>, ours: &Vec<MemberKey>, theirs: &Vec<MemberKey>) -> (r: Vec<
    MemberKey,
>)
    ensures
        views(r@) == order_of(views(base@), views(ours@), views(theirs@)),
{
    let ghost q = member_sequences(views(base@), views(ours@), views(theirs@));
    let mut both = crate::order::twins(ours);
    let mut more = crate::order::twins(theirs);
    let ghost o = both@;
    let ghost t = more@;
    both.append(&mut more);
    proof {
        assert(views(both@) =~= views(o) + views(t));
    }
    let base_seq = keep(base, &both);
    let ours_seq = keep(ours, base);
    let theirs_seq = keep(theirs, base);
    let (survivors, _) = choose_coordinate(&base_seq, &ours_seq, &theirs_seq, false);
    let mut added: Vec<MemberKey> = Vec::new();
    proof {
        assert(views(added@) =~= Seq::empty());
    }
    push_added(&mut added, ours, base);
    push_added(&mut added, theirs, base);
    let hidden: Vec<MemberKey> = Vec::new();
    proof {
        assert(views(hidden@) =~= Seq::empty());
    }
    let placed = place_all(&survivors, &hidden, &added, ours, theirs);
    let ghost pv = views(placed@);
    proof {
        assert(pv == q.placed());
    }
    let mut out: Vec<MemberKey> = Vec::new();
    let mut i: usize = 0;
    while i < placed.len()
        invariant
            i <= placed@.len(),
            pv == views(placed@),
            out@.len() == i,
            forall|k: int| 0 <= k < i ==> (#[trigger] out@[k])@ == pv[k].item,
        decreases placed@.len() - i,
    {
        proof {
            assert(pv[i as int] == placed@[i as int]@);
        }
        out.push(placed[i].item.twin());
        i = i + 1;
    }
    proof {
        assert(views(out@) =~= order_of(views(base@), views(ours@), views(theirs@)));
    }
    out
}

/// The keys stand in their order, each once.
pub open spec fn keys_sorted(v: Seq<KeyText>) -> bool {
    forall|i: int, j: int|
        0 <= i < j < v.len() ==> key_before(#[trigger] v[i], #[trigger] v[j])
}

proof fn key_before_transitive(a: KeyText, b: KeyText, c: KeyText)
    requires
        key_before(a, b),
        key_before(b, c),
    ensures
        key_before(a, c),
{
    if before(a.0, b.0) && before(b.0, c.0) {
        crate::text::before_transitive(a.0, b.0, c.0, 0);
    }
}

proof fn key_before_total(a: KeyText, b: KeyText)
    ensures
        key_before(a, b) || key_before(b, a) || a == b,
        !key_before(a, a),
        key_before(a, b) ==> !key_before(b, a),
{
    assert(a.0.subrange(0, 0) =~= b.0.subrange(0, 0));
    crate::text::before_total(a.0, b.0, 0);
    crate::text::before_irreflexive(a.0, 0);
    crate::text::before_irreflexive(b.0, 0);
    if key_before(a, b) && key_before(b, a) {
        key_before_transitive(a, b, a);
    }
}

proof fn key_place_bounds(v: Seq<KeyText>, x: KeyText, k: int)
    requires
        0 <= k <= v.len(),
    ensures
        k <= key_place(v, x, k) <= v.len(),
        forall|m: int| k <= m < key_place(v, x, k) ==> key_before(#[trigger] v[m], x),
        key_place(v, x, k) < v.len() ==> !key_before(v[key_place(v, x, k)], x),
    decreases v.len() - k,
{
    if k < v.len() && key_before(v[k], x) {
        key_place_bounds(v, x, k + 1);
    }
}

proof fn add_key_sorts(v: Seq<KeyText>, x: KeyText)
    requires
        keys_sorted(v),
    ensures
        keys_sorted(add_key(v, x)),
        forall|y: KeyText| #[trigger] add_key(v, x).contains(y) <==> v.contains(y) || y == x,
{
    let p = key_place(v, x, 0);
    key_place_bounds(v, x, 0);
    let w = add_key(v, x);
    if p < v.len() && v[p] == x {
        assert(v.contains(x));
    } else {
        assert(w =~= v.insert(p, x));
        assert forall|i: int, j: int| 0 <= i < j < w.len() implies key_before(
            #[trigger] w[i],
            #[trigger] w[j],
        ) by {
            if i < p {
                assert(w[i] == v[i]);
                if j > p {
                    assert(w[j] == v[j - 1]);
                } else if j < p {
                    assert(w[j] == v[j]);
                }
            } else {
                assert(w[j] == v[j - 1]);
                key_before_total(v[p], x);
                if i == p {
                    if j - 1 > p {
                        key_before_transitive(x, v[p], v[j - 1]);
                    }
                } else {
                    assert(w[i] == v[i - 1]);
                }
            }
        }
        assert forall|y: KeyText| #[trigger] w.contains(y) <==> v.contains(y) || y == x by {
            if v.contains(y) {
                let k = choose|k: int| 0 <= k < v.len() && v[k] == y;
                if k < p {
                    assert(w[k] == y);
                } else {
                    assert(w[k + 1] == y);
                }
            }
            assert(w[p] == x);
            if w.contains(y) {
                let k = choose|k: int| 0 <= k < w.len() && w[k] == y;
                if k < p {
                    assert(v[k] == y);
                } else if k > p {
                    assert(v[k - 1] == y);
                }
            }
        }
    }
}

proof fn added_keys_sort(v: Seq<KeyText>, side: Seq<KeyText>, base: Seq<KeyText>, n: int)
    requires
        keys_sorted(v),
        0 <= n <= side.len(),
    ensures
        keys_sorted(added_keys(v, side, base, n)),
        forall|y: KeyText| #[trigger]
            added_keys(v, side, base, n).contains(y) <==> v.contains(y) || side.take(n).contains(y)
                && !base.contains(y),
    decreases n,
{
    if n > 0 {
        added_keys_sort(v, side, base, n - 1);
        let w = added_keys(v, side, base, n - 1);
        add_key_sorts(w, side[n - 1]);
        let some = side.take(n);
        let front = side.take(n - 1);
        assert forall|y: KeyText| #[trigger] some.contains(y) <==> front.contains(y) || y == side[n
            - 1] by {
            if front.contains(y) {
                let k = choose|k: int| 0 <= k < front.len() && front[k] == y;
                assert(some[k] == y);
            }
            assert(some[n - 1] == side[n - 1]);
            if some.contains(y) {
                let k = choose|k: int| 0 <= k < some.len() && some[k] == y;
                if k < n - 1 {
                    assert(front[k] == y);
                }
            }
        }
    }
}

proof fn sorted_keys_are_unique(a: Seq<KeyText>, b: Seq<KeyText>)
    requires
        keys_sorted(a),
        keys_sorted(b),
        forall|y: KeyText| #[trigger] a.contains(y) <==> b.contains(y),
    ensures
        a == b,
    decreases a.len(),
{
    if a.len() == 0 {
        if b.len() > 0 {
            assert(b.contains(b[0]));
            assert(a.contains(b[0]));
        }
        assert(a =~= b);
    } else {
        let x = a.last();
        assert(a.contains(x));
        assert(b.contains(x));
        let p = choose|p: int| 0 <= p < b.len() && b[p] == x;
        let y = b.last();
        assert(b.contains(y));
        assert(a.contains(y));
        let q = choose|q: int| 0 <= q < a.len() && a[q] == y;
        if p < b.len() - 1 {
            assert(key_before(b[p], b[b.len() - 1]));
            if q < a.len() - 1 {
                assert(key_before(a[q], a[a.len() - 1]));
            }
            key_before_total(x, y);
        }
        assert(x == y);
        let a1 = a.drop_last();
        let b1 = b.drop_last();
        assert forall|z: KeyText| #[trigger] a1.contains(z) <==> b1.contains(z) by {
            key_before_total(x, x);
            if a1.contains(z) {
                let k = choose|k: int| 0 <= k < a1.len() && a1[k] == z;
                assert(a[k] == z);
                assert(a.contains(z));
                assert(key_before(a[k], a[a.len() - 1]));
                let m = choose|m: int| 0 <= m < b.len() && b[m] == z;
                assert(m < b.len() - 1);
                assert(b1[m] == z);
            }
            if b1.contains(z) {
                let k = choose|k: int| 0 <= k < b1.len() && b1[k] == z;
                assert(b[k] == z);
                assert(b.contains(z));
                assert(key_before(b[k], b[b.len() - 1]));
                assert(a.contains(z));
                let m = choose|m: int| 0 <= m < a.len() && a[m] == z;
                assert(m < a.len() - 1);
                assert(a1[m] == z);
            }
        }
        assert forall|i: int, j: int| 0 <= i < j < a1.len() implies key_before(
            #[trigger] a1[i],
            #[trigger] a1[j],
        ) by {
            assert(a1[i] == a[i] && a1[j] == a[j]);
        }
        assert forall|i: int, j: int| 0 <= i < j < b1.len() implies key_before(
            #[trigger] b1[i],
            #[trigger] b1[j],
        ) by {
            assert(b1[i] == b[i] && b1[j] == b[j]);
        }
        sorted_keys_are_unique(a1, b1);
        assert(a =~= a1.push(x));
        assert(b =~= b1.push(y));
    }
}

proof fn kept_by_membership<T>(v: Seq<T>, a: Seq<T>, b: Seq<T>)
    requires
        forall|y: T| #[trigger] a.contains(y) <==> b.contains(y),
    ensures
        kept(v, a) == kept(v, b),
    decreases v.len(),
{
    if v.len() > 0 {
        kept_by_membership(v.drop_last(), a, b);
    }
}

/// The order of the merged members does not depend on which side is ours.
pub proof fn member_order_is_symmetric(
    base: Seq<KeyText>,
    ours: Seq<KeyText>,
    theirs: Seq<KeyText>,
)
    ensures
        order_of(base, theirs, ours) == order_of(base, ours, theirs),
{
    let a = ours + theirs;
    let b = theirs + ours;
    assert forall|y: KeyText| #[trigger] a.contains(y) <==> b.contains(y) by {
        if a.contains(y) {
            let k = choose|k: int| 0 <= k < a.len() && a[k] == y;
            if k < ours.len() {
                assert(b[theirs.len() + k] == y);
            } else {
                assert(b[k - ours.len()] == y);
            }
        }
        if b.contains(y) {
            let k = choose|k: int| 0 <= k < b.len() && b[k] == y;
            if k < theirs.len() {
                assert(a[ours.len() + k] == y);
            } else {
                assert(a[k - theirs.len()] == y);
            }
        }
    }
    kept_by_membership(base, a, b);
    let o0 = added_keys(Seq::empty(), ours, base, ours.len() as int);
    let t0 = added_keys(Seq::empty(), theirs, base, theirs.len() as int);
    added_keys_sort(Seq::empty(), ours, base, ours.len() as int);
    added_keys_sort(Seq::empty(), theirs, base, theirs.len() as int);
    added_keys_sort(o0, theirs, base, theirs.len() as int);
    added_keys_sort(t0, ours, base, ours.len() as int);
    assert(ours.take(ours.len() as int) =~= ours);
    assert(theirs.take(theirs.len() as int) =~= theirs);
    assert forall|y: KeyText| #[trigger] additions(base, ours, theirs).contains(y) <==> additions(
        base,
        theirs,
        ours,
    ).contains(y) by {
        assert(!Seq::<KeyText>::empty().contains(y));
        assert(o0.contains(y) <==> ours.contains(y) && !base.contains(y));
        assert(t0.contains(y) <==> theirs.contains(y) && !base.contains(y));
    }
    sorted_keys_are_unique(additions(base, ours, theirs), additions(base, theirs, ours));
    crate::order::coordinate_is_symmetric(
        survivors(base, ours, theirs),
        kept(ours, base),
        kept(theirs, base),
        false,
    );
    let q = member_sequences(base, ours, theirs);
    crate::order::placement_is_symmetric(q);
    assert(q.swapped() == member_sequences(base, theirs, ours));
}

proof fn sum_holds<T>(a: Seq<T>, b: Seq<T>, x: T)
    ensures
        (a + b).contains(x) <==> a.contains(x) || b.contains(x),
{
    if a.contains(x) {
        let k = choose|k: int| 0 <= k < a.len() && a[k] == x;
        assert((a + b)[k] == x);
    }
    if b.contains(x) {
        let k = choose|k: int| 0 <= k < b.len() && b[k] == x;
        assert((a + b)[a.len() + k] == x);
    }
}

/// What there is to place: the survivors are the base members that some side has,
/// the additions are what some side has and base does not, and neither list holds
/// anything twice.
proof fn member_sequences_hold(base: Seq<KeyText>, ours: Seq<KeyText>, theirs: Seq<KeyText>)
    ensures
        ({
            let q = member_sequences(base, ours, theirs);
            &&& q.survivors.no_duplicates()
            &&& q.added.no_duplicates()
            &&& forall|x: KeyText| #[trigger]
                q.survivors.contains(x) <==> base.contains(x) && (ours.contains(x)
                    || theirs.contains(x))
            &&& forall|x: KeyText| #[trigger]
                q.added.contains(x) <==> !base.contains(x) && (ours.contains(x)
                    || theirs.contains(x))
        }),
{
    let q = member_sequences(base, ours, theirs);
    let left = survivors(base, ours, theirs);
    let o = kept(ours, base);
    let t = kept(theirs, base);
    let claimed = crate::order::asserted(left, o, t, false).0;
    crate::order::a_union_holds_each_once(claimed, left);
    assert forall|x: KeyText| #[trigger] q.survivors.contains(x) <==> base.contains(x) && (
    ours.contains(x) || theirs.contains(x)) by {
        crate::order::kept_holds(base, ours + theirs, x);
        crate::order::kept_holds(ours, base, x);
        crate::order::kept_holds(theirs, base, x);
        sum_holds(ours, theirs, x);
        assert(q.survivors.contains(x) <==> claimed.contains(x) || left.contains(x));
    }
    let first = added_keys(Seq::empty(), ours, base, ours.len() as int);
    added_keys_sort(Seq::empty(), ours, base, ours.len() as int);
    added_keys_sort(first, theirs, base, theirs.len() as int);
    assert(ours.take(ours.len() as int) =~= ours);
    assert(theirs.take(theirs.len() as int) =~= theirs);
    assert forall|x: KeyText| #[trigger] q.added.contains(x) <==> !base.contains(x) && (
    ours.contains(x) || theirs.contains(x)) by {
        assert(!Seq::<KeyText>::empty().contains(x));
        assert(first.contains(x) <==> ours.contains(x) && !base.contains(x));
    }
    assert(q.added.no_duplicates()) by {
        assert forall|i: int, j: int| 0 <= i < q.added.len() && 0 <= j < q.added.len() && i
            != j implies q.added[i] != q.added[j] by {
            key_before_total(q.added[i], q.added[j]);
            key_before_total(q.added[i], q.added[i]);
            if i < j {
                assert(key_before(q.added[i], q.added[j]));
            } else {
                assert(key_before(q.added[j], q.added[i]));
            }
        }
    }
}

/// The merged members are the members of either side, each exactly once.
pub proof fn member_order_holds_each_member_once(
    base: Seq<KeyText>,
    ours: Seq<KeyText>,
    theirs: Seq<KeyText>,
)
    ensures
        order_of(base, ours, theirs).no_duplicates(),
        forall|x: KeyText| #[trigger]
            order_of(base, ours, theirs).contains(x) <==> ours.contains(x) || theirs.contains(x),
{
    let q = member_sequences(base, ours, theirs);
    let out = order_of(base, ours, theirs);
    let p = q.placed();
    member_sequences_hold(base, ours, theirs);
    crate::order::a_placement_holds_each_once(q);
    assert forall|i: int, j: int| 0 <= i < out.len() && 0 <= j < out.len() && i
        != j implies out[i] != out[j] by {
        assert(out[i] == p[i].item && out[j] == p[j].item);
        if i < j {
            assert(p[i].item != p[j].item);
        } else {
            assert(p[j].item != p[i].item);
        }
    }
    assert forall|x: KeyText| #[trigger] out.contains(x) <==> ours.contains(x) || theirs.contains(
        x,
    ) by {
        crate::order::a_placement_holds_everything(q, x);
        assert(!q.hidden.contains(x));
        if out.contains(x) {
            let k = choose|k: int| 0 <= k < out.len() && out[k] == x;
            assert(p[k].item == x);
        }
        if crate::order::is_placed(p, x) {
            let k = choose|k: int| 0 <= k < p.len() && (#[trigger] p[k]).item == x;
            assert(out[k] == x);
        }
    }
}

/// Where neither side reordered the base members it kept, the base members among the
/// merged ones are those that some side kept, in base's order.
pub proof fn member_order_keeps_base_order(
    base: Seq<KeyText>,
    ours: Seq<KeyText>,
    theirs: Seq<KeyText>,
)
    requires
        base.no_duplicates(),
        kept(ours, base) == kept(base, ours),
        kept(theirs, base) == kept(base, theirs),
    ensures
        kept(order_of(base, ours, theirs), base) == kept(base, ours + theirs),
{
    let q = member_sequences(base, ours, theirs);
    let left = survivors(base, ours, theirs);
    let o = kept(ours, base);
    let t = kept(theirs, base);
    member_sequences_hold(base, ours, theirs);
    assert forall|x: KeyText| #[trigger] ours.contains(x) && base.contains(x) <==> (ours
        + theirs).contains(x) && o.contains(x) && base.contains(x) by {
        sum_holds(ours, theirs, x);
        crate::order::kept_holds(ours, base, x);
    }
    crate::order::kept_twice(base, ours + theirs, o, ours);
    assert forall|x: KeyText| #[trigger] theirs.contains(x) && base.contains(x) <==> (ours
        + theirs).contains(x) && t.contains(x) && base.contains(x) by {
        sum_holds(ours, theirs, x);
        crate::order::kept_holds(theirs, base, x);
    }
    crate::order::kept_twice(base, ours + theirs, t, theirs);
    crate::order::kept_keeps_distinct(base, ours + theirs);
    crate::order::an_order_nobody_changed_stands(left, o, t, false);
    crate::order::a_placement_keeps_the_survivors_order(q, base);
}

/// Where one side alone reordered the base members it kept, the merged members follow
/// that side: its own base members stand in its order.
pub proof fn member_order_follows_the_side_that_moved(
    base: Seq<KeyText>,
    ours: Seq<KeyText>,
    theirs: Seq<KeyText>,
)
    requires
        base.no_duplicates(),
        ours.no_duplicates(),
        kept(ours, base) != kept(base, ours),
        kept(theirs, base) == kept(base, theirs),
    ensures
        kept(kept(order_of(base, ours, theirs), base), kept(ours, base)) == kept(ours, base),
{
    let q = member_sequences(base, ours, theirs);
    let left = survivors(base, ours, theirs);
    let o = kept(ours, base);
    let t = kept(theirs, base);
    member_sequences_hold(base, ours, theirs);
    assert forall|x: KeyText| #[trigger] ours.contains(x) && base.contains(x) <==> (ours
        + theirs).contains(x) && o.contains(x) && base.contains(x) by {
        sum_holds(ours, theirs, x);
        crate::order::kept_holds(ours, base, x);
    }
    crate::order::kept_twice(base, ours + theirs, o, ours);
    assert forall|x: KeyText| #[trigger] theirs.contains(x) && base.contains(x) <==> (ours
        + theirs).contains(x) && t.contains(x) && base.contains(x) by {
        sum_holds(ours, theirs, x);
        crate::order::kept_holds(theirs, base, x);
    }
    crate::order::kept_twice(base, ours + theirs, t, theirs);
    crate::order::a_placement_keeps_the_survivors_order(q, base);
    crate::order::kept_keeps_distinct(ours, base);
    crate::order::a_union_follows_the_first(o, left);
}

// ---------------------------------------------------------------------------
// The merge
// ---------------------------------------------------------------------------

/// What the finer merges answer about one segment that both sides changed: two line
/// merges, the merge that sees decorators, the statement merge with what it put
/// together on evidence, and the conflict to write where all of them refuse.
#[derive(Debug)]
pub struct Leaf {
    pub diff3: Option<String>,
    pub line: Option<String>,
    pub decorated: Option<String>,
    pub statement: Option<InnerMergeResult>,
    pub evidence: Vec<LicensedGap>,
    pub marker: String,
}

/// A [`Leaf`] with its strings read as texts.
pub struct LeafView {
    pub diff3: Option<Seq<char>>,
    pub line: Option<Seq<char>>,
    pub decorated: Option<Seq<char>>,
    pub statement: Option<InnerView>,
    pub evidence: Seq<GapView>,
    pub marker: Seq<char>,
}

impl View for Leaf {
    type V = LeafView;

    open spec fn view(&self) -> LeafView {
        LeafView {
            diff3: opt_view(self.diff3),
            line: opt_view(self.line),
            decorated: opt_view(self.decorated),
            statement: opt_inner(self.statement),
            evidence: gap_views(self.evidence@),
            marker: self.marker@,
        }
    }
}

/// What became of one segment.
pub struct Outcome {
    pub text: Seq<char>,
    pub conflicted: bool,
    pub evidence: Seq<GapView>,
}

/// A segment that is taken as it stands.
pub open spec fn as_is(text: Seq<char>) -> Outcome {
    Outcome { text, conflicted: false, evidence: Seq::empty() }
}

/// A segment that is left to a reader.
pub open spec fn refused(marker: Seq<char>) -> Outcome {
    Outcome { text: marker, conflicted: true, evidence: Seq::empty() }
}

/// The three-way merge of one segment. What the sides agree on, or only one of them
/// changed, is taken; then the finer merges are asked in turn, the one that sees
/// decorators only of a member; what none of them answers is a conflict.
pub open spec fn settled(
    b: Seq<char>,
    o: Seq<char>,
    t: Seq<char>,
    leaf: LeafView,
    member: bool,
) -> Outcome {
    if o == t {
        as_is(o)
    } else if b == o {
        as_is(t)
    } else if b == t {
        as_is(o)
    } else if leaf.diff3 is Some {
        as_is(leaf.diff3->0)
    } else if leaf.line is Some {
        as_is(leaf.line->0)
    } else if member && leaf.decorated is Some {
        as_is(leaf.decorated->0)
    } else if leaf.statement is Some && !leaf.statement->0.has_conflicts {
        Outcome {
            text: leaf.statement->0.content,
            conflicted: false,
            evidence: leaf.evidence,
        }
    } else {
        Outcome { text: leaf.marker, conflicted: true, evidence: leaf.evidence }
    }
}

/// The gap that leads a member. Only the versions that have the member get a say
/// in it.
pub open spec fn settled_lead(
    b: Option<MemberView>,
    o: Option<MemberView>,
    t: Option<MemberView>,
    leaf: LeafView,
) -> Outcome {
    match (o, t) {
        (Some(mo), Some(mt)) => settled(
            if b is Some {
                b->0.lead
            } else {
                mo.lead
            },
            mo.lead,
            mt.lead,
            leaf,
            false,
        ),
        (Some(mo), None) => as_is(mo.lead),
        (None, Some(mt)) => as_is(mt.lead),
        (None, None) => as_is(
            if b is Some {
                b->0.lead
            } else {
                Seq::empty()
            },
        ),
    }
}

/// A member's own text, or `None` where the merge does not emit it. A deletion of
/// what the other side left alone is accepted; one that races an edit is the
/// member's conflict.
pub open spec fn settled_body(
    b: Option<MemberView>,
    o: Option<MemberView>,
    t: Option<MemberView>,
    leaf: LeafView,
) -> Option<Outcome> {
    match (b, o, t) {
        (Some(mb), Some(mo), Some(mt)) => Some(settled(mb.text, mo.text, mt.text, leaf, true)),
        (Some(mb), Some(mo), None) => if mb.text == mo.text {
            None
        } else {
            Some(refused(leaf.marker))
        },
        (Some(mb), None, Some(mt)) => if mb.text == mt.text {
            None
        } else {
            Some(refused(leaf.marker))
        },
        (None, Some(mo), None) => Some(as_is(mo.text)),
        (None, None, Some(mt)) => Some(as_is(mt.text)),
        (None, Some(mo), Some(mt)) => if mo.text == mt.text {
            Some(as_is(mo.text))
        } else {
            Some(refused(leaf.marker))
        },
        (_, None, None) => None,
    }
}

/// What the finer merges answer about every segment: one leaf for each part of the
/// frame, and two for each member in the order of the merge.
#[derive(Debug)]
pub struct Answers {
    pub declaration: Leaf,
    pub attributes: Leaf,
    pub leads: Vec<Leaf>,
    pub bodies: Vec<Leaf>,
    pub trailing: Leaf,
    pub closing: Leaf,
}

/// A merged body while it is put together.
pub struct Draft {
    pub text: Seq<char>,
    pub conflicted: bool,
    pub evidence: Seq<GapView>,
}

impl Draft {
    /// The draft with one segment more.
    pub open spec fn with(self, x: Outcome) -> Draft {
        Draft {
            text: self.text + x.text,
            conflicted: self.conflicted || x.conflicted,
            evidence: self.evidence + x.evidence,
        }
    }

    /// The draft with a line feed, where it ends in none.
    pub open spec fn with_feed(self, text: Seq<char>) -> Draft {
        if text.len() > 0 && text.last() == '\n' {
            self
        } else {
            Draft { text: self.text.push('\n'), ..self }
        }
    }

    /// The draft without its last piece of text, which is not emitted.
    pub open spec fn with_flags(self, x: Outcome) -> Draft {
        Draft {
            text: self.text,
            conflicted: self.conflicted || x.conflicted,
            evidence: self.evidence + x.evidence,
        }
    }
}

/// The member with the key.
pub open spec fn member_of(d: DecomposedView, key: KeyText) -> Option<MemberView> {
    match crate::order::place_of(d.keys(), key, 0) {
        Some(p) => Some(d.members[p]),
        None => None,
    }
}

/// Three versions of one container, taken apart.
pub struct Three {
    pub base: DecomposedView,
    pub ours: DecomposedView,
    pub theirs: DecomposedView,
}

impl Three {
    /// The order the merged members are emitted in.
    pub open spec fn order(self) -> Seq<KeyText> {
        order_of(self.base.keys(), self.ours.keys(), self.theirs.keys())
    }

    /// A draft with one member more: its lead, its text and a line feed, where it is
    /// emitted at all.
    pub open spec fn with_member(self, d: Draft, key: KeyText, lead: LeafView, body: LeafView) -> Draft {
        let b = member_of(self.base, key);
        let o = member_of(self.ours, key);
        let t = member_of(self.theirs, key);
        let l = settled_lead(b, o, t, lead);
        match settled_body(b, o, t, body) {
            Some(x) => d.with(l).with(x).with_feed(x.text),
            None => d.with_flags(l),
        }
    }

    /// The draft with the first `n` members of the order.
    pub open spec fn members_upto(self, d: Draft, answers: Answers, n: int) -> Draft
        decreases n,
    {
        if n <= 0 {
            d
        } else {
            self.with_member(
                self.members_upto(d, answers, n - 1),
                self.order()[n - 1],
                answers.leads@[n - 1]@,
                answers.bodies@[n - 1]@,
            )
        }
    }

    /// The declaration and the attributes, the members in order, what trails them
    /// and the closing.
    pub open spec fn draft(self, answers: Answers) -> Draft {
        let head = (Draft { text: Seq::empty(), conflicted: false, evidence: Seq::empty() }).with(
            settled(
                self.base.header,
                self.ours.header,
                self.theirs.header,
                answers.declaration@,
                false,
            ),
        ).with(
            settled(
                self.base.prelude,
                self.ours.prelude,
                self.theirs.prelude,
                answers.attributes@,
                false,
            ),
        );
        self.members_upto(head, answers, self.order().len() as int).with(
            settled(self.base.tail, self.ours.tail, self.theirs.tail, answers.trailing@, false),
        ).with(
            settled(
                self.base.footer,
                self.ours.footer,
                self.theirs.footer,
                answers.closing@,
                false,
            ),
        )
    }
}

/// How many of base's copies of a line neither side deleted, if the two sides
/// deleted different ones.
pub open spec fn owed_copies(n: int, o: int, t: int) -> int {
    let kept_ours = if o < n {
        o
    } else {
        n
    };
    let kept_theirs = if t < n {
        t
    } else {
        n
    };
    if kept_ours + kept_theirs > n {
        kept_ours + kept_theirs - n
    } else {
        0
    }
}

/// How often a text states a line, white space behind it aside.
pub open spec fn copies(text: Seq<char>, line: Seq<char>) -> int {
    stated(lines(text), line, lines(text).len() as int)
}

/// Does the merged text state the line less often than it has to?
pub open spec fn drops_line(
    base: Seq<char>,
    ours: Seq<char>,
    theirs: Seq<char>,
    out: Seq<char>,
    line: Seq<char>,
) -> bool {
    &&& trim(line).len() > 0
    &&& owed_copies(copies(base, line), copies(ours, line), copies(theirs, line)) > copies(out, line)
}

/// Does the merged text fail to carry a base line that neither side deleted?
pub open spec fn drops(
    base: Seq<char>,
    ours: Seq<char>,
    theirs: Seq<char>,
    out: Seq<char>,
) -> bool {
    exists|k: int|
        0 <= k < lines(base).len() && drops_line(
            base,
            ours,
            theirs,
            out,
            trim_end(#[trigger] lines(base)[k]),
        )
}

/// Does the merged text fail to carry the base lines that neither side deleted?
///
/// Lines are counted, blank ones and trailing white space aside, so that moving a
/// line is no loss. Deletions of the two sides add up: nothing says that they
/// deleted the same copies.
pub fn drops_unanimous_lines(base: &str, ours: &str, theirs: &str, out: &str) -> (r: bool)
    ensures
        r == drops(base@, ours@, theirs@, out@),
{
    let bs = split_lines(chars_of(base).as_slice());
    let os = split_lines(chars_of(ours).as_slice());
    let ts = split_lines(chars_of(theirs).as_slice());
    let xs = split_lines(chars_of(out).as_slice());
    let ghost all = lines(base@);
    proof {
        assert(texts(bs@).len() == bs@.len());
        assert(texts(os@).len() == os@.len());
        assert(texts(ts@).len() == ts@.len());
        assert(texts(xs@).len() == xs@.len());
    }
    let mut k: usize = 0;
    while k < bs.len()
        invariant
            k <= bs@.len() == all.len(),
            all == lines(base@),
            texts(bs@) == all,
            texts(os@) == lines(ours@),
            texts(ts@) == lines(theirs@),
            texts(xs@) == lines(out@),
            os@.len() == lines(ours@).len(),
            ts@.len() == lines(theirs@).len(),
            xs@.len() == lines(out@).len(),
            forall|m: int|
                0 <= m < k ==> !drops_line(
                    base@,
                    ours@,
                    theirs@,
                    out@,
                    trim_end(#[trigger] all[m]),
                ),
        decreases bs@.len() - k,
    {
        proof {
            assert(all[k as int] == bs@[k as int]@);
        }
        let line = trimmed_end(bs[k].as_slice());
        if trimmed(line).len() > 0 {
            let n: usize = count_stated(&bs, line);
            let o: usize = count_stated(&os, line);
            let t: usize = count_stated(&ts, line);
            let x: usize = count_stated(&xs, line);
            let kept_ours: u128 = if o < n {
                o as u128
            } else {
                n as u128
            };
            let kept_theirs: u128 = if t < n {
                t as u128
            } else {
                n as u128
            };
            let owed: u128 = if kept_ours + kept_theirs > n as u128 {
                kept_ours + kept_theirs - n as u128
            } else {
                0
            };
            if owed > x as u128 {
                proof {
                    assert(drops_line(base@, ours@, theirs@, out@, trim_end(all[k as int])));
                }
                return true;
            }
        }
        k = k + 1;
    }
    false
}

/// The merge of three containers, where it can be trusted: a text that drops what
/// all three versions agree on is no merge.
pub open spec fn container_merged(
    base: Seq<char>,
    ours: Seq<char>,
    theirs: Seq<char>,
    three: Three,
    answers: Answers,
) -> Option<Draft> {
    let d = three.draft(answers);
    let text = if ours.len() > 0 && ours.last() == '\n' {
        d.text
    } else {
        without_feeds(d.text)
    };
    if drops(base, ours, theirs, text) {
        None
    } else {
        Some(Draft { text, ..d })
    }
}

struct Sheet {
    text: Vec<char>,
    conflicted: bool,
    evidence: Vec<LicensedGap>,
}

impl View for Sheet {
    type V = Draft;

    closed spec fn view(&self) -> Draft {
        Draft {
            text: self.text@,
            conflicted: self.conflicted,
            evidence: gap_views(self.evidence@),
        }
    }
}

impl Sheet {
    fn keep(&mut self, text: &str)
        ensures
            final(self)@ == old(self)@.with(as_is(text@)),
    {
        let ghost held = gap_views(self.evidence@);
        push_text(&mut self.text, text);
        proof {
            assert(held + Seq::<GapView>::empty() =~= held);
        }
    }

    fn refuse(&mut self, text: &str)
        ensures
            final(self)@ == old(self)@.with(refused(text@)),
    {
        self.keep(text);
        self.conflicted = true;
    }

    fn feed(&mut self, text: &str)
        ensures
            final(self)@ == old(self)@.with_feed(text@),
    {
        let c = chars_of(text);
        if !(c.len() > 0 && c[c.len() - 1] == '\n') {
            self.text.push('\n');
        }
    }

    /// Merge one segment into the sheet, and return its text.
    fn settle(&mut self, b: &str, o: &str, t: &str, leaf: &Leaf, member: bool) -> (r: String)
        ensures
            final(self)@ == old(self)@.with(settled(b@, o@, t@, leaf@, member)),
            r@ == settled(b@, o@, t@, leaf@, member).text,
    {
        if str_eq(o, t) || str_eq(b, t) {
            self.keep(o);
            return o.to_owned();
        }
        if str_eq(b, o) {
            self.keep(t);
            return t.to_owned();
        }
        match &leaf.diff3 {
            Some(m) => {
                self.keep(m.as_str());
                return m.clone();
            },
            None => {},
        }
        match &leaf.line {
            Some(m) => {
                self.keep(m.as_str());
                return m.clone();
            },
            None => {},
        }
        if member {
            match &leaf.decorated {
                Some(m) => {
                    self.keep(m.as_str());
                    return m.clone();
                },
                None => {},
            }
        }
        push_gaps(&mut self.evidence, &leaf.evidence);
        match &leaf.statement {
            Some(inner) => {
                if !inner.has_conflicts {
                    push_text(&mut self.text, inner.content.as_str());
                    return inner.content.clone();
                }
            },
            None => {},
        }
        push_text(&mut self.text, leaf.marker.as_str());
        self.conflicted = true;
        leaf.marker.clone()
    }
}

fn find_member<'a>(d: &'a Decomposed, key: &MemberKey) -> (r: Option<&'a Member>)
    ensures
        match r {
            Some(m) => member_of(d@, key@) == Some(m@),
            None => member_of(d@, key@) is None,
        },
{
    let ghost all = d@.keys();
    let mut i: usize = 0;
    while i < d.members.len()
        invariant
            i <= d.members@.len() == all.len(),
            all == d@.keys(),
            crate::order::place_of(all, key@, i as int) == crate::order::place_of(all, key@, 0),
        decreases d.members@.len() - i,
    {
        proof {
            assert(d@.members[i as int] == d.members@[i as int]@);
            assert(all[i as int] == d.members@[i as int].key@);
        }
        if d.members[i].key.same_as(key) {
            return Some(&d.members[i]);
        }
        i = i + 1;
    }
    None
}

spec fn opt_member(m: Option<&Member>) -> Option<MemberView> {
    match m {
        Some(x) => Some(x@),
        None => None,
    }
}

/// Write the gap that leads a member.
fn write_lead(
    s: &mut Sheet,
    b: Option<&Member>,
    o: Option<&Member>,
    t: Option<&Member>,
    leaf: &Leaf,
)
    ensures
        final(s)@ == old(s)@.with(
            settled_lead(opt_member(b), opt_member(o), opt_member(t), leaf@),
        ),
{
    match (o, t) {
        (Some(mo), Some(mt)) => {
            let lb = match b {
                Some(mb) => mb.lead.as_str(),
                None => mo.lead.as_str(),
            };
            let _ = s.settle(lb, mo.lead.as_str(), mt.lead.as_str(), leaf, false);
        },
        (Some(mo), None) => s.keep(mo.lead.as_str()),
        (None, Some(mt)) => s.keep(mt.lead.as_str()),
        (None, None) => match b {
            Some(mb) => s.keep(mb.lead.as_str()),
            None => {
                proof {
                    reveal_strlit("");
                    assert(""@ =~= Seq::empty());
                }
                s.keep("")
            },
        },
    }
}

/// Is the member emitted, whatever the finer merges answer?
spec fn emitted(b: Option<MemberView>, o: Option<MemberView>, t: Option<MemberView>) -> bool {
    match (b, o, t) {
        (Some(mb), Some(mo), None) => mb.text != mo.text,
        (Some(mb), None, Some(mt)) => mb.text != mt.text,
        (_, None, None) => false,
        _ => true,
    }
}

fn is_emitted(b: Option<&Member>, o: Option<&Member>, t: Option<&Member>) -> (r: bool)
    ensures
        r == emitted(opt_member(b), opt_member(o), opt_member(t)),
{
    match (o, t) {
        (None, None) => false,
        (Some(_), Some(_)) => true,
        (Some(mo), None) => match b {
            Some(mb) => !str_eq(mb.text.as_str(), mo.text.as_str()),
            None => true,
        },
        (None, Some(mt)) => match b {
            Some(mb) => !str_eq(mb.text.as_str(), mt.text.as_str()),
            None => true,
        },
    }
}

/// Write a member's own text, with a line feed behind it.
fn write_body(
    s: &mut Sheet,
    b: Option<&Member>,
    o: Option<&Member>,
    t: Option<&Member>,
    leaf: &Leaf,
)
    requires
        emitted(opt_member(b), opt_member(o), opt_member(t)),
    ensures
        settled_body(opt_member(b), opt_member(o), opt_member(t), leaf@) matches Some(x)
            && final(s)@ == old(s)@.with(x).with_feed(x.text),
{
    match (o, t) {
        (Some(mo), Some(mt)) => match b {
            Some(mb) => {
                let text = s.settle(
                    mb.text.as_str(),
                    mo.text.as_str(),
                    mt.text.as_str(),
                    leaf,
                    true,
                );
                s.feed(text.as_str());
            },
            None => {
                if str_eq(mo.text.as_str(), mt.text.as_str()) {
                    s.keep(mo.text.as_str());
                    s.feed(mo.text.as_str());
                } else {
                    s.refuse(leaf.marker.as_str());
                    s.feed(leaf.marker.as_str());
                }
            },
        },
        (Some(m), None) | (None, Some(m)) => {
            if b.is_some() {
                s.refuse(leaf.marker.as_str());
                s.feed(leaf.marker.as_str());
            } else {
                s.keep(m.text.as_str());
                s.feed(m.text.as_str());
            }
        },
        (None, None) => {},
    }
}

/// Merge three versions of one container, member by member.
///
/// `answers` holds what the finer merges say of each segment, the leads and the
/// bodies in the order of [`member_order`]. `None` where the result would drop what
/// all versions agree on; the evidence grows only with a result.
pub fn container_merge(
    base: &str,
    ours: &str,
    theirs: &str,
    b: &Decomposed,
    o: &Decomposed,
    t: &Decomposed,
    answers: &Answers,
    evidence: &mut Vec<LicensedGap>,
) -> (r: Option<InnerMergeResult>)
    requires
        answers.leads@.len() == (Three { base: b@, ours: o@, theirs: t@ }).order().len(),
        answers.bodies@.len() == (Three { base: b@, ours: o@, theirs: t@ }).order().len(),
    ensures
        match container_merged(
            base@,
            ours@,
            theirs@,
            Three { base: b@, ours: o@, theirs: t@ },
            *answers,
        ) {
            Some(d) => r matches Some(x) && x.content@ == d.text && x.has_conflicts == d.conflicted
                && gap_views(final(evidence)@) == gap_views(old(evidence)@) + d.evidence,
            None => r is None && gap_views(final(evidence)@) == gap_views(old(evidence)@),
        },
{
    let ghost three = Three { base: b@, ours: o@, theirs: t@ };
    let order = member_order(&b.keys(), &o.keys(), &t.keys());
    let ghost keys = three.order();
    let mut s = Sheet { text: Vec::new(), conflicted: false, evidence: Vec::new() };
    proof {
        assert(views(order@).len() == order@.len());
        assert(s@.evidence =~= Seq::empty());
    }
    let _ = s.settle(
        b.header.as_str(),
        o.header.as_str(),
        t.header.as_str(),
        &answers.declaration,
        false,
    );
    let _ = s.settle(
        b.prelude.as_str(),
        o.prelude.as_str(),
        t.prelude.as_str(),
        &answers.attributes,
        false,
    );
    let ghost head = s@;
    let mut i: usize = 0;
    while i < order.len()
        invariant
            three == (Three { base: b@, ours: o@, theirs: t@ }),
            keys == three.order(),
            views(order@) == keys,
            i <= order@.len() == keys.len(),
            answers.leads@.len() == keys.len(),
            answers.bodies@.len() == keys.len(),
            s@ == three.members_upto(head, *answers, i as int),
        decreases order@.len() - i,
    {
        let key = &order[i];
        proof {
            assert(keys[i as int] == key@);
        }
        let mb = find_member(b, key);
        let mo = find_member(o, key);
        let mt = find_member(t, key);
        if is_emitted(mb, mo, mt) {
            write_lead(&mut s, mb, mo, mt, &answers.leads[i]);
            write_body(&mut s, mb, mo, mt, &answers.bodies[i]);
        } else {
            proof {
                let l = settled_lead(
                    opt_member(mb),
                    opt_member(mo),
                    opt_member(mt),
                    answers.leads@[i as int]@,
                );
                assert(s@.evidence + l.evidence =~= s@.evidence);
                assert(s@ == s@.with_flags(l));
            }
        }
        i = i + 1;
    }
    let _ = s.settle(
        b.tail.as_str(),
        o.tail.as_str(),
        t.tail.as_str(),
        &answers.trailing,
        false,
    );
    let _ = s.settle(
        b.footer.as_str(),
        o.footer.as_str(),
        t.footer.as_str(),
        &answers.closing,
        false,
    );
    let ghost whole = s@;
    proof {
        assert(whole == three.draft(*answers));
    }
    let oc = chars_of(ours);
    if !(oc.len() > 0 && oc[oc.len() - 1] == '\n') {
        while s.text.len() > 0 && s.text[s.text.len() - 1] == '\n'
            invariant
                without_feeds(s.text@) == without_feeds(whole.text),
                s.conflicted == whole.conflicted,
                gap_views(s.evidence@) == whole.evidence,
            decreases s.text@.len(),
        {
            s.text.pop();
        }
    }
    let content = string_of(s.text.as_slice());
    if drops_unanimous_lines(base, ours, theirs, content.as_str()) {
        return None;
    }
    push_gaps(evidence, &s.evidence);
    Some(InnerMergeResult { content, has_conflicts: s.conflicted })
}

/// A container merge carries every line that neither side deleted as often as it
/// has to.
pub proof fn a_container_merge_keeps_what_all_agree_on(
    base: Seq<char>,
    ours: Seq<char>,
    theirs: Seq<char>,
    three: Three,
    answers: Answers,
)
    ensures
        container_merged(base, ours, theirs, three, answers) matches Some(d) ==> forall|k: int|
            0 <= k < lines(base).len() && trim(trim_end(#[trigger] lines(base)[k])).len() > 0
                ==> owed_copies(
                copies(base, trim_end(lines(base)[k])),
                copies(ours, trim_end(lines(base)[k])),
                copies(theirs, trim_end(lines(base)[k])),
            ) <= copies(d.text, trim_end(lines(base)[k])),
{
}


// ---------------------------------------------------------------------------
// What the finer merges are asked
// ---------------------------------------------------------------------------

/// What the finer merges are asked about one segment: what it is called, and the text
/// of each version that has it.
#[derive(Debug)]
pub struct Question {
    pub segment: String,
    pub base: Option<String>,
    pub ours: Option<String>,
    pub theirs: Option<String>,
}

/// A [`Question`] with its strings read as texts.
pub struct QuestionView {
    pub segment: Seq<char>,
    pub base: Option<Seq<char>>,
    pub ours: Option<Seq<char>>,
    pub theirs: Option<Seq<char>>,
}

impl View for Question {
    type V = QuestionView;

    open spec fn view(&self) -> QuestionView {
        QuestionView {
            segment: self.segment@,
            base: opt_view(self.base),
            ours: opt_view(self.ours),
            theirs: opt_view(self.theirs),
        }
    }
}

impl QuestionView {
    /// Every version has the segment, and no two of them say the same: only then does a
    /// merge of the three texts have a say.
    pub open spec fn contested(self) -> bool {
        &&& self.base is Some && self.ours is Some && self.theirs is Some
        &&& self.base != self.ours && self.base != self.theirs && self.ours != self.theirs
    }
}

impl Question {
    /// The three texts, where every version has the segment and no two say the same.
    pub fn contest(&self) -> (r: Option<(&str, &str, &str)>)
        ensures
            r is Some <==> self@.contested(),
            r matches Some(x) ==> self@.base == Some(x.0@) && self@.ours == Some(x.1@)
                && self@.theirs == Some(x.2@),
    {
        match (&self.base, &self.ours, &self.theirs) {
            (Some(b), Some(o), Some(t)) => {
                if str_eq(b.as_str(), o.as_str()) || str_eq(b.as_str(), t.as_str()) || str_eq(
                    o.as_str(),
                    t.as_str(),
                ) {
                    None
                } else {
                    Some((b.as_str(), o.as_str(), t.as_str()))
                }
            },
            _ => None,
        }
    }
}

impl Question {
    /// What the line merge in this process makes of a contested segment.
    pub fn line_merge(&self) -> (r: Option<String>)
        ensures
            opt_view(r) == if self@.contested() {
                line_merge_of(self@.base->0, self@.ours->0, self@.theirs->0)
            } else {
                None
            },
    {
        match self.contest() {
            Some((b, o, t)) => merge_lines(b, o, t),
            None => None,
        }
    }
}

impl Question {
    /// The answer with the line merge in this process filled in, and all other merges
    /// refusing.
    pub fn leaf(&self) -> (r: Leaf)
        ensures
            r@ == (LeafView {
                diff3: if self@.contested() {
                    line_merge_of(self@.base->0, self@.ours->0, self@.theirs->0)
                } else {
                    None
                },
                line: None,
                decorated: None,
                statement: None,
                evidence: Seq::empty(),
                marker: Seq::empty(),
            }),
    {
        let leaf = Leaf {
            diff3: self.line_merge(),
            line: None,
            decorated: None,
            statement: None,
            evidence: Vec::new(),
            marker: String::new(),
        };
        proof {
            assert(gap_views(leaf.evidence@) =~= Seq::empty());
            assert(leaf.marker@ =~= Seq::<char>::empty());
        }
        leaf
    }
}

/// What the finer merges are asked about a container: one question for each part of
/// its frame, and two for each member in the order of the merge.
#[derive(Debug)]
pub struct Questions {
    pub declaration: Question,
    pub attributes: Question,
    pub leads: Vec<Question>,
    pub bodies: Vec<Question>,
    pub trailing: Question,
    pub closing: Question,
}

/// A question about a part that every version has.
pub open spec fn whole_question(
    segment: Seq<char>,
    base: Seq<char>,
    ours: Seq<char>,
    theirs: Seq<char>,
) -> QuestionView {
    QuestionView { segment, base: Some(base), ours: Some(ours), theirs: Some(theirs) }
}

/// The lead of a member, where there is one.
pub open spec fn lead_of(m: Option<MemberView>) -> Option<Seq<char>> {
    match m {
        Some(x) => Some(x.lead),
        None => None,
    }
}

/// The text of a member, where there is one.
pub open spec fn body_text(m: Option<MemberView>) -> Option<Seq<char>> {
    match m {
        Some(x) => Some(x.text),
        None => None,
    }
}

impl Three {
    /// What is asked about the gap that leads a member. Where base does not have the
    /// member, our lead stands for its base.
    pub open spec fn lead_question(self, key: KeyText) -> QuestionView {
        let b = lead_of(member_of(self.base, key));
        let o = lead_of(member_of(self.ours, key));
        QuestionView {
            segment: "before "@ + key.0,
            base: if b is Some {
                b
            } else {
                o
            },
            ours: o,
            theirs: lead_of(member_of(self.theirs, key)),
        }
    }

    /// What is asked about a member's own text.
    pub open spec fn body_question(self, key: KeyText) -> QuestionView {
        QuestionView {
            segment: key.0,
            base: body_text(member_of(self.base, key)),
            ours: body_text(member_of(self.ours, key)),
            theirs: body_text(member_of(self.theirs, key)),
        }
    }
}

fn ask_whole(segment: &str, base: &String, ours: &String, theirs: &String) -> (r: Question)
    ensures
        r@ == whole_question(segment@, base@, ours@, theirs@),
{
    Question {
        segment: segment.to_owned(),
        base: Some(base.clone()),
        ours: Some(ours.clone()),
        theirs: Some(theirs.clone()),
    }
}

fn copy_lead(m: Option<&Member>) -> (r: Option<String>)
    ensures
        opt_view(r) == lead_of(opt_member(m)),
{
    match m {
        Some(x) => Some(x.lead.clone()),
        None => None,
    }
}

fn copy_body(m: Option<&Member>) -> (r: Option<String>)
    ensures
        opt_view(r) == body_text(opt_member(m)),
{
    match m {
        Some(x) => Some(x.text.clone()),
        None => None,
    }
}

/// What the finer merges are asked about a container in three versions. The leads and
/// the bodies stand in the order of [`member_order`], as the answers to them do.
pub fn asked(b: &Decomposed, o: &Decomposed, t: &Decomposed) -> (r: Questions)
    ensures
        r.declaration@ == whole_question("declaration"@, b@.header, o@.header, t@.header),
        r.attributes@ == whole_question("attributes"@, b@.prelude, o@.prelude, t@.prelude),
        r.trailing@ == whole_question("trailing members"@, b@.tail, o@.tail, t@.tail),
        r.closing@ == whole_question("closing"@, b@.footer, o@.footer, t@.footer),
        ({
            let three = Three { base: b@, ours: o@, theirs: t@ };
            &&& views(r.leads@) == three.order().map_values(|k: KeyText| three.lead_question(k))
            &&& views(r.bodies@) == three.order().map_values(|k: KeyText| three.body_question(k))
        }),
{
    let ghost three = Three { base: b@, ours: o@, theirs: t@ };
    let order = member_order(&b.keys(), &o.keys(), &t.keys());
    let mut leads: Vec<Question> = Vec::new();
    let mut bodies: Vec<Question> = Vec::new();
    let mut i: usize = 0;
    while i < order.len()
        invariant
            i <= order@.len(),
            three == (Three { base: b@, ours: o@, theirs: t@ }),
            views(order@) == three.order(),
            leads@.len() == i,
            bodies@.len() == i,
            forall|k: int|
                0 <= k < i ==> (#[trigger] leads@[k])@ == three.lead_question(three.order()[k]),
            forall|k: int|
                0 <= k < i ==> (#[trigger] bodies@[k])@ == three.body_question(three.order()[k]),
        decreases order@.len() - i,
    {
        let key = &order[i];
        proof {
            assert(views(order@)[i as int] == key@);
        }
        let mb = find_member(b, key);
        let mo = find_member(o, key);
        let mt = find_member(t, key);
        let mut segment: Vec<char> = Vec::new();
        push_text(&mut segment, "before ");
        push_text(&mut segment, key.0.as_str());
        proof {
            assert(segment@ =~= "before "@ + key.0@);
        }
        let base = if mb.is_some() {
            copy_lead(mb)
        } else {
            copy_lead(mo)
        };
        leads.push(
            Question {
                segment: string_of(segment.as_slice()),
                base,
                ours: copy_lead(mo),
                theirs: copy_lead(mt),
            },
        );
        bodies.push(
            Question {
                segment: key.0.clone(),
                base: copy_body(mb),
                ours: copy_body(mo),
                theirs: copy_body(mt),
            },
        );
        i = i + 1;
    }
    proof {
        assert(views(leads@) =~= three.order().map_values(|k: KeyText| three.lead_question(k)));
        assert(views(bodies@) =~= three.order().map_values(|k: KeyText| three.body_question(k)));
    }
    Questions {
        declaration: ask_whole("declaration", &b.header, &o.header, &t.header),
        attributes: ask_whole("attributes", &b.prelude, &o.prelude, &t.prelude),
        leads,
        bodies,
        trailing: ask_whole("trailing members", &b.tail, &o.tail, &t.tail),
        closing: ask_whole("closing", &b.footer, &o.footer, &t.footer),
    }
}

/// Only a contested question is merged by what the finer merges answer: the text of a
/// part that every version has does not depend on the answer unless no two versions
/// say the same.
pub proof fn only_a_contest_needs_an_answer(q: QuestionView, x: LeafView, y: LeafView, member: bool)
    requires
        q.base is Some,
        q.ours is Some,
        q.theirs is Some,
        !q.contested(),
    ensures
        settled(q.base->0, q.ours->0, q.theirs->0, x, member) == settled(
            q.base->0,
            q.ours->0,
            q.theirs->0,
            y,
            member,
        ),
{
}


// ---------------------------------------------------------------------------
// What becomes of every part of a container
// ---------------------------------------------------------------------------

/// What the finer merges offer for a text that no two versions agree on, best first.
pub open spec fn offers(leaf: LeafView, member: bool) -> Seq<Seq<char>> {
    let decorated = if member {
        leaf.decorated
    } else {
        None
    };
    let lines = seq![leaf.diff3, leaf.line, decorated];
    let last = match leaf.statement {
        Some(s) => if s.has_conflicts {
            None
        } else {
            Some(s.content)
        },
        None => None,
    };
    lines.push(last).filter(|x: Option<Seq<char>>| x is Some).map_values(
        |x: Option<Seq<char>>| x->0,
    )
}

/// Does the outcome take a version as it stands, where there is one, and nothing where
/// there is none?
pub open spec fn takes_version(out: Option<Outcome>, version: Option<Seq<char>>) -> bool {
    match version {
        Some(text) => out matches Some(x) && x.text == text && !x.conflicted && x.evidence.len()
            == 0,
        None => out is None,
    }
}

/// Is the outcome the three-way merge of the versions, `None` where a version does not
/// have the part? What both sides say is taken, what only one side changed is taken from
/// it, be it a text or that the part is gone, and where all three differ nothing is lost:
/// a finer merge of three texts answers, or the part is a conflict.
pub open spec fn merges_three(
    b: Option<Seq<char>>,
    o: Option<Seq<char>>,
    t: Option<Seq<char>>,
    out: Option<Outcome>,
    leaf: LeafView,
    member: bool,
) -> bool {
    &&& o == t ==> takes_version(out, o)
    &&& b == o ==> takes_version(out, t)
    &&& b == t ==> takes_version(out, o)
    &&& b != o && b != t && o != t ==> (out matches Some(x) && {
        let all_there = b is Some && o is Some && t is Some;
        let offered = offers(leaf, member);
        &&& x.conflicted <==> !(all_there && offered.len() > 0)
        &&& x.text == if x.conflicted {
            leaf.marker
        } else {
            offered[0]
        }
        &&& x.evidence == if all_there && leaf.diff3 is None && leaf.line is None && (member
            ==> leaf.decorated is None) {
            leaf.evidence
        } else {
            Seq::empty()
        }
    })
}

/// What became of one member: of the gap that leads it and of its own text, which is not
/// there where the member is not emitted.
pub struct Part {
    pub lead: Outcome,
    pub body: Option<Outcome>,
}

/// The text that a member is written as: its lead and its own text, which ends its line.
pub open spec fn part_text(p: Part) -> Seq<char> {
    match p.body {
        Some(x) => p.lead.text + x.text + if x.text.len() > 0 && x.text.last() == '\n' {
            Seq::empty()
        } else {
            seq!['\n']
        },
        None => Seq::empty(),
    }
}

/// The texts of the first `n` members.
pub open spec fn part_texts(ps: Seq<Part>, n: int) -> Seq<char>
    decreases n,
{
    if n <= 0 {
        Seq::empty()
    } else {
        part_texts(ps, n - 1) + part_text(ps[n - 1])
    }
}

/// What the first `n` members were put together on.
pub open spec fn part_evidence(ps: Seq<Part>, n: int) -> Seq<GapView>
    decreases n,
{
    if n <= 0 {
        Seq::empty()
    } else {
        part_evidence(ps, n - 1) + ps[n - 1].lead.evidence + match ps[n - 1].body {
            Some(x) => x.evidence,
            None => Seq::empty(),
        }
    }
}

/// Is the member, or the gap that leads it, a conflict?
pub open spec fn part_conflicts(p: Part) -> bool {
    p.lead.conflicted || (p.body matches Some(x) && x.conflicted)
}

/// Is the lead the merge of the leads of the versions that have the member? Where base
/// does not have it, our lead stands for base's.
pub open spec fn merges_leads(
    b: Option<MemberView>,
    o: Option<MemberView>,
    t: Option<MemberView>,
    out: Outcome,
    leaf: LeafView,
) -> bool {
    let base = if b is Some {
        lead_of(b)
    } else {
        lead_of(o)
    };
    &&& o is Some && t is Some ==> merges_three(
        base,
        lead_of(o),
        lead_of(t),
        Some(out),
        leaf,
        false,
    )
    &&& o is Some && t is None ==> takes_version(Some(out), lead_of(o))
    &&& o is None && t is Some ==> takes_version(Some(out), lead_of(t))
}

proof fn the_first_offer_is_taken(
    b: Seq<char>,
    o: Seq<char>,
    t: Seq<char>,
    leaf: LeafView,
    member: bool,
)
    ensures
        merges_three(
            Some(b),
            Some(o),
            Some(t),
            Some(settled(b, o, t, leaf, member)),
            leaf,
            member,
        ),
{
    let is_some = |x: Option<Seq<char>>| x is Some;
    let decorated: Option<Seq<char>> = if member {
        leaf.decorated
    } else {
        None
    };
    let last: Option<Seq<char>> = match leaf.statement {
        Some(s) => if s.has_conflicts {
            None
        } else {
            Some(s.content)
        },
        None => None,
    };
    let e = Seq::<Option<Seq<char>>>::empty();
    let s1 = e.push(leaf.diff3);
    let s2 = s1.push(leaf.line);
    let s3 = s2.push(decorated);
    let s4 = s3.push(last);
    assert(seq![leaf.diff3, leaf.line, decorated] =~= s3);
    reveal(Seq::filter);
    assert(e.filter(is_some) =~= e);
    assert(s1.drop_last() =~= e && s2.drop_last() =~= s1);
    assert(s3.drop_last() =~= s2 && s4.drop_last() =~= s3);
    let f1 = s1.filter(is_some);
    let f2 = s2.filter(is_some);
    let f3 = s3.filter(is_some);
    let f4 = s4.filter(is_some);
    assert(f1 == if leaf.diff3 is Some { e.push(leaf.diff3) } else { e });
    assert(f2 == if leaf.line is Some { f1.push(leaf.line) } else { f1 });
    assert(f3 == if decorated is Some { f2.push(decorated) } else { f2 });
    assert(f4 == if last is Some { f3.push(last) } else { f3 });
}

impl Three {
    /// What becomes of the `n`th member of the order.
    spec fn part(self, answers: Answers, n: int) -> Part {
        let key = self.order()[n];
        let b = member_of(self.base, key);
        let o = member_of(self.ours, key);
        let t = member_of(self.theirs, key);
        Part {
            lead: settled_lead(b, o, t, answers.leads@[n]@),
            body: settled_body(b, o, t, answers.bodies@[n]@),
        }
    }

    spec fn parts(self, answers: Answers) -> Seq<Part> {
        Seq::new(self.order().len(), |n: int| self.part(answers, n))
    }
}

proof fn members_are_parts(three: Three, head: Draft, answers: Answers, n: int)
    requires
        0 <= n <= three.order().len(),
    ensures
        three.members_upto(head, answers, n).text == head.text + part_texts(
            three.parts(answers),
            n,
        ),
        three.members_upto(head, answers, n).evidence == head.evidence + part_evidence(
            three.parts(answers),
            n,
        ),
        three.members_upto(head, answers, n).conflicted <==> head.conflicted || exists|k: int|
            0 <= k < n && part_conflicts(#[trigger] three.parts(answers)[k]),
    decreases n,
{
    let ps = three.parts(answers);
    if n > 0 {
        members_are_parts(three, head, answers, n - 1);
        let was = three.members_upto(head, answers, n - 1);
        let now = three.members_upto(head, answers, n);
        let p = ps[n - 1];
        assert(p == three.part(answers, n - 1));
        assert(now.text =~= head.text + part_texts(ps, n));
        assert(now.evidence =~= head.evidence + part_evidence(ps, n));
        assert(now.conflicted <==> was.conflicted || part_conflicts(p));
        if was.conflicted && !head.conflicted {
            let k = choose|k: int| 0 <= k < n - 1 && part_conflicts(#[trigger] ps[k]);
            assert(part_conflicts(ps[k]));
        }
        if part_conflicts(p) {
            assert(part_conflicts(ps[n - 1]));
        }
    } else {
        assert(head.text + part_texts(ps, 0) =~= head.text);
        assert(head.evidence + part_evidence(ps, 0) =~= head.evidence);
    }
}

impl Three {
    /// What became of the declaration, the attributes, what trails the members and the
    /// closing.
    spec fn frame(self, answers: Answers) -> Seq<Outcome> {
        let (b, o, t) = (self.base, self.ours, self.theirs);
        seq![
            settled(b.header, o.header, t.header, answers.declaration@, false),
            settled(b.prelude, o.prelude, t.prelude, answers.attributes@, false),
            settled(b.tail, o.tail, t.tail, answers.trailing@, false),
            settled(b.footer, o.footer, t.footer, answers.closing@, false),
        ]
    }
}

proof fn a_part_merges_a_member(three: Three, answers: Answers, k: int)
    requires
        0 <= k < three.order().len(),
    ensures
        ({
            let key = three.order()[k];
            let part = three.parts(answers)[k];
            &&& merges_three(
                body_text(member_of(three.base, key)),
                body_text(member_of(three.ours, key)),
                body_text(member_of(three.theirs, key)),
                part.body,
                answers.bodies@[k]@,
                true,
            )
            &&& merges_leads(
                member_of(three.base, key),
                member_of(three.ours, key),
                member_of(three.theirs, key),
                part.lead,
                answers.leads@[k]@,
            )
        }),
{
    let key = three.order()[k];
    let mb = member_of(three.base, key);
    let mo = member_of(three.ours, key);
    let mt = member_of(three.theirs, key);
    assert(three.parts(answers)[k] == three.part(answers, k));
    if mo is Some && mt is Some {
        let lb = if mb is Some {
            mb->0.lead
        } else {
            mo->0.lead
        };
        the_first_offer_is_taken(lb, mo->0.lead, mt->0.lead, answers.leads@[k]@, false);
        if mb is Some {
            the_first_offer_is_taken(
                mb->0.text,
                mo->0.text,
                mt->0.text,
                answers.bodies@[k]@,
                true,
            );
        }
    }
}

#[verifier::spinoff_prover]
#[verifier::rlimit(60)]
proof fn a_draft_is_its_parts(three: Three, answers: Answers)
    ensures
        ({
            let d = three.draft(answers);
            let frame = three.frame(answers);
            let parts = three.parts(answers);
            let n = parts.len() as int;
            &&& d.text == frame[0].text + frame[1].text + part_texts(parts, n) + frame[2].text
                + frame[3].text
            &&& d.evidence == frame[0].evidence + frame[1].evidence + part_evidence(parts, n)
                + frame[2].evidence + frame[3].evidence
            &&& d.conflicted <==> (exists|k: int| 0 <= k < 4 && (#[trigger] frame[k]).conflicted)
                || (exists|k: int| 0 <= k < n && part_conflicts(#[trigger] parts[k]))
        }),
{
    let frame = three.frame(answers);
    let parts = three.parts(answers);
    let n = parts.len() as int;
    let none = Draft { text: Seq::empty(), conflicted: false, evidence: Seq::empty() };
    let head = none.with(frame[0]).with(frame[1]);
    members_are_parts(three, head, answers, n);
    let d = three.draft(answers);
    let mid = three.members_upto(head, answers, n);
    assert(d == mid.with(frame[2]).with(frame[3]));
    assert(d.text =~= frame[0].text + frame[1].text + part_texts(parts, n) + frame[2].text
        + frame[3].text);
    assert(d.evidence =~= frame[0].evidence + frame[1].evidence + part_evidence(parts, n)
        + frame[2].evidence + frame[3].evidence);
    if exists|k: int| 0 <= k < 4 && (#[trigger] frame[k]).conflicted {
        let k = choose|k: int| 0 <= k < 4 && (#[trigger] frame[k]).conflicted;
        assert(k == 0 || k == 1 || k == 2 || k == 3);
    }
    if d.conflicted {
        assert(frame[0].conflicted || frame[1].conflicted || frame[2].conflicted
            || frame[3].conflicted || exists|k: int|
            0 <= k < n && part_conflicts(#[trigger] parts[k]));
    }
}

/// A container merge is made of the merges of its parts. `frame` is what became of the
/// declaration, the attributes, what trails the members and the closing; `parts` is what
/// became of each member of either side, in the order of the merge. Each is a three-way
/// merge of what the versions say; the text is theirs put together, without the line
/// feeds behind where ours ends in none; and the merge is conflicted exactly where one of
/// them is.
#[verifier::spinoff_prover]
#[verifier::rlimit(60)]
pub proof fn a_container_merge_merges_every_part(
    base: Seq<char>,
    ours: Seq<char>,
    theirs: Seq<char>,
    three: Three,
    answers: Answers,
) -> (r: (Seq<Outcome>, Seq<Part>))
    requires
        answers.leads@.len() == three.order().len(),
        answers.bodies@.len() == three.order().len(),
    ensures
        ({
            let (frame, parts) = r;
            let (b, o, t) = (three.base, three.ours, three.theirs);
            let whole = frame[0].text + frame[1].text + part_texts(parts, parts.len() as int)
                + frame[2].text + frame[3].text;
            &&& frame.len() == 4
            &&& merges_three(
                Some(b.header),
                Some(o.header),
                Some(t.header),
                Some(frame[0]),
                answers.declaration@,
                false,
            )
            &&& merges_three(
                Some(b.prelude),
                Some(o.prelude),
                Some(t.prelude),
                Some(frame[1]),
                answers.attributes@,
                false,
            )
            &&& merges_three(
                Some(b.tail),
                Some(o.tail),
                Some(t.tail),
                Some(frame[2]),
                answers.trailing@,
                false,
            )
            &&& merges_three(
                Some(b.footer),
                Some(o.footer),
                Some(t.footer),
                Some(frame[3]),
                answers.closing@,
                false,
            )
            &&& parts.len() == three.order().len()
            &&& forall|n: int|
                0 <= n < parts.len() ==> {
                    let key = #[trigger] three.order()[n];
                    &&& merges_three(
                        body_text(member_of(b, key)),
                        body_text(member_of(o, key)),
                        body_text(member_of(t, key)),
                        parts[n].body,
                        answers.bodies@[n]@,
                        true,
                    )
                    &&& merges_leads(
                        member_of(b, key),
                        member_of(o, key),
                        member_of(t, key),
                        parts[n].lead,
                        answers.leads@[n]@,
                    )
                }
            &&& container_merged(base, ours, theirs, three, answers) is None ==> exists|k: int|
                0 <= k < lines(base).len() && {
                    let line = trim_end(#[trigger] lines(base)[k]);
                    let text = if ours.len() > 0 && ours.last() == '\n' {
                        whole
                    } else {
                        without_feeds(whole)
                    };
                    &&& trim(line).len() > 0
                    &&& owed_copies(copies(base, line), copies(ours, line), copies(theirs, line))
                        > copies(text, line)
                }
            &&& container_merged(base, ours, theirs, three, answers) matches Some(d) ==> {
                &&& d.text == if ours.len() > 0 && ours.last() == '\n' {
                    whole
                } else {
                    without_feeds(whole)
                }
                &&& d.conflicted <==> (exists|k: int| 0 <= k < 4 && (#[trigger] frame[k]).conflicted)
                    || (exists|n: int| 0 <= n < parts.len() && part_conflicts(#[trigger] parts[n]))
                &&& d.evidence == frame[0].evidence + frame[1].evidence + part_evidence(
                    parts,
                    parts.len() as int,
                ) + frame[2].evidence + frame[3].evidence
            }
        }),
{
    let (b, o, t) = (three.base, three.ours, three.theirs);
    let frame = three.frame(answers);
    the_first_offer_is_taken(b.header, o.header, t.header, answers.declaration@, false);
    the_first_offer_is_taken(b.prelude, o.prelude, t.prelude, answers.attributes@, false);
    the_first_offer_is_taken(b.tail, o.tail, t.tail, answers.trailing@, false);
    the_first_offer_is_taken(b.footer, o.footer, t.footer, answers.closing@, false);
    let parts = three.parts(answers);
    assert forall|k: int| 0 <= k < parts.len() implies {
        let key = #[trigger] three.order()[k];
        &&& merges_three(
            body_text(member_of(b, key)),
            body_text(member_of(o, key)),
            body_text(member_of(t, key)),
            parts[k].body,
            answers.bodies@[k]@,
            true,
        )
        &&& merges_leads(
            member_of(b, key),
            member_of(o, key),
            member_of(t, key),
            parts[k].lead,
            answers.leads@[k]@,
        )
    } by {
        a_part_merges_a_member(three, answers, k);
    }
    a_draft_is_its_parts(three, answers);
    (frame, parts)
}

proof fn a_part_stands_in_the_whole(ps: Seq<Part>, n: int, k: int)
    requires
        0 <= k < n <= ps.len(),
        ps[k].body is Some,
    ensures
        contains(part_texts(ps, n), (ps[k].body->0).text),
    decreases n,
{
    let x = (ps[k].body->0).text;
    let all = part_texts(ps, n);
    if k == n - 1 {
        let i: int = part_texts(ps, n - 1).len() + ps[k].lead.text.len() as int;
        assert(all.subrange(i, i + x.len()) =~= x);
        assert(crate::text::at(all, x, i));
    } else {
        a_part_stands_in_the_whole(ps, n - 1, k);
        let front = part_texts(ps, n - 1);
        let i = choose|i: int| crate::text::at(front, x, i);
        assert(all.subrange(i, i + x.len()) =~= front.subrange(i, i + x.len()));
        assert(crate::text::at(all, x, i));
    }
}

proof fn feeds_are_all_that_goes(s: Seq<char>)
    ensures
        without_feeds(s).len() <= s.len(),
        without_feeds(s) == s.take(without_feeds(s).len() as int),
        forall|k: int| without_feeds(s).len() <= k < s.len() ==> s[k] == '\n',
        without_feeds(s).len() > 0 ==> without_feeds(s).last() != '\n',
    decreases s.len(),
{
    if s.len() > 0 && s.last() == '\n' {
        let t = s.drop_last();
        feeds_are_all_that_goes(t);
        assert(without_feeds(s) =~= s.take(without_feeds(s).len() as int));
        assert forall|k: int| without_feeds(s).len() <= k < s.len() implies s[k] == '\n' by {
            if k < t.len() {
                assert(t[k] == '\n');
            }
        }
    } else {
        assert(s.take(s.len() as int) =~= s);
    }
}

proof fn a_text_stands_without_its_feeds(s: Seq<char>, x: Seq<char>)
    requires
        contains(s, x),
    ensures
        contains(s, without_feeds(x)),
        contains(without_feeds(s), without_feeds(x)),
{
    let i = choose|i: int| crate::text::at(s, x, i);
    feeds_are_all_that_goes(s);
    feeds_are_all_that_goes(x);
    let y = without_feeds(x);
    let w = without_feeds(s);
    assert(s.subrange(i, i + x.len()) == x);
    assert(s.subrange(i, i + y.len()) =~= y) by {
        assert forall|k: int| 0 <= k < y.len() implies s[i + k] == y[k] by {
            assert(s.subrange(i, i + x.len())[k] == x[k]);
        }
    }
    assert(crate::text::at(s, y, i));
    if y.len() > 0 {
        assert(s[i + y.len() - 1] == y.last());
        assert(i + y.len() <= w.len());
        assert(w.subrange(i, i + y.len()) =~= y);
        assert(crate::text::at(w, y, i));
    } else {
        assert(w.subrange(0, 0) =~= y);
        assert(crate::text::at(w, y, 0));
    }
}

/// No side's version of a member is lost. A member that both sides added, and not the
/// same, or that one side changed and the other deleted, makes the merge conflicted and
/// stands in it as its conflict. Otherwise what only one side added or changed, and what
/// both sides say, stands in the merge, line feeds behind it aside; and a merge that is
/// not conflicted holds of a member that all three versions say differently what the
/// first finer merge made of the three.
#[verifier::spinoff_prover]
#[verifier::rlimit(60)]
pub proof fn a_container_merge_loses_no_member(
    base: Seq<char>,
    ours: Seq<char>,
    theirs: Seq<char>,
    three: Three,
    answers: Answers,
    n: int,
)
    requires
        answers.leads@.len() == three.order().len(),
        answers.bodies@.len() == three.order().len(),
        0 <= n < three.order().len(),
        container_merged(base, ours, theirs, three, answers) is Some,
    ensures
        ({
            let d = container_merged(base, ours, theirs, three, answers)->0;
            let key = three.order()[n];
            let b = body_text(member_of(three.base, key));
            let o = body_text(member_of(three.ours, key));
            let t = body_text(member_of(three.theirs, key));
            let leaf = answers.bodies@[n]@;
            &&& b != o && b != t && o != t && (b is None || o is None || t is None) ==> d.conflicted
                && contains(d.text, without_feeds(leaf.marker))
            &&& o is Some && o == t ==> contains(d.text, without_feeds(o->0))
            &&& o is Some && b == t ==> contains(d.text, without_feeds(o->0))
            &&& t is Some && b == o ==> contains(d.text, without_feeds(t->0))
            &&& b is Some && o is Some && t is Some && b != o && b != t && o != t
                && !d.conflicted ==> offers(leaf, true).len() > 0 && contains(
                d.text,
                without_feeds(offers(leaf, true)[0]),
            )
        }),
{
    let (frame, parts) = a_container_merge_merges_every_part(base, ours, theirs, three, answers);
    let key = three.order()[n];
    let total = parts.len() as int;
    let whole = frame[0].text + frame[1].text + part_texts(parts, total) + frame[2].text
        + frame[3].text;
    if parts[n].body is Some {
        let x = (parts[n].body->0).text;
        a_part_stands_in_the_whole(parts, total, n);
        let mid = part_texts(parts, total);
        let i = choose|i: int| crate::text::at(mid, x, i);
        let j = frame[0].text.len() + frame[1].text.len() + i;
        assert(whole.subrange(j, j + x.len()) =~= mid.subrange(i, i + x.len()));
        assert(crate::text::at(whole, x, j));
        a_text_stands_without_its_feeds(whole, x);
        if (parts[n].body->0).conflicted {
            assert(part_conflicts(parts[n]));
        }
    }
}

} // verus!
