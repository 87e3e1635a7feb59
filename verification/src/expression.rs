//! The expression merge: when both sides edited the same statement, the statement
//! is tiled into tokens, the two sides' token edits are aligned against base, and a
//! composition is made only when the two edits are separated.
//!
//! Four refusals guard the ways in which whole tokens, put together, could say
//! something that neither side wrote. A literal or a comment is one token. An edit
//! that lands on a line of prose is refused. Every edit must be anchored to a base
//! token that the other side left standing. And two edits inside one bracket group
//! may each rewrite an item, but neither may add or drop one.

use vstd::prelude::*;
use vstd::slice::slice_subrange;
use crate::binding::{is_trivia_line, trivia_line};
use crate::text::{
    chars_of, concat, contains, find_char, find_char_from, lines, push_all, same, same_str,
    split_lines, string_of, strs, texts, texts_have, trim, trim_end, trimmed, trimmed_end,
};
use crate::token::{
    aligns, hunk_fits, hunk_views, hunks, hunks_are_apart, hunks_of, key_views, keys, keys_of,
    lcs_pairs, pair_views, pairs, tiles, tok_text, tok_views, tokenize, toks, Hunk, HunkView, Kind,
    Tok, TokView, MAX_TOKENS,
};

verus! {

broadcast use vstd::string::group_string_axioms;

// ---------------------------------------------------------------------------
// A text and its tokens
// ---------------------------------------------------------------------------

/// A text that the reader of tokens understands, with its tokens.
pub struct Reading {
    pub text: Vec<char>,
    pub toks: Vec<Tok>,
}

/// A [`Reading`] with its text and its tokens read as sequences.
pub struct ReadingView {
    pub text: Seq<char>,
    pub toks: Seq<TokView>,
}

impl View for Reading {
    type V = ReadingView;

    open spec fn view(&self) -> ReadingView {
        ReadingView { text: self.text@, toks: tok_views(self.toks@) }
    }
}

/// What a text reads as; `None` where the reader does not understand it.
pub open spec fn reading(s: Seq<char>) -> Option<ReadingView> {
    match toks(s) {
        Some(v) => Some(ReadingView { text: s, toks: v }),
        None => None,
    }
}

impl ReadingView {
    /// The tokens tile the text, and there are not too many of them.
    pub open spec fn wf(self) -> bool {
        tiles(self.text, self.toks, 0) && self.toks.len() <= MAX_TOKENS
    }

    /// Is the `k`th token an operator with this text?
    pub open spec fn is_op(self, k: int, op: Seq<char>) -> bool {
        self.toks[k].kind is Op && tok_text(self.text, self.toks[k]) == op
    }

    /// Does the `k`th token open a bracket?
    pub open spec fn opens(self, k: int) -> bool {
        self.is_op(k, "("@) || self.is_op(k, "["@) || self.is_op(k, "{"@)
    }

    /// Does the `k`th token close a bracket?
    pub open spec fn shuts(self, k: int) -> bool {
        self.is_op(k, ")"@) || self.is_op(k, "]"@) || self.is_op(k, "}"@)
    }

    /// The keys of the tokens.
    pub open spec fn keys(self) -> Seq<(Kind, Seq<char>)> {
        keys(self.text, self.toks)
    }

    /// Is the text that of one of the tokens?
    pub open spec fn says(self, token: Seq<char>) -> bool {
        exists|k: int| 0 <= k < self.toks.len() && tok_text(self.text, #[trigger] self.toks[k]) == token
    }

    /// The white space in front of the `k`th token.
    pub open spec fn gap(self, k: int) -> Seq<char> {
        self.text.subrange(self.toks[k].gap, self.toks[k].text)
    }

    /// The brackets that are open in front of the `k`th token, the innermost last.
    pub open spec fn open_groups(self, k: int) -> Seq<int>
        decreases k,
    {
        if k <= 0 {
            Seq::empty()
        } else {
            let before = self.open_groups(k - 1);
            if self.opens(k - 1) {
                before.push(k - 1)
            } else if self.shuts(k - 1) && before.len() > 0 {
                before.drop_last()
            } else {
                before
            }
        }
    }

    /// The innermost bracket group the `k`th token belongs to: the bracket that
    /// opens it. A closing bracket belongs to the group it closes.
    pub open spec fn group(self, k: int) -> Option<int> {
        let open = self.open_groups(k);
        if open.len() > 0 {
            Some(open.last())
        } else {
            None
        }
    }

    /// The commas from the `k`th token up to `hi` that stand at bracket depth zero,
    /// counting from the given depth.
    pub open spec fn commas(self, k: int, hi: int, depth: int) -> nat
        decreases hi - k,
    {
        if k >= hi {
            0
        } else if self.opens(k) {
            self.commas(k + 1, hi, depth + 1)
        } else if self.shuts(k) {
            self.commas(k + 1, hi, depth - 1)
        } else if self.is_op(k, ","@) && depth == 0 {
            self.commas(k + 1, hi, depth) + 1
        } else {
            self.commas(k + 1, hi, depth)
        }
    }

    /// How much deeper the brackets stand behind the first `k` tokens.
    pub open spec fn depth(self, k: int) -> int
        decreases k,
    {
        if k <= 0 {
            0
        } else if self.opens(k - 1) {
            self.depth(k - 1) + 1
        } else if self.shuts(k - 1) {
            self.depth(k - 1) - 1
        } else {
            self.depth(k - 1)
        }
    }

    /// How much deeper the brackets stand behind the text.
    pub open spec fn net_depth(self) -> int {
        self.depth(self.toks.len() as int)
    }

    /// Does the `k`th token stand on a line of trivia?
    pub open spec fn on_trivia(self, k: int) -> bool {
        trivia_line(line_around(self.text, self.toks[k].text))
    }

    /// Does any of the tokens from `lo` up to `hi` stand on a line of trivia? Where
    /// there is none, the token behind the place decides, or the last one; a text
    /// without tokens is all trivia.
    pub open spec fn touches_trivia(self, lo: int, hi: int) -> bool {
        let n = self.toks.len() as int;
        if n == 0 {
            true
        } else if lo < hi {
            exists|k: int| lo <= k < hi && #[trigger] self.on_trivia(k)
        } else if lo < n {
            self.on_trivia(lo)
        } else {
            self.on_trivia(n - 1)
        }
    }
}

/// Where the line that holds the place starts.
pub open spec fn line_start(s: Seq<char>, p: int) -> int
    decreases p,
{
    if p <= 0 {
        0
    } else if s[p - 1] == '\n' {
        p
    } else {
        line_start(s, p - 1)
    }
}

/// The line that holds the place.
pub open spec fn line_around(s: Seq<char>, p: int) -> Seq<char> {
    s.subrange(line_start(s, p), find_char(s, '\n', p))
}

fn line_holding(s: &[char], p: usize) -> (r: &[char])
    requires
        p <= s@.len(),
    ensures
        r@ == line_around(s@, p as int),
{
    let mut a: usize = p;
    while a > 0 && s[a - 1] != '\n'
        invariant
            a <= p <= s@.len(),
            line_start(s@, a as int) == line_start(s@, p as int),
        decreases a,
    {
        a = a - 1;
    }
    let e: usize = find_char_from(s, '\n', p);
    slice_subrange(s, a, e)
}

/// The view of an optional reading.
pub open spec fn opt_reading(r: Option<Reading>) -> Option<ReadingView> {
    match r {
        Some(x) => Some(x@),
        None => None,
    }
}

impl Reading {
    /// Read a text into tokens.
    pub fn of(s: &[char]) -> (r: Option<Reading>)
        ensures
            opt_reading(r) == reading(s@),
            r matches Some(x) ==> x@.wf(),
    {
        match tokenize(s) {
            Some(v) => Some(Reading { text: crate::text::copy_of(s), toks: v }),
            None => None,
        }
    }

    fn tok(&self, k: usize) -> (r: &[char])
        requires
            self@.wf(),
            k < self.toks@.len(),
        ensures
            r@ == tok_text(self@.text, self@.toks[k as int]),
    {
        let t = self.toks[k];
        proof {
            assert(self@.toks[k as int] == t@);
        }
        slice_subrange(self.text.as_slice(), t.text, t.end)
    }

    fn is_op(&self, k: usize, op: &str) -> (r: bool)
        requires
            self@.wf(),
            k < self.toks@.len(),
        ensures
            r == self@.is_op(k as int, op@),
    {
        proof {
            assert(self@.toks[k as int] == self.toks@[k as int]@);
        }
        self.toks[k].kind == Kind::Op && same_str(self.tok(k), op)
    }

    fn opens(&self, k: usize) -> (r: bool)
        requires
            self@.wf(),
            k < self.toks@.len(),
        ensures
            r == self@.opens(k as int),
    {
        self.is_op(k, "(") || self.is_op(k, "[") || self.is_op(k, "{")
    }

    fn shuts(&self, k: usize) -> (r: bool)
        requires
            self@.wf(),
            k < self.toks@.len(),
        ensures
            r == self@.shuts(k as int),
    {
        self.is_op(k, ")") || self.is_op(k, "]") || self.is_op(k, "}")
    }

    fn part(&self, a: usize, b: usize) -> (r: &[char])
        requires
            a <= b <= self.text@.len(),
        ensures
            r@ == self.text@.subrange(a as int, b as int),
    {
        slice_subrange(self.text.as_slice(), a, b)
    }

    fn gap(&self, k: usize) -> (r: &[char])
        requires
            self@.wf(),
            k < self.toks@.len(),
        ensures
            r@ == self@.gap(k as int),
    {
        let t = self.toks[k];
        proof {
            assert(self@.toks[k as int] == t@);
        }
        slice_subrange(self.text.as_slice(), t.gap, t.text)
    }

    /// The innermost bracket group each token belongs to.
    fn groups(&self) -> (r: Vec<Option<usize>>)
        requires
            self@.wf(),
        ensures
            r@.len() == self.toks@.len(),
            forall|k: int|
                0 <= k < r@.len() ==> match #[trigger] r@[k] {
                    Some(g) => self@.group(k) == Some(g as int),
                    None => self@.group(k) is None,
                },
    {
        let mut out: Vec<Option<usize>> = Vec::new();
        let mut stack: Vec<usize> = Vec::new();
        let mut k: usize = 0;
        proof {
            assert(stack@.map_values(|g: usize| g as int) =~= self@.open_groups(0));
        }
        while k < self.toks.len()
            invariant
                k <= self.toks@.len(),
                self@.wf(),
                out@.len() == k,
                stack@.map_values(|g: usize| g as int) == self@.open_groups(k as int),
                forall|m: int|
                    0 <= m < k ==> match #[trigger] out@[m] {
                        Some(g) => self@.group(m) == Some(g as int),
                        None => self@.group(m) is None,
                    },
            decreases self.toks@.len() - k,
        {
            let ghost open = self@.open_groups(k as int);
            let n: usize = stack.len();
            let inner: Option<usize> = if n > 0 {
                Some(stack[n - 1])
            } else {
                None
            };
            proof {
                assert(open.len() == n);
                if n > 0 {
                    assert(open[n - 1] == stack@[n - 1]);
                }
            }
            out.push(inner);
            let ghost held = stack@;
            if self.opens(k) {
                stack.push(k);
                proof {
                    assert(stack@.map_values(|g: usize| g as int) =~= open.push(k as int));
                }
            } else if self.shuts(k) {
                stack.pop();
                proof {
                    if n > 0 {
                        assert(stack@.map_values(|g: usize| g as int) =~= open.drop_last());
                    } else {
                        assert(stack@.map_values(|g: usize| g as int) =~= open);
                    }
                }
            }
            proof {
                assert(self@.open_groups(k + 1) == stack@.map_values(|g: usize| g as int));
            }
            k = k + 1;
        }
        out
    }

    /// Commas at the hunk's own bracket level.
    fn top_level_commas(&self, lo: usize, hi: usize) -> (r: usize)
        requires
            self@.wf(),
            lo <= hi <= self.toks@.len(),
        ensures
            r == self@.commas(lo as int, hi as int, 0),
    {
        let mut depth: i32 = 0;
        let mut n: usize = 0;
        let mut k: usize = lo;
        while k < hi
            invariant
                self@.wf(),
                lo <= k <= hi <= self.toks@.len(),
                self.toks@.len() <= MAX_TOKENS,
                n <= k,
                -(k as int) <= depth <= k,
                n + self@.commas(k as int, hi as int, depth as int) == self@.commas(
                    lo as int,
                    hi as int,
                    0,
                ),
            decreases hi - k,
        {
            if self.opens(k) {
                depth = depth + 1;
            } else if self.shuts(k) {
                depth = depth - 1;
            } else if self.is_op(k, ",") && depth == 0 {
                n = n + 1;
            }
            k = k + 1;
        }
        n
    }

    /// Does any part of a hunk land on a line that is trivia: a comment, a
    /// continuation of one, an annotation?
    fn touches_trivia(&self, lo: usize, hi: usize) -> (r: bool)
        requires
            self@.wf(),
            lo <= hi <= self.toks@.len(),
        ensures
            r == self@.touches_trivia(lo as int, hi as int),
    {
        let n: usize = self.toks.len();
        if n == 0 {
            return true;
        }
        if lo < hi {
            let mut k: usize = lo;
            while k < hi
                invariant
                    self@.wf(),
                    lo <= k <= hi <= self.toks@.len(),
                    forall|m: int| lo <= m < k ==> !#[trigger] self@.on_trivia(m),
                decreases hi - k,
            {
                if self.on_trivia(k) {
                    return true;
                }
                k = k + 1;
            }
            false
        } else if lo < n {
            self.on_trivia(lo)
        } else {
            self.on_trivia(n - 1)
        }
    }

    fn on_trivia(&self, k: usize) -> (r: bool)
        requires
            self@.wf(),
            k < self.toks@.len(),
        ensures
            r == self@.on_trivia(k as int),
    {
        let t = self.toks[k];
        proof {
            assert(self@.toks[k as int] == t@);
        }
        is_trivia_line(line_holding(self.text.as_slice(), t.text))
    }

    /// Net bracket depth change: the arithmetic the composition has to conserve.
    fn net_depth(&self) -> (r: i32)
        requires
            self@.wf(),
        ensures
            r == self@.net_depth(),
            -256 <= r <= 256,
    {
        let mut d: i32 = 0;
        let mut k: usize = 0;
        while k < self.toks.len()
            invariant
                self@.wf(),
                k <= self.toks@.len() <= MAX_TOKENS,
                -(k as int) <= d <= k,
                d == self@.depth(k as int),
            decreases self.toks@.len() - k,
        {
            if self.opens(k) {
                d = d + 1;
            } else if self.shuts(k) {
                d = d - 1;
            }
            k = k + 1;
        }
        d
    }
}

// ---------------------------------------------------------------------------
// Guards
// ---------------------------------------------------------------------------

/// Does the hunk leave the place alone?
pub open spec fn anchored(p: int, h: HunkView) -> bool {
    p < h.b0 || p >= h.b1
}

/// Is each of the two edits anchored to something the other left standing? A
/// substitution is anchored to the tokens it owns, an insertion to the token it
/// stands in front of; two insertions at one place are not anchored at all.
pub open spec fn apart(o: HunkView, t: HunkView) -> bool {
    if o.b0 == o.b1 && t.b0 == t.b1 {
        o.b0 != t.b0
    } else if o.b0 == o.b1 {
        anchored(o.b0, t)
    } else if t.b0 == t.b1 {
        anchored(t.b0, o)
    } else {
        o.b1 <= t.b0 || t.b1 <= o.b0
    }
}

/// Two separated edits never claim one place of base, and being separated is no
/// matter of which side is which.
pub proof fn separated_edits_share_no_place(o: HunkView, t: HunkView)
    requires
        o.b0 <= o.b1,
        t.b0 <= t.b1,
        apart(o, t),
    ensures
        o.b0 != t.b0,
        forall|p: int| #[trigger] holds(o, p) ==> !holds(t, p),
        apart(t, o),
{
}

/// Is each edit anchored to something the other side left standing?
pub fn separated(o: &Hunk, t: &Hunk) -> (r: bool)
    ensures
        r == apart(o@, t@),
{
    let o_inserts = o.b0 == o.b1;
    let t_inserts = t.b0 == t.b1;
    if o_inserts && t_inserts {
        o.b0 != t.b0
    } else if o_inserts {
        o.b0 < t.b0 || o.b0 >= t.b1
    } else if t_inserts {
        t.b0 < o.b0 || t.b0 >= o.b1
    } else {
        o.b1 <= t.b0 || t.b1 <= o.b0
    }
}

/// One side of a fold: its reading, and where it is aligned with base.
pub struct SideView {
    pub reading: ReadingView,
    pub pairs: Seq<(int, int)>,
}

/// Two sides' edits to one statement.
pub struct Fold {
    pub base: ReadingView,
    pub ours: SideView,
    pub theirs: SideView,
}

impl SideView {
    /// The maximal runs where the side differs from base.
    pub open spec fn hunks(self, base: ReadingView) -> Seq<HunkView> {
        hunks_of(self.pairs, base.toks.len() as int, self.reading.toks.len() as int)
    }

    /// Both readings are well formed, and the pairs align them.
    pub open spec fn wf(self, base: ReadingView) -> bool {
        &&& self.reading.wf()
        &&& aligns(base.keys(), self.reading.keys(), self.pairs, 0, 0)
    }

    /// Does any of the side's edits land on a line of trivia?
    pub open spec fn edits_trivia(self, base: ReadingView) -> bool {
        exists|k: int|
            0 <= k < self.hunks(base).len() && trivial_edit(
                base,
                self.reading,
                #[trigger] self.hunks(base)[k],
            )
    }

    /// Does the edit change the number of items in the list it stands in?
    pub open spec fn changes_arity(self, base: ReadingView, h: HunkView) -> bool {
        base.commas(h.b0, h.b1, 0) != self.reading.commas(h.s0, h.s1, 0)
    }

    /// Outside its own edits, did this side leave base's white space alone? The gap
    /// directly behind an edit is part of it.
    pub open spec fn faithful(self, base: ReadingView) -> bool {
        forall|k: int|
            0 <= k < self.pairs.len() ==> #[trigger] ends_hunk(self.hunks(base), self.pairs[k].0)
                || base.gap(self.pairs[k].0) == self.reading.gap(self.pairs[k].1)
    }
}

/// Does the edit land on a line of trivia, on either side?
pub open spec fn trivial_edit(base: ReadingView, side: ReadingView, h: HunkView) -> bool {
    base.touches_trivia(h.b0, h.b1) || side.touches_trivia(h.s0, h.s1)
}

/// Does one of the hunks end in front of the place?
pub open spec fn ends_hunk(hs: Seq<HunkView>, p: int) -> bool {
    exists|k: int| 0 <= k < hs.len() && (#[trigger] hs[k]).b1 == p
}

/// The bracket group of base that the edit stands in.
pub open spec fn group_of(base: ReadingView, h: HunkView) -> Option<int> {
    let n = base.toks.len() as int;
    base.group(
        if h.b0 < h.b1 || h.b0 < n {
            h.b0
        } else {
            n - 1
        },
    )
}

impl Fold {
    /// Our edits.
    pub open spec fn oh(self) -> Seq<HunkView> {
        self.ours.hunks(self.base)
    }

    /// Their edits.
    pub open spec fn th(self) -> Seq<HunkView> {
        self.theirs.hunks(self.base)
    }

    /// The readings are well formed, and base has a token.
    pub open spec fn wf(self) -> bool {
        &&& self.base.wf()
        &&& self.base.toks.len() > 0
        &&& self.ours.wf(self.base)
        &&& self.theirs.wf(self.base)
    }

    /// May the two edits stand in one text? They are separated and, inside one
    /// bracket group, neither adds or drops an item.
    pub open spec fn compatible(self, o: HunkView, t: HunkView) -> bool {
        &&& apart(o, t)
        &&& group_of(self.base, o) != group_of(self.base, t) || !(self.ours.changes_arity(
            self.base,
            o,
        ) || self.theirs.changes_arity(self.base, t))
    }

    /// Every edit of ours is compatible with every edit of theirs.
    pub open spec fn all_compatible(self) -> bool {
        forall|i: int, j: int|
            0 <= i < self.oh().len() && 0 <= j < self.th().len() ==> self.compatible(
                #[trigger] self.oh()[i],
                #[trigger] self.th()[j],
            )
    }

    /// May the two sides' edits be composed at all?
    pub open spec fn admitted(self) -> bool {
        &&& self.oh().len() > 0
        &&& self.th().len() > 0
        &&& self.all_compatible()
        &&& !self.ours.edits_trivia(self.base)
        &&& !self.theirs.edits_trivia(self.base)
        &&& self.ours.faithful(self.base)
        &&& self.theirs.faithful(self.base)
    }
}

// ---------------------------------------------------------------------------
// The splice
// ---------------------------------------------------------------------------

/// The first of the hunks, at or after the `k`th, that starts at the place.
pub open spec fn hunk_at(hs: Seq<HunkView>, p: int, k: int) -> Option<HunkView>
    decreases hs.len() - k,
{
    if k < 0 || k >= hs.len() {
        None
    } else if hs[k].b0 == p {
        Some(hs[k])
    } else {
        hunk_at(hs, p, k + 1)
    }
}

/// Does one of the hunks replace or drop the token?
pub open spec fn consumes(hs: Seq<HunkView>, p: int) -> bool {
    exists|k: int| 0 <= k < hs.len() && #[trigger] holds(hs[k], p)
}

/// Does the hunk own the token?
pub open spec fn holds(h: HunkView, p: int) -> bool {
    h.b0 <= p < h.b1
}

/// What an edit puts in front of the `i`th base token, and the gap it leaves in
/// front of that token. Both seams of an insertion are the side's; a substitution
/// stands in base's own gap; a deletion puts nothing.
pub open spec fn put(
    base: ReadingView,
    side: ReadingView,
    h: HunkView,
    i: int,
) -> (Seq<Seq<char>>, Seq<char>) {
    let gap = base.gap(i);
    if h.s0 >= h.s1 {
        (Seq::empty(), gap)
    } else if h.b0 == h.b1 {
        (
            seq![side.text.subrange(side.toks[h.s0].gap, side.toks[h.s1 - 1].end)],
            side.text.subrange(side.toks[h.s1 - 1].end, side.toks[h.s1].text),
        )
    } else {
        (seq![gap, side.text.subrange(side.toks[h.s0].text, side.toks[h.s1 - 1].end)], gap)
    }
}

impl Fold {
    /// What stands in front of the `i`th base token in the composition, and the gap
    /// in front of it.
    pub open spec fn put_at(self, i: int) -> (Seq<Seq<char>>, Seq<char>) {
        match hunk_at(self.oh(), i, 0) {
            Some(h) => put(self.base, self.ours.reading, h, i),
            None => match hunk_at(self.th(), i, 0) {
                Some(h) => put(self.base, self.theirs.reading, h, i),
                None => (Seq::empty(), self.base.gap(i)),
            },
        }
    }

    /// The pieces at the `i`th base token: what an edit puts there, and the token
    /// itself with one gap, unless an edit consumed it.
    pub open spec fn pieces_at(self, i: int) -> Seq<Seq<char>> {
        let (pieces, gap) = self.put_at(i);
        if consumes(self.oh(), i) || consumes(self.th(), i) {
            pieces
        } else {
            pieces + seq![gap, tok_text(self.base.text, self.base.toks[i])]
        }
    }

    /// The pieces at the first `n` base tokens.
    pub open spec fn pieces_upto(self, n: int) -> Seq<Seq<char>>
        decreases n,
    {
        if n <= 0 {
            Seq::empty()
        } else {
            self.pieces_upto(n - 1) + self.pieces_at(n - 1)
        }
    }

    /// What is inserted behind the last base token, with its own lead.
    pub open spec fn tail_of(self, side: SideView) -> Option<Seq<Seq<char>>> {
        let r = side.reading;
        match hunk_at(side.hunks(self.base), self.base.toks.len() as int, 0) {
            Some(h) => Some(
                if h.s0 < h.s1 {
                    seq![r.text.subrange(r.toks[h.s0].gap, r.toks[h.s1 - 1].end)]
                } else {
                    Seq::empty()
                },
            ),
            None => None,
        }
    }

    /// What either side inserts behind the last base token.
    pub open spec fn tail(self) -> Seq<Seq<char>> {
        match self.tail_of(self.ours) {
            Some(p) => p,
            None => match self.tail_of(self.theirs) {
                Some(p) => p,
                None => Seq::empty(),
            },
        }
    }

    /// The pieces of the composition: one pass over base's tokens, then what is
    /// inserted behind them, then what stands behind base's last token.
    pub open spec fn pieces(self) -> Seq<Seq<char>> {
        (self.pieces_upto(self.base.toks.len() as int) + self.tail()).push(
            self.base.text.subrange(self.base.toks.last().end, self.base.text.len() as int),
        )
    }

    /// The text of the composition.
    pub open spec fn text(self) -> Seq<char> {
        concat(self.pieces())
    }

    /// The bracket depth that the composition must have: whatever each side did to
    /// it, the composition did both.
    pub open spec fn owed_depth(self) -> int {
        self.ours.reading.net_depth() + self.theirs.reading.net_depth() - self.base.net_depth()
    }

    /// The lines of the composition that no version wrote.
    pub open spec fn fresh_lines(self, ls: Seq<Seq<char>>, k: int) -> Seq<Seq<char>>
        decreases ls.len() - k,
    {
        if k < 0 || k >= ls.len() {
            Seq::empty()
        } else {
            let rest = self.fresh_lines(ls, k + 1);
            let line = trim_end(ls[k]);
            if trim(line).len() > 0 && !self.known(line) {
                seq![line] + rest
            } else {
                rest
            }
        }
    }

    /// Did one of the versions write the line, but for white space behind it?
    pub open spec fn known(self, line: Seq<char>) -> bool {
        ||| line_ends(self.base.text).contains(line)
        ||| line_ends(self.ours.reading.text).contains(line)
        ||| line_ends(self.theirs.reading.text).contains(line)
    }

    /// Is the text that of a token of one of the versions?
    pub open spec fn wrote(self, token: Seq<char>) -> bool {
        self.base.says(token) || self.ours.reading.says(token) || self.theirs.reading.says(token)
    }

    /// Was every token of the text written by one of the versions, as a token?
    pub open spec fn all_written(self, r: ReadingView) -> bool {
        forall|k: int|
            0 <= k < r.toks.len() ==> self.wrote(#[trigger] tok_text(r.text, r.toks[k]))
    }

    /// The composition, where one is admitted and came out as owed. A text in which
    /// two tokens ran together, or one fell apart, is none.
    pub open spec fn composition(self) -> Option<CompositionView> {
        let text = self.text();
        let fresh = self.fresh_lines(lines(text), 0);
        if !self.admitted() {
            None
        } else {
            match reading(text) {
                None => None,
                Some(r) => if r.net_depth() != self.owed_depth() || !self.all_written(r) || text
                    == self.base.text || text == self.ours.reading.text || text
                    == self.theirs.reading.text || fresh.len() == 0 {
                    None
                } else {
                    Some(CompositionView { text, composed_lines: fresh })
                },
            }
        }
    }

    /// The same fold with the sides exchanged.
    pub open spec fn swapped(self) -> Fold {
        Fold { base: self.base, ours: self.theirs, theirs: self.ours }
    }
}

/// The lines of a text without the white space behind each.
pub open spec fn line_ends(s: Seq<char>) -> Seq<Seq<char>> {
    lines(s).map_values(|l: Seq<char>| trim_end(l))
}

/// One accepted composition, with the lines it created.
#[derive(Debug, Clone, PartialEq, Eq)]
pub struct Composition {
    pub text: String,
    /// The lines that are not blank and that no version wrote.
    pub composed_lines: Vec<String>,
}

/// A [`Composition`] with its strings read as texts.
pub struct CompositionView {
    pub text: Seq<char>,
    pub composed_lines: Seq<Seq<char>>,
}

impl View for Composition {
    type V = CompositionView;

    open spec fn view(&self) -> CompositionView {
        CompositionView { text: self.text@, composed_lines: strs(self.composed_lines@) }
    }
}

/// The view of an optional composition.
pub open spec fn opt_composition(r: Option<Composition>) -> Option<CompositionView> {
    match r {
        Some(c) => Some(c@),
        None => None,
    }
}

/// The fold of three texts; `None` where one of them is not understood, where base
/// has no tokens, or where a side is too long to be aligned.
pub open spec fn fold_of(base: Seq<char>, ours: Seq<char>, theirs: Seq<char>) -> Option<Fold> {
    match (reading(base), reading(ours), reading(theirs)) {
        (Some(b), Some(o), Some(t)) => match (pairs(b.keys(), o.keys()), pairs(b.keys(), t.keys())) {
            (Some(po), Some(pt)) => if b.toks.len() == 0 {
                None
            } else {
                Some(
                    Fold {
                        base: b,
                        ours: SideView { reading: o, pairs: po },
                        theirs: SideView { reading: t, pairs: pt },
                    },
                )
            },
            _ => None,
        },
        _ => None,
    }
}

/// The composition of two edits to one statement.
pub open spec fn composition(
    base: Seq<char>,
    ours: Seq<char>,
    theirs: Seq<char>,
) -> Option<CompositionView> {
    match fold_of(base, ours, theirs) {
        Some(f) => f.composition(),
        None => None,
    }
}

// ---------------------------------------------------------------------------
// The fold
// ---------------------------------------------------------------------------

/// One side of a fold: its reading, where it is aligned with base, and its edits.
pub struct SideEdits {
    pub reading: Reading,
    pub pairs: Vec<(usize, usize)>,
    pub hunks: Vec<Hunk>,
}

impl View for SideEdits {
    type V = SideView;

    open spec fn view(&self) -> SideView {
        SideView { reading: self.reading@, pairs: pair_views(self.pairs@) }
    }
}

impl SideEdits {
    /// The edits are those of the alignment with base.
    pub open spec fn wf(&self, base: ReadingView) -> bool {
        &&& self@.wf(base)
        &&& hunk_views(self.hunks@) == self@.hunks(base)
    }

    proof fn fits(&self, base: ReadingView, k: int)
        requires
            self.wf(base),
            0 <= k < self.hunks@.len(),
        ensures
            hunk_fits(
                self.hunks@[k]@,
                base.toks.len() as int,
                self.reading.toks@.len() as int,
            ),
            self@.hunks(base)[k] == self.hunks@[k]@,
            self@.hunks(base).len() == self.hunks@.len(),
    {
        hunks_are_apart(base.keys(), self.reading@.keys(), self@.pairs);
        assert(base.keys().len() == base.toks.len());
        assert(self.reading@.keys().len() == self.reading.toks@.len());
        assert(hunk_views(self.hunks@)[k] == self.hunks@[k]@);
    }

    fn of(base: &Reading, base_keys: &Vec<crate::token::TokenKey>, reading: Reading) -> (r: Option<
        SideEdits,
    >)
        requires
            base@.wf(),
            reading@.wf(),
            key_views(base_keys@) == base@.keys(),
        ensures
            match r {
                Some(x) => pairs(base@.keys(), reading@.keys()) == Some(x@.pairs) && x@.reading
                    == reading@ && x.wf(base@),
                None => pairs(base@.keys(), reading@.keys()) is None,
            },
    {
        let side_keys = keys_of(reading.text.as_slice(), &reading.toks);
        match lcs_pairs(base_keys, &side_keys) {
            None => None,
            Some(v) => {
                proof {
                    assert forall|k: int| #![trigger v@[k]] 0 <= k < v@.len() implies v@[k].0
                        < base.toks@.len() && v@[k].1 < reading.toks@.len() by {
                        assert(pair_views(v@)[k] == (v@[k].0 as int, v@[k].1 as int));
                    }
                }
                let hs = hunks(&v, base.toks.len(), reading.toks.len());
                Some(SideEdits { reading, pairs: v, hunks: hs })
            },
        }
    }

    fn edits_trivia(&self, base: &Reading) -> (r: bool)
        requires
            base@.wf(),
            self.wf(base@),
        ensures
            r == self@.edits_trivia(base@),
    {
        let mut k: usize = 0;
        proof {
            assert(self@.hunks(base@).len() == self.hunks@.len());
        }
        while k < self.hunks.len()
            invariant
                base@.wf(),
                self.wf(base@),
                k <= self.hunks@.len() == self@.hunks(base@).len(),
                forall|m: int|
                    0 <= m < k ==> !trivial_edit(
                        base@,
                        self.reading@,
                        #[trigger] self@.hunks(base@)[m],
                    ),
            decreases self.hunks@.len() - k,
        {
            let h = self.hunks[k];
            proof {
                self.fits(base@, k as int);
            }
            if base.touches_trivia(h.b0, h.b1) || self.reading.touches_trivia(h.s0, h.s1) {
                return true;
            }
            k = k + 1;
        }
        false
    }

    fn changes_arity(&self, base: &Reading, h: &Hunk) -> (r: bool)
        requires
            base@.wf(),
            self.wf(base@),
            hunk_fits(h@, base.toks@.len() as int, self.reading.toks@.len() as int),
        ensures
            r == self@.changes_arity(base@, h@),
    {
        base.top_level_commas(h.b0, h.b1) != self.reading.top_level_commas(h.s0, h.s1)
    }

    fn ends_hunk(&self, base: Ghost<ReadingView>, p: usize) -> (r: bool)
        requires
            self.wf(base@),
        ensures
            r == ends_hunk(self@.hunks(base@), p as int),
    {
        let mut k: usize = 0;
        proof {
            assert(self@.hunks(base@).len() == self.hunks@.len());
        }
        while k < self.hunks.len()
            invariant
                self.wf(base@),
                k <= self.hunks@.len() == self@.hunks(base@).len(),
                forall|m: int| 0 <= m < k ==> (#[trigger] self@.hunks(base@)[m]).b1 != p,
            decreases self.hunks@.len() - k,
        {
            proof {
                self.fits(base@, k as int);
            }
            if self.hunks[k].b1 == p {
                return true;
            }
            k = k + 1;
        }
        false
    }

    /// Outside its own edits, did this side leave base's white space alone?
    fn gaps_faithful(&self, base: &Reading) -> (r: bool)
        requires
            base@.wf(),
            self.wf(base@),
        ensures
            r == self@.faithful(base@),
    {
        let mut k: usize = 0;
        while k < self.pairs.len()
            invariant
                base@.wf(),
                self.wf(base@),
                k <= self.pairs@.len() == self@.pairs.len(),
                forall|m: int|
                    0 <= m < k ==> #[trigger] ends_hunk(self@.hunks(base@), self@.pairs[m].0)
                        || base@.gap(self@.pairs[m].0) == self.reading@.gap(self@.pairs[m].1),
            decreases self.pairs@.len() - k,
        {
            let (b, s) = self.pairs[k];
            proof {
                assert(self@.pairs[k as int] == (b as int, s as int));
                assert(b < base@.keys().len() && s < self.reading@.keys().len());
            }
            if !self.ends_hunk(Ghost(base@), b) && !same(base.gap(b), self.reading.gap(s)) {
                proof {
                    assert(!ends_hunk(self@.hunks(base@), self@.pairs[k as int].0));
                }
                return false;
            }
            k = k + 1;
        }
        true
    }

    fn hunk_at(&self, base: Ghost<ReadingView>, p: usize) -> (r: Option<Hunk>)
        requires
            self.wf(base@),
        ensures
            match r {
                Some(h) => hunk_at(self@.hunks(base@), p as int, 0) == Some(h@) && h.b0 == p
                    && hunk_fits(
                    h@,
                    base@.toks.len() as int,
                    self.reading.toks@.len() as int,
                ),
                None => hunk_at(self@.hunks(base@), p as int, 0) is None,
            },
    {
        let mut k: usize = 0;
        proof {
            assert(self@.hunks(base@).len() == self.hunks@.len());
        }
        while k < self.hunks.len()
            invariant
                self.wf(base@),
                k <= self.hunks@.len() == self@.hunks(base@).len(),
                hunk_at(self@.hunks(base@), p as int, k as int) == hunk_at(
                    self@.hunks(base@),
                    p as int,
                    0,
                ),
            decreases self.hunks@.len() - k,
        {
            proof {
                self.fits(base@, k as int);
            }
            if self.hunks[k].b0 == p {
                return Some(self.hunks[k]);
            }
            k = k + 1;
        }
        None
    }

    fn consumes(&self, base: Ghost<ReadingView>, p: usize) -> (r: bool)
        requires
            self.wf(base@),
        ensures
            r == consumes(self@.hunks(base@), p as int),
    {
        let mut k: usize = 0;
        proof {
            assert(self@.hunks(base@).len() == self.hunks@.len());
        }
        while k < self.hunks.len()
            invariant
                self.wf(base@),
                k <= self.hunks@.len() == self@.hunks(base@).len(),
                forall|m: int| 0 <= m < k ==> !#[trigger] holds(self@.hunks(base@)[m], p as int),
            decreases self.hunks@.len() - k,
        {
            proof {
                self.fits(base@, k as int);
            }
            if self.hunks[k].b0 <= p && p < self.hunks[k].b1 {
                proof {
                    assert(holds(self@.hunks(base@)[k as int], p as int));
                }
                return true;
            }
            k = k + 1;
        }
        false
    }
}

proof fn concat_one(v: Seq<Seq<char>>, x: Seq<char>)
    ensures
        concat(v.push(x)) == concat(v) + x,
{
    assert(v.push(x).drop_last() =~= v);
}

proof fn toks_ordered(r: ReadingView, i: int, j: int)
    requires
        r.wf(),
        0 <= i <= j < r.toks.len(),
    ensures
        r.toks[i].gap <= r.toks[j].gap,
        r.toks[i].text <= r.toks[j].text,
        r.toks[i].text < r.toks[j].end,
        i < j ==> r.toks[i].end <= r.toks[j].gap,
    decreases j - i,
{
    if i < j {
        toks_ordered(r, i, j - 1);
        assert(crate::token::follows(r.toks, j));
        assert(r.toks[j].gap <= r.toks[j].text);
    }
}

/// Put an edit in front of the `i`th base token, and say from where up to where,
/// and whether in the side's text, the gap behind it stands.
fn put_edit(out: &mut Vec<char>, base: &Reading, side: &Reading, h: &Hunk, i: usize, Ghost(pieces): Ghost<Seq<Seq<char>>>) -> (r: (bool, usize, usize))
    requires
        base@.wf(),
        side@.wf(),
        i < base.toks@.len(),
        h.b0 == i,
        hunk_fits(h@, base.toks@.len() as int, side.toks@.len() as int),
        old(out)@ == concat(pieces),
    ensures
        final(out)@ == concat(pieces + put(base@, side@, h@, i as int).0),
        r.0 ==> r.1 <= r.2 <= side.text@.len() && side.text@.subrange(r.1 as int, r.2 as int)
            == put(base@, side@, h@, i as int).1,
        !r.0 ==> r.1 <= r.2 <= base.text@.len() && base.text@.subrange(r.1 as int, r.2 as int)
            == put(base@, side@, h@, i as int).1,
{
    let bt = base.toks[i];
    proof {
        assert(base@.toks[i as int] == bt@);
    }
    if h.s0 >= h.s1 {
        proof {
            assert(pieces + Seq::<Seq<char>>::empty() =~= pieces);
        }
        return (false, bt.gap, bt.text);
    }
    let first = side.toks[h.s0];
    let last = side.toks[h.s1 - 1];
    proof {
        assert(side@.toks[h.s0 as int] == first@);
        assert(side@.toks[h.s1 - 1] == last@);
        toks_ordered(side@, h.s0 as int, h.s1 - 1);
    }
    if h.b0 == h.b1 {
        let behind = side.toks[h.s1];
        proof {
            assert(side@.toks[h.s1 as int] == behind@);
            toks_ordered(side@, h.s1 - 1, h.s1 as int);
        }
        let piece = side.part(first.gap, last.end);
        push_all(out, piece);
        proof {
            concat_one(pieces, piece@);
            assert(pieces.push(piece@) =~= pieces + seq![piece@]);
        }
        (true, last.end, behind.text)
    } else {
        let gap = base.gap(i);
        let piece = side.part(first.text, last.end);
        push_all(out, gap);
        push_all(out, piece);
        proof {
            concat_one(pieces, gap@);
            concat_one(pieces.push(gap@), piece@);
            assert(pieces.push(gap@).push(piece@) =~= pieces + seq![gap@, piece@]);
        }
        (false, bt.gap, bt.text)
    }
}

/// The two sides' edits to one statement, read and aligned.
struct Folding {
    base: Reading,
    ours: SideEdits,
    theirs: SideEdits,
}

impl Folding {
    spec fn fold(&self) -> Fold {
        Fold { base: self.base@, ours: self.ours@, theirs: self.theirs@ }
    }

    spec fn wf(&self) -> bool {
        &&& self.base@.wf()
        &&& self.base.toks@.len() > 0
        &&& self.ours.wf(self.base@)
        &&& self.theirs.wf(self.base@)
    }

    fn group_of(&self, groups: &Vec<Option<usize>>, h: &Hunk) -> (r: Option<usize>)
        requires
            self.wf(),
            h.b0 <= h.b1 <= self.base.toks@.len(),
            groups@.len() == self.base.toks@.len(),
            forall|k: int|
                0 <= k < groups@.len() ==> match #[trigger] groups@[k] {
                    Some(g) => self.base@.group(k) == Some(g as int),
                    None => self.base@.group(k) is None,
                },
        ensures
            match r {
                Some(g) => group_of(self.base@, h@) == Some(g as int),
                None => group_of(self.base@, h@) is None,
            },
    {
        let n: usize = self.base.toks.len();
        let i: usize = if h.b0 < h.b1 || h.b0 < n {
            h.b0
        } else {
            n - 1
        };
        groups[i]
    }

    fn all_compatible(&self) -> (r: bool)
        requires
            self.wf(),
        ensures
            r == self.fold().all_compatible(),
    {
        let ghost f = self.fold();
        let groups = self.base.groups();
        let mut i: usize = 0;
        proof {
            assert(f.oh().len() == self.ours.hunks@.len());
            assert(f.th().len() == self.theirs.hunks@.len());
        }
        while i < self.ours.hunks.len()
            invariant
                self.wf(),
                f == self.fold(),
                i <= self.ours.hunks@.len() == f.oh().len(),
                f.th().len() == self.theirs.hunks@.len(),
                groups@.len() == self.base.toks@.len(),
                forall|k: int|
                    0 <= k < groups@.len() ==> match #[trigger] groups@[k] {
                        Some(g) => self.base@.group(k) == Some(g as int),
                        None => self.base@.group(k) is None,
                    },
                forall|a: int, b: int|
                    0 <= a < i && 0 <= b < f.th().len() ==> f.compatible(
                        #[trigger] f.oh()[a],
                        #[trigger] f.th()[b],
                    ),
            decreases self.ours.hunks@.len() - i,
        {
            let o = self.ours.hunks[i];
            proof {
                self.ours.fits(self.base@, i as int);
            }
            let og = self.group_of(&groups, &o);
            let o_arity = self.ours.changes_arity(&self.base, &o);
            let mut j: usize = 0;
            while j < self.theirs.hunks.len()
                invariant
                    self.wf(),
                    f == self.fold(),
                    i < self.ours.hunks@.len() == f.oh().len(),
                    o@ == f.oh()[i as int],
                    o_arity == f.ours.changes_arity(f.base, o@),
                    match og {
                        Some(g) => group_of(f.base, o@) == Some(g as int),
                        None => group_of(f.base, o@) is None,
                    },
                    j <= self.theirs.hunks@.len() == f.th().len(),
                    groups@.len() == self.base.toks@.len(),
                    forall|k: int|
                        0 <= k < groups@.len() ==> match #[trigger] groups@[k] {
                            Some(g) => self.base@.group(k) == Some(g as int),
                            None => self.base@.group(k) is None,
                        },
                    forall|b: int| 0 <= b < j ==> f.compatible(o@, #[trigger] f.th()[b]),
                decreases self.theirs.hunks@.len() - j,
            {
                let t = self.theirs.hunks[j];
                proof {
                    self.theirs.fits(self.base@, j as int);
                }
                let tg = self.group_of(&groups, &t);
                let one_group = match (og, tg) {
                    (Some(x), Some(y)) => x == y,
                    (None, None) => true,
                    _ => false,
                };
                if !separated(&o, &t) || (one_group && (o_arity || self.theirs.changes_arity(
                    &self.base,
                    &t,
                ))) {
                    proof {
                        assert(!f.compatible(f.oh()[i as int], f.th()[j as int]));
                    }
                    return false;
                }
                j = j + 1;
            }
            i = i + 1;
        }
        true
    }

    fn admitted(&self) -> (r: bool)
        requires
            self.wf(),
        ensures
            r == self.fold().admitted(),
    {
        proof {
            assert(self.fold().oh().len() == self.ours.hunks@.len());
            assert(self.fold().th().len() == self.theirs.hunks@.len());
        }
        self.ours.hunks.len() > 0 && self.theirs.hunks.len() > 0 && self.all_compatible()
            && !self.ours.edits_trivia(&self.base) && !self.theirs.edits_trivia(&self.base)
            && self.ours.gaps_faithful(&self.base) && self.theirs.gaps_faithful(&self.base)
    }

    fn splice_at(&self, out: &mut Vec<char>, i: usize, Ghost(pieces): Ghost<Seq<Seq<char>>>)
        requires
            self.wf(),
            i < self.base.toks@.len(),
            old(out)@ == concat(pieces),
        ensures
            final(out)@ == concat(pieces + self.fold().pieces_at(i as int)),
    {
        let ghost f = self.fold();
        let ghost b = f.base;
        let bt = self.base.toks[i];
        proof {
            assert(b.toks[i as int] == bt@);
        }
        let consumed = self.ours.consumes(Ghost(b), i) || self.theirs.consumes(Ghost(b), i);
        let mut from_ours = false;
        let mut from_theirs = false;
        let mut lo: usize = bt.gap;
        let mut hi: usize = bt.text;
        match self.ours.hunk_at(Ghost(b), i) {
            Some(h) => {
                let (side, a, e) = put_edit(
                    out,
                    &self.base,
                    &self.ours.reading,
                    &h,
                    i,
                    Ghost(pieces),
                );
                from_ours = side;
                lo = a;
                hi = e;
            },
            None => match self.theirs.hunk_at(Ghost(b), i) {
                Some(h) => {
                    let (side, a, e) = put_edit(
                        out,
                        &self.base,
                        &self.theirs.reading,
                        &h,
                        i,
                        Ghost(pieces),
                    );
                    from_theirs = side;
                    lo = a;
                    hi = e;
                },
                None => {
                    proof {
                        assert(pieces + Seq::<Seq<char>>::empty() =~= pieces);
                    }
                },
            },
        }
        let ghost so_far = pieces + f.put_at(i as int).0;
        proof {
            assert(out@ == concat(so_far));
        }
        if consumed {
            return ;
        }
        let gap = if from_ours {
            self.ours.reading.part(lo, hi)
        } else if from_theirs {
            self.theirs.reading.part(lo, hi)
        } else {
            self.base.part(lo, hi)
        };
        push_all(out, gap);
        let word = self.base.tok(i);
        push_all(out, word);
        proof {
            assert(gap@ == f.put_at(i as int).1);
            concat_one(so_far, gap@);
            concat_one(so_far.push(gap@), word@);
            assert(so_far.push(gap@).push(word@) =~= pieces + f.pieces_at(i as int));
        }
    }

    fn tail_of(&self, side: &SideEdits, out: &mut Vec<char>, Ghost(pieces): Ghost<
        Seq<Seq<char>>,
    >) -> (r: bool)
        requires
            self.wf(),
            side.wf(self.base@),
            old(out)@ == concat(pieces),
        ensures
            match self.fold().tail_of(side@) {
                Some(p) => r && final(out)@ == concat(pieces + p),
                None => !r && final(out)@ == old(out)@,
            },
    {
        match side.hunk_at(Ghost(self.base@), self.base.toks.len()) {
            Some(h) => {
                if h.s0 < h.s1 {
                    let first = side.reading.toks[h.s0];
                    let last = side.reading.toks[h.s1 - 1];
                    proof {
                        assert(side.reading@.toks[h.s0 as int] == first@);
                        assert(side.reading@.toks[h.s1 - 1] == last@);
                        toks_ordered(side.reading@, h.s0 as int, h.s1 - 1);
                    }
                    let piece = side.reading.part(first.gap, last.end);
                    push_all(out, piece);
                    proof {
                        concat_one(pieces, piece@);
                        assert(pieces.push(piece@) =~= pieces + seq![piece@]);
                    }
                } else {
                    proof {
                        assert(pieces + Seq::<Seq<char>>::empty() =~= pieces);
                    }
                }
                true
            },
            None => false,
        }
    }

    /// The text of the composition: one pass over base's tokens.
    fn splice(&self) -> (out: Vec<char>)
        requires
            self.wf(),
        ensures
            out@ == self.fold().text(),
    {
        let ghost f = self.fold();
        let n: usize = self.base.toks.len();
        let mut out: Vec<char> = Vec::new();
        let mut i: usize = 0;
        while i < n
            invariant
                self.wf(),
                f == self.fold(),
                i <= n == self.base.toks@.len(),
                out@ == concat(f.pieces_upto(i as int)),
            decreases n - i,
        {
            self.splice_at(&mut out, i, Ghost(f.pieces_upto(i as int)));
            i = i + 1;
        }
        let ghost body = f.pieces_upto(n as int);
        if !self.tail_of(&self.ours, &mut out, Ghost(body)) {
            if !self.tail_of(&self.theirs, &mut out, Ghost(body)) {
                proof {
                    assert(body + Seq::<Seq<char>>::empty() =~= body);
                }
            }
        }
        let last = self.base.toks[n - 1];
        proof {
            assert(out@ == concat(body + f.tail()));
            assert(f.base.toks[n - 1] == last@);
            assert(f.base.toks.last() == last@);
        }
        let rest = self.base.part(last.end, self.base.text.len());
        push_all(&mut out, rest);
        proof {
            concat_one(body + f.tail(), rest@);
        }
        out
    }
}

impl Reading {
    fn says(&self, token: &[char]) -> (r: bool)
        requires
            self@.wf(),
        ensures
            r == self@.says(token@),
    {
        let ghost v = self@;
        let mut k: usize = 0;
        while k < self.toks.len()
            invariant
                k <= self.toks@.len(),
                v == self@,
                v.wf(),
                forall|m: int|
                    0 <= m < k ==> tok_text(v.text, #[trigger] v.toks[m]) != token@,
            decreases self.toks@.len() - k,
        {
            let t = self.toks[k];
            proof {
                assert(v.toks[k as int] == t@);
            }
            if same(self.part(t.text, t.end), token) {
                return true;
            }
            k = k + 1;
        }
        false
    }
}

impl Folding {
    fn all_written(&self, made: &Reading) -> (r: bool)
        requires
            self.wf(),
            made@.wf(),
        ensures
            r == self.fold().all_written(made@),
    {
        let ghost v = made@;
        let ghost f = self.fold();
        let mut k: usize = 0;
        while k < made.toks.len()
            invariant
                k <= made.toks@.len(),
                v == made@,
                v.wf(),
                self.wf(),
                f == self.fold(),
                forall|m: int|
                    0 <= m < k ==> f.wrote(#[trigger] tok_text(v.text, v.toks[m])),
            decreases made.toks@.len() - k,
        {
            let t = made.toks[k];
            proof {
                assert(v.toks[k as int] == t@);
            }
            let token = made.part(t.text, t.end);
            if !(self.base.says(token) || self.ours.reading.says(token) || self.theirs.reading.says(
                token,
            )) {
                proof {
                    assert(!f.wrote(tok_text(v.text, v.toks[k as int])));
                }
                return false;
            }
            k = k + 1;
        }
        true
    }
}

fn ends_of(s: &[char]) -> (r: Vec<Vec<char>>)
    ensures
        texts(r@) == line_ends(s@),
{
    let ls = split_lines(s);
    let ghost all = lines(s@);
    let mut out: Vec<Vec<char>> = Vec::new();
    let mut k: usize = 0;
    while k < ls.len()
        invariant
            k <= ls@.len(),
            texts(ls@) == all,
            out@.len() == k,
            forall|m: int| 0 <= m < k ==> (#[trigger] out@[m])@ == trim_end(all[m]),
        decreases ls@.len() - k,
    {
        proof {
            assert(all[k as int] == ls@[k as int]@);
        }
        out.push(crate::text::copy_of(trimmed_end(ls[k].as_slice())));
        k = k + 1;
    }
    proof {
        assert(texts(out@) =~= line_ends(s@));
    }
    out
}

fn fresh_of(f: &Folding, out: &[char]) -> (r: Vec<String>)
    requires
        f.wf(),
    ensures
        strs(r@) == f.fold().fresh_lines(lines(out@), 0),
{
    let ghost fv = f.fold();
    let ls = split_lines(out);
    let ghost all = lines(out@);
    let base = ends_of(f.base.text.as_slice());
    let ours = ends_of(f.ours.reading.text.as_slice());
    let theirs = ends_of(f.theirs.reading.text.as_slice());
    let mut fresh: Vec<String> = Vec::new();
    let mut k: usize = 0;
    proof {
        assert(strs(fresh@) + fv.fresh_lines(all, 0) =~= fv.fresh_lines(all, 0));
    }
    while k < ls.len()
        invariant
            k <= ls@.len(),
            texts(ls@) == all,
            texts(base@) == line_ends(fv.base.text),
            texts(ours@) == line_ends(fv.ours.reading.text),
            texts(theirs@) == line_ends(fv.theirs.reading.text),
            strs(fresh@) + fv.fresh_lines(all, k as int) == fv.fresh_lines(all, 0),
        decreases ls@.len() - k,
    {
        proof {
            assert(all[k as int] == ls@[k as int]@);
        }
        let line = trimmed_end(ls[k].as_slice());
        if trimmed(line).len() > 0 && !(texts_have(&base, line) || texts_have(&ours, line)
            || texts_have(&theirs, line)) {
            let ghost held = strs(fresh@);
            fresh.push(string_of(line));
            proof {
                assert(strs(fresh@) =~= held.push(line@));
                let rest = fv.fresh_lines(all, k + 1);
                assert(held + (seq![line@] + rest) =~= held.push(line@) + rest);
            }
        }
        k = k + 1;
    }
    proof {
        assert(strs(fresh@) + Seq::<Seq<char>>::empty() =~= strs(fresh@));
    }
    fresh
}

/// Compose two edits to one statement, or `None`: a `None` costs nothing that was
/// not already lost.
pub fn expression_merge(base: &str, ours: &str, theirs: &str) -> (r: Option<Composition>)
    ensures
        opt_composition(r) == composition(base@, ours@, theirs@),
{
    let bc = chars_of(base);
    let oc = chars_of(ours);
    let tc = chars_of(theirs);
    let b = match Reading::of(bc.as_slice()) {
        Some(x) => x,
        None => return None,
    };
    let o = match Reading::of(oc.as_slice()) {
        Some(x) => x,
        None => return None,
    };
    let t = match Reading::of(tc.as_slice()) {
        Some(x) => x,
        None => return None,
    };
    if b.toks.len() == 0 {
        return None;
    }
    let bk = keys_of(b.text.as_slice(), &b.toks);
    let ours_edits = match SideEdits::of(&b, &bk, o) {
        Some(x) => x,
        None => return None,
    };
    let theirs_edits = match SideEdits::of(&b, &bk, t) {
        Some(x) => x,
        None => return None,
    };
    let f = Folding { base: b, ours: ours_edits, theirs: theirs_edits };
    proof {
        assert(fold_of(base@, ours@, theirs@) == Some(f.fold()));
    }
    if !f.admitted() {
        return None;
    }
    let out = f.splice();
    let made = match Reading::of(out.as_slice()) {
        Some(x) => x,
        None => return None,
    };
    if !f.all_written(&made) {
        return None;
    }
    let owed: i32 = f.ours.reading.net_depth() + f.theirs.reading.net_depth() - f.base.net_depth();
    if made.net_depth() != owed {
        return None;
    }
    if same(out.as_slice(), oc.as_slice()) || same(out.as_slice(), tc.as_slice()) || same(
        out.as_slice(),
        bc.as_slice(),
    ) {
        return None;
    }
    let composed_lines = fresh_of(&f, out.as_slice());
    if composed_lines.len() == 0 {
        return None;
    }
    Some(Composition { text: string_of(out.as_slice()), composed_lines })
}

// ---------------------------------------------------------------------------
// Laws
// ---------------------------------------------------------------------------

proof fn fold_is_wf(base: Seq<char>, ours: Seq<char>, theirs: Seq<char>)
    ensures
        fold_of(base, ours, theirs) matches Some(f) ==> f.wf(),
{
    if let Some(f) = fold_of(base, ours, theirs) {
        crate::token::a_tokenization_tiles_the_text(base);
        crate::token::a_tokenization_tiles_the_text(ours);
        crate::token::a_tokenization_tiles_the_text(theirs);
        crate::token::an_alignment_is_a_common_subsequence(
            f.base.keys(),
            f.ours.reading.keys(),
            0,
            0,
        );
        crate::token::an_alignment_is_a_common_subsequence(
            f.base.keys(),
            f.theirs.reading.keys(),
            0,
            0,
        );
    }
}

proof fn hunk_at_is_one(hs: Seq<HunkView>, p: int, k: int)
    requires
        0 <= k,
    ensures
        hunk_at(hs, p, k) matches Some(h) ==> h.b0 == p && exists|m: int|
            0 <= m < hs.len() && #[trigger] hs[m] == h,
    decreases hs.len() - k,
{
    if k < hs.len() && hs[k].b0 != p {
        hunk_at_is_one(hs, p, k + 1);
    }
}

proof fn one_edit_at_a_place(f: Fold, p: int)
    requires
        f.wf(),
        f.admitted(),
    ensures
        hunk_at(f.oh(), p, 0) is None || hunk_at(f.th(), p, 0) is None,
{
    hunk_at_is_one(f.oh(), p, 0);
    hunk_at_is_one(f.th(), p, 0);
    if let (Some(o), Some(t)) = (hunk_at(f.oh(), p, 0), hunk_at(f.th(), p, 0)) {
        side_fits(f.base, f.ours);
        side_fits(f.base, f.theirs);
        let a = choose|m: int| 0 <= m < f.oh().len() && #[trigger] f.oh()[m] == o;
        let b = choose|m: int| 0 <= m < f.th().len() && #[trigger] f.th()[m] == t;
        assert(f.compatible(f.oh()[a], f.th()[b]));
        separated_edits_share_no_place(o, t);
    }
}

proof fn side_fits(base: ReadingView, side: SideView)
    requires
        side.wf(base),
    ensures
        forall|k: int|
            0 <= k < side.hunks(base).len() ==> hunk_fits(
                #[trigger] side.hunks(base)[k],
                base.toks.len() as int,
                side.reading.toks.len() as int,
            ),
{
    assert(base.keys().len() == base.toks.len());
    assert(side.reading.keys().len() == side.reading.toks.len());
    hunks_are_apart(base.keys(), side.reading.keys(), side.pairs);
}

proof fn swapped_pieces(f: Fold, n: int)
    requires
        f.wf(),
        f.admitted(),
    ensures
        f.swapped().pieces_upto(n) == f.pieces_upto(n),
    decreases n,
{
    if n > 0 {
        swapped_pieces(f, n - 1);
        one_edit_at_a_place(f, n - 1);
    }
}

proof fn swapped_fresh_lines(f: Fold, ls: Seq<Seq<char>>, k: int)
    ensures
        f.swapped().fresh_lines(ls, k) == f.fresh_lines(ls, k),
    decreases ls.len() - k,
{
    if 0 <= k < ls.len() {
        swapped_fresh_lines(f, ls, k + 1);
    }
}

proof fn swapped_is_admitted(f: Fold)
    requires
        f.admitted(),
    ensures
        f.swapped().admitted(),
{
    let g = f.swapped();
    assert forall|i: int, j: int| 0 <= i < g.oh().len() && 0 <= j < g.th().len() implies g.compatible(
        #[trigger] g.oh()[i],
        #[trigger] g.th()[j],
    ) by {
        assert(f.compatible(f.oh()[j], f.th()[i]));
    }
}

/// A composition does not depend on which side is ours.
pub proof fn composition_is_symmetric(base: Seq<char>, ours: Seq<char>, theirs: Seq<char>)
    ensures
        composition(base, ours, theirs) == composition(base, theirs, ours),
{
    if let Some(f) = fold_of(base, ours, theirs) {
        fold_is_wf(base, ours, theirs);
        let g = f.swapped();
        assert(fold_of(base, theirs, ours) == Some(g));
        assert(g.swapped() == f);
        if f.admitted() {
            swapped_is_admitted(f);
            let n = f.base.toks.len() as int;
            swapped_pieces(f, n);
            one_edit_at_a_place(f, n);
            assert(g.tail() == f.tail());
            assert(g.text() == f.text());
            swapped_fresh_lines(f, lines(f.text()), 0);
            assert(g.owed_depth() == f.owed_depth());
            if let Some(r) = reading(f.text()) {
                assert forall|k: int| 0 <= k < r.toks.len() implies g.wrote(
                    #[trigger] tok_text(r.text, r.toks[k]),
                ) == f.wrote(tok_text(r.text, r.toks[k])) by {}
                assert(g.all_written(r) == f.all_written(r));
            }
        } else if g.admitted() {
            swapped_is_admitted(g);
        }
    }
}

/// Is the piece a contiguous part of base, of ours or of theirs?
pub open spec fn from_some_side(f: Fold, piece: Seq<char>) -> bool {
    ||| contains(f.base.text, piece)
    ||| contains(f.ours.reading.text, piece)
    ||| contains(f.theirs.reading.text, piece)
}

proof fn part_is_contained(s: Seq<char>, a: int, b: int)
    requires
        0 <= a <= b <= s.len(),
    ensures
        contains(s, s.subrange(a, b)),
{
    assert(crate::text::at(s, s.subrange(a, b), a));
}

proof fn put_comes_from_some_side(f: Fold, side: SideView, i: int)
    requires
        f.wf(),
        side == f.ours || side == f.theirs,
        0 <= i < f.base.toks.len(),
    ensures
        hunk_at(side.hunks(f.base), i, 0) matches Some(h) ==> {
            let (pieces, gap) = put(f.base, side.reading, h, i);
            &&& forall|k: int| 0 <= k < pieces.len() ==> from_some_side(f, #[trigger] pieces[k])
            &&& from_some_side(f, gap)
        },
{
    let r = side.reading;
    hunk_at_is_one(side.hunks(f.base), i, 0);
    if let Some(h) = hunk_at(side.hunks(f.base), i, 0) {
        side_fits(f.base, side);
        assert(hunk_fits(h, f.base.toks.len() as int, r.toks.len() as int));
        let bt = f.base.toks[i];
        part_is_contained(f.base.text, bt.gap, bt.text);
        if h.s0 < h.s1 {
            toks_ordered(r, h.s0, h.s1 - 1);
            if h.b0 == h.b1 {
                toks_ordered(r, h.s1 - 1, h.s1);
                part_is_contained(r.text, r.toks[h.s0].gap, r.toks[h.s1 - 1].end);
                part_is_contained(r.text, r.toks[h.s1 - 1].end, r.toks[h.s1].text);
            } else {
                part_is_contained(r.text, r.toks[h.s0].text, r.toks[h.s1 - 1].end);
            }
        }
    }
}

proof fn pieces_come_from_some_side(f: Fold, n: int)
    requires
        f.wf(),
        n <= f.base.toks.len(),
    ensures
        forall|k: int|
            0 <= k < f.pieces_upto(n).len() ==> from_some_side(f, #[trigger] f.pieces_upto(n)[k]),
    decreases n,
{
    if n > 0 {
        let i = n - 1;
        pieces_come_from_some_side(f, i);
        put_comes_from_some_side(f, f.ours, i);
        put_comes_from_some_side(f, f.theirs, i);
        let bt = f.base.toks[i];
        part_is_contained(f.base.text, bt.gap, bt.text);
        part_is_contained(f.base.text, bt.text, bt.end);
        let (put, gap) = f.put_at(i);
        assert(forall|k: int| 0 <= k < put.len() ==> from_some_side(f, #[trigger] put[k]));
        assert(from_some_side(f, gap));
        let here = f.pieces_at(i);
        assert forall|k: int| 0 <= k < here.len() implies from_some_side(f, #[trigger] here[k]) by {
            if k < put.len() {
                assert(here[k] == put[k]);
            }
        }
        let before = f.pieces_upto(i);
        let all = f.pieces_upto(n);
        assert forall|k: int| 0 <= k < all.len() implies from_some_side(f, #[trigger] all[k]) by {
            if k < before.len() {
                assert(all[k] == before[k]);
            } else {
                assert(all[k] == here[k - before.len()]);
            }
        }
    }
}

proof fn tail_comes_from_some_side(f: Fold, side: SideView)
    requires
        f.wf(),
        side == f.ours || side == f.theirs,
    ensures
        f.tail_of(side) matches Some(p) ==> forall|k: int|
            0 <= k < p.len() ==> from_some_side(f, #[trigger] p[k]),
{
    let r = side.reading;
    let n = f.base.toks.len() as int;
    hunk_at_is_one(side.hunks(f.base), n, 0);
    if let Some(h) = hunk_at(side.hunks(f.base), n, 0) {
        side_fits(f.base, side);
        assert(hunk_fits(h, n, r.toks.len() as int));
        if h.s0 < h.s1 {
            toks_ordered(r, h.s0, h.s1 - 1);
            part_is_contained(r.text, r.toks[h.s0].gap, r.toks[h.s1 - 1].end);
        }
    }
}

/// A composition is a splice: its text is put together from contiguous parts of
/// base, of ours and of theirs, and of nothing else.
pub proof fn a_composition_is_a_splice(base: Seq<char>, ours: Seq<char>, theirs: Seq<char>)
    ensures
        composition(base, ours, theirs) matches Some(c) ==> {
            let f = fold_of(base, ours, theirs)->0;
            &&& c.text == concat(f.pieces())
            &&& forall|k: int|
                0 <= k < f.pieces().len() ==> contains(base, #[trigger] f.pieces()[k]) || contains(
                    ours,
                    f.pieces()[k],
                ) || contains(theirs, f.pieces()[k])
        },
{
    if let Some(f) = fold_of(base, ours, theirs) {
        fold_is_wf(base, ours, theirs);
        let n = f.base.toks.len() as int;
        pieces_come_from_some_side(f, n);
        tail_comes_from_some_side(f, f.ours);
        tail_comes_from_some_side(f, f.theirs);
        assert(f.base.toks.last() == f.base.toks[n - 1]);
        part_is_contained(f.base.text, f.base.toks.last().end, f.base.text.len() as int);
        let body = f.pieces_upto(n);
        let tail = f.tail();
        let all = f.pieces();
        assert forall|k: int| 0 <= k < all.len() implies from_some_side(f, #[trigger] all[k]) by {
            if k < body.len() {
                assert(all[k] == body[k]);
            } else if k < body.len() + tail.len() {
                assert(all[k] == tail[k - body.len()]);
            }
        }
        assert forall|k: int| 0 <= k < all.len() implies contains(base, #[trigger] all[k])
            || contains(ours, all[k]) || contains(theirs, all[k]) by {
            assert(from_some_side(f, all[k]));
        }
    }
}

/// No token is made of two halves: every token of a composition is a token that base,
/// ours or theirs wrote.
pub proof fn every_composed_token_was_written(base: Seq<char>, ours: Seq<char>, theirs: Seq<char>)
    ensures
        composition(base, ours, theirs) matches Some(c) ==> {
            &&& reading(c.text) is Some
            &&& forall|k: int|
                0 <= k < (reading(c.text)->0).toks.len() ==> {
                    let token = #[trigger] tok_text(c.text, (reading(c.text)->0).toks[k]);
                    (reading(base)->0).says(token) || (reading(ours)->0).says(token) || (reading(
                        theirs,
                    )->0).says(token)
                }
        },
{
    if let Some(c) = composition(base, ours, theirs) {
        let f = fold_of(base, ours, theirs)->0;
        let r = reading(c.text)->0;
        assert(f.all_written(r));
        assert forall|k: int| 0 <= k < r.toks.len() implies f.wrote(
            #[trigger] tok_text(c.text, r.toks[k]),
        ) by {
            assert(f.wrote(tok_text(r.text, r.toks[k])));
        }
    }
}


/// What an edit writes: the side's own text, from its first token to its last.
pub open spec fn written(side: ReadingView, h: HunkView) -> Seq<char> {
    side.text.subrange(side.toks[h.s0].text, side.toks[h.s1 - 1].end)
}

proof fn contains_is_transitive(s: Seq<char>, m: Seq<char>, x: Seq<char>)
    requires
        contains(s, m),
        contains(m, x),
    ensures
        contains(s, x),
{
    let i = choose|i: int| crate::text::at(s, m, i);
    let j = choose|j: int| crate::text::at(m, x, j);
    assert(s.subrange(i + j, i + j + x.len()) =~= s.subrange(i, i + m.len()).subrange(
        j,
        j + x.len(),
    ));
    assert(crate::text::at(s, x, i + j));
}

proof fn a_piece_stands_in_the_whole(v: Seq<Seq<char>>, x: Seq<char>)
    requires
        v.contains(x),
    ensures
        contains(concat(v), x),
    decreases v.len(),
{
    let front = v.drop_last();
    let k = choose|k: int| 0 <= k < v.len() && v[k] == x;
    let c = concat(front);
    let n = c.len() as int;
    assert((c + v.last()).subrange(0, n) =~= c);
    assert(crate::text::at(c + v.last(), c, 0));
    if k < front.len() {
        assert(front[k] == x);
        a_piece_stands_in_the_whole(front, x);
        contains_is_transitive(c + v.last(), c, x);
    } else {
        assert((c + x).subrange(n, n + x.len()) =~= x);
        assert(crate::text::at(c + x, x, n));
    }
}

proof fn pieces_at_a_token_are_pieces(f: Fold, n: int, i: int, x: Seq<char>)
    requires
        0 <= i < n,
        f.pieces_at(i).contains(x),
    ensures
        f.pieces_upto(n).contains(x),
    decreases n,
{
    let front = f.pieces_upto(n - 1);
    let all = f.pieces_upto(n);
    if i == n - 1 {
        let here = f.pieces_at(i);
        let k = choose|k: int| 0 <= k < here.len() && here[k] == x;
        assert(all[front.len() + k] == x);
    } else {
        pieces_at_a_token_are_pieces(f, n - 1, i, x);
        let k = choose|k: int| 0 <= k < front.len() && front[k] == x;
        assert(all[k] == x);
    }
}

proof fn a_piece_of_the_fold_stands_in_its_text(f: Fold, i: int, x: Seq<char>)
    requires
        0 <= i < f.base.toks.len() && f.pieces_at(i).contains(x) || f.tail().contains(x),
    ensures
        contains(f.text(), x),
{
    let n = f.base.toks.len() as int;
    let body = f.pieces_upto(n);
    let tail = f.tail();
    let all = f.pieces();
    if 0 <= i < n && f.pieces_at(i).contains(x) {
        pieces_at_a_token_are_pieces(f, n, i, x);
        let k = choose|k: int| 0 <= k < body.len() && body[k] == x;
        assert(all[k] == x);
    } else {
        let k = choose|k: int| 0 <= k < tail.len() && tail[k] == x;
        assert(all[body.len() + k] == x);
    }
    a_piece_stands_in_the_whole(all, x);
}

proof fn the_hunk_at_its_place(hs: Seq<HunkView>, k: int, m: int)
    requires
        0 <= m <= k < hs.len(),
        forall|a: int, b: int|
            0 <= a < b < hs.len() ==> (#[trigger] hs[a]).b0 < (#[trigger] hs[b]).b0,
    ensures
        hunk_at(hs, hs[k].b0, m) == Some(hs[k]),
    decreases k - m,
{
    if m < k {
        assert(hs[m].b0 < hs[k].b0);
        the_hunk_at_its_place(hs, k, m + 1);
    }
}

proof fn our_edit_is_made(f: Fold, k: int)
    requires
        f.wf(),
        0 <= k < f.oh().len(),
        f.oh()[k].s0 < f.oh()[k].s1,
    ensures
        contains(f.text(), written(f.ours.reading, f.oh()[k])),
{
    let r = f.ours.reading;
    let hs = f.oh();
    let h = hs[k];
    let n = f.base.toks.len() as int;
    let x = written(r, h);
    side_fits(f.base, f.ours);
    assert(f.base.keys().len() == n);
    assert(r.keys().len() == r.toks.len());
    hunks_are_apart(f.base.keys(), r.keys(), f.ours.pairs);
    assert forall|a: int, b: int| 0 <= a < b < hs.len() implies (#[trigger] hs[a]).b0 < (
    #[trigger] hs[b]).b0 by {
        assert(hunk_fits(hs[a], n, r.toks.len() as int));
        assert(hs[a].b1 < hs[b].b0);
    }
    the_hunk_at_its_place(hs, k, 0);
    assert(hunk_fits(h, n, r.toks.len() as int));
    toks_ordered(r, h.s0, h.s1 - 1);
    let lead = r.text.subrange(r.toks[h.s0].gap, r.toks[h.s1 - 1].end);
    let d = r.toks[h.s0].text - r.toks[h.s0].gap;
    assert(lead.subrange(d, d + x.len()) =~= x);
    assert(crate::text::at(lead, x, d));
    if h.b0 < n {
        let here = f.pieces_at(h.b0);
        let (put, gap) = f.put_at(h.b0);
        if h.b0 == h.b1 {
            assert(put[0] == lead);
            assert(here[0] == lead);
            a_piece_of_the_fold_stands_in_its_text(f, h.b0, lead);
            contains_is_transitive(f.text(), lead, x);
        } else {
            assert(put[1] == x);
            assert(here[1] == x);
            a_piece_of_the_fold_stands_in_its_text(f, h.b0, x);
        }
    } else {
        let tail = f.tail();
        assert(tail[0] == lead);
        a_piece_of_the_fold_stands_in_its_text(f, 0, lead);
        contains_is_transitive(f.text(), lead, x);
    }
}

/// A composition makes the edits of both sides. Each side has an edit, no two of them
/// claim one place of base, and what each writes stands in the text; so does every token
/// of base that neither side replaced or dropped. And the text is none of the three.
pub proof fn a_composition_makes_the_edits_of_both(
    base: Seq<char>,
    ours: Seq<char>,
    theirs: Seq<char>,
)
    ensures
        composition(base, ours, theirs) matches Some(c) ==> {
            let f = fold_of(base, ours, theirs)->0;
            &&& f.oh().len() > 0 && f.th().len() > 0
            &&& forall|i: int, j: int, p: int|
                0 <= i < f.oh().len() && 0 <= j < f.th().len() && #[trigger] holds(f.oh()[i], p)
                    ==> !#[trigger] holds(f.th()[j], p)
            &&& forall|k: int|
                0 <= k < f.oh().len() && (#[trigger] f.oh()[k]).s0 < f.oh()[k].s1 ==> contains(
                    c.text,
                    written(f.ours.reading, f.oh()[k]),
                )
            &&& forall|k: int|
                0 <= k < f.th().len() && (#[trigger] f.th()[k]).s0 < f.th()[k].s1 ==> contains(
                    c.text,
                    written(f.theirs.reading, f.th()[k]),
                )
            &&& forall|p: int|
                0 <= p < f.base.toks.len() && !consumes(f.oh(), p) && !consumes(f.th(), p)
                    ==> contains(c.text, tok_text(base, #[trigger] f.base.toks[p]))
            &&& c.text != base && c.text != ours && c.text != theirs
        },
{
    if let Some(c) = composition(base, ours, theirs) {
        let f = fold_of(base, ours, theirs)->0;
        let g = f.swapped();
        fold_is_wf(base, ours, theirs);
        fold_is_wf(base, theirs, ours);
        composition_is_symmetric(base, ours, theirs);
        assert(fold_of(base, theirs, ours) == Some(g));
        assert(c.text == f.text() && c.text == g.text());
        side_fits(f.base, f.ours);
        side_fits(f.base, f.theirs);
        assert forall|i: int, j: int, p: int|
            0 <= i < f.oh().len() && 0 <= j < f.th().len() && #[trigger] holds(f.oh()[i], p) implies
            !#[trigger] holds(f.th()[j], p) by {
            assert(f.compatible(f.oh()[i], f.th()[j]));
            separated_edits_share_no_place(f.oh()[i], f.th()[j]);
        }
        assert forall|k: int|
            0 <= k < f.oh().len() && (#[trigger] f.oh()[k]).s0 < f.oh()[k].s1 implies contains(
            c.text,
            written(f.ours.reading, f.oh()[k]),
        ) by {
            our_edit_is_made(f, k);
        }
        assert forall|k: int|
            0 <= k < f.th().len() && (#[trigger] f.th()[k]).s0 < f.th()[k].s1 implies contains(
            c.text,
            written(f.theirs.reading, f.th()[k]),
        ) by {
            assert(g.oh() == f.th());
            our_edit_is_made(g, k);
        }
        assert forall|p: int|
            0 <= p < f.base.toks.len() && !consumes(f.oh(), p) && !consumes(
                f.th(),
                p,
            ) implies contains(c.text, tok_text(base, #[trigger] f.base.toks[p])) by {
            let x = tok_text(base, f.base.toks[p]);
            let here = f.pieces_at(p);
            assert(here[here.len() - 1] == x);
            a_piece_of_the_fold_stands_in_its_text(f, p, x);
        }
    }
}

} // verus!
