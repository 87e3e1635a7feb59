//! One question, one box: runs of same-scope boxes separated by a short agreed
//! gap become one, with the gap in both claims.

use vstd::prelude::*;
use vstd::slice::slice_subrange;
use crate::conflict::{
    append_lines, collision_of, or_empty, punctuation, refusal_body, refusal_line_of, refusal_text,
    skip_punctuation, teaches, EntityConflictView, MarkerFormat, MarkerFormatView,
};
use crate::frame::{
    bars, claim_zone, closes, furniture, kept, next_zone, opens, resolution_of, separates,
    zone_before, Resolution, Zone,
};
use crate::readback::{refusal_reads_back, tidy_prefix};
use crate::text::{
    chars_of, chomped, chomped_lines, copy_of, find, find_char, find_char_bounds, find_from,
    line_at, lines, lines_from, lines_hold_no_line_feed, lines_of_two, push_lines, push_text,
    repeat, repeated, same, skip_white, skip_white_bounds, split_lines, stands_at, starts,
    string_of, texts, trim_start, unbroken, unbroken_lines, unlines, white, without_feeds,
    written_lines_read_back,
};

verus! {

broadcast use vstd::string::group_string_axioms;

/// How much agreed text may sit between two boxes of the same scope before they
/// are two questions rather than one.
pub const MAX_INTERSTITIAL_LINES: usize = 6;

/// One conflict box, as it appears in a rendered file.
pub struct RenderedBox {
    pub open: Vec<char>,
    /// The `refused_by:` line: marker furniture, not either side's claim.
    pub refusal: Option<Vec<char>>,
    pub ours: Vec<Vec<char>>,
    pub base: Option<Vec<Vec<char>>>,
    pub theirs: Vec<Vec<char>>,
    pub close: Vec<char>,
    /// What this box is about.
    pub scope: Vec<char>,
}

/// A [`RenderedBox`] with its lines read as texts.
pub struct BoxView {
    pub open: Seq<char>,
    pub refusal: Option<Seq<char>>,
    pub ours: Seq<Seq<char>>,
    pub base: Option<Seq<Seq<char>>>,
    pub theirs: Seq<Seq<char>>,
    pub close: Seq<char>,
    pub scope: Seq<char>,
}

impl View for RenderedBox {
    type V = BoxView;

    open spec fn view(&self) -> BoxView {
        BoxView {
            open: self.open@,
            refusal: crate::binding::opt_text(self.refusal),
            ours: texts(self.ours@),
            base: match self.base {
                Some(b) => Some(texts(b@)),
                None => None,
            },
            theirs: texts(self.theirs@),
            close: self.close@,
            scope: self.scope@,
        }
    }
}

/// A rendered file, read as the alternation it is.
pub enum Piece {
    Frame(Vec<Vec<char>>),
    Box(RenderedBox),
}

/// A [`Piece`] with its lines read as texts.
pub enum PieceView {
    Frame(Seq<Seq<char>>),
    Box(BoxView),
}

impl View for Piece {
    type V = PieceView;

    open spec fn view(&self) -> PieceView {
        match *self {
            Piece::Frame(ls) => PieceView::Frame(texts(ls@)),
            Piece::Box(b) => PieceView::Box(b@),
        }
    }
}

/// The views of a list of pieces.
pub open spec fn piece_views(v: Seq<Piece>) -> Seq<PieceView> {
    v.map_values(|p: Piece| p@)
}

// ---------------------------------------------------------------------------
// Reading
// ---------------------------------------------------------------------------

/// The four markers of a format.
pub struct Marks {
    pub open: Seq<char>,
    pub base: Seq<char>,
    pub sep: Seq<char>,
    pub close: Seq<char>,
}

/// The markers with `n` characters.
pub open spec fn marks(n: nat) -> Marks {
    Marks {
        open: repeat('<', n),
        base: repeat('|', n),
        sep: repeat('=', n),
        close: repeat('>', n),
    }
}

/// Which markers end a section of a box.
#[derive(Clone, Copy, PartialEq, Eq, Structural)]
pub enum Section {
    /// Our claim: any marker ends it.
    Ours,
    /// The base section: any marker but its own ends it.
    Base,
    /// Their claim: an opening or a closing marker ends it.
    Theirs,
}

impl Marks {
    /// The line ends the section.
    pub open spec fn stops(self, section: Section, line: Seq<char>) -> bool {
        ||| starts(line, self.close)
        ||| starts(line, self.open)
        ||| (section != Section::Theirs && starts(line, self.sep))
        ||| (section == Section::Ours && starts(line, self.base))
    }

    /// The first line at or after `i` that ends the section, or the number of
    /// lines.
    pub open spec fn stop_at(self, section: Section, ls: Seq<Seq<char>>, i: int) -> int
        decreases ls.len() - i,
    {
        if i < 0 || i >= ls.len() {
            ls.len() as int
        } else if self.stops(section, ls[i]) {
            i
        } else {
            self.stop_at(section, ls, i + 1)
        }
    }

    pub proof fn stop_at_bounds(self, section: Section, ls: Seq<Seq<char>>, i: int)
        requires
            0 <= i <= ls.len(),
        ensures
            i <= self.stop_at(section, ls, i) <= ls.len(),
            forall|k: int|
                i <= k < self.stop_at(section, ls, i) ==> !self.stops(section, #[trigger] ls[k]),
        decreases ls.len() - i,
    {
        if i < ls.len() && !self.stops(section, ls[i]) {
            self.stop_at_bounds(section, ls, i + 1);
        }
    }

    /// Where our claim starts in the box that opens at line `i`: behind the
    /// refusal line, where there is one.
    pub open spec fn ours_at(self, ls: Seq<Seq<char>>, i: int) -> int {
        if i + 1 < ls.len() && refusal_text(ls[i + 1]) is Some {
            i + 2
        } else {
            i + 1
        }
    }

    /// Where our claim ends.
    pub open spec fn ours_end(self, ls: Seq<Seq<char>>, i: int) -> int {
        self.stop_at(Section::Ours, ls, self.ours_at(ls, i))
    }

    /// The box has a base section.
    pub open spec fn has_base(self, ls: Seq<Seq<char>>, i: int) -> bool {
        let e = self.ours_end(ls, i);
        e < ls.len() && starts(ls[e], self.base)
    }

    /// Where the separator of the two claims is to stand.
    pub open spec fn sep_at(self, ls: Seq<Seq<char>>, i: int) -> int {
        let e = self.ours_end(ls, i);
        if self.has_base(ls, i) {
            self.stop_at(Section::Base, ls, e + 1)
        } else {
            e
        }
    }

    /// Where the box is to close.
    pub open spec fn close_at(self, ls: Seq<Seq<char>>, i: int) -> int {
        self.stop_at(Section::Theirs, ls, self.sep_at(ls, i) + 1)
    }

    /// The lines from the `i`th on are a well-formed box.
    pub open spec fn boxed(self, ls: Seq<Seq<char>>, i: int) -> bool {
        let s = self.sep_at(ls, i);
        let c = self.close_at(ls, i);
        s < ls.len() && starts(ls[s], self.sep) && c < ls.len() && starts(ls[c], self.close)
    }

    /// The box that opens at line `i`.
    pub open spec fn box_at(self, ls: Seq<Seq<char>>, i: int) -> BoxView {
        let e = self.ours_end(ls, i);
        let s = self.sep_at(ls, i);
        let c = self.close_at(ls, i);
        BoxView {
            open: ls[i],
            refusal: if self.ours_at(ls, i) == i + 2 {
                Some(ls[i + 1])
            } else {
                None
            },
            ours: ls.subrange(self.ours_at(ls, i), e),
            base: if self.has_base(ls, i) {
                Some(ls.subrange(e + 1, s))
            } else {
                None
            },
            theirs: ls.subrange(s + 1, c),
            close: ls[c],
            scope: scope_of(ls[i]),
        }
    }

    pub proof fn box_bounds(self, ls: Seq<Seq<char>>, i: int)
        requires
            0 <= i < ls.len(),
        ensures
            i < self.ours_at(ls, i) <= self.ours_end(ls, i) <= self.sep_at(ls, i) <= ls.len(),
            self.sep_at(ls, i) < ls.len() ==> self.sep_at(ls, i) < self.close_at(ls, i)
                <= ls.len(),
            self.has_base(ls, i) ==> self.ours_end(ls, i) < self.sep_at(ls, i),
    {
        self.stop_at_bounds(Section::Ours, ls, self.ours_at(ls, i));
        let e = self.ours_end(ls, i);
        if self.has_base(ls, i) {
            self.stop_at_bounds(Section::Base, ls, e + 1);
        }
        let s = self.sep_at(ls, i);
        if s < ls.len() {
            self.stop_at_bounds(Section::Theirs, ls, s + 1);
        }
    }

    /// The lines from the `i`th on as frames and boxes, with the lines of
    /// `frame` in front, or `None` where a marker opens no well-formed box.
    pub open spec fn read(self, ls: Seq<Seq<char>>, i: int, frame: Seq<Seq<char>>) -> Option<
        Seq<PieceView>,
    >
        decreases ls.len() - i,
        via Self::read_decreases
    {
        if i < 0 || i >= ls.len() {
            Some(seq![PieceView::Frame(frame)])
        } else if !starts(ls[i], self.open) {
            self.read(ls, i + 1, frame.push(ls[i]))
        } else if !self.boxed(ls, i) {
            None
        } else {
            match self.read(ls, self.close_at(ls, i) + 1, Seq::empty()) {
                Some(rest) => Some(
                    seq![PieceView::Frame(frame), PieceView::Box(self.box_at(ls, i))] + rest,
                ),
                None => None,
            }
        }
    }

    #[via_fn]
    proof fn read_decreases(self, ls: Seq<Seq<char>>, i: int, frame: Seq<Seq<char>>) {
        if 0 <= i < ls.len() {
            self.box_bounds(ls, i);
        }
    }
}

/// What a box is about: what stands behind the dash of its opening line, or the
/// whole line.
pub open spec fn scope_of(open: Seq<char>) -> Seq<char> {
    match find(open, " — "@, 0) {
        Some(k) => open.subrange(k + " — "@.len(), open.len() as int),
        None => open,
    }
}

/// The pieces of a file. A marker line that opens no well-formed box leaves the
/// whole file one frame.
pub open spec fn pieces_of(content: Seq<char>, n: nat) -> Seq<PieceView> {
    match marks(n).read(lines(content), 0, Seq::empty()) {
        Some(ps) => ps,
        None => seq![PieceView::Frame(lines(content))],
    }
}

// ---------------------------------------------------------------------------
// Folding
// ---------------------------------------------------------------------------

/// The two boxes about one thing, with the gap between them in both claims.
pub open spec fn merged(prev: BoxView, gap: Seq<Seq<char>>, next: BoxView) -> BoxView {
    BoxView {
        open: prev.open,
        refusal: prev.refusal,
        ours: prev.ours + gap + next.ours,
        base: match (prev.base, next.base) {
            (Some(a), Some(b)) => Some(a + gap + b),
            (Some(a), None) => Some(a),
            (None, b) => b,
        },
        theirs: prev.theirs + gap + next.theirs,
        close: next.close,
        scope: prev.scope,
    }
}

/// The pieces end with a box and a short gap, and the next piece is a box about
/// the same thing.
pub open spec fn mergeable(out: Seq<PieceView>, next: PieceView) -> bool {
    let n = out.len();
    &&& n >= 2
    &&& next is Box
    &&& out[n - 2] is Box
    &&& out[n - 1] is Frame
    &&& (out[n - 2]->Box_0).scope == (next->Box_0).scope
    &&& (out[n - 1]->Frame_0).len() <= MAX_INTERSTITIAL_LINES
}

/// The pieces with one more.
pub open spec fn absorbed(out: Seq<PieceView>, next: PieceView) -> Seq<PieceView> {
    let n = out.len();
    if mergeable(out, next) {
        out.take(n - 2).push(
            PieceView::Box(merged(out[n - 2]->Box_0, out[n - 1]->Frame_0, next->Box_0)),
        )
    } else {
        out.push(next)
    }
}

/// The first `k` pieces, folded.
pub open spec fn folded(ps: Seq<PieceView>, k: int) -> Seq<PieceView>
    decreases k,
{
    if k <= 0 {
        Seq::empty()
    } else {
        absorbed(folded(ps, k - 1), ps[k - 1])
    }
}

/// How many of the first `k` pieces are boxes.
pub open spec fn box_count(ps: Seq<PieceView>, k: int) -> nat
    decreases k,
{
    if k <= 0 {
        0
    } else {
        box_count(ps, k - 1) + if ps[k - 1] is Box {
            1nat
        } else {
            0nat
        }
    }
}

/// The lines of a box as it is written.
pub open spec fn box_lines(b: BoxView, n: nat) -> Seq<Seq<char>> {
    seq![b.open] + (match b.refusal {
        Some(r) => seq![r],
        None => Seq::empty(),
    }) + b.ours + (match b.base {
        Some(base) => seq![repeat('|', n) + " base"@] + base,
        None => Seq::empty(),
    }) + seq![repeat('=', n)] + b.theirs + seq![b.close]
}

/// The lines of a piece as it is written.
pub open spec fn piece_lines(p: PieceView, n: nat) -> Seq<Seq<char>> {
    match p {
        PieceView::Frame(ls) => ls,
        PieceView::Box(b) => box_lines(b, n),
    }
}

/// The lines of the first `k` pieces.
pub open spec fn written(ps: Seq<PieceView>, n: nat, k: int) -> Seq<Seq<char>>
    decreases k,
{
    if k <= 0 {
        Seq::empty()
    } else {
        written(ps, n, k - 1) + piece_lines(ps[k - 1], n)
    }
}

/// The file with its runs of same-scope boxes folded.
pub open spec fn coalesced(content: Seq<char>, n: nat) -> Seq<char> {
    let ps = pieces_of(content, n);
    let fs = folded(ps, ps.len() as int);
    let text = unlines(written(fs, n, fs.len() as int));
    if box_count(ps, ps.len() as int) < 2 {
        content
    } else if content.len() > 0 && content.last() == '\n' {
        text
    } else {
        without_feeds(text)
    }
}

// ---------------------------------------------------------------------------
// The code
// ---------------------------------------------------------------------------

struct MarkSet {
    open: Vec<char>,
    base: Vec<char>,
    sep: Vec<char>,
    close: Vec<char>,
}

impl MarkSet {
    spec fn marks(self) -> Marks {
        Marks { open: self.open@, base: self.base@, sep: self.sep@, close: self.close@ }
    }

    fn does_stop(&self, section: Section, line: &[char]) -> (r: bool)
        ensures
            r == self.marks().stops(section, line@),
    {
        stands_at(line, self.close.as_slice(), 0) || stands_at(line, self.open.as_slice(), 0) || (
        section != Section::Theirs && stands_at(line, self.sep.as_slice(), 0)) || (section
            == Section::Ours && stands_at(line, self.base.as_slice(), 0))
    }

    fn take(&self, section: Section, ls: &Vec<Vec<char>>, i: usize) -> (r: (Vec<Vec<char>>, usize))
        requires
            i <= ls@.len(),
        ensures
            r.1 == self.marks().stop_at(section, texts(ls@), i as int),
            i <= r.1 <= ls@.len(),
            texts(r.0@) == texts(ls@).subrange(i as int, r.1 as int),
    {
        let ghost all = texts(ls@);
        let mut out: Vec<Vec<char>> = Vec::new();
        let mut k: usize = i;
        while k < ls.len() && !self.does_stop(section, ls[k].as_slice())
            invariant
                i <= k <= ls@.len(),
                all == texts(ls@),
                forall|m: int| 0 <= m < ls@.len() ==> (#[trigger] ls@[m])@ == all[m],
                self.marks().stop_at(section, all, k as int) == self.marks().stop_at(
                    section,
                    all,
                    i as int,
                ),
                texts(out@) == all.subrange(i as int, k as int),
            decreases ls@.len() - k,
        {
            let ghost held = texts(out@);
            let line = copy_of(ls[k].as_slice());
            out.push(line);
            k = k + 1;
            proof {
                assert(texts(out@) =~= held.push(line@));
                assert(all.subrange(i as int, k as int) =~= all.subrange(i as int, k - 1).push(
                    all[k - 1],
                ));
            }
        }
        (out, k)
    }
}

fn mark_set(n: usize) -> (r: MarkSet)
    ensures
        r.marks() == marks(n as nat),
{
    MarkSet {
        open: repeated('<', n),
        base: repeated('|', n),
        sep: repeated('=', n),
        close: repeated('>', n),
    }
}

fn scope_text(open: &[char]) -> (r: Vec<char>)
    ensures
        r@ == scope_of(open@),
{
    let dash = chars_of(" — ");
    let n: usize = open.len();
    match find_from(open, dash.as_slice(), 0) {
        Some(k) => copy_of(slice_subrange(open, k + dash.len(), n)),
        None => copy_of(open),
    }
}

fn read_box(m: &MarkSet, ls: &Vec<Vec<char>>, i: usize) -> (r: Option<(RenderedBox, usize)>)
    requires
        i < ls@.len(),
    ensures
        match r {
            Some((b, next)) => m.marks().boxed(texts(ls@), i as int) && b@ == m.marks().box_at(
                texts(ls@),
                i as int,
            ) && next == m.marks().close_at(texts(ls@), i as int) + 1 && i < next <= ls@.len(),
            None => !m.marks().boxed(texts(ls@), i as int),
        },
{
    let ghost all = texts(ls@);
    let ghost mm = m.marks();
    proof {
        mm.box_bounds(all, i as int);
        assert(all[i as int] == ls@[i as int]@);
        if i + 1 < ls@.len() {
            assert(all[i + 1] == ls@[i + 1]@);
        }
    }
    let n: usize = ls.len();
    let open = copy_of(ls[i].as_slice());
    let scope = scope_text(open.as_slice());
    let mut k: usize = i + 1;
    let mut refusal: Option<Vec<char>> = None;
    if k < n && refusal_body(ls[k].as_slice()).is_some() {
        refusal = Some(copy_of(ls[k].as_slice()));
        k = k + 1;
    }
    let (ours, e) = m.take(Section::Ours, ls, k);
    let mut s: usize = e;
    let mut base: Option<Vec<Vec<char>>> = None;
    proof {
        if e < ls@.len() {
            assert(all[e as int] == ls@[e as int]@);
        }
    }
    if e < ls.len() && stands_at(ls[e].as_slice(), m.base.as_slice(), 0) {
        let (b, after) = m.take(Section::Base, ls, e + 1);
        base = Some(b);
        s = after;
    }
    proof {
        if s < ls@.len() {
            assert(all[s as int] == ls@[s as int]@);
        }
    }
    if s >= ls.len() || !stands_at(ls[s].as_slice(), m.sep.as_slice(), 0) {
        return None;
    }
    let (theirs, c) = m.take(Section::Theirs, ls, s + 1);
    proof {
        if c < ls@.len() {
            assert(all[c as int] == ls@[c as int]@);
        }
    }
    if c >= ls.len() || !stands_at(ls[c].as_slice(), m.close.as_slice(), 0) {
        return None;
    }
    let close = copy_of(ls[c].as_slice());
    Some((RenderedBox { open, refusal, ours, base, theirs, close, scope }, c + 1))
}

/// Read a rendered file as the alternation of frame and boxes that it is.
pub fn read_pieces(content: &str, fmt: &MarkerFormat) -> (r: Vec<Piece>)
    ensures
        piece_views(r@) == pieces_of(content@, fmt@.marker_length),
{
    let ls = split_lines(chars_of(content).as_slice());
    let m = mark_set(fmt.marker_length);
    let ghost all = lines(content@);
    let ghost mm = marks(fmt@.marker_length);
    let ghost whole = mm.read(all, 0, Seq::empty());
    let mut pieces: Vec<Piece> = Vec::new();
    let mut frame: Vec<Vec<char>> = Vec::new();
    let mut i: usize = 0;
    proof {
        assert(texts(frame@) =~= Seq::empty());
        assert(piece_views(pieces@) =~= Seq::empty());
        if whole is Some {
            assert(piece_views(pieces@) + whole->0 =~= whole->0);
        }
    }
    while i < ls.len()
        invariant
            i <= ls@.len(),
            texts(ls@) == all,
            all == lines(content@),
            mm == marks(fmt@.marker_length),
            m.marks() == mm,
            whole == mm.read(all, 0, Seq::empty()),
            match mm.read(all, i as int, texts(frame@)) {
                Some(rest) => whole == Some(piece_views(pieces@) + rest),
                None => whole is None,
            },
        decreases ls@.len() - i,
    {
        proof {
            assert(all[i as int] == ls@[i as int]@);
        }
        if !stands_at(ls[i].as_slice(), m.open.as_slice(), 0) {
            let ghost held = texts(frame@);
            let line = copy_of(ls[i].as_slice());
            frame.push(line);
            proof {
                assert(texts(frame@) =~= held.push(line@));
            }
            i = i + 1;
            continue ;
        }
        match read_box(&m, &ls, i) {
            Some((b, next)) => {
                let ghost held = piece_views(pieces@);
                let ghost fv = texts(frame@);
                let ghost bv = b@;
                pieces.push(Piece::Frame(frame));
                frame = Vec::new();
                pieces.push(Piece::Box(b));
                proof {
                    assert(texts(frame@) =~= Seq::empty());
                    let two = seq![PieceView::Frame(fv), PieceView::Box(bv)];
                    assert(piece_views(pieces@) =~= held + two);
                    match mm.read(all, next as int, Seq::empty()) {
                        Some(rest) => {
                            assert(held + (two + rest) =~= (held + two) + rest);
                        },
                        None => {},
                    }
                }
                i = next;
            },
            None => {
                let mut one: Vec<Piece> = Vec::new();
                one.push(Piece::Frame(ls));
                proof {
                    assert(piece_views(one@) =~= seq![PieceView::Frame(all)]);
                }
                return one;
            },
        }
    }
    let ghost held = piece_views(pieces@);
    let ghost fv = texts(frame@);
    pieces.push(Piece::Frame(frame));
    proof {
        assert(piece_views(pieces@) =~= held + seq![PieceView::Frame(fv)]);
    }
    pieces
}

fn merge_boxes(prev: RenderedBox, gap: Vec<Vec<char>>, next: RenderedBox) -> (r: RenderedBox)
    ensures
        r@ == merged(prev@, texts(gap@), next@),
{
    let mut prev = prev;
    let ghost pv = prev@;
    let ghost gv = texts(gap@);
    let g1 = copy_all(&gap);
    append_lines(&mut prev.ours, g1);
    append_lines(&mut prev.ours, next.ours);
    let g2 = copy_all(&gap);
    append_lines(&mut prev.theirs, g2);
    append_lines(&mut prev.theirs, next.theirs);
    let base = match (prev.base, next.base) {
        (Some(b1), Some(b2)) => {
            let mut b = b1;
            append_lines(&mut b, gap);
            append_lines(&mut b, b2);
            Some(b)
        },
        (Some(b1), None) => Some(b1),
        (None, b2) => b2,
    };
    RenderedBox {
        open: prev.open,
        refusal: prev.refusal,
        ours: prev.ours,
        base,
        theirs: prev.theirs,
        close: next.close,
        scope: prev.scope,
    }
}

fn copy_all(v: &Vec<Vec<char>>) -> (r: Vec<Vec<char>>)
    ensures
        texts(r@) == texts(v@),
{
    let mut out: Vec<Vec<char>> = Vec::new();
    let mut i: usize = 0;
    while i < v.len()
        invariant
            i <= v@.len(),
            texts(out@) == texts(v@).take(i as int),
        decreases v@.len() - i,
    {
        let ghost held = texts(out@);
        let line = copy_of(v[i].as_slice());
        out.push(line);
        i = i + 1;
        proof {
            assert(texts(out@) =~= held.push(line@));
            assert(texts(v@).take(i as int) =~= texts(v@).take(i - 1).push(v@[i - 1]@));
        }
    }
    proof {
        assert(texts(v@).take(v@.len() as int) =~= texts(v@));
    }
    out
}

fn is_mergeable(out: &Vec<Piece>, next: &Piece) -> (r: bool)
    ensures
        r == mergeable(piece_views(out@), next@),
{
    let n: usize = out.len();
    if n < 2 {
        return false;
    }
    proof {
        assert(piece_views(out@)[n - 2] == out@[n - 2]@);
        assert(piece_views(out@)[n - 1] == out@[n - 1]@);
    }
    match (&out[n - 2], &out[n - 1], next) {
        (Piece::Box(prev), Piece::Frame(gap), Piece::Box(b)) => same(
            prev.scope.as_slice(),
            b.scope.as_slice(),
        ) && gap.len() <= MAX_INTERSTITIAL_LINES,
        _ => false,
    }
}

fn absorb(out: &mut Vec<Piece>, next: Piece)
    ensures
        piece_views(final(out)@) == absorbed(piece_views(old(out)@), next@),
{
    let ghost before = piece_views(out@);
    if !is_mergeable(out, &next) {
        let ghost nv = next@;
        out.push(next);
        proof {
            assert(piece_views(out@) =~= before.push(nv));
        }
        return ;
    }
    let ghost n = out@.len();
    proof {
        assert(before[n - 2] == out@[n - 2]@);
        assert(before[n - 1] == out@[n - 1]@);
    }
    let frame = out.pop();
    let prev = out.pop();
    match (prev, frame, next) {
        (Some(Piece::Box(p)), Some(Piece::Frame(gap)), Piece::Box(b)) => {
            let one = Piece::Box(merge_boxes(p, gap, b));
            let ghost ov = one@;
            out.push(one);
            proof {
                assert(piece_views(out@) =~= before.take(n - 2).push(ov));
            }
        },
        _ => {},
    }
}

fn push_box_lines(out: &mut Vec<Vec<char>>, b: &RenderedBox, n: usize)
    ensures
        texts(final(out)@) == texts(old(out)@) + box_lines(b@, n as nat),
{
    let ghost before = texts(out@);
    out.push(copy_of(b.open.as_slice()));
    match &b.refusal {
        Some(r) => {
            out.push(copy_of(r.as_slice()));
        },
        None => {},
    }
    let ghost l1 = texts(out@);
    proof {
        let head = seq![b@.open] + (match b@.refusal {
            Some(r) => seq![r],
            None => Seq::empty(),
        });
        assert(l1 =~= before + head);
    }
    let o = copy_all(&b.ours);
    append_lines(out, o);
    let ghost l2 = texts(out@);
    match &b.base {
        Some(base) => {
            let mut bar = repeated('|', n);
            push_text(&mut bar, " base");
            let ghost bv = bar@;
            out.push(bar);
            let ghost l3 = texts(out@);
            proof {
                assert(l3 =~= l2 + seq![bv]);
            }
            let c = copy_all(base);
            append_lines(out, c);
            proof {
                assert(texts(out@) =~= l2 + (seq![repeat('|', n as nat) + " base"@] + texts(
                    base@,
                )));
            }
        },
        None => {
            proof {
                assert(texts(out@) =~= l2 + Seq::<Seq<char>>::empty());
            }
        },
    }
    let ghost l4 = texts(out@);
    out.push(repeated('=', n));
    let ghost l5 = texts(out@);
    proof {
        assert(l5 =~= l4 + seq![repeat('=', n as nat)]);
    }
    let t = copy_all(&b.theirs);
    append_lines(out, t);
    let ghost l6 = texts(out@);
    out.push(copy_of(b.close.as_slice()));
    proof {
        assert(texts(out@) =~= l6 + seq![b@.close]);
        assert(texts(out@) =~= before + box_lines(b@, n as nat));
    }
}

/// Fold runs of same-scope boxes separated by a short agreed gap into one box.
///
/// The gap is duplicated into both halves, so under either standard resolution
/// the output is what it was before.
pub fn coalesce_adjacent_boxes(content: &str, fmt: &MarkerFormat) -> (r: String)
    ensures
        r@ == coalesced(content@, fmt@.marker_length),
{
    let pieces = read_pieces(content, fmt);
    let ghost ps = pieces_of(content@, fmt@.marker_length);
    let n: usize = fmt.marker_length;
    let mut boxes: usize = 0;
    let mut i: usize = 0;
    while i < pieces.len()
        invariant
            i <= pieces@.len(),
            piece_views(pieces@) == ps,
            boxes <= i,
            boxes == box_count(ps, i as int),
        decreases pieces@.len() - i,
    {
        proof {
            assert(ps[i as int] == pieces@[i as int]@);
        }
        match &pieces[i] {
            Piece::Box(_) => {
                boxes = boxes + 1;
            },
            Piece::Frame(_) => {},
        }
        i = i + 1;
    }
    let c = chars_of(content);
    if boxes < 2 {
        return string_of(c.as_slice());
    }
    let trailing_newline = c.len() > 0 && c[c.len() - 1] == '\n';
    let mut out: Vec<Piece> = Vec::new();
    proof {
        assert(piece_views(out@) =~= folded(ps, 0));
    }
    for piece in it: pieces
        invariant
            it.seq() == pieces@,
            piece_views(pieces@) == ps,
            piece_views(out@) == folded(ps, it.index() as int),
    {
        proof {
            assert(ps[it.index() as int] == piece@);
        }
        absorb(&mut out, piece);
    }
    let ghost fs = folded(ps, ps.len() as int);
    let mut all: Vec<Vec<char>> = Vec::new();
    let mut k: usize = 0;
    proof {
        assert(texts(all@) =~= written(fs, n as nat, 0));
    }
    while k < out.len()
        invariant
            k <= out@.len(),
            piece_views(out@) == fs,
            texts(all@) == written(fs, n as nat, k as int),
        decreases out@.len() - k,
    {
        proof {
            assert(fs[k as int] == out@[k as int]@);
        }
        match &out[k] {
            Piece::Frame(ls) => {
                let copy = copy_all(ls);
                append_lines(&mut all, copy);
            },
            Piece::Box(b) => {
                push_box_lines(&mut all, b, n);
            },
        }
        k = k + 1;
    }
    let mut s: Vec<char> = Vec::new();
    push_lines(&mut s, all.as_slice());
    let ghost text = unlines(written(fs, n as nat, fs.len() as int));
    proof {
        assert(s@ =~= text);
    }
    if !trailing_newline {
        while s.len() > 0 && s[s.len() - 1] == '\n'
            invariant
                without_feeds(s@) == without_feeds(text),
            decreases s@.len(),
        {
            s.pop();
        }
    }
    string_of(s.as_slice())
}

// ---------------------------------------------------------------------------
// Coalescing changes no resolution
// ---------------------------------------------------------------------------

/// The zone behind the lines, from the zone in front of them.
pub open spec fn zone_run(ls: Seq<Seq<char>>, z: Zone) -> Zone
    decreases ls.len(),
{
    if ls.len() == 0 {
        z
    } else {
        next_zone(zone_run(ls.drop_last(), z), ls.last())
    }
}

/// Which of the lines are kept, from the zone in front of them.
pub open spec fn keep_run(ls: Seq<Seq<char>>, z: Zone, keep: Zone) -> Seq<Seq<char>>
    decreases ls.len(),
{
    if ls.len() == 0 {
        Seq::empty()
    } else {
        let here = zone_run(ls.drop_last(), z);
        let front = keep_run(ls.drop_last(), z, keep);
        if !furniture(here, ls.last()) && (here == Zone::Frame || here == keep) {
            front.push(ls.last())
        } else {
            front
        }
    }
}

proof fn run_of_two(a: Seq<Seq<char>>, b: Seq<Seq<char>>, z: Zone, keep: Zone)
    ensures
        zone_run(a + b, z) == zone_run(b, zone_run(a, z)),
        keep_run(a + b, z, keep) == keep_run(a, z, keep) + keep_run(b, zone_run(a, z), keep),
    decreases b.len(),
{
    if b.len() == 0 {
        assert(a + b =~= a);
        assert(keep_run(a, z, keep) + keep_run(b, zone_run(a, z), keep) =~= keep_run(a, z, keep));
    } else {
        assert((a + b).drop_last() =~= a + b.drop_last());
        run_of_two(a, b.drop_last(), z, keep);
        assert(keep_run(a + b, z, keep) =~= keep_run(a, z, keep) + keep_run(
            b,
            zone_run(a, z),
            keep,
        ));
    }
}

proof fn run_of_one(x: Seq<char>, z: Zone, keep: Zone)
    ensures
        zone_run(seq![x], z) == next_zone(z, x),
        keep_run(seq![x], z, keep) == if !furniture(z, x) && (z == Zone::Frame || z == keep) {
            seq![x]
        } else {
            Seq::empty()
        },
{
    let one = seq![x];
    assert(one.drop_last() =~= Seq::empty());
    assert(one.last() == x);
    assert(zone_run(one.drop_last(), z) == z);
    assert(keep_run(one.drop_last(), z, keep) =~= Seq::empty());
    assert(keep_run(one, z, keep) =~= if !furniture(z, x) && (z == Zone::Frame || z == keep) {
        seq![x]
    } else {
        Seq::empty()
    });
}

proof fn kept_is_a_run(ls: Seq<Seq<char>>, keep: Zone, k: int)
    requires
        0 <= k <= ls.len(),
    ensures
        zone_before(ls, k) == zone_run(ls.take(k), Zone::Frame),
        kept(ls, keep, k) == keep_run(ls.take(k), Zone::Frame, keep),
    decreases k,
{
    if k > 0 {
        kept_is_a_run(ls, keep, k - 1);
        assert(ls.take(k).drop_last() =~= ls.take(k - 1));
        assert(ls.take(k).last() == ls[k - 1]);
    }
}

/// The line opens, divides or closes a box, wherever it stands.
pub open spec fn any_mark(line: Seq<char>) -> bool {
    opens(line) || bars(line) || separates(line) || closes(line)
}

/// The line says the same in the frame and inside a claim.
pub open spec fn ordinary(line: Seq<char>) -> bool {
    !any_mark(line) && refusal_text(line) is None
}

/// The box's refusal line, where it has one, is no marker too.
pub open spec fn refusal_is_no_mark(b: BoxView) -> bool {
    b.refusal is Some ==> !any_mark(b.refusal->0)
}

/// Where the next piece is merged with the last two, the gap says the same in the
/// frame and inside a claim, the refusal lines are no markers too, and the first
/// box's second claim holds no line that starts a base section.
pub open spec fn merges_cleanly(out: Seq<PieceView>, next: PieceView) -> bool {
    let n = out.len();
    let prev = out[n - 2]->Box_0;
    let gap = out[n - 1]->Frame_0;
    mergeable(out, next) ==> {
        &&& forall|i: int| 0 <= i < gap.len() ==> ordinary(#[trigger] gap[i])
        &&& forall|i: int| 0 <= i < prev.theirs.len() ==> !bars(#[trigger] prev.theirs[i])
        &&& refusal_is_no_mark(prev)
        &&& refusal_is_no_mark(next->Box_0)
    }
}

/// What coalescing needs to know of a file: no box's refusal line closes a box, and
/// every merge is a clean one.
pub open spec fn coalesces_cleanly(content: Seq<char>, n: nat) -> bool {
    let ps = pieces_of(content, n);
    &&& forall|k: int|
        0 <= k < ps.len() && (#[trigger] ps[k]) is Box && (ps[k]->Box_0).refusal is Some
            ==> !closes((ps[k]->Box_0).refusal->0)
    &&& forall|k: int| 0 <= k < ps.len() ==> merges_cleanly(folded(ps, k), #[trigger] ps[k])
}

/// What every piece of a file is: lines, and markers only where they belong.
spec fn sound(p: PieceView) -> bool {
    match p {
        PieceView::Frame(ls) => unbroken_lines(ls) && forall|i: int|
            0 <= i < ls.len() ==> !opens(#[trigger] ls[i]),
        PieceView::Box(b) => sound_box(b),
    }
}

spec fn sound_box(b: BoxView) -> bool {
    &&& opens(b.open)
    &&& closes(b.close)
    &&& unbroken(b.open)
    &&& unbroken(b.close)
    &&& b.refusal is Some ==> unbroken(b.refusal->0) && refusal_text(b.refusal->0) is Some
        && !closes(b.refusal->0)
    &&& unbroken_lines(b.ours)
    &&& unbroken_lines(b.theirs)
    &&& forall|i: int| 0 <= i < b.ours.len() ==> !any_mark(#[trigger] b.ours[i])
    &&& forall|i: int|
        0 <= i < b.theirs.len() ==> !opens(#[trigger] b.theirs[i]) && !closes(b.theirs[i])
    &&& b.base is Some ==> unbroken_lines(b.base->0)
    &&& b.base is Some ==> forall|i: int|
        0 <= i < (b.base->0).len() ==> !opens(#[trigger] (b.base->0)[i]) && !closes(
            (b.base->0)[i],
        ) && !separates((b.base->0)[i])
}

proof fn seven_marks()
    ensures
        marks(7).open == "<<<<<<<"@,
        marks(7).base == "|||||||"@,
        marks(7).sep == "======="@,
        marks(7).close == ">>>>>>>"@,
        repeat('=', 7) == "======="@,
        repeat('|', 7) == "|||||||"@,
        separates(repeat('=', 7)),
        bars(repeat('|', 7) + " base"@),
        !opens(repeat('=', 7)) && !bars(repeat('=', 7)) && !closes(repeat('=', 7)),
        !opens(repeat('|', 7) + " base"@),
        unbroken(repeat('=', 7)),
        unbroken(repeat('|', 7) + " base"@),
{
    reveal_strlit("<<<<<<<");
    reveal_strlit("|||||||");
    reveal_strlit("=======");
    reveal_strlit(">>>>>>>");
    reveal_strlit(" base");
    assert(marks(7).open =~= "<<<<<<<"@);
    assert(marks(7).base =~= "|||||||"@);
    assert(marks(7).sep =~= "======="@);
    assert(marks(7).close =~= ">>>>>>>"@);
    let eq = repeat('=', 7);
    let bar = repeat('|', 7) + " base"@;
    assert(eq.subrange(0, 7) =~= "======="@);
    assert(bar.subrange(0, 7) =~= "|||||||"@);
    assert(eq.subrange(0, 7)[0] == '=');
    assert("<<<<<<<"@[0] == '<');
    assert(">>>>>>>"@[0] == '>');
    assert("|||||||"@[0] == '|');
    assert(bar.subrange(0, 7)[0] == '|');
}

/// Lines without marks leave the zone alone.
proof fn unmarked_lines_stay(ls: Seq<Seq<char>>, z: Zone)
    requires
        forall|i: int| 0 <= i < ls.len() ==> !any_mark(#[trigger] ls[i]),
    ensures
        zone_run(ls, z) == z,
    decreases ls.len(),
{
    if ls.len() > 0 {
        let front = ls.drop_last();
        assert forall|i: int| 0 <= i < front.len() implies !any_mark(#[trigger] front[i]) by {
            assert(front[i] == ls[i]);
        }
        unmarked_lines_stay(front, z);
        assert(!any_mark(ls[ls.len() - 1]));
    }
}

/// Frame lines stay in the frame.
proof fn frame_lines_stay(ls: Seq<Seq<char>>)
    requires
        forall|i: int| 0 <= i < ls.len() ==> !opens(#[trigger] ls[i]),
    ensures
        zone_run(ls, Zone::Frame) == Zone::Frame,
    decreases ls.len(),
{
    if ls.len() > 0 {
        let front = ls.drop_last();
        assert forall|i: int| 0 <= i < front.len() implies !opens(#[trigger] front[i]) by {
            assert(front[i] == ls[i]);
        }
        frame_lines_stay(front);
        assert(!opens(ls[ls.len() - 1]));
    }
}

/// A base section stays a base section, and nothing of it is kept.
proof fn base_lines_stay(ls: Seq<Seq<char>>, keep: Zone)
    requires
        keep == Zone::Ours || keep == Zone::Theirs,
        forall|i: int|
            0 <= i < ls.len() ==> !opens(#[trigger] ls[i]) && !closes(ls[i]) && !separates(ls[i]),
    ensures
        zone_run(ls, Zone::Base) == Zone::Base,
        keep_run(ls, Zone::Base, keep) == Seq::<Seq<char>>::empty(),
    decreases ls.len(),
{
    if ls.len() > 0 {
        let front = ls.drop_last();
        assert forall|i: int| 0 <= i < front.len() implies !opens(#[trigger] front[i]) && !closes(
            front[i],
        ) && !separates(front[i]) by {
            assert(front[i] == ls[i]);
        }
        base_lines_stay(front, keep);
        assert(!opens(ls[ls.len() - 1]));
    }
}

/// Their claim never comes back to ours or to the frame, so nothing of it is kept
/// with ours.
proof fn their_lines_stay_away(ls: Seq<Seq<char>>)
    requires
        forall|i: int| 0 <= i < ls.len() ==> !opens(#[trigger] ls[i]) && !closes(ls[i]),
    ensures
        zone_run(ls, Zone::Theirs) == Zone::Theirs || zone_run(ls, Zone::Theirs) == Zone::Base,
        keep_run(ls, Zone::Theirs, Zone::Ours) == Seq::<Seq<char>>::empty(),
    decreases ls.len(),
{
    if ls.len() > 0 {
        let front = ls.drop_last();
        assert forall|i: int| 0 <= i < front.len() implies !opens(#[trigger] front[i]) && !closes(
            front[i],
        ) by {
            assert(front[i] == ls[i]);
        }
        their_lines_stay_away(front);
        assert(!opens(ls[ls.len() - 1]));
    }
}

/// Their claim without a line that starts a base section stays their claim.
proof fn their_lines_stay(ls: Seq<Seq<char>>)
    requires
        forall|i: int| 0 <= i < ls.len() ==> !opens(#[trigger] ls[i]) && !closes(ls[i]),
        forall|i: int| 0 <= i < ls.len() ==> !bars(#[trigger] ls[i]),
    ensures
        zone_run(ls, Zone::Theirs) == Zone::Theirs,
    decreases ls.len(),
{
    if ls.len() > 0 {
        let front = ls.drop_last();
        assert forall|i: int| 0 <= i < front.len() implies !opens(#[trigger] front[i]) && !closes(
            front[i],
        ) && !bars(front[i]) by {
            assert(front[i] == ls[i]);
            assert(!bars(ls[i]));
        }
        their_lines_stay(front);
        assert(!opens(ls[ls.len() - 1]));
        assert(!bars(ls[ls.len() - 1]));
    }
}

/// Nothing of our claim is kept with theirs.
proof fn our_lines_stay_away(ls: Seq<Seq<char>>)
    requires
        forall|i: int| 0 <= i < ls.len() ==> !any_mark(#[trigger] ls[i]),
    ensures
        keep_run(ls, Zone::Ours, Zone::Theirs) == Seq::<Seq<char>>::empty(),
    decreases ls.len(),
{
    if ls.len() > 0 {
        let front = ls.drop_last();
        assert forall|i: int| 0 <= i < front.len() implies !any_mark(#[trigger] front[i]) by {
            assert(front[i] == ls[i]);
        }
        our_lines_stay_away(front);
        unmarked_lines_stay(front, Zone::Ours);
    }
}

/// An ordinary gap says the same in the frame and inside the claim that is kept.
proof fn gap_says_the_same(ls: Seq<Seq<char>>, keep: Zone)
    requires
        keep == Zone::Ours || keep == Zone::Theirs,
        forall|i: int| 0 <= i < ls.len() ==> ordinary(#[trigger] ls[i]),
    ensures
        keep_run(ls, keep, keep) == keep_run(ls, Zone::Frame, keep),
    decreases ls.len(),
{
    if ls.len() > 0 {
        let front = ls.drop_last();
        assert forall|i: int| 0 <= i < front.len() implies ordinary(#[trigger] front[i]) by {
            assert(front[i] == ls[i]);
        }
        gap_says_the_same(front, keep);
        assert forall|i: int| 0 <= i < front.len() implies !any_mark(#[trigger] front[i]) by {
            assert(ordinary(front[i]));
        }
        unmarked_lines_stay(front, keep);
        unmarked_lines_stay(front, Zone::Frame);
        assert(ordinary(ls[ls.len() - 1]));
    }
}

/// The lines of a box, cut where its zones change.
spec fn box_head(b: BoxView) -> Seq<Seq<char>> {
    seq![b.open] + (match b.refusal {
        Some(r) => seq![r],
        None => Seq::empty(),
    })
}

spec fn box_middle(b: BoxView, bar: Seq<char>) -> Seq<Seq<char>> {
    match b.base {
        Some(base) => seq![bar] + base,
        None => Seq::empty(),
    }
}

spec fn box_with(b: BoxView, bar: Seq<char>, sep: Seq<char>) -> Seq<Seq<char>> {
    box_head(b) + b.ours + box_middle(b, bar) + seq![sep] + b.theirs + seq![b.close]
}

/// What a box keeps, whatever its two inner marker lines say besides being
/// markers.
proof fn box_run(b: BoxView, bar: Seq<char>, sep: Seq<char>, keep: Zone)
    requires
        sound_box(b),
        keep == Zone::Ours || keep == Zone::Theirs,
        bars(bar) && !opens(bar),
        separates(sep) && !opens(sep) && !bars(sep),
    ensures
        zone_run(box_with(b, bar, sep), Zone::Frame) == Zone::Frame,
        keep_run(box_with(b, bar, sep), Zone::Frame, keep) == keep_run(
            b.ours,
            zone_run(box_head(b), Zone::Frame),
            keep,
        ) + keep_run(b.theirs, Zone::Theirs, keep),
        zone_run(box_head(b), Zone::Frame) != Zone::Frame,
        refusal_is_no_mark(b) ==> zone_run(box_head(b), Zone::Frame) == Zone::Ours,
{
    let z0 = Zone::Frame;
    let head = box_head(b);
    let mid = box_middle(b, bar);
    run_of_one(b.open, z0, keep);
    match b.refusal {
        Some(r) => {
            run_of_two(seq![b.open], seq![r], z0, keep);
            run_of_one(r, Zone::Ours, keep);
            assert(keep_run(head, z0, keep) =~= Seq::empty());
        },
        None => {
            assert(head =~= seq![b.open]);
            assert(keep_run(head, z0, keep) =~= Seq::empty());
        },
    }
    let z1 = zone_run(head, z0);
    assert(z1 != Zone::Frame);
    run_of_two(head, b.ours, z0, keep);
    unmarked_lines_stay(b.ours, z1);
    let p1 = head + b.ours;
    run_of_two(p1, mid, z0, keep);
    let z2 = zone_run(mid, z1);
    match b.base {
        Some(base) => {
            run_of_two(seq![bar], base, z1, keep);
            run_of_one(bar, z1, keep);
            base_lines_stay(base, keep);
            assert(keep_run(mid, z1, keep) =~= Seq::empty());
            assert(z2 == Zone::Base);
        },
        None => {
            assert(keep_run(mid, z1, keep) =~= Seq::empty());
            assert(z2 == z1);
        },
    }
    let p2 = p1 + mid;
    run_of_two(p2, seq![sep], z0, keep);
    run_of_one(sep, z2, keep);
    let p3 = p2 + seq![sep];
    assert(zone_run(p3, z0) == Zone::Theirs);
    run_of_two(p3, b.theirs, z0, keep);
    let p4 = p3 + b.theirs;
    their_lines_stay_away(b.theirs);
    let z4 = zone_run(b.theirs, Zone::Theirs);
    run_of_two(p4, seq![b.close], z0, keep);
    run_of_one(b.close, z4, keep);
    assert(box_with(b, bar, sep) =~= p4 + seq![b.close]);
    assert(!opens(b.close)) by {
        reveal_strlit("<<<<<<<");
        reveal_strlit(">>>>>>>");
        assert(b.close.subrange(0, 7)[0] == '>');
        if opens(b.close) {
            assert(b.close.subrange(0, 7)[0] == '<');
        }
    }
    assert(!bars(b.close)) by {
        reveal_strlit("|||||||");
        reveal_strlit(">>>>>>>");
        assert(b.close.subrange(0, 7)[0] == '>');
        if bars(b.close) {
            assert(b.close.subrange(0, 7)[0] == '|');
        }
    }
    assert(!separates(b.close)) by {
        reveal_strlit("=======");
        reveal_strlit(">>>>>>>");
        assert(b.close.subrange(0, 7)[0] == '>');
        if separates(b.close) {
            assert(b.close.subrange(0, 7)[0] == '=');
        }
    }
    assert(next_zone(z4, b.close) == Zone::Frame);
    assert(keep_run(box_with(b, bar, sep), z0, keep) =~= keep_run(b.ours, z1, keep) + keep_run(
        b.theirs,
        Zone::Theirs,
        keep,
    ));
}

/// Merging two boxes keeps what the two and the gap between them kept.
proof fn merging_keeps(prev: BoxView, gap: Seq<Seq<char>>, next: BoxView, keep: Zone)
    requires
        sound_box(prev),
        sound_box(next),
        keep == Zone::Ours || keep == Zone::Theirs,
        unbroken_lines(gap),
        forall|i: int| 0 <= i < gap.len() ==> ordinary(#[trigger] gap[i]),
        forall|i: int| 0 <= i < prev.theirs.len() ==> !bars(#[trigger] prev.theirs[i]),
        refusal_is_no_mark(prev),
        refusal_is_no_mark(next),
    ensures
        sound_box(merged(prev, gap, next)),
        keep_run(box_lines(merged(prev, gap, next), 7), Zone::Frame, keep) == keep_run(
            box_lines(prev, 7),
            Zone::Frame,
            keep,
        ) + keep_run(gap, Zone::Frame, keep) + keep_run(box_lines(next, 7), Zone::Frame, keep),
{
    let m = merged(prev, gap, next);
    seven_marks();
    let bar = repeat('|', 7) + " base"@;
    let sep = repeat('=', 7);
    assert(box_lines(prev, 7) =~= box_with(prev, bar, sep));
    assert(box_lines(next, 7) =~= box_with(next, bar, sep));
    assert(box_lines(m, 7) =~= box_with(m, bar, sep));
    assert forall|i: int| 0 <= i < m.ours.len() implies unbroken(#[trigger] m.ours[i])
        && !any_mark(m.ours[i]) by {
        let (a, g) = (prev.ours.len() as int, gap.len() as int);
        if i < a {
            assert(m.ours[i] == prev.ours[i]);
            assert(unbroken(prev.ours[i]));
        } else if i < a + g {
            assert(m.ours[i] == gap[i - a]);
            assert(unbroken(gap[i - a]) && ordinary(gap[i - a]));
        } else {
            assert(m.ours[i] == next.ours[i - a - g]);
            assert(unbroken(next.ours[i - a - g]));
        }
    }
    assert forall|i: int| 0 <= i < m.theirs.len() implies unbroken(#[trigger] m.theirs[i])
        && !opens(m.theirs[i]) && !closes(m.theirs[i]) by {
        let (a, g) = (prev.theirs.len() as int, gap.len() as int);
        if i < a {
            assert(m.theirs[i] == prev.theirs[i]);
            assert(unbroken(prev.theirs[i]));
        } else if i < a + g {
            assert(m.theirs[i] == gap[i - a]);
            assert(unbroken(gap[i - a]) && ordinary(gap[i - a]));
        } else {
            assert(m.theirs[i] == next.theirs[i - a - g]);
            assert(unbroken(next.theirs[i - a - g]));
        }
    }
    if prev.base is Some && next.base is Some {
        let (x, y) = (prev.base->0, next.base->0);
        let w = m.base->0;
        assert forall|i: int| 0 <= i < w.len() implies unbroken(#[trigger] w[i]) && !opens(w[i])
            && !closes(w[i]) && !separates(w[i]) by {
            let (a, g) = (x.len() as int, gap.len() as int);
            if i < a {
                assert(w[i] == x[i]);
                assert(unbroken(x[i]));
            } else if i < a + g {
                assert(w[i] == gap[i - a]);
                assert(unbroken(gap[i - a]) && ordinary(gap[i - a]));
            } else {
                assert(w[i] == y[i - a - g]);
                assert(unbroken(y[i - a - g]));
            }
        }
    }
    assert(sound_box(m));
    box_run(prev, bar, sep, keep);
    box_run(next, bar, sep, keep);
    box_run(m, bar, sep, keep);
    assert(refusal_is_no_mark(m));
    // Ours.
    assert forall|i: int| 0 <= i < gap.len() implies !any_mark(#[trigger] gap[i]) by {
        assert(ordinary(gap[i]));
    }
    run_of_two(prev.ours + gap, next.ours, Zone::Ours, keep);
    run_of_two(prev.ours, gap, Zone::Ours, keep);
    unmarked_lines_stay(prev.ours, Zone::Ours);
    unmarked_lines_stay(gap, Zone::Ours);
    // Theirs.
    run_of_two(prev.theirs + gap, next.theirs, Zone::Theirs, keep);
    run_of_two(prev.theirs, gap, Zone::Theirs, keep);
    their_lines_stay(prev.theirs);
    unmarked_lines_stay(gap, Zone::Theirs);
    gap_says_the_same(gap, keep);
    if keep == Zone::Ours {
        their_lines_stay_away(m.theirs);
        their_lines_stay_away(prev.theirs);
        their_lines_stay_away(next.theirs);
        assert(keep_run(m.ours, Zone::Ours, keep) + keep_run(m.theirs, Zone::Theirs, keep)
            =~= keep_run(m.ours, Zone::Ours, keep));
    } else {
        our_lines_stay_away(m.ours);
        our_lines_stay_away(prev.ours);
        our_lines_stay_away(next.ours);
    }
    assert(keep_run(box_lines(m, 7), Zone::Frame, keep) =~= keep_run(
        box_lines(prev, 7),
        Zone::Frame,
        keep,
    ) + keep_run(gap, Zone::Frame, keep) + keep_run(box_lines(next, 7), Zone::Frame, keep));
}

/// What the first `k` pieces keep.
spec fn pieces_keep(ps: Seq<PieceView>, keep: Zone, k: int) -> Seq<Seq<char>>
    decreases k,
{
    if k <= 0 {
        Seq::empty()
    } else {
        pieces_keep(ps, keep, k - 1) + keep_run(piece_lines(ps[k - 1], 7), Zone::Frame, keep)
    }
}

spec fn all_sound(ps: Seq<PieceView>) -> bool {
    forall|i: int| 0 <= i < ps.len() ==> sound(#[trigger] ps[i])
}

proof fn piece_comes_back_to_the_frame(p: PieceView, keep: Zone)
    requires
        sound(p),
        keep == Zone::Ours || keep == Zone::Theirs,
    ensures
        zone_run(piece_lines(p, 7), Zone::Frame) == Zone::Frame,
{
    match p {
        PieceView::Frame(ls) => {
            frame_lines_stay(ls);
        },
        PieceView::Box(b) => {
            seven_marks();
            let bar = repeat('|', 7) + " base"@;
            let sep = repeat('=', 7);
            assert(box_lines(b, 7) =~= box_with(b, bar, sep));
            box_run(b, bar, sep, keep);
        },
    }
}

proof fn written_keeps(ps: Seq<PieceView>, keep: Zone, k: int)
    requires
        all_sound(ps),
        0 <= k <= ps.len(),
        keep == Zone::Ours || keep == Zone::Theirs,
    ensures
        zone_run(written(ps, 7, k), Zone::Frame) == Zone::Frame,
        keep_run(written(ps, 7, k), Zone::Frame, keep) == pieces_keep(ps, keep, k),
    decreases k,
{
    if k > 0 {
        written_keeps(ps, keep, k - 1);
        assert(sound(ps[k - 1]));
        piece_comes_back_to_the_frame(ps[k - 1], keep);
        run_of_two(
            written(ps, 7, k - 1),
            piece_lines(ps[k - 1], 7),
            Zone::Frame,
            keep,
        );
    }
}

proof fn keep_of_a_front(a: Seq<PieceView>, b: Seq<PieceView>, keep: Zone, k: int)
    requires
        0 <= k <= a.len(),
        k <= b.len(),
        forall|i: int| 0 <= i < k ==> a[i] == b[i],
    ensures
        pieces_keep(a, keep, k) == pieces_keep(b, keep, k),
    decreases k,
{
    if k > 0 {
        keep_of_a_front(a, b, keep, k - 1);
    }
}

/// Taking up one more piece keeps what the pieces kept.
proof fn absorbing_keeps(out: Seq<PieceView>, next: PieceView, keep: Zone)
    requires
        all_sound(out),
        sound(next),
        keep == Zone::Ours || keep == Zone::Theirs,
        merges_cleanly(out, next),
    ensures
        all_sound(absorbed(out, next)),
        pieces_keep(absorbed(out, next), keep, absorbed(out, next).len() as int) == pieces_keep(
            out,
            keep,
            out.len() as int,
        ) + keep_run(piece_lines(next, 7), Zone::Frame, keep),
{
    let now = absorbed(out, next);
    let n = out.len() as int;
    if mergeable(out, next) {
        let prev = out[n - 2]->Box_0;
        let gap = out[n - 1]->Frame_0;
        let b = next->Box_0;
        assert(sound(out[n - 2]) && sound(out[n - 1]));
        merging_keeps(prev, gap, b, keep);
        let one = PieceView::Box(merged(prev, gap, b));
        assert(now =~= out.take(n - 2).push(one));
        assert forall|i: int| 0 <= i < now.len() implies sound(#[trigger] now[i]) by {
            if i < n - 2 {
                assert(now[i] == out[i]);
            }
        }
        keep_of_a_front(now, out, keep, n - 2);
        assert(piece_lines(one, 7) == box_lines(merged(prev, gap, b), 7));
        assert(piece_lines(out[n - 2], 7) == box_lines(prev, 7));
        assert(piece_lines(out[n - 1], 7) == gap);
        assert(piece_lines(next, 7) == box_lines(b, 7));
        assert(now[n - 2] == one);
        assert(pieces_keep(now, keep, n - 1) =~= pieces_keep(out, keep, n) + keep_run(
            piece_lines(next, 7),
            Zone::Frame,
            keep,
        )) by {
            reveal_with_fuel(pieces_keep, 3);
        }
    } else {
        assert(now =~= out.push(next));
        assert forall|i: int| 0 <= i < now.len() implies sound(#[trigger] now[i]) by {
            if i < n {
                assert(now[i] == out[i]);
            }
        }
        keep_of_a_front(now, out, keep, n);
    }
}

/// Folding keeps what the pieces kept.
proof fn folding_keeps(ps: Seq<PieceView>, keep: Zone, k: int)
    requires
        all_sound(ps),
        0 <= k <= ps.len(),
        keep == Zone::Ours || keep == Zone::Theirs,
        forall|j: int| 0 <= j < ps.len() ==> merges_cleanly(folded(ps, j), #[trigger] ps[j]),
    ensures
        all_sound(folded(ps, k)),
        pieces_keep(folded(ps, k), keep, folded(ps, k).len() as int) == pieces_keep(ps, keep, k),
    decreases k,
{
    if k > 0 {
        folding_keeps(ps, keep, k - 1);
        assert(sound(ps[k - 1]));
        assert(merges_cleanly(folded(ps, k - 1), ps[k - 1]));
        absorbing_keeps(folded(ps, k - 1), ps[k - 1], keep);
    }
}

/// No line is two markers.
proof fn marks_differ(l: Seq<char>)
    ensures
        opens(l) ==> !bars(l) && !separates(l) && !closes(l),
        bars(l) ==> !separates(l) && !closes(l),
        separates(l) ==> !closes(l),
{
    reveal_strlit("<<<<<<<");
    reveal_strlit("|||||||");
    reveal_strlit("=======");
    reveal_strlit(">>>>>>>");
    let f = l.subrange(0, 7);
    if opens(l) {
        assert(f[0] == '<');
    }
    if bars(l) {
        assert(f[0] == '|');
    }
    if separates(l) {
        assert(f[0] == '=');
    }
    if closes(l) {
        assert(f[0] == '>');
    }
}

proof fn keep_of_two(a: Seq<PieceView>, b: Seq<PieceView>, keep: Zone)
    ensures
        pieces_keep(a + b, keep, (a.len() + b.len()) as int) == pieces_keep(
            a,
            keep,
            a.len() as int,
        ) + pieces_keep(b, keep, b.len() as int),
    decreases b.len(),
{
    if b.len() == 0 {
        assert(a + b =~= a);
        assert(pieces_keep(a, keep, a.len() as int) + pieces_keep(b, keep, 0) =~= pieces_keep(
            a,
            keep,
            a.len() as int,
        ));
    } else {
        let n = (a.len() + b.len()) as int;
        let front = b.drop_last();
        keep_of_two(a, front, keep);
        assert((a + b).drop_last() =~= a + front);
        keep_of_a_front(a + b, a + front, keep, n - 1);
        keep_of_a_front(b, front, keep, b.len() - 1);
        assert((a + b)[n - 1] == b[b.len() - 1]);
        assert(pieces_keep(a + b, keep, n) =~= pieces_keep(a, keep, a.len() as int) + pieces_keep(
            b,
            keep,
            b.len() as int,
        ));
    }
}

/// The box that opens at a line is sound, and its lines are the file's, its two
/// inner marker lines aside.
proof fn box_at_is_sound(ls: Seq<Seq<char>>, i: int)
    requires
        unbroken_lines(ls),
        0 <= i < ls.len(),
        opens(ls[i]),
        marks(7).boxed(ls, i),
        marks(7).box_at(ls, i).refusal is Some ==> !closes(marks(7).box_at(ls, i).refusal->0),
    ensures
        sound_box(marks(7).box_at(ls, i)),
        i < marks(7).close_at(ls, i) < ls.len(),
        ls.subrange(i, marks(7).close_at(ls, i) + 1) == box_with(
            marks(7).box_at(ls, i),
            ls[marks(7).ours_end(ls, i)],
            ls[marks(7).sep_at(ls, i)],
        ),
        marks(7).has_base(ls, i) ==> bars(ls[marks(7).ours_end(ls, i)]),
        separates(ls[marks(7).sep_at(ls, i)]),
{
    let m = marks(7);
    let b = m.box_at(ls, i);
    let a = m.ours_at(ls, i);
    let e = m.ours_end(ls, i);
    let s = m.sep_at(ls, i);
    let c = m.close_at(ls, i);
    seven_marks();
    m.box_bounds(ls, i);
    m.stop_at_bounds(Section::Ours, ls, a);
    m.stop_at_bounds(Section::Theirs, ls, s + 1);
    if m.has_base(ls, i) {
        m.stop_at_bounds(Section::Base, ls, e + 1);
    }
    assert(unbroken(ls[i]) && unbroken(ls[c]));
    assert forall|k: int| 0 <= k < b.ours.len() implies unbroken(#[trigger] b.ours[k])
        && !any_mark(b.ours[k]) by {
        assert(b.ours[k] == ls[a + k]);
        assert(unbroken(ls[a + k]));
        assert(!m.stops(Section::Ours, ls[a + k]));
    }
    assert forall|k: int| 0 <= k < b.theirs.len() implies unbroken(#[trigger] b.theirs[k])
        && !opens(b.theirs[k]) && !closes(b.theirs[k]) by {
        assert(b.theirs[k] == ls[s + 1 + k]);
        assert(unbroken(ls[s + 1 + k]));
        assert(!m.stops(Section::Theirs, ls[s + 1 + k]));
    }
    if m.has_base(ls, i) {
        let w = b.base->0;
        assert forall|k: int| 0 <= k < w.len() implies unbroken(#[trigger] w[k]) && !opens(w[k])
            && !closes(w[k]) && !separates(w[k]) by {
            assert(w[k] == ls[e + 1 + k]);
            assert(unbroken(ls[e + 1 + k]));
            assert(!m.stops(Section::Base, ls[e + 1 + k]));
        }
    }
    if a == i + 2 {
        assert(unbroken(ls[i + 1]));
    }
    let seg = ls.subrange(i, c + 1);
    let all = box_with(b, ls[e], ls[s]);
    let head = box_head(b);
    let mid = box_middle(b, ls[e]);
    assert(head =~= ls.subrange(i, a));
    assert(mid =~= ls.subrange(e, s));
    assert(head + b.ours =~= ls.subrange(i, e));
    assert(head + b.ours + mid =~= ls.subrange(i, s));
    assert(head + b.ours + mid + seq![ls[s]] =~= ls.subrange(i, s + 1));
    assert(head + b.ours + mid + seq![ls[s]] + b.theirs =~= ls.subrange(i, c));
    assert(all =~= seg);
}

/// Every refusal line among the pieces closes no box.
spec fn refusals_do_not_close(ps: Seq<PieceView>) -> bool {
    forall|k: int|
        0 <= k < ps.len() && (#[trigger] ps[k]) is Box && (ps[k]->Box_0).refusal is Some
            ==> !closes((ps[k]->Box_0).refusal->0)
}

/// The pieces that are read keep what the lines keep, and end as they end.
proof fn reading_keeps(ls: Seq<Seq<char>>, i: int, frame: Seq<Seq<char>>, keep: Zone)
    requires
        unbroken_lines(ls),
        unbroken_lines(frame),
        0 <= i <= ls.len(),
        forall|k: int| 0 <= k < frame.len() ==> !opens(#[trigger] frame[k]),
        keep == Zone::Ours || keep == Zone::Theirs,
        marks(7).read(ls, i, frame) is Some,
        refusals_do_not_close(marks(7).read(ls, i, frame)->0),
    ensures
        all_sound(marks(7).read(ls, i, frame)->0),
        ({
            let ps = marks(7).read(ls, i, frame)->0;
            let all = frame + ls.skip(i);
            let out = written(ps, 7, ps.len() as int);
            &&& pieces_keep(ps, keep, ps.len() as int) == keep_run(all, Zone::Frame, keep)
            &&& out.len() > 0 <==> all.len() > 0
            &&& all.len() > 0 ==> out.last() == all.last()
        }),
    decreases ls.len() - i,
{
    let m = marks(7);
    let ps = m.read(ls, i, frame)->0;
    let all = frame + ls.skip(i);
    seven_marks();
    if i >= ls.len() {
        assert(all =~= frame);
        assert(ps =~= seq![PieceView::Frame(frame)]);
        assert(pieces_keep(ps, keep, 1) =~= keep_run(frame, Zone::Frame, keep)) by {
            reveal_with_fuel(pieces_keep, 2);
        }
        assert(written(ps, 7, 1) =~= frame) by {
            reveal_with_fuel(written, 2);
        }
        assert(sound(ps[0]));
    } else if !opens(ls[i]) {
        let next = frame.push(ls[i]);
        assert(unbroken(ls[i]));
        assert forall|k: int| 0 <= k < next.len() implies unbroken(#[trigger] next[k]) && !opens(
            next[k],
        ) by {
            if k < frame.len() {
                assert(next[k] == frame[k]);
                assert(unbroken(frame[k]));
            }
        }
        reading_keeps(ls, i + 1, next, keep);
        assert(next + ls.skip(i + 1) =~= all);
    } else {
        let c = m.close_at(ls, i);
        let b = m.box_at(ls, i);
        let rest = m.read(ls, c + 1, Seq::empty())->0;
        let two = seq![PieceView::Frame(frame), PieceView::Box(b)];
        assert(ps == two + rest);
        assert(ps[1] == PieceView::Box(b));
        assert(refusals_do_not_close(rest)) by {
            assert forall|k: int|
                0 <= k < rest.len() && (#[trigger] rest[k]) is Box && (
                rest[k]->Box_0).refusal is Some implies !closes((rest[k]->Box_0).refusal->0) by {
                assert(ps[k + 2] == rest[k]);
            }
        }
        box_at_is_sound(ls, i);
        let none = Seq::<Seq<char>>::empty();
        reading_keeps(ls, c + 1, none, keep);
        assert(none + ls.skip(c + 1) =~= ls.skip(c + 1));
        let seg = ls.subrange(i, c + 1);
        let tail = ls.skip(c + 1);
        assert(ls.skip(i) =~= seg + tail);
        assert(all =~= frame + seg + tail);
        // What is kept.
        let bar = ls[m.ours_end(ls, i)];
        let sep = ls[m.sep_at(ls, i)];
        let plain_bar = repeat('|', 7) + " base"@;
        let plain_sep = repeat('=', 7);
        marks_differ(bar);
        marks_differ(sep);
        marks_differ(plain_bar);
        assert(box_lines(b, 7) =~= box_with(b, plain_bar, plain_sep));
        if b.base is None {
            assert(box_with(b, bar, sep) =~= box_with(b, plain_bar, sep));
            box_run(b, plain_bar, sep, keep);
        } else {
            box_run(b, bar, sep, keep);
        }
        box_run(b, plain_bar, plain_sep, keep);
        frame_lines_stay(frame);
        run_of_two(frame + seg, tail, Zone::Frame, keep);
        run_of_two(frame, seg, Zone::Frame, keep);
        keep_of_two(two, rest, keep);
        assert(pieces_keep(two, keep, 2) =~= keep_run(frame, Zone::Frame, keep) + keep_run(
            box_lines(b, 7),
            Zone::Frame,
            keep,
        )) by {
            reveal_with_fuel(pieces_keep, 3);
            assert(piece_lines(two[0], 7) == frame);
            assert(piece_lines(two[1], 7) == box_lines(b, 7));
        }
        assert(pieces_keep(ps, keep, ps.len() as int) =~= keep_run(all, Zone::Frame, keep));
        // How it ends.
        written_of_two(two, rest);
        assert(written(two, 7, 2) =~= frame + box_lines(b, 7)) by {
            reveal_with_fuel(written, 3);
            assert(piece_lines(two[0], 7) == frame);
            assert(piece_lines(two[1], 7) == box_lines(b, 7));
        }
        assert(box_lines(b, 7).last() == b.close);
        assert(seg.last() == ls[c]);
        assert(all_sound(ps)) by {
            assert forall|k: int| 0 <= k < ps.len() implies sound(#[trigger] ps[k]) by {
                if k >= 2 {
                    assert(ps[k] == rest[k - 2]);
                } else if k == 0 {
                    assert(ps[0] == PieceView::Frame(frame));
                }
            }
        }
    }
}

proof fn written_of_a_front(a: Seq<PieceView>, b: Seq<PieceView>, k: int)
    requires
        0 <= k <= a.len(),
        k <= b.len(),
        forall|i: int| 0 <= i < k ==> a[i] == b[i],
    ensures
        written(a, 7, k) == written(b, 7, k),
    decreases k,
{
    if k > 0 {
        written_of_a_front(a, b, k - 1);
    }
}

proof fn written_of_two(a: Seq<PieceView>, b: Seq<PieceView>)
    ensures
        written(a + b, 7, (a.len() + b.len()) as int) == written(a, 7, a.len() as int) + written(
            b,
            7,
            b.len() as int,
        ),
    decreases b.len(),
{
    if b.len() == 0 {
        assert(a + b =~= a);
        assert(written(a, 7, a.len() as int) + written(b, 7, 0) =~= written(a, 7, a.len() as int));
    } else {
        let n = (a.len() + b.len()) as int;
        let front = b.drop_last();
        written_of_two(a, front);
        assert((a + b).drop_last() =~= a + front);
        written_of_a_front(a + b, a + front, n - 1);
        written_of_a_front(b, front, b.len() - 1);
        assert((a + b)[n - 1] == b[b.len() - 1]);
        assert(written(a + b, 7, n) =~= written(a, 7, a.len() as int) + written(
            b,
            7,
            b.len() as int,
        ));
    }
}

/// Folding does not change how the file ends.
proof fn folding_keeps_the_end(ps: Seq<PieceView>, k: int)
    requires
        0 <= k <= ps.len(),
    ensures
        ({
            let fs = folded(ps, k);
            let out = written(fs, 7, fs.len() as int);
            let all = written(ps, 7, k);
            &&& out.len() > 0 <==> all.len() > 0
            &&& all.len() > 0 ==> out.last() == all.last()
        }),
    decreases k,
{
    if k > 0 {
        folding_keeps_the_end(ps, k - 1);
        let out = folded(ps, k - 1);
        let next = ps[k - 1];
        let now = folded(ps, k);
        let n = out.len() as int;
        if mergeable(out, next) {
            let prev = out[n - 2]->Box_0;
            let gap = out[n - 1]->Frame_0;
            let b = next->Box_0;
            let one = merged(prev, gap, b);
            assert(now =~= out.take(n - 2).push(PieceView::Box(one)));
            assert(piece_lines(now[n - 2], 7) == box_lines(one, 7));
            assert(box_lines(one, 7).last() == b.close);
            assert(piece_lines(next, 7).last() == b.close);
            assert(piece_lines(next, 7).len() > 0);
            assert(box_lines(one, 7).len() > 0);
        } else {
            assert(now =~= out.push(next));
            written_of_a_front(now, out, n);
            assert(now[n] == next);
        }
    }
}

proof fn written_is_unbroken(ps: Seq<PieceView>, k: int)
    requires
        all_sound(ps),
        0 <= k <= ps.len(),
    ensures
        unbroken_lines(written(ps, 7, k)),
    decreases k,
{
    if k > 0 {
        written_is_unbroken(ps, k - 1);
        let front = written(ps, 7, k - 1);
        let p = ps[k - 1];
        let ls = piece_lines(p, 7);
        assert(sound(ps[k - 1]));
        seven_marks();
        assert(unbroken_lines(ls)) by {
            if p is Box {
                let b = p->Box_0;
                let bar = repeat('|', 7) + " base"@;
                let sep = repeat('=', 7);
                let x1 = box_head(b);
                let x2 = x1 + b.ours;
                let x3 = x2 + box_middle(b, bar);
                let x4 = x3 + seq![sep];
                let x5 = x4 + b.theirs;
                assert(ls =~= x5 + seq![b.close]);
                unbroken_of_two(x1, b.ours);
                assert(unbroken_lines(seq![bar]));
                if b.base is Some {
                    unbroken_of_two(seq![bar], b.base->0);
                }
                unbroken_of_two(x2, box_middle(b, bar));
                unbroken_of_two(x3, seq![sep]);
                unbroken_of_two(x4, b.theirs);
                unbroken_of_two(x5, seq![b.close]);
            }
        }
        unbroken_of_two(front, ls);
    }
}

proof fn unbroken_of_two(a: Seq<Seq<char>>, b: Seq<Seq<char>>)
    requires
        unbroken_lines(a),
        unbroken_lines(b),
    ensures
        unbroken_lines(a + b),
{
    let c = a + b;
    assert forall|i: int| 0 <= i < c.len() implies unbroken(#[trigger] c[i]) by {
        if i < a.len() {
            assert(c[i] == a[i]);
        } else {
            assert(c[i] == b[i - a.len()]);
        }
    }
}

/// How a text ends tells how its last line ends.
proof fn last_line_of(s: Seq<char>, i: int)
    requires
        0 <= i < s.len(),
        s.last() != '\n',
    ensures
        lines_from(s, i).len() > 0,
        lines_from(s, i).last().len() > 0,
    decreases s.len() - i,
{
    find_char_bounds(s, '\n', i);
    let e = find_char(s, '\n', i);
    if e + 1 < s.len() {
        last_line_of(s, e + 1);
        assert(lines_from(s, i).last() == lines_from(s, e + 1).last());
    } else {
        assert(e == s.len());
        assert(lines_from(s, e + 1) =~= Seq::empty());
        assert(lines_from(s, i).last() == line_at(s, i, e));
    }
}

/// Written lines, the last of them not empty, without the line feed at the end: every
/// line but the last reads back without a carriage return at its end.
proof fn lines_without_the_last_feed(v: Seq<Seq<char>>)
    requires
        unbroken_lines(v),
        v.len() > 0,
        v.last().len() > 0,
    ensures
        lines(without_feeds(unlines(v))) == chomped_lines(v.drop_last()).push(v.last()),
{
    let front = v.drop_last();
    let l = v.last();
    assert(unbroken(v[v.len() - 1]));
    assert forall|i: int| 0 <= i < front.len() implies !(#[trigger] front[i]).contains('\n') by {
        assert(front[i] == v[i]);
        assert(unbroken(v[i]));
    }
    let s = unlines(v);
    let t = unlines(front) + l;
    assert(s =~= t.push('\n'));
    assert(s.drop_last() =~= t);
    assert(t.last() == l.last());
    assert(l.last() != '\n') by {
        if l.last() == '\n' {
            assert(l[l.len() - 1] == '\n');
            assert(l.contains('\n'));
        }
    }
    assert(without_feeds(s) == t) by {
        reveal_with_fuel(without_feeds, 3);
    }
    if front.len() > 0 {
        assert(unlines(front).last() == '\n');
    }
    lines_of_two(unlines(front), l);
    written_lines_read_back(front);
    find_char_bounds(l, '\n', 0);
    assert(find_char(l, '\n', 0) == l.len());
    assert(l.subrange(0, l.len() as int) =~= l);
    assert(lines_from(l, l.len() as int + 1) =~= Seq::empty());
    assert(lines(l) =~= seq![l]);
    assert(chomped_lines(front) + seq![l] =~= chomped_lines(front).push(l));
}

proof fn starts_when_chomped(l: Seq<char>, p: Seq<char>)
    requires
        p.len() > 0,
        p.last() != '\r',
    ensures
        starts(chomped(l), p) == starts(l, p),
{
    let m = chomped(l);
    if starts(l, p) && m.len() < l.len() && l.len() == p.len() {
        assert(l.subrange(0, p.len() as int)[p.len() - 1] == p.last());
    }
    if p.len() <= m.len() {
        assert(m.subrange(0, p.len() as int) =~= l.subrange(0, p.len() as int));
    }
}

proof fn punctuation_when_chomped(l: Seq<char>, i: int)
    requires
        0 <= i <= chomped(l).len(),
    ensures
        skip_punctuation(chomped(l), i) == skip_punctuation(l, i),
    decreases l.len() - i,
{
    if i < chomped(l).len() {
        assert(chomped(l)[i] == l[i]);
        punctuation_when_chomped(l, i + 1);
    }
}

proof fn white_when_chomped(l: Seq<char>, i: int)
    requires
        0 <= i <= chomped(l).len(),
    ensures
        skip_white(l, i) == skip_white(chomped(l), i) || (skip_white(l, i) == l.len()
            && skip_white(chomped(l), i) == chomped(l).len()),
    decreases l.len() - i,
{
    if i < chomped(l).len() {
        assert(chomped(l)[i] == l[i]);
        if white(l[i]) {
            white_when_chomped(l, i + 1);
        }
    } else if i < l.len() {
        assert(l[i] == '\r');
        assert(skip_white(l, i + 1) == l.len());
    }
}

/// A carriage return at the end of a line changes nothing about what the line is.
proof fn a_line_is_the_same_when_chomped(l: Seq<char>)
    ensures
        opens(chomped(l)) == opens(l),
        bars(chomped(l)) == bars(l),
        separates(chomped(l)) == separates(l),
        closes(chomped(l)) == closes(l),
        teaches(chomped(l)) == teaches(l),
        refusal_text(chomped(l)) is Some == refusal_text(l) is Some,
{
    reveal_strlit("<<<<<<<");
    reveal_strlit("|||||||");
    reveal_strlit("=======");
    reveal_strlit(">>>>>>>");
    reveal_strlit("refused_by: ");
    reveal_strlit("weave: run 'weave explain ");
    starts_when_chomped(l, "<<<<<<<"@);
    starts_when_chomped(l, "|||||||"@);
    starts_when_chomped(l, "======="@);
    starts_when_chomped(l, ">>>>>>>"@);
    let m = chomped(l);
    punctuation_when_chomped(l, 0);
    let k = skip_punctuation(l, 0);
    punctuation_bounds(m, 0);
    let x = l.subrange(k, l.len() as int);
    let y = m.subrange(k, m.len() as int);
    assert(chomped(x) =~= y);
    white_when_chomped(x, 0);
    skip_white_bounds(x, 0);
    skip_white_bounds(y, 0);
    let r = trim_start(x);
    let q = trim_start(y);
    assert(q =~= chomped(r)) by {
        if r.len() > 0 {
            assert(r.last() == x.last());
        }
    }
    starts_when_chomped(r, "refused_by: "@);
    starts_when_chomped(r, "weave: run 'weave explain "@);
}

proof fn punctuation_bounds(s: Seq<char>, i: int)
    requires
        0 <= i <= s.len(),
    ensures
        i <= skip_punctuation(s, i) <= s.len(),
    decreases s.len() - i,
{
    if i < s.len() && punctuation(s[i]) {
        punctuation_bounds(s, i + 1);
    }
}

/// A resolution that keeps a zone keeps the line.
pub open spec fn kept_at(ls: Seq<Seq<char>>, keep: Zone, i: int) -> bool {
    let z = zone_before(ls, i);
    !furniture(z, ls[i]) && (z == Zone::Frame || z == keep)
}

/// Lines that differ by carriage returns at their ends, and not where they are kept, are
/// kept alike.
proof fn alike_lines_are_kept_alike(
    v: Seq<Seq<char>>,
    w: Seq<Seq<char>>,
    keep: Zone,
    k: int,
)
    requires
        v.len() == w.len(),
        0 <= k <= v.len(),
        forall|i: int| 0 <= i < v.len() ==> #[trigger] w[i] == v[i] || w[i] == chomped(v[i]),
        forall|i: int| 0 <= i < v.len() && #[trigger] kept_at(v, keep, i) ==> w[i] == v[i],
    ensures
        zone_before(w, k) == zone_before(v, k),
        kept(w, keep, k) == kept(v, keep, k),
    decreases k,
{
    if k > 0 {
        alike_lines_are_kept_alike(v, w, keep, k - 1);
        a_line_is_the_same_when_chomped(v[k - 1]);
        let z = zone_before(v, k - 1);
        assert(w[k - 1] == v[k - 1] || w[k - 1] == chomped(v[k - 1]));
        assert(furniture(z, w[k - 1]) == furniture(z, v[k - 1]));
        assert(next_zone(z, w[k - 1]) == next_zone(z, v[k - 1]));
        if kept_at(v, keep, k - 1) {
            assert(w[k - 1] == v[k - 1]);
        }
    }
}

proof fn what_is_kept_is_listed(v: Seq<Seq<char>>, keep: Zone, k: int, i: int)
    requires
        0 <= i < k <= v.len(),
        kept_at(v, keep, i),
    ensures
        kept(v, keep, k).contains(v[i]),
    decreases k,
{
    let all = kept(v, keep, k);
    if i == k - 1 {
        assert(all.last() == v[i]);
        assert(all[all.len() - 1] == v[i]);
    } else {
        what_is_kept_is_listed(v, keep, k - 1, i);
        let front = kept(v, keep, k - 1);
        let j = choose|j: int| 0 <= j < front.len() && front[j] == v[i];
        assert(all[j] == v[i]);
    }
}

proof fn what_is_listed_is_kept(v: Seq<Seq<char>>, keep: Zone, k: int, x: Seq<char>) -> (i: int)
    requires
        0 <= k <= v.len(),
        kept(v, keep, k).contains(x),
    ensures
        0 <= i < k,
        kept_at(v, keep, i),
        v[i] == x,
    decreases k,
{
    let all = kept(v, keep, k);
    let j = choose|j: int| 0 <= j < all.len() && all[j] == x;
    if kept_at(v, keep, k - 1) && v[k - 1] == x {
        k - 1
    } else {
        let front = kept(v, keep, k - 1);
        assert(front[j] == x);
        what_is_listed_is_kept(v, keep, k - 1, x)
    }
}

/// Every line that the resolution keeps reads back as itself: it ends with no carriage
/// return of its own, which would become part of the line feed written behind it. A last
/// line without a line feed gets none.
pub open spec fn keeps_plain_lines(content: Seq<char>, take: Resolution) -> bool {
    let ls = lines(content);
    forall|i: int|
        0 <= i < ls.len() && #[trigger] kept_at(ls, claim_zone(take), i) && (i < ls.len() - 1
            || content.last() == '\n') ==> chomped(ls[i]) == ls[i]
}

/// What is written keeps what was there, and so does its text.
proof fn rewritten_lines_read_back(
    content: Seq<char>,
    all: Seq<Seq<char>>,
    take: Resolution,
)
    requires
        keeps_plain_lines(content, take),
        content.len() > 0,
        all.len() > 0,
        lines(content).len() > 0,
        all.last() == lines(content).last(),
        unbroken_lines(all),
        zone_before(all, all.len() as int) == Zone::Frame,
        kept(all, claim_zone(take), all.len() as int) == kept(
            lines(content),
            claim_zone(take),
            lines(content).len() as int,
        ),
    ensures
        ({
            let text = if content.last() == '\n' {
                unlines(all)
            } else {
                without_feeds(unlines(all))
            };
            resolution_of(text, take) == resolution_of(content, take)
        }),
{
    let ls = lines(content);
    let keep = claim_zone(take);
    let n = all.len() as int;
    let m = ls.len() as int;
    let fed = content.last() == '\n';
    let w = if fed {
        chomped_lines(all)
    } else {
        chomped_lines(all.drop_last()).push(all.last())
    };
    if fed {
        assert forall|i: int| 0 <= i < n implies !(#[trigger] all[i]).contains('\n') by {
            assert(unbroken(all[i]));
        }
        written_lines_read_back(all);
    } else {
        last_line_of(content, 0);
        lines_without_the_last_feed(all);
    }
    assert forall|i: int| 0 <= i < n && #[trigger] kept_at(all, keep, i) implies w[i]
        == all[i] by {
        if i < n - 1 || fed {
            what_is_kept_is_listed(all, keep, n, i);
            let last = all[n - 1];
            if !fed && kept_at(ls, keep, m - 1) {
                let z = zone_before(all, n - 1);
                assert(last == ls[m - 1]);
                assert(next_zone(z, last) == Zone::Frame);
                assert(z == Zone::Frame);
                assert(kept_at(all, keep, n - 1));
                assert(kept(all, keep, n).drop_last() =~= kept(all, keep, n - 1));
                assert(kept(ls, keep, m).drop_last() =~= kept(ls, keep, m - 1));
                what_is_kept_is_listed(all, keep, n - 1, i);
                let j = what_is_listed_is_kept(ls, keep, m - 1, all[i]);
                assert(chomped(ls[j]) == ls[j]);
            } else {
                let j = what_is_listed_is_kept(ls, keep, m, all[i]);
                assert(chomped(ls[j]) == ls[j]);
            }
        }
    }
    alike_lines_are_kept_alike(all, w, keep, n);
}

/// Coalescing changes how many decisions a reader is asked for, and nothing about
/// what the file resolves to: under either standard resolution the coalesced file
/// says what the file said.
pub proof fn coalescing_changes_no_resolution(content: Seq<char>, take: Resolution)
    requires
        coalesces_cleanly(content, 7),
        coalesced(content, 7) != content ==> keeps_plain_lines(content, take),
    ensures
        resolution_of(coalesced(content, 7), take) == resolution_of(content, take),
{
    let ps = pieces_of(content, 7);
    let np = ps.len() as int;
    if coalesced(content, 7) != content {
        let ls = lines(content);
        let keep = claim_zone(take);
        let m = marks(7);
        let none = Seq::<Seq<char>>::empty();
        assert(m.read(ls, 0, none) is Some) by {
            if m.read(ls, 0, none) is None {
                assert(ps =~= seq![PieceView::Frame(ls)]);
                reveal_with_fuel(box_count, 2);
            }
        }
        lines_hold_no_line_feed(content, 0);
        assert forall|i: int| 0 <= i < ls.len() implies unbroken(#[trigger] ls[i]) by {
        }
        reading_keeps(ls, 0, none, keep);
        assert(none + ls.skip(0) =~= ls);
        folding_keeps(ps, keep, np);
        folding_keeps_the_end(ps, np);
        let fs = folded(ps, np);
        let nf = fs.len() as int;
        let all = written(fs, 7, nf);
        written_keeps(fs, keep, nf);
        written_is_unbroken(fs, nf);
        kept_is_a_run(ls, keep, ls.len() as int);
        assert(ls.take(ls.len() as int) =~= ls);
        kept_is_a_run(all, keep, all.len() as int);
        assert(all.take(all.len() as int) =~= all);
        if ls.len() == 0 {
            assert(ps =~= seq![PieceView::Frame(none)]);
            reveal_with_fuel(box_count, 2);
            assert(false);
        }
        rewritten_lines_read_back(content, all, take);
    }
}

// ---------------------------------------------------------------------------
// Files that coalesce cleanly
// ---------------------------------------------------------------------------

/// The line stands where it belongs: an opening marker outside every box, a base
/// marker in our claim, a separator behind our claim or the base section, a closing
/// marker behind their claim, and a refusal line inside a box only. A base marker right
/// behind an opening one does not read as a refusal line.
pub open spec fn in_place(ls: Seq<Seq<char>>, i: int) -> bool {
    let z = zone_before(ls, i);
    let l = ls[i];
    &&& opens(l) ==> z == Zone::Frame
    &&& bars(l) ==> z == Zone::Ours
    &&& separates(l) ==> z == Zone::Ours || z == Zone::Base
    &&& closes(l) ==> z == Zone::Theirs
    &&& refusal_text(l) is Some && z == Zone::Frame ==> opens(l)
    &&& refusal_text(l) is Some && bars(l) && i > 0 ==> !opens(ls[i - 1])
}

/// Every line stands where it belongs. The last box may be cut short.
pub open spec fn all_in_place(ls: Seq<Seq<char>>) -> bool {
    forall|i: int| 0 <= i < ls.len() ==> #[trigger] in_place(ls, i)
}

/// The piece merges cleanly with whatever stands beside it.
spec fn clean(p: PieceView) -> bool {
    match p {
        PieceView::Frame(ls) => forall|i: int| 0 <= i < ls.len() ==> ordinary(#[trigger] ls[i]),
        PieceView::Box(b) => refusal_is_no_mark(b) && forall|i: int|
            0 <= i < b.theirs.len() ==> !bars(#[trigger] b.theirs[i]),
    }
}

spec fn all_clean(ps: Seq<PieceView>) -> bool {
    forall|k: int| 0 <= k < ps.len() ==> clean(#[trigger] ps[k])
}

proof fn section_keeps_its_zone(ls: Seq<Seq<char>>, section: Section, i: int, j: int)
    requires
        all_in_place(ls),
        0 <= i <= j <= ls.len(),
        zone_before(ls, i) == match section {
            Section::Ours => Zone::Ours,
            Section::Base => Zone::Base,
            Section::Theirs => Zone::Theirs,
        },
        forall|k: int| i <= k < j ==> !marks(7).stops(section, #[trigger] ls[k]),
    ensures
        zone_before(ls, j) == zone_before(ls, i),
        forall|k: int| i <= k < j ==> !any_mark(#[trigger] ls[k]),
    decreases j - i,
{
    seven_marks();
    if i < j {
        section_keeps_its_zone(ls, section, i, j - 1);
        assert(in_place(ls, j - 1));
        assert(!marks(7).stops(section, ls[j - 1]));
        assert(!any_mark(ls[j - 1]));
    }
}

proof fn unmarked_lines_keep_the_zone(ls: Seq<Seq<char>>, i: int, j: int)
    requires
        0 <= i <= j <= ls.len(),
        forall|k: int| i <= k < j ==> !any_mark(#[trigger] ls[k]),
    ensures
        zone_before(ls, j) == zone_before(ls, i),
    decreases j - i,
{
    if i < j {
        unmarked_lines_keep_the_zone(ls, i, j - 1);
    }
}

/// The refusal line of a box whose lines are in place is no marker.
proof fn a_refusal_in_place_is_no_mark(ls: Seq<Seq<char>>, i: int)
    requires
        all_in_place(ls),
        0 <= i < ls.len(),
        opens(ls[i]),
        marks(7).boxed(ls, i),
        marks(7).ours_at(ls, i) == i + 2,
    ensures
        !any_mark(ls[i + 1]),
{
    let m = marks(7);
    seven_marks();
    m.box_bounds(ls, i);
    assert(in_place(ls, i));
    assert(in_place(ls, i + 1));
    assert(zone_before(ls, i + 1) == Zone::Ours);
    if separates(ls[i + 1]) {
        marks_differ(ls[i + 1]);
        assert(zone_before(ls, i + 2) == Zone::Theirs);
        let e = m.ours_end(ls, i);
        m.stop_at_bounds(Section::Ours, ls, i + 2);
        assert forall|k: int| i + 2 <= k < e implies !any_mark(#[trigger] ls[k]) by {
            assert(!m.stops(Section::Ours, ls[k]));
        }
        unmarked_lines_keep_the_zone(ls, i + 2, e);
        if e < ls.len() {
            assert(in_place(ls, e));
            marks_differ(ls[e]);
        }
    }
}

proof fn a_box_in_place_is_clean(ls: Seq<Seq<char>>, i: int)
    requires
        all_in_place(ls),
        0 <= i < ls.len(),
        opens(ls[i]),
        marks(7).boxed(ls, i),
    ensures
        clean(PieceView::Box(marks(7).box_at(ls, i))),
        zone_before(ls, marks(7).close_at(ls, i) + 1) == Zone::Frame,
        marks(7).close_at(ls, i) < ls.len(),
{
    let m = marks(7);
    seven_marks();
    m.box_bounds(ls, i);
    let a = m.ours_at(ls, i);
    let e = m.ours_end(ls, i);
    let s = m.sep_at(ls, i);
    let c = m.close_at(ls, i);
    assert(in_place(ls, i));
    assert(zone_before(ls, i + 1) == Zone::Ours);
    if a == i + 2 {
        a_refusal_in_place_is_no_mark(ls, i);
        assert(zone_before(ls, i + 2) == next_zone(Zone::Ours, ls[i + 1]));
    }
    assert(zone_before(ls, a) == Zone::Ours);
    m.stop_at_bounds(Section::Ours, ls, a);
    section_keeps_its_zone(ls, Section::Ours, a, e);
    if m.has_base(ls, i) {
        marks_differ(ls[e]);
        assert(zone_before(ls, e + 1) == Zone::Base);
        m.stop_at_bounds(Section::Base, ls, e + 1);
        section_keeps_its_zone(ls, Section::Base, e + 1, s);
    }
    marks_differ(ls[s]);
    assert(zone_before(ls, s + 1) == Zone::Theirs);
    m.stop_at_bounds(Section::Theirs, ls, s + 1);
    section_keeps_its_zone(ls, Section::Theirs, s + 1, c);
    marks_differ(ls[c]);
    assert(zone_before(ls, c + 1) == Zone::Frame);
    let b = m.box_at(ls, i);
    assert forall|k: int| 0 <= k < b.theirs.len() implies !bars(#[trigger] b.theirs[k]) by {
        assert(b.theirs[k] == ls[s + 1 + k]);
        assert(!any_mark(ls[s + 1 + k]));
    }
}

proof fn reading_in_place_is_clean(ls: Seq<Seq<char>>, i: int, frame: Seq<Seq<char>>)
    requires
        all_in_place(ls),
        0 <= i <= ls.len(),
        zone_before(ls, i) == Zone::Frame,
        forall|k: int| 0 <= k < frame.len() ==> ordinary(#[trigger] frame[k]),
        marks(7).read(ls, i, frame) is Some,
    ensures
        all_clean(marks(7).read(ls, i, frame)->0),
    decreases ls.len() - i,
{
    let m = marks(7);
    let ps = m.read(ls, i, frame)->0;
    seven_marks();
    if i >= ls.len() {
        assert(ps =~= seq![PieceView::Frame(frame)]);
    } else if !opens(ls[i]) {
        assert(in_place(ls, i));
        assert(ordinary(ls[i]));
        let next = frame.push(ls[i]);
        assert forall|k: int| 0 <= k < next.len() implies ordinary(#[trigger] next[k]) by {
            if k < frame.len() {
                assert(next[k] == frame[k]);
            }
        }
        reading_in_place_is_clean(ls, i + 1, next);
    } else {
        a_box_in_place_is_clean(ls, i);
        m.box_bounds(ls, i);
        let c = m.close_at(ls, i);
        let b = m.box_at(ls, i);
        let rest = m.read(ls, c + 1, Seq::empty())->0;
        reading_in_place_is_clean(ls, c + 1, Seq::empty());
        let two = seq![PieceView::Frame(frame), PieceView::Box(b)];
        assert(ps == two + rest);
        assert forall|k: int| 0 <= k < ps.len() implies clean(#[trigger] ps[k]) by {
            if k >= 2 {
                assert(ps[k] == rest[k - 2]);
            } else if k == 0 {
                assert(ps[0] == PieceView::Frame(frame));
            } else {
                assert(ps[1] == PieceView::Box(b));
            }
        }
    }
}

proof fn folding_stays_clean(ps: Seq<PieceView>, k: int)
    requires
        all_clean(ps),
        0 <= k <= ps.len(),
    ensures
        all_clean(folded(ps, k)),
        k < ps.len() ==> merges_cleanly(folded(ps, k), ps[k]),
    decreases k,
{
    if k > 0 {
        folding_stays_clean(ps, k - 1);
        let out = folded(ps, k - 1);
        let next = ps[k - 1];
        let all = folded(ps, k);
        let n = out.len();
        assert(clean(next));
        assert forall|j: int| 0 <= j < all.len() implies clean(#[trigger] all[j]) by {
            if mergeable(out, next) {
                if j < n - 2 {
                    assert(all[j] == out[j]);
                } else {
                    let prev = out[n - 2]->Box_0;
                    let gap = out[n - 1]->Frame_0;
                    assert(clean(out[n - 2]));
                    assert(clean(out[n - 1]));
                    let both = prev.theirs + gap + (next->Box_0).theirs;
                    assert forall|i: int| 0 <= i < both.len() implies !bars(#[trigger] both[i]) by {
                        if i < prev.theirs.len() {
                            assert(both[i] == prev.theirs[i]);
                        } else if i < prev.theirs.len() + gap.len() {
                            assert(both[i] == gap[i - prev.theirs.len()]);
                            assert(ordinary(gap[i - prev.theirs.len()]));
                        } else {
                            assert(both[i] == (next->Box_0).theirs[i - prev.theirs.len()
                                - gap.len()]);
                        }
                    }
                }
            } else if j < n {
                assert(all[j] == out[j]);
            }
        }
    }
    if k < ps.len() {
        let out = folded(ps, k);
        assert(clean(ps[k]));
        if mergeable(out, ps[k]) {
            assert(clean(out[out.len() - 2]));
            assert(clean(out[out.len() - 1]));
        }
    }
}

/// A file coalesces cleanly where every marker line stands where it belongs in a box
/// and no refusal line stands outside one. The last box may be cut short.
pub proof fn a_file_with_its_markers_in_place_coalesces_cleanly(content: Seq<char>)
    requires
        all_in_place(lines(content)),
    ensures
        coalesces_cleanly(content, 7),
{
    let ls = lines(content);
    let ps = pieces_of(content, 7);
    let none = Seq::<Seq<char>>::empty();
    seven_marks();
    if marks(7).read(ls, 0, none) is Some {
        reading_in_place_is_clean(ls, 0, none);
        assert forall|k: int|
            0 <= k < ps.len() && (#[trigger] ps[k]) is Box && (
            ps[k]->Box_0).refusal is Some implies !closes((ps[k]->Box_0).refusal->0) by {
            assert(clean(ps[k]));
        }
        assert forall|k: int| 0 <= k < ps.len() implies merges_cleanly(
            folded(ps, k),
            #[trigger] ps[k],
        ) by {
            folding_stays_clean(ps, k);
        }
    } else {
        assert(ps =~= seq![PieceView::Frame(ls)]);
    }
}

/// Coalescing changes nothing about what a file resolves to, where every marker line
/// stands where it belongs and what the resolution keeps reads back as itself.
pub proof fn coalescing_keeps_what_boxes_in_place_resolve_to(content: Seq<char>, take: Resolution)
    requires
        all_in_place(lines(content)),
        coalesced(content, 7) != content ==> keeps_plain_lines(content, take),
    ensures
        resolution_of(coalesced(content, 7), take) == resolution_of(content, take),
{
    a_file_with_its_markers_in_place_coalesces_cleanly(content);
    coalescing_changes_no_resolution(content, take);
}

proof fn marks_exclude_each_other(n: nat, l: Seq<char>)
    requires
        n > 0,
    ensures
        starts(l, repeat('<', n)) ==> !starts(l, repeat('=', n)) && !starts(l, repeat('>', n))
            && !starts(l, repeat('|', n)),
{
    if starts(l, repeat('<', n)) {
        assert(l.subrange(0, n as int)[0] == repeat('<', n)[0]);
        if starts(l, repeat('=', n)) {
            assert(l.subrange(0, n as int)[0] == repeat('=', n)[0]);
        }
        if starts(l, repeat('>', n)) {
            assert(l.subrange(0, n as int)[0] == repeat('>', n)[0]);
        }
        if starts(l, repeat('|', n)) {
            assert(l.subrange(0, n as int)[0] == repeat('|', n)[0]);
        }
    }
}

/// The box that opens at line `j` is never closed: no separator with a closing marker
/// behind it follows.
pub open spec fn stays_open(ls: Seq<Seq<char>>, n: nat, j: int) -> bool {
    &&& starts(ls[j], repeat('<', n))
    &&& forall|s: int, c: int|
        j < s < c < ls.len() ==> !(starts(#[trigger] ls[s], repeat('=', n)) && starts(
            #[trigger] ls[c],
            repeat('>', n),
        ))
}

proof fn an_open_box_is_not_read(
    ls: Seq<Seq<char>>,
    n: nat,
    i: int,
    frame: Seq<Seq<char>>,
    j: int,
)
    requires
        n > 0,
        0 <= i <= j < ls.len(),
        stays_open(ls, n, j),
    ensures
        marks(n).read(ls, i, frame) is None,
    decreases ls.len() - i,
{
    let m = marks(n);
    if !starts(ls[i], m.open) {
        an_open_box_is_not_read(ls, n, i + 1, frame.push(ls[i]), j);
    } else if m.boxed(ls, i) {
        m.box_bounds(ls, i);
        let s = m.sep_at(ls, i);
        let c = m.close_at(ls, i);
        if j < s {
            assert(starts(ls[s], repeat('=', n)) && starts(ls[c], repeat('>', n)));
        } else if j <= c {
            marks_exclude_each_other(n, ls[j]);
            m.stop_at_bounds(Section::Theirs, ls, s + 1);
            if s < j < c {
                assert(!m.stops(Section::Theirs, ls[j]));
            }
        } else {
            an_open_box_is_not_read(ls, n, c + 1, Seq::empty(), j);
        }
    }
}

/// A file with a box that is never closed comes back as it is.
pub proof fn an_open_box_leaves_the_file_alone(content: Seq<char>, n: nat, j: int)
    requires
        n > 0,
        0 <= j < lines(content).len(),
        stays_open(lines(content), n, j),
    ensures
        coalesced(content, n) == content,
{
    an_open_box_is_not_read(lines(content), n, 0, Seq::empty(), j);
    let ps = pieces_of(content, n);
    assert(ps =~= seq![PieceView::Frame(lines(content))]);
    reveal_with_fuel(box_count, 2);
}

proof fn boxes_of_two(a: Seq<PieceView>, b: Seq<PieceView>, k: int)
    requires
        0 <= k <= b.len(),
    ensures
        box_count(a + b, a.len() + k) == box_count(a, a.len() as int) + box_count(b, k),
    decreases k,
{
    if k > 0 {
        boxes_of_two(a, b, k - 1);
        assert((a + b)[a.len() + k - 1] == b[k - 1]);
    } else {
        boxes_of_a_front(a, b, a.len() as int);
    }
}

proof fn boxes_of_a_front(a: Seq<PieceView>, b: Seq<PieceView>, k: int)
    requires
        0 <= k <= a.len(),
    ensures
        box_count(a + b, k) == box_count(a, k),
    decreases k,
{
    if k > 0 {
        boxes_of_a_front(a, b, k - 1);
        assert((a + b)[k - 1] == a[k - 1]);
    }
}

/// How many of the lines from the `i`th on open a box.
pub open spec fn openings(ls: Seq<Seq<char>>, n: nat, i: int) -> nat
    decreases ls.len() - i,
{
    if i < 0 || i >= ls.len() {
        0
    } else {
        openings(ls, n, i + 1) + if starts(ls[i], repeat('<', n)) {
            1nat
        } else {
            0nat
        }
    }
}

proof fn fewer_openings_further_on(ls: Seq<Seq<char>>, n: nat, i: int, j: int)
    requires
        0 <= i <= j,
    ensures
        openings(ls, n, j) <= openings(ls, n, i),
    decreases j - i,
{
    if i < j {
        fewer_openings_further_on(ls, n, i + 1, j);
    }
}

proof fn every_box_is_opened(ls: Seq<Seq<char>>, n: nat, i: int, frame: Seq<Seq<char>>)
    requires
        0 <= i,
    ensures
        marks(n).read(ls, i, frame) matches Some(ps) ==> box_count(ps, ps.len() as int)
            <= openings(ls, n, i),
    decreases ls.len() - i,
{
    let m = marks(n);
    reveal_with_fuel(box_count, 3);
    if i < ls.len() {
        if !starts(ls[i], m.open) {
            every_box_is_opened(ls, n, i + 1, frame.push(ls[i]));
        } else if m.boxed(ls, i) {
            m.box_bounds(ls, i);
            let c = m.close_at(ls, i);
            every_box_is_opened(ls, n, c + 1, Seq::empty());
            fewer_openings_further_on(ls, n, i + 1, c + 1);
            if let Some(rest) = m.read(ls, c + 1, Seq::empty()) {
                let two = seq![PieceView::Frame(frame), PieceView::Box(m.box_at(ls, i))];
                boxes_of_two(two, rest, rest.len() as int);
                assert(box_count(two, 2) == 1);
            }
        }
    }
}

/// A file with fewer than two boxes comes back as it is.
pub proof fn fewer_than_two_boxes_leave_the_file_alone(content: Seq<char>, n: nat)
    requires
        openings(lines(content), n, 0) < 2,
    ensures
        coalesced(content, n) == content,
{
    every_box_is_opened(lines(content), n, 0, Seq::empty());
    if marks(n).read(lines(content), 0, Seq::empty()) is None {
        assert(pieces_of(content, n) =~= seq![PieceView::Frame(lines(content))]);
        reveal_with_fuel(box_count, 2);
    }
}

// ---------------------------------------------------------------------------
// A written conflict resolves to its sides
// ---------------------------------------------------------------------------

/// The line is a side's own wherever it stands: no marker, no refusal line and no
/// teach line.
pub open spec fn claimable(line: Seq<char>) -> bool {
    ordinary(line) && !teaches(line)
}

/// All of the lines are a side's own.
pub open spec fn all_claimable(ls: Seq<Seq<char>>) -> bool {
    forall|i: int| 0 <= i < ls.len() ==> claimable(#[trigger] ls[i])
}

proof fn claims_are_kept(ls: Seq<Seq<char>>, z: Zone, keep: Zone)
    requires
        all_claimable(ls),
        z == Zone::Frame || z == keep,
    ensures
        zone_run(ls, z) == z,
        keep_run(ls, z, keep) == ls,
    decreases ls.len(),
{
    if ls.len() > 0 {
        let front = ls.drop_last();
        assert(all_claimable(front)) by {
            assert forall|i: int| 0 <= i < front.len() implies claimable(#[trigger] front[i]) by {
                assert(front[i] == ls[i]);
            }
        }
        claims_are_kept(front, z, keep);
        assert(claimable(ls[ls.len() - 1]));
        assert(front.push(ls.last()) =~= ls);
    } else {
        assert(keep_run(ls, z, keep) =~= ls);
    }
}

proof fn claims_of_a_part(ls: Seq<Seq<char>>, i: int, j: int)
    requires
        all_claimable(ls),
        0 <= i <= j <= ls.len(),
    ensures
        all_claimable(ls.subrange(i, j)),
        forall|k: int| 0 <= k < j - i ==> !any_mark(#[trigger] ls.subrange(i, j)[k]),
{
    let p = ls.subrange(i, j);
    assert forall|k: int| 0 <= k < p.len() implies claimable(#[trigger] p[k]) by {
        assert(p[k] == ls[i + k]);
    }
}

/// A conflict whose box can be told from its sides: no line of a side reads as
/// furniture, the comment prefix is punctuation and shorter than a marker, and what the
/// box says of itself stands on one line each.
pub open spec fn distinct_box(c: EntityConflictView, fmt: MarkerFormatView, guard: Seq<char>) -> bool {
    &&& fmt.marker_length == 7
    &&& fmt.enhanced ==> tidy_prefix(fmt.comment_prefix) && fmt.comment_prefix.len() < 7
    &&& all_claimable(lines(or_empty(c.ours)))
    &&& all_claimable(lines(or_empty(c.theirs)))
    &&& all_claimable(lines(or_empty(c.base)))
    &&& unbroken_lines(c.marker_lines(fmt, guard))
}

/// The box of a written conflict.
spec fn box_of(c: EntityConflictView, fmt: MarkerFormatView, guard: Seq<char>) -> BoxView {
    let s = c.sides(fmt.enhanced);
    BoxView {
        open: c.opening(fmt, guard)[0],
        refusal: if fmt.enhanced {
            Some(refusal_line_of(fmt.comment_prefix, guard, c.base, c.ours, c.theirs))
        } else {
            None
        },
        ours: s.hole(s.ours->0),
        base: if fmt.enhanced {
            None
        } else {
            Some(s.hole(s.base->0))
        },
        theirs: s.hole(s.theirs->0),
        close: c.closing(fmt),
        scope: Seq::empty(),
    }
}

proof fn markers_mark(c: EntityConflictView, fmt: MarkerFormatView, guard: Seq<char>)
    requires
        fmt.marker_length == 7,
    ensures
        opens(c.opening(fmt, guard)[0]),
        closes(c.closing(fmt)),
{
    reveal_strlit("<<<<<<<");
    reveal_strlit(">>>>>>>");
    assert(c.opening(fmt, guard)[0].subrange(0, 7) =~= "<<<<<<<"@);
    assert(c.closing(fmt).subrange(0, 7) =~= ">>>>>>>"@);
}

proof fn a_refusal_line_is_no_mark(prefix: Seq<char>, rest: Seq<char>)
    requires
        prefix.len() < 7,
    ensures
        !any_mark(prefix + " refused_by: "@ + rest),
{
    reveal_strlit(" refused_by: ");
    reveal_strlit("<<<<<<<");
    reveal_strlit(">>>>>>>");
    reveal_strlit("=======");
    reveal_strlit("|||||||");
    let line = prefix + " refused_by: "@ + rest;
    let n = prefix.len() as int;
    assert(line[n] == ' ');
    assert(line.subrange(0, 7)[n] == ' ');
}

proof fn unbroken_parts(a: Seq<Seq<char>>, b: Seq<Seq<char>>)
    requires
        unbroken_lines(a + b),
    ensures
        unbroken_lines(a),
        unbroken_lines(b),
{
    assert forall|i: int| 0 <= i < a.len() implies unbroken(#[trigger] a[i]) by {
        assert((a + b)[i] == a[i]);
    }
    assert forall|i: int| 0 <= i < b.len() implies unbroken(#[trigger] b[i]) by {
        assert((a + b)[a.len() + i] == b[i]);
    }
}

proof fn box_is_sound(b: BoxView, bar: Seq<char>, sep: Seq<char>)
    requires
        unbroken_lines(box_with(b, bar, sep)),
        opens(b.open),
        closes(b.close),
        b.refusal is Some ==> refusal_text(b.refusal->0) is Some && !any_mark(b.refusal->0),
        forall|i: int| 0 <= i < b.ours.len() ==> !any_mark(#[trigger] b.ours[i]),
        forall|i: int| 0 <= i < b.theirs.len() ==> !any_mark(#[trigger] b.theirs[i]),
        b.base is Some ==> forall|i: int|
            0 <= i < (b.base->0).len() ==> !any_mark(#[trigger] (b.base->0)[i]),
    ensures
        sound_box(b),
{
    let head = box_head(b);
    let mid = box_middle(b, bar);
    unbroken_parts(head + b.ours + mid + seq![sep] + b.theirs, seq![b.close]);
    unbroken_parts(head + b.ours + mid + seq![sep], b.theirs);
    unbroken_parts(head + b.ours + mid, seq![sep]);
    unbroken_parts(head + b.ours, mid);
    unbroken_parts(head, b.ours);
    assert(unbroken(seq![b.close][0]));
    assert(unbroken(head[0]));
    if let Some(r) = b.refusal {
        assert(head[1] == r);
        assert(unbroken(head[1]));
    }
    if let Some(base) = b.base {
        unbroken_parts(seq![bar], base);
    }
}

/// The text that a resolution takes of a conflict.
pub open spec fn taken(c: EntityConflictView, take: Resolution) -> Seq<char> {
    match take {
        Resolution::Ours => or_empty(c.ours),
        Resolution::Theirs => or_empty(c.theirs),
    }
}

/// Taking one side of a written conflict gives that side's text, line by line, where its
/// lines read back as themselves.
#[verifier::spinoff_prover]
#[verifier::rlimit(60)]
pub proof fn a_written_conflict_resolves_to_its_sides(
    c: EntityConflictView,
    fmt: MarkerFormatView,
    guard: Seq<char>,
    take: Resolution,
)
    requires
        distinct_box(c, fmt, guard),
        forall|i: int|
            0 <= i < lines(taken(c, take)).len() ==> chomped(#[trigger] lines(taken(c, take))[i])
                == lines(taken(c, take))[i],
    ensures
        resolution_of(c.markers(fmt, guard), take) == unlines(lines(taken(c, take))),
{
    let s = c.sides(fmt.enhanced);
    let ls = c.marker_lines(fmt, guard);
    let keep = claim_zone(take);
    let b = box_of(c, fmt, guard);
    let bar = repeat('|', 7) + " base"@;
    let sep = repeat('=', 7);
    let (fp, fs) = (s.frame_prefix(), s.frame_suffix());
    seven_marks();
    markers_mark(c, fmt, guard);
    assert forall|i: int| 0 <= i < ls.len() implies !(#[trigger] ls[i]).contains('\n') by {
        assert(unbroken(ls[i]));
    }
    written_lines_read_back(ls);
    let w = chomped_lines(ls);
    let boxed = box_with(b, bar, sep);
    assert(box_head(b) =~= c.opening(fmt, guard));
    assert(box_middle(b, bar) =~= c.base_section(fmt));
    assert(ls =~= fp + boxed + fs);
    s.frame_and_hole_tile(s.ours->0);
    s.frame_and_hole_tile(s.theirs->0);
    let (p, q) = (s.prefix(), s.suffix());
    let (o, t) = (s.ours->0, s.theirs->0);
    claims_of_a_part(o, p, o.len() - q);
    claims_of_a_part(t, p, t.len() - q);
    claims_of_a_part(o, 0, p);
    claims_of_a_part(o, o.len() - q, o.len() as int);
    if !fmt.enhanced {
        s.frame_and_hole_tile(s.base->0);
        claims_of_a_part(s.base->0, p, (s.base->0).len() - q);
    } else {
        let body = guard + " · collision: "@ + collision_of(c.base, c.ours, c.theirs);
        refusal_reads_back(fmt.comment_prefix, body);
        a_refusal_line_is_no_mark(fmt.comment_prefix, body);
        assert(b.refusal->0 =~= fmt.comment_prefix + " refused_by: "@ + body);
    }
    assert(unbroken_lines(boxed)) by {
        unbroken_parts(fp + boxed, fs);
        unbroken_parts(fp, boxed);
    }
    box_is_sound(b, bar, sep);
    box_run(b, bar, sep, keep);
    run_of_two(fp + boxed, fs, Zone::Frame, keep);
    run_of_two(fp, boxed, Zone::Frame, keep);
    claims_are_kept(fp, Zone::Frame, keep);
    claims_are_kept(fs, Zone::Frame, keep);
    match take {
        Resolution::Ours => {
            claims_are_kept(b.ours, Zone::Ours, keep);
            their_lines_stay_away(b.theirs);
            assert(b.ours + Seq::<Seq<char>>::empty() =~= b.ours);
        },
        Resolution::Theirs => {
            our_lines_stay_away(b.ours);
            claims_are_kept(b.theirs, Zone::Theirs, keep);
            assert(Seq::<Seq<char>>::empty() + b.theirs =~= b.theirs);
        },
    }
    kept_is_a_run(ls, keep, ls.len() as int);
    assert(ls.take(ls.len() as int) =~= ls);
    let side = lines(taken(c, take));
    assert(kept(ls, keep, ls.len() as int) =~= side);
    assert forall|i: int| 0 <= i < ls.len() && #[trigger] kept_at(ls, keep, i) implies w[i]
        == ls[i] by {
        what_is_kept_is_listed(ls, keep, ls.len() as int, i);
        let j = choose|j: int| 0 <= j < side.len() && side[j] == ls[i];
        assert(chomped(side[j]) == side[j]);
    }
    alike_lines_are_kept_alike(ls, w, keep, ls.len() as int);
}


// ---------------------------------------------------------------------------
// Which boxes are joined
// ---------------------------------------------------------------------------

/// Do the box at `k`, the frame behind it and the next box ask one question? Both boxes
/// are about the same thing, and at most six lines stand between them.
pub open spec fn one_question(ps: Seq<PieceView>, k: int) -> bool {
    &&& 0 <= k
    &&& k + 2 < ps.len()
    &&& ps[k] is Box && ps[k + 1] is Frame && ps[k + 2] is Box
    &&& (ps[k]->Box_0).scope == (ps[k + 2]->Box_0).scope
    &&& (ps[k + 1]->Frame_0).len() <= 6
}

/// Boxes that ask different questions are left as they are.
pub proof fn different_questions_stay_apart(ps: Seq<PieceView>, k: int)
    requires
        0 <= k <= ps.len(),
        forall|i: int| !#[trigger] one_question(ps, i),
    ensures
        folded(ps, k) == ps.take(k),
    decreases k,
{
    if k > 0 {
        different_questions_stay_apart(ps, k - 1);
        let front = ps.take(k - 1);
        assert(!one_question(ps, k - 3));
        assert(!mergeable(front, ps[k - 1])) by {
            if mergeable(front, ps[k - 1]) {
                assert(front[k - 3] == ps[k - 3] && front[k - 2] == ps[k - 2]);
                assert(one_question(ps, k - 3));
            }
        }
        assert(ps.take(k) =~= front.push(ps[k - 1]));
    } else {
        assert(ps.take(0) =~= Seq::empty());
    }
}

/// After folding, no two boxes that ask one question are left side by side.
pub proof fn one_question_is_asked_once(ps: Seq<PieceView>, k: int)
    requires
        0 <= k <= ps.len(),
    ensures
        forall|i: int| !#[trigger] one_question(folded(ps, k), i),
    decreases k,
{
    if k > 0 {
        one_question_is_asked_once(ps, k - 1);
        let out = folded(ps, k - 1);
        let next = ps[k - 1];
        let now = folded(ps, k);
        let n = out.len() as int;
        assert forall|i: int| !#[trigger] one_question(now, i) by {
            if one_question(now, i) {
                if mergeable(out, next) {
                    assert(now.len() == n - 1);
                    assert(now[i] == out[i] && now[i + 1] == out[i + 1]);
                    if i + 2 < n - 2 {
                        assert(now[i + 2] == out[i + 2]);
                    } else {
                        assert((now[n - 2]->Box_0).scope == (out[n - 2]->Box_0).scope);
                    }
                    assert(one_question(out, i));
                } else if i + 2 < n {
                    assert(now[i] == out[i] && now[i + 1] == out[i + 1] && now[i + 2] == out[i
                        + 2]);
                    assert(one_question(out, i));
                } else {
                    assert(now[i] == out[n - 2] && now[i + 1] == out[n - 1]);
                    assert(mergeable(out, next));
                }
            }
        }
    }
}

} // verus!
