//! The line-level difference of two texts, as plain data.

use vstd::prelude::*;
use crate::text::without_feeds;
use crate::v2::types::opt_view;

verus! {

/// One line of a hunk, with its line feed where it has one.
#[derive(Debug, Clone)]
pub enum PatchLine {
    /// A line of both texts.
    Context(String),
    /// A line that only the original has.
    Delete(String),
    /// A line that only the modified text has.
    Insert(String),
}

/// A [`PatchLine`] with its string read as a text.
pub enum PatchLineView {
    Context(Seq<char>),
    Delete(Seq<char>),
    Insert(Seq<char>),
}

impl View for PatchLine {
    type V = PatchLineView;

    open spec fn view(&self) -> PatchLineView {
        match *self {
            PatchLine::Context(s) => PatchLineView::Context(s@),
            PatchLine::Delete(s) => PatchLineView::Delete(s@),
            PatchLine::Insert(s) => PatchLineView::Insert(s@),
        }
    }
}

/// One run of differing lines: the lines of the original it stands for, and what
/// became of each.
#[derive(Debug, Clone)]
pub struct PatchHunk {
    /// The number of the first line, counted from one; for a pure insertion the
    /// number of the line it comes behind.
    pub start: usize,
    /// How many lines of the original there are.
    pub len: usize,
    pub lines: Vec<PatchLine>,
}

/// A [`PatchHunk`] with its lines read as texts.
pub struct PatchHunkView {
    pub start: usize,
    pub len: usize,
    pub lines: Seq<PatchLineView>,
}

impl View for PatchHunk {
    type V = PatchHunkView;

    open spec fn view(&self) -> PatchHunkView {
        PatchHunkView {
            start: self.start,
            len: self.len,
            lines: self.lines@.map_values(|l: PatchLine| l@),
        }
    }
}

/// The views of a list of hunks.
pub open spec fn hunk_views(v: Seq<PatchHunk>) -> Seq<PatchHunkView> {
    v.map_values(|h: PatchHunk| h@)
}

/// The hunks of the patch that `diffy::DiffOptions::create_patch` makes of two
/// texts with the given number of context lines.
pub uninterp spec fn patch_hunks(
    context_len: nat,
    original: Seq<char>,
    modified: Seq<char>,
) -> Seq<PatchHunkView>;

/// `diffy::DiffOptions::create_patch`, under `set_context_len`: the hunks are a
/// function of the two texts and of the context length; two equal texts have none,
/// and two others have one. The end of a hunk's range is a number that fits, and a
/// range that is not empty counts its lines from one. Without context a hunk's range
/// has as many lines as the hunk deletes, and the hunk deletes or inserts one.
#[verifier::external_body]
pub(crate) fn create_patch(context_len: usize, original: &str, modified: &str) -> (r: Vec<PatchHunk>)
    ensures
        hunk_views(r@) == patch_hunks(context_len as nat, original@, modified@),
        r@.len() == 0 <==> original@ == modified@,
        forall|i: int| 0 <= i < r@.len() ==> (#[trigger] r@[i]).start + r@[i].len < usize::MAX,
        forall|i: int| 0 <= i < r@.len() && (#[trigger] r@[i]).len > 0 ==> r@[i].start > 0,
        context_len == 0 ==> forall|i: int|
            0 <= i < r@.len() ==> changes_lines(#[trigger] r@[i]@),
{
    let mut options = diffy::DiffOptions::new();
    let patch = options.set_context_len(context_len).create_patch(original, modified);
    let line = |l: &diffy::Line<'_, str>| match l {
        diffy::Line::Context(s) => PatchLine::Context(s.to_string()),
        diffy::Line::Delete(s) => PatchLine::Delete(s.to_string()),
        diffy::Line::Insert(s) => PatchLine::Insert(s.to_string()),
    };
    patch.hunks().iter().map(|h| PatchHunk {
        start: h.old_range().start(),
        len: h.old_range().len(),
        lines: h.lines().iter().map(line).collect(),
    }).collect()
}

/// The text that `diffy::merge` makes of two versions of an ancestor, where it finds no
/// conflict.
pub uninterp spec fn line_merge_of(
    base: Seq<char>,
    ours: Seq<char>,
    theirs: Seq<char>,
) -> Option<Seq<char>>;

/// `diffy::merge`: whether the two versions merge without a conflict, and to which
/// text, is a function of the three texts. The text with conflict markers that it
/// hands back otherwise is dropped.
#[verifier::external_body]
pub(crate) fn merge_lines(base: &str, ours: &str, theirs: &str) -> (r: Option<String>)
    ensures
        opt_view(r) == line_merge_of(base@, ours@, theirs@),
{
    diffy::merge(base, ours, theirs).ok()
}

/// The lines that only the original has, among the first `k`.
pub open spec fn deleted(ls: Seq<PatchLineView>, k: int) -> Seq<Seq<char>>
    decreases k,
{
    if k <= 0 {
        Seq::empty()
    } else {
        match ls[k - 1] {
            PatchLineView::Delete(s) => deleted(ls, k - 1).push(without_feeds(s)),
            _ => deleted(ls, k - 1),
        }
    }
}

/// The lines that only the modified text has, among the first `k`.
pub open spec fn inserted(ls: Seq<PatchLineView>, k: int) -> Seq<Seq<char>>
    decreases k,
{
    if k <= 0 {
        Seq::empty()
    } else {
        match ls[k - 1] {
            PatchLineView::Insert(s) => inserted(ls, k - 1).push(without_feeds(s)),
            _ => inserted(ls, k - 1),
        }
    }
}

/// One unit of change: the lines of the original it replaces and what it writes.
pub struct Edit {
    pub start: usize,
    pub len: usize,
    pub removed: Vec<String>,
    pub added: Vec<String>,
}

/// An [`Edit`] with its lines read as texts.
pub struct EditView {
    pub start: int,
    pub len: int,
    pub removed: Seq<Seq<char>>,
    pub added: Seq<Seq<char>>,
}

impl View for Edit {
    type V = EditView;

    open spec fn view(&self) -> EditView {
        EditView {
            start: self.start as int,
            len: self.len as int,
            removed: crate::text::strs(self.removed@),
            added: crate::text::strs(self.added@),
        }
    }
}

/// The views of a list of edits.
pub open spec fn edit_views(v: Seq<Edit>) -> Seq<EditView> {
    v.map_values(|e: Edit| e@)
}

/// The hunk's range has as many lines as the hunk deletes, and the hunk deletes or
/// inserts one.
pub open spec fn changes_lines(h: PatchHunkView) -> bool {
    let n = h.lines.len() as int;
    deleted(h.lines, n).len() == h.len && deleted(h.lines, n).len() + inserted(h.lines, n).len() > 0
}

/// The edit changes something, replaces as many lines as it removes, and counts them
/// from one.
pub open spec fn real_edit(e: EditView) -> bool {
    &&& e.removed.len() == e.len
    &&& e.removed.len() + e.added.len() > 0
    &&& e.start >= 0
    &&& e.len > 0 ==> e.start > 0
}

/// The edit that a hunk without context is.
pub open spec fn edit_of(h: PatchHunkView) -> EditView {
    EditView {
        start: h.start as int,
        len: h.len as int,
        removed: deleted(h.lines, h.lines.len() as int),
        added: inserted(h.lines, h.lines.len() as int),
    }
}

/// The edits that turn `base` into `side`, one per contiguous run.
pub open spec fn edits_of(base: Seq<char>, side: Seq<char>) -> Seq<EditView> {
    patch_hunks(0, base, side).map_values(|h: PatchHunkView| edit_of(h))
}

fn trim_newlines(s: &str) -> (r: String)
    ensures
        r@ == without_feeds(s@),
{
    let mut c = crate::text::chars_of(s);
    while c.len() > 0 && c[c.len() - 1] == '\n'
        invariant
            without_feeds(c@) == without_feeds(s@),
        decreases c@.len(),
    {
        c.pop();
    }
    crate::text::string_of(c.as_slice())
}

/// The edits `side` makes to `base`, one per contiguous run.
///
/// Context length zero, so a hunk is exactly one edit and its range is exactly
/// the base lines it replaces.
pub fn edits(base: &str, side: &str) -> (r: Vec<Edit>)
    ensures
        edit_views(r@) == edits_of(base@, side@),
        r@.len() == 0 <==> base@ == side@,
        forall|i: int| 0 <= i < r@.len() ==> (#[trigger] r@[i]).start + r@[i].len < usize::MAX,
        forall|i: int| 0 <= i < r@.len() ==> real_edit((#[trigger] r@[i])@),
{
    let hunks = create_patch(0, base, side);
    let ghost all = patch_hunks(0, base@, side@);
    let mut out: Vec<Edit> = Vec::new();
    let mut i: usize = 0;
    while i < hunks.len()
        invariant
            i <= hunks@.len(),
            hunk_views(hunks@) == all,
            out@.len() == i,
            forall|k: int|
                0 <= k < hunks@.len() ==> (#[trigger] hunks@[k]).start + hunks@[k].len
                    < usize::MAX,
            forall|k: int|
                0 <= k < hunks@.len() && (#[trigger] hunks@[k]).len > 0 ==> hunks@[k].start > 0,
            forall|k: int| 0 <= k < hunks@.len() ==> changes_lines(#[trigger] hunks@[k]@),
            forall|k: int| 0 <= k < i ==> (#[trigger] out@[k])@ == edit_of(all[k]),
            forall|k: int| 0 <= k < i ==> (#[trigger] out@[k]).start + out@[k].len < usize::MAX,
            forall|k: int| 0 <= k < i ==> real_edit((#[trigger] out@[k])@),
        decreases hunks@.len() - i,
    {
        let h = &hunks[i];
        let ghost ls = h@.lines;
        let mut removed: Vec<String> = Vec::new();
        let mut added: Vec<String> = Vec::new();
        let mut k: usize = 0;
        proof {
            assert(crate::text::strs(removed@) =~= deleted(ls, 0));
            assert(crate::text::strs(added@) =~= inserted(ls, 0));
            assert(h@ == all[i as int]);
        }
        while k < h.lines.len()
            invariant
                k <= h.lines@.len(),
                ls == h@.lines,
                crate::text::strs(removed@) == deleted(ls, k as int),
                crate::text::strs(added@) == inserted(ls, k as int),
            decreases h.lines@.len() - k,
        {
            proof {
                assert(ls[k as int] == h.lines@[k as int]@);
            }
            let ghost held_r = crate::text::strs(removed@);
            let ghost held_a = crate::text::strs(added@);
            match &h.lines[k] {
                PatchLine::Delete(s) => {
                    removed.push(trim_newlines(s.as_str()));
                    proof {
                        assert(crate::text::strs(removed@) =~= held_r.push(without_feeds(s@)));
                    }
                },
                PatchLine::Insert(s) => {
                    added.push(trim_newlines(s.as_str()));
                    proof {
                        assert(crate::text::strs(added@) =~= held_a.push(without_feeds(s@)));
                    }
                },
                PatchLine::Context(_) => {},
            }
            k = k + 1;
        }
        proof {
            assert(changes_lines(h@));
        }
        out.push(Edit { start: h.start, len: h.len, removed, added });
        i = i + 1;
    }
    proof {
        assert(edit_views(out@) =~= edits_of(base@, side@));
    }
    out
}


proof fn deleted_lines_are_deleted(ls: Seq<PatchLineView>, k: int, l: Seq<char>)
    requires
        0 <= k <= ls.len(),
    ensures
        deleted(ls, k).contains(l) <==> exists|i: int|
            0 <= i < k && (#[trigger] ls[i] matches PatchLineView::Delete(s) && without_feeds(s)
                == l),
    decreases k,
{
    if k > 0 {
        deleted_lines_are_deleted(ls, k - 1, l);
        let front = deleted(ls, k - 1);
        let all = deleted(ls, k);
        if front.contains(l) {
            let i = choose|i: int| 0 <= i < front.len() && front[i] == l;
            assert(all[i] == l);
        }
        if let PatchLineView::Delete(s) = ls[k - 1] {
            assert(all[front.len() as int] == without_feeds(s));
            if all.contains(l) && !front.contains(l) {
                let i = choose|i: int| 0 <= i < all.len() && all[i] == l;
                if i < front.len() {
                    assert(front[i] == l);
                }
                assert(ls[k - 1] matches PatchLineView::Delete(s) && without_feeds(s) == l);
            }
        }
    }
}

proof fn inserted_lines_are_inserted(ls: Seq<PatchLineView>, k: int, l: Seq<char>)
    requires
        0 <= k <= ls.len(),
    ensures
        inserted(ls, k).contains(l) <==> exists|i: int|
            0 <= i < k && (#[trigger] ls[i] matches PatchLineView::Insert(s) && without_feeds(s)
                == l),
    decreases k,
{
    if k > 0 {
        inserted_lines_are_inserted(ls, k - 1, l);
        let front = inserted(ls, k - 1);
        let all = inserted(ls, k);
        if front.contains(l) {
            let i = choose|i: int| 0 <= i < front.len() && front[i] == l;
            assert(all[i] == l);
        }
        if let PatchLineView::Insert(s) = ls[k - 1] {
            assert(all[front.len() as int] == without_feeds(s));
            if all.contains(l) && !front.contains(l) {
                let i = choose|i: int| 0 <= i < all.len() && all[i] == l;
                if i < front.len() {
                    assert(front[i] == l);
                }
                assert(ls[k - 1] matches PatchLineView::Insert(s) && without_feeds(s) == l);
            }
        }
    }
}

/// An edit removes the lines that only the original has and adds those that only the
/// modified text has, without their line feeds; the lines of both are in neither.
pub proof fn an_edit_is_what_one_text_has_alone(h: PatchHunkView, l: Seq<char>)
    ensures
        edit_of(h).removed.contains(l) <==> exists|i: int|
            0 <= i < h.lines.len() && (#[trigger] h.lines[i] matches PatchLineView::Delete(s)
                && without_feeds(s) == l),
        edit_of(h).added.contains(l) <==> exists|i: int|
            0 <= i < h.lines.len() && (#[trigger] h.lines[i] matches PatchLineView::Insert(s)
                && without_feeds(s) == l),
        edit_of(h).start == h.start,
        edit_of(h).len == h.len,
{
    deleted_lines_are_deleted(h.lines, h.lines.len() as int, l);
    inserted_lines_are_inserted(h.lines, h.lines.len() as int, l);
}

} // verus!
