//! The subsumption rule: a side whose every edit the other side carries has said
//! nothing new, so the other side's file is the answer.
//!
//! "Carried" is checked against the same base, edit by edit: the other side's
//! edit deletes at least the base lines this one deletes, and every line this one
//! writes appears, in order, among the lines the other one writes.

use vstd::prelude::*;
use crate::patch::{edit_views, edits, edits_of, Edit, EditView};
use crate::text::{
    chars_of, contains, copy_of, has_text, join, joined, lines, split_lines, str_eq, string_of,
    strs, texts, trim_end, trimmed_end,
};

verus! {

/// Which side's file carries both edits.
#[derive(Debug, Clone, Copy, PartialEq, Eq, Structural)]
pub enum Superset {
    Ours,
    Theirs,
}

/// The comparison key of the first `k` lines: trailing white space removed, blank
/// lines dropped, indentation kept.
pub open spec fn keys_upto(ls: Seq<Seq<char>>, k: int) -> Seq<Seq<char>>
    decreases k,
{
    if k <= 0 {
        Seq::empty()
    } else if trim_end(ls[k - 1]).len() == 0 {
        keys_upto(ls, k - 1)
    } else {
        keys_upto(ls, k - 1).push(trim_end(ls[k - 1]))
    }
}

/// A text reduced to its key lines.
pub open spec fn key_text(s: Seq<char>) -> Seq<char> {
    join(keys_upto(lines(s), lines(s).len() as int), "\n"@)
}

fn key_lines(text: &str) -> (r: String)
    ensures
        r@ == key_text(text@),
{
    let ls = split_lines(chars_of(text).as_slice());
    let ghost all = lines(text@);
    let mut out: Vec<Vec<char>> = Vec::new();
    let mut i: usize = 0;
    proof {
        assert(texts(out@) =~= keys_upto(all, 0));
    }
    while i < ls.len()
        invariant
            i <= ls@.len(),
            texts(ls@) == all,
            texts(out@) == keys_upto(all, i as int),
        decreases ls@.len() - i,
    {
        proof {
            assert(all[i as int] == ls@[i as int]@);
        }
        let t = trimmed_end(ls[i].as_slice());
        if t.len() > 0 {
            let ghost held = texts(out@);
            let line = copy_of(t);
            out.push(line);
            proof {
                assert(texts(out@) =~= held.push(line@));
            }
        }
        i = i + 1;
    }
    string_of(joined(&out, "\n").as_slice())
}

/// `at` picks places of `b`, ascending, at which the texts of `a` stand.
pub open spec fn embeds(a: Seq<Seq<char>>, b: Seq<Seq<char>>, at: Seq<int>) -> bool {
    &&& at.len() == a.len()
    &&& forall|k: int| 0 <= k < at.len() ==> 0 <= (#[trigger] at[k]) < b.len() && b[at[k]] == a[k]
    &&& forall|j: int, k: int| 0 <= j < k < at.len() ==> (#[trigger] at[j]) < (#[trigger] at[k])
}

/// `a` appears inside `b` in order, not necessarily contiguously.
pub open spec fn subsequence(a: Seq<Seq<char>>, b: Seq<Seq<char>>) -> bool {
    exists|at: Seq<int>| embeds(a, b, at)
}

/// Does `small` appear inside `big` in order?
pub fn is_subsequence(small: &Vec<String>, big: &Vec<String>) -> (r: bool)
    ensures
        r == subsequence(strs(small@), strs(big@)),
{
    let ghost a = strs(small@);
    let ghost b = strs(big@);
    let ghost mut at: Seq<int> = Seq::empty();
    let mut i: usize = 0;
    let mut j: usize = 0;
    // The first `i` texts are placed as early as can be: before `j`, and any
    // placement of one more has it at `j` or behind.
    while i < small.len() && j < big.len()
        invariant
            i <= small@.len(),
            j <= big@.len(),
            a == strs(small@),
            b == strs(big@),
            embeds(a.take(i as int), b.take(j as int), at),
            forall|w: Seq<int>| #[trigger] embeds(a, b, w) && i < a.len() ==> w[i as int] >= j,
        decreases big@.len() - j,
    {
        proof {
            assert(a[i as int] == small@[i as int]@);
            assert(b[j as int] == big@[j as int]@);
            assert(b.take(j + 1) =~= b.take(j as int).push(b[j as int]));
            assert(a.take(i + 1) =~= a.take(i as int).push(a[i as int]));
        }
        if str_eq(small[i].as_str(), big[j].as_str()) {
            proof {
                let next = at.push(j as int);
                assert(embeds(a.take(i + 1), b.take(j + 1), next)) by {
                    assert forall|k: int| 0 <= k < next.len() implies 0 <= (#[trigger] next[k])
                        < b.take(j + 1).len() && b.take(j + 1)[next[k]] == a.take(i + 1)[k] by {
                        if k < i {
                            assert(next[k] == at[k]);
                            assert(b.take(j as int)[at[k]] == a.take(i as int)[k]);
                        }
                    }
                    assert forall|m: int, k: int| 0 <= m < k < next.len() implies (
                    #[trigger] next[m]) < (#[trigger] next[k]) by {
                        assert(next[m] == at[m]);
                        if k < i {
                            assert(next[k] == at[k]);
                        }
                    }
                }
                assert forall|w: Seq<int>| #[trigger] embeds(a, b, w) && i + 1 < a.len() implies w[i
                    + 1] >= j + 1 by {
                    assert(w[i as int] >= j);
                    assert(w[i as int] < w[i + 1]);
                }
                at = next;
            }
            i = i + 1;
        } else {
            proof {
                assert forall|w: Seq<int>| #[trigger] embeds(a, b, w) && i < a.len() implies w[
                i as int] >= j + 1 by {
                    assert(w[i as int] >= j);
                    assert(b[w[i as int]] == a[i as int]);
                }
                assert(embeds(a.take(i as int), b.take(j + 1), at)) by {
                    assert forall|k: int| 0 <= k < at.len() implies 0 <= (#[trigger] at[k])
                        < b.take(j + 1).len() && b.take(j + 1)[at[k]] == a.take(i as int)[k] by {
                        assert(b.take(j as int)[at[k]] == a.take(i as int)[k]);
                    }
                }
            }
        }
        j = j + 1;
    }
    proof {
        if i == small@.len() {
            assert(a.take(i as int) =~= a);
            assert(embeds(a, b, at)) by {
                assert forall|k: int| 0 <= k < at.len() implies 0 <= (#[trigger] at[k]) < b.len()
                    && b[at[k]] == a[k] by {
                    assert(b.take(j as int)[at[k]] == a.take(i as int)[k]);
                }
            }
        } else {
            assert forall|w: Seq<int>| !#[trigger] embeds(a, b, w) by {
                if embeds(a, b, w) {
                    assert(w[i as int] >= j);
                    assert(w[i as int] < b.len());
                }
            }
        }
    }
    i == small.len()
}

/// `outer` carries `inner`: it deletes at least the same base lines and writes at
/// least the same lines. A deletion is carried only by a deletion.
pub open spec fn carried(inner: EditView, outer: EditView) -> bool {
    &&& if outer.len > 0 || inner.len > 0 {
        outer.start <= inner.start && inner.start + inner.len <= outer.start + outer.len
    } else {
        outer.start == inner.start
    }
    &&& inner.added.len() == 0 && inner.len > 0 ==> outer.added.len() == 0
    &&& subsequence(inner.added, outer.added)
}

/// Every edit of the one list is carried by an edit of the other.
pub open spec fn all_carried(inner: Seq<EditView>, outer: Seq<EditView>) -> bool {
    forall|i: int| 0 <= i < inner.len() ==> some_carries(#[trigger] inner[i], outer)
}

/// Some edit of the list carries the edit.
pub open spec fn some_carries(e: EditView, outer: Seq<EditView>) -> bool {
    exists|j: int| 0 <= j < outer.len() && carried(e, #[trigger] outer[j])
}

fn carries(inner: &Edit, outer: &Edit) -> (r: bool)
    requires
        inner.start + inner.len <= usize::MAX,
        outer.start + outer.len <= usize::MAX,
    ensures
        r == carried(inner@, outer@),
{
    if outer.len > 0 || inner.len > 0 {
        if outer.start > inner.start || inner.start + inner.len > outer.start + outer.len {
            return false;
        }
    } else if outer.start != inner.start {
        return false;
    }
    if inner.added.len() == 0 && inner.len > 0 && outer.added.len() > 0 {
        return false;
    }
    is_subsequence(&inner.added, &outer.added)
}

fn carries_all(inner: &Vec<Edit>, outer: &Vec<Edit>) -> (r: bool)
    requires
        forall|i: int|
            0 <= i < inner@.len() ==> (#[trigger] inner@[i]).start + inner@[i].len <= usize::MAX,
        forall|i: int|
            0 <= i < outer@.len() ==> (#[trigger] outer@[i]).start + outer@[i].len <= usize::MAX,
    ensures
        r == all_carried(edit_views(inner@), edit_views(outer@)),
{
    let ghost iv = edit_views(inner@);
    let ghost ov = edit_views(outer@);
    let mut i: usize = 0;
    while i < inner.len()
        invariant
            i <= inner@.len(),
            iv == edit_views(inner@),
            ov == edit_views(outer@),
            forall|i: int|
                0 <= i < inner@.len() ==> (#[trigger] inner@[i]).start + inner@[i].len
                    <= usize::MAX,
            forall|i: int|
                0 <= i < outer@.len() ==> (#[trigger] outer@[i]).start + outer@[i].len
                    <= usize::MAX,
            forall|k: int| 0 <= k < i ==> some_carries(#[trigger] iv[k], ov),
        decreases inner@.len() - i,
    {
        let mut found = false;
        let mut j: usize = 0;
        while !found && j < outer.len()
            invariant
                i < inner@.len(),
                j <= outer@.len(),
                iv == edit_views(inner@),
                ov == edit_views(outer@),
                forall|i: int|
                    0 <= i < inner@.len() ==> (#[trigger] inner@[i]).start + inner@[i].len
                        <= usize::MAX,
                forall|i: int|
                    0 <= i < outer@.len() ==> (#[trigger] outer@[i]).start + outer@[i].len
                        <= usize::MAX,
                found ==> some_carries(iv[i as int], ov),
                !found ==> forall|k: int|
                    0 <= k < j ==> !carried(iv[i as int], #[trigger] ov[k]),
            decreases outer@.len() - j,
        {
            proof {
                assert(iv[i as int] == inner@[i as int]@);
                assert(ov[j as int] == outer@[j as int]@);
            }
            if carries(&inner[i], &outer[j]) {
                found = true;
            }
            j = j + 1;
        }
        if !found {
            proof {
                assert(!some_carries(iv[i as int], ov));
            }
            return false;
        }
        i = i + 1;
    }
    true
}

/// The side whose edits carry the other side's, read off the two lists of edits.
/// `None` where neither or both do, or where one side has no edit.
pub open spec fn superset(ours: Seq<EditView>, theirs: Seq<EditView>) -> Option<Superset> {
    let ours_in_theirs = all_carried(ours, theirs);
    let theirs_in_ours = all_carried(theirs, ours);
    if ours.len() == 0 || theirs.len() == 0 || ours_in_theirs == theirs_in_ours {
        None
    } else if ours_in_theirs {
        Some(Superset::Theirs)
    } else {
        Some(Superset::Ours)
    }
}

/// The side whose file carries both edits, if there is one. Sides that disagree
/// about line endings made an edit that the comparison key cannot see.
pub open spec fn subsuming(base: Seq<char>, ours: Seq<char>, theirs: Seq<char>) -> Option<
    Superset,
> {
    if contains(ours, "\r\n"@) != contains(theirs, "\r\n"@) {
        None
    } else {
        superset(
            edits_of(key_text(base), key_text(ours)),
            edits_of(key_text(base), key_text(theirs)),
        )
    }
}

/// Exchanging the two sides exchanges the answer, and so does not change which
/// file is chosen.
pub proof fn subsumption_is_symmetric(base: Seq<char>, ours: Seq<char>, theirs: Seq<char>)
    ensures
        subsuming(base, theirs, ours) == match subsuming(base, ours, theirs) {
            Some(Superset::Ours) => Some(Superset::Theirs),
            Some(Superset::Theirs) => Some(Superset::Ours),
            None => None,
        },
{
}

/// The superset of two lists of edits to one base.
pub fn superset_of(eo: &Vec<Edit>, et: &Vec<Edit>) -> (r: Option<Superset>)
    requires
        forall|i: int| 0 <= i < eo@.len() ==> (#[trigger] eo@[i]).start + eo@[i].len <= usize::MAX,
        forall|i: int| 0 <= i < et@.len() ==> (#[trigger] et@[i]).start + et@[i].len <= usize::MAX,
    ensures
        r == superset(edit_views(eo@), edit_views(et@)),
{
    if eo.len() == 0 || et.len() == 0 {
        return None;
    }
    let o_in_t = carries_all(eo, et);
    let t_in_o = carries_all(et, eo);
    match (o_in_t, t_in_o) {
        (true, true) => None,
        (true, false) => Some(Superset::Theirs),
        (false, true) => Some(Superset::Ours),
        (false, false) => None,
    }
}

/// The side whose file already carries both edits, if there is one.
///
/// `None` when neither side subsumes the other, and also when the two edits are
/// the same edit, where there is nothing to decide.
pub fn subsuming_side(base: &str, ours: &str, theirs: &str) -> (r: Option<Superset>)
    ensures
        r == subsuming(base@, ours@, theirs@),
{
    if has_text(chars_of(ours).as_slice(), "\r\n") != has_text(
        chars_of(theirs).as_slice(),
        "\r\n",
    ) {
        return None;
    }
    let b = key_lines(base);
    let o = key_lines(ours);
    let t = key_lines(theirs);
    let eo = edits(b.as_str(), o.as_str());
    let et = edits(b.as_str(), t.as_str());
    superset_of(&eo, &et)
}


/// Does the edit replace the base line?
pub open spec fn replaces(e: EditView, l: int) -> bool {
    e.start <= l < e.start + e.len
}

/// Does the edit `f` keep all that `e` did? It replaces every base line that `e`
/// replaces, or stands where `e` does if that replaces none; it writes every line that
/// `e` writes, in their order; and what `e` only deletes it only deletes.
pub open spec fn keeps_edit(e: EditView, f: EditView) -> bool {
    &&& forall|l: int| #[trigger] replaces(e, l) ==> replaces(f, l)
    &&& e.len == 0 ==> f.start <= e.start <= f.start + f.len
    &&& subsequence(e.added, f.added)
    &&& e.len > 0 && e.added.len() == 0 ==> f.added.len() == 0
}

/// Does the one list of edits keep every edit of the other, and not the other way round?
pub open spec fn keeps_more(big: Seq<EditView>, small: Seq<EditView>) -> bool {
    &&& forall|i: int| 0 <= i < small.len() ==> is_kept(#[trigger] small[i], big)
    &&& exists|j: int| 0 <= j < big.len() && !some_carries(#[trigger] big[j], small)
}

/// Does some edit of the list keep the edit?
pub open spec fn is_kept(e: EditView, big: Seq<EditView>) -> bool {
    exists|j: int| 0 <= j < big.len() && keeps_edit(e, #[trigger] big[j])
}

proof fn what_is_carried_is_kept(small: Seq<EditView>, big: Seq<EditView>)
    requires
        forall|i: int| 0 <= i < small.len() ==> (#[trigger] small[i]).len >= 0,
        forall|i: int| 0 <= i < big.len() ==> (#[trigger] big[i]).len >= 0,
        all_carried(small, big),
        !all_carried(big, small),
    ensures
        keeps_more(big, small),
{
    assert forall|i: int| 0 <= i < small.len() implies is_kept(#[trigger] small[i], big) by {
        assert(some_carries(small[i], big));
        let j = choose|j: int| 0 <= j < big.len() && carried(small[i], #[trigger] big[j]);
        assert(keeps_edit(small[i], big[j]));
    }
}

/// Where one side is said to carry the other, both have edits, every edit of the other is
/// kept by one of its own, and the other does not carry all of its own in return. Two
/// sides with the same edits carry each other, and neither is named.
pub proof fn a_superset_keeps_every_edit(ours: Seq<EditView>, theirs: Seq<EditView>)
    requires
        forall|i: int| 0 <= i < ours.len() ==> (#[trigger] ours[i]).len >= 0,
        forall|i: int| 0 <= i < theirs.len() ==> (#[trigger] theirs[i]).len >= 0,
    ensures
        superset(ours, theirs) is Some ==> ours.len() > 0 && theirs.len() > 0,
        superset(ours, theirs) == Some(Superset::Ours) ==> keeps_more(ours, theirs),
        superset(ours, theirs) == Some(Superset::Theirs) ==> keeps_more(theirs, ours),
        ours == theirs ==> superset(ours, theirs) is None,
{
    if superset(ours, theirs) == Some(Superset::Ours) {
        what_is_carried_is_kept(theirs, ours);
    }
    if superset(ours, theirs) == Some(Superset::Theirs) {
        what_is_carried_is_kept(ours, theirs);
    }
}

} // verus!
