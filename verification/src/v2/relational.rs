//! Relational evidence: bodies that moved house.
//!
//! A base body whose key vanished on a side may have been re-homed into entities
//! that side added; a base body that is still there may have lost lines to them.

use vstd::prelude::*;
use crate::text::{
    add_sorted, chars_of, join, joined, lines, list_has, push_sorted, split_lines, split_words,
    starts, starts_with, string_of, strs, texts, trim_start, trimmed_start, width, width_of_char,
    words,
};
use crate::v2::candidates::{is_paired, paired, target, Pairing};
use crate::v2::types::{Arena, EntityView, Idx, Link, Ratio, Relational, Side};

verus! {

broadcast use vstd::string::group_string_axioms;

/// Words with which a line that names an entity starts. Such a line can never
/// re-home.
pub open spec fn heading_words() -> Seq<Seq<char>> {
    seq![
        "def "@, "function "@, "fn "@, "class "@, "func "@, "interface "@, "struct "@, "trait "@,
        "impl "@, "export "@, "public "@, "private "@, "async "@, "pub "@,
    ]
}

/// The line, behind its indentation, starts with a heading word.
pub open spec fn heads_entity(line: Seq<char>) -> bool {
    exists|k: int|
        0 <= k < heading_words().len() && starts(trim_start(line), #[trigger] heading_words()[k])
}

/// The line with every run of white space made one space.
pub open spec fn squeeze(line: Seq<char>) -> Seq<char> {
    join(words(line), " "@)
}

/// The signature lines among the first `k` lines, in order: content that is
/// neither a heading nor, with at most eight bytes, structural noise.
pub open spec fn signature_upto(ls: Seq<Seq<char>>, k: int) -> Seq<Seq<char>>
    decreases k,
{
    if k <= 0 {
        Seq::empty()
    } else {
        let front = signature_upto(ls, k - 1);
        let x = squeeze(ls[k - 1]);
        if heads_entity(ls[k - 1]) || width(x) <= 8 {
            front
        } else {
            add_sorted(front, x)
        }
    }
}

/// The signature lines of a text, each once, in the order of texts.
pub open spec fn signature(content: Seq<char>) -> Seq<Seq<char>> {
    signature_upto(lines(content), lines(content).len() as int)
}

fn is_heading(line: &[char]) -> (r: bool)
    ensures
        r == heads_entity(line@),
{
    let kws: Vec<&str> = vec![
        "def ", "function ", "fn ", "class ", "func ", "interface ", "struct ", "trait ", "impl ",
        "export ", "public ", "private ", "async ", "pub ",
    ];
    let ghost all = kws@.map_values(|s: &str| s@);
    proof {
        assert(all =~= heading_words());
    }
    let t = trimmed_start(line);
    let mut k: usize = 0;
    while k < kws.len()
        invariant
            k <= kws@.len(),
            all == kws@.map_values(|s: &str| s@),
            all == heading_words(),
            t@ == trim_start(line@),
            forall|j: int| 0 <= j < k ==> !starts(t@, #[trigger] all[j]),
        decreases kws@.len() - k,
    {
        if starts_with(t, kws[k]) {
            proof {
                assert(starts(t@, all[k as int]));
            }
            return true;
        }
        k = k + 1;
    }
    false
}

/// The number of bytes of the text is more than `limit`.
fn is_wider(s: &[char], limit: usize) -> (r: bool)
    ensures
        r == (width(s@) > limit),
{
    let mut w: u128 = 0;
    let mut i: usize = 0;
    while i < s.len()
        invariant
            i <= s@.len(),
            w <= 4 * i,
            w == width(s@.subrange(0, i as int)),
        decreases s@.len() - i,
    {
        w = w + width_of_char(s[i]) as u128;
        i = i + 1;
        proof {
            assert(s@.subrange(0, i as int).drop_last() =~= s@.subrange(0, i - 1));
        }
    }
    proof {
        assert(s@.subrange(0, s@.len() as int) =~= s@);
    }
    w > limit as u128
}

/// The line with every run of white space made one space.
pub fn squeezed(line: &[char]) -> (r: Vec<char>)
    ensures
        r@ == squeeze(line@),
{
    joined(&split_words(line), " ")
}

/// A signature line is non-blank, non-trivial content, with its white space made
/// one space. Short lines (`}`, `end`, `return`) are noise that every entity
/// shares.
pub fn signature_lines(content: &str) -> (r: Vec<String>)
    ensures
        strs(r@) == signature(content@),
{
    let ls = split_lines(chars_of(content).as_slice());
    let ghost all = lines(content@);
    let mut out: Vec<String> = Vec::new();
    let mut i: usize = 0;
    proof {
        assert(strs(out@) =~= signature_upto(all, 0));
    }
    while i < ls.len()
        invariant
            i <= ls@.len(),
            texts(ls@) == all,
            strs(out@) == signature_upto(all, i as int),
        decreases ls@.len() - i,
    {
        proof {
            assert(texts(ls@)[i as int] == ls@[i as int]@);
        }
        if !is_heading(ls[i].as_slice()) {
            let x = squeezed(ls[i].as_slice());
            if is_wider(x.as_slice(), 8) {
                push_sorted(&mut out, string_of(x.as_slice()).as_str());
            }
        }
        i = i + 1;
    }
    out
}

// ---------------------------------------------------------------------------
// Re-homes
// ---------------------------------------------------------------------------

/// A [`Relational`] with its lists read as sequences.
pub enum RelationalView {
    RehomedInto { deleted: Idx, side: Side, homes: Seq<Idx>, coverage: Ratio },
    ExtractedInto {
        source: Idx,
        side: Side,
        host: Idx,
        extracted: Seq<Idx>,
        moved: Seq<Seq<char>>,
    },
}

impl View for Relational {
    type V = RelationalView;

    open spec fn view(&self) -> RelationalView {
        match *self {
            Relational::RehomedInto { deleted, side, homes, coverage } =>
                RelationalView::RehomedInto { deleted, side, homes: homes@, coverage },
            Relational::ExtractedInto { source, side, host, extracted, moved } =>
                RelationalView::ExtractedInto {
                    source,
                    side,
                    host,
                    extracted: extracted@,
                    moved: strs(moved@),
                },
        }
    }
}

/// The views of a list of relational facts.
pub open spec fn relational_views(v: Seq<Relational>) -> Seq<RelationalView> {
    v.map_values(|r: Relational| r@)
}

/// The entities of one side: those of the arena from `lo` up to `hi`, and how
/// identity paired them with the base's.
pub struct Branch {
    pub arena: Seq<EntityView>,
    pub side: Side,
    pub lo: int,
    pub hi: int,
    pub pairing: Seq<Option<(Idx, Link)>>,
}

impl Branch {
    /// The side's entities are in the arena, and so are its partners.
    pub open spec fn wf(self) -> bool {
        &&& 0 <= self.pairing.len() <= self.lo <= self.hi <= self.arena.len() <= u32::MAX
        &&& crate::v2::candidates::within(self.pairing, self.lo, self.hi)
    }

    /// The side added the entity.
    pub open spec fn added(self, x: int) -> bool {
        self.lo <= x < self.hi && !paired(self.pairing, Idx(x as u32))
    }

    /// The side added an entity before `hi` that has the line.
    pub open spec fn housed(self, line: Seq<char>) -> bool {
        exists|x: int| self.added(x) && signature((#[trigger] self.arena[x]).content).contains(line)
    }

    /// The entity has one of the lines.
    pub open spec fn houses_any(self, x: int, moved: Seq<Seq<char>>) -> bool {
        exists|i: int|
            0 <= i < moved.len() && signature(self.arena[x].content).contains(#[trigger] moved[i])
    }

    /// The entities before `n` that the side added and that have one of the
    /// lines.
    pub open spec fn homes(self, moved: Seq<Seq<char>>, n: int) -> Seq<Idx>
        decreases n - self.lo,
    {
        if n <= self.lo {
            Seq::empty()
        } else {
            let front = self.homes(moved, n - 1);
            if self.added(n - 1) && self.houses_any(n - 1, moved) {
                front.push(Idx((n - 1) as u32))
            } else {
                front
            }
        }
    }

    /// Those of the first `k` lines that the side's additions have.
    pub open spec fn found(self, ls: Seq<Seq<char>>, k: int) -> Seq<Seq<char>>
        decreases k,
    {
        if k <= 0 {
            Seq::empty()
        } else {
            let front = self.found(ls, k - 1);
            if self.housed(ls[k - 1]) {
                front.push(ls[k - 1])
            } else {
                front
            }
        }
    }

    /// The base entity vanished, and at least six tenths of its signature lines
    /// are in the side's additions.
    pub open spec fn rehomed(self, b: int) -> bool {
        let ls = signature(self.arena[b].content);
        let found = self.found(ls, ls.len() as int);
        self.pairing[b] is None && ls.len() > 0 && 10 * found.len() >= 6 * ls.len()
    }

    /// The re-homes of the first `k` base entities.
    pub open spec fn rehomes(self, k: int) -> Seq<RelationalView>
        decreases k,
    {
        if k <= 0 {
            Seq::empty()
        } else {
            let front = self.rehomes(k - 1);
            let ls = signature(self.arena[k - 1].content);
            let found = self.found(ls, ls.len() as int);
            if self.rehomed(k - 1) {
                front.push(
                    RelationalView::RehomedInto {
                        deleted: Idx((k - 1) as u32),
                        side: self.side,
                        homes: self.homes(ls, self.hi),
                        coverage: Ratio { part: found.len() as usize, whole: ls.len() as u128 },
                    },
                )
            } else {
                front
            }
        }
    }

    /// Those of the first `k` lines that are not among `kept` and that the
    /// side's additions have.
    pub open spec fn left(self, ls: Seq<Seq<char>>, kept: Seq<Seq<char>>, k: int) -> Seq<Seq<char>>
        decreases k,
    {
        if k <= 0 {
            Seq::empty()
        } else {
            let front = self.left(ls, kept, k - 1);
            if !kept.contains(ls[k - 1]) && self.housed(ls[k - 1]) {
                front.push(ls[k - 1])
            } else {
                front
            }
        }
    }

    /// The signature lines that left a base entity, which is still there, for the
    /// side's additions.
    pub open spec fn moved_out(self, b: int) -> Seq<Seq<char>> {
        let ls = signature(self.arena[b].content);
        let kept = signature(self.arena[target(self.pairing[b]).0 as int].content);
        if self.pairing[b] is Some {
            self.left(ls, kept, ls.len() as int)
        } else {
            Seq::empty()
        }
    }

    /// The extraction out of a base entity, if there is one.
    pub open spec fn extraction(self, b: int) -> Seq<RelationalView> {
        let moved = self.moved_out(b);
        if moved.len() > 0 {
            seq![
                RelationalView::ExtractedInto {
                    source: Idx(b as u32),
                    side: self.side,
                    host: target(self.pairing[b]),
                    extracted: self.homes(moved, self.hi),
                    moved,
                },
            ]
        } else {
            Seq::empty()
        }
    }
}

/// The extractions out of the first `k` base entities, ours before theirs.
pub open spec fn extractions(ours: Branch, theirs: Branch, k: int) -> Seq<RelationalView>
    decreases k,
{
    if k <= 0 {
        Seq::empty()
    } else {
        extractions(ours, theirs, k - 1) + ours.extraction(k - 1) + theirs.extraction(k - 1)
    }
}

/// The signature lines of every entity of the arena.
pub open spec fn is_signature_table(arena: Seq<EntityView>, table: Seq<Vec<String>>) -> bool {
    &&& table.len() == arena.len()
    &&& forall|x: int|
        0 <= x < table.len() ==> strs((#[trigger] table[x])@) == signature(arena[x].content)
}

/// The signature lines of every entity of the arena.
pub fn signature_table(arena: &Arena) -> (r: Vec<Vec<String>>)
    requires
        arena@.len() <= u32::MAX,
    ensures
        is_signature_table(arena@, r@),
{
    let mut out: Vec<Vec<String>> = Vec::new();
    let n: usize = arena.len();
    let mut x: usize = 0;
    while x < n
        invariant
            x <= n == arena@.len() <= u32::MAX,
            out@.len() == x,
            forall|k: int|
                0 <= k < x ==> strs((#[trigger] out@[k])@) == signature(arena@[k].content),
        decreases n - x,
    {
        out.push(signature_lines(arena.get(Idx(x as u32)).content.as_str()));
        x = x + 1;
    }
    out
}

/// The side's additions, as a table by entity from `lo` on.
fn added_table(pairing: &Pairing, lo: usize, hi: usize, Ghost(br): Ghost<Branch>) -> (r: Vec<bool>)
    requires
        br.wf(),
        pairing@ == br.pairing,
        lo == br.lo,
        hi == br.hi,
    ensures
        r@.len() == br.hi - br.lo,
        forall|x: int| br.lo <= x < br.hi ==> (#[trigger] r@[x - br.lo]) == br.added(x),
{
    let mut out: Vec<bool> = Vec::new();
    let mut i: usize = 0;
    while i < hi - lo
        invariant
            i <= hi - lo,
            lo == br.lo,
            hi == br.hi,
            br.wf(),
            pairing@ == br.pairing,
            out@.len() == i,
            forall|x: int| br.lo <= x < br.lo + i ==> (#[trigger] out@[x - br.lo]) == br.added(x),
        decreases hi - lo - i,
    {
        out.push(!is_paired(pairing, Idx((lo + i) as u32)));
        i = i + 1;
    }
    out
}

fn is_housed(
    table: &Vec<Vec<String>>,
    added: &Vec<bool>,
    lo: usize,
    line: &str,
    Ghost(br): Ghost<Branch>,
) -> (r: bool)
    requires
        br.wf(),
        lo == br.lo,
        is_signature_table(br.arena, table@),
        added@.len() == br.hi - br.lo,
        forall|x: int| br.lo <= x < br.hi ==> (#[trigger] added@[x - br.lo]) == br.added(x),
    ensures
        r == br.housed(line@),
{
    let mut i: usize = 0;
    while i < added.len()
        invariant
            i <= added@.len() == br.hi - br.lo,
            lo == br.lo,
            br.wf(),
            is_signature_table(br.arena, table@),
            forall|x: int| br.lo <= x < br.hi ==> (#[trigger] added@[x - br.lo]) == br.added(x),
            forall|x: int|
                br.lo <= x < br.lo + i ==> !(br.added(x) && signature(
                    (#[trigger] br.arena[x]).content,
                ).contains(line@)),
        decreases added@.len() - i,
    {
        proof {
            assert(added@[(lo + i) - br.lo] == br.added(lo + i));
            assert(strs(table@[lo + i]@) == signature(br.arena[lo + i].content));
        }
        if added[i] && list_has(&table[lo + i], line) {
            return true;
        }
        i = i + 1;
    }
    false
}

fn home_list(
    table: &Vec<Vec<String>>,
    added: &Vec<bool>,
    lo: usize,
    moved: &Vec<String>,
    Ghost(br): Ghost<Branch>,
) -> (r: Vec<Idx>)
    requires
        br.wf(),
        lo == br.lo,
        is_signature_table(br.arena, table@),
        added@.len() == br.hi - br.lo,
        forall|x: int| br.lo <= x < br.hi ==> (#[trigger] added@[x - br.lo]) == br.added(x),
    ensures
        r@ == br.homes(strs(moved@), br.hi),
{
    let mut out: Vec<Idx> = Vec::new();
    let mut i: usize = 0;
    while i < added.len()
        invariant
            i <= added@.len() == br.hi - br.lo,
            lo == br.lo,
            br.wf(),
            is_signature_table(br.arena, table@),
            forall|x: int| br.lo <= x < br.hi ==> (#[trigger] added@[x - br.lo]) == br.added(x),
            out@ == br.homes(strs(moved@), br.lo + i),
        decreases added@.len() - i,
    {
        proof {
            assert(added@[(lo + i) - br.lo] == br.added(lo + i));
            assert(strs(table@[lo + i]@) == signature(br.arena[lo + i].content));
        }
        let mut any = false;
        let mut k: usize = 0;
        while !any && k < moved.len()
            invariant
                k <= moved@.len(),
                i < added@.len(),
                lo + i < table@.len() <= usize::MAX,
                strs(table@[lo + i]@) == signature(br.arena[lo + i].content),
                any ==> br.houses_any(lo + i, strs(moved@)),
                !any ==> forall|m: int|
                    0 <= m < k ==> !signature(br.arena[lo + i].content).contains(
                        #[trigger] strs(moved@)[m],
                    ),
            decreases moved@.len() - k,
        {
            proof {
                assert(strs(moved@)[k as int] == moved@[k as int]@);
            }
            if list_has(&table[lo + i], moved[k].as_str()) {
                any = true;
            }
            k = k + 1;
        }
        if added[i] && any {
            out.push(Idx((lo + i) as u32));
        }
        i = i + 1;
    }
    out
}

/// Which vanished entities had their bodies re-homed into new ones on one side.
///
/// Coverage is measured against all of the side's additions together, because a
/// split distributes one body over several of them.
pub fn detect_rehomes(
    arena: &Arena,
    side: Side,
    lo: usize,
    hi: usize,
    pairing: &Pairing,
    table: &Vec<Vec<String>>,
    out: &mut Vec<Relational>,
)
    requires
        pairing@.len() <= lo <= hi <= arena@.len() <= u32::MAX,
        crate::v2::candidates::within(pairing@, lo as int, hi as int),
        is_signature_table(arena@, table@),
    ensures
        relational_views(final(out)@) == relational_views(old(out)@) + (Branch {
            arena: arena@,
            side,
            lo: lo as int,
            hi: hi as int,
            pairing: pairing@,
        }).rehomes(pairing@.len() as int),
{
    let ghost br = Branch {
        arena: arena@,
        side,
        lo: lo as int,
        hi: hi as int,
        pairing: pairing@,
    };
    let ghost before = relational_views(out@);
    let added = added_table(pairing, lo, hi, Ghost(br));
    let mut b: usize = 0;
    proof {
        assert(before + br.rehomes(0) =~= before);
    }
    while b < pairing.len()
        invariant
            b <= pairing@.len(),
            br.wf(),
            arena@ == br.arena,
            pairing@ == br.pairing,
            side == br.side,
            lo == br.lo,
            hi == br.hi,
            is_signature_table(br.arena, table@),
            added@.len() == br.hi - br.lo,
            forall|x: int| br.lo <= x < br.hi ==> (#[trigger] added@[x - br.lo]) == br.added(x),
            relational_views(out@) == before + br.rehomes(b as int),
        decreases pairing@.len() - b,
    {
        let ghost ls = signature(br.arena[b as int].content);
        proof {
            assert(strs(table@[b as int]@) == ls);
        }
        if pairing[b].is_none() && table[b].len() > 0 {
            let mut covered: usize = 0;
            let mut k: usize = 0;
            while k < table[b].len()
                invariant
                    k <= table@[b as int]@.len(),
                    b < table@.len(),
                    covered <= k,
                    br.wf(),
                    lo == br.lo,
                    is_signature_table(br.arena, table@),
                    added@.len() == br.hi - br.lo,
                    forall|x: int|
                        br.lo <= x < br.hi ==> (#[trigger] added@[x - br.lo]) == br.added(x),
                    strs(table@[b as int]@) == ls,
                    covered == br.found(ls, k as int).len(),
                decreases table@[b as int]@.len() - k,
            {
                proof {
                    assert(ls[k as int] == table@[b as int]@[k as int]@);
                }
                if is_housed(table, &added, lo, table[b][k].as_str(), Ghost(br)) {
                    covered = covered + 1;
                }
                k = k + 1;
            }
            let whole: u128 = table[b].len() as u128;
            if 10 * (covered as u128) >= 6 * whole {
                let homes = home_list(table, &added, lo, &table[b], Ghost(br));
                let ghost held = out@;
                let fact = Relational::RehomedInto {
                    deleted: Idx(b as u32),
                    side,
                    homes,
                    coverage: Ratio { part: covered, whole },
                };
                out.push(fact);
                proof {
                    assert(relational_views(out@) =~= relational_views(held).push(fact@));
                    assert(relational_views(out@) =~= before + br.rehomes(b + 1));
                }
            }
        }
        b = b + 1;
    }
}

fn push_extraction(
    arena: &Arena,
    side: Side,
    lo: usize,
    pairing: &Pairing,
    table: &Vec<Vec<String>>,
    added: &Vec<bool>,
    b: usize,
    out: &mut Vec<Relational>,
    Ghost(br): Ghost<Branch>,
)
    requires
        br.wf(),
        arena@ == br.arena,
        pairing@ == br.pairing,
        side == br.side,
        lo == br.lo,
        b < pairing@.len(),
        is_signature_table(br.arena, table@),
        added@.len() == br.hi - br.lo,
        forall|x: int| br.lo <= x < br.hi ==> (#[trigger] added@[x - br.lo]) == br.added(x),
    ensures
        relational_views(final(out)@) == relational_views(old(out)@) + br.extraction(b as int),
{
    let ghost before = relational_views(out@);
    match pairing[b] {
        Some((host, _)) => {
            let ghost ls = signature(br.arena[b as int].content);
            let ghost kept = signature(br.arena[host.0 as int].content);
            let h: usize = host.0 as usize;
            proof {
                assert(br.pairing[b as int] is Some);
                assert(target(br.pairing[b as int]) == host);
                assert(strs(table@[b as int]@) == ls);
                assert(strs(table@[h as int]@) == kept);
            }
            let mut moved: Vec<String> = Vec::new();
            let mut k: usize = 0;
            proof {
                assert(strs(moved@) =~= br.left(ls, kept, 0));
            }
            while k < table[b].len()
                invariant
                    k <= table@[b as int]@.len(),
                    b < table@.len(),
                    h < table@.len(),
                    br.wf(),
                    lo == br.lo,
                    is_signature_table(br.arena, table@),
                    added@.len() == br.hi - br.lo,
                    forall|x: int|
                        br.lo <= x < br.hi ==> (#[trigger] added@[x - br.lo]) == br.added(x),
                    strs(table@[b as int]@) == ls,
                    strs(table@[h as int]@) == kept,
                    strs(moved@) == br.left(ls, kept, k as int),
                decreases table@[b as int]@.len() - k,
            {
                proof {
                    assert(ls[k as int] == table@[b as int]@[k as int]@);
                }
                let ghost held = strs(moved@);
                if !list_has(&table[h], table[b][k].as_str()) && is_housed(
                    table,
                    added,
                    lo,
                    table[b][k].as_str(),
                    Ghost(br),
                ) {
                    moved.push(table[b][k].clone());
                    proof {
                        assert(strs(moved@) =~= held.push(ls[k as int]));
                    }
                }
                k = k + 1;
            }
            if moved.len() > 0 {
                let extracted = home_list(table, added, lo, &moved, Ghost(br));
                let ghost held = out@;
                let fact = Relational::ExtractedInto {
                    source: Idx(b as u32),
                    side,
                    host,
                    extracted,
                    moved,
                };
                out.push(fact);
                proof {
                    assert(relational_views(out@) =~= relational_views(held).push(fact@));
                    assert(relational_views(out@) =~= before + br.extraction(b as int));
                }
            } else {
                proof {
                    assert(strs(moved@).len() == 0);
                    assert(relational_views(out@) =~= before + br.extraction(b as int));
                }
            }
        },
        None => {
            proof {
                assert(relational_views(out@) =~= before + br.extraction(b as int));
            }
        },
    }
}

/// Which surviving entities had part of their body extracted into new ones: only
/// lines the host lost count, and only an entity without a base counterpart can
/// be a destination.
pub fn detect_extractions(
    arena: &Arena,
    nb: usize,
    no: usize,
    pairing_ours: &Pairing,
    pairing_theirs: &Pairing,
    table: &Vec<Vec<String>>,
    out: &mut Vec<Relational>,
)
    requires
        nb + no <= arena@.len() <= u32::MAX,
        pairing_ours@.len() == nb,
        pairing_theirs@.len() == nb,
        crate::v2::candidates::within(pairing_ours@, nb as int, nb + no),
        crate::v2::candidates::within(pairing_theirs@, nb + no, arena@.len() as int),
        is_signature_table(arena@, table@),
    ensures
        relational_views(final(out)@) == relational_views(old(out)@) + extractions(
            Branch {
                arena: arena@,
                side: Side::Ours,
                lo: nb as int,
                hi: nb + no,
                pairing: pairing_ours@,
            },
            Branch {
                arena: arena@,
                side: Side::Theirs,
                lo: nb + no,
                hi: arena@.len() as int,
                pairing: pairing_theirs@,
            },
            nb as int,
        ),
{
    let n: usize = arena.len();
    let ghost o = Branch {
        arena: arena@,
        side: Side::Ours,
        lo: nb as int,
        hi: nb + no,
        pairing: pairing_ours@,
    };
    let ghost t = Branch {
        arena: arena@,
        side: Side::Theirs,
        lo: nb + no,
        hi: arena@.len() as int,
        pairing: pairing_theirs@,
    };
    let ghost before = relational_views(out@);
    let ours_added = added_table(pairing_ours, nb, nb + no, Ghost(o));
    let theirs_added = added_table(pairing_theirs, nb + no, n, Ghost(t));
    let mut b: usize = 0;
    proof {
        assert(before + extractions(o, t, 0) =~= before);
    }
    while b < nb
        invariant
            b <= nb,
            nb + no <= n == arena@.len() <= u32::MAX,
            o.wf(),
            t.wf(),
            arena@ == o.arena,
            arena@ == t.arena,
            pairing_ours@ == o.pairing,
            pairing_theirs@ == t.pairing,
            pairing_ours@.len() == nb,
            pairing_theirs@.len() == nb,
            o.side == Side::Ours,
            t.side == Side::Theirs,
            o.lo == nb,
            t.lo == nb + no,
            is_signature_table(arena@, table@),
            ours_added@.len() == o.hi - o.lo,
            forall|x: int| o.lo <= x < o.hi ==> (#[trigger] ours_added@[x - o.lo]) == o.added(x),
            theirs_added@.len() == t.hi - t.lo,
            forall|x: int| t.lo <= x < t.hi ==> (#[trigger] theirs_added@[x - t.lo]) == t.added(x),
            relational_views(out@) == before + extractions(o, t, b as int),
        decreases nb - b,
    {
        push_extraction(arena, Side::Ours, nb, pairing_ours, table, &ours_added, b, out, Ghost(o));
        push_extraction(
            arena,
            Side::Theirs,
            nb + no,
            pairing_theirs,
            table,
            &theirs_added,
            b,
            out,
            Ghost(t),
        );
        proof {
            assert(relational_views(out@) =~= before + extractions(o, t, b + 1));
        }
        b = b + 1;
    }
}

/// The indexes that a relational fact names lie in an arena of `n` entities.
pub open spec fn relation_ok(r: RelationalView, n: nat) -> bool {
    match r {
        RelationalView::RehomedInto { deleted, side, homes, coverage } => deleted.0 < n && all_ok(
            homes,
            n,
        ),
        RelationalView::ExtractedInto { source, side, host, extracted, moved } => source.0 < n
            && host.0 < n && all_ok(extracted, n),
    }
}

/// All of the indexes lie in an arena of `n` entities.
pub open spec fn all_ok(v: Seq<Idx>, n: nat) -> bool {
    forall|k: int| 0 <= k < v.len() ==> (#[trigger] v[k]).0 < n
}

/// Every index that the relational facts name lies in an arena of `n` entities.
pub open spec fn relations_ok(v: Seq<RelationalView>, n: nat) -> bool {
    forall|k: int| 0 <= k < v.len() ==> relation_ok(#[trigger] v[k], n)
}

proof fn homes_in_arena(b: Branch, moved: Seq<Seq<char>>, n: int)
    requires
        b.wf(),
        n <= b.hi,
    ensures
        all_ok(b.homes(moved, n), b.arena.len()),
    decreases n - b.lo,
{
    if n > b.lo {
        homes_in_arena(b, moved, n - 1);
    }
}

proof fn rehomes_in_arena(b: Branch, k: int)
    requires
        b.wf(),
        k <= b.pairing.len(),
    ensures
        relations_ok(b.rehomes(k), b.arena.len()),
    decreases k,
{
    if k > 0 {
        rehomes_in_arena(b, k - 1);
        homes_in_arena(b, signature(b.arena[k - 1].content), b.hi);
    }
}

proof fn extraction_in_arena(b: Branch, k: int)
    requires
        b.wf(),
        0 <= k < b.pairing.len(),
    ensures
        relations_ok(b.extraction(k), b.arena.len()),
{
    homes_in_arena(b, b.moved_out(k), b.hi);
}

proof fn extractions_in_arena(ours: Branch, theirs: Branch, k: int)
    requires
        ours.wf(),
        theirs.wf(),
        ours.arena == theirs.arena,
        k <= ours.pairing.len(),
        k <= theirs.pairing.len(),
    ensures
        relations_ok(extractions(ours, theirs, k), ours.arena.len()),
    decreases k,
{
    if k > 0 {
        extractions_in_arena(ours, theirs, k - 1);
        extraction_in_arena(ours, k - 1);
        extraction_in_arena(theirs, k - 1);
    }
}

/// Every entity that the relational facts of two branches name is in the arena.
pub proof fn relational_facts_lie_in_the_arena(ours: Branch, theirs: Branch, k: int)
    requires
        ours.wf(),
        theirs.wf(),
        ours.arena == theirs.arena,
        k <= ours.pairing.len(),
        k <= theirs.pairing.len(),
    ensures
        relations_ok(
            ours.rehomes(k) + theirs.rehomes(k) + extractions(ours, theirs, k),
            ours.arena.len(),
        ),
{
    rehomes_in_arena(ours, k);
    rehomes_in_arena(theirs, k);
    extractions_in_arena(ours, theirs, k);
}


// ---------------------------------------------------------------------------
// What the facts say
// ---------------------------------------------------------------------------

proof fn homes_hold(br: Branch, moved: Seq<Seq<char>>, n: int, x: int)
    requires
        br.wf(),
        br.lo <= n <= br.hi,
        br.lo <= x < br.hi,
    ensures
        br.homes(moved, n).contains(Idx(x as u32)) <==> x < n && br.added(x) && br.houses_any(
            x,
            moved,
        ),
    decreases n - br.lo,
{
    if n > br.lo {
        homes_hold(br, moved, n - 1, x);
        let front = br.homes(moved, n - 1);
        let all = br.homes(moved, n);
        let last = Idx((n - 1) as u32);
        if br.added(n - 1) && br.houses_any(n - 1, moved) {
            if front.contains(Idx(x as u32)) {
                let k = choose|k: int| 0 <= k < front.len() && front[k] == Idx(x as u32);
                assert(all[k] == Idx(x as u32));
            }
            assert(all[front.len() as int] == last);
            if all.contains(Idx(x as u32)) && x != n - 1 {
                let k = choose|k: int| 0 <= k < all.len() && all[k] == Idx(x as u32);
                assert(front[k] == Idx(x as u32));
            }
        }
    }
}

proof fn left_holds(br: Branch, ls: Seq<Seq<char>>, kept: Seq<Seq<char>>, k: int, l: Seq<char>)
    requires
        0 <= k <= ls.len(),
    ensures
        br.left(ls, kept, k).contains(l) <==> !kept.contains(l) && br.housed(l) && exists|i: int|
            0 <= i < k && #[trigger] ls[i] == l,
    decreases k,
{
    if k > 0 {
        left_holds(br, ls, kept, k - 1, l);
        let front = br.left(ls, kept, k - 1);
        let all = br.left(ls, kept, k);
        let x = ls[k - 1];
        if !kept.contains(x) && br.housed(x) {
            if front.contains(l) {
                let i = choose|i: int| 0 <= i < front.len() && front[i] == l;
                assert(all[i] == l);
            }
            assert(all[front.len() as int] == x);
            if all.contains(l) && l != x {
                let i = choose|i: int| 0 <= i < all.len() && all[i] == l;
                assert(front[i] == l);
            }
        }
    }
}

/// Did the line leave the base entity on the side? The entity has it and is still there
/// without it, and an entity that the side added has it.
pub open spec fn line_left(br: Branch, b: int, l: Seq<char>) -> bool {
    &&& br.pairing[b] is Some
    &&& signature(br.arena[b].content).contains(l)
    &&& !signature(br.arena[target(br.pairing[b]).0 as int].content).contains(l)
    &&& exists|x: int| br.added(x) && signature((#[trigger] br.arena[x]).content).contains(l)
}

/// An extraction is reported exactly where a line left an entity, and it says who lost
/// the lines, who has them now and which they are: every line that left, and every entity
/// that the side added and that has one of them.
pub proof fn an_extraction_says_what_left(br: Branch, b: int, l: Seq<char>, x: int)
    requires
        br.wf(),
        0 <= b < br.pairing.len(),
        br.lo <= x < br.hi,
    ensures
        line_left(br, b, l) ==> br.extraction(b).len() == 1,
        br.extraction(b).len() > 0 ==> {
            &&& br.extraction(b).len() == 1
            &&& br.extraction(b)[0] matches RelationalView::ExtractedInto {
                source,
                side,
                host,
                extracted,
                moved,
            } && {
                &&& source == Idx(b as u32)
                &&& side == br.side
                &&& br.pairing[b] is Some && host == target(br.pairing[b])
                &&& moved.contains(l) <==> line_left(br, b, l)
                &&& extracted.contains(Idx(x as u32)) <==> br.added(x) && exists|i: int|
                    0 <= i < moved.len() && signature(br.arena[x].content).contains(
                        #[trigger] moved[i],
                    )
            }
        },
{
    let ls = signature(br.arena[b].content);
    let kept = signature(br.arena[target(br.pairing[b]).0 as int].content);
    left_holds(br, ls, kept, ls.len() as int, l);
    homes_hold(br, br.moved_out(b), br.hi, x);
    if line_left(br, b, l) {
        let i = choose|i: int| 0 <= i < ls.len() && ls[i] == l;
        assert(ls[i] == l);
        assert(br.housed(l));
        assert(br.moved_out(b).contains(l));
    }
    if br.moved_out(b).contains(l) {
        let y = choose|y: int| br.added(y) && signature((#[trigger] br.arena[y]).content).contains(l);
        assert(br.added(y) && signature(br.arena[y].content).contains(l));
    }
}

proof fn found_is_a_filter(br: Branch, ls: Seq<Seq<char>>, k: int)
    requires
        0 <= k <= ls.len(),
    ensures
        br.found(ls, k) == ls.take(k).filter(|l: Seq<char>| br.housed(l)),
    decreases k,
{
    reveal(Seq::filter);
    if k > 0 {
        found_is_a_filter(br, ls, k - 1);
        assert(ls.take(k).drop_last() =~= ls.take(k - 1));
        assert(ls.take(k).last() == ls[k - 1]);
    } else {
        assert(ls.take(0) =~= Seq::empty());
    }
}

proof fn rehomes_hold(br: Branch, k: int, b: int)
    requires
        br.wf(),
        0 <= b < k <= br.pairing.len(),
    ensures
        br.rehomed(b) <==> exists|i: int|
            0 <= i < br.rehomes(k).len() && is_rehome(br, br.rehomes(k), i, b),
    decreases k,
{
    let front = br.rehomes(k - 1);
    let all = br.rehomes(k);
    if b < k - 1 {
        rehomes_hold(br, k - 1, b);
        if br.rehomed(b) {
            let i = choose|i: int| 0 <= i < front.len() && is_rehome(br, front, i, b);
            assert(all[i] == front[i]);
            assert(is_rehome(br, all, i, b));
        }
        if exists|i: int| 0 <= i < all.len() && is_rehome(br, all, i, b) {
            let i = choose|i: int| 0 <= i < all.len() && is_rehome(br, all, i, b);
            assert(i < front.len());
            assert(is_rehome(br, front, i, b));
        }
    } else {
        rehomes_are_of_earlier(br, k - 1);
        if br.rehomed(b) {
            assert(is_rehome(br, all, front.len() as int, b));
        }
        if exists|i: int| 0 <= i < all.len() && is_rehome(br, all, i, b) {
            let i = choose|i: int| 0 <= i < all.len() && is_rehome(br, all, i, b);
            if i < front.len() {
                assert(all[i] == front[i]);
            }
        }
    }
}

proof fn rehomes_are_of_earlier(br: Branch, k: int)
    requires
        br.wf(),
        0 <= k <= br.pairing.len(),
    ensures
        forall|i: int|
            0 <= i < br.rehomes(k).len() ==> ((#[trigger] br.rehomes(k)[i]) matches
                RelationalView::RehomedInto { deleted, side, homes, coverage } && deleted.0 < k),
    decreases k,
{
    if k > 0 {
        rehomes_are_of_earlier(br, k - 1);
        let front = br.rehomes(k - 1);
        let all = br.rehomes(k);
        assert forall|i: int| 0 <= i < all.len() implies ((#[trigger] all[i]) matches
            RelationalView::RehomedInto { deleted, side, homes, coverage } && deleted.0 < k) by {
            if i < front.len() {
                assert(all[i] == front[i]);
            }
        }
    }
}

/// Does the `i`th fact say that the body of the base entity moved, on this side, into all
/// the entities that the side added and that have one of its lines?
pub open spec fn is_rehome(br: Branch, facts: Seq<RelationalView>, i: int, b: int) -> bool {
    facts[i] matches RelationalView::RehomedInto { deleted, side, homes, coverage } && deleted
        == Idx(b as u32) && side == br.side && homes == br.homes(
        signature(br.arena[b].content),
        br.hi,
    )
}

/// A body is reported to have moved house exactly where its entity is gone from the side
/// and at least six in ten of its lines are in entities that the side added; and its
/// homes are those entities.
pub proof fn a_body_that_moved_is_reported(br: Branch, b: int, x: int)
    requires
        br.wf(),
        0 <= b < br.pairing.len(),
        br.lo <= x < br.hi,
    ensures
        ({
            let facts = br.rehomes(br.pairing.len() as int);
            let ls = signature(br.arena[b].content);
            let found = ls.filter(|l: Seq<char>| br.housed(l));
            &&& (exists|i: int| 0 <= i < facts.len() && is_rehome(br, facts, i, b)) <==> (
            br.pairing[b] is None && ls.len() > 0 && 10 * found.len() >= 6 * ls.len())
            &&& br.homes(ls, br.hi).contains(Idx(x as u32)) <==> br.added(x) && br.houses_any(x, ls)
        }),
{
    let ls = signature(br.arena[b].content);
    rehomes_hold(br, br.pairing.len() as int, b);
    found_is_a_filter(br, ls, ls.len() as int);
    assert(ls.take(ls.len() as int) =~= ls);
    homes_hold(br, ls, br.hi, x);
}

} // verus!
