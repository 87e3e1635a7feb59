//! The single matching pass.
//!
//! There is one pass and one output: a [`Matching`] in which every entity lands
//! in exactly one triple. Entities are moved in as claims, which are neither
//! `Copy` nor `Clone`.

use vstd::prelude::*;
use vstd::std_specs::hash::DefaultHasherAdditionalSpecFns;
use vstd::utf8::encode_utf8;
use std::collections::hash_map::DefaultHasher;
use std::hash::Hasher;
use crate::binding::{replace_at_word_boundaries, replaced};
use crate::text::{
    alphanumeric, chars_of, find_char_from, push_text, same_str, str_eq, string_of, trim,
    trimmed,
};
use crate::v2::candidates::{
    infer_renames, injective, is_paired, leads_to, paired, target, within, Field, Pairing,
};
use crate::v2::relational::{
    detect_extractions, detect_rehomes, extractions, relational_views, signature_table, Branch,
    RelationalView, relational_facts_lie_in_the_arena,
    relations_ok,
};
use crate::v2::types::{
    copy_opt, idx_ok, opt_eq, opt_view, triple_views, triples_wf, Arena, BaseClaim, Claims,
    Entity, EntityView, Evidence, Idx, Key, KeyView, Link, Matching, OursClaim, Relational,
    Side, TheirsClaim, Triple, TripleView,
};

verus! {

broadcast use vstd::string::group_string_axioms;

// ---------------------------------------------------------------------------
// Names and hashes
// ---------------------------------------------------------------------------

/// An entity as the parser handed it over, before it has an identity.
#[derive(Debug, Clone)]
pub struct RawEntity {
    pub name: String,
    pub entity_type: String,
    pub parent: Option<String>,
    pub content: String,
    pub src_id: String,
}

/// A [`RawEntity`] with its strings read as texts.
pub struct RawView {
    pub name: Seq<char>,
    pub entity_type: Seq<char>,
    pub parent: Option<Seq<char>>,
    pub content: Seq<char>,
    pub src_id: Seq<char>,
}

impl View for RawEntity {
    type V = RawView;

    open spec fn view(&self) -> RawView {
        RawView {
            name: self.name@,
            entity_type: self.entity_type@,
            parent: opt_view(self.parent),
            content: self.content@,
            src_id: self.src_id@,
        }
    }
}

/// The views of a list of raw entities.
pub open spec fn raw_views(v: Seq<RawEntity>) -> Seq<RawView> {
    v.map_values(|r: RawEntity| r@)
}

/// A character of a lifetime's name.
pub open spec fn lifetime_char(c: char) -> bool {
    alphanumeric(c) || c == '_'
}

/// The first index at or after `i` behind a lifetime's name.
pub open spec fn lifetime_stop(s: Seq<char>, i: int) -> int
    decreases s.len() - i,
{
    if i < 0 || i >= s.len() {
        s.len() as int
    } else if lifetime_char(s[i]) {
        lifetime_stop(s, i + 1)
    } else {
        i
    }
}

/// The first index at or after `i` behind commas and spaces.
pub open spec fn separator_stop(s: Seq<char>, i: int) -> int
    decreases s.len() - i,
{
    if i < 0 || i >= s.len() {
        s.len() as int
    } else if s[i] == ',' || s[i] == ' ' {
        separator_stop(s, i + 1)
    } else {
        i
    }
}

/// Without the commas and spaces behind.
pub open spec fn strip_separators(s: Seq<char>) -> Seq<char>
    decreases s.len(),
{
    if s.len() > 0 && (s.last() == ',' || s.last() == ' ') {
        strip_separators(s.drop_last())
    } else {
        s
    }
}

/// `out` followed by what is at or after `i` with the lifetimes dropped: each
/// with the separators behind it and, where it leaves some in front, those.
pub open spec fn erased_from(s: Seq<char>, i: int, out: Seq<char>) -> Seq<char>
    decreases s.len() - i,
    via erased_from_decreases
{
    if i < 0 || i >= s.len() {
        out
    } else if s[i] != '\'' {
        erased_from(s, i + 1, out.push(s[i]))
    } else {
        erased_from(s, separator_stop(s, lifetime_stop(s, i + 1)), strip_separators(out))
    }
}

#[via_fn]
proof fn erased_from_decreases(s: Seq<char>, i: int, out: Seq<char>) {
    if 0 <= i < s.len() {
        lifetime_stop_bounds(s, i + 1);
        separator_stop_bounds(s, lifetime_stop(s, i + 1));
    }
}

proof fn lifetime_stop_bounds(s: Seq<char>, i: int)
    requires
        0 <= i <= s.len(),
    ensures
        i <= lifetime_stop(s, i) <= s.len(),
    decreases s.len() - i,
{
    if i < s.len() && lifetime_char(s[i]) {
        lifetime_stop_bounds(s, i + 1);
    }
}

proof fn separator_stop_bounds(s: Seq<char>, i: int)
    requires
        0 <= i <= s.len(),
    ensures
        i <= separator_stop(s, i) <= s.len(),
    decreases s.len() - i,
{
    if i < s.len() && (s[i] == ',' || s[i] == ' ') {
        separator_stop_bounds(s, i + 1);
    }
}

/// What is at or after `i`, with every `<>` taken out, left to right.
pub open spec fn without_brackets(s: Seq<char>, i: int) -> Seq<char>
    decreases s.len() - i,
{
    if i < 0 || i >= s.len() {
        Seq::empty()
    } else if i + 1 < s.len() && s[i] == '<' && s[i + 1] == '>' {
        without_brackets(s, i + 2)
    } else {
        seq![s[i]] + without_brackets(s, i + 1)
    }
}

/// A name with its lifetime arguments dropped: lifetimes are no part of the
/// identity of the type an `impl` block implements.
pub open spec fn lifetimes_erased(name: Seq<char>) -> Seq<char> {
    if name.contains('\'') {
        trim(without_brackets(erased_from(name, 0, Seq::empty()), 0))
    } else {
        name
    }
}

fn is_lifetime_char(c: char) -> (r: bool)
    ensures
        r == lifetime_char(c),
{
    c.is_alphanumeric() || c == '_'
}

fn brackets_removed(s: &[char]) -> (r: Vec<char>)
    ensures
        r@ == without_brackets(s@, 0),
{
    let n: usize = s.len();
    let mut out: Vec<char> = Vec::new();
    let mut i: usize = 0;
    while i < n
        invariant
            i <= n,
            n == s@.len(),
            out@ + without_brackets(s@, i as int) == without_brackets(s@, 0),
        decreases n - i,
    {
        if n - i > 1 && s[i] == '<' && s[i + 1] == '>' {
            i = i + 2;
        } else {
            let ghost before = out@;
            out.push(s[i]);
            i = i + 1;
            proof {
                assert(before + (seq![s@[i - 1]] + without_brackets(s@, i as int)) =~= out@
                    + without_brackets(s@, i as int));
            }
        }
    }
    proof {
        assert(out@ =~= without_brackets(s@, 0));
    }
    out
}

/// Drop lifetime arguments from an entity's name.
pub fn erase_lifetimes(name: &str) -> (r: String)
    ensures
        r@ == lifetimes_erased(name@),
{
    let s = chars_of(name);
    let quote: usize = find_char_from(s.as_slice(), '\'', 0);
    if quote >= s.len() {
        return string_of(s.as_slice());
    }
    proof {
        assert(name@[quote as int] == '\'');
    }
    let mut out: Vec<char> = Vec::new();
    let mut i: usize = 0;
    while i < s.len()
        invariant
            i <= s@.len(),
            erased_from(s@, i as int, out@) == erased_from(s@, 0, Seq::empty()),
        decreases s@.len() - i,
    {
        if s[i] != '\'' {
            out.push(s[i]);
            i = i + 1;
            continue ;
        }
        proof {
            lifetime_stop_bounds(s@, i + 1);
            separator_stop_bounds(s@, lifetime_stop(s@, i + 1));
        }
        let ghost start = i as int;
        let ghost kept = out@;
        i = i + 1;
        while i < s.len() && is_lifetime_char(s[i])
            invariant
                start < i <= s@.len(),
                lifetime_stop(s@, i as int) == lifetime_stop(s@, start + 1),
            decreases s@.len() - i,
        {
            i = i + 1;
        }
        let ghost middle = i as int;
        while i < s.len() && (s[i] == ',' || s[i] == ' ')
            invariant
                start < i <= s@.len(),
                separator_stop(s@, i as int) == separator_stop(s@, middle),
            decreases s@.len() - i,
        {
            i = i + 1;
        }
        while out.len() > 0 && (out[out.len() - 1] == ',' || out[out.len() - 1] == ' ')
            invariant
                strip_separators(out@) == strip_separators(kept),
            decreases out@.len(),
        {
            out.pop();
        }
    }
    let flat = brackets_removed(out.as_slice());
    string_of(trimmed(flat.as_slice()))
}

/// The hash of a text: the default hasher's answer to the text's bytes and the
/// byte `0xff` that ends a string.
pub open spec fn text_hash(s: Seq<char>) -> u64 {
    DefaultHasher::spec_finish(seq![encode_utf8(s), seq![0xffu8]])
}

/// The hash of a text.
pub fn hash64(s: &str) -> (r: u64)
    ensures
        r == text_hash(s@),
{
    let mut h = DefaultHasher::new();
    h.write(s.as_bytes());
    let end: Vec<u8> = vec![0xffu8];
    h.write(end.as_slice());
    proof {
        assert(end@ =~= seq![0xffu8]);
        assert(h@ =~= seq![encode_utf8(s@), seq![0xffu8]]);
    }
    h.finish()
}

/// One hexadecimal digit, in lower case.
pub open spec fn hex_digit(d: int) -> char {
    if d < 10 {
        ((48 + d) as u8) as char
    } else {
        ((87 + d) as u8) as char
    }
}

/// The lowest `k` hexadecimal digits of a number, the highest first.
pub open spec fn hex_digits(n: int, k: int) -> Seq<char>
    decreases k,
{
    if k <= 0 {
        Seq::empty()
    } else {
        hex_digits(n / 16, k - 1).push(hex_digit(n % 16))
    }
}

fn push_hex(out: &mut Vec<char>, n: u64, k: usize)
    ensures
        final(out)@ == old(out)@ + hex_digits(n as int, k as int),
    decreases k,
{
    if k > 0 {
        let ghost before = out@;
        push_hex(out, n / 16, k - 1);
        let d: u8 = (n % 16) as u8;
        if d < 10 {
            out.push((48 + d) as char);
        } else {
            out.push((87 + d) as char);
        }
        proof {
            assert(out@ =~= before + hex_digits(n as int, k as int));
        }
    } else {
        proof {
            assert(out@ =~= out@ + hex_digits(n as int, k as int));
        }
    }
}

/// The name of an item: its own, or for the anonymous `_`, which is no identity,
/// one made of its text.
pub open spec fn nameable(name: Seq<char>, content: Seq<char>) -> Seq<char> {
    if name == "_"@ {
        "_#"@ + hex_digits(text_hash(trim(content)) as int, 16)
    } else {
        name
    }
}

/// Give an anonymous item a name made of its text; leave any other name alone.
pub fn name_the_unnameable(name: &str, content: &str) -> (r: String)
    ensures
        r@ == nameable(name@, content@),
{
    let n = chars_of(name);
    if !same_str(n.as_slice(), "_") {
        return string_of(n.as_slice());
    }
    let body = string_of(trimmed(chars_of(content).as_slice()));
    let mut out: Vec<char> = Vec::new();
    push_text(&mut out, "_#");
    push_hex(&mut out, hash64(body.as_str()), 16);
    proof {
        assert(out@ =~= "_#"@ + hex_digits(text_hash(trim(content@)) as int, 16));
    }
    string_of(out.as_slice())
}

// ---------------------------------------------------------------------------
// Arena construction
// ---------------------------------------------------------------------------

/// The name under which an entity is known.
pub open spec fn known_name(raw: RawView) -> Seq<char> {
    nameable(lifetimes_erased(raw.name), raw.content)
}

/// The two entities have one parent, one type and one name.
pub open spec fn namesakes(a: RawView, b: RawView) -> bool {
    a.parent == b.parent && a.entity_type == b.entity_type && known_name(a) == known_name(b)
}

/// How many of the first `k` entities are namesakes of `raw`.
pub open spec fn namesakes_before(raws: Seq<RawView>, raw: RawView, k: int) -> nat
    decreases k,
{
    if k <= 0 {
        0
    } else {
        namesakes_before(raws, raw, k - 1) + if namesakes(raws[k - 1], raw) {
            1nat
        } else {
            0nat
        }
    }
}

/// The entity made of the `i`th raw entity of a version.
pub open spec fn minted(raws: Seq<RawView>, i: int) -> EntityView {
    let raw = raws[i];
    EntityView {
        key: KeyView {
            parent: raw.parent,
            entity_type: raw.entity_type,
            name: known_name(raw),
            ordinal: namesakes_before(raws, raw, i) as u32,
        },
        content: raw.content,
        body_hash: text_hash(replaced(raw.content, known_name(raw), "__ENTITY__"@)),
        position: i as u32,
        src_id: raw.src_id,
    }
}

/// The entities of a version.
pub open spec fn minted_all(raws: Seq<RawView>) -> Seq<EntityView> {
    Seq::new(raws.len(), |i: int| minted(raws, i))
}

proof fn namesakes_before_bounds(raws: Seq<RawView>, raw: RawView, i: int, j: int)
    requires
        0 <= i <= j,
    ensures
        namesakes_before(raws, raw, i) <= namesakes_before(raws, raw, j) <= j,
    decreases j,
{
    if i < j {
        namesakes_before_bounds(raws, raw, i, j - 1);
    } else if 0 < j {
        namesakes_before_bounds(raws, raw, j - 1, j - 1);
    }
}

proof fn namesakes_count_alike(raws: Seq<RawView>, a: RawView, b: RawView, k: int)
    requires
        namesakes(a, b),
    ensures
        namesakes_before(raws, a, k) == namesakes_before(raws, b, k),
    decreases k,
{
    if k > 0 {
        namesakes_count_alike(raws, a, b, k - 1);
    }
}

/// Within one version no two entities have the same key.
pub proof fn keys_are_unique(raws: Seq<RawView>, i: int, j: int)
    requires
        raws.len() <= u32::MAX,
        0 <= i < j < raws.len(),
    ensures
        minted(raws, i).key != minted(raws, j).key,
{
    if minted(raws, i).key == minted(raws, j).key {
        namesakes_count_alike(raws, raws[i], raws[j], i);
        namesakes_before_bounds(raws, raws[j], i + 1, j);
        namesakes_before_bounds(raws, raws[j], 0, j);
        namesakes_before_bounds(raws, raws[i], 0, i);
        assert(namesakes(raws[i], raws[j]));
        assert(namesakes_before(raws, raws[j], i + 1) == namesakes_before(raws, raws[j], i) + 1);
        assert(false);
    }
}

/// The claims of an arena: one per entity, the base's first, then ours, then
/// theirs, and within each version every entity in order, with a key of its own.
pub open spec fn claims_wf(arena: Seq<EntityView>, claims: Claims) -> bool {
    let nb = claims.base@.len();
    let no = claims.ours@.len();
    let nt = claims.theirs@.len();
    &&& arena.len() == nb + no + nt
    &&& arena.len() <= u32::MAX
    &&& forall|i: int| 0 <= i < nb ==> (#[trigger] claims.base@[i])@ == Idx(i as u32)
    &&& forall|i: int| 0 <= i < no ==> (#[trigger] claims.ours@[i])@ == Idx((nb + i) as u32)
    &&& forall|i: int|
        0 <= i < nt ==> (#[trigger] claims.theirs@[i])@ == Idx((nb + no + i) as u32)
    &&& distinct_keys(arena, 0, nb as int)
    &&& distinct_keys(arena, nb as int, (nb + no) as int)
    &&& distinct_keys(arena, (nb + no) as int, (nb + no + nt) as int)
}

/// The entities from `lo` up to `hi` have different keys.
pub open spec fn distinct_keys(arena: Seq<EntityView>, lo: int, hi: int) -> bool {
    forall|i: int, j: int|
        lo <= i < j < hi ==> (#[trigger] arena[i]).key != (#[trigger] arena[j]).key
}

/// The views of a list of entities.
pub open spec fn entity_views(v: Seq<Entity>) -> Seq<EntityView> {
    v.map_values(|e: Entity| e@)
}

fn count_namesakes(
    raws: &Vec<RawEntity>,
    names: &Vec<String>,
    i: usize,
) -> (r: u32)
    requires
        i < raws@.len(),
        raws@.len() <= u32::MAX,
        names@.len() == raws@.len(),
        forall|k: int|
            0 <= k < names@.len() ==> (#[trigger] names@[k])@ == known_name(raws@[k]@),
    ensures
        r == namesakes_before(raw_views(raws@), raws@[i as int]@, i as int),
{
    let ghost all = raw_views(raws@);
    let mut k: usize = 0;
    let mut n: u32 = 0;
    while k < i
        invariant
            k <= i < raws@.len(),
            raws@.len() <= u32::MAX,
            names@.len() == raws@.len(),
            forall|k: int|
                0 <= k < names@.len() ==> (#[trigger] names@[k])@ == known_name(raws@[k]@),
            all == raw_views(raws@),
            n <= k,
            n == namesakes_before(all, raws@[i as int]@, k as int),
        decreases i - k,
    {
        proof {
            assert(all[k as int] == raws@[k as int]@);
            assert(names@[k as int]@ == known_name(raws@[k as int]@));
            assert(names@[i as int]@ == known_name(raws@[i as int]@));
        }
        if opt_eq(&raws[k].parent, &raws[i].parent) && str_eq(
            raws[k].entity_type.as_str(),
            raws[i].entity_type.as_str(),
        ) && str_eq(names[k].as_str(), names[i].as_str()) {
            n = n + 1;
        }
        k = k + 1;
    }
    n
}

fn mint_version(raws: &Vec<RawEntity>, entities: &mut Vec<Entity>)
    requires
        raws@.len() <= u32::MAX,
    ensures
        entity_views(final(entities)@) == entity_views(old(entities)@) + minted_all(
            raw_views(raws@),
        ),
{
    let ghost all = raw_views(raws@);
    let ghost before = entity_views(entities@);
    let mut names: Vec<String> = Vec::new();
    let mut i: usize = 0;
    while i < raws.len()
        invariant
            i <= raws@.len(),
            names@.len() == i,
            forall|k: int| 0 <= k < i ==> (#[trigger] names@[k])@ == known_name(raws@[k]@),
        decreases raws@.len() - i,
    {
        let plain = erase_lifetimes(raws[i].name.as_str());
        names.push(name_the_unnameable(plain.as_str(), raws[i].content.as_str()));
        i = i + 1;
    }
    i = 0;
    proof {
        assert(before + minted_all(all).take(0) =~= before);
    }
    while i < raws.len()
        invariant
            i <= raws@.len(),
            raws@.len() <= u32::MAX,
            all == raw_views(raws@),
            names@.len() == raws@.len(),
            forall|k: int|
                0 <= k < names@.len() ==> (#[trigger] names@[k])@ == known_name(raws@[k]@),
            entity_views(entities@) == before + minted_all(all).take(i as int),
        decreases raws@.len() - i,
    {
        let ordinal: u32 = count_namesakes(raws, &names, i);
        let raw = &raws[i];
        let normalized = replace_at_word_boundaries(
            raw.content.as_str(),
            names[i].as_str(),
            "__ENTITY__",
        );
        let entity = Entity {
            key: Key {
                parent: copy_opt(&raw.parent),
                entity_type: raw.entity_type.clone(),
                name: names[i].clone(),
                ordinal,
            },
            body_hash: hash64(normalized.as_str()),
            content: raw.content.clone(),
            position: i as u32,
            src_id: raw.src_id.clone(),
        };
        proof {
            assert(all[i as int] == raws@[i as int]@);
            assert(entity@ == minted(all, i as int));
            assert(minted_all(all).take(i + 1) =~= minted_all(all).take(i as int).push(
                minted(all, i as int),
            ));
        }
        let ghost held = entities@;
        entities.push(entity);
        proof {
            assert(entity_views(entities@) =~= entity_views(held).push(entity@));
            assert(entity_views(entities@) =~= before + minted_all(all).take(i + 1));
        }
        i = i + 1;
    }
    proof {
        assert(minted_all(all).take(all.len() as int) =~= minted_all(all));
    }
}

/// Build the arena and mint exactly one claim per entity.
pub fn build_arena(base: Vec<RawEntity>, ours: Vec<RawEntity>, theirs: Vec<RawEntity>) -> (r: (
    Arena,
    Claims,
))
    requires
        base@.len() + ours@.len() + theirs@.len() <= u32::MAX,
    ensures
        r.0@ == minted_all(raw_views(base@)) + minted_all(raw_views(ours@)) + minted_all(
            raw_views(theirs@),
        ),
        r.1.base@.len() == base@.len(),
        r.1.ours@.len() == ours@.len(),
        r.1.theirs@.len() == theirs@.len(),
        claims_wf(r.0@, r.1),
{
    let mut entities: Vec<Entity> = Vec::new();
    mint_version(&base, &mut entities);
    mint_version(&ours, &mut entities);
    mint_version(&theirs, &mut entities);
    let ghost eb = minted_all(raw_views(base@));
    let ghost eo = minted_all(raw_views(ours@));
    let ghost et = minted_all(raw_views(theirs@));
    proof {
        assert(entity_views(entities@) =~= eb + eo + et);
    }
    let mut claims = Claims { base: Vec::new(), ours: Vec::new(), theirs: Vec::new() };
    let nb: usize = base.len();
    let no: usize = ours.len();
    let nt: usize = theirs.len();
    let mut i: usize = 0;
    while i < nb
        invariant
            i <= nb <= u32::MAX,
            claims.base@.len() == i,
            claims.ours@.len() == 0,
            claims.theirs@.len() == 0,
            forall|k: int| 0 <= k < i ==> (#[trigger] claims.base@[k])@ == Idx(k as u32),
        decreases nb - i,
    {
        claims.base.push(BaseClaim::new(Idx(i as u32)));
        i = i + 1;
    }
    i = 0;
    while i < no
        invariant
            i <= no,
            nb + no <= u32::MAX,
            claims.base@.len() == nb,
            claims.ours@.len() == i,
            claims.theirs@.len() == 0,
            forall|k: int| 0 <= k < nb ==> (#[trigger] claims.base@[k])@ == Idx(k as u32),
            forall|k: int| 0 <= k < i ==> (#[trigger] claims.ours@[k])@ == Idx((nb + k) as u32),
        decreases no - i,
    {
        claims.ours.push(OursClaim::new(Idx((nb + i) as u32)));
        i = i + 1;
    }
    i = 0;
    while i < nt
        invariant
            i <= nt,
            nb + no + nt <= u32::MAX,
            claims.base@.len() == nb,
            claims.ours@.len() == no,
            claims.theirs@.len() == i,
            forall|k: int| 0 <= k < nb ==> (#[trigger] claims.base@[k])@ == Idx(k as u32),
            forall|k: int| 0 <= k < no ==> (#[trigger] claims.ours@[k])@ == Idx((nb + k) as u32),
            forall|k: int|
                0 <= k < i ==> (#[trigger] claims.theirs@[k])@ == Idx((nb + no + k) as u32),
        decreases nt - i,
    {
        claims.theirs.push(TheirsClaim::new(Idx((nb + no + i) as u32)));
        i = i + 1;
    }
    let arena = Arena::from_entities(entities);
    proof {
        let a = arena@;
        assert(a =~= eb + eo + et);
        let b1 = nb as int;
        let b2 = nb + no;
        assert forall|i: int, j: int| 0 <= i < j < b1 implies (#[trigger] a[i]).key != (
        #[trigger] a[j]).key by {
            keys_are_unique(raw_views(base@), i, j);
        }
        assert forall|i: int, j: int| b1 <= i < j < b2 implies (#[trigger] a[i]).key != (
        #[trigger] a[j]).key by {
            keys_are_unique(raw_views(ours@), i - b1, j - b1);
        }
        assert forall|i: int, j: int| b2 <= i < j < b2 + nt implies (#[trigger] a[i]).key != (
        #[trigger] a[j]).key by {
            keys_are_unique(raw_views(theirs@), i - b2, j - b2);
        }
    }
    (arena, claims)
}

// ---------------------------------------------------------------------------
// What the pass decides
// ---------------------------------------------------------------------------

/// The first entity from `i` up to `hi` with the key, if there is one.
pub open spec fn find_key(arena: Seq<EntityView>, key: KeyView, i: int, hi: int) -> Option<int>
    decreases hi - i,
{
    if i >= hi {
        None
    } else if arena[i].key == key {
        Some(i)
    } else {
        find_key(arena, key, i + 1, hi)
    }
}

/// The pairing by identity: same key on both sides.
pub open spec fn identity(arena: Seq<EntityView>, nb: int, lo: int, hi: int) -> Seq<
    Option<(Idx, Link)>,
> {
    Seq::new(
        nb as nat,
        |b: int|
            match find_key(arena, arena[b].key, lo, hi) {
                Some(i) => Some((Idx(i as u32), Link::Identity)),
                None => None,
            },
    )
}

/// The base entity, at or after the `k`th, that is paired with `x`.
pub open spec fn origin(p: Seq<Option<(Idx, Link)>>, x: Idx, k: int) -> Option<int>
    decreases p.len() - k,
{
    if k < 0 || k >= p.len() {
        None
    } else if leads_to(p[k], x) {
        Some(k)
    } else {
        origin(p, x, k + 1)
    }
}

/// Which of the numbers from `lo` up to `hi` the predicate holds of, in order.
pub open spec fn pick(lo: int, hi: int, p: spec_fn(int) -> bool) -> Seq<int>
    decreases hi - lo,
{
    if hi <= lo {
        Seq::empty()
    } else if p(hi - 1) {
        pick(lo, hi - 1, p).push(hi - 1)
    } else {
        pick(lo, hi - 1, p)
    }
}

/// [`pick`] lists exactly the numbers the predicate holds of, ascending.
pub proof fn pick_lists(lo: int, hi: int, p: spec_fn(int) -> bool)
    ensures
        forall|i: int|
            0 <= i < pick(lo, hi, p).len() ==> lo <= (#[trigger] pick(lo, hi, p)[i]) < hi && p(
                pick(lo, hi, p)[i],
            ),
        forall|i: int, j: int|
            0 <= i < j < pick(lo, hi, p).len() ==> (#[trigger] pick(lo, hi, p)[i]) < (
            #[trigger] pick(lo, hi, p)[j]),
        forall|x: int| lo <= x < hi && #[trigger] p(x) ==> pick(lo, hi, p).contains(x),
    decreases hi - lo,
{
    if lo < hi {
        let front = pick(lo, hi - 1, p);
        pick_lists(lo, hi - 1, p);
        let all = pick(lo, hi, p);
        assert forall|x: int| lo <= x < hi && #[trigger] p(x) implies all.contains(x) by {
            if x == hi - 1 {
                assert(all[front.len() as int] == x);
            } else {
                assert(front.contains(x));
                let k = choose|k: int| 0 <= k < front.len() && front[k] == x;
                assert(all[k] == x);
            }
        }
    }
}

/// Three versions in one arena: the base's `nb` entities, then the `no` of our
/// side, then the `nt` of their side.
pub struct Versions {
    pub arena: Seq<EntityView>,
    pub nb: int,
    pub no: int,
    pub nt: int,
}

impl Versions {
    /// The versions fill the arena, and no key occurs twice in one version.
    pub open spec fn wf(self) -> bool {
        &&& 0 <= self.nb
        &&& 0 <= self.no
        &&& 0 <= self.nt
        &&& self.arena.len() == self.nb + self.no + self.nt
        &&& self.arena.len() <= u32::MAX
        &&& distinct_keys(self.arena, 0, self.nb)
        &&& distinct_keys(self.arena, self.nb, self.nb + self.no)
        &&& distinct_keys(self.arena, self.nb + self.no, self.arena.len() as int)
    }

    /// Where their side's entities start.
    pub open spec fn mid(self) -> int {
        self.nb + self.no
    }

    /// Our side by identity.
    pub open spec fn ours_identity(self) -> Seq<Option<(Idx, Link)>> {
        identity(self.arena, self.nb, self.nb, self.mid())
    }

    /// Their side by identity.
    pub open spec fn theirs_identity(self) -> Seq<Option<(Idx, Link)>> {
        identity(self.arena, self.nb, self.mid(), self.arena.len() as int)
    }

    /// Our side's pairing, with the given entities out of its reach.
    pub open spec fn ours_pairing(self, reserved: Seq<bool>) -> Seq<Option<(Idx, Link)>> {
        (Field {
            arena: self.arena,
            nb: self.nb,
            lo: self.nb,
            hi: self.mid(),
            pairing: self.ours_identity(),
            reserved,
        }).renames()
    }

    /// Their side's pairing, with the given entities out of its reach.
    pub open spec fn theirs_pairing(self, reserved: Seq<bool>) -> Seq<Option<(Idx, Link)>> {
        (Field {
            arena: self.arena,
            nb: self.nb,
            lo: self.mid(),
            hi: self.arena.len() as int,
            pairing: self.theirs_identity(),
            reserved,
        }).renames()
    }

    /// Our side's pairing with nothing out of reach.
    pub open spec fn ours_free(self) -> Seq<Option<(Idx, Link)>> {
        self.ours_pairing(Seq::new(self.no as nat, |i: int| false))
    }

    /// Their side's pairing with nothing out of reach.
    pub open spec fn theirs_free(self) -> Seq<Option<(Idx, Link)>> {
        self.theirs_pairing(Seq::new(self.nt as nat, |i: int| false))
    }

    /// Both sides added an entity under one key, and inferred different origins
    /// for it. Name equality outranks body shape: neither side may take such an
    /// entity for a rename.
    pub open spec fn contested(self, o: int, t: int) -> bool {
        &&& self.nb <= o < self.mid()
        &&& self.mid() <= t < self.arena.len()
        &&& !paired(self.ours_identity(), Idx(o as u32))
        &&& !paired(self.theirs_identity(), Idx(t as u32))
        &&& self.arena[o].key == self.arena[t].key
        &&& origin(self.ours_free(), Idx(o as u32), 0) != origin(
            self.theirs_free(),
            Idx(t as u32),
            0,
        )
    }

    /// Our addition is contested.
    pub open spec fn ours_contested(self, o: int) -> bool {
        exists|t: int| self.contested(o, t)
    }

    /// Their addition is contested.
    pub open spec fn theirs_contested(self, t: int) -> bool {
        exists|o: int| self.contested(o, t)
    }

    spec fn ours_contested_below(self, o: int, hi: int) -> bool {
        exists|t: int| t < hi && self.contested(o, t)
    }

    spec fn theirs_contested_below(self, t: int, hi: int) -> bool {
        exists|o: int| o < hi && self.contested(o, t)
    }

    /// Our additions that no rename may take.
    pub open spec fn ours_reserved(self) -> Seq<bool> {
        Seq::new(self.no as nat, |i: int| self.ours_contested(self.nb + i))
    }

    /// Their additions that no rename may take.
    pub open spec fn theirs_reserved(self) -> Seq<bool> {
        Seq::new(self.nt as nat, |i: int| self.theirs_contested(self.mid() + i))
    }

    /// Which entity of our side each base entity became.
    pub open spec fn ours(self) -> Seq<Option<(Idx, Link)>> {
        self.ours_pairing(self.ours_reserved())
    }

    /// Which entity of their side each base entity became.
    pub open spec fn theirs(self) -> Seq<Option<(Idx, Link)>> {
        self.theirs_pairing(self.theirs_reserved())
    }

    /// Our side as relational evidence sees it.
    pub open spec fn ours_branch(self) -> Branch {
        Branch {
            arena: self.arena,
            side: Side::Ours,
            lo: self.nb,
            hi: self.mid(),
            pairing: self.ours_identity(),
        }
    }

    /// Their side as relational evidence sees it.
    pub open spec fn theirs_branch(self) -> Branch {
        Branch {
            arena: self.arena,
            side: Side::Theirs,
            lo: self.mid(),
            hi: self.arena.len() as int,
            pairing: self.theirs_identity(),
        }
    }

    /// The facts about bodies that moved house, read off identity alone.
    pub open spec fn relational(self) -> Seq<RelationalView> {
        self.ours_branch().rehomes(self.nb) + self.theirs_branch().rehomes(self.nb) + extractions(
            self.ours_branch(),
            self.theirs_branch(),
            self.nb,
        )
    }

    /// Our entity that came from no base entity.
    pub open spec fn ours_new(self, o: int) -> bool {
        self.nb <= o < self.mid() && !paired(self.ours(), Idx(o as u32))
    }

    /// Their entity that came from no base entity.
    pub open spec fn theirs_new(self, t: int) -> bool {
        self.mid() <= t < self.arena.len() && !paired(self.theirs(), Idx(t as u32))
    }

    /// Both sides added the entity: they agree on the key.
    pub open spec fn both_added(self, o: int, t: int) -> bool {
        self.ours_new(o) && self.theirs_new(t) && self.arena[o].key == self.arena[t].key
    }

    /// Their addition, at or after `t`, under the key of our addition.
    pub open spec fn partner(self, o: int, t: int) -> Option<int>
        decreases self.arena.len() - t,
    {
        if t >= self.arena.len() {
            None
        } else if self.both_added(o, t) {
            Some(t)
        } else {
            self.partner(o, t + 1)
        }
    }

    /// The triple of a base entity.
    pub open spec fn base_triple(self, b: int) -> TripleView {
        TripleView {
            base: Some(Idx(b as u32)),
            ours: entry_target(self.ours()[b]),
            theirs: entry_target(self.theirs()[b]),
            evidence: Evidence {
                ours_link: entry_link(self.ours()[b]),
                theirs_link: entry_link(self.theirs()[b]),
            },
        }
    }

    /// The triple of an entity that both sides added.
    pub open spec fn both_triple(self, o: int) -> TripleView {
        TripleView {
            base: None,
            ours: Some(Idx(o as u32)),
            theirs: Some(Idx((self.partner(o, self.mid())->0) as u32)),
            evidence: Evidence { ours_link: Link::Added, theirs_link: Link::Added },
        }
    }

    /// Our additions that their side has too.
    pub open spec fn with_partner(self) -> spec_fn(int) -> bool {
        |o: int| self.ours_new(o) && self.partner(o, self.mid()) is Some
    }

    /// Our additions that their side has not.
    pub open spec fn without_partner(self) -> spec_fn(int) -> bool {
        |o: int| self.ours_new(o) && self.partner(o, self.mid()) is None
    }

    /// Our side did not add the entity.
    pub open spec fn only_theirs(self, t: int) -> bool {
        forall|o: int| !self.both_added(o, t)
    }

    /// Their additions that our side has not.
    pub open spec fn theirs_alone(self) -> spec_fn(int) -> bool {
        |t: int| self.theirs_new(t) && self.only_theirs(t)
    }

    /// The triples of the base entities, in order.
    pub open spec fn base_triples(self) -> Seq<TripleView> {
        Seq::new(self.nb as nat, |b: int| self.base_triple(b))
    }

    /// Every triple: those of the base, then what both sides added, then what
    /// our side added alone, then what their side added alone.
    pub open spec fn triples(self) -> Seq<TripleView> {
        self.base_triples() + pick(self.nb, self.mid(), self.with_partner()).map_values(
            |o: int| self.both_triple(o),
        ) + pick(self.nb, self.mid(), self.without_partner()).map_values(
            |o: int| ours_triple(o),
        ) + pick(self.mid(), self.arena.len() as int, self.theirs_alone()).map_values(
            |t: int| theirs_triple(t),
        )
    }
}

/// The partner that an entry of a pairing names.
pub open spec fn entry_target(entry: Option<(Idx, Link)>) -> Option<Idx> {
    match entry {
        Some(pair) => Some(pair.0),
        None => None,
    }
}

/// The link that an entry of a pairing records.
pub open spec fn entry_link(entry: Option<(Idx, Link)>) -> Link {
    match entry {
        Some(pair) => pair.1,
        None => Link::Absent,
    }
}

/// The triple of an entity that our side added alone.
pub open spec fn ours_triple(o: int) -> TripleView {
    TripleView {
        base: None,
        ours: Some(Idx(o as u32)),
        theirs: None,
        evidence: Evidence { ours_link: Link::Added, theirs_link: Link::Absent },
    }
}

/// The triple of an entity that their side added alone.
pub open spec fn theirs_triple(t: int) -> TripleView {
    TripleView {
        base: None,
        ours: None,
        theirs: Some(Idx(t as u32)),
        evidence: Evidence { ours_link: Link::Absent, theirs_link: Link::Added },
    }
}

// ---------------------------------------------------------------------------
// The partition
// ---------------------------------------------------------------------------

/// The entity in one of the three slots of a triple.
pub open spec fn slot(t: TripleView, s: int) -> Option<Idx> {
    if s == 0 {
        t.base
    } else if s == 1 {
        t.ours
    } else {
        t.theirs
    }
}

/// The entity is in slot `s` of the `i`th triple.
pub open spec fn sits(ts: Seq<TripleView>, i: int, s: int, x: Idx) -> bool {
    0 <= i < ts.len() && 0 <= s < 3 && slot(ts[i], s) == Some(x)
}

/// No entity is in two slots.
pub open spec fn no_entity_twice(ts: Seq<TripleView>) -> bool {
    forall|i: int, s: int, j: int, r: int, x: Idx| #[trigger]
        sits(ts, i, s, x) && #[trigger] sits(ts, j, r, x) ==> i == j && s == r
}

/// Each of the `n` entities is in some slot.
pub open spec fn no_entity_lost(ts: Seq<TripleView>, n: int) -> bool {
    forall|k: int| 0 <= k < n ==> seated(ts, #[trigger] nth(k))
}

/// The `k`th index.
pub open spec fn nth(k: int) -> Idx {
    Idx(k as u32)
}

/// The entity is in some slot.
pub open spec fn seated(ts: Seq<TripleView>, x: Idx) -> bool {
    exists|i: int, s: int| sits(ts, i, s, x)
}

/// Every entity appears in exactly one slot of one triple.
pub open spec fn total_partition(ts: Seq<TripleView>, n: int) -> bool {
    no_entity_twice(ts) && no_entity_lost(ts, n)
}

proof fn find_key_is_first(arena: Seq<EntityView>, key: KeyView, i: int, hi: int)
    ensures
        match find_key(arena, key, i, hi) {
            Some(k) => i <= k < hi && arena[k].key == key,
            None => forall|k: int| i <= k < hi ==> (#[trigger] arena[k]).key != key,
        },
    decreases hi - i,
{
    if i < hi && arena[i].key != key {
        find_key_is_first(arena, key, i + 1, hi);
    }
}

pub proof fn identity_is_injective(arena: Seq<EntityView>, nb: int, lo: int, hi: int)
    requires
        0 <= nb,
        0 <= lo <= hi <= u32::MAX,
        distinct_keys(arena, 0, nb),
    ensures
        injective(identity(arena, nb, lo, hi)),
        within(identity(arena, nb, lo, hi), lo, hi),
{
    let p = identity(arena, nb, lo, hi);
    assert forall|b: int| 0 <= b < p.len() && (#[trigger] p[b]) is Some implies lo <= target(p[b]).0
        < hi by {
        find_key_is_first(arena, arena[b].key, lo, hi);
    }
    assert forall|a: int, b: int|
        0 <= a < b < p.len() && (#[trigger] p[a]) is Some && (
        #[trigger] p[b]) is Some implies target(p[a]) != target(p[b]) by {
        find_key_is_first(arena, arena[a].key, lo, hi);
        find_key_is_first(arena, arena[b].key, lo, hi);
        assert(arena[a].key != arena[b].key);
    }
}

fn identity_pairing(arena: &Arena, nb: usize, lo: usize, hi: usize) -> (r: Pairing)
    requires
        nb <= lo <= hi <= arena@.len() <= u32::MAX,
        distinct_keys(arena@, 0, nb as int),
    ensures
        r@ == identity(arena@, nb as int, lo as int, hi as int),
        r@.len() == nb,
        injective(r@),
        within(r@, lo as int, hi as int),
{
    let ghost all = identity(arena@, nb as int, lo as int, hi as int);
    let mut out: Pairing = Vec::new();
    let mut b: usize = 0;
    while b < nb
        invariant
            b <= nb <= lo <= hi <= arena@.len() <= u32::MAX,
            all == identity(arena@, nb as int, lo as int, hi as int),
            out@ == all.take(b as int),
        decreases nb - b,
    {
        let key = &arena.get(Idx(b as u32)).key;
        let mut found: Option<(Idx, Link)> = None;
        let mut i: usize = lo;
        while i < hi && found.is_none()
            invariant
                lo <= i <= hi <= arena@.len() <= u32::MAX,
                key@ == arena@[b as int].key,
                found is None ==> find_key(arena@, key@, i as int, hi as int) == find_key(
                    arena@,
                    key@,
                    lo as int,
                    hi as int,
                ),
                found is Some ==> found == (match find_key(arena@, key@, lo as int, hi as int) {
                    Some(k) => Some((Idx(k as u32), Link::Identity)),
                    None => None,
                }),
            decreases hi - i,
        {
            if arena.get(Idx(i as u32)).key.same(key) {
                found = Some((Idx(i as u32), Link::Identity));
            }
            i = i + 1;
        }
        out.push(found);
        b = b + 1;
        proof {
            assert(all.take(b as int) =~= all.take(b - 1).push(all[b - 1]));
        }
    }
    proof {
        assert(all.take(nb as int) =~= all);
        identity_is_injective(arena@, nb as int, lo as int, hi as int);
    }
    out
}

/// The base entity a side's pairing says `branch` came from, if any.
fn renamed_from(pairing: &Pairing, branch: Idx) -> (r: Option<usize>)
    ensures
        match r {
            Some(b) => origin(pairing@, branch, 0) == Some(b as int),
            None => origin(pairing@, branch, 0) is None,
        },
{
    let mut b: usize = 0;
    while b < pairing.len()
        invariant
            b <= pairing@.len(),
            origin(pairing@, branch, b as int) == origin(pairing@, branch, 0),
        decreases pairing@.len() - b,
    {
        match pairing[b] {
            Some(pair) => {
                if pair.0 == branch {
                    return Some(b);
                }
            },
            None => {},
        }
        b = b + 1;
    }
    None
}

fn all_false(n: usize) -> (r: Vec<bool>)
    ensures
        r@ == Seq::new(n as nat, |i: int| false),
{
    let mut out: Vec<bool> = Vec::new();
    let mut i: usize = 0;
    while i < n
        invariant
            i <= n,
            out@ =~= Seq::new(i as nat, |i: int| false),
        decreases n - i,
    {
        out.push(false);
        i = i + 1;
    }
    out
}

/// Mark the additions that both sides made under one key and that one side's
/// rename inference took, or both took for different things.
fn reservations(
    arena: &Arena,
    nb: usize,
    no: usize,
    ours_identity: &Pairing,
    theirs_identity: &Pairing,
    ours_free: &Pairing,
    theirs_free: &Pairing,
    Ghost(v): Ghost<Versions>,
) -> (r: (Vec<bool>, Vec<bool>))
    requires
        v.wf(),
        arena@ == v.arena,
        nb == v.nb,
        no == v.no,
        ours_identity@ == v.ours_identity(),
        theirs_identity@ == v.theirs_identity(),
        ours_free@ == v.ours_free(),
        theirs_free@ == v.theirs_free(),
    ensures
        r.0@ == v.ours_reserved(),
        r.1@ == v.theirs_reserved(),
{
    let n: usize = arena.len();
    let mid: usize = nb + no;
    let mut ours = all_false(no);
    let mut theirs = all_false(n - mid);
    let mut i: usize = 0;
    while i < no
        invariant
            i <= no,
            v.wf(),
            arena@ == v.arena,
            nb == v.nb,
            no == v.no,
            mid == v.mid(),
            n == arena@.len(),
            ours_identity@ == v.ours_identity(),
            theirs_identity@ == v.theirs_identity(),
            ours_free@ == v.ours_free(),
            theirs_free@ == v.theirs_free(),
            ours@.len() == no,
            theirs@.len() == v.nt,
            forall|k: int| 0 <= k < i ==> (#[trigger] ours@[k]) == v.ours_contested(nb + k),
            forall|k: int| i <= k < no ==> !(#[trigger] ours@[k]),
            forall|k: int|
                0 <= k < v.nt ==> (#[trigger] theirs@[k]) == v.theirs_contested_below(
                    mid + k,
                    nb + i,
                ),
        decreases no - i,
    {
        let o = Idx((nb + i) as u32);
        let ghost oi = nb + i;
        let ghost marks = theirs@;
        if !is_paired(ours_identity, o) {
            let from = renamed_from(ours_free, o);
            let mut hit = false;
            let mut j: usize = 0;
            while j < n - mid
                invariant
                    j <= n - mid,
                    v.wf(),
                    arena@ == v.arena,
                    mid == v.mid(),
                    n == arena@.len(),
                    i < no,
                    oi == nb + i,
                    o == Idx(oi as u32),
                    nb == v.nb,
                    no == v.no,
                    theirs_identity@ == v.theirs_identity(),
                    theirs_free@ == v.theirs_free(),
                    !paired(v.ours_identity(), o),
                    match from {
                        Some(b) => origin(v.ours_free(), o, 0) == Some(b as int),
                        None => origin(v.ours_free(), o, 0) is None,
                    },
                    theirs@.len() == v.nt,
                    marks.len() == v.nt,
                    hit == v.ours_contested_below(oi, mid + j),
                    forall|k: int|
                        0 <= k < v.nt ==> (#[trigger] theirs@[k]) == (marks[k] || (k < j
                            && v.contested(oi, mid + k))),
                decreases n - mid - j,
            {
                let t = Idx((mid + j) as u32);
                let ghost ti = mid + j;
                let mut here = false;
                if !is_paired(theirs_identity, t) && arena.get(o).key.same(&arena.get(t).key) {
                    here = match (from, renamed_from(theirs_free, t)) {
                        (Some(a), Some(b)) => a != b,
                        (None, None) => false,
                        _ => true,
                    };
                }
                proof {
                    assert(here == v.contested(oi, ti));
                    if v.ours_contested_below(oi, ti + 1) && !here {
                        let w = choose|w: int| w < ti + 1 && v.contested(oi, w);
                        assert(w < ti && v.contested(oi, w));
                    }
                    if hit {
                        let w = choose|w: int| w < ti && v.contested(oi, w);
                        assert(w < ti + 1 && v.contested(oi, w));
                    }
                    if here {
                        assert(ti < ti + 1 && v.contested(oi, ti));
                    }
                }
                if here {
                    hit = true;
                    theirs.set(j, true);
                }
                j = j + 1;
            }
            proof {
                assert(hit == v.ours_contested(oi)) by {
                    if v.ours_contested(oi) {
                        let t = choose|t: int| v.contested(oi, t);
                        assert(t < mid + j && v.contested(oi, t));
                    }
                }
            }
            if hit {
                ours.set(i, true);
            }
        } else {
            proof {
                assert(!v.ours_contested(oi));
            }
        }
        proof {
            assert forall|k: int| 0 <= k < v.nt implies (#[trigger] theirs@[k])
                == v.theirs_contested_below(mid + k, nb + i + 1) by {
                let tk = mid + k;
                assert(marks[k] == v.theirs_contested_below(tk, nb + i));
                if theirs@[k] {
                    if marks[k] {
                        let w = choose|w: int| w < nb + i && v.contested(w, tk);
                        assert(w < nb + i + 1 && v.contested(w, tk));
                    } else {
                        assert(oi < nb + i + 1 && v.contested(oi, tk));
                    }
                }
                if v.theirs_contested_below(tk, nb + i + 1) {
                    let w = choose|w: int| w < nb + i + 1 && v.contested(w, tk);
                    if w < nb + i {
                        assert(w < nb + i && v.contested(w, tk));
                    } else {
                        assert(w == oi);
                    }
                }
            }
        }
        i = i + 1;
    }
    proof {
        assert(ours@ =~= v.ours_reserved());
        assert forall|k: int| 0 <= k < v.nt implies (#[trigger] theirs@[k])
            == v.theirs_reserved()[k] by {
            let tk = mid + k;
            if v.theirs_contested(tk) {
                let w = choose|w: int| v.contested(w, tk);
                assert(w < nb + i && v.contested(w, tk));
            }
        }
        assert(theirs@ =~= v.theirs_reserved());
    }
    (ours, theirs)
}

impl Versions {
    /// The pairings of both sides pair no entity twice and stay in their branch.
    pub proof fn pairings_keep_apart(self)
        requires
            self.wf(),
        ensures
            injective(self.ours()),
            within(self.ours(), self.nb, self.mid()),
            self.ours().len() == self.nb,
            injective(self.theirs()),
            within(self.theirs(), self.mid(), self.arena.len() as int),
            self.theirs().len() == self.nb,
    {
        identity_is_injective(self.arena, self.nb, self.nb, self.mid());
        identity_is_injective(self.arena, self.nb, self.mid(), self.arena.len() as int);
        let fo = Field {
            arena: self.arena,
            nb: self.nb,
            lo: self.nb,
            hi: self.mid(),
            pairing: self.ours_identity(),
            reserved: self.ours_reserved(),
        };
        let ft = Field {
            arena: self.arena,
            nb: self.nb,
            lo: self.mid(),
            hi: self.arena.len() as int,
            pairing: self.theirs_identity(),
            reserved: self.theirs_reserved(),
        };
        fo.renames_keep_pairs_apart();
        ft.renames_keep_pairs_apart();
    }

    pub proof fn partner_is_first(self, o: int, t: int)
        ensures
            match self.partner(o, t) {
                Some(k) => t <= k < self.arena.len() && self.both_added(o, k),
                None => forall|k: int| t <= k ==> !self.both_added(o, k),
            },
        decreases self.arena.len() - t,
    {
        if t < self.arena.len() && !self.both_added(o, t) {
            self.partner_is_first(o, t + 1);
        }
    }

    /// Every entity of the three versions lands in exactly one slot of one
    /// triple: none is lost, and none is placed twice.
    #[verifier::rlimit(60)]
    pub proof fn matching_is_a_partition(self)
        requires
            self.wf(),
        ensures
            total_partition(self.triples(), self.arena.len() as int),
            triples_wf(self.triples(), self.arena.len()),
    {
        let n = self.arena.len() as int;
        let bs = self.base_triples();
        let both = pick(self.nb, self.mid(), self.with_partner());
        let alone = pick(self.nb, self.mid(), self.without_partner());
        let other = pick(self.mid(), n, self.theirs_alone());
        let ts = self.triples();
        let k1 = self.nb;
        let k2 = k1 + both.len();
        let k3 = k2 + alone.len();
        self.pairings_keep_apart();
        pick_lists(self.nb, self.mid(), self.with_partner());
        pick_lists(self.nb, self.mid(), self.without_partner());
        pick_lists(self.mid(), n, self.theirs_alone());
        assert(ts.len() == k3 + other.len());
        assert forall|i: int| 0 <= i < k1 implies #[trigger] ts[i] == self.base_triple(i) by {}
        assert forall|i: int| k1 <= i < k2 implies #[trigger] ts[i] == self.both_triple(
            both[i - k1],
        ) by {}
        assert forall|i: int| k2 <= i < k3 implies #[trigger] ts[i] == ours_triple(
            alone[i - k2],
        ) by {}
        assert forall|i: int| k3 <= i < ts.len() implies #[trigger] ts[i] == theirs_triple(
            other[i - k3],
        ) by {}
        assert forall|i: int| k1 <= i < k2 implies self.ours_new(both[i - k1]) && self.both_added(
            #[trigger] both[i - k1],
            self.partner(both[i - k1], self.mid())->0,
        ) by {
            let o = both[i - k1];
            assert(self.with_partner()(o));
            self.partner_is_first(o, self.mid());
        }
        assert forall|i: int| k2 <= i < k3 implies self.ours_new(#[trigger] alone[i - k2]) by {
            assert(self.without_partner()(alone[i - k2]));
        }
        assert forall|i: int| k3 <= i < ts.len() implies self.theirs_new(
            #[trigger] other[i - k3],
        ) && self.only_theirs(other[i - k3]) by {
            assert(self.theirs_alone()(other[i - k3]));
        }
        self.no_base_twice(ts, k1, k2, k3);
        self.no_ours_twice(ts, both, alone, other);
        self.no_theirs_twice(ts, both, alone, other);
        self.slots_stay_apart(ts, both, alone, other);
        assert forall|i: int, s: int, j: int, r: int, x: Idx| #[trigger]
            sits(ts, i, s, x) && #[trigger] sits(ts, j, r, x) implies i == j && s == r by {
            assert(s == r);
        }
        assert forall|k: int| 0 <= k < n implies seated(ts, #[trigger] nth(k)) by {
            self.entity_is_seated(ts, both, alone, other, k);
        }
        assert forall|i: int| 0 <= i < ts.len() implies (#[trigger] ts[i]).wf(
            self.arena.len(),
        ) by {
            if i < k1 {
                assert(ts[i] == self.base_triple(i));
                assert(self.ours()[i] is Some ==> target(self.ours()[i]).0 < n);
                assert(self.theirs()[i] is Some ==> target(self.theirs()[i]).0 < n);
            } else if i < k2 {
                assert(self.ours_new(both[i - k1]));
            } else if i < k3 {
                assert(self.ours_new(alone[i - k2]));
            } else {
                assert(self.theirs_new(other[i - k3]));
            }
        }
    }

    /// The triples, cut into their four parts, and what is known of each.
    spec fn parts(
        self,
        ts: Seq<TripleView>,
        both: Seq<int>,
        alone: Seq<int>,
        other: Seq<int>,
    ) -> bool {
        let k1 = self.nb;
        let k2 = k1 + both.len();
        let k3 = k2 + alone.len();
        &&& both == pick(self.nb, self.mid(), self.with_partner())
        &&& alone == pick(self.nb, self.mid(), self.without_partner())
        &&& other == pick(self.mid(), self.arena.len() as int, self.theirs_alone())
        &&& ts.len() == k3 + other.len()
        &&& forall|i: int| 0 <= i < k1 ==> #[trigger] ts[i] == self.base_triple(i)
        &&& forall|i: int| k1 <= i < k2 ==> #[trigger] ts[i] == self.both_triple(both[i - k1])
        &&& forall|i: int| k2 <= i < k3 ==> #[trigger] ts[i] == ours_triple(alone[i - k2])
        &&& forall|i: int| k3 <= i < ts.len() ==> #[trigger] ts[i] == theirs_triple(other[i - k3])
        &&& forall|i: int|
            k1 <= i < k2 ==> self.ours_new(both[i - k1]) && self.both_added(
                #[trigger] both[i - k1],
                self.partner(both[i - k1], self.mid())->0,
            )
        &&& forall|i: int| k2 <= i < k3 ==> self.ours_new(#[trigger] alone[i - k2])
        &&& forall|i: int|
            k3 <= i < ts.len() ==> self.theirs_new(#[trigger] other[i - k3]) && self.only_theirs(
                other[i - k3],
            )
    }

    proof fn no_base_twice(self, ts: Seq<TripleView>, k1: int, k2: int, k3: int)
        requires
            self.wf(),
            k1 == self.nb,
            k1 <= k2 <= k3 <= ts.len(),
            forall|i: int| 0 <= i < k1 ==> #[trigger] ts[i] == self.base_triple(i),
            forall|i: int| k1 <= i < ts.len() ==> (#[trigger] ts[i]).base is None,
        ensures
            forall|i: int, j: int, x: Idx| #[trigger]
                sits(ts, i, 0, x) && #[trigger] sits(ts, j, 0, x) ==> i == j,
    {
        assert forall|i: int, j: int, x: Idx| #[trigger] sits(ts, i, 0, x) && #[trigger] sits(
            ts,
            j,
            0,
            x,
        ) implies i == j by {
            assert(i < k1) by {
                if i >= k1 {
                    assert(ts[i].base is None);
                }
            }
            assert(j < k1) by {
                if j >= k1 {
                    assert(ts[j].base is None);
                }
            }
            assert(ts[i] == self.base_triple(i));
            assert(ts[j] == self.base_triple(j));
        }
    }

    proof fn no_ours_twice(
        self,
        ts: Seq<TripleView>,
        both: Seq<int>,
        alone: Seq<int>,
        other: Seq<int>,
    )
        requires
            self.wf(),
            self.parts(ts, both, alone, other),
        ensures
            forall|i: int, j: int, x: Idx| #[trigger]
                sits(ts, i, 1, x) && #[trigger] sits(ts, j, 1, x) ==> i == j,
    {
        self.pairings_keep_apart();
        pick_lists(self.nb, self.mid(), self.with_partner());
        pick_lists(self.nb, self.mid(), self.without_partner());
        assert forall|i: int, j: int, x: Idx| #[trigger] sits(ts, i, 1, x) && #[trigger] sits(
            ts,
            j,
            1,
            x,
        ) implies i == j by {
            if i < j {
                self.ours_differ(ts, both, alone, other, i, j, x);
            } else if j < i {
                self.ours_differ(ts, both, alone, other, j, i, x);
            }
        }
    }

    proof fn ours_differ(
        self,
        ts: Seq<TripleView>,
        both: Seq<int>,
        alone: Seq<int>,
        other: Seq<int>,
        i: int,
        j: int,
        x: Idx,
    )
        requires
            self.wf(),
            self.parts(ts, both, alone, other),
            sits(ts, i, 1, x),
            i < j,
        ensures
            !sits(ts, j, 1, x),
    {
        let k1 = self.nb;
        let k2 = k1 + both.len();
        let k3 = k2 + alone.len();
        self.pairings_keep_apart();
        pick_lists(self.nb, self.mid(), self.with_partner());
        pick_lists(self.nb, self.mid(), self.without_partner());
        if !sits(ts, j, 1, x) {
        } else if j < k1 {
            assert(ts[i] == self.base_triple(i) && ts[j] == self.base_triple(j));
            assert(self.ours()[i] is Some && self.ours()[j] is Some);
            assert(target(self.ours()[i]) != target(self.ours()[j]));
        } else if j < k2 {
            assert(ts[j] == self.both_triple(both[j - k1]));
            assert(self.ours_new(both[j - k1]));
            if i < k1 {
                assert(ts[i] == self.base_triple(i));
                assert(leads_to(self.ours()[i], x));
            } else {
                assert(ts[i] == self.both_triple(both[i - k1]));
                assert(both[i - k1] < both[j - k1]);
                assert(self.ours_new(both[i - k1]));
            }
        } else if j < k3 {
            assert(ts[j] == ours_triple(alone[j - k2]));
            assert(self.ours_new(alone[j - k2]));
            assert(self.without_partner()(alone[j - k2]));
            if i < k1 {
                assert(ts[i] == self.base_triple(i));
                assert(leads_to(self.ours()[i], x));
            } else if i < k2 {
                assert(ts[i] == self.both_triple(both[i - k1]));
                assert(self.ours_new(both[i - k1]));
                assert(self.with_partner()(both[i - k1]));
                assert(both[i - k1] == alone[j - k2]);
            } else {
                assert(ts[i] == ours_triple(alone[i - k2]));
                assert(alone[i - k2] < alone[j - k2]);
                assert(self.ours_new(alone[i - k2]));
            }
        } else {
            assert(ts[j] == theirs_triple(other[j - k3]));
        }
    }

    proof fn no_theirs_twice(
        self,
        ts: Seq<TripleView>,
        both: Seq<int>,
        alone: Seq<int>,
        other: Seq<int>,
    )
        requires
            self.wf(),
            self.parts(ts, both, alone, other),
        ensures
            forall|i: int, j: int, x: Idx| #[trigger]
                sits(ts, i, 2, x) && #[trigger] sits(ts, j, 2, x) ==> i == j,
    {
        assert forall|i: int, j: int, x: Idx| #[trigger] sits(ts, i, 2, x) && #[trigger] sits(
            ts,
            j,
            2,
            x,
        ) implies i == j by {
            if i < j {
                self.theirs_differ(ts, both, alone, other, i, j, x);
            } else if j < i {
                self.theirs_differ(ts, both, alone, other, j, i, x);
            }
        }
    }

    proof fn theirs_differ(
        self,
        ts: Seq<TripleView>,
        both: Seq<int>,
        alone: Seq<int>,
        other: Seq<int>,
        i: int,
        j: int,
        x: Idx,
    )
        requires
            self.wf(),
            self.parts(ts, both, alone, other),
            sits(ts, i, 2, x),
            i < j,
        ensures
            !sits(ts, j, 2, x),
    {
        let k1 = self.nb;
        let k2 = k1 + both.len();
        let k3 = k2 + alone.len();
        self.pairings_keep_apart();
        pick_lists(self.nb, self.mid(), self.with_partner());
        pick_lists(self.mid(), self.arena.len() as int, self.theirs_alone());
        if !sits(ts, j, 2, x) {
        } else if j < k1 {
            assert(ts[i] == self.base_triple(i) && ts[j] == self.base_triple(j));
            assert(self.theirs()[i] is Some && self.theirs()[j] is Some);
            assert(target(self.theirs()[i]) != target(self.theirs()[j]));
        } else if j < k2 {
            let oj = both[j - k1];
            let tj = self.partner(oj, self.mid())->0;
            assert(ts[j] == self.both_triple(oj));
            assert(self.both_added(oj, tj));
            if i < k1 {
                assert(ts[i] == self.base_triple(i));
                assert(leads_to(self.theirs()[i], x));
            } else {
                let oi = both[i - k1];
                let ti = self.partner(oi, self.mid())->0;
                assert(ts[i] == self.both_triple(oi));
                assert(self.both_added(oi, ti));
                assert(oi < oj);
                assert(self.arena[oi].key != self.arena[oj].key);
                assert(ti == tj);
            }
        } else if j < k3 {
            assert(ts[j] == ours_triple(alone[j - k2]));
        } else {
            let tj = other[j - k3];
            assert(ts[j] == theirs_triple(tj));
            assert(self.theirs_new(tj));
            if i < k1 {
                assert(ts[i] == self.base_triple(i));
                assert(leads_to(self.theirs()[i], x));
            } else if i < k2 {
                let oi = both[i - k1];
                let ti = self.partner(oi, self.mid())->0;
                assert(ts[i] == self.both_triple(oi));
                assert(self.both_added(oi, ti));
                assert(ti == tj);
                assert(self.only_theirs(tj));
                assert(!self.both_added(oi, tj));
            } else if i < k3 {
                assert(ts[i] == ours_triple(alone[i - k2]));
            } else {
                assert(ts[i] == theirs_triple(other[i - k3]));
                assert(other[i - k3] < other[j - k3]);
                assert(self.theirs_new(other[i - k3]));
            }
        }
    }

    proof fn slots_stay_apart(
        self,
        ts: Seq<TripleView>,
        both: Seq<int>,
        alone: Seq<int>,
        other: Seq<int>,
    )
        requires
            self.wf(),
            self.parts(ts, both, alone, other),
        ensures
            forall|i: int, s: int, j: int, r: int, x: Idx| #[trigger]
                sits(ts, i, s, x) && #[trigger] sits(ts, j, r, x) ==> s == r,
    {
        assert forall|i: int, s: int, j: int, r: int, x: Idx| #[trigger]
            sits(ts, i, s, x) && #[trigger] sits(ts, j, r, x) implies s == r by {
            self.slot_tells_the_version(ts, both, alone, other, i, s, x);
            self.slot_tells_the_version(ts, both, alone, other, j, r, x);
        }
    }

    proof fn slot_tells_the_version(
        self,
        ts: Seq<TripleView>,
        both: Seq<int>,
        alone: Seq<int>,
        other: Seq<int>,
        i: int,
        s: int,
        x: Idx,
    )
        requires
            self.wf(),
            self.parts(ts, both, alone, other),
            sits(ts, i, s, x),
        ensures
            s == 0 ==> x.0 < self.nb,
            s == 1 ==> self.nb <= x.0 < self.mid(),
            s == 2 ==> self.mid() <= x.0 < self.arena.len(),
    {
        let k1 = self.nb;
        let k2 = k1 + both.len();
        let k3 = k2 + alone.len();
        self.pairings_keep_apart();
        if i < k1 {
            assert(ts[i] == self.base_triple(i));
            assert(self.ours()[i] is Some ==> self.nb <= target(self.ours()[i]).0 < self.mid());
            assert(self.theirs()[i] is Some ==> self.mid() <= target(self.theirs()[i]).0
                < self.arena.len());
        } else if i < k2 {
            assert(ts[i] == self.both_triple(both[i - k1]));
            assert(self.both_added(both[i - k1], self.partner(both[i - k1], self.mid())->0));
        } else if i < k3 {
            assert(ts[i] == ours_triple(alone[i - k2]));
            assert(self.ours_new(alone[i - k2]));
        } else {
            assert(ts[i] == theirs_triple(other[i - k3]));
            assert(self.theirs_new(other[i - k3]));
        }
    }

    proof fn entity_is_seated(
        self,
        ts: Seq<TripleView>,
        both: Seq<int>,
        alone: Seq<int>,
        other: Seq<int>,
        k: int,
    )
        requires
            self.wf(),
            self.parts(ts, both, alone, other),
            0 <= k < self.arena.len(),
        ensures
            seated(ts, nth(k)),
    {
        let k1 = self.nb;
        let k2 = k1 + both.len();
        let k3 = k2 + alone.len();
        let x = nth(k);
        self.pairings_keep_apart();
        pick_lists(self.nb, self.mid(), self.with_partner());
        pick_lists(self.nb, self.mid(), self.without_partner());
        pick_lists(self.mid(), self.arena.len() as int, self.theirs_alone());
        if k < self.nb {
            assert(ts[k] == self.base_triple(k));
            assert(sits(ts, k, 0, x));
        } else if k < self.mid() {
            if paired(self.ours(), x) {
                let b = choose|b: int|
                    0 <= b < self.ours().len() && leads_to(#[trigger] self.ours()[b], x);
                assert(ts[b] == self.base_triple(b));
                assert(sits(ts, b, 1, x));
            } else if self.partner(k, self.mid()) is Some {
                assert(self.with_partner()(k));
                let m = choose|m: int| 0 <= m < both.len() && both[m] == k;
                assert(both[(k1 + m) - k1] == k);
                assert(ts[k1 + m] == self.both_triple(k));
                assert(sits(ts, k1 + m, 1, x));
            } else {
                assert(self.without_partner()(k));
                let m = choose|m: int| 0 <= m < alone.len() && alone[m] == k;
                assert(alone[(k2 + m) - k2] == k);
                assert(ts[k2 + m] == ours_triple(k));
                assert(sits(ts, k2 + m, 1, x));
            }
        } else {
            if paired(self.theirs(), x) {
                let b = choose|b: int|
                    0 <= b < self.theirs().len() && leads_to(#[trigger] self.theirs()[b], x);
                assert(ts[b] == self.base_triple(b));
                assert(sits(ts, b, 2, x));
            } else if exists|o: int| self.both_added(o, k) {
                let o = choose|o: int| self.both_added(o, k);
                self.partner_is_first(o, self.mid());
                let t = self.partner(o, self.mid())->0;
                assert(self.both_added(o, t));
                assert(t == k) by {
                    if t != k {
                        if t < k {
                            assert(self.arena[t].key != self.arena[k].key);
                        } else {
                            assert(self.arena[k].key != self.arena[t].key);
                        }
                    }
                }
                assert(self.with_partner()(o));
                let m = choose|m: int| 0 <= m < both.len() && both[m] == o;
                assert(both[(k1 + m) - k1] == o);
                assert(ts[k1 + m] == self.both_triple(o));
                assert(sits(ts, k1 + m, 2, x));
            } else {
                assert(self.theirs_alone()(k));
                let m = choose|m: int| 0 <= m < other.len() && other[m] == k;
                assert(other[(k3 + m) - k3] == k);
                assert(ts[k3 + m] == theirs_triple(k));
                assert(sits(ts, k3 + m, 2, x));
            }
        }
    }
}

// ---------------------------------------------------------------------------
// The pass
// ---------------------------------------------------------------------------

/// Take the claim out of a slot. A second `take` of the slot yields `None`.
fn take<C>(pool: &mut Vec<Option<C>>, i: usize) -> (r: Option<C>)
    requires
        i < old(pool)@.len(),
    ensures
        r == old(pool)@[i as int],
        final(pool)@ == old(pool)@.update(i as int, None),
{
    let ghost before = pool@;
    pool.push(None);
    let out = pool.swap_remove(i);
    proof {
        assert(pool@ =~= before.update(i as int, None));
    }
    out
}

fn pool_of_ours(claims: Vec<OursClaim>) -> (r: Vec<Option<OursClaim>>)
    ensures
        r@.len() == claims@.len(),
        forall|i: int| 0 <= i < r@.len() ==> #[trigger] r@[i] == Some(claims@[i]),
{
    let mut out: Vec<Option<OursClaim>> = Vec::new();
    for c in it: claims
        invariant
            it.seq() == claims@,
            out@.len() == it.index(),
            forall|i: int| 0 <= i < out@.len() ==> #[trigger] out@[i] == Some(claims@[i]),
    {
        out.push(Some(c));
    }
    out
}

fn pool_of_theirs(claims: Vec<TheirsClaim>) -> (r: Vec<Option<TheirsClaim>>)
    ensures
        r@.len() == claims@.len(),
        forall|i: int| 0 <= i < r@.len() ==> #[trigger] r@[i] == Some(claims@[i]),
{
    let mut out: Vec<Option<TheirsClaim>> = Vec::new();
    for c in it: claims
        invariant
            it.seq() == claims@,
            out@.len() == it.index(),
            forall|i: int| 0 <= i < out@.len() ==> #[trigger] out@[i] == Some(claims@[i]),
    {
        out.push(Some(c));
    }
    out
}

impl Versions {
    /// Some base entity before `b` became our entity `x`.
    spec fn ours_spent(self, b: int, x: int) -> bool {
        exists|k: int| 0 <= k < b && leads_to(#[trigger] self.ours()[k], nth(x))
    }

    /// Some base entity before `b` became their entity `x`.
    spec fn theirs_spent(self, b: int, x: int) -> bool {
        exists|k: int| 0 <= k < b && leads_to(#[trigger] self.theirs()[k], nth(x))
    }

    /// Our claims that no base entity before `b` has taken.
    spec fn ours_pool(self, b: int, pool: Seq<Option<OursClaim>>) -> bool {
        &&& pool.len() == self.no
        &&& forall|i: int|
            0 <= i < self.no ==> ((#[trigger] pool[i]) is Some) == !self.ours_spent(b, self.nb + i)
        &&& forall|i: int|
            0 <= i < self.no && (#[trigger] pool[i]) is Some ==> (pool[i]->0)@ == nth(self.nb + i)
    }

    /// Their claims that no base entity before `b` has taken.
    spec fn theirs_pool(self, b: int, pool: Seq<Option<TheirsClaim>>) -> bool {
        &&& pool.len() == self.nt
        &&& forall|i: int|
            0 <= i < self.nt ==> ((#[trigger] pool[i]) is Some) == !self.theirs_spent(
                b,
                self.mid() + i,
            )
        &&& forall|i: int|
            0 <= i < self.nt && (#[trigger] pool[i]) is Some ==> (pool[i]->0)@ == nth(
                self.mid() + i,
            )
    }
}

fn push_base_triples(
    base: Vec<BaseClaim>,
    ours: &Pairing,
    theirs: &Pairing,
    nb: usize,
    mid: usize,
    ours_pool: &mut Vec<Option<OursClaim>>,
    theirs_pool: &mut Vec<Option<TheirsClaim>>,
    Ghost(v): Ghost<Versions>,
) -> (r: Vec<Triple>)
    requires
        v.wf(),
        nb == v.nb,
        mid == v.mid(),
        ours@ == v.ours(),
        theirs@ == v.theirs(),
        base@.len() == v.nb,
        forall|i: int| 0 <= i < v.nb ==> (#[trigger] base@[i])@ == nth(i),
        v.ours_pool(0, old(ours_pool)@),
        v.theirs_pool(0, old(theirs_pool)@),
    ensures
        triple_views(r@) == v.base_triples(),
        v.ours_pool(v.nb, final(ours_pool)@),
        v.theirs_pool(v.nb, final(theirs_pool)@),
{
    proof {
        v.pairings_keep_apart();
    }
    let mut triples: Vec<Triple> = Vec::new();
    for claim in it: base
        invariant
            it.seq() == base@,
            base@.len() == v.nb,
            v.wf(),
            nb == v.nb,
            mid == v.mid(),
            ours@ == v.ours(),
            theirs@ == v.theirs(),
            ours@.len() == nb,
            theirs@.len() == nb,
            injective(v.ours()),
            injective(v.theirs()),
            within(v.ours(), v.nb, v.mid()),
            within(v.theirs(), v.mid(), v.arena.len() as int),
            forall|i: int| 0 <= i < v.nb ==> (#[trigger] base@[i])@ == nth(i),
            triples@.len() == it.index(),
            triple_views(triples@) == v.base_triples().take(it.index() as int),
            v.ours_pool(it.index() as int, ours_pool@),
            v.theirs_pool(it.index() as int, theirs_pool@),
    {
        let b: usize = triples.len();
        let ghost bi = b as int;
        let ghost before_o = ours_pool@;
        let ghost before_t = theirs_pool@;
        let (ours_claim, ours_link) = match ours[b] {
            Some((idx, link)) => {
                proof {
                    assert(v.ours()[bi] is Some);
                    assert(target(v.ours()[bi]) == idx);
                }
                (take(ours_pool, idx.0 as usize - nb), link)
            },
            None => (None, Link::Absent),
        };
        let (theirs_claim, theirs_link) = match theirs[b] {
            Some((idx, link)) => {
                proof {
                    assert(v.theirs()[bi] is Some);
                    assert(target(v.theirs()[bi]) == idx);
                }
                (take(theirs_pool, idx.0 as usize - mid), link)
            },
            None => (None, Link::Absent),
        };
        proof {
            // What this base entity takes no earlier one has taken.
            if v.ours()[bi] is Some {
                let x = target(v.ours()[bi]).0 as int;
                assert(!v.ours_spent(bi, x)) by {
                    if v.ours_spent(bi, x) {
                        let k = choose|k: int|
                            0 <= k < bi && leads_to(#[trigger] v.ours()[k], nth(x));
                        assert(target(v.ours()[k]) != target(v.ours()[bi]));
                    }
                }
                assert(before_o[x - nb] is Some);
            }
            if v.theirs()[bi] is Some {
                let x = target(v.theirs()[bi]).0 as int;
                assert(!v.theirs_spent(bi, x)) by {
                    if v.theirs_spent(bi, x) {
                        let k = choose|k: int|
                            0 <= k < bi && leads_to(#[trigger] v.theirs()[k], nth(x));
                        assert(target(v.theirs()[k]) != target(v.theirs()[bi]));
                    }
                }
                assert(before_t[x - mid] is Some);
            }
            assert forall|i: int| 0 <= i < v.no implies ((#[trigger] ours_pool@[i]) is Some)
                == !v.ours_spent(bi + 1, v.nb + i) by {
                let x = v.nb + i;
                assert((before_o[i] is Some) == !v.ours_spent(bi, x));
                if v.ours_spent(bi, x) {
                    let k = choose|k: int| 0 <= k < bi && leads_to(#[trigger] v.ours()[k], nth(x));
                    assert(0 <= k < bi + 1 && leads_to(v.ours()[k], nth(x)));
                }
                if v.ours_spent(bi + 1, x) {
                    let k = choose|k: int|
                        0 <= k < bi + 1 && leads_to(#[trigger] v.ours()[k], nth(x));
                    if k < bi {
                        assert(v.ours_spent(bi, x));
                    }
                }
                if leads_to(v.ours()[bi], nth(x)) {
                    assert(v.ours_spent(bi + 1, x));
                }
            }
            assert forall|i: int| 0 <= i < v.nt implies ((#[trigger] theirs_pool@[i]) is Some)
                == !v.theirs_spent(bi + 1, v.mid() + i) by {
                let x = v.mid() + i;
                assert((before_t[i] is Some) == !v.theirs_spent(bi, x));
                if v.theirs_spent(bi, x) {
                    let k = choose|k: int| 0 <= k < bi && leads_to(#[trigger] v.theirs()[k], nth(x));
                    assert(0 <= k < bi + 1 && leads_to(v.theirs()[k], nth(x)));
                }
                if v.theirs_spent(bi + 1, x) {
                    let k = choose|k: int|
                        0 <= k < bi + 1 && leads_to(#[trigger] v.theirs()[k], nth(x));
                    if k < bi {
                        assert(v.theirs_spent(bi, x));
                    }
                }
                if leads_to(v.theirs()[bi], nth(x)) {
                    assert(v.theirs_spent(bi + 1, x));
                }
            }
        }
        let triple = Triple {
            base: Some(claim),
            ours: ours_claim,
            theirs: theirs_claim,
            evidence: Evidence { ours_link, theirs_link },
        };
        proof {
            assert(triple@ == v.base_triple(bi));
        }
        let ghost held = triples@;
        triples.push(triple);
        proof {
            assert(triple_views(triples@) =~= triple_views(held).push(triple@));
            assert(v.base_triples().take(bi + 1) =~= v.base_triples().take(bi).push(
                v.base_triples()[bi],
            ));
        }
    }
    proof {
        assert(v.base_triples().take(v.nb) =~= v.base_triples());
    }
    triples
}

impl Versions {
    /// Our claims left once the additions before `hi` that have a partner are
    /// placed.
    spec fn ours_left(self, hi: int, pool: Seq<Option<OursClaim>>) -> bool {
        &&& pool.len() == self.no
        &&& forall|i: int|
            0 <= i < self.no ==> ((#[trigger] pool[i]) is Some) == (self.ours_new(self.nb + i) && !(
            self.nb + i < hi && self.partner(self.nb + i, self.mid()) is Some))
        &&& forall|i: int|
            0 <= i < self.no && (#[trigger] pool[i]) is Some ==> (pool[i]->0)@ == nth(self.nb + i)
    }

    /// One of our additions before `hi` is their addition too.
    spec fn matched_below(self, t: int, hi: int) -> bool {
        exists|o: int| o < hi && self.both_added(o, t)
    }

    /// Their claims left once our additions before `hi` that have a partner are
    /// placed.
    spec fn theirs_left(self, hi: int, pool: Seq<Option<TheirsClaim>>) -> bool {
        &&& pool.len() == self.nt
        &&& forall|j: int|
            0 <= j < self.nt ==> ((#[trigger] pool[j]) is Some) == (self.theirs_new(self.mid() + j)
                && !self.matched_below(self.mid() + j, hi))
        &&& forall|j: int|
            0 <= j < self.nt && (#[trigger] pool[j]) is Some ==> (pool[j]->0)@ == nth(
                self.mid() + j,
            )
    }

    /// Once every base entity is placed, the claims left are the additions.
    proof fn what_is_left_was_added(
        self,
        ours_pool: Seq<Option<OursClaim>>,
        theirs_pool: Seq<Option<TheirsClaim>>,
    )
        requires
            self.wf(),
            self.ours_pool(self.nb, ours_pool),
            self.theirs_pool(self.nb, theirs_pool),
        ensures
            self.ours_left(self.nb, ours_pool),
            self.theirs_left(self.nb, theirs_pool),
    {
        self.pairings_keep_apart();
        assert forall|i: int| 0 <= i < self.no implies ((#[trigger] ours_pool[i]) is Some)
            == self.ours_new(self.nb + i) by {
            let x = self.nb + i;
            if self.ours_spent(self.nb, x) {
                let k = choose|k: int| 0 <= k < self.nb && leads_to(#[trigger] self.ours()[k], nth(x));
                assert(leads_to(self.ours()[k], Idx(x as u32)));
            }
            if paired(self.ours(), Idx(x as u32)) {
                let k = choose|k: int|
                    0 <= k < self.ours().len() && leads_to(
                        #[trigger] self.ours()[k],
                        Idx(x as u32),
                    );
                assert(leads_to(self.ours()[k], nth(x)));
            }
        }
        assert forall|j: int| 0 <= j < self.nt implies ((#[trigger] theirs_pool[j]) is Some) == (
        self.theirs_new(self.mid() + j) && !self.matched_below(self.mid() + j, self.nb)) by {
            let x = self.mid() + j;
            if self.theirs_spent(self.nb, x) {
                let k = choose|k: int|
                    0 <= k < self.nb && leads_to(#[trigger] self.theirs()[k], nth(x));
                assert(leads_to(self.theirs()[k], Idx(x as u32)));
            }
            if paired(self.theirs(), Idx(x as u32)) {
                let k = choose|k: int|
                    0 <= k < self.theirs().len() && leads_to(
                        #[trigger] self.theirs()[k],
                        Idx(x as u32),
                    );
                assert(leads_to(self.theirs()[k], nth(x)));
            }
            assert(!self.matched_below(x, self.nb));
        }
    }
}

fn push_both_added(
    arena: &Arena,
    nb: usize,
    mid: usize,
    ours_pool: &mut Vec<Option<OursClaim>>,
    theirs_pool: &mut Vec<Option<TheirsClaim>>,
    triples: &mut Vec<Triple>,
    Ghost(v): Ghost<Versions>,
)
    requires
        v.wf(),
        arena@ == v.arena,
        nb == v.nb,
        mid == v.mid(),
        v.ours_left(v.nb, old(ours_pool)@),
        v.theirs_left(v.nb, old(theirs_pool)@),
    ensures
        v.ours_left(v.mid(), final(ours_pool)@),
        v.theirs_left(v.mid(), final(theirs_pool)@),
        triple_views(final(triples)@) == triple_views(old(triples)@) + pick(
            v.nb,
            v.mid(),
            v.with_partner(),
        ).map_values(|o: int| v.both_triple(o)),
{
    let ghost before = triple_views(triples@);
    let ghost mk = |o: int| v.both_triple(o);
    let mut i: usize = 0;
    proof {
        assert(before + pick(v.nb, v.nb, v.with_partner()).map_values(mk) =~= before);
    }
    while i < mid - nb
        invariant
            i <= mid - nb,
            v.wf(),
            arena@ == v.arena,
            nb == v.nb,
            mid == v.mid(),
            mk == (|o: int| v.both_triple(o)),
            v.ours_left(nb + i, ours_pool@),
            v.theirs_left(nb + i, theirs_pool@),
            triple_views(triples@) == before + pick(v.nb, nb + i, v.with_partner()).map_values(mk),
        decreases mid - nb - i,
    {
        let ghost o = nb + i;
        let ghost pool_o = ours_pool@;
        let ghost pool_t = theirs_pool@;
        let mut found: Option<usize> = None;
        if ours_pool[i].is_some() {
            let key = &arena.get(Idx((nb + i) as u32)).key;
            let mut j: usize = 0;
            while j < theirs_pool.len() && found.is_none()
                invariant
                    j <= theirs_pool@.len(),
                    i < mid - nb,
                    o == nb + i,
                    v.wf(),
                    arena@ == v.arena,
                    nb == v.nb,
                    mid == v.mid(),
                    key@ == v.arena[o].key,
                    theirs_pool@ == pool_t,
                    v.theirs_left(o, pool_t),
                    v.ours_new(o),
                    found is None ==> v.partner(o, mid + j) == v.partner(o, v.mid()),
                    found is Some ==> v.partner(o, v.mid()) == Some(mid + found->0) && found->0
                        < v.nt && v.both_added(o, mid + found->0),
                decreases theirs_pool@.len() - j,
            {
                proof {
                    let t = mid + j;
                    assert((pool_t[j as int] is Some) == (v.theirs_new(t) && !v.matched_below(
                        t,
                        o,
                    )));
                    if v.both_added(o, t) && v.matched_below(t, o) {
                        let w = choose|w: int| w < o && v.both_added(w, t);
                        assert(v.arena[w].key != v.arena[o].key);
                    }
                }
                if theirs_pool[j].is_some() && arena.get(Idx((mid + j) as u32)).key.same(key) {
                    found = Some(j);
                }
                j = j + 1;
            }
        }
        match found {
            Some(j) => {
                proof {
                    let t = mid + j;
                    assert(pool_t[j as int] is Some) by {
                        if v.matched_below(t, o) {
                            let w = choose|w: int| w < o && v.both_added(w, t);
                            assert(v.arena[w].key != v.arena[o].key);
                        }
                    }
                }
                let ours = take(ours_pool, i);
                let theirs = take(theirs_pool, j);
                let triple = Triple {
                    base: None,
                    ours,
                    theirs,
                    evidence: Evidence { ours_link: Link::Added, theirs_link: Link::Added },
                };
                proof {
                    assert(triple@ == v.both_triple(o));
                }
                let ghost held = triples@;
                triples.push(triple);
                proof {
                    assert(triple_views(triples@) =~= triple_views(held).push(triple@));
                }
            },
            None => {},
        }
        proof {
            assert((pool_o[i as int] is Some) == v.ours_new(o));
            v.partner_is_first(o, v.mid());
            assert(found is Some == (v.ours_new(o) && v.partner(o, v.mid()) is Some)) by {
                if !v.ours_new(o) && v.partner(o, v.mid()) is Some {
                    assert(v.both_added(o, v.partner(o, v.mid())->0));
                }
            }
            assert(v.with_partner()(o) == (found is Some));
            let front = pick(v.nb, o, v.with_partner());
            if found is Some {
                assert(pick(v.nb, o + 1, v.with_partner()) =~= front.push(o));
                assert(front.push(o).map_values(mk) =~= front.map_values(mk).push(v.both_triple(o)));
            } else {
                assert(pick(v.nb, o + 1, v.with_partner()) =~= front);
            }
            assert(triple_views(triples@) =~= before + pick(
                v.nb,
                o + 1,
                v.with_partner(),
            ).map_values(mk));
            assert forall|k: int| 0 <= k < v.no implies ((#[trigger] ours_pool@[k]) is Some) == (
            v.ours_new(v.nb + k) && !(v.nb + k < o + 1 && v.partner(
                v.nb + k,
                v.mid(),
            ) is Some)) by {
                assert((pool_o[k] is Some) == (v.ours_new(v.nb + k) && !(v.nb + k < o && v.partner(
                    v.nb + k,
                    v.mid(),
                ) is Some)));
            }
            assert forall|k: int| 0 <= k < v.nt implies ((#[trigger] theirs_pool@[k]) is Some) == (
            v.theirs_new(v.mid() + k) && !v.matched_below(v.mid() + k, o + 1)) by {
                let t = v.mid() + k;
                assert((pool_t[k] is Some) == (v.theirs_new(t) && !v.matched_below(t, o)));
                if v.matched_below(t, o) {
                    let w = choose|w: int| w < o && v.both_added(w, t);
                    assert(w < o + 1 && v.both_added(w, t));
                }
                if v.matched_below(t, o + 1) && !v.matched_below(t, o) {
                    let w = choose|w: int| w < o + 1 && v.both_added(w, t);
                    assert(w == o) by {
                        if w < o {
                            assert(v.matched_below(t, o));
                        }
                    }
                    assert(found is Some);
                    let u = mid + found->0;
                    assert(u == t) by {
                        if u < t {
                            assert(v.arena[u].key != v.arena[t].key);
                        } else if t < u {
                            assert(v.arena[t].key != v.arena[u].key);
                        }
                    }
                }
                if found is Some && t == mid + found->0 {
                    assert(o < o + 1 && v.both_added(o, t));
                }
            }
        }
        i = i + 1;
    }
}

fn push_singletons(
    nb: usize,
    mid: usize,
    ours_pool: Vec<Option<OursClaim>>,
    theirs_pool: Vec<Option<TheirsClaim>>,
    triples: &mut Vec<Triple>,
    Ghost(v): Ghost<Versions>,
)
    requires
        v.wf(),
        nb == v.nb,
        mid == v.mid(),
        v.ours_left(v.mid(), ours_pool@),
        v.theirs_left(v.mid(), theirs_pool@),
    ensures
        triple_views(final(triples)@) == triple_views(old(triples)@) + pick(
            v.nb,
            v.mid(),
            v.without_partner(),
        ).map_values(|o: int| ours_triple(o)) + pick(
            v.mid(),
            v.arena.len() as int,
            v.theirs_alone(),
        ).map_values(|t: int| theirs_triple(t)),
{
    let ghost before = triple_views(triples@);
    let ghost mk_o = |o: int| ours_triple(o);
    let ghost mk_t = |t: int| theirs_triple(t);
    proof {
        assert(before + pick(v.nb, v.nb, v.without_partner()).map_values(mk_o) =~= before);
    }
    for slot in it: ours_pool
        invariant
            it.seq() == ours_pool@,
            v.wf(),
            nb == v.nb,
            mk_o == (|o: int| ours_triple(o)),
            v.ours_left(v.mid(), ours_pool@),
            triple_views(triples@) == before + pick(
                v.nb,
                nb + it.index(),
                v.without_partner(),
            ).map_values(mk_o),
    {
        let ghost o = nb + it.index();
        let ghost held = triples@;
        let ghost some = slot is Some;
        proof {
            assert(slot == ours_pool@[it.index() as int]);
            assert(some == (v.ours_new(o) && !(v.partner(o, v.mid()) is Some)));
            assert(v.without_partner()(o) == some);
        }
        match slot {
            Some(claim) => {
                let triple = Triple {
                    base: None,
                    ours: Some(claim),
                    theirs: None,
                    evidence: Evidence { ours_link: Link::Added, theirs_link: Link::Absent },
                };
                proof {
                    assert(triple@ == ours_triple(o));
                }
                triples.push(triple);
                proof {
                    assert(triple_views(triples@) =~= triple_views(held).push(triple@));
                }
            },
            None => {},
        }
        proof {
            let front = pick(v.nb, o, v.without_partner());
            if some {
                assert(pick(v.nb, o + 1, v.without_partner()) =~= front.push(o));
                assert(front.push(o).map_values(mk_o) =~= front.map_values(mk_o).push(
                    ours_triple(o),
                ));
            }
            assert(triple_views(triples@) =~= before + pick(
                v.nb,
                o + 1,
                v.without_partner(),
            ).map_values(mk_o));
        }
    }
    let ghost middle = triple_views(triples@);
    proof {
        assert(middle + pick(v.mid(), v.mid(), v.theirs_alone()).map_values(mk_t) =~= middle);
    }
    for slot in it: theirs_pool
        invariant
            it.seq() == theirs_pool@,
            v.wf(),
            mid == v.mid(),
            mk_t == (|t: int| theirs_triple(t)),
            v.theirs_left(v.mid(), theirs_pool@),
            triple_views(triples@) == middle + pick(
                v.mid(),
                mid + it.index(),
                v.theirs_alone(),
            ).map_values(mk_t),
    {
        let ghost t = mid + it.index();
        let ghost held = triples@;
        let ghost some = slot is Some;
        proof {
            assert(slot == theirs_pool@[it.index() as int]);
            assert(some == (v.theirs_new(t) && !v.matched_below(t, v.mid())));
            assert(v.only_theirs(t) == !v.matched_below(t, v.mid())) by {
                if !v.only_theirs(t) {
                    let w = choose|w: int| v.both_added(w, t);
                    assert(w < v.mid() && v.both_added(w, t));
                }
            }
            assert(v.theirs_alone()(t) == some);
        }
        match slot {
            Some(claim) => {
                let triple = Triple {
                    base: None,
                    ours: None,
                    theirs: Some(claim),
                    evidence: Evidence { ours_link: Link::Absent, theirs_link: Link::Added },
                };
                proof {
                    assert(triple@ == theirs_triple(t));
                }
                triples.push(triple);
                proof {
                    assert(triple_views(triples@) =~= triple_views(held).push(triple@));
                }
            },
            None => {},
        }
        proof {
            let front = pick(v.mid(), t, v.theirs_alone());
            if some {
                assert(pick(v.mid(), t + 1, v.theirs_alone()) =~= front.push(t));
                assert(front.push(t).map_values(mk_t) =~= front.map_values(mk_t).push(
                    theirs_triple(t),
                ));
            }
            assert(triple_views(triples@) =~= middle + pick(
                v.mid(),
                t + 1,
                v.theirs_alone(),
            ).map_values(mk_t));
        }
    }
}

/// The three versions that an arena and its claims hold.
pub open spec fn versions(arena: Seq<EntityView>, claims: Claims) -> Versions {
    Versions {
        arena,
        nb: claims.base@.len() as int,
        no: claims.ours@.len() as int,
        nt: claims.theirs@.len() as int,
    }
}

/// The matching pass: identity, then the facts about bodies that moved house,
/// then renames, then what was added.
pub fn match_phase(arena: Arena, claims: Claims) -> (r: Matching)
    requires
        claims_wf(arena@, claims),
    ensures
        r.arena@ == arena@,
        triple_views(r.triples@) == versions(arena@, claims).triples(),
        relational_views(r.relational@) == versions(arena@, claims).relational(),
        relations_ok(relational_views(r.relational@), arena@.len()),
        total_partition(triple_views(r.triples@), arena@.len() as int),
        triples_wf(triple_views(r.triples@), arena@.len()),
{
    let ghost v = versions(arena@, claims);
    let n: usize = arena.len();
    let nb: usize = claims.base.len();
    let no: usize = claims.ours.len();
    let mid: usize = nb + no;
    let ours_identity = identity_pairing(&arena, nb, nb, mid);
    let theirs_identity = identity_pairing(&arena, nb, mid, n);

    let table = signature_table(&arena);
    let mut relational: Vec<Relational> = Vec::new();
    proof {
        assert(relational_views(relational@) =~= Seq::<RelationalView>::empty());
    }
    detect_rehomes(&arena, Side::Ours, nb, mid, &ours_identity, &table, &mut relational);
    detect_rehomes(&arena, Side::Theirs, mid, n, &theirs_identity, &table, &mut relational);
    detect_extractions(
        &arena,
        nb,
        no,
        &ours_identity,
        &theirs_identity,
        &table,
        &mut relational,
    );
    proof {
        assert(relational_views(relational@) =~= v.relational());
        relational_facts_lie_in_the_arena(v.ours_branch(), v.theirs_branch(), v.nb);
    }

    let mut ours_free = identity_pairing(&arena, nb, nb, mid);
    infer_renames(&arena, nb, nb, mid, &all_false(no), &mut ours_free);
    let mut theirs_free = identity_pairing(&arena, nb, mid, n);
    infer_renames(&arena, nb, mid, n, &all_false(n - mid), &mut theirs_free);
    let (ours_reserved, theirs_reserved) = reservations(
        &arena,
        nb,
        no,
        &ours_identity,
        &theirs_identity,
        &ours_free,
        &theirs_free,
        Ghost(v),
    );
    let mut ours = ours_identity;
    infer_renames(&arena, nb, nb, mid, &ours_reserved, &mut ours);
    let mut theirs = theirs_identity;
    infer_renames(&arena, nb, mid, n, &theirs_reserved, &mut theirs);

    let mut ours_pool = pool_of_ours(claims.ours);
    let mut theirs_pool = pool_of_theirs(claims.theirs);
    proof {
        assert(v.wf());
        assert(v.ours_pool(0, ours_pool@));
        assert(v.theirs_pool(0, theirs_pool@));
    }
    let mut triples = push_base_triples(
        claims.base,
        &ours,
        &theirs,
        nb,
        mid,
        &mut ours_pool,
        &mut theirs_pool,
        Ghost(v),
    );
    proof {
        v.what_is_left_was_added(ours_pool@, theirs_pool@);
    }
    push_both_added(&arena, nb, mid, &mut ours_pool, &mut theirs_pool, &mut triples, Ghost(v));
    push_singletons(nb, mid, ours_pool, theirs_pool, &mut triples, Ghost(v));
    proof {
        assert(triple_views(triples@) =~= v.triples());
        v.matching_is_a_partition();
    }
    Matching { arena, triples, relational }
}

fn mark(seen: &mut Vec<bool>, idx: Option<Idx>) -> (r: bool)
    requires
        idx_ok(idx, old(seen)@.len()),
    ensures
        final(seen)@.len() == old(seen)@.len(),
        match idx {
            Some(x) => r == !old(seen)@[x.0 as int] && final(seen)@ == old(seen)@.update(
                x.0 as int,
                true,
            ),
            None => r && final(seen)@ == old(seen)@,
        },
{
    match idx {
        Some(x) => {
            let i: usize = x.0 as usize;
            let fresh = !seen[i];
            seen.set(i, true);
            fresh
        },
        None => true,
    }
}

/// The entity sits in one of the first `p` slots, counted through the triples.
spec fn sits_before(ts: Seq<TripleView>, p: int, x: Idx) -> bool {
    exists|i: int, s: int| 3 * i + s < p && #[trigger] sits(ts, i, s, x)
}

/// No entity is in two of the first `p` slots.
spec fn apart_before(ts: Seq<TripleView>, p: int) -> bool {
    forall|i: int, s: int, j: int, r: int, x: Idx|
        3 * i + s < p && 3 * j + r < p && #[trigger] sits(ts, i, s, x) && #[trigger] sits(
            ts,
            j,
            r,
            x,
        ) ==> i == j && s == r
}

/// Going on by one slot.
proof fn one_slot_more(
    ts: Seq<TripleView>,
    n: nat,
    i: int,
    s: int,
    seen: Seq<bool>,
    next: Seq<bool>,
    fresh: bool,
)
    requires
        triples_wf(ts, n),
        n <= u32::MAX,
        0 <= i < ts.len(),
        0 <= s < 3,
        seen.len() == n,
        next.len() == n,
        forall|k: int|
            0 <= k < n ==> (#[trigger] seen[k]) == sits_before(ts, 3 * i + s, nth(k)),
        apart_before(ts, 3 * i + s),
        match slot(ts[i], s) {
            Some(x) => fresh == !seen[x.0 as int] && next == seen.update(x.0 as int, true),
            None => fresh && next == seen,
        },
    ensures
        forall|k: int|
            0 <= k < n ==> (#[trigger] next[k]) == sits_before(ts, 3 * i + s + 1, nth(k)),
        fresh ==> apart_before(ts, 3 * i + s + 1),
        !fresh ==> !no_entity_twice(ts),
{
    let p = 3 * i + s;
    assert(ts[i].wf(n));
    assert forall|k: int| 0 <= k < n implies (#[trigger] next[k]) == sits_before(
        ts,
        p + 1,
        nth(k),
    ) by {
        assert(seen[k] == sits_before(ts, p, nth(k)));
        if sits_before(ts, p, nth(k)) {
            let (j, r) = choose|j: int, r: int| 3 * j + r < p && #[trigger] sits(ts, j, r, nth(k));
            assert(3 * j + r < p + 1 && sits(ts, j, r, nth(k)));
        }
        if sits_before(ts, p + 1, nth(k)) {
            let (j, r) = choose|j: int, r: int|
                3 * j + r < p + 1 && #[trigger] sits(ts, j, r, nth(k));
            if 3 * j + r < p {
                assert(sits_before(ts, p, nth(k)));
            } else {
                assert(j == i && r == s);
            }
        }
        if slot(ts[i], s) == Some(nth(k)) {
            assert(sits(ts, i, s, nth(k)));
        }
    }
    if fresh {
        assert forall|a: int, c: int, j: int, r: int, x: Idx|
            3 * a + c < p + 1 && 3 * j + r < p + 1 && #[trigger] sits(ts, a, c, x)
                && #[trigger] sits(ts, j, r, x) implies a == j && c == r by {
            assert(ts[a].wf(n));
            if 3 * a + c == p && 3 * j + r < p {
                assert(a == i && c == s);
                assert(nth(x.0 as int) == x);
                assert(sits(ts, j, r, nth(x.0 as int)));
                assert(seen[x.0 as int]);
            }
            if 3 * j + r == p && 3 * a + c < p {
                assert(j == i && r == s);
                assert(nth(x.0 as int) == x);
                assert(sits(ts, a, c, nth(x.0 as int)));
                assert(seen[x.0 as int]);
            }
            if 3 * a + c == p && 3 * j + r == p {
                assert(a == i && c == s);
                assert(j == i && r == s);
            }
        }
    } else {
        let x = slot(ts[i], s)->0;
        assert(nth(x.0 as int) == x);
        assert(seen[x.0 as int] == sits_before(ts, p, nth(x.0 as int)));
        let (j, r) = choose|j: int, r: int| 3 * j + r < p && #[trigger] sits(ts, j, r, x);
        assert(sits(ts, i, s, x));
        assert(!(i == j && s == r));
    }
}

impl Matching {
    /// Is every arena entity in exactly one triple slot?
    pub fn is_total_partition(&self) -> (r: bool)
        requires
            self.arena@.len() <= u32::MAX,
            triples_wf(triple_views(self.triples@), self.arena@.len()),
        ensures
            r == total_partition(triple_views(self.triples@), self.arena@.len() as int),
    {
        let n: usize = self.arena.len();
        let ghost ts = triple_views(self.triples@);
        let mut seen = all_false(n);
        let mut i: usize = 0;
        while i < self.triples.len()
            invariant
                i <= self.triples@.len(),
                ts == triple_views(self.triples@),
                n == self.arena@.len() <= u32::MAX,
                triples_wf(ts, n as nat),
                seen@.len() == n,
                forall|k: int|
                    0 <= k < n ==> (#[trigger] seen@[k]) == sits_before(ts, 3 * i as int, nth(k)),
                apart_before(ts, 3 * i as int),
            decreases self.triples@.len() - i,
        {
            let t = &self.triples[i];
            proof {
                assert(ts[i as int] == t@);
                assert(ts[i as int].wf(n as nat));
            }
            let ghost s0 = seen@;
            let a = mark(&mut seen, t.base_idx());
            proof {
                one_slot_more(ts, n as nat, i as int, 0, s0, seen@, a);
            }
            if !a {
                return false;
            }
            let ghost s1 = seen@;
            let b = mark(&mut seen, t.ours_idx());
            proof {
                one_slot_more(ts, n as nat, i as int, 1, s1, seen@, b);
            }
            if !b {
                return false;
            }
            let ghost s2 = seen@;
            let c = mark(&mut seen, t.theirs_idx());
            proof {
                one_slot_more(ts, n as nat, i as int, 2, s2, seen@, c);
            }
            if !c {
                return false;
            }
            i = i + 1;
        }
        proof {
            assert forall|i: int, s: int, j: int, r: int, x: Idx| #[trigger]
                sits(ts, i, s, x) && #[trigger] sits(ts, j, r, x) implies i == j && s == r by {
                assert(3 * i + s < 3 * ts.len() && 3 * j + r < 3 * ts.len());
            }
        }
        let mut k: usize = 0;
        while k < n
            invariant
                k <= n == seen@.len(),
                n == self.arena@.len() <= u32::MAX,
                ts == triple_views(self.triples@),
                no_entity_twice(ts),
                forall|k: int|
                    0 <= k < n ==> (#[trigger] seen@[k]) == sits_before(
                        ts,
                        3 * ts.len() as int,
                        nth(k),
                    ),
                forall|m: int| 0 <= m < k ==> seated(ts, #[trigger] nth(m)),
            decreases n - k,
        {
            proof {
                let x = nth(k as int);
                assert(seen@[k as int] == sits_before(ts, 3 * ts.len() as int, x));
                if sits_before(ts, 3 * ts.len() as int, x) {
                    let (i, s) = choose|i: int, s: int|
                        3 * i + s < 3 * ts.len() && #[trigger] sits(ts, i, s, x);
                    assert(sits(ts, i, s, x));
                }
                if seated(ts, x) {
                    let (i, s) = choose|i: int, s: int| sits(ts, i, s, x);
                    assert(3 * i + s < 3 * ts.len() && sits(ts, i, s, x));
                }
            }
            if !seen[k] {
                proof {
                    assert(!seated(ts, nth(k as int)));
                }
                return false;
            }
            k = k + 1;
        }
        true
    }
}


// ---------------------------------------------------------------------------
// Who is paired with whom
// ---------------------------------------------------------------------------

proof fn find_key_finds(arena: Seq<EntityView>, key: KeyView, i: int, hi: int, x: int)
    requires
        i <= x < hi,
        arena[x].key == key,
        forall|k: int| i <= k < hi && k != x ==> (#[trigger] arena[k]).key != key,
    ensures
        find_key(arena, key, i, hi) == Some(x),
    decreases hi - i,
{
    if i < x {
        assert(arena[i].key != key);
        find_key_finds(arena, key, i + 1, hi, x);
    }
}

proof fn find_key_is_right(arena: Seq<EntityView>, key: KeyView, i: int, hi: int)
    ensures
        match find_key(arena, key, i, hi) {
            Some(x) => i <= x < hi && arena[x].key == key,
            None => forall|k: int| i <= k < hi ==> (#[trigger] arena[k]).key != key,
        },
    decreases hi - i,
{
    if i < hi && arena[i].key != key {
        find_key_is_right(arena, key, i + 1, hi);
    }
}

impl Versions {
    proof fn field_of_ours(self) -> (f: Field)
        requires
            self.wf(),
        ensures
            f.wf(),
            injective(f.pairing),
            f.arena == self.arena,
            f.nb == self.nb,
            f.lo == self.nb,
            f.hi == self.mid(),
            f.pairing == self.ours_identity(),
            f.reserved == self.ours_reserved(),
            f.renames() == self.ours(),
    {
        identity_is_injective(self.arena, self.nb, self.nb, self.mid());
        Field {
            arena: self.arena,
            nb: self.nb,
            lo: self.nb,
            hi: self.mid(),
            pairing: self.ours_identity(),
            reserved: self.ours_reserved(),
        }
    }

    proof fn field_of_theirs(self) -> (f: Field)
        requires
            self.wf(),
        ensures
            f.wf(),
            injective(f.pairing),
            f.arena == self.arena,
            f.nb == self.nb,
            f.lo == self.mid(),
            f.hi == self.arena.len(),
            f.pairing == self.theirs_identity(),
            f.reserved == self.theirs_reserved(),
            f.renames() == self.theirs(),
    {
        identity_is_injective(self.arena, self.nb, self.mid(), self.arena.len() as int);
        Field {
            arena: self.arena,
            nb: self.nb,
            lo: self.mid(),
            hi: self.arena.len() as int,
            pairing: self.theirs_identity(),
            reserved: self.theirs_reserved(),
        }
    }

    /// An entity that keeps its key is the same entity: the triple of a base entity holds
    /// the entity of each side that has its key.
    pub proof fn one_key_is_one_entity(self, b: int, x: int)
        requires
            self.wf(),
            0 <= b < self.nb,
            self.nb <= x < self.arena.len(),
            self.arena[x].key == self.arena[b].key,
        ensures
            self.triples()[b].base == Some(Idx(b as u32)),
            x < self.nb + self.no ==> self.triples()[b].ours == Some(Idx(x as u32)),
            x >= self.nb + self.no ==> self.triples()[b].theirs == Some(Idx(x as u32)),
    {
        assert(self.triples()[b] == self.base_triples()[b]);
        assert(self.base_triples()[b] == self.base_triple(b));
        let key = self.arena[b].key;
        if x < self.mid() {
            let f = self.field_of_ours();
            f.renames_keep_pairs_apart();
            assert forall|k: int| self.nb <= k < self.mid() && k != x implies (
            #[trigger] self.arena[k]).key != key by {
                assert(distinct_keys(self.arena, self.nb, self.mid()));
            }
            find_key_finds(self.arena, key, self.nb, self.mid(), x);
            assert(f.pairing[b] == Some((Idx(x as u32), Link::Identity)));
            assert(f.renames()[b] == f.pairing[b]);
        } else {
            let n = self.arena.len() as int;
            let f = self.field_of_theirs();
            f.renames_keep_pairs_apart();
            assert forall|k: int| self.mid() <= k < n && k != x implies (
            #[trigger] self.arena[k]).key != key by {
                assert(distinct_keys(self.arena, self.mid(), n));
            }
            find_key_finds(self.arena, key, self.mid(), n, x);
            assert(f.pairing[b] == Some((Idx(x as u32), Link::Identity)));
            assert(f.renames()[b] == f.pairing[b]);
        }
    }

    /// What a base entity is paired with either has its key, or looks like a rename of it:
    /// it has the same type, a key that base does not have, and the same body or tokens
    /// and a parent in common with it.
    pub proof fn a_pair_has_its_reason(self, b: int, side: Side)
        requires
            self.wf(),
            0 <= b < self.nb,
            self.triples()[b].side(side) is Some,
        ensures
            ({
                let x = (self.triples()[b].side(side)->0).0 as int;
                let (e, f) = (self.arena[b], self.arena[x]);
                &&& side is Ours ==> self.nb <= x < self.nb + self.no
                &&& side is Theirs ==> self.nb + self.no <= x < self.arena.len()
                &&& e.key == f.key || {
                    &&& e.key.entity_type == f.key.entity_type
                    &&& forall|k: int| 0 <= k < self.nb ==> (#[trigger] self.arena[k]).key != f.key
                    &&& e.body_hash == f.body_hash || e.key.parent == f.key.parent
                }
            }),
    {
        assert(self.triples()[b] == self.base_triples()[b]);
        assert(self.base_triples()[b] == self.base_triple(b));
        let f = match side {
            Side::Ours => self.field_of_ours(),
            Side::Theirs => self.field_of_theirs(),
        };
        f.renames_keep_pairs_apart();
        find_key_is_right(self.arena, self.arena[b].key, f.lo, f.hi);
        let x = target(f.renames()[b]).0 as int;
        assert(f.renames()[b] is Some);
        assert(f.lo <= x < f.hi);
        if f.pairing[b] is None {
            a_renamed_pair_was_a_candidate(f, b);
            assert forall|k: int| 0 <= k < self.nb implies (#[trigger] self.arena[k]).key
                != self.arena[x].key by {
                if self.arena[k].key == self.arena[x].key {
                    assert forall|m: int| f.lo <= m < f.hi && m != x implies (
                    #[trigger] self.arena[m]).key != self.arena[k].key by {
                        assert(distinct_keys(self.arena, f.lo, f.hi));
                    }
                    find_key_finds(self.arena, self.arena[k].key, f.lo, f.hi, x);
                    assert(f.pairing[k] == Some((Idx(x as u32), Link::Identity)));
                    assert(leads_to(f.pairing[k], Idx(x as u32)));
                }
            }
        }
    }

    /// An entity that both sides added under one key, and that neither took for a rename,
    /// is one entity: one triple holds both.
    pub proof fn one_addition_is_one_entity(self, o: int, t: int)
        requires
            self.wf(),
            self.nb <= o < self.nb + self.no,
            self.nb + self.no <= t < self.arena.len(),
            self.arena[o].key == self.arena[t].key,
            forall|b: int|
                0 <= b < self.nb ==> (#[trigger] self.triples()[b]).ours != Some(Idx(o as u32))
                    && self.triples()[b].theirs != Some(Idx(t as u32)),
        ensures
            exists|k: int|
                0 <= k < self.triples().len() && (#[trigger] self.triples()[k]).base is None
                    && self.triples()[k].ours == Some(Idx(o as u32)) && self.triples()[k].theirs
                    == Some(Idx(t as u32)),
    {
        self.pairings_keep_apart();
        let ts = self.triples();
        assert forall|b: int| 0 <= b < self.nb implies !leads_to(
            #[trigger] self.ours()[b],
            Idx(o as u32),
        ) && !leads_to(self.theirs()[b], Idx(t as u32)) by {
            assert(ts[b] == self.base_triples()[b]);
            assert(ts[b] == self.base_triple(b));
        }
        assert(!paired(self.ours(), Idx(o as u32)));
        assert(!paired(self.theirs(), Idx(t as u32))) by {
            if paired(self.theirs(), Idx(t as u32)) {
                let b = choose|b: int|
                    0 <= b < self.theirs().len() && leads_to(
                        #[trigger] self.theirs()[b],
                        Idx(t as u32),
                    );
                assert(!leads_to(self.ours()[b], Idx(o as u32)));
            }
        }
        assert(self.both_added(o, t));
        self.partner_is_first(o, self.mid());
        let p = self.partner(o, self.mid())->0;
        assert(p == t) by {
            assert(self.both_added(o, p));
            assert(distinct_keys(self.arena, self.mid(), self.arena.len() as int));
        }
        let both = pick(self.nb, self.mid(), self.with_partner());
        pick_lists(self.nb, self.mid(), self.with_partner());
        assert((self.with_partner())(o));
        assert(both.contains(o));
        let k = choose|k: int| 0 <= k < both.len() && both[k] == o;
        assert(ts[self.nb + k] == self.both_triple(o));
    }
}

proof fn a_renamed_pair_was_a_candidate(f: Field, b: int)
    requires
        f.wf(),
        injective(f.pairing),
        0 <= b < f.nb,
        f.pairing[b] is None,
        f.renames()[b] is Some,
    ensures
        ({
            let x = target(f.renames()[b]).0 as int;
            &&& f.arena[b].key.entity_type == f.arena[x].key.entity_type
            &&& f.arena[b].body_hash == f.arena[x].body_hash || f.arena[b].key.parent
                == f.arena[x].key.parent
            &&& !paired(f.pairing, target(f.renames()[b]))
        }),
{
    let listed = f.rows(f.nb);
    let cs = crate::v2::candidates::ranked(f.arena, listed);
    f.rows_lie_in_the_field(f.nb);
    crate::v2::candidates::ranking_keeps_the_candidates(f.arena, listed);
    assert forall|i: int| 0 <= i < cs.len() implies listed.contains(#[trigger] cs[i])
        && cs[i].base.0 < f.nb by {
        broadcast use vstd::seq_lib::group_to_multiset_ensures;

        assert(cs.to_multiset().count(cs[i]) > 0);
        assert(listed.to_multiset().count(cs[i]) > 0);
        let k = choose|k: int| 0 <= k < listed.len() && listed[k] == cs[i];
        assert(listed[k].base.0 < f.nb);
    }
    let i = what_is_taken_was_listed(cs, 0, f.pairing, b);
    assert(listed.contains(cs[i]));
    let k = choose|k: int| 0 <= k < listed.len() && listed[k] == cs[i];
    listed_pairs_are_comparable(f, f.nb, k);
}

proof fn what_is_taken_was_listed(
    cs: Seq<crate::v2::candidates::Candidate>,
    k: int,
    p: Seq<Option<(Idx, Link)>>,
    b: int,
) -> (i: int)
    requires
        0 <= k,
        0 <= b < p.len(),
        p[b] is None,
        crate::v2::candidates::taken(cs, k, p)[b] is Some,
        forall|i: int| 0 <= i < cs.len() ==> (#[trigger] cs[i]).base.0 < p.len(),
    ensures
        k <= i < cs.len(),
        cs[i].base.0 == b,
        target(crate::v2::candidates::taken(cs, k, p)[b]) == cs[i].branch,
    decreases cs.len() - k,
{
    if k >= cs.len() {
        k
    } else {
        let c = cs[k];
        if p[c.base.0 as int] is Some || paired(p, c.branch) {
            what_is_taken_was_listed(cs, k + 1, p, b)
        } else {
            let q = p.update(c.base.0 as int, Some((c.branch, c.link_of())));
            if c.base.0 == b {
                taking_keeps_what_is_there(cs, k + 1, q, b);
                k
            } else {
                what_is_taken_was_listed(cs, k + 1, q, b)
            }
        }
    }
}

proof fn taking_keeps_what_is_there(
    cs: Seq<crate::v2::candidates::Candidate>,
    k: int,
    p: Seq<Option<(Idx, Link)>>,
    b: int,
)
    requires
        0 <= k,
        0 <= b < p.len(),
        p[b] is Some,
        forall|i: int| 0 <= i < cs.len() ==> (#[trigger] cs[i]).base.0 < p.len(),
    ensures
        crate::v2::candidates::taken(cs, k, p)[b] == p[b],
    decreases cs.len() - k,
{
    if k < cs.len() {
        let c = cs[k];
        if p[c.base.0 as int] is Some || paired(p, c.branch) {
            taking_keeps_what_is_there(cs, k + 1, p, b);
        } else {
            taking_keeps_what_is_there(
                cs,
                k + 1,
                p.update(c.base.0 as int, Some((c.branch, c.link_of()))),
                b,
            );
        }
    }
}

spec fn looks_renamed(f: Field, c: crate::v2::candidates::Candidate) -> bool {
    let b = c.base.0 as int;
    let x = c.branch.0 as int;
    &&& f.arena[b].key.entity_type == f.arena[x].key.entity_type
    &&& f.arena[b].body_hash == f.arena[x].body_hash || f.arena[b].key.parent
        == f.arena[x].key.parent
    &&& !paired(f.pairing, c.branch)
}

proof fn a_row_looks_renamed(f: Field, b: int, n: int)
    requires
        f.wf(),
        0 <= b < f.nb,
        f.lo <= n <= f.hi,
    ensures
        forall|i: int| 0 <= i < f.row(b, n).len() ==> looks_renamed(f, #[trigger] f.row(b, n)[i]),
    decreases n - f.lo,
{
    if n > f.lo {
        a_row_looks_renamed(f, b, n - 1);
        let front = f.row(b, n - 1);
        let here = f.pair_candidates(b, n - 1);
        let all = f.row(b, n);
        assert forall|i: int| 0 <= i < here.len() implies looks_renamed(f, #[trigger] here[i]) by {
            assert(here[i].base == Idx(b as u32) && here[i].branch == Idx((n - 1) as u32));
        }
        assert forall|i: int| 0 <= i < all.len() implies looks_renamed(f, #[trigger] all[i]) by {
            if i < front.len() {
                assert(all[i] == front[i]);
            } else {
                assert(all[i] == here[i - front.len()]);
            }
        }
    }
}

proof fn listed_pairs_are_comparable(f: Field, b: int, k: int)
    requires
        f.wf(),
        0 <= b <= f.nb,
        0 <= k < f.rows(b).len(),
    ensures
        looks_renamed(f, f.rows(b)[k]),
    decreases b,
{
    if b > 0 {
        let front = f.rows(b - 1);
        let row = f.row(b - 1, f.hi);
        if k < front.len() {
            listed_pairs_are_comparable(f, b - 1, k);
            assert(f.rows(b)[k] == front[k]);
        } else {
            a_row_looks_renamed(f, b - 1, f.hi);
            assert(f.rows(b)[k] == row[k - front.len()]);
        }
    }
}

} // verus!
