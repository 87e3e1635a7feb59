//! The vocabulary of the pipeline: arena-indexed entities, claims, triples, the
//! resolution cases, dispositions and placements.

use vstd::prelude::*;
use crate::conflict::{EntityConflict, EntityConflictView};
use crate::text::{before, chars_of, ends, ends_with, is_before, lower, lowered, str_before, str_eq};

verus! {

// ---------------------------------------------------------------------------
// Arena
// ---------------------------------------------------------------------------

/// An index into the [`Arena`]. Identity is a position in an arena, never a
/// string and never a line number.
#[derive(Clone, Copy, PartialEq, Eq, Hash, PartialOrd, Ord, Debug, Structural)]
pub struct Idx(pub u32);

/// One of the two branch sides.
#[derive(Clone, Copy, PartialEq, Eq, Hash, PartialOrd, Ord, Debug, Structural)]
pub enum Side {
    Ours,
    Theirs,
}

impl Side {
    /// The other side.
    pub open spec fn other(self) -> Side {
        match self {
            Side::Ours => Side::Theirs,
            Side::Theirs => Side::Ours,
        }
    }

    /// The other side.
    #[must_use]
    pub fn flip(self) -> (r: Side)
        ensures
            r == self.other(),
    {
        match self {
            Side::Ours => Side::Theirs,
            Side::Theirs => Side::Ours,
        }
    }
}

/// The identity key of an entity: everything about where it sits in the program
/// and nothing about where it sits in the file. `ordinal` tells same-named
/// siblings apart by their order of occurrence.
#[derive(Clone, PartialEq, Eq, Hash, PartialOrd, Ord, Debug)]
pub struct Key {
    pub parent: Option<String>,
    pub entity_type: String,
    pub name: String,
    pub ordinal: u32,
}

/// A [`Key`] with its strings read as texts.
pub struct KeyView {
    pub parent: Option<Seq<char>>,
    pub entity_type: Seq<char>,
    pub name: Seq<char>,
    pub ordinal: u32,
}

/// The view of an optional string.
pub open spec fn opt_view(s: Option<String>) -> Option<Seq<char>> {
    match s {
        Some(t) => Some(t@),
        None => None,
    }
}

impl View for Key {
    type V = KeyView;

    open spec fn view(&self) -> KeyView {
        KeyView {
            parent: opt_view(self.parent),
            entity_type: self.entity_type@,
            name: self.name@,
            ordinal: self.ordinal,
        }
    }
}

/// `a` comes before `b`, where nothing comes before something.
pub open spec fn opt_before(a: Option<Seq<char>>, b: Option<Seq<char>>) -> bool {
    match (a, b) {
        (None, Some(_)) => true,
        (Some(x), Some(y)) => before(x, y),
        _ => false,
    }
}

/// The order of identity keys: parent, then type, then name, then ordinal.
pub open spec fn key_before(a: KeyView, b: KeyView) -> bool {
    if a.parent != b.parent {
        opt_before(a.parent, b.parent)
    } else if a.entity_type != b.entity_type {
        before(a.entity_type, b.entity_type)
    } else if a.name != b.name {
        before(a.name, b.name)
    } else {
        a.ordinal < b.ordinal
    }
}

/// Of two different keys exactly one comes before the other, and none comes
/// before itself.
pub proof fn key_before_total(a: KeyView, b: KeyView)
    ensures
        key_before(a, b) || key_before(b, a) || a == b,
        !(key_before(a, b) && key_before(b, a)),
        !key_before(a, a),
{
    if let (Some(x), Some(y)) = (a.parent, b.parent) {
        text_total(x, y);
    }
    text_total(a.entity_type, b.entity_type);
    text_total(a.name, b.name);
    assert(a.parent == b.parent && a.entity_type == b.entity_type && a.name == b.name && a.ordinal
        == b.ordinal ==> a == b);
}

/// The order of texts is total and strict.
pub proof fn text_total(x: Seq<char>, y: Seq<char>)
    ensures
        before(x, y) || before(y, x) || x == y,
        !(before(x, y) && before(y, x)),
        !before(x, x),
{
    assert(x.subrange(0, 0) =~= y.subrange(0, 0));
    crate::text::before_total(x, y, 0);
    crate::text::before_irreflexive(x, 0);
}

/// The order of keys is transitive.
pub proof fn key_before_transitive(a: KeyView, b: KeyView, c: KeyView)
    requires
        key_before(a, b),
        key_before(b, c),
    ensures
        key_before(a, c),
{
    if a.parent != b.parent || b.parent != c.parent {
        if let (Some(x), Some(y)) = (a.parent, b.parent) {
            text_total(x, y);
            if let Some(z) = c.parent {
                text_total(x, z);
                if before(x, y) && before(y, z) {
                    crate::text::before_transitive(x, y, z, 0);
                }
            }
        }
        if a.parent == c.parent {
            if let (Some(x), Some(y)) = (a.parent, b.parent) {
                text_total(x, y);
            }
        }
    } else if a.entity_type != b.entity_type || b.entity_type != c.entity_type {
        text_total(a.entity_type, b.entity_type);
        text_total(a.entity_type, c.entity_type);
        if before(a.entity_type, b.entity_type) && before(b.entity_type, c.entity_type) {
            crate::text::before_transitive(a.entity_type, b.entity_type, c.entity_type, 0);
        }
    } else if a.name != b.name || b.name != c.name {
        text_total(a.name, b.name);
        text_total(a.name, c.name);
        if before(a.name, b.name) && before(b.name, c.name) {
            crate::text::before_transitive(a.name, b.name, c.name, 0);
        }
    }
}

/// Are the two optional strings the same?
pub fn opt_eq(a: &Option<String>, b: &Option<String>) -> (r: bool)
    ensures
        r == (opt_view(*a) == opt_view(*b)),
{
    match (a, b) {
        (None, None) => true,
        (Some(x), Some(y)) => str_eq(x.as_str(), y.as_str()),
        _ => false,
    }
}

impl Key {
    /// Are the two keys the same?
    pub fn same(&self, other: &Key) -> (r: bool)
        ensures
            r == (self@ == other@),
    {
        self.ordinal == other.ordinal && str_eq(self.name.as_str(), other.name.as_str())
            && str_eq(self.entity_type.as_str(), other.entity_type.as_str()) && opt_eq(
            &self.parent,
            &other.parent,
        )
    }

    /// Does this key come before the other?
    pub fn is_before(&self, other: &Key) -> (r: bool)
        ensures
            r == key_before(self@, other@),
    {
        if !opt_eq(&self.parent, &other.parent) {
            match (&self.parent, &other.parent) {
                (None, Some(_)) => true,
                (Some(x), Some(y)) => str_before(x.as_str(), y.as_str()),
                _ => false,
            }
        } else if !str_eq(self.entity_type.as_str(), other.entity_type.as_str()) {
            str_before(self.entity_type.as_str(), other.entity_type.as_str())
        } else if !str_eq(self.name.as_str(), other.name.as_str()) {
            str_before(self.name.as_str(), other.name.as_str())
        } else {
            self.ordinal < other.ordinal
        }
    }

    /// A second key with the same contents.
    pub fn copy(&self) -> (r: Key)
        ensures
            r@ == self@,
    {
        Key {
            parent: copy_opt(&self.parent),
            entity_type: self.entity_type.clone(),
            name: self.name.clone(),
            ordinal: self.ordinal,
        }
    }
}

/// A second optional string with the same contents.
pub fn copy_opt(s: &Option<String>) -> (r: Option<String>)
    ensures
        opt_view(r) == opt_view(*s),
{
    match s {
        Some(t) => Some(t.clone()),
        None => None,
    }
}

/// An entity: text, identity, and the two indexes the matcher needs.
#[derive(Debug, Clone)]
pub struct Entity {
    pub key: Key,
    /// The file's own text for this entity, with its leading doc comments.
    pub content: String,
    /// Hash of the content with the entity's own name replaced by a sentinel.
    pub body_hash: u64,
    /// Position in this version's ordered entity list.
    pub position: u32,
    /// The id this entity was read from.
    pub src_id: String,
}

/// An [`Entity`] with its strings read as texts.
pub struct EntityView {
    pub key: KeyView,
    pub content: Seq<char>,
    pub body_hash: u64,
    pub position: u32,
    pub src_id: Seq<char>,
}

impl View for Entity {
    type V = EntityView;

    open spec fn view(&self) -> EntityView {
        EntityView {
            key: self.key@,
            content: self.content@,
            body_hash: self.body_hash,
            position: self.position,
            src_id: self.src_id@,
        }
    }
}

impl Entity {
    /// The name of the entity.
    pub fn name(&self) -> (r: &str)
        ensures
            r@ == self@.key.name,
    {
        self.key.name.as_str()
    }

    /// The type of the entity.
    pub fn entity_type(&self) -> (r: &str)
        ensures
            r@ == self@.key.entity_type,
    {
        self.key.entity_type.as_str()
    }
}

/// The one place entities live.
#[derive(Debug)]
pub struct Arena {
    entities: Vec<Entity>,
}

impl View for Arena {
    type V = Seq<EntityView>;

    closed spec fn view(&self) -> Seq<EntityView> {
        self.entities@.map_values(|e: Entity| e@)
    }
}

/// The entity an index names.
pub open spec fn entity_at(arena: Seq<EntityView>, idx: Idx) -> EntityView {
    arena[idx.0 as int]
}

impl Arena {
    /// The arena that holds the given entities.
    pub fn from_entities(entities: Vec<Entity>) -> (r: Self)
        ensures
            r@ == entities@.map_values(|e: Entity| e@),
    {
        Self { entities }
    }

    /// The entity at an index.
    pub fn get(&self, idx: Idx) -> (r: &Entity)
        requires
            idx.0 < self@.len(),
        ensures
            r@ == entity_at(self@, idx),
    {
        &self.entities[idx.0 as usize]
    }

    /// How many entities there are.
    pub fn len(&self) -> (r: usize)
        ensures
            r == self@.len(),
    {
        self.entities.len()
    }
}

// ---------------------------------------------------------------------------
// Claims: the right to place one entity in one triple
// ---------------------------------------------------------------------------

/// The claim of one base entity. A claim is neither `Copy` nor `Clone`, so it
/// can be spent once.
#[derive(Debug, PartialEq, Eq)]
pub struct BaseClaim(Idx);

/// The claim of one entity of our side.
#[derive(Debug, PartialEq, Eq)]
pub struct OursClaim(Idx);

/// The claim of one entity of their side.
#[derive(Debug, PartialEq, Eq)]
pub struct TheirsClaim(Idx);

impl View for BaseClaim {
    type V = Idx;

    closed spec fn view(&self) -> Idx {
        self.0
    }
}

impl View for OursClaim {
    type V = Idx;

    closed spec fn view(&self) -> Idx {
        self.0
    }
}

impl View for TheirsClaim {
    type V = Idx;

    closed spec fn view(&self) -> Idx {
        self.0
    }
}

impl BaseClaim {
    /// The claim of the entity at `idx`.
    pub fn new(idx: Idx) -> (r: Self)
        ensures
            r@ == idx,
    {
        Self(idx)
    }

    /// The entity claimed.
    pub fn idx(&self) -> (r: Idx)
        ensures
            r == self@,
    {
        self.0
    }
}

impl OursClaim {
    /// The claim of the entity at `idx`.
    pub fn new(idx: Idx) -> (r: Self)
        ensures
            r@ == idx,
    {
        Self(idx)
    }

    /// The entity claimed.
    pub fn idx(&self) -> (r: Idx)
        ensures
            r == self@,
    {
        self.0
    }
}

impl TheirsClaim {
    /// The claim of the entity at `idx`.
    pub fn new(idx: Idx) -> (r: Self)
        ensures
            r@ == idx,
    {
        Self(idx)
    }

    /// The entity claimed.
    pub fn idx(&self) -> (r: Idx)
        ensures
            r == self@,
    {
        self.0
    }
}

/// Every claim there is, one per entity.
#[derive(Debug)]
pub struct Claims {
    pub base: Vec<BaseClaim>,
    pub ours: Vec<OursClaim>,
    pub theirs: Vec<TheirsClaim>,
}

// ---------------------------------------------------------------------------
// Evidence and triples
// ---------------------------------------------------------------------------

/// A ratio of two counts, kept exactly. The whole may be the sum of two counts.
#[derive(Clone, Copy, PartialEq, Eq, Debug, Structural)]
pub struct Ratio {
    pub part: usize,
    pub whole: u128,
}

/// Why the matcher believes a branch entity is the same thing as a base entity.
#[derive(Clone, Copy, PartialEq, Eq, Debug, Structural)]
pub enum Link {
    /// The side has no entity for this triple.
    Absent,
    /// Same key: same name, type, parent and ordinal.
    Identity,
    /// Different name, identical body.
    BodyHash,
    /// Different name, similar body.
    Signature { similarity: Ratio },
    /// Different name, body edited too: the pairing rests on call sites that
    /// moved from the old name to the new one.
    CallSiteCorroborated { similarity: Ratio },
    /// No base counterpart: this side added the entity.
    Added,
}

impl Link {
    /// Does the link say that the entity was renamed?
    pub fn is_rename(&self) -> (r: bool)
        ensures
            r == (self is BodyHash || self is Signature || self is CallSiteCorroborated),
    {
        matches!(
            self,
            Link::BodyHash | Link::Signature { .. } | Link::CallSiteCorroborated { .. }
        )
    }
}

/// Facts about several entities at once, which no single triple can state.
#[derive(Debug, Clone)]
pub enum Relational {
    /// A base entity whose key vanished on `side` and whose body reappeared
    /// inside entities that side added. `coverage` is the share of the base
    /// body's signature lines found across `homes`.
    RehomedInto { deleted: Idx, side: Side, homes: Vec<Idx>, coverage: Ratio },
    /// The base entity `source` is still there on `side` as `host`, and part of
    /// its body left: `moved` are base body lines that are gone from `host` and
    /// turned up in `extracted`, entities that side added.
    ExtractedInto { source: Idx, side: Side, host: Idx, extracted: Vec<Idx>, moved: Vec<String> },
}

/// Why a triple holds the entities it holds.
#[derive(Debug, Clone, Copy, PartialEq, Eq, Structural)]
pub struct Evidence {
    pub ours_link: Link,
    pub theirs_link: Link,
}

/// One entity's worth of the merge: its base, ours and theirs incarnations.
#[derive(Debug)]
pub struct Triple {
    pub base: Option<BaseClaim>,
    pub ours: Option<OursClaim>,
    pub theirs: Option<TheirsClaim>,
    /// Why the matcher paired these entities.
    pub evidence: Evidence,
}

/// A [`Triple`] with its claims read as indexes.
pub struct TripleView {
    pub base: Option<Idx>,
    pub ours: Option<Idx>,
    pub theirs: Option<Idx>,
    pub evidence: Evidence,
}

impl View for Triple {
    type V = TripleView;

    open spec fn view(&self) -> TripleView {
        TripleView {
            base: match self.base {
                Some(c) => Some(c@),
                None => None,
            },
            ours: match self.ours {
                Some(c) => Some(c@),
                None => None,
            },
            theirs: match self.theirs {
                Some(c) => Some(c@),
                None => None,
            },
            evidence: self.evidence,
        }
    }
}

/// The index, if there is one, lies in an arena of `n` entities.
pub open spec fn idx_ok(idx: Option<Idx>, n: nat) -> bool {
    idx matches Some(i) ==> i.0 < n
}

impl TripleView {
    /// The entity of one side.
    pub open spec fn side(self, side: Side) -> Option<Idx> {
        match side {
            Side::Ours => self.ours,
            Side::Theirs => self.theirs,
        }
    }

    /// The entity that names the triple: base where there is one, else ours,
    /// else theirs.
    pub open spec fn representative(self) -> Idx {
        match self.base {
            Some(b) => b,
            None => match self.ours {
                Some(o) => o,
                None => self.theirs->0,
            },
        }
    }

    /// The triple holds an entity, and every entity it holds is in the arena.
    pub open spec fn wf(self, n: nat) -> bool {
        &&& self.base is Some || self.ours is Some || self.theirs is Some
        &&& idx_ok(self.base, n)
        &&& idx_ok(self.ours, n)
        &&& idx_ok(self.theirs, n)
    }

    /// The triple with the two sides exchanged.
    pub open spec fn swapped(self) -> TripleView {
        TripleView {
            base: self.base,
            ours: self.theirs,
            theirs: self.ours,
            evidence: Evidence {
                ours_link: self.evidence.theirs_link,
                theirs_link: self.evidence.ours_link,
            },
        }
    }
}

impl Triple {
    /// The base entity.
    pub fn base_idx(&self) -> (r: Option<Idx>)
        ensures
            r == self@.base,
    {
        match &self.base {
            Some(c) => Some(c.idx()),
            None => None,
        }
    }

    /// Our entity.
    pub fn ours_idx(&self) -> (r: Option<Idx>)
        ensures
            r == self@.ours,
    {
        match &self.ours {
            Some(c) => Some(c.idx()),
            None => None,
        }
    }

    /// Their entity.
    pub fn theirs_idx(&self) -> (r: Option<Idx>)
        ensures
            r == self@.theirs,
    {
        match &self.theirs {
            Some(c) => Some(c.idx()),
            None => None,
        }
    }

    /// The entity of one side.
    pub fn side_idx(&self, side: Side) -> (r: Option<Idx>)
        ensures
            r == self@.side(side),
    {
        match side {
            Side::Ours => self.ours_idx(),
            Side::Theirs => self.theirs_idx(),
        }
    }

    /// The entity that names this triple, preferring base.
    pub fn representative(&self) -> (r: Idx)
        requires
            self@.base is Some || self@.ours is Some || self@.theirs is Some,
        ensures
            r == self@.representative(),
    {
        match self.base_idx() {
            Some(b) => b,
            None => match self.ours_idx() {
                Some(o) => o,
                None => self.theirs_idx().unwrap(),
            },
        }
    }
}

/// The output of the match phase: every arena entity placed in exactly one
/// triple, and the facts that fit inside no single triple.
#[derive(Debug)]
pub struct Matching {
    pub arena: Arena,
    pub triples: Vec<Triple>,
    pub relational: Vec<Relational>,
}

/// The views of a list of triples.
pub open spec fn triple_views(v: Seq<Triple>) -> Seq<TripleView> {
    v.map_values(|t: Triple| t@)
}

/// Every triple of the list lies in an arena of `n` entities.
pub open spec fn triples_wf(v: Seq<TripleView>, n: nat) -> bool {
    forall|i: int| 0 <= i < v.len() ==> (#[trigger] v[i]).wf(n)
}

// ---------------------------------------------------------------------------
// The resolution cases
// ---------------------------------------------------------------------------

/// What one side did to one entity.
#[derive(Clone, Copy, PartialEq, Eq, Hash, Debug, Structural)]
pub enum Action {
    Added,
    /// Neither this side nor the base has the key: the partner of an addition.
    Absent,
    Deleted,
    Unchanged,
    Edited,
    Renamed,
    RenameEdited,
}

/// The per-key resolution cases, one variant family per kind of change pair. A
/// case that treats the two sides differently names the side it favours.
#[derive(Clone, Copy, PartialEq, Eq, Debug, Structural)]
pub enum Cell {
    /// One side added it, the other never had it.
    AddedOneSide { adder: Side },
    /// Both added it with equal bodies.
    AddedBothConvergent,
    /// Both added it with different bodies.
    AddedBothDivergent,
    DeletedBoth,
    DeleteVsUnchanged { deleter: Side },
    DeleteVsEdit { deleter: Side },
    DeleteVsRename { deleter: Side },
    DeleteVsRenameEdit { deleter: Side },
    UnchangedBoth,
    EditOneSide { editor: Side },
    EditBothConvergent,
    EditBothDivergent,
    RenameVsUnchanged { renamer: Side },
    RenameEditVsUnchanged { renamer: Side },
    RenameVsEdit { renamer: Side },
    RenameEditVsEdit { renamer: Side, bodies_converge: bool },
    RenameBoth { names_converge: bool },
    RenameEditVsRename { rename_editor: Side, names_converge: bool },
    RenameEditBoth { names_converge: bool, bodies_converge: bool },
}

/// The favoured side's action and the other's, as (ours, theirs).
pub open spec fn oriented(favoured: Side, favoured_action: Action, other_action: Action) -> (
    Action,
    Action,
) {
    match favoured {
        Side::Ours => (favoured_action, other_action),
        Side::Theirs => (other_action, favoured_action),
    }
}

fn orient(favoured: Side, favoured_action: Action, other_action: Action) -> (r: (Action, Action))
    ensures
        r == oriented(favoured, favoured_action, other_action),
{
    match favoured {
        Side::Ours => (favoured_action, other_action),
        Side::Theirs => (other_action, favoured_action),
    }
}

impl Cell {
    /// Every case, each once, in a fixed order.
    pub fn all() -> (r: [Cell; 38])
        ensures
            r@.no_duplicates(),
            forall|c: Cell| #[trigger] r@.contains(c),
    {
        let r = [
            Cell::AddedOneSide { adder: Side::Ours },
            Cell::AddedOneSide { adder: Side::Theirs },
            Cell::AddedBothConvergent,
            Cell::AddedBothDivergent,
            Cell::DeletedBoth,
            Cell::DeleteVsUnchanged { deleter: Side::Ours },
            Cell::DeleteVsUnchanged { deleter: Side::Theirs },
            Cell::DeleteVsEdit { deleter: Side::Ours },
            Cell::DeleteVsEdit { deleter: Side::Theirs },
            Cell::DeleteVsRename { deleter: Side::Ours },
            Cell::DeleteVsRename { deleter: Side::Theirs },
            Cell::DeleteVsRenameEdit { deleter: Side::Ours },
            Cell::DeleteVsRenameEdit { deleter: Side::Theirs },
            Cell::UnchangedBoth,
            Cell::EditOneSide { editor: Side::Ours },
            Cell::EditOneSide { editor: Side::Theirs },
            Cell::EditBothConvergent,
            Cell::EditBothDivergent,
            Cell::RenameVsUnchanged { renamer: Side::Ours },
            Cell::RenameVsUnchanged { renamer: Side::Theirs },
            Cell::RenameEditVsUnchanged { renamer: Side::Ours },
            Cell::RenameEditVsUnchanged { renamer: Side::Theirs },
            Cell::RenameVsEdit { renamer: Side::Ours },
            Cell::RenameVsEdit { renamer: Side::Theirs },
            Cell::RenameEditVsEdit { renamer: Side::Ours, bodies_converge: true },
            Cell::RenameEditVsEdit { renamer: Side::Ours, bodies_converge: false },
            Cell::RenameEditVsEdit { renamer: Side::Theirs, bodies_converge: true },
            Cell::RenameEditVsEdit { renamer: Side::Theirs, bodies_converge: false },
            Cell::RenameBoth { names_converge: true },
            Cell::RenameBoth { names_converge: false },
            Cell::RenameEditVsRename { rename_editor: Side::Ours, names_converge: true },
            Cell::RenameEditVsRename { rename_editor: Side::Ours, names_converge: false },
            Cell::RenameEditVsRename { rename_editor: Side::Theirs, names_converge: true },
            Cell::RenameEditVsRename { rename_editor: Side::Theirs, names_converge: false },
            Cell::RenameEditBoth { names_converge: true, bodies_converge: true },
            Cell::RenameEditBoth { names_converge: true, bodies_converge: false },
            Cell::RenameEditBoth { names_converge: false, bodies_converge: true },
            Cell::RenameEditBoth { names_converge: false, bodies_converge: false },
        ];
        proof {
            assert forall|c: Cell| #[trigger] r@.contains(c) by {
                let k = cell_rank(c);
                assert(r@[k] == c);
            }
        }
        r
    }

    /// The case with ours and theirs exchanged.
    pub open spec fn flipped(self) -> Cell {
        match self {
            Cell::AddedOneSide { adder } => Cell::AddedOneSide { adder: adder.other() },
            Cell::DeleteVsUnchanged { deleter } => Cell::DeleteVsUnchanged {
                deleter: deleter.other(),
            },
            Cell::DeleteVsEdit { deleter } => Cell::DeleteVsEdit { deleter: deleter.other() },
            Cell::DeleteVsRename { deleter } => Cell::DeleteVsRename { deleter: deleter.other() },
            Cell::DeleteVsRenameEdit { deleter } => Cell::DeleteVsRenameEdit {
                deleter: deleter.other(),
            },
            Cell::EditOneSide { editor } => Cell::EditOneSide { editor: editor.other() },
            Cell::RenameVsUnchanged { renamer } => Cell::RenameVsUnchanged {
                renamer: renamer.other(),
            },
            Cell::RenameEditVsUnchanged { renamer } => Cell::RenameEditVsUnchanged {
                renamer: renamer.other(),
            },
            Cell::RenameVsEdit { renamer } => Cell::RenameVsEdit { renamer: renamer.other() },
            Cell::RenameEditVsEdit { renamer, bodies_converge } => Cell::RenameEditVsEdit {
                renamer: renamer.other(),
                bodies_converge,
            },
            Cell::RenameEditVsRename { rename_editor, names_converge } => Cell::RenameEditVsRename {
                rename_editor: rename_editor.other(),
                names_converge,
            },
            other => other,
        }
    }

    /// The case you get by exchanging ours and theirs.
    #[must_use]
    pub fn flip(self) -> (r: Cell)
        ensures
            r == self.flipped(),
    {
        match self {
            Cell::AddedOneSide { adder } => Cell::AddedOneSide { adder: adder.flip() },
            Cell::DeleteVsUnchanged { deleter } => Cell::DeleteVsUnchanged {
                deleter: deleter.flip(),
            },
            Cell::DeleteVsEdit { deleter } => Cell::DeleteVsEdit { deleter: deleter.flip() },
            Cell::DeleteVsRename { deleter } => Cell::DeleteVsRename { deleter: deleter.flip() },
            Cell::DeleteVsRenameEdit { deleter } => Cell::DeleteVsRenameEdit {
                deleter: deleter.flip(),
            },
            Cell::EditOneSide { editor } => Cell::EditOneSide { editor: editor.flip() },
            Cell::RenameVsUnchanged { renamer } => Cell::RenameVsUnchanged {
                renamer: renamer.flip(),
            },
            Cell::RenameEditVsUnchanged { renamer } => Cell::RenameEditVsUnchanged {
                renamer: renamer.flip(),
            },
            Cell::RenameVsEdit { renamer } => Cell::RenameVsEdit { renamer: renamer.flip() },
            Cell::RenameEditVsEdit { renamer, bodies_converge } => Cell::RenameEditVsEdit {
                renamer: renamer.flip(),
                bodies_converge,
            },
            Cell::RenameEditVsRename { rename_editor, names_converge } => Cell::RenameEditVsRename {
                rename_editor: rename_editor.flip(),
                names_converge,
            },
            other => other,
        }
    }

    /// What each side did, as (ours, theirs).
    pub open spec fn action_pair(self) -> (Action, Action) {
        match self {
            Cell::AddedOneSide { adder } => oriented(adder, Action::Added, Action::Absent),
            Cell::AddedBothConvergent | Cell::AddedBothDivergent => (Action::Added, Action::Added),
            Cell::DeletedBoth => (Action::Deleted, Action::Deleted),
            Cell::DeleteVsUnchanged { deleter } => oriented(
                deleter,
                Action::Deleted,
                Action::Unchanged,
            ),
            Cell::DeleteVsEdit { deleter } => oriented(deleter, Action::Deleted, Action::Edited),
            Cell::DeleteVsRename { deleter } => oriented(deleter, Action::Deleted, Action::Renamed),
            Cell::DeleteVsRenameEdit { deleter } => oriented(
                deleter,
                Action::Deleted,
                Action::RenameEdited,
            ),
            Cell::UnchangedBoth => (Action::Unchanged, Action::Unchanged),
            Cell::EditOneSide { editor } => oriented(editor, Action::Edited, Action::Unchanged),
            Cell::EditBothConvergent | Cell::EditBothDivergent => (Action::Edited, Action::Edited),
            Cell::RenameVsUnchanged { renamer } => oriented(
                renamer,
                Action::Renamed,
                Action::Unchanged,
            ),
            Cell::RenameEditVsUnchanged { renamer } => oriented(
                renamer,
                Action::RenameEdited,
                Action::Unchanged,
            ),
            Cell::RenameVsEdit { renamer } => oriented(renamer, Action::Renamed, Action::Edited),
            Cell::RenameEditVsEdit { renamer, bodies_converge } => oriented(
                renamer,
                Action::RenameEdited,
                Action::Edited,
            ),
            Cell::RenameBoth { names_converge } => (Action::Renamed, Action::Renamed),
            Cell::RenameEditVsRename { rename_editor, names_converge } => oriented(
                rename_editor,
                Action::RenameEdited,
                Action::Renamed,
            ),
            Cell::RenameEditBoth { names_converge, bodies_converge } => (
                Action::RenameEdited,
                Action::RenameEdited,
            ),
        }
    }

    /// The per-side actions this case encodes, as (ours, theirs).
    pub fn actions(self) -> (r: (Action, Action))
        ensures
            r == self.action_pair(),
    {
        match self {
            Cell::AddedOneSide { adder } => orient(adder, Action::Added, Action::Absent),
            Cell::AddedBothConvergent | Cell::AddedBothDivergent => (Action::Added, Action::Added),
            Cell::DeletedBoth => (Action::Deleted, Action::Deleted),
            Cell::DeleteVsUnchanged { deleter } => orient(
                deleter,
                Action::Deleted,
                Action::Unchanged,
            ),
            Cell::DeleteVsEdit { deleter } => orient(deleter, Action::Deleted, Action::Edited),
            Cell::DeleteVsRename { deleter } => orient(deleter, Action::Deleted, Action::Renamed),
            Cell::DeleteVsRenameEdit { deleter } => orient(
                deleter,
                Action::Deleted,
                Action::RenameEdited,
            ),
            Cell::UnchangedBoth => (Action::Unchanged, Action::Unchanged),
            Cell::EditOneSide { editor } => orient(editor, Action::Edited, Action::Unchanged),
            Cell::EditBothConvergent | Cell::EditBothDivergent => (Action::Edited, Action::Edited),
            Cell::RenameVsUnchanged { renamer } => orient(
                renamer,
                Action::Renamed,
                Action::Unchanged,
            ),
            Cell::RenameEditVsUnchanged { renamer } => orient(
                renamer,
                Action::RenameEdited,
                Action::Unchanged,
            ),
            Cell::RenameVsEdit { renamer } => orient(renamer, Action::Renamed, Action::Edited),
            Cell::RenameEditVsEdit { renamer, .. } => orient(
                renamer,
                Action::RenameEdited,
                Action::Edited,
            ),
            Cell::RenameBoth { .. } => (Action::Renamed, Action::Renamed),
            Cell::RenameEditVsRename { rename_editor, .. } => orient(
                rename_editor,
                Action::RenameEdited,
                Action::Renamed,
            ),
            Cell::RenameEditBoth { .. } => (Action::RenameEdited, Action::RenameEdited),
        }
    }

    /// One side changed nothing that the other side's change could contradict.
    pub open spec fn trivially_clean(self) -> bool {
        ||| self is UnchangedBoth
        ||| self is EditOneSide
        ||| self is AddedOneSide
        ||| self is AddedBothConvergent
        ||| self is EditBothConvergent
        ||| self is DeletedBoth
        ||| self is DeleteVsUnchanged
        ||| self is RenameVsUnchanged
        ||| self is RenameEditVsUnchanged
        ||| self == (Cell::RenameBoth { names_converge: true })
    }

    /// Is this a case for which no conflict should be reported, because one side
    /// changed nothing that the other side's change could contradict?
    pub fn is_trivially_clean(self) -> (r: bool)
        ensures
            r == self.trivially_clean(),
    {
        matches!(
            self,
            Cell::UnchangedBoth
                | Cell::EditOneSide { .. }
                | Cell::AddedOneSide { .. }
                | Cell::AddedBothConvergent
                | Cell::EditBothConvergent
                | Cell::DeletedBoth
                | Cell::DeleteVsUnchanged { .. }
                | Cell::RenameVsUnchanged { .. }
                | Cell::RenameEditVsUnchanged { .. }
                | Cell::RenameBoth { names_converge: true }
        )
    }
}

spec fn side_rank(s: Side) -> int {
    match s {
        Side::Ours => 0,
        Side::Theirs => 1,
    }
}

spec fn no_rank(b: bool) -> int {
    if b {
        0
    } else {
        1
    }
}

/// The place of a case in [`Cell::all`].
spec fn cell_rank(c: Cell) -> int {
    match c {
        Cell::AddedOneSide { adder } => side_rank(adder),
        Cell::AddedBothConvergent => 2,
        Cell::AddedBothDivergent => 3,
        Cell::DeletedBoth => 4,
        Cell::DeleteVsUnchanged { deleter } => 5 + side_rank(deleter),
        Cell::DeleteVsEdit { deleter } => 7 + side_rank(deleter),
        Cell::DeleteVsRename { deleter } => 9 + side_rank(deleter),
        Cell::DeleteVsRenameEdit { deleter } => 11 + side_rank(deleter),
        Cell::UnchangedBoth => 13,
        Cell::EditOneSide { editor } => 14 + side_rank(editor),
        Cell::EditBothConvergent => 16,
        Cell::EditBothDivergent => 17,
        Cell::RenameVsUnchanged { renamer } => 18 + side_rank(renamer),
        Cell::RenameEditVsUnchanged { renamer } => 20 + side_rank(renamer),
        Cell::RenameVsEdit { renamer } => 22 + side_rank(renamer),
        Cell::RenameEditVsEdit { renamer, bodies_converge } => 24 + 2 * side_rank(renamer)
            + no_rank(bodies_converge),
        Cell::RenameBoth { names_converge } => 28 + no_rank(names_converge),
        Cell::RenameEditVsRename { rename_editor, names_converge } => 30 + 2 * side_rank(
            rename_editor,
        ) + no_rank(names_converge),
        Cell::RenameEditBoth { names_converge, bodies_converge } => 34 + 2 * no_rank(names_converge)
            + no_rank(bodies_converge),
    }
}

/// Exchanging the sides twice gives the case back.
pub proof fn flip_twice_is_identity(c: Cell)
    ensures
        c.flipped().flipped() == c,
{
}

/// Exchanging the sides of a case exchanges its pair of actions.
pub proof fn flip_swaps_the_action_pair(c: Cell)
    ensures
        c.flipped().action_pair() == (c.action_pair().1, c.action_pair().0),
{
}

/// Whether a case is trivially clean does not depend on which side is ours.
pub proof fn flip_keeps_trivially_clean(c: Cell)
    ensures
        c.flipped().trivially_clean() == c.trivially_clean(),
{
}

/// Every pairing of what two sides can do to a base entity has a case, and so
/// has an addition by both.
pub proof fn every_action_pair_is_covered(a: Action, b: Action)
    requires
        a != Action::Added,
        a != Action::Absent,
        b != Action::Added,
        b != Action::Absent,
    ensures
        exists|c: Cell| #[trigger] c.action_pair() == (a, b),
        exists|c: Cell| #[trigger] c.action_pair() == (Action::Added, Action::Added),
{
    assert(Cell::AddedBothConvergent.action_pair() == (Action::Added, Action::Added));
    let o = Side::Ours;
    let t = Side::Theirs;
    assert(Cell::DeletedBoth.action_pair() == (Action::Deleted, Action::Deleted));
    assert((Cell::DeleteVsUnchanged { deleter: o }).action_pair() == (
        Action::Deleted,
        Action::Unchanged,
    ));
    assert((Cell::DeleteVsUnchanged { deleter: t }).action_pair() == (
        Action::Unchanged,
        Action::Deleted,
    ));
    assert((Cell::DeleteVsEdit { deleter: o }).action_pair() == (Action::Deleted, Action::Edited));
    assert((Cell::DeleteVsEdit { deleter: t }).action_pair() == (Action::Edited, Action::Deleted));
    assert((Cell::DeleteVsRename { deleter: o }).action_pair() == (
        Action::Deleted,
        Action::Renamed,
    ));
    assert((Cell::DeleteVsRename { deleter: t }).action_pair() == (
        Action::Renamed,
        Action::Deleted,
    ));
    assert((Cell::DeleteVsRenameEdit { deleter: o }).action_pair() == (
        Action::Deleted,
        Action::RenameEdited,
    ));
    assert((Cell::DeleteVsRenameEdit { deleter: t }).action_pair() == (
        Action::RenameEdited,
        Action::Deleted,
    ));
    assert(Cell::UnchangedBoth.action_pair() == (Action::Unchanged, Action::Unchanged));
    assert((Cell::EditOneSide { editor: o }).action_pair() == (Action::Edited, Action::Unchanged));
    assert((Cell::EditOneSide { editor: t }).action_pair() == (Action::Unchanged, Action::Edited));
    assert(Cell::EditBothConvergent.action_pair() == (Action::Edited, Action::Edited));
    assert((Cell::RenameVsUnchanged { renamer: o }).action_pair() == (
        Action::Renamed,
        Action::Unchanged,
    ));
    assert((Cell::RenameVsUnchanged { renamer: t }).action_pair() == (
        Action::Unchanged,
        Action::Renamed,
    ));
    assert((Cell::RenameEditVsUnchanged { renamer: o }).action_pair() == (
        Action::RenameEdited,
        Action::Unchanged,
    ));
    assert((Cell::RenameEditVsUnchanged { renamer: t }).action_pair() == (
        Action::Unchanged,
        Action::RenameEdited,
    ));
    assert((Cell::RenameVsEdit { renamer: o }).action_pair() == (Action::Renamed, Action::Edited));
    assert((Cell::RenameVsEdit { renamer: t }).action_pair() == (Action::Edited, Action::Renamed));
    assert((Cell::RenameEditVsEdit { renamer: o, bodies_converge: true }).action_pair() == (
        Action::RenameEdited,
        Action::Edited,
    ));
    assert((Cell::RenameEditVsEdit { renamer: t, bodies_converge: true }).action_pair() == (
        Action::Edited,
        Action::RenameEdited,
    ));
    assert((Cell::RenameBoth { names_converge: true }).action_pair() == (
        Action::Renamed,
        Action::Renamed,
    ));
    assert((Cell::RenameEditVsRename { rename_editor: o, names_converge: true }).action_pair() == (
        Action::RenameEdited,
        Action::Renamed,
    ));
    assert((Cell::RenameEditVsRename { rename_editor: t, names_converge: true }).action_pair() == (
        Action::Renamed,
        Action::RenameEdited,
    ));
    assert((Cell::RenameEditBoth { names_converge: true, bodies_converge: true }).action_pair() == (
        Action::RenameEdited,
        Action::RenameEdited,
    ));
}

// ---------------------------------------------------------------------------
// The summary's lines
// ---------------------------------------------------------------------------

/// Which line of the merge summary a decision lands on. Neither `Clone` nor
/// `Copy`: revising a decision replaces its tally in the same move.
#[derive(Debug, PartialEq, Eq, Structural)]
pub enum Tally {
    Unchanged,
    OursOnly,
    TheirsOnly,
    BothMerged,
    AddedOurs,
    AddedTheirs,
    Deleted,
    Conflicted,
}

/// The tally of a one-sided survivor, from the side that acted.
pub open spec fn only_tally(side: Side) -> Tally {
    match side {
        Side::Ours => Tally::OursOnly,
        Side::Theirs => Tally::TheirsOnly,
    }
}

/// The tally of a one-sided addition, from the side that added.
pub open spec fn added_tally(side: Side) -> Tally {
    match side {
        Side::Ours => Tally::AddedOurs,
        Side::Theirs => Tally::AddedTheirs,
    }
}

impl Tally {
    /// The tally of a one-sided survivor, from the side that acted.
    pub fn only(side: Side) -> (r: Tally)
        ensures
            r == only_tally(side),
    {
        match side {
            Side::Ours => Tally::OursOnly,
            Side::Theirs => Tally::TheirsOnly,
        }
    }

    /// The tally of a one-sided addition, from the side that added.
    pub fn added(side: Side) -> (r: Tally)
        ensures
            r == added_tally(side),
    {
        match side {
            Side::Ours => Tally::AddedOurs,
            Side::Theirs => Tally::AddedTheirs,
        }
    }
}

// ---------------------------------------------------------------------------
// Order and separators as language properties
// ---------------------------------------------------------------------------

/// Is the order of top-level definitions part of the language's semantics?
#[derive(Clone, Copy, PartialEq, Eq, Debug, Structural)]
pub enum EntityOrder {
    /// Definition order carries no meaning.
    Unordered,
    /// Definition order is semantics: it must be preserved or conflicted on.
    Effectful,
}

/// The extensions of the languages in which definition order is semantics: the
/// C family, the ML family, shells and SQL.
pub open spec fn effectful_extensions() -> Seq<Seq<char>> {
    seq![
        ".c"@, ".h"@, ".cpp"@, ".cc"@, ".cxx"@, ".hpp"@, ".hh"@, ".hxx"@,
        ".ml"@, ".mli"@, ".sml"@, ".sig"@, ".fs"@, ".fsi"@, ".fsx"@,
        ".sh"@, ".bash"@, ".zsh"@, ".sql"@, ".psql"@,
    ]
}

/// The path, lowered, ends with one of the extensions.
pub open spec fn has_extension(path: Seq<char>, extensions: Seq<Seq<char>>) -> bool {
    exists|i: int| 0 <= i < extensions.len() && ends(lower(path), #[trigger] extensions[i])
}

/// Does the path, lowered, end with one of the extensions?
pub fn path_has_extension(file_path: &str, extensions: &Vec<&str>) -> (r: bool)
    ensures
        r == has_extension(file_path@, extensions@.map_values(|e: &str| e@)),
{
    let p = lowered(chars_of(file_path).as_slice());
    let mut i: usize = 0;
    let ghost all = extensions@.map_values(|e: &str| e@);
    while i < extensions.len()
        invariant
            i <= extensions@.len(),
            p@ == lower(file_path@),
            all == extensions@.map_values(|e: &str| e@),
            forall|k: int| 0 <= k < i ==> !ends(p@, #[trigger] all[k]),
        decreases extensions@.len() - i,
    {
        if ends_with(p.as_slice(), extensions[i]) {
            proof {
                assert(ends(lower(file_path@), all[i as int]));
            }
            return true;
        }
        i = i + 1;
    }
    false
}

impl EntityOrder {
    /// Whether order is semantics in the language of the file.
    pub fn of_path(file_path: &str) -> (r: EntityOrder)
        ensures
            (r == EntityOrder::Effectful) == has_extension(file_path@, effectful_extensions()),
    {
        let v: Vec<&str> = vec![
            ".c", ".h", ".cpp", ".cc", ".cxx", ".hpp", ".hh", ".hxx",
            ".ml", ".mli", ".sml", ".sig", ".fs", ".fsi", ".fsx",
            ".sh", ".bash", ".zsh", ".sql", ".psql",
        ];
        proof {
            assert(v@.map_values(|e: &str| e@) =~= effectful_extensions());
        }
        if path_has_extension(file_path, &v) {
            EntityOrder::Effectful
        } else {
            EntityOrder::Unordered
        }
    }
}

/// The extensions of the formats that write a comma between two members.
pub open spec fn comma_extensions() -> Seq<Seq<char>> {
    seq![".json"@, ".jsonc"@, ".json5"@]
}

/// The text a language writes between two entities to make them a sequence. It
/// belongs to the encoding, not to any entity.
pub fn entity_separator(file_path: &str) -> (r: Option<&'static str>)
    ensures
        match r {
            Some(s) => has_extension(file_path@, comma_extensions()) && s@ == ","@,
            None => !has_extension(file_path@, comma_extensions()),
        },
{
    let v: Vec<&str> = vec![".json", ".jsonc", ".json5"];
    proof {
        assert(v@.map_values(|e: &str| e@) =~= comma_extensions());
    }
    if path_has_extension(file_path, &v) {
        Some(",")
    } else {
        None
    }
}

/// The two sides gave entities they share contradictory relative order, in a
/// file where order is semantics.
#[derive(Debug, Clone)]
pub struct OrderConflict {
    pub base: Vec<String>,
    pub ours: Vec<String>,
    pub theirs: Vec<String>,
}

// ---------------------------------------------------------------------------
// Dispositions
// ---------------------------------------------------------------------------

/// What the merge decided to do with one triple. It is not `Clone`: there is one
/// decision to revise.
#[derive(Debug)]
pub enum Disposition {
    /// Emit this text.
    Emit { text: String, name: String },
    /// Emit nothing: the entity is gone from the merge.
    Drop,
    /// Emit a conflict: the rendered marker block, and the typed record of it.
    Conflict { text: String, conflict: EntityConflict },
}

/// A [`Disposition`] with its strings read as texts.
pub enum DispositionView {
    Emit { text: Seq<char>, name: Seq<char> },
    Drop,
    Conflict { text: Seq<char>, conflict: EntityConflictView },
}

impl View for Disposition {
    type V = DispositionView;

    open spec fn view(&self) -> DispositionView {
        match *self {
            Disposition::Emit { text, name } => DispositionView::Emit { text: text@, name: name@ },
            Disposition::Drop => DispositionView::Drop,
            Disposition::Conflict { text, conflict } => DispositionView::Conflict {
                text: text@,
                conflict: conflict@,
            },
        }
    }
}

impl DispositionView {
    /// The text that is emitted, if any is.
    pub open spec fn emitted(self) -> Option<Seq<char>> {
        match self {
            DispositionView::Emit { text, name } => Some(text),
            DispositionView::Drop => None,
            DispositionView::Conflict { text, conflict } => Some(text),
        }
    }
}

impl Disposition {
    /// Is a conflict emitted?
    pub fn is_conflict(&self) -> (r: bool)
        ensures
            r == (self@ is Conflict),
    {
        match self {
            Disposition::Conflict { .. } => true,
            _ => false,
        }
    }

    /// Is nothing emitted?
    pub fn is_drop(&self) -> (r: bool)
        ensures
            r == (self@ is Drop),
    {
        match self {
            Disposition::Drop => true,
            _ => false,
        }
    }

    /// The text that is emitted, if any is.
    pub fn emitted(&self) -> (r: Option<&str>)
        ensures
            crate::conflict::opt_str(r) == self@.emitted(),
    {
        match self {
            Disposition::Emit { text, .. } => Some(text.as_str()),
            Disposition::Drop => None,
            Disposition::Conflict { text, .. } => Some(text.as_str()),
        }
    }
}

} // verus!
