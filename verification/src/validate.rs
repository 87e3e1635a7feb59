//! Everything a merge has to say beyond its bytes.

use vstd::prelude::*;
use crate::order::views;
use crate::text::{
    add_sorted, before, decimal, join, join_strings, list_has, push_number, push_sorted, push_text,
    str_before, str_eq, string_of, strs,
};

verus! {

broadcast use vstd::string::group_string_axioms;

/// Something about a merge that a reader should know.
#[derive(Debug, Clone)]
pub struct SemanticWarning {
    /// The entity that was auto-merged and may be at risk.
    pub entity_name: String,
    pub entity_type: String,
    pub file_path: String,
    /// The kind of semantic risk detected.
    pub kind: WarningKind,
    /// Related entities involved in the risk.
    pub related: Vec<RelatedEntity>,
}

/// What there is to know.
#[derive(Debug, Clone)]
pub enum WarningKind {
    /// Entity references another entity that was also modified in this merge.
    DependencyAlsoModified,
    /// Entity is depended on by another entity that was also modified.
    DependentAlsoModified,
    /// The merged output failed to parse.
    ParseFailedAfterMerge,
    /// A conflict was resolved because the two sides' blocks write nothing that
    /// the other writes or reads.
    CompositionLicensed { ours_binds: Vec<String>, theirs_binds: Vec<String> },
    /// The frame of a conflicted output states a line more times than any union
    /// of the two sides could put there.
    ConflictFrameDuplicate { line: String, found: usize, allowed: usize },
    /// A container merged clean, but each side changed or added different
    /// sibling members.
    SiblingCoChange {
        ours_added: Vec<String>,
        ours_changed: Vec<String>,
        theirs_added: Vec<String>,
        theirs_changed: Vec<String>,
    },
}

/// An entity that a warning mentions.
#[derive(Debug, Clone)]
pub struct RelatedEntity {
    pub name: String,
    pub entity_type: String,
    pub file_path: String,
}

/// A [`SemanticWarning`] with its strings read as texts.
pub struct WarningView {
    pub entity_name: Seq<char>,
    pub entity_type: Seq<char>,
    pub file_path: Seq<char>,
    pub kind: WarningKindView,
    pub related: Seq<RelatedView>,
}

/// A [`WarningKind`] with its strings read as texts.
pub enum WarningKindView {
    DependencyAlsoModified,
    DependentAlsoModified,
    ParseFailedAfterMerge,
    CompositionLicensed { ours_binds: Seq<Seq<char>>, theirs_binds: Seq<Seq<char>> },
    ConflictFrameDuplicate { line: Seq<char>, found: int, allowed: int },
    SiblingCoChange {
        ours_added: Seq<Seq<char>>,
        ours_changed: Seq<Seq<char>>,
        theirs_added: Seq<Seq<char>>,
        theirs_changed: Seq<Seq<char>>,
    },
}

/// A [`RelatedEntity`] with its strings read as texts.
pub struct RelatedView {
    pub name: Seq<char>,
    pub entity_type: Seq<char>,
    pub file_path: Seq<char>,
}

impl View for RelatedEntity {
    type V = RelatedView;

    open spec fn view(&self) -> RelatedView {
        RelatedView {
            name: self.name@,
            entity_type: self.entity_type@,
            file_path: self.file_path@,
        }
    }
}

impl View for WarningKind {
    type V = WarningKindView;

    open spec fn view(&self) -> WarningKindView {
        match *self {
            WarningKind::DependencyAlsoModified => WarningKindView::DependencyAlsoModified,
            WarningKind::DependentAlsoModified => WarningKindView::DependentAlsoModified,
            WarningKind::ParseFailedAfterMerge => WarningKindView::ParseFailedAfterMerge,
            WarningKind::CompositionLicensed { ours_binds, theirs_binds } =>
                WarningKindView::CompositionLicensed {
                ours_binds: strs(ours_binds@),
                theirs_binds: strs(theirs_binds@),
            },
            WarningKind::ConflictFrameDuplicate { line, found, allowed } =>
                WarningKindView::ConflictFrameDuplicate {
                line: line@,
                found: found as int,
                allowed: allowed as int,
            },
            WarningKind::SiblingCoChange {
                ours_added,
                ours_changed,
                theirs_added,
                theirs_changed,
            } => WarningKindView::SiblingCoChange {
                ours_added: strs(ours_added@),
                ours_changed: strs(ours_changed@),
                theirs_added: strs(theirs_added@),
                theirs_changed: strs(theirs_changed@),
            },
        }
    }
}

impl View for SemanticWarning {
    type V = WarningView;

    open spec fn view(&self) -> WarningView {
        WarningView {
            entity_name: self.entity_name@,
            entity_type: self.entity_type@,
            file_path: self.file_path@,
            kind: self.kind@,
            related: views(self.related@),
        }
    }
}

// ---------------------------------------------------------------------------
// Cross-references between what was modified
// ---------------------------------------------------------------------------

/// A modified entity, by its name and its file.
#[derive(Debug, Clone)]
pub struct ModifiedEntity {
    pub name: String,
    pub file_path: String,
}

impl View for ModifiedEntity {
    type V = (Seq<char>, Seq<char>);

    open spec fn view(&self) -> (Seq<char>, Seq<char>) {
        (self.name@, self.file_path@)
    }
}

/// One entity that another refers to, or that refers to it.
#[derive(Debug, Clone)]
pub struct Neighbour {
    pub id: String,
    pub entity: RelatedEntity,
}

/// A [`Neighbour`] with its strings read as texts.
pub struct NeighbourView {
    pub id: Seq<char>,
    pub entity: RelatedView,
}

impl View for Neighbour {
    type V = NeighbourView;

    open spec fn view(&self) -> NeighbourView {
        NeighbourView { id: self.id@, entity: self.entity@ }
    }
}

/// One entity of a dependency graph, with what it refers to and what refers to it.
#[derive(Debug, Clone)]
pub struct GraphEntity {
    pub id: String,
    pub name: String,
    pub entity_type: String,
    pub file_path: String,
    pub dependencies: Vec<Neighbour>,
    pub dependents: Vec<Neighbour>,
}

/// A [`GraphEntity`] with its strings read as texts.
pub struct GraphEntityView {
    pub id: Seq<char>,
    pub name: Seq<char>,
    pub entity_type: Seq<char>,
    pub file_path: Seq<char>,
    pub dependencies: Seq<NeighbourView>,
    pub dependents: Seq<NeighbourView>,
}

impl View for GraphEntity {
    type V = GraphEntityView;

    open spec fn view(&self) -> GraphEntityView {
        GraphEntityView {
            id: self.id@,
            name: self.name@,
            entity_type: self.entity_type@,
            file_path: self.file_path@,
            dependencies: views(self.dependencies@),
            dependents: views(self.dependents@),
        }
    }
}

/// The least id, among the first `k` entities, of those with the name in the file.
pub open spec fn least_id(g: Seq<GraphEntityView>, m: (Seq<char>, Seq<char>), k: int) -> Option<
    Seq<char>,
>
    decreases k,
{
    if k <= 0 {
        None
    } else {
        let front = least_id(g, m, k - 1);
        if g[k - 1].name == m.0 && g[k - 1].file_path == m.1 {
            match front {
                Some(x) => if before(g[k - 1].id, x) {
                    Some(g[k - 1].id)
                } else {
                    Some(x)
                },
                None => Some(g[k - 1].id),
            }
        } else {
            front
        }
    }
}

/// The ids of the first `k` modified entities, in the order of texts and each once.
pub open spec fn modified_ids(
    g: Seq<GraphEntityView>,
    ms: Seq<(Seq<char>, Seq<char>)>,
    k: int,
) -> Seq<Seq<char>>
    decreases k,
{
    if k <= 0 {
        Seq::empty()
    } else {
        match least_id(g, ms[k - 1], g.len() as int) {
            Some(id) => add_sorted(modified_ids(g, ms, k - 1), id),
            None => modified_ids(g, ms, k - 1),
        }
    }
}

/// The first entity, at or after the `k`th, with the id.
pub open spec fn graph_at(g: Seq<GraphEntityView>, id: Seq<char>, k: int) -> Option<int>
    decreases g.len() - k,
{
    if k < 0 || k >= g.len() {
        None
    } else if g[k].id == id {
        Some(k)
    } else {
        graph_at(g, id, k + 1)
    }
}

/// A warning about an entity and a neighbour of it.
pub open spec fn neighbour_warning(
    e: GraphEntityView,
    n: NeighbourView,
    kind: WarningKindView,
) -> WarningView {
    WarningView {
        entity_name: e.name,
        entity_type: e.entity_type,
        file_path: e.file_path,
        kind,
        related: seq![n.entity],
    }
}

/// The warnings with those about the first `k` dependencies that were also modified.
pub open spec fn with_dependencies(
    v: Seq<WarningView>,
    e: GraphEntityView,
    ids: Seq<Seq<char>>,
    k: int,
) -> Seq<WarningView>
    decreases k,
{
    if k <= 0 {
        v
    } else {
        let front = with_dependencies(v, e, ids, k - 1);
        let d = e.dependencies[k - 1];
        if ids.contains(d.id) {
            front.push(neighbour_warning(e, d, WarningKindView::DependencyAlsoModified))
        } else {
            front
        }
    }
}

/// Does the warning say of the dependent that it refers to the entity?
pub open spec fn covers(w: WarningView, dependent: Seq<char>, entity: Seq<char>) -> bool {
    &&& w.kind is DependencyAlsoModified
    &&& w.entity_name == dependent
    &&& exists|r: int| 0 <= r < w.related.len() && (#[trigger] w.related[r]).name == entity
}

/// Does one of the warnings say so?
pub open spec fn covered(v: Seq<WarningView>, dependent: Seq<char>, entity: Seq<char>) -> bool {
    exists|i: int| 0 <= i < v.len() && covers(#[trigger] v[i], dependent, entity)
}

/// The warnings with those about the first `k` dependents that were also modified
/// and that no warning covers from the other direction.
pub open spec fn with_dependents(
    v: Seq<WarningView>,
    e: GraphEntityView,
    ids: Seq<Seq<char>>,
    k: int,
) -> Seq<WarningView>
    decreases k,
{
    if k <= 0 {
        v
    } else {
        let front = with_dependents(v, e, ids, k - 1);
        let d = e.dependents[k - 1];
        if ids.contains(d.id) && d.id != e.id && !covered(front, d.entity.name, e.name) {
            front.push(neighbour_warning(e, d, WarningKindView::DependentAlsoModified))
        } else {
            front
        }
    }
}

/// The warnings about the first `k` modified entities.
pub open spec fn warnings_upto(
    g: Seq<GraphEntityView>,
    ids: Seq<Seq<char>>,
    k: int,
) -> Seq<WarningView>
    decreases k,
{
    if k <= 0 {
        Seq::empty()
    } else {
        let front = warnings_upto(g, ids, k - 1);
        match graph_at(g, ids[k - 1], 0) {
            Some(i) => with_dependents(
                with_dependencies(front, g[i], ids, g[i].dependencies.len() as int),
                g[i],
                ids,
                g[i].dependents.len() as int,
            ),
            None => front,
        }
    }
}

/// The warnings about cross-references between modified entities: one entity alone
/// has none.
pub open spec fn merge_warnings(
    g: Seq<GraphEntityView>,
    ms: Seq<(Seq<char>, Seq<char>)>,
) -> Seq<WarningView> {
    if ms.len() < 2 {
        Seq::empty()
    } else {
        let ids = modified_ids(g, ms, ms.len() as int);
        warnings_upto(g, ids, ids.len() as int)
    }
}

fn find_least<'a>(g: &'a Vec<GraphEntity>, m: &ModifiedEntity) -> (r: Option<&'a str>)
    ensures
        crate::conflict::opt_str(r) == least_id(views(g@), m@, g@.len() as int),
{
    let ghost all = views(g@);
    let mut best: Option<usize> = None;
    let mut k: usize = 0;
    while k < g.len()
        invariant
            k <= g@.len(),
            all == views(g@),
            match best {
                Some(b) => b < k && least_id(all, m@, k as int) == Some(all[b as int].id),
                None => least_id(all, m@, k as int) is None,
            },
        decreases g@.len() - k,
    {
        proof {
            assert(all[k as int] == g@[k as int]@);
        }
        if str_eq(g[k].name.as_str(), m.name.as_str()) && str_eq(
            g[k].file_path.as_str(),
            m.file_path.as_str(),
        ) {
            match best {
                Some(b) => {
                    proof {
                        assert(all[b as int] == g@[b as int]@);
                    }
                    if str_before(g[k].id.as_str(), g[b].id.as_str()) {
                        best = Some(k);
                    }
                },
                None => {
                    best = Some(k);
                },
            }
        }
        k = k + 1;
    }
    match best {
        Some(b) => {
            proof {
                assert(all[b as int] == g@[b as int]@);
            }
            Some(g[b].id.as_str())
        },
        None => None,
    }
}

fn find_modified(g: &Vec<GraphEntity>, ms: &Vec<ModifiedEntity>) -> (r: Vec<String>)
    ensures
        strs(r@) == modified_ids(views(g@), views(ms@), ms@.len() as int),
{
    let ghost gv = views(g@);
    let ghost mv = views(ms@);
    let mut out: Vec<String> = Vec::new();
    let mut k: usize = 0;
    proof {
        assert(strs(out@) =~= Seq::empty());
        assert(gv.len() == g@.len());
    }
    while k < ms.len()
        invariant
            k <= ms@.len(),
            gv == views(g@),
            gv.len() == g@.len(),
            mv == views(ms@),
            strs(out@) == modified_ids(gv, mv, k as int),
        decreases ms@.len() - k,
    {
        proof {
            assert(mv[k as int] == ms@[k as int]@);
        }
        match find_least(g, &ms[k]) {
            Some(id) => push_sorted(&mut out, id),
            None => {},
        }
        k = k + 1;
    }
    out
}

fn find_in_graph(g: &Vec<GraphEntity>, id: &str) -> (r: Option<usize>)
    ensures
        match r {
            Some(i) => graph_at(views(g@), id@, 0) == Some(i as int) && i < g@.len(),
            None => graph_at(views(g@), id@, 0) is None,
        },
{
    let ghost all = views(g@);
    let mut k: usize = 0;
    while k < g.len()
        invariant
            k <= g@.len(),
            all == views(g@),
            graph_at(all, id@, k as int) == graph_at(all, id@, 0),
        decreases g@.len() - k,
    {
        proof {
            assert(all[k as int] == g@[k as int]@);
        }
        if str_eq(g[k].id.as_str(), id) {
            return Some(k);
        }
        k = k + 1;
    }
    None
}

fn warn(v: &mut Vec<SemanticWarning>, e: &GraphEntity, n: &Neighbour, kind: WarningKind)
    ensures
        views(final(v)@) == views(old(v)@).push(neighbour_warning(e@, n@, kind@)),
{
    let ghost held = views(v@);
    let mut related: Vec<RelatedEntity> = Vec::new();
    related.push(
        RelatedEntity {
            name: n.entity.name.clone(),
            entity_type: n.entity.entity_type.clone(),
            file_path: n.entity.file_path.clone(),
        },
    );
    let w = SemanticWarning {
        entity_name: e.name.clone(),
        entity_type: e.entity_type.clone(),
        file_path: e.file_path.clone(),
        kind,
        related,
    };
    let ghost wv = w@;
    v.push(w);
    proof {
        assert(wv.related =~= seq![n@.entity]);
        assert(views(v@) =~= held.push(wv));
    }
}

fn is_covered(v: &Vec<SemanticWarning>, dependent: &str, entity: &str) -> (r: bool)
    ensures
        r == covered(views(v@), dependent@, entity@),
{
    let ghost all = views(v@);
    let mut i: usize = 0;
    while i < v.len()
        invariant
            i <= v@.len(),
            all == views(v@),
            forall|k: int| 0 <= k < i ==> !covers(#[trigger] all[k], dependent@, entity@),
        decreases v@.len() - i,
    {
        let w = &v[i];
        proof {
            assert(all[i as int] == w@);
        }
        let is_dependency = match &w.kind {
            WarningKind::DependencyAlsoModified => true,
            _ => false,
        };
        if is_dependency && str_eq(w.entity_name.as_str(), dependent) {
            let ghost rel = views(w.related@);
            let mut k: usize = 0;
            while k < w.related.len()
                invariant
                    k <= w.related@.len(),
                    rel == views(w.related@),
                    w@.related == rel,
                    w@.kind is DependencyAlsoModified,
                    w@.entity_name == dependent@,
                    i < v@.len(),
                    all == views(v@),
                    all[i as int] == w@,
                    forall|m: int| 0 <= m < k ==> (#[trigger] rel[m]).name != entity@,
                decreases w.related@.len() - k,
            {
                proof {
                    assert(rel[k as int] == w.related@[k as int]@);
                }
                if str_eq(w.related[k].name.as_str(), entity) {
                    proof {
                        assert(covers(all[i as int], dependent@, entity@));
                    }
                    return true;
                }
                k = k + 1;
            }
        }
        i = i + 1;
    }
    false
}

/// Check a merge for entities that were modified and refer to one another, by the
/// dependency graph of the merged files.
pub fn validate_merge(graph: &Vec<GraphEntity>, modified: &Vec<ModifiedEntity>) -> (r: Vec<
    SemanticWarning,
>)
    ensures
        views(r@) == merge_warnings(views(graph@), views(modified@)),
{
    let ghost g = views(graph@);
    let ghost ms = views(modified@);
    let mut out: Vec<SemanticWarning> = Vec::new();
    proof {
        assert(views(out@) =~= Seq::empty());
        assert(ms.len() == modified@.len());
    }
    if modified.len() < 2 {
        return out;
    }
    let ids = find_modified(graph, modified);
    let ghost iv = strs(ids@);
    let mut k: usize = 0;
    while k < ids.len()
        invariant
            k <= ids@.len(),
            g == views(graph@),
            iv == strs(ids@),
            views(out@) == warnings_upto(g, iv, k as int),
        decreases ids@.len() - k,
    {
        proof {
            assert(iv[k as int] == ids@[k as int]@);
        }
        match find_in_graph(graph, ids[k].as_str()) {
            Some(i) => {
                let e = &graph[i];
                proof {
                    assert(g[i as int] == e@);
                }
                let ghost front = views(out@);
                let ghost deps = views(e.dependencies@);
                let mut d: usize = 0;
                while d < e.dependencies.len()
                    invariant
                        d <= e.dependencies@.len(),
                        deps == views(e.dependencies@),
                        iv == strs(ids@),
                        views(out@) == with_dependencies(front, e@, iv, d as int),
                    decreases e.dependencies@.len() - d,
                {
                    proof {
                        assert(deps[d as int] == e.dependencies@[d as int]@);
                    }
                    if list_has(&ids, e.dependencies[d].id.as_str()) {
                        warn(
                            &mut out,
                            e,
                            &e.dependencies[d],
                            WarningKind::DependencyAlsoModified,
                        );
                    }
                    d = d + 1;
                }
                let ghost mid = views(out@);
                let ghost users = views(e.dependents@);
                let mut d: usize = 0;
                while d < e.dependents.len()
                    invariant
                        d <= e.dependents@.len(),
                        users == views(e.dependents@),
                        iv == strs(ids@),
                        views(out@) == with_dependents(mid, e@, iv, d as int),
                    decreases e.dependents@.len() - d,
                {
                    let n = &e.dependents[d];
                    proof {
                        assert(users[d as int] == n@);
                    }
                    if list_has(&ids, n.id.as_str()) && !str_eq(n.id.as_str(), e.id.as_str())
                        && !is_covered(&out, n.entity.name.as_str(), e.name.as_str()) {
                        warn(&mut out, e, n, WarningKind::DependentAlsoModified);
                    }
                    d = d + 1;
                }
                proof {
                    assert(deps.len() == e.dependencies@.len());
                    assert(users.len() == e.dependents@.len());
                }
            },
            None => {},
        }
        k = k + 1;
    }
    proof {
        assert(iv.len() == ids@.len());
    }
    out
}

// ---------------------------------------------------------------------------
// In words
// ---------------------------------------------------------------------------

/// The texts, each in backticks.
pub open spec fn ticked(v: Seq<Seq<char>>) -> Seq<Seq<char>> {
    v.map_values(|m: Seq<char>| "`"@ + m + "`"@)
}

/// One side of a change to siblings, in words.
pub open spec fn side_phrase(
    side: Seq<char>,
    added: Seq<Seq<char>>,
    changed: Seq<Seq<char>>,
) -> Seq<char> {
    if added.len() > 0 && changed.len() > 0 {
        side + " added "@ + join(ticked(added), ", "@) + ", changed "@ + join(
            ticked(changed),
            ", "@,
        )
    } else if added.len() > 0 {
        side + " added "@ + join(ticked(added), ", "@)
    } else if changed.len() > 0 {
        side + " changed "@ + join(ticked(changed), ", "@)
    } else {
        side + " changed nothing"@
    }
}

fn tick(v: &Vec<String>) -> (r: String)
    ensures
        r@ == join(ticked(strs(v@)), ", "@),
{
    let ghost all = strs(v@);
    let mut out: Vec<String> = Vec::new();
    let mut k: usize = 0;
    while k < v.len()
        invariant
            k <= v@.len(),
            all == strs(v@),
            out@.len() == k,
            forall|m: int| 0 <= m < k ==> (#[trigger] out@[m])@ == "`"@ + all[m] + "`"@,
        decreases v@.len() - k,
    {
        proof {
            assert(all[k as int] == v@[k as int]@);
        }
        let mut one: Vec<char> = Vec::new();
        push_text(&mut one, "`");
        push_text(&mut one, v[k].as_str());
        push_text(&mut one, "`");
        proof {
            assert(one@ =~= "`"@ + all[k as int] + "`"@);
        }
        out.push(string_of(one.as_slice()));
        k = k + 1;
    }
    proof {
        assert(strs(out@) =~= ticked(all));
    }
    join_strings(&out, ", ")
}

/// One side of a change to siblings, in words: the one owner of the wording.
pub fn co_change_side_phrase(side: &str, added: &Vec<String>, changed: &Vec<String>) -> (r: String)
    ensures
        r@ == side_phrase(side@, strs(added@), strs(changed@)),
{
    proof {
        assert(strs(added@).len() == added@.len());
        assert(strs(changed@).len() == changed@.len());
    }
    let mut out: Vec<char> = Vec::new();
    push_text(&mut out, side);
    if added.len() > 0 && changed.len() > 0 {
        push_text(&mut out, " added ");
        push_text(&mut out, tick(added).as_str());
        push_text(&mut out, ", changed ");
        push_text(&mut out, tick(changed).as_str());
    } else if added.len() > 0 {
        push_text(&mut out, " added ");
        push_text(&mut out, tick(added).as_str());
    } else if changed.len() > 0 {
        push_text(&mut out, " changed ");
        push_text(&mut out, tick(changed).as_str());
    } else {
        push_text(&mut out, " changed nothing");
    }
    proof {
        assert(out@ =~= side_phrase(side@, strs(added@), strs(changed@)));
    }
    string_of(out.as_slice())
}

/// A text in quotes, with its special characters escaped, as `std` writes it for
/// programmers.
pub uninterp spec fn debug_form(s: Seq<char>) -> Seq<char>;

/// `str`'s `Debug` formatting: the text in quotes, with special characters escaped.
/// Nothing is claimed of it but that it is a function of the text.
#[verifier::external_body]
fn debug_text(s: &str) -> (r: String)
    ensures
        r@ == debug_form(s@),
{
    format!("{:?}", s)
}

impl WarningView {
    /// The warning in words, given how its line is quoted.
    pub open spec fn phrase(self, quoted: Seq<char>) -> Seq<char> {
        match self.kind {
            WarningKindView::DependencyAlsoModified => "warning: "@ + self.entity_type + " `"@
                + self.entity_name + "` was modified and references "@ + self.related[0].entity_type
                + " `"@ + self.related[0].name + "` which was also modified"@,
            WarningKindView::DependentAlsoModified => "warning: "@ + self.entity_type + " `"@
                + self.entity_name + "` was modified and is used by "@ + self.related[0].entity_type
                + " `"@ + self.related[0].name + "` which was also modified"@,
            WarningKindView::ParseFailedAfterMerge => "warning: merged output for `"@
                + self.file_path
                + "` failed to parse — result may be syntactically broken"@,
            WarningKindView::CompositionLicensed { ours_binds, theirs_binds } => "resolved: "@
                + self.entity_type + " `"@ + self.entity_name
                + "` — both sides inserted into one slot and their read/write sets are disjoint (ours binds "@
                + join(ours_binds, ", "@) + "; theirs binds "@ + join(theirs_binds, ", "@) + ")"@,
            WarningKindView::ConflictFrameDuplicate { line, found, allowed } =>
                "warning: outside every conflict marker, `"@ + self.file_path + "` states "@ + quoted
                + " "@ + decimal(found as nat)
                + "x — no union of the two sides states it more than "@ + decimal(allowed as nat)
                + "x, so every resolution of this file carries the extra copy"@,
            WarningKindView::SiblingCoChange {
                ours_added,
                ours_changed,
                theirs_added,
                theirs_changed,
            } => "advisory: cleanly merged "@ + self.entity_type + " `"@ + self.entity_name
                + "` — both sides changed different siblings ("@ + side_phrase(
                "ours"@,
                ours_added,
                ours_changed,
            ) + "; "@ + side_phrase("theirs"@, theirs_added, theirs_changed)
                + "); confirm they are meant to coexist"@,
        }
    }

    /// The line that the warning quotes, where it quotes one.
    pub open spec fn line(self) -> Seq<char> {
        match self.kind {
            WarningKindView::ConflictFrameDuplicate { line, found, allowed } => line,
            _ => Seq::empty(),
        }
    }

    /// Does the warning name the entity it relates to, where it has to?
    pub open spec fn wf(self) -> bool {
        self.kind is DependencyAlsoModified || self.kind is DependentAlsoModified
            ==> self.related.len() > 0
    }
}

fn push_related(out: &mut Vec<char>, w: &SemanticWarning, verb: &str)
    requires
        w@.related.len() > 0,
    ensures
        final(out)@ == old(out)@ + ("warning: "@ + w@.entity_type + " `"@ + w@.entity_name + verb@
            + w@.related[0].entity_type + " `"@ + w@.related[0].name
            + "` which was also modified"@),
{
    let ghost held = out@;
    proof {
        assert(w@.related[0] == w.related@[0]@);
    }
    push_text(out, "warning: ");
    push_text(out, w.entity_type.as_str());
    push_text(out, " `");
    push_text(out, w.entity_name.as_str());
    push_text(out, verb);
    push_text(out, w.related[0].entity_type.as_str());
    push_text(out, " `");
    push_text(out, w.related[0].name.as_str());
    push_text(out, "` which was also modified");
    proof {
        assert(out@ =~= held + ("warning: "@ + w@.entity_type + " `"@ + w@.entity_name + verb@
            + w@.related[0].entity_type + " `"@ + w@.related[0].name
            + "` which was also modified"@));
    }
}

impl SemanticWarning {
    /// The warning in words, given how its line is quoted.
    pub fn to_text_quoting(&self, quoted: &str) -> (r: String)
        requires
            self@.wf(),
        ensures
            r@ == self@.phrase(quoted@),
    {
        let mut out: Vec<char> = Vec::new();
        match &self.kind {
            WarningKind::DependencyAlsoModified => {
                push_related(&mut out, self, "` was modified and references ");
            },
            WarningKind::DependentAlsoModified => {
                push_related(&mut out, self, "` was modified and is used by ");
            },
            WarningKind::ParseFailedAfterMerge => {
                push_text(&mut out, "warning: merged output for `");
                push_text(&mut out, self.file_path.as_str());
                push_text(
                    &mut out,
                    "` failed to parse — result may be syntactically broken",
                );
            },
            WarningKind::CompositionLicensed { ours_binds, theirs_binds } => {
                push_text(&mut out, "resolved: ");
                push_text(&mut out, self.entity_type.as_str());
                push_text(&mut out, " `");
                push_text(&mut out, self.entity_name.as_str());
                push_text(
                    &mut out,
                    "` — both sides inserted into one slot and their read/write sets are disjoint (ours binds ",
                );
                push_text(&mut out, join_strings(ours_binds, ", ").as_str());
                push_text(&mut out, "; theirs binds ");
                push_text(&mut out, join_strings(theirs_binds, ", ").as_str());
                push_text(&mut out, ")");
            },
            WarningKind::ConflictFrameDuplicate { found, allowed, .. } => {
                push_text(&mut out, "warning: outside every conflict marker, `");
                push_text(&mut out, self.file_path.as_str());
                push_text(&mut out, "` states ");
                push_text(&mut out, quoted);
                push_text(&mut out, " ");
                push_number(&mut out, *found);
                push_text(&mut out, "x — no union of the two sides states it more than ");
                push_number(&mut out, *allowed);
                push_text(
                    &mut out,
                    "x, so every resolution of this file carries the extra copy",
                );
            },
            WarningKind::SiblingCoChange {
                ours_added,
                ours_changed,
                theirs_added,
                theirs_changed,
            } => {
                push_text(&mut out, "advisory: cleanly merged ");
                push_text(&mut out, self.entity_type.as_str());
                push_text(&mut out, " `");
                push_text(&mut out, self.entity_name.as_str());
                push_text(&mut out, "` — both sides changed different siblings (");
                push_text(
                    &mut out,
                    co_change_side_phrase("ours", ours_added, ours_changed).as_str(),
                );
                push_text(&mut out, "; ");
                push_text(
                    &mut out,
                    co_change_side_phrase("theirs", theirs_added, theirs_changed).as_str(),
                );
                push_text(&mut out, "); confirm they are meant to coexist");
            },
        }
        proof {
            assert(out@ =~= self@.phrase(quoted@));
        }
        string_of(out.as_slice())
    }

    /// The warning in words.
    pub fn to_text(&self) -> (r: String)
        requires
            self@.wf(),
        ensures
            r@ == self@.phrase(debug_form(self@.line())),
    {
        match &self.kind {
            WarningKind::ConflictFrameDuplicate { line, .. } => {
                let quoted = debug_text(line.as_str());
                self.to_text_quoting(quoted.as_str())
            },
            _ => self.to_text_quoting(""),
        }
    }
}

/// Every warning names the entity it relates to.
pub proof fn warnings_name_what_they_relate_to(
    g: Seq<GraphEntityView>,
    ms: Seq<(Seq<char>, Seq<char>)>,
)
    ensures
        forall|i: int| 0 <= i < merge_warnings(g, ms).len() ==> (#[trigger] merge_warnings(g, ms)[i]).wf(),
{
    let ids = modified_ids(g, ms, ms.len() as int);
    warnings_are_wf(g, ids, ids.len() as int);
}

proof fn warnings_are_wf(g: Seq<GraphEntityView>, ids: Seq<Seq<char>>, k: int)
    ensures
        forall|i: int|
            0 <= i < warnings_upto(g, ids, k).len() ==> (#[trigger] warnings_upto(g, ids, k)[i]).wf(),
    decreases k,
{
    if k > 0 {
        warnings_are_wf(g, ids, k - 1);
        let front = warnings_upto(g, ids, k - 1);
        if let Some(i) = graph_at(g, ids[k - 1], 0) {
            let e = g[i];
            dependencies_are_wf(front, e, ids, e.dependencies.len() as int);
            let mid = with_dependencies(front, e, ids, e.dependencies.len() as int);
            dependents_are_wf(mid, e, ids, e.dependents.len() as int);
        }
    }
}

proof fn dependencies_are_wf(v: Seq<WarningView>, e: GraphEntityView, ids: Seq<Seq<char>>, k: int)
    requires
        forall|i: int| 0 <= i < v.len() ==> (#[trigger] v[i]).wf(),
    ensures
        forall|i: int|
            0 <= i < with_dependencies(v, e, ids, k).len() ==> (#[trigger] with_dependencies(
                v,
                e,
                ids,
                k,
            )[i]).wf(),
    decreases k,
{
    if k > 0 {
        dependencies_are_wf(v, e, ids, k - 1);
        let front = with_dependencies(v, e, ids, k - 1);
        let all = with_dependencies(v, e, ids, k);
        assert forall|i: int| 0 <= i < all.len() implies (#[trigger] all[i]).wf() by {
            if i < front.len() {
                assert(all[i] == front[i]);
            }
        }
    }
}

proof fn dependents_are_wf(v: Seq<WarningView>, e: GraphEntityView, ids: Seq<Seq<char>>, k: int)
    requires
        forall|i: int| 0 <= i < v.len() ==> (#[trigger] v[i]).wf(),
    ensures
        forall|i: int|
            0 <= i < with_dependents(v, e, ids, k).len() ==> (#[trigger] with_dependents(
                v,
                e,
                ids,
                k,
            )[i]).wf(),
    decreases k,
{
    if k > 0 {
        dependents_are_wf(v, e, ids, k - 1);
        let front = with_dependents(v, e, ids, k - 1);
        let all = with_dependents(v, e, ids, k);
        assert forall|i: int| 0 <= i < all.len() implies (#[trigger] all[i]).wf() by {
            if i < front.len() {
                assert(all[i] == front[i]);
            }
        }
    }
}


// ---------------------------------------------------------------------------
// What the warnings are about
// ---------------------------------------------------------------------------

/// No two entities of the graph share an id.
pub open spec fn distinct_ids(g: Seq<GraphEntityView>) -> bool {
    forall|i: int, j: int|
        0 <= i < g.len() && 0 <= j < g.len() && (#[trigger] g[i]).id == (#[trigger] g[j]).id
            ==> i == j
}

/// Is the entity one that was modified? It has the name and the file of a modified one
/// and, where several have, the least id.
pub open spec fn is_modified(
    g: Seq<GraphEntityView>,
    ms: Seq<(Seq<char>, Seq<char>)>,
    i: int,
) -> bool {
    &&& 0 <= i < g.len()
    &&& ms.contains((g[i].name, g[i].file_path))
    &&& forall|j: int|
        0 <= j < g.len() && (#[trigger] g[j]).name == g[i].name && g[j].file_path == g[i].file_path
            ==> !before(g[j].id, g[i].id)
}

/// Is it the id of an entity that was modified?
pub open spec fn is_modified_id(
    g: Seq<GraphEntityView>,
    ms: Seq<(Seq<char>, Seq<char>)>,
    id: Seq<char>,
) -> bool {
    exists|j: int| is_modified(g, ms, j) && (#[trigger] g[j]).id == id
}

/// Why a warning is given: an entity, and one of its dependencies or of its dependents.
pub struct Reason {
    pub entity: int,
    pub dependency: bool,
    pub place: int,
}

/// The neighbour that a reason points at.
pub open spec fn pointed_at(g: Seq<GraphEntityView>, r: Reason) -> NeighbourView {
    if r.dependency {
        g[r.entity].dependencies[r.place]
    } else {
        g[r.entity].dependents[r.place]
    }
}

/// Is it a reason to warn? Both entities were modified, and no entity warns of itself as
/// its own user.
pub open spec fn is_reason(
    g: Seq<GraphEntityView>,
    ms: Seq<(Seq<char>, Seq<char>)>,
    r: Reason,
) -> bool {
    &&& is_modified(g, ms, r.entity)
    &&& 0 <= r.place < if r.dependency {
        g[r.entity].dependencies.len()
    } else {
        g[r.entity].dependents.len()
    }
    &&& is_modified_id(g, ms, pointed_at(g, r).id)
    &&& r.dependency || pointed_at(g, r).id != g[r.entity].id
}

/// Does the warning say what the reason is?
pub open spec fn tells(g: Seq<GraphEntityView>, r: Reason, w: WarningView) -> bool {
    &&& w.entity_name == g[r.entity].name
    &&& w.entity_type == g[r.entity].entity_type
    &&& w.file_path == g[r.entity].file_path
    &&& w.kind == if r.dependency {
        WarningKindView::DependencyAlsoModified
    } else {
        WarningKindView::DependentAlsoModified
    }
    &&& w.related.len() == 1
    &&& w.related[0] == pointed_at(g, r).entity
}

/// Does the first reason come first? By the ids of the entities, and of one entity the
/// dependencies in their order, then the dependents in theirs.
pub open spec fn comes_first(g: Seq<GraphEntityView>, a: Reason, b: Reason) -> bool {
    ||| before(g[a.entity].id, g[b.entity].id)
    ||| a.entity == b.entity && a.dependency && !b.dependency
    ||| a.entity == b.entity && a.dependency == b.dependency && a.place < b.place
}

proof fn least_id_is_least(g: Seq<GraphEntityView>, m: (Seq<char>, Seq<char>), k: int)
    requires
        0 <= k <= g.len(),
    ensures
        match least_id(g, m, k) {
            Some(x) => (exists|i: int|
                0 <= i < k && (#[trigger] g[i]).id == x && g[i].name == m.0 && g[i].file_path
                    == m.1) && forall|j: int|
                0 <= j < k && (#[trigger] g[j]).name == m.0 && g[j].file_path == m.1 ==> !before(
                    g[j].id,
                    x,
                ),
            None => forall|j: int|
                0 <= j < k ==> !((#[trigger] g[j]).name == m.0 && g[j].file_path == m.1),
        },
    decreases k,
{
    if k > 0 {
        least_id_is_least(g, m, k - 1);
        let e = g[k - 1];
        crate::text::before_irreflexive(e.id, 0);
        if e.name == m.0 && e.file_path == m.1 {
            assert(g[k - 1].id == e.id);
            if let Some(x) = least_id(g, m, k - 1) {
                if before(e.id, x) {
                    assert forall|j: int|
                        0 <= j < k && (#[trigger] g[j]).name == m.0 && g[j].file_path
                            == m.1 implies !before(g[j].id, e.id) by {
                        if j < k - 1 && before(g[j].id, e.id) {
                            crate::text::before_transitive(g[j].id, e.id, x, 0);
                        }
                    }
                } else {
                    let i = choose|i: int|
                        0 <= i < k - 1 && (#[trigger] g[i]).id == x && g[i].name == m.0
                            && g[i].file_path == m.1;
                    assert(g[i].id == x);
                }
            }
        } else {
            if let Some(x) = least_id(g, m, k - 1) {
                let i = choose|i: int|
                    0 <= i < k - 1 && (#[trigger] g[i]).id == x && g[i].name == m.0
                        && g[i].file_path == m.1;
                assert(g[i].id == x);
            }
        }
    }
}

proof fn modified_ids_hold(g: Seq<GraphEntityView>, ms: Seq<(Seq<char>, Seq<char>)>, k: int)
    requires
        distinct_ids(g),
        0 <= k <= ms.len(),
    ensures
        crate::text::strictly_sorted(modified_ids(g, ms, k)),
        forall|id: Seq<char>| #[trigger]
            modified_ids(g, ms, k).contains(id) <==> is_modified_id(g, ms.take(k), id),
    decreases k,
{
    let out = modified_ids(g, ms, k);
    if k <= 0 {
        assert forall|id: Seq<char>| #[trigger] out.contains(id) <==> is_modified_id(
            g,
            ms.take(k),
            id,
        ) by {
            if is_modified_id(g, ms.take(k), id) {
                let j = choose|j: int| is_modified(g, ms.take(k), j) && (#[trigger] g[j]).id == id;
                assert(ms.take(k).contains((g[j].name, g[j].file_path)));
            }
        }
    } else {
        modified_ids_hold(g, ms, k - 1);
        let m = ms[k - 1];
        let front = modified_ids(g, ms, k - 1);
        least_id_is_least(g, m, g.len() as int);
        let least = least_id(g, m, g.len() as int);
        if least is Some {
            crate::text::add_sorted_sorts(front, least->0);
        }
        let now = ms.take(k);
        let was = ms.take(k - 1);
        assert forall|x: (Seq<char>, Seq<char>)| #[trigger] now.contains(x) <==> was.contains(x) || x
            == m by {
            if was.contains(x) {
                let i = choose|i: int| 0 <= i < was.len() && was[i] == x;
                assert(now[i] == x);
            }
            if x == m {
                assert(now[k - 1] == x);
            }
            if now.contains(x) {
                let i = choose|i: int| 0 <= i < now.len() && now[i] == x;
                if i < k - 1 {
                    assert(was[i] == x);
                }
            }
        }
        assert forall|id: Seq<char>| #[trigger] out.contains(id) <==> is_modified_id(
            g,
            now,
            id,
        ) by {
            assert(out.contains(id) <==> front.contains(id) || least == Some(id));
            if front.contains(id) {
                let j = choose|j: int| is_modified(g, was, j) && (#[trigger] g[j]).id == id;
                assert(now.contains((g[j].name, g[j].file_path)));
                assert(is_modified(g, now, j) && g[j].id == id);
            }
            if least == Some(id) {
                let j = choose|j: int|
                    0 <= j < g.len() && (#[trigger] g[j]).id == id && g[j].name == m.0
                        && g[j].file_path == m.1;
                assert(now.contains((g[j].name, g[j].file_path)));
                assert(is_modified(g, now, j) && g[j].id == id);
            }
            if is_modified_id(g, now, id) {
                let j = choose|j: int| is_modified(g, now, j) && (#[trigger] g[j]).id == id;
                let x = (g[j].name, g[j].file_path);
                if was.contains(x) {
                    assert(is_modified(g, was, j) && g[j].id == id);
                } else {
                    assert(x == m);
                    let l = least->0;
                    let i = choose|i: int|
                        0 <= i < g.len() && (#[trigger] g[i]).id == l && g[i].name == m.0
                            && g[i].file_path == m.1;
                    assert(!before(g[i].id, g[j].id));
                    assert(!before(g[j].id, l));
                    assert(l.subrange(0, 0) =~= id.subrange(0, 0));
                    crate::text::before_total(l, id, 0);
                }
            }
        }
    }
}

proof fn graph_at_finds(g: Seq<GraphEntityView>, id: Seq<char>, k: int)
    requires
        0 <= k,
    ensures
        match graph_at(g, id, k) {
            Some(i) => k <= i < g.len() && g[i].id == id,
            None => forall|i: int| k <= i < g.len() ==> (#[trigger] g[i]).id != id,
        },
    decreases g.len() - k,
{
    if k < g.len() && g[k].id != id {
        graph_at_finds(g, id, k + 1);
    }
}

/// The reasons are good, they are told by the warnings, and they come in order.
spec fn reasons_for(
    g: Seq<GraphEntityView>,
    ms: Seq<(Seq<char>, Seq<char>)>,
    v: Seq<WarningView>,
    why: Seq<Reason>,
) -> bool {
    &&& why.len() == v.len()
    &&& forall|x: int| 0 <= x < v.len() ==> is_reason(g, ms, #[trigger] why[x])
    &&& forall|x: int| 0 <= x < v.len() ==> tells(g, #[trigger] why[x], v[x])
    &&& forall|x: int, y: int|
        0 <= x < y < v.len() ==> comes_first(g, #[trigger] why[x], #[trigger] why[y])
}

/// Some warning tells the reason.
pub open spec fn is_told(g: Seq<GraphEntityView>, v: Seq<WarningView>, r: Reason) -> bool {
    exists|x: int| 0 <= x < v.len() && tells(g, r, #[trigger] v[x])
}

proof fn one_more_reason(
    g: Seq<GraphEntityView>,
    ms: Seq<(Seq<char>, Seq<char>)>,
    v: Seq<WarningView>,
    why: Seq<Reason>,
    w: WarningView,
    r: Reason,
)
    requires
        reasons_for(g, ms, v, why),
        is_reason(g, ms, r),
        tells(g, r, w),
        forall|x: int| 0 <= x < why.len() ==> comes_first(g, #[trigger] why[x], r),
    ensures
        reasons_for(g, ms, v.push(w), why.push(r)),
{
    let v2 = v.push(w);
    let y2 = why.push(r);
    assert forall|x: int| 0 <= x < v2.len() implies is_reason(g, ms, #[trigger] y2[x]) by {
        if x < v.len() {
            assert(y2[x] == why[x]);
        }
    }
    assert forall|x: int| 0 <= x < v2.len() implies tells(g, #[trigger] y2[x], v2[x]) by {
        if x < v.len() {
            assert(y2[x] == why[x]);
        }
    }
    assert forall|x: int, y: int| 0 <= x < y < v2.len() implies comes_first(
        g,
        #[trigger] y2[x],
        #[trigger] y2[y],
    ) by {
        assert(y2[x] == why[x]);
        if y < v.len() {
            assert(y2[y] == why[y]);
        }
    }
}

proof fn told_stays_told(g: Seq<GraphEntityView>, v: Seq<WarningView>, w: WarningView, r: Reason)
    requires
        is_told(g, v, r),
    ensures
        is_told(g, v.push(w), r),
{
    let x = choose|x: int| 0 <= x < v.len() && tells(g, r, #[trigger] v[x]);
    assert(v.push(w)[x] == v[x]);
}

/// The reasons come from entities with smaller ids than the `i`th, or from it and from
/// places in front.
spec fn reasons_before(g: Seq<GraphEntityView>, why: Seq<Reason>, next: Reason) -> bool {
    forall|x: int| 0 <= x < why.len() ==> comes_first(g, #[trigger] why[x], next)
}

proof fn dependencies_have_reasons(
    g: Seq<GraphEntityView>,
    ms: Seq<(Seq<char>, Seq<char>)>,
    ids: Seq<Seq<char>>,
    i: int,
    v: Seq<WarningView>,
    why: Seq<Reason>,
    k: int,
) -> (out: Seq<Reason>)
    requires
        forall|id: Seq<char>| #[trigger] ids.contains(id) <==> is_modified_id(g, ms, id),
        is_modified(g, ms, i),
        0 <= k <= g[i].dependencies.len(),
        reasons_for(g, ms, v, why),
        forall|x: int| 0 <= x < why.len() ==> before(g[(#[trigger] why[x]).entity].id, g[i].id),
    ensures
        reasons_for(g, ms, with_dependencies(v, g[i], ids, k), out),
        reasons_before(g, out, Reason { entity: i, dependency: true, place: k }),
        forall|r: Reason| #[trigger]
            is_told(g, v, r) ==> is_told(g, with_dependencies(v, g[i], ids, k), r),
        forall|d: int|
            0 <= d < k && is_modified_id(g, ms, (#[trigger] g[i].dependencies[d]).id) ==> is_told(
                g,
                with_dependencies(v, g[i], ids, k),
                Reason { entity: i, dependency: true, place: d },
            ),
    decreases k,
{
    if k <= 0 {
        why
    } else {
        let front = with_dependencies(v, g[i], ids, k - 1);
        let out = dependencies_have_reasons(g, ms, ids, i, v, why, k - 1);
        let r = Reason { entity: i, dependency: true, place: k - 1 };
        let n = g[i].dependencies[k - 1];
        let now = with_dependencies(v, g[i], ids, k);
        if ids.contains(n.id) {
            let w = neighbour_warning(g[i], n, WarningKindView::DependencyAlsoModified);
            assert(tells(g, r, w));
            one_more_reason(g, ms, front, out, w, r);
            assert forall|q: Reason| #[trigger] is_told(g, v, q) implies is_told(g, now, q) by {
                told_stays_told(g, front, w, q);
            }
            assert(now[front.len() as int] == w);
            assert(is_told(g, now, r));
            assert forall|d: int|
                0 <= d < k && is_modified_id(
                    g,
                    ms,
                    (#[trigger] g[i].dependencies[d]).id,
                ) implies is_told(g, now, Reason { entity: i, dependency: true, place: d }) by {
                if d < k - 1 {
                    told_stays_told(g, front, w, Reason { entity: i, dependency: true, place: d });
                }
            }
            out.push(r)
        } else {
            out
        }
    }
}

/// The dependent is told of, or the same is told from the other direction.
pub open spec fn is_answered(
    g: Seq<GraphEntityView>,
    v: Seq<WarningView>,
    i: int,
    d: int,
) -> bool {
    is_told(g, v, Reason { entity: i, dependency: false, place: d }) || covered(
        v,
        g[i].dependents[d].entity.name,
        g[i].name,
    )
}

proof fn covered_stays_covered(
    v: Seq<WarningView>,
    w: WarningView,
    dependent: Seq<char>,
    entity: Seq<char>,
)
    requires
        covered(v, dependent, entity),
    ensures
        covered(v.push(w), dependent, entity),
{
    let i = choose|i: int| 0 <= i < v.len() && covers(#[trigger] v[i], dependent, entity);
    assert(v.push(w)[i] == v[i]);
}

proof fn dependents_have_reasons(
    g: Seq<GraphEntityView>,
    ms: Seq<(Seq<char>, Seq<char>)>,
    ids: Seq<Seq<char>>,
    i: int,
    v: Seq<WarningView>,
    why: Seq<Reason>,
    k: int,
) -> (out: Seq<Reason>)
    requires
        forall|id: Seq<char>| #[trigger] ids.contains(id) <==> is_modified_id(g, ms, id),
        is_modified(g, ms, i),
        0 <= k <= g[i].dependents.len(),
        reasons_for(g, ms, v, why),
        reasons_before(
            g,
            why,
            Reason { entity: i, dependency: true, place: g[i].dependencies.len() as int },
        ),
    ensures
        reasons_for(g, ms, with_dependents(v, g[i], ids, k), out),
        reasons_before(g, out, Reason { entity: i, dependency: false, place: k }),
        forall|r: Reason| #[trigger]
            is_told(g, v, r) ==> is_told(g, with_dependents(v, g[i], ids, k), r),
        forall|a: Seq<char>, b: Seq<char>| #[trigger]
            covered(v, a, b) ==> covered(with_dependents(v, g[i], ids, k), a, b),
        forall|d: int|
            0 <= d < k && is_modified_id(g, ms, (#[trigger] g[i].dependents[d]).id)
                && g[i].dependents[d].id != g[i].id ==> is_answered(
                g,
                with_dependents(v, g[i], ids, k),
                i,
                d,
            ),
    decreases k,
{
    if k <= 0 {
        assert forall|x: int| 0 <= x < why.len() implies comes_first(
            g,
            #[trigger] why[x],
            Reason { entity: i, dependency: false, place: k },
        ) by {
            assert(comes_first(
                g,
                why[x],
                Reason { entity: i, dependency: true, place: g[i].dependencies.len() as int },
            ));
        }
        why
    } else {
        let front = with_dependents(v, g[i], ids, k - 1);
        let out = dependents_have_reasons(g, ms, ids, i, v, why, k - 1);
        let r = Reason { entity: i, dependency: false, place: k - 1 };
        let n = g[i].dependents[k - 1];
        let now = with_dependents(v, g[i], ids, k);
        if ids.contains(n.id) && n.id != g[i].id && !covered(front, n.entity.name, g[i].name) {
            let w = neighbour_warning(g[i], n, WarningKindView::DependentAlsoModified);
            assert(tells(g, r, w));
            one_more_reason(g, ms, front, out, w, r);
            assert forall|q: Reason| #[trigger] is_told(g, v, q) implies is_told(g, now, q) by {
                told_stays_told(g, front, w, q);
            }
            assert forall|a: Seq<char>, b: Seq<char>| #[trigger] covered(v, a, b) implies covered(
                now,
                a,
                b,
            ) by {
                covered_stays_covered(front, w, a, b);
            }
            assert(now[front.len() as int] == w);
            assert(is_told(g, now, r));
            assert forall|d: int|
                0 <= d < k && is_modified_id(g, ms, (#[trigger] g[i].dependents[d]).id)
                    && g[i].dependents[d].id != g[i].id implies is_answered(g, now, i, d) by {
                if d < k - 1 {
                    let q = Reason { entity: i, dependency: false, place: d };
                    assert(is_answered(g, front, i, d));
                    if is_told(g, front, q) {
                        told_stays_told(g, front, w, q);
                    } else {
                        covered_stays_covered(
                            front,
                            w,
                            g[i].dependents[d].entity.name,
                            g[i].name,
                        );
                    }
                }
            }
            out.push(r)
        } else {
            out
        }
    }
}

/// Every reason of the entity is told, or answered from the other direction.
spec fn entity_is_told(
    g: Seq<GraphEntityView>,
    ms: Seq<(Seq<char>, Seq<char>)>,
    v: Seq<WarningView>,
    i: int,
) -> bool {
    &&& forall|d: int|
        0 <= d < g[i].dependencies.len() && is_modified_id(
            g,
            ms,
            (#[trigger] g[i].dependencies[d]).id,
        ) ==> is_told(g, v, Reason { entity: i, dependency: true, place: d })
    &&& forall|d: int|
        0 <= d < g[i].dependents.len() && is_modified_id(g, ms, (#[trigger] g[i].dependents[d]).id)
            && g[i].dependents[d].id != g[i].id ==> is_answered(g, v, i, d)
}

proof fn warnings_have_reasons(
    g: Seq<GraphEntityView>,
    ms: Seq<(Seq<char>, Seq<char>)>,
    ids: Seq<Seq<char>>,
    k: int,
) -> (out: Seq<Reason>)
    requires
        distinct_ids(g),
        ids == modified_ids(g, ms, ms.len() as int),
        crate::text::strictly_sorted(ids),
        forall|id: Seq<char>| #[trigger] ids.contains(id) <==> is_modified_id(g, ms, id),
        0 <= k <= ids.len(),
    ensures
        reasons_for(g, ms, warnings_upto(g, ids, k), out),
        forall|x: int|
            0 <= x < out.len() ==> (exists|y: int|
                0 <= y < k && g[(#[trigger] out[x]).entity].id == #[trigger] ids[y]),
        forall|i: int, y: int|
            0 <= y < k && is_modified(g, ms, i) && (#[trigger] g[i]).id == (#[trigger] ids[y])
                ==> entity_is_told(g, ms, warnings_upto(g, ids, k), i),
    decreases k,
{
    if k <= 0 {
        Seq::empty()
    } else {
        let front = warnings_upto(g, ids, k - 1);
        let why = warnings_have_reasons(g, ms, ids, k - 1);
        let id = ids[k - 1];
        assert(ids.contains(id));
        let j = choose|j: int| is_modified(g, ms, j) && (#[trigger] g[j]).id == id;
        graph_at_finds(g, id, 0);
        assert(g[j].id == id);
        let i = graph_at(g, id, 0)->0;
        assert(i == j);
        assert forall|x: int| 0 <= x < why.len() implies before(
            g[(#[trigger] why[x]).entity].id,
            g[i].id,
        ) by {
            let y = choose|y: int| 0 <= y < k - 1 && g[why[x].entity].id == #[trigger] ids[y];
            assert(before(ids[y], ids[k - 1]));
        }
        let nd = g[i].dependencies.len() as int;
        let nu = g[i].dependents.len() as int;
        let mid = with_dependencies(front, g[i], ids, nd);
        let w1 = dependencies_have_reasons(g, ms, ids, i, front, why, nd);
        let now = with_dependents(mid, g[i], ids, nu);
        let w2 = dependents_have_reasons(g, ms, ids, i, mid, w1, nu);
        assert(warnings_upto(g, ids, k) == now);
        covered_grows(front, g[i], ids, nd);
        assert forall|x: int| 0 <= x < w2.len() implies (exists|y: int|
            0 <= y < k && g[(#[trigger] w2[x]).entity].id == #[trigger] ids[y]) by {
            assert(is_reason(g, ms, w2[x]));
            let e = w2[x].entity;
            assert(comes_first(g, w2[x], Reason { entity: i, dependency: false, place: nu }));
            if e == i {
                assert(g[w2[x].entity].id == ids[k - 1]);
            } else {
                assert(is_modified_id(g, ms, g[e].id)) by {
                    assert(is_modified(g, ms, e) && g[e].id == g[e].id);
                }
                assert(ids.contains(g[e].id));
                let y = choose|y: int| 0 <= y < ids.len() && ids[y] == g[e].id;
                if y >= k {
                    assert(before(ids[k - 1], ids[y]));
                    assert(id.subrange(0, 0) =~= g[e].id.subrange(0, 0));
                    crate::text::before_total(id, g[e].id, 0);
                }
                assert(g[w2[x].entity].id == ids[y]);
            }
        }
        assert forall|e: int, y: int|
            0 <= y < k && is_modified(g, ms, e) && (#[trigger] g[e]).id == (
            #[trigger] ids[y]) implies entity_is_told(g, ms, now, e) by {
            if y == k - 1 {
                assert(e == i);
                assert forall|d: int|
                    0 <= d < nd && is_modified_id(
                        g,
                        ms,
                        (#[trigger] g[i].dependencies[d]).id,
                    ) implies is_told(
                    g,
                    now,
                    Reason { entity: i, dependency: true, place: d },
                ) by {
                    assert(is_told(g, mid, Reason { entity: i, dependency: true, place: d }));
                }
            } else {
                assert(entity_is_told(g, ms, front, e));
                assert forall|d: int|
                    0 <= d < g[e].dependencies.len() && is_modified_id(
                        g,
                        ms,
                        (#[trigger] g[e].dependencies[d]).id,
                    ) implies is_told(
                    g,
                    now,
                    Reason { entity: e, dependency: true, place: d },
                ) by {
                    let q = Reason { entity: e, dependency: true, place: d };
                    assert(is_told(g, front, q));
                    assert(is_told(g, mid, q));
                }
                assert forall|d: int|
                    0 <= d < g[e].dependents.len() && is_modified_id(
                        g,
                        ms,
                        (#[trigger] g[e].dependents[d]).id,
                    ) && g[e].dependents[d].id != g[e].id implies is_answered(g, now, e, d) by {
                    let q = Reason { entity: e, dependency: false, place: d };
                    assert(is_answered(g, front, e, d));
                    if is_told(g, front, q) {
                        assert(is_told(g, mid, q));
                    } else {
                        let a = g[e].dependents[d].entity.name;
                        assert(covered(mid, a, g[e].name));
                    }
                }
            }
        }
        w2
    }
}

proof fn covered_grows(v: Seq<WarningView>, e: GraphEntityView, ids: Seq<Seq<char>>, k: int)
    requires
        0 <= k <= e.dependencies.len(),
    ensures
        forall|a: Seq<char>, b: Seq<char>| #[trigger]
            covered(v, a, b) ==> covered(with_dependencies(v, e, ids, k), a, b),
    decreases k,
{
    if k > 0 {
        covered_grows(v, e, ids, k - 1);
        let front = with_dependencies(v, e, ids, k - 1);
        let n = e.dependencies[k - 1];
        if ids.contains(n.id) {
            let w = neighbour_warning(e, n, WarningKindView::DependencyAlsoModified);
            assert forall|a: Seq<char>, b: Seq<char>| #[trigger] covered(v, a, b) implies covered(
                with_dependencies(v, e, ids, k),
                a,
                b,
            ) by {
                covered_stays_covered(front, w, a, b);
            }
        }
    }
}

/// Every warning has a reason of its own, and they come in the order of the reasons: an
/// entity that was modified, and one that it refers to or that refers to it and that was
/// modified too. Fewer than two modified entities give no warning.
pub proof fn every_warning_has_a_reason(
    g: Seq<GraphEntityView>,
    ms: Seq<(Seq<char>, Seq<char>)>,
) -> (why: Seq<Reason>)
    requires
        distinct_ids(g),
    ensures
        why.len() == merge_warnings(g, ms).len(),
        forall|x: int| 0 <= x < why.len() ==> is_reason(g, ms, #[trigger] why[x]),
        forall|x: int|
            0 <= x < why.len() ==> tells(g, #[trigger] why[x], merge_warnings(g, ms)[x]),
        forall|x: int, y: int|
            0 <= x < y < why.len() ==> comes_first(g, #[trigger] why[x], #[trigger] why[y]),
        ms.len() < 2 ==> why.len() == 0,
{
    if ms.len() < 2 {
        Seq::empty()
    } else {
        let n = ms.len() as int;
        let ids = modified_ids(g, ms, n);
        modified_ids_hold(g, ms, n);
        assert(ms.take(n) =~= ms);
        warnings_have_reasons(g, ms, ids, ids.len() as int)
    }
}

/// Of two modified entities of which the one refers to the other, wherever they are
/// defined, the result holds a warning on the one that relates to the other.
pub proof fn a_modified_dependency_is_warned_of(
    g: Seq<GraphEntityView>,
    ms: Seq<(Seq<char>, Seq<char>)>,
    i: int,
    d: int,
    j: int,
)
    requires
        distinct_ids(g),
        ms.len() >= 2,
        is_modified(g, ms, i),
        is_modified(g, ms, j),
        0 <= d < g[i].dependencies.len(),
        g[i].dependencies[d].id == g[j].id,
    ensures
        exists|x: int|
            0 <= x < merge_warnings(g, ms).len() && {
                let w = #[trigger] merge_warnings(g, ms)[x];
                &&& w.kind is DependencyAlsoModified
                &&& w.entity_name == g[i].name
                &&& w.entity_type == g[i].entity_type
                &&& w.file_path == g[i].file_path
                &&& w.related == seq![g[i].dependencies[d].entity]
            },
{
    let n = ms.len() as int;
    let ids = modified_ids(g, ms, n);
    modified_ids_hold(g, ms, n);
    assert(ms.take(n) =~= ms);
    let _why = warnings_have_reasons(g, ms, ids, ids.len() as int);
    assert(is_modified(g, ms, i) && g[i].id == g[i].id);
    assert(ids.contains(g[i].id));
    let y = choose|y: int| 0 <= y < ids.len() && ids[y] == g[i].id;
    assert(g[i].id == ids[y]);
    let v = merge_warnings(g, ms);
    assert(entity_is_told(g, ms, v, i));
    assert(is_modified(g, ms, j) && g[j].id == g[i].dependencies[d].id);
    let r = Reason { entity: i, dependency: true, place: d };
    assert(is_told(g, v, r));
    let x = choose|x: int| 0 <= x < v.len() && tells(g, r, #[trigger] v[x]);
    assert(v[x].related =~= seq![g[i].dependencies[d].entity]);
}

/// Of two modified entities of which the one is used by the other, the result holds a
/// warning on the one that relates to the other, or a warning on an entity of the
/// other's name that relates to one of this one's name.
pub proof fn a_modified_dependent_is_warned_of(
    g: Seq<GraphEntityView>,
    ms: Seq<(Seq<char>, Seq<char>)>,
    i: int,
    d: int,
    j: int,
)
    requires
        distinct_ids(g),
        ms.len() >= 2,
        is_modified(g, ms, i),
        is_modified(g, ms, j),
        i != j,
        0 <= d < g[i].dependents.len(),
        g[i].dependents[d].id == g[j].id,
    ensures
        exists|x: int|
            0 <= x < merge_warnings(g, ms).len() && {
                let w = #[trigger] merge_warnings(g, ms)[x];
                let n = g[i].dependents[d].entity;
                ||| w.kind is DependentAlsoModified && w.entity_name == g[i].name && w.entity_type
                    == g[i].entity_type && w.file_path == g[i].file_path && w.related == seq![n]
                ||| w.kind is DependencyAlsoModified && w.entity_name == n.name && w.related.len()
                    == 1 && w.related[0].name == g[i].name
            },
{
    let n = ms.len() as int;
    let ids = modified_ids(g, ms, n);
    modified_ids_hold(g, ms, n);
    assert(ms.take(n) =~= ms);
    let why = warnings_have_reasons(g, ms, ids, ids.len() as int);
    assert(is_modified(g, ms, i) && g[i].id == g[i].id);
    assert(ids.contains(g[i].id));
    let y = choose|y: int| 0 <= y < ids.len() && ids[y] == g[i].id;
    assert(g[i].id == ids[y]);
    let v = merge_warnings(g, ms);
    assert(entity_is_told(g, ms, v, i));
    assert(is_modified(g, ms, j) && g[j].id == g[i].dependents[d].id);
    assert(is_answered(g, v, i, d));
    let r = Reason { entity: i, dependency: false, place: d };
    if is_told(g, v, r) {
        let x = choose|x: int| 0 <= x < v.len() && tells(g, r, #[trigger] v[x]);
        assert(v[x].related =~= seq![g[i].dependents[d].entity]);
    } else {
        let x = choose|x: int|
            0 <= x < v.len() && covers(
                #[trigger] v[x],
                g[i].dependents[d].entity.name,
                g[i].name,
            );
        assert(tells(g, why[x], v[x]));
        let q = choose|q: int|
            0 <= q < v[x].related.len() && (#[trigger] v[x].related[q]).name == g[i].name;
        assert(q == 0);
    }
}


/// A warning on an entity that another uses is given only where no warning in front says
/// the same from the other direction.
pub open spec fn nothing_is_said_twice(v: Seq<WarningView>) -> bool {
    forall|x: int, y: int|
        0 <= x < y < v.len() && (#[trigger] v[y]).kind is DependentAlsoModified ==> !((
        #[trigger] v[x]).kind is DependencyAlsoModified && v[x].entity_name == v[y].related[0].name
            && v[x].related.len() > 0 && v[x].related[0].name == v[y].entity_name)
}

proof fn saying_more_says_nothing_twice(v: Seq<WarningView>, w: WarningView)
    requires
        nothing_is_said_twice(v),
        w.kind is DependentAlsoModified ==> !covered(v, w.related[0].name, w.entity_name),
    ensures
        nothing_is_said_twice(v.push(w)),
{
    let n = v.push(w);
    assert forall|x: int, y: int|
        0 <= x < y < n.len() && (#[trigger] n[y]).kind is DependentAlsoModified implies !((
    #[trigger] n[x]).kind is DependencyAlsoModified && n[x].entity_name == n[y].related[0].name
        && n[x].related.len() > 0 && n[x].related[0].name == n[y].entity_name) by {
        assert(n[x] == v[x]);
        if y < v.len() {
            assert(n[y] == v[y]);
        } else if v[x].kind is DependencyAlsoModified && v[x].entity_name == w.related[0].name
            && v[x].related.len() > 0 && v[x].related[0].name == w.entity_name {
            assert(covers(v[x], w.related[0].name, w.entity_name));
        }
    }
}

proof fn upto_says_nothing_twice(g: Seq<GraphEntityView>, ids: Seq<Seq<char>>, k: int)
    ensures
        nothing_is_said_twice(warnings_upto(g, ids, k)),
    decreases k,
{
    if k > 0 {
        upto_says_nothing_twice(g, ids, k - 1);
        let front = warnings_upto(g, ids, k - 1);
        if let Some(i) = graph_at(g, ids[k - 1], 0) {
            let nd = g[i].dependencies.len() as int;
            dependencies_say_nothing_twice(front, g[i], ids, nd);
            let mid = with_dependencies(front, g[i], ids, nd);
            dependents_say_nothing_twice(mid, g[i], ids, g[i].dependents.len() as int);
        }
    }
}

proof fn dependencies_say_nothing_twice(
    v: Seq<WarningView>,
    e: GraphEntityView,
    ids: Seq<Seq<char>>,
    k: int,
)
    requires
        nothing_is_said_twice(v),
    ensures
        nothing_is_said_twice(with_dependencies(v, e, ids, k)),
    decreases k,
{
    if k > 0 {
        dependencies_say_nothing_twice(v, e, ids, k - 1);
        saying_more_says_nothing_twice(
            with_dependencies(v, e, ids, k - 1),
            neighbour_warning(e, e.dependencies[k - 1], WarningKindView::DependencyAlsoModified),
        );
    }
}

proof fn dependents_say_nothing_twice(
    v: Seq<WarningView>,
    e: GraphEntityView,
    ids: Seq<Seq<char>>,
    k: int,
)
    requires
        nothing_is_said_twice(v),
    ensures
        nothing_is_said_twice(with_dependents(v, e, ids, k)),
    decreases k,
{
    if k > 0 {
        dependents_say_nothing_twice(v, e, ids, k - 1);
        let front = with_dependents(v, e, ids, k - 1);
        let d = e.dependents[k - 1];
        if !covered(front, d.entity.name, e.name) {
            saying_more_says_nothing_twice(
                front,
                neighbour_warning(e, d, WarningKindView::DependentAlsoModified),
            );
        }
    }
}

/// No two warnings say the same from both directions, the later one of the user's side.
pub proof fn no_reference_is_warned_of_twice(
    g: Seq<GraphEntityView>,
    ms: Seq<(Seq<char>, Seq<char>)>,
)
    ensures
        nothing_is_said_twice(merge_warnings(g, ms)),
{
    let ids = modified_ids(g, ms, ms.len() as int);
    upto_says_nothing_twice(g, ids, ids.len() as int);
}

} // verus!
