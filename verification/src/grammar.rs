//! What the parsers of the grammars say of a file.

use vstd::prelude::*;
use crate::entity::{semantic_views, SemanticEntity, SemanticView};
use crate::json_layout::{is_laid_out, is_quiet, laid_out, quiet};
use crate::text::{chars_of, starts, starts_with, str_eq, trim_start, trimmed_start};
use crate::v2::types::opt_view;

verus! {

broadcast use vstd::string::group_string_axioms;

/// The id of the parser that a path is given to, if any is.
pub uninterp spec fn plugin_for(path: Seq<char>) -> Option<Seq<char>>;

/// `sem_core`'s `ParserRegistry::get_plugin` on its default registry, and the id of
/// what it found. Nothing is claimed of it but that it is a function of the path.
#[verifier::external_body]
fn plugin_id(path: &str) -> (r: Option<String>)
    ensures
        opt_view(r) == plugin_for(path@),
{
    let registry = sem_core::parser::plugins::create_default_registry();
    registry.get_plugin(path).map(|p| p.id().to_string())
}

/// The entities that the parser for a path finds in a text, if there is one.
pub uninterp spec fn parsed_entities(content: Seq<char>, path: Seq<char>) -> Option<
    Seq<SemanticView>,
>;

/// The view of an optional list of entities.
pub open spec fn opt_entities(v: Option<Vec<SemanticEntity>>) -> Option<Seq<SemanticView>> {
    match v {
        Some(x) => Some(semantic_views(x@)),
        None => None,
    }
}

/// May the parser with this id be given the text?
///
/// The parsers of component files and of templates keep results of other runs or
/// index lines that a text may not have, and the one for JSON finds the end of an object
/// by a line with its closing brace, which it may mistake. The others take any text that
/// is not too long to be counted.
pub open spec fn takes(id: Seq<char>, content: Seq<char>) -> bool {
    &&& id != "vue"@ && id != "svelte"@ && id != "erb"@
    &&& content.len() <= 0x7fff_ffff
    &&& id == "json"@ ==> !starts(trim_start(content), "{"@) || quiet(content) || laid_out(content)
}

/// `sem_core`'s `SemanticParserPlugin::extract_entities_with_tree`, of the parser that
/// its default registry gives the path to, without the tree: a function of the text
/// and the path, and there is an answer exactly where there is a parser. The plain
/// `extract_entities` asks a cache first, which may lie on disk; this one parses.
#[verifier::external_body]
fn extract_entities(content: &str, path: &str) -> (r: Option<Vec<SemanticEntity>>)
    requires
        plugin_for(path@) matches Some(id) ==> takes(id, content@),
    ensures
        opt_entities(r) == parsed_entities(content@, path@),
        r is Some <==> plugin_for(path@) is Some,
{
    let registry = sem_core::parser::plugins::create_default_registry();
    let found = registry.get_plugin(path).map(|p| p.extract_entities_with_tree(content, path).0);
    found.map(|v| v.into_iter().map(|e| SemanticEntity {
        id: e.id,
        name: e.name,
        entity_type: e.entity_type,
        parent_id: e.parent_id,
        content: e.content,
        start_line: e.start_line,
        end_line: e.end_line,
    }).collect())
}

/// Does the parser know the structure of the text? One that only cuts it into chunks
/// does not.
pub open spec fn structural(plugin: Option<Seq<char>>) -> bool {
    plugin matches Some(id) && id != "fallback"@
}

/// Does the parser with this id know the structure of the text?
pub fn is_structural(plugin: Option<&str>) -> (r: bool)
    ensures
        r == structural(crate::conflict::opt_str(plugin)),
{
    match plugin {
        Some(id) => !str_eq(id, "fallback"),
        None => false,
    }
}

/// Is there a grammar for this file?
pub fn has_grammar(path: &str) -> (r: bool)
    ensures
        r == structural(plugin_for(path@)),
{
    let id = plugin_id(path);
    is_structural(crate::conflict::as_opt_str(&id))
}

fn is_taken(id: &str, content: &str) -> (r: bool)
    ensures
        r == takes(id@, content@),
{
    if str_eq(id, "vue") || str_eq(id, "svelte") || str_eq(id, "erb") {
        return false;
    }
    let c = chars_of(content);
    if c.len() > 0x7fff_ffff {
        return false;
    }
    !str_eq(id, "json") || !starts_with(trimmed_start(c.as_slice()), "{") || is_quiet(
        c.as_slice(),
    ) || is_laid_out(c.as_slice())
}

/// Can the text be read? There is a grammar for the file, and its parser takes the
/// text.
pub open spec fn can_be_read(content: Seq<char>, path: Seq<char>) -> bool {
    structural(plugin_for(path)) && takes(plugin_for(path)->0, content)
}

/// What the parser finds in a text, or `None` where it cannot be read.
pub open spec fn entities_in(content: Seq<char>, path: Seq<char>) -> Option<Seq<SemanticView>> {
    if can_be_read(content, path) {
        parsed_entities(content, path)
    } else {
        None
    }
}

/// The entities that the parser finds in a text, or `None` where there is no grammar
/// for the file or its parser does not take the text.
pub fn parse(content: &str, path: &str) -> (r: Option<Vec<SemanticEntity>>)
    ensures
        opt_entities(r) == entities_in(content@, path@),
        r is Some <==> can_be_read(content@, path@),
{
    match plugin_id(path) {
        Some(id) => {
            if !str_eq(id.as_str(), "fallback") && is_taken(id.as_str(), content) {
                extract_entities(content, path)
            } else {
                None
            }
        },
        None => None,
    }
}

} // verus!
