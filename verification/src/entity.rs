//! What a parser reports of one definition in a file.

use vstd::prelude::*;
use crate::v2::types::{copy_opt, opt_view};

verus! {

/// One definition in a file, as a parser reports it.
#[derive(Debug, Clone)]
pub struct SemanticEntity {
    pub id: String,
    pub name: String,
    pub entity_type: String,
    pub parent_id: Option<String>,
    pub content: String,
    /// The number of the declaration's first line, counting from one.
    pub start_line: usize,
    pub end_line: usize,
}

/// A [`SemanticEntity`] with its strings read as texts.
pub struct SemanticView {
    pub id: Seq<char>,
    pub name: Seq<char>,
    pub entity_type: Seq<char>,
    pub parent_id: Option<Seq<char>>,
    pub content: Seq<char>,
    pub start_line: int,
    pub end_line: int,
}

impl View for SemanticEntity {
    type V = SemanticView;

    open spec fn view(&self) -> SemanticView {
        SemanticView {
            id: self.id@,
            name: self.name@,
            entity_type: self.entity_type@,
            parent_id: opt_view(self.parent_id),
            content: self.content@,
            start_line: self.start_line as int,
            end_line: self.end_line as int,
        }
    }
}

impl SemanticEntity {
    /// A second entity with the same contents.
    pub fn copy(&self) -> (r: SemanticEntity)
        ensures
            r@ == self@,
    {
        SemanticEntity {
            id: self.id.clone(),
            name: self.name.clone(),
            entity_type: self.entity_type.clone(),
            parent_id: copy_opt(&self.parent_id),
            content: self.content.clone(),
            start_line: self.start_line,
            end_line: self.end_line,
        }
    }
}

/// The views of a list of entities.
pub open spec fn semantic_views(v: Seq<SemanticEntity>) -> Seq<SemanticView> {
    v.map_values(|e: SemanticEntity| e@)
}

} // verus!
