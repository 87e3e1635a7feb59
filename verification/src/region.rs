//! A file as it is tiled: entities, and the text between them.

use vstd::prelude::*;

verus! {

/// One piece of a file.
#[derive(Debug, Clone)]
pub enum FileRegion {
    /// The text of one entity, with the comments that lead it.
    Entity { entity_id: String, content: String },
    /// The text between two entities, under a key that says where it stands.
    Interstitial { position_key: String, content: String },
}

/// A [`FileRegion`] with its strings read as texts.
pub enum RegionView {
    Entity { entity_id: Seq<char>, content: Seq<char> },
    Interstitial { position_key: Seq<char>, content: Seq<char> },
}

impl View for FileRegion {
    type V = RegionView;

    open spec fn view(&self) -> RegionView {
        match *self {
            FileRegion::Entity { entity_id, content } => RegionView::Entity {
                entity_id: entity_id@,
                content: content@,
            },
            FileRegion::Interstitial { position_key, content } => RegionView::Interstitial {
                position_key: position_key@,
                content: content@,
            },
        }
    }
}

/// Merged text between entities, under its key.
#[derive(Debug, Clone)]
pub struct MergedGap {
    pub key: String,
    pub text: String,
}

impl View for MergedGap {
    type V = (Seq<char>, Seq<char>);

    open spec fn view(&self) -> (Seq<char>, Seq<char>) {
        (self.key@, self.text@)
    }
}

} // verus!
