//! Composition engine for declarative documentation models: fragments of
//! nodes, relations and diagrams are aggregated, inheritance along parent
//! chains is resolved, relation instances are propagated from parent nodes,
//! and per-diagram definition blocks are assembled deterministically.

pub mod keyed;
pub mod laws;
pub mod merge;
pub mod model;
pub mod node;
pub mod relation;
pub mod render;
pub mod text;

use vstd::prelude::*;
use crate::node::Node;
use crate::relation::Relation;

verus! {

/// A failure of model composition or rendering.
#[derive(Debug)]
#[allow(inconsistent_fields)]
pub enum Error {
    /// One or more entities name a parent key that never resolves; carries
    /// every offending `(entity id, parent id)` pair.
    NodeHasUnknownParent { list: Vec<(String, String)> },
    /// A node without a definition, own or inherited, takes part in
    /// rendering or diagram assembly.
    NodeHasNoDefinition(Node),
    /// One or more relation instances name a catalog parent that does not
    /// exist; carries every offending `(node id, relation key, parent id)`
    /// triple.
    NodeRelationHasUnknownParent { list: Vec<(String, String, String)> },
    /// A relation without a definition, own or inherited, takes part in
    /// rendering.
    RelationHasNoDefinition(Relation),
    /// The template engine rejected a template; carries its message.
    Render(String),
}

} // verus!
