use vstd::prelude::*;

pub mod content;
pub mod cyclic_graph;
pub mod error;
pub mod graph_view;
pub mod id_generator;
pub mod identifier;
pub mod laws;
pub mod node;

pub use content::{Content, SimpleContent};
pub use cyclic_graph::CyclicGraph;
pub use error::CyclicGraphError as Error;
pub use error::CyclicGraphError;
pub use graph_view::GraphView;
pub use id_generator::{GeneratorMode, IdGenerator};
pub use identifier::Identifier;
pub use node::{Node, NodeView};

verus! {

} // verus!
