//! Records which plugin added which plugin, and renders the result.
//!
//! An edge `A -> B` means that `A`'s build step added `B`. Nothing about data flow
//! is inferred. The graph keeps one node per plugin type, a synthetic root at index
//! 0, and the stack of plugins currently being built, so that nesting is captured
//! by pairing [`PluginGraph::begin_owned`] with [`PluginGraph::end_owned`].
//!
//! The mathematical model of a graph is [`graph::GraphView`]; every operation is
//! specified over it, and the laws that relate operations are proof functions in
//! [`graph`], [`names`], [`order`] and [`render`].
//!
//! - [`text`]: characters, decimal numbers and string building.
//! - [`names`]: the short label, module and crate derived from a type path.
//! - [`graph`]: the recorded graph and its well-formedness.
//! - [`order`]: the order in which modules take colour slots.
//! - [`render`]: the Mermaid rendering and the JSON document.
//! - [`format`]: output formats.
//! - [`history`]: laws over sequences of calls on one graph.
//! - [`mermaid`]: what a Mermaid rendering holds, read back from its text.

pub mod text;
pub mod names;
pub mod graph;
pub mod order;
pub mod render;
pub mod format;
pub mod history;
pub mod mermaid;

pub use graph::{root, NodeId, PluginGraph, PluginNode};
pub use format::Format;
