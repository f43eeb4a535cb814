//! Render-order resolution for layered scenes.
//!
//! A scene is a hierarchy of layers. Every layer holds a camera and a set of
//! drawable elements, and the order in which the elements of one layer are
//! drawn is resolved from depth-order dependencies: those of the groups that
//! the layer is registered in, those of the layer itself, and those that the
//! kinds of its shapes declare once and for all. Edits mark layers dirty; an
//! update resolves what is dirty, once.
//!
//! - [`item`], [`item_set`]: the items that ordering works on.
//! - [`order`]: what a resolved order is, and the laws it obeys.
//! - [`dependency_graph`]: the graph of dependencies and its resolution.
//! - [`shape_system`]: static orderings and the registry of shape systems.
//! - [`layer`]: one layer.
//! - [`store`], [`store_view`], [`reach`]: the layers of a scene, their
//!   groups, and the update that walks them.
//! - [`laws`]: what holds across several operations.
//! - [`suggestion_database`]: a store of suggestion entries and the
//!   documentation pages rendered from them.

pub mod dependency_graph;
pub mod item;
pub mod item_set;
pub mod laws;
pub mod layer;
pub mod order;
pub mod reach;
pub mod seq_facts;
pub mod shape_system;
pub mod store;
pub mod store_view;
pub mod suggestion_database;
