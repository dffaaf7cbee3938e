//! A layered input-binding resolver.
//!
//! Chords of hardware switches (keys, mouse buttons, mouse motion, scroll) are bound to
//! actions in a graph. Presses and releases of the switches are resolved into actions that
//! become active and inactive, with marks for what changed in the current frame.
//!
//! - [`switch`]: the switches, and lists of switches taken as sets.
//! - [`keymap`]: the identifiers of actions.
//! - [`graph`]: the graph store, a `petgraph` graph, and what is taken for granted of it.
//! - [`state`]: the mathematical model of the resolver and of its operations.
//! - [`inputmap`]: the resolver, each operation with its contract over the model.
//! - [`events`]: taking in the raw hardware events of a frame.
//! - [`lemmas`], [`soundness`]: the invariant of the binding graph and that it is kept.
//! - [`laws`], [`rebinding`]: what holds of the resolver whatever is bound and pressed.
pub mod events;
pub mod graph;
pub mod inputmap;
pub mod keymap;
pub mod laws;
pub mod lemmas;
pub mod rebinding;
pub mod soundness;
pub mod state;
pub mod switch;
