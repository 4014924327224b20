//! A stepwise dataflow-graph execution engine for spell circuits.
//!
//! A circuit is a directed acyclic graph of effect-producing nodes.  It is
//! authored through a mutable [`spellbuilder::CircuitBuilder`], frozen by
//! `compile` into an immutable [`spellcircuit::SpellCircuit`], and then
//! evaluated one node per synchronization step, gated by a barrier that
//! waits for all in-flight side effects to drain.

pub mod effect;
pub mod global_effect;
pub mod spell;
pub mod spellang;
pub mod spellbuilder;
pub mod spellcircuit;
pub mod types;
pub mod unit;
