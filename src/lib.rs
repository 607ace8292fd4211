//! Hardware inventory and driver reconciliation.
//!
//! The library turns raw probe output into a canonical inventory of hardware
//! components, resolves each component against a driver knowledge base,
//! plans a minimal set of installation steps and drives their execution as a
//! state machine whose side effects are carried out by the caller.

pub mod model;
pub mod parse;
pub mod inventory;
pub mod resolve;
pub mod plan;
pub mod execute;
pub mod pipeline;
