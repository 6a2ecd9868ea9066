//! Local search over recorded assistant sessions: an incremental indexing
//! pipeline, a background-indexing coordination protocol, a debounced
//! interactive search/selection state machine, and relevance ranking with
//! context-window extraction for snippets.

pub mod app;
pub mod engine;
pub mod filters;
pub mod pipeline;
pub mod rank;
pub mod session;
pub mod state;
pub mod text;
pub mod timeparse;

use vstd::prelude::*;

verus! {

} // verus!
