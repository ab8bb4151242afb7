//! An incremental computation engine: memoized derived values over
//! externally written sources, with epoch-based invalidation, dependency
//! tracking and early cutoff. A derived function is a registered recipe,
//! called on an interned argument; each (function, argument) pair is one
//! memoized node.

pub mod ids;
pub mod params;
pub mod node;
pub mod recipe;
pub mod model;
pub mod table;
pub mod engine;
pub mod database;
pub mod macro_fns;

pub use ids::{DerivedNodeId, Epoch, Key, NodeKind, ParamId};
pub use params::{ParamArena, ParamValue};
pub use node::{Dependency, DerivedNode, DidRecalculate, SourceNode};
pub use recipe::{Combine, Recipe};
pub use database::{Database, EngineError};
pub use macro_fns::{
    execute_memoized_function, get_param, init_param_vec, intern_borrowed_param,
    intern_owned_param, ParamVec,
};
