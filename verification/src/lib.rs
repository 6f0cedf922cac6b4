//! Matrix state resolution over a lightweight event model: auth-ordered
//! topological sorting, state resolution (of a conflicted set, or of a whole
//! room from its heads), authorization rules, auth chains, conflicted
//! subgraph computation and the hypercube trace layout used by the prover.
pub mod ctopology;
pub mod text;
pub mod event;
pub mod event_map;
pub mod kahn;
pub mod priority;
pub mod state_map;
pub mod resolve;
pub mod auth;
pub mod id_set;
pub mod subgraph;
pub mod signature;
pub mod trace_compiler;
pub mod wasm_client;
pub mod room_state;
pub mod auth_chain;
pub mod pipeline;

pub use event::{JsonValue, KahnSortResult, LeanEvent, StateResVersion};
pub use event_map::EventMap;
pub use id_set::IdSet;
pub use kahn::{lean_kahn_sort, lean_kahn_sort_detailed};
pub use priority::SortPriority;
pub use resolve::resolve_lean;
pub use signature::{check_signature, verify_signature, SignatureError};
pub use state_map::{RoomState, StateMap};
pub use subgraph::{compute_v2_1_conflicted_subgraph, compute_v2_1_conflicted_subgraph_bounded, SubgraphResult};
