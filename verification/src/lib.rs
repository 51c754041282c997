//! Tracing for canisters: what a trace records, how a recorded trace is put in
//! order and compared, and where a canister's source should be instrumented.

pub mod any_order;
pub mod diff;
pub mod diff_laws;
pub mod diff_mirror;
pub mod diff_view;
pub mod diff_walk;
pub mod event;
pub mod groups;
pub mod instrument;
pub mod method;
pub mod names;
pub mod order;
pub mod replay;
pub mod replay_calls;
pub mod replay_order;
pub mod replay_view;
pub mod store;
pub mod text;
pub mod trace;
pub mod value;
pub mod view_laws;
