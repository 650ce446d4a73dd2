//! Typed decision primitives, a fail-closed workflow core, and the pure
//! arithmetic and validation rules of the decision-engine canisters.
pub mod types;
pub mod text;
pub mod math;
pub mod schema;
pub mod demo;
pub mod billing;
pub mod cost;
pub mod snapshot;
pub mod prompt;
pub mod pack;
pub mod batch;
pub mod workflow;
pub mod storage;
pub mod same;
pub mod engine;
pub mod sdk;
pub mod tetris;
pub mod icrc;
pub mod mock_ledger;
pub mod reconcile;
pub mod upload;
pub mod config;
pub mod upload_cli;
pub mod pack_cli;
pub mod entropy;
pub mod kernel;
pub mod ordered;
pub mod hf;
pub mod upload_plan;
pub mod profile;
