//! Decision logic of the opencrab agent host: self-scheduling alarms, the
//! per-agent memory pipeline (ingest, distil, embed, consolidate, search) and
//! the fixture evaluation harness.
pub mod text;
pub mod json;
pub mod render;
pub mod distiller;
pub mod prompts;
pub mod consolidate;
pub mod ingest;
pub mod bignat;
pub mod embedder;
pub mod search;
pub mod alarm;
pub mod schema;
pub mod assertions;
pub mod rpc;
pub mod runner;
pub mod fixture;
pub mod cli;
pub mod corpus;
pub mod scenario;
