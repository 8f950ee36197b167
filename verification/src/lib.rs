//! cuelight: a deterministic discrete-event simulator for distributed systems.
//!
//! The harness is the network. Nodes are separate processes speaking JSON lines; the harness owns
//! logical time, routes every message and injects faults, and a run replays exactly from its
//! scenario. This crate holds everything the harness decides: the random stream, the draw of a
//! scenario from a space, the event queue and the rules of delivery, the journal entries, and the
//! readers that judge a journal afterwards. Processes, files and JSON text live with the caller.

pub mod rng;
pub mod text;
pub mod words;
pub mod json;
pub mod scenario;
pub mod render;
pub mod draw;
pub mod validate;
pub mod proto;
pub mod journal;
pub mod node;
pub mod sim;
pub mod machine;
pub mod suite;
pub mod checkers;
pub mod viz;

pub use scenario::{Fault, Scenario, Stimulus};
pub use sim::{Outcome, Sim};
