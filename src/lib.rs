//! Readiness bridging between an asynchronous DNS resolution engine and a one-shot
//! polling primitive, with the decisions of the loop thread that drives it.
//!
//! - [`interest`]: the registry of what the engine wants watched, and the poller
//!   operations that keep the poller in step with it.
//! - [`event_loop`]: what the loop thread does after each wait.
//! - [`outcome`]: how a query's single outcome reaches a waiting caller.

pub mod event_loop;
pub mod interest;
pub mod nameinfo;
pub mod outcome;

pub use crate::event_loop::{EngineCall, LoopState, Readiness, Verdict, WaitOutcome};
pub use crate::interest::{Interest, InterestRegistry, PollerOp, Socket};
pub use crate::nameinfo::NameInfoResult;
pub use crate::outcome::settle_delivery;
