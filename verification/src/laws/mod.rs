//! What holds of the library as a whole.
//!
//! Each law is a proof function whose name begins with `law_`: its parameters
//! are what the law speaks of, and its contract states it over the same
//! transitions that the executable functions' contracts use.
pub mod accounts;
pub mod capacity;
pub mod completion;
pub mod counters;
pub mod determinism;
pub mod generation;
pub mod hashing;
pub mod intake;
pub mod mapping;
pub mod packing;
pub mod plans;
pub mod pool;
pub mod prefix;
pub mod progress;
pub mod replay;
pub mod room;
pub mod roster;
pub mod scripted;
pub mod sequences;
pub mod service;
pub mod sharing;
pub mod steps;
